//! Reciprocals of normalized divisors, as used by the division algorithms
//! of Möller and Granlund.
use vstd::prelude::*;
use vstd::arithmetic::div_mod::*;
use vstd::arithmetic::power2::*;
use crate::double_word::{join, word};

verus! {

/// The reciprocal of a normalized single-word divisor `d`:
/// `floor((2^128 - 1) / d) - 2^64`.
pub open spec fn reciprocal_spec(d: int) -> int {
    (word() * word() - 1) / d - word()
}

/// The reciprocal of a normalized double-word divisor `d`:
/// `floor((2^192 - 1) / d) - 2^64`.
pub open spec fn reciprocal_2_spec(d: int) -> int {
    (word() * word() * word() - 1) / d - word()
}

/// Computes `floor((2^128 - 1) / d) - 2^64` for `d >= 2^63`.
pub fn reciprocal(d: u64) -> (v: u64)
    requires
        d >= 0x8000_0000_0000_0000u64,
    ensures
        v == reciprocal_spec(d as int),
{
    proof {
        assert(!d == u64::MAX - d) by (bit_vector);
    }
    // (2^128 - 1) - 2^64 * d, written as two words
    let n = join(!d, u64::MAX);
    let v = n / (d as u128);
    proof {
        let b = word();
        let big = b * b - 1;
        assert(n == big - b * d) by (nonlinear_arith)
            requires
                n == (b - 1 - d) * b + (b - 1),
                big == b * b - 1,
        ;
        let q = big / d as int;
        let r = big % d as int;
        lemma_fundamental_div_mod(big, d as int);
        assert(n == (q - b) * d + r) by (nonlinear_arith)
            requires
                big == d * q + r,
                n == big - b * d,
        ;
        lemma_mod_bound(big, d as int);
        lemma_fundamental_div_mod_converse(n as int, d as int, q - b, r);
        assert(q - b < b) by (nonlinear_arith)
            requires
                n == (q - b) * d + r,
                0 <= r,
                n == b * b - 1 - b * d,
                2 * d >= b,
                b == 0x1_0000_0000_0000_0000int,
        ;
    }
    v as u64
}

/// Computes `floor((2^192 - 1) / d) - 2^64` for `d >= 2^127`.
///
/// The dividend is `(2^128 - 1 - d) * 2^64 + (2^64 - 1)`, which is below
/// `d * 2^64`; it is divided one bit at a time.
pub fn reciprocal_2(d: u128) -> (v: u64)
    requires
        d >= 0x8000_0000_0000_0000_0000_0000_0000_0000u128,
    ensures
        v == reciprocal_2_spec(d as int),
{
    proof {
        assert(!d == u128::MAX - d) by (bit_vector);
        lemma2_to64();
    }
    let top: u128 = !d;
    let mut r: u128 = top;
    let mut q: u128 = 0;
    let mut i: u32 = 0;
    while i < 64
        invariant
            i <= 64,
            d >= 0x8000_0000_0000_0000_0000_0000_0000_0000u128,
            top == u128::MAX - d,
            r < d,
            q * d + r + 1 == (top + 1) * pow2(i as nat),
            q <= pow2(i as nat),
        decreases 64 - i,
    {
        proof {
            lemma_pow2_strictly_increases(i as nat, 64);
            lemma2_to64_rest();
        }
        let ghost old_q = q;
        let ghost old_r = r;
        // append a one bit to the partial remainder: 2r + 1
        if r >= d - r - 1 {
            q = 2 * q + 1;
            r = r - (d - r - 1);
        } else {
            q = 2 * q;
            r = 2 * r + 1;
        }
        proof {
            lemma_pow2_unfold((i + 1) as nat);
            let p = pow2(i as nat);
            assert(q * d + r + 1 == 2 * (old_q * d + old_r + 1)) by (nonlinear_arith)
                requires
                    (q == 2 * old_q + 1 && r == 2 * old_r + 1 - d) || (q == 2 * old_q && r == 2
                        * old_r + 1),
            ;
            assert(q * d + r + 1 == (top + 1) * pow2((i + 1) as nat)) by (nonlinear_arith)
                requires
                    q * d + r + 1 == 2 * (old_q * d + old_r + 1),
                    old_q * d + old_r + 1 == (top + 1) * p,
                    pow2((i + 1) as nat) == 2 * p,
            ;
            assert(q <= pow2((i + 1) as nat)) by (nonlinear_arith)
                requires
                    q * d + r + 1 == (top + 1) * pow2((i + 1) as nat),
                    top + 1 <= d,
                    d > 0,
                    r >= 0,
            ;
        }
        i = i + 1;
    }
    proof {
        let b = word();
        lemma2_to64_rest();
        assert(pow2(64) == b);
        // (q + 2^64) * d + r == 2^192 - 1
        assert((q + b) * d + r == b * b * b - 1) by (nonlinear_arith)
            requires
                q * d + r + 1 == (top + 1) * b,
                top == b * b - 1 - d,
        ;
        lemma_fundamental_div_mod_converse(b * b * b - 1, d as int, q + b, r as int);
        assert(q < b) by (nonlinear_arith)
            requires
                q * d + r + 1 == (top + 1) * b,
                top + 1 == b * b - d,
                2 * d >= b * b,
                r >= 0,
                d > 0,
        ;
    }
    q as u64
}

} // verus!
