//! Division problems with a known answer, built from a quotient, a
//! remainder and a divisor, as the benchmarks make them from random words.
use vstd::prelude::*;
use vstd::arithmetic::div_mod::*;
use crate::double_word::{high, low, mul_wide, word};

verus! {

/// A single-word divisor problem: the divisor is `d` with its top bit set,
/// the remainder is `r` reduced below it, and the numerator is
/// `q * divisor + remainder`. Returns `(numerator, divisor)`.
pub fn problem_2x1(q: u64, r: u64, d: u64) -> (res: (u128, u64))
    ensures
        res.1 == d | 0x8000_0000_0000_0000u64,
        res.1 >= 0x8000_0000_0000_0000u64,
        res.0 == q * res.1 + r % res.1,
        res.0 < res.1 * word(),
{
    let ghost d_in = d;
    let d = d | (1 << 63);
    proof {
        assert(d == (d_in | 0x8000_0000_0000_0000u64) && d >= 0x8000_0000_0000_0000u64)
            by (bit_vector)
            requires
                d == d_in | (1u64 << 63u64),
        ;
    }
    let r = r % d;
    proof {
        assert(q * d + r < d * word()) by (nonlinear_arith)
            requires
                r < d,
                q < word(),
                d > 0,
        ;
    }
    let n = (q as u128) * (d as u128) + (r as u128);
    (n, d)
}

/// A double-word divisor problem: the divisor is `d` with its top bit set,
/// the remainder is `r` reduced below it, and the three-word numerator
/// `q * divisor + remainder` is returned as its top two words and its low
/// word. Returns `(n21, n0, divisor)`.
pub fn problem_3x2(q: u64, r: u128, d: u128) -> (res: (u128, u64, u128))
    ensures
        res.2 == d | 0x8000_0000_0000_0000_0000_0000_0000_0000u128,
        res.2 >= 0x8000_0000_0000_0000_0000_0000_0000_0000u128,
        res.0 * word() + res.1 == q * res.2 + r % res.2,
        res.0 < res.2,
{
    let ghost d_in = d;
    let d = d | (1 << 127);
    proof {
        assert(d == (d_in | 0x8000_0000_0000_0000_0000_0000_0000_0000u128) && d
            >= 0x8000_0000_0000_0000_0000_0000_0000_0000u128) by (bit_vector)
            requires
                d == d_in | (1u128 << 127u128),
        ;
    }
    let r = r % d;
    let d1 = high(d);
    let d0 = low(d);
    let r1 = high(r);
    let r0 = low(r);
    let ghost b = word();
    proof {
        lemma_fundamental_div_mod(d as int, b);
        lemma_fundamental_div_mod(r as int, b);
        assert(q * d0 + r0 <= (b - 1) * (b - 1) + (b - 1)) by (nonlinear_arith)
            requires
                0 <= q < b,
                0 <= d0 < b,
                0 <= r0 < b,
        ;
    }
    // n = q * d + r
    let n10 = mul_wide(q, d0) + (r0 as u128);
    let n0 = low(n10);
    proof {
        lemma_fundamental_div_mod(n10 as int, b);
        assert(n10 as int / b <= b - 1) by (nonlinear_arith)
            requires
                n10 == b * (n10 as int / b) + n10 as int % b,
                n10 as int % b >= 0,
                n10 <= (b - 1) * (b - 1) + (b - 1),
                b > 1,
        ;
        assert(q * d1 <= (b - 1) * (b - 1)) by (nonlinear_arith)
            requires
                0 <= q < b,
                0 <= d1 < b,
        ;
    }
    let n21 = (high(n10) as u128) + mul_wide(q, d1) + (r1 as u128);
    proof {
        assert(n21 * b + n0 == q * d + r) by (nonlinear_arith)
            requires
                n21 == n10 as int / b + q * d1 + r1,
                n10 == b * (n10 as int / b) + n0,
                n10 == q * d0 + r0,
                d == b * d1 + d0,
                r == b * r1 + r0,
        ;
        assert(n21 < d) by (nonlinear_arith)
            requires
                n21 * b + n0 == q * d + r,
                0 <= n0,
                r < d,
                q < b,
                d > 0,
                b > 0,
        ;
    }
    (n21, n0, d)
}

} // verus!
