//! Splitting and joining of double words (`u128`) into single words (`u64`).
use vstd::prelude::*;
use vstd::arithmetic::div_mod::*;
use vstd::arithmetic::power2::*;
use vstd::bits::{lemma_u64_shl_is_mul, lemma_u64_shr_is_div, lemma_u128_shr_is_div};
use vstd::std_specs::bits::u64_leading_zeros;

verus! {

/// The radix of a single limb, `2^64`.
pub open spec fn word() -> int {
    0x1_0000_0000_0000_0000
}

/// The low word of a double word.
pub fn low(x: u128) -> (r: u64)
    ensures
        r == x as int % word(),
{
    proof {
        assert((x as u64) as int == x % 0x1_0000_0000_0000_0000u128) by (bit_vector);
    }
    x as u64
}

/// The high word of a double word.
pub fn high(x: u128) -> (r: u64)
    ensures
        r == x as int / word(),
{
    proof {
        assert(((x >> 64u128) as u64) as int == x / 0x1_0000_0000_0000_0000u128) by (bit_vector);
    }
    (x >> 64) as u64
}

/// The double word whose high word is `hi` and whose low word is `lo`.
pub fn join(hi: u64, lo: u64) -> (r: u128)
    ensures
        r == hi * word() + lo,
{
    proof {
        assert((((hi as u128) << 64u128) | (lo as u128)) as int == (hi as int)
            * 0x1_0000_0000_0000_0000int + (lo as int)) by (bit_vector);
    }
    ((hi as u128) << 64) | (lo as u128)
}

/// The full double-word product of two words.
pub fn mul_wide(a: u64, b: u64) -> (r: u128)
    ensures
        r == a * b,
{
    proof {
        vstd::arithmetic::mul::lemma_mul_upper_bound(
            a as int,
            u64::MAX as int,
            b as int,
            u64::MAX as int,
        );
    }
    (a as u128) * (b as u128)
}

/// A nonzero word with `z` leading zeros lies in `[2^(63 - z), 2^(64 - z))`.
pub proof fn lemma_leading_zeros_bounds(x: u64)
    requires
        x > 0,
    ensures
        0 <= u64_leading_zeros(x) < 64,
        pow2((63 - u64_leading_zeros(x)) as nat) <= x < pow2((64 - u64_leading_zeros(x)) as nat),
    decreases x,
{
    reveal(u64_leading_zeros);
    lemma2_to64();
    if x == 1 {
        assert(u64_leading_zeros(0) == 64);
        assert(u64_leading_zeros(1) == 63);
    } else {
        lemma_leading_zeros_bounds(x / 2);
        let z = u64_leading_zeros(x / 2);
        assert(u64_leading_zeros(x) == z - 1);
        assert(z >= 1) by {
            if z == 0 {
                lemma2_to64_rest();
                assert(pow2(63) == 0x8000_0000_0000_0000);
            }
        }
        lemma_pow2_unfold((64 - z) as nat);
        lemma_pow2_unfold((65 - z) as nat);
    }
}

/// Word shifts by `0 < s < 64` bits as arithmetic: the left shift keeps the
/// low word of `x * 2^s`, the right shift by `64 - s` divides by `2^(64 - s)`,
/// and the two results have no bit in common.
pub proof fn lemma_word_shifts(x: u64, y: u64, s: u32)
    requires
        0 < s < 64,
    ensures
        (x << s) as int == (x * pow2(s as nat)) % word(),
        (y >> ((64 - s) as u32)) as int == y as int / pow2((64 - s) as nat) as int,
        ((x << s) | (y >> ((64 - s) as u32))) as int == (x << s) as int + (y >> ((64 - s) as u32)) as int,
        (y >> ((64 - s) as u32)) < pow2(s as nat),
{
    let s64 = s as u64;
    let t64 = (64 - s) as u64;
    assert(x << s == x << s64) by (bit_vector)
        requires
            s64 == s as u64,
    ;
    let t32 = (64 - s) as u32;
    assert(y >> t32 == y >> t64) by (bit_vector)
        requires
            t64 == t32 as u64,
    ;
    let m = x >> t64;
    let lo = (x - (m << t64)) as u64;
    assert(m << t64 <= x) by (bit_vector)
        requires
            m == x >> t64,
            0 < t64 < 64,
    ;
    assert(x << s64 == lo << s64) by (bit_vector)
        requires
            m == x >> t64,
            lo == x - (m << t64),
            t64 == 64 - s64,
            0 < s64 < 64,
    ;
    assert(((x << s64) | (y >> t64)) == (x << s64) + (y >> t64)) by (bit_vector)
        requires
            t64 == 64 - s64,
            0 < s64 < 64,
    ;
    let p = pow2(s as nat) as int;
    let q = pow2(t64 as nat) as int;
    lemma_pow2_pos(s as nat);
    lemma_pow2_pos(t64 as nat);
    lemma_pow2_adds(s as nat, t64 as nat);
    lemma2_to64_rest();
    assert(p * q == word());
    lemma_u64_shr_is_div(x, t64);
    lemma_u64_shr_is_div(y, t64);
    lemma_fundamental_div_mod(x as int, q);
    lemma_mod_bound(x as int, q);
    assert(m * q <= x) by (nonlinear_arith)
        requires
            x == q * m + x as int % q,
            x as int % q >= 0,
    ;
    lemma_pow2_strictly_increases(t64 as nat, 64);
    lemma_u64_shl_is_mul(m, t64);
    assert(lo == x as int % q);
    assert(lo * p < word()) by (nonlinear_arith)
        requires
            0 <= lo < q,
            p * q == word(),
            p > 0,
    ;
    lemma_u64_shl_is_mul(lo, s64);
    assert(x * p == m * word() + lo * p) by (nonlinear_arith)
        requires
            x == q * m + lo,
            p * q == word(),
    ;
    lemma_fundamental_div_mod_converse(x * p, word(), m as int, lo * p);
    // y / 2^(64 - s) < 2^s
    lemma_fundamental_div_mod(y as int, q);
    lemma_mod_bound(y as int, q);
    assert(y as int / q < p) by (nonlinear_arith)
        requires
            y == q * (y as int / q) + y as int % q,
            0 <= y as int % q,
            y < word(),
            p * q == word(),
            q > 0,
    ;
}

/// Shifting a double word left by `s` bits multiplies it by `2^s` when the
/// product fits a double word.
pub proof fn lemma_u128_shl_is_mul(x: u128, s: u32)
    requires
        s < 128,
        x * pow2(s as nat) <= u128::MAX,
    ensures
        (x << s) as int == x * pow2(s as nat),
    decreases s,
{
    if s == 0 {
        assert(x << s == x) by (bit_vector)
            requires
                s == 0,
        ;
        lemma2_to64();
    } else {
        let t = (s - 1) as u32;
        lemma_pow2_unfold(s as nat);
        lemma_pow2_pos(t as nat);
        assert(x * pow2(t as nat) <= x * pow2(s as nat)) by (nonlinear_arith)
            requires
                pow2(s as nat) == 2 * pow2(t as nat),
                pow2(t as nat) > 0,
        ;
        assert(x * pow2(s as nat) == 2 * (x * pow2(t as nat))) by (nonlinear_arith)
            requires
                pow2(s as nat) == 2 * pow2(t as nat),
        ;
        lemma_u128_shl_is_mul(x, t);
        let y = x << t;
        assert(y < 0x8000_0000_0000_0000_0000_0000_0000_0000u128) by (nonlinear_arith)
            requires
                y == x * pow2(t as nat),
                2 * (x * pow2(t as nat)) <= u128::MAX,
        ;
        assert(x << s == y << 1u32) by (bit_vector)
            requires
                y == x << t,
                t + 1 == s,
                s < 128,
        ;
        assert((y << 1u32) == y * 2) by (bit_vector)
            requires
                y < 0x8000_0000_0000_0000_0000_0000_0000_0000u128,
        ;
    }
}

/// Shifting a double word right by `s` bits divides it by `2^s`.
pub proof fn lemma_u128_shr_u32(x: u128, s: u32)
    requires
        s < 128,
    ensures
        (x >> s) as int == x as int / pow2(s as nat) as int,
{
    let s128 = s as u128;
    assert(x >> s == x >> s128) by (bit_vector)
        requires
            s128 == s as u128,
    ;
    lemma_u128_shr_is_div(x, s128);
}

} // verus!
