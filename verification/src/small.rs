//! Small division using reciprocals, after Möller and Granlund,
//! "Improved division by invariant integers" (2010).
use vstd::prelude::*;
use vstd::arithmetic::div_mod::*;
use crate::double_word::{high, join, low, mul_wide, word, lemma_leading_zeros_bounds, lemma_word_shifts, lemma_u128_shl_is_mul, lemma_u128_shr_u32};
use vstd::arithmetic::power2::*;
use crate::reciprocal::{reciprocal, reciprocal_2, reciprocal_spec, reciprocal_2_spec};
use crate::limbs::{
    limbs_value, lemma_limbs_value_nonneg, lemma_limbs_value_step, shifted_limbs, shifted_limb,
    lemma_shifted_limbs_value, lemma_limbs_division_step, lemma_unshifted_division,
};

verus! {

pub use self::div_2x1_mg10 as div_2x1;
pub use self::div_3x2_mg10 as div_3x2;

/// Reference division of a double word by a normalized word, using the
/// native `u128` division.
///
/// Requires `d >= 2^63` and `u < d * 2^64`, so that the quotient fits a word.
pub fn div_2x1_ref(u: u128, d: u64) -> (res: (u64, u64))
    requires
        d >= 0x8000_0000_0000_0000u64,
        u < d * word(),
    ensures
        res.0 == u as int / d as int,
        res.1 == u as int % d as int,
{
    let d = d as u128;
    proof {
        lemma_fundamental_div_mod(u as int, d as int);
        lemma_mod_bound(u as int, d as int);
        assert((u as int / d as int) < word()) by (nonlinear_arith)
            requires
                u == d * (u as int / d as int) + u as int % d as int,
                0 <= u as int % d as int,
                u < d * word(),
                d > 0,
        ;
    }
    let q = (u / d) as u64;
    let r = (u % d) as u64;
    (q, r)
}

/// Computes the quotient and remainder of a double word `u` divided by a
/// normalized word `d`, given the reciprocal `v` of `d`.
///
/// Requires `u < d * 2^64`, `d >= 2^63` and `v == reciprocal(d)`.
/// Algorithm 4 of Möller and Granlund.
pub fn div_2x1_mg10(u: u128, d: u64, v: u64) -> (res: (u64, u64))
    requires
        d >= 0x8000_0000_0000_0000u64,
        u < d * word(),
        v == reciprocal_spec(d as int),
    ensures
        res.0 == u as int / d as int,
        res.1 == u as int % d as int,
{
    let u1 = high(u);
    let u0 = low(u);
    let ghost b = word();
    let ghost big = b * b - 1;
    let ghost k = big % (d as int);
    proof {
        lemma_fundamental_div_mod(big, d as int);
        lemma_mod_bound(big, d as int);
        lemma_fundamental_div_mod(u as int, b);
        // (v + b) * d + k == 2^128 - 1
        assert((v + b) * d + k == big);
        // u1 < d
        assert(u1 < d) by (nonlinear_arith)
            requires
                u == u1 * b + u0,
                0 <= u0,
                u < d * b,
        ;
        // the estimate u1 * (v + b) + u0 fits a double word
        let qq = u1 * (v + b) + u0;
        assert(d * qq == u1 * (big - k) + u0 * d) by (nonlinear_arith)
            requires
                qq == u1 * (v + b) + u0,
                (v + b) * d + k == big,
        ;
        assert(b * u - d * qq == u1 * (1 + k) + u0 * (b - d)) by (nonlinear_arith)
            requires
                d * qq == u1 * (big - k) + u0 * d,
                u == u1 * b + u0,
                big == b * b - 1,
        ;
        assert(qq < b * b) by (nonlinear_arith)
            requires
                b * u - d * qq == u1 * (1 + k) + u0 * (b - d),
                u1 >= 0,
                k >= 0,
                u0 >= 0,
                b >= d,
                u < d * b,
                d > 0,
        ;
        assert(u + u1 * v == qq) by (nonlinear_arith)
            requires
                qq == u1 * (v + b) + u0,
                u == u1 * b + u0,
        ;
    }
    let q = u + mul_wide(u1, v);
    let q0 = low(q);
    let qh = high(q);
    let mut q1 = qh.wrapping_add(1);
    let mut r = u0.wrapping_sub(q1.wrapping_mul(d));
    // The candidate quotient `qt` and remainder `rt`, as integers.
    let ghost mut qt: int = qh + 1;
    let ghost mut rt: int = u - (qh + 1) * d;
    proof {
        lemma_fundamental_div_mod(q as int, b);
        let qq = q as int;
        // b * rt == u0 * (b - d) + u1 * (1 + k) + (q0 - b) * d
        assert(b * rt == u0 * (b - d) + u1 * (1 + k) + (q0 - b) * d) by (nonlinear_arith)
            requires
                b * u - d * qq == u1 * (1 + k) + u0 * (b - d),
                qq == qh * b + q0,
                rt == u - (qh + 1) * d,
        ;
        // q0 - b < rt
        assert(q0 - b < rt) by (nonlinear_arith)
            requires
                b * rt == u0 * (b - d) + u1 * (1 + k) + (q0 - b) * d,
                u0 >= 0,
                u1 >= 0,
                k >= 0,
                b > d,
                q0 < b,
        ;
        // -d <= rt
        assert(-d <= rt) by (nonlinear_arith)
            requires
                b * rt == u0 * (b - d) + u1 * (1 + k) + (q0 - b) * d,
                u0 >= 0,
                u1 >= 0,
                k >= 0,
                b > d,
                q0 >= 0,
        ;
        // rt < max(b - d, q0)
        assert(rt < b - d || rt < q0) by (nonlinear_arith)
            requires
                b * rt == u0 * (b - d) + u1 * (1 + k) + (q0 - b) * d,
                0 <= u0 < b,
                0 <= u1 < d,
                0 <= k < d,
                b > d,
                0 <= q0 < b,
        ;
        // the computed remainder is rt modulo b
        let c: int = if qh + 1 == b { 1 } else { 0 };
        assert(q1 == qh + 1 - c * b);
        let w = (q1 * d) % b;
        let m = (q1 * d) / b;
        lemma_fundamental_div_mod(q1 * d, b);
        lemma_mod_bound(q1 * d, b);
        let e: int = if u0 - w < 0 { 1 } else { 0 };
        assert(r == u0 - w + e * b);
        assert(r - rt == b * (e - u1 + m + c * d)) by (nonlinear_arith)
            requires
                r == u0 - w + e * b,
                rt == u - (qh + 1) * d,
                u == u1 * b + u0,
                q1 == qh + 1 - c * b,
                q1 * d == b * m + w,
        ;
        let kk = e - u1 + m + c * d;
        assert(kk == 0 || kk == 1) by (nonlinear_arith)
            requires
                r - rt == b * kk,
                0 <= r < b,
                q0 - b < rt < b,
                b > 0,
        ;
        assert(rt >= 0 ==> r == rt);
        assert(rt < 0 ==> r == rt + b);
        assert((qh + 1) * d == qh * d + d) by (nonlinear_arith);
    }
    if r > q0 {
        q1 = q1.wrapping_sub(1);
        r = r.wrapping_add(d);
        proof {
            assert((qt - 1) * d == qt * d - d) by (nonlinear_arith);
            qt = qt - 1;
            rt = rt + d;
        }
    }
    proof {
        assert(r == rt);
        assert(0 <= rt < b);
        assert(q1 == qt || (q1 == 0 && qt == b));
        assert(u == qt * d + rt);
    }
    if r >= d {
        q1 = q1.wrapping_add(1);
        r = r.wrapping_sub(d);
        proof {
            assert((qt + 1) * d == qt * d + d) by (nonlinear_arith);
            qt = qt + 1;
            rt = rt - d;
        }
    }
    proof {
        assert(0 <= rt < d);
        assert(u == qt * d + rt);
        lemma_fundamental_div_mod_converse(u as int, d as int, qt, rt);
        assert(0 <= qt < b) by (nonlinear_arith)
            requires
                u == qt * d + rt,
                0 <= rt < d,
                u < d * b,
                u >= 0,
        ;
    }
    (q1, r)
}

/// The bound on the first remainder estimate of the three-by-two division:
/// with `d` normalized, `(u2, u1) < d` and `k` the remainder of `b^3 - 1`
/// divided by `d` (whose quotient is at least `b`),
/// `b * (u1 * (b^2 - d) + u0 * b + u2 * (1 + k)) < (b^2 - d)^2 + b^2 * d`.
proof fn lemma_3x2_estimate_bound(b: int, d: int, u2: int, u1: int, u0: int, k: int, qv: int)
    requires
        b > 1,
        b * b <= 2 * d,
        d < b * b,
        0 <= u0 < b,
        0 <= u1 < b,
        0 <= u2,
        u2 * b + u1 < d,
        0 <= k < d,
        qv >= b,
        qv * d + k == b * b * b - 1,
    ensures
        b * (u1 * (b * b - d) + u0 * b + u2 * (1 + k)) < (b * b - d) * (b * b - d) + b * b * d,
{
    let e = b * b - d;
    let s = u1 * e + u0 * b + u2 * (1 + k);
    assert(1 + k <= b * e) by (nonlinear_arith)
        requires
            qv * d + k == b * b * b - 1,
            qv >= b,
            d > 0,
            e == b * b - d,
    ;
    assert(u0 * b <= (b - 1) * b) by (nonlinear_arith)
        requires
            0 <= u0 < b,
            b > 0,
    ;
    if b * e <= d {
        assert(u2 * (1 + k) <= u2 * (b * e)) by (nonlinear_arith)
            requires
                1 + k <= b * e,
                u2 >= 0,
        ;
        assert(u1 * e + u2 * (b * e) <= e * (d - 1)) by (nonlinear_arith)
            requires
                u2 * b + u1 < d,
                e > 0,
        ;
        assert(e <= b - 1) by (nonlinear_arith)
            requires
                b * e <= d,
                e == b * b - d,
                b > 1,
        ;
        assert(s <= e * (d - 1) + (b - 1) * b);
        assert(b * s <= b * (e * (d - 1) + (b - 1) * b)) by (nonlinear_arith)
            requires
                s <= e * (d - 1) + (b - 1) * b,
                b > 0,
        ;
        assert(e * e + b * b * d - b * (e * (d - 1) + (b - 1) * b) == (b - e - 1) * (b * b * b
            - b * e) + e * e + b * b) by (nonlinear_arith)
            requires
                d == b * b - e,
        ;
        assert((b - e - 1) * (b * b * b - b * e) >= 0) by (nonlinear_arith)
            requires
                0 < e <= b - 1,
                b > 1,
        ;
    } else {
        assert(u2 * (1 + k) <= u2 * d) by (nonlinear_arith)
            requires
                1 + k <= d,
                u2 >= 0,
        ;
        assert(b * (u1 * e + u2 * d) <= d * (d - 1) + (b - 1) * (b * e - d)) by (nonlinear_arith)
            requires
                u2 * b + u1 < d,
                0 <= u1 <= b - 1,
                b * e > d,
                d > 0,
        ;
        assert(b * s <= d * (d - 1) + (b - 1) * (b * e - d) + b * b * b - b * b) by (nonlinear_arith)
            requires
                s <= u1 * e + u2 * d + (b - 1) * b,
                b * (u1 * e + u2 * d) <= d * (d - 1) + (b - 1) * (b * e - d),
                b > 0,
        ;
        assert(d * (d - 1) + (b - 1) * (b * e - d) + b * b * b - b * b == e * e + b * b * d - b
            * b) by (nonlinear_arith)
            requires
                e == b * b - d,
        ;
    }
}

/// Computes the quotient and remainder of the three-word number
/// `u21 * 2^64 + u0` divided by a normalized double word `d`, given the
/// reciprocal `v` of `d`.
///
/// Requires `d >= 2^127`, `u21 < d` and `v == reciprocal_2(d)`.
/// Algorithm 5 of Möller and Granlund.
pub fn div_3x2_mg10(u21: u128, u0: u64, d: u128, v: u64) -> (res: (u64, u128))
    requires
        d >= 0x8000_0000_0000_0000_0000_0000_0000_0000u128,
        u21 < d,
        v == reciprocal_2_spec(d as int),
    ensures
        res.0 == (u21 * word() + u0) / d as int,
        res.1 == (u21 * word() + u0) % d as int,
{
    let ghost b = word();
    let ghost bb = b * b;
    let ghost big = b * b * b - 1;
    let ghost k = big % (d as int);
    let ghost x: int = u21 * b + u0;
    let u2 = high(u21);
    let u1 = low(u21);
    let d1 = high(d);
    let d0 = low(d);
    proof {
        lemma_fundamental_div_mod(big, d as int);
        lemma_mod_bound(big, d as int);
        lemma_fundamental_div_mod(u21 as int, b);
        lemma_fundamental_div_mod(d as int, b);
        assert((v + b) * d + k == big);
        assert(x < d * b) by (nonlinear_arith)
            requires
                x == u21 * b + u0,
                u21 + 1 <= d,
                0 <= u0 < b,
        ;
        let qq = u2 * (v + b) + u1;
        assert(d * qq == u2 * (big - k) + u1 * d) by (nonlinear_arith)
            requires
                qq == u2 * (v + b) + u1,
                (v + b) * d + k == big,
        ;
        assert(b * x - d * qq == u1 * (bb - d) + u0 * b + u2 * (1 + k)) by (nonlinear_arith)
            requires
                d * qq == u2 * (big - k) + u1 * d,
                x == u21 * b + u0,
                u21 == u2 * b + u1,
                big == b * b * b - 1,
                bb == b * b,
        ;
        assert(u1 * (bb - d) + u0 * b + u2 * (1 + k) >= 0) by (nonlinear_arith)
            requires
                u1 >= 0,
                u2 >= 0,
                k >= 0,
                u0 >= 0,
                bb >= d,
                b > 0,
        ;
        assert(d * qq < d * bb) by (nonlinear_arith)
            requires
                b * x - d * qq >= 0,
                x < d * b,
                bb == b * b,
                b > 0,
        ;
        assert(qq < bb) by (nonlinear_arith)
            requires
                d * qq < d * bb,
                d > 0,
        ;
        assert(u2 * v + u21 == qq) by (nonlinear_arith)
            requires
                qq == u2 * (v + b) + u1,
                u21 == u2 * b + u1,
        ;
    }
    let q = mul_wide(u2, v) + u21;
    let q0 = low(q);
    let qh = high(q);
    let r1 = u1.wrapping_sub(qh.wrapping_mul(d1));
    let t = mul_wide(d0, qh);
    let mut r = join(r1, u0).wrapping_sub(t).wrapping_sub(d);
    let mut q1 = qh.wrapping_add(1);
    // The candidate quotient `qt` and remainder `rt`, as integers.
    let ghost mut qt: int = qh + 1;
    let ghost mut rt: int = x - (qh + 1) * d;
    proof {
        lemma_fundamental_div_mod(q as int, b);
        let qq = q as int;
        let s = u1 * (bb - d) + u0 * b + u2 * (1 + k);
        assert(b * rt == s + (q0 - b) * d) by (nonlinear_arith)
            requires
                b * x - d * qq == s,
                qq == qh * b + q0,
                rt == x - (qh + 1) * d,
        ;
        // q0 * b - b^2 < rt
        assert(q0 * b - bb < rt) by (nonlinear_arith)
            requires
                b * rt == s + (q0 - b) * d,
                s == u1 * (bb - d) + u0 * b + u2 * (1 + k),
                u0 >= 0,
                u1 >= 0,
                u2 >= 0,
                k >= 0,
                bb > d,
                bb == b * b,
                q0 < b,
                b > 0,
        ;
        // -d <= rt
        assert(-d <= rt) by (nonlinear_arith)
            requires
                b * rt == s + (q0 - b) * d,
                s == u1 * (bb - d) + u0 * b + u2 * (1 + k),
                u0 >= 0,
                u1 >= 0,
                u2 >= 0,
                k >= 0,
                bb > d,
                q0 >= 0,
                b > 0,
        ;
        // rt < max(b^2 - d, q0 * b)
        lemma_3x2_estimate_bound(b, d as int, u2 as int, u1 as int, u0 as int, k, v + b);
        assert(b * s < (bb - d) * (bb - d) + bb * d);
        if q0 * b >= bb - d {
            assert(rt < q0 * b) by (nonlinear_arith)
                requires
                    b * rt == s + (q0 - b) * d,
                    b * s < (bb - d) * (bb - d) + bb * d,
                    q0 * b >= bb - d,
                    bb - d > 0,
                    bb == b * b,
                    b > 0,
            ;
        } else {
            assert(rt < bb - d) by (nonlinear_arith)
                requires
                    b * rt == s + (q0 - b) * d,
                    b * s < (bb - d) * (bb - d) + bb * d,
                    q0 * b < bb - d,
                    q0 >= 0,
                    d > 0,
                    bb == b * b,
                    b > 0,
            ;
        }
        // the computed remainder is rt modulo b^2
        let m = (qh * d1) / b;
        lemma_fundamental_div_mod(qh * d1, b);
        lemma_mod_bound(qh * d1, b);
        let w = (qh * d1) % b;
        let e0: int = if u1 - w < 0 { 1 } else { 0 };
        assert(r1 == u1 - w + e0 * b);
        let j = r1 * b + u0;
        let e1: int = if j - t < 0 { 1 } else { 0 };
        let e2: int = if j - t + e1 * bb - d < 0 { 1 } else { 0 };
        assert(r == j - t + e1 * bb - d + e2 * bb);
        assert(w * b == qh * d1 * b - bb * m) by (nonlinear_arith)
            requires
                qh * d1 == b * m + w,
                bb == b * b,
        ;
        assert(j == u1 * b - w * b + bb * e0 + u0) by (nonlinear_arith)
            requires
                j == r1 * b + u0,
                r1 == u1 - w + e0 * b,
                bb == b * b,
        ;
        assert(qh * d == qh * d1 * b + t) by (nonlinear_arith)
            requires
                t == d0 * qh,
                d == d1 * b + d0,
        ;
        assert(rt == u2 * bb + u1 * b + u0 - qh * d - d) by (nonlinear_arith)
            requires
                rt == x - (qh + 1) * d,
                x == u21 * b + u0,
                u21 == u2 * b + u1,
                bb == b * b,
        ;
        assert(r - rt == bb * m + bb * e0 - bb * u2 + bb * e1 + bb * e2);
        assert(r - rt == bb * (m + e0 - u2 + e1 + e2)) by (nonlinear_arith)
            requires
                r - rt == bb * m + bb * e0 - bb * u2 + bb * e1 + bb * e2,
        ;
        let kk = m + e0 - u2 + e1 + e2;
        assert(kk == 0 || kk == 1) by (nonlinear_arith)
            requires
                r - rt == bb * kk,
                0 <= r < bb,
                -bb < rt < bb,
                bb > 0,
        ;
        assert(rt >= 0 ==> r == rt);
        assert(rt < 0 ==> r == rt + bb);
        // the test on the high word of r compares r with q0 * b
        lemma_fundamental_div_mod(r as int, b);
        lemma_mod_bound(r as int, b);
        assert((r as int / b >= q0) <==> (r >= q0 * b)) by (nonlinear_arith)
            requires
                r == b * (r as int / b) + r as int % b,
                0 <= r as int % b < b,
                b > 0,
        ;
        assert((qh + 1) * d == qh * d + d) by (nonlinear_arith);
    }
    if high(r) >= q0 {
        q1 = q1.wrapping_sub(1);
        r = r.wrapping_add(d);
        proof {
            assert((qt - 1) * d == qt * d - d) by (nonlinear_arith);
            qt = qt - 1;
            rt = rt + d;
        }
    }
    proof {
        assert(r == rt);
        assert(0 <= rt < bb);
        assert(q1 == qt || (q1 == 0 && qt == b));
        assert(x == qt * d + rt);
    }
    if r >= d {
        q1 = q1.wrapping_add(1);
        r = r.wrapping_sub(d);
        proof {
            assert((qt + 1) * d == qt * d + d) by (nonlinear_arith);
            qt = qt + 1;
            rt = rt - d;
        }
    }
    proof {
        assert(0 <= rt < d);
        assert(x == qt * d + rt);
        lemma_fundamental_div_mod_converse(x, d as int, qt, rt);
        assert(0 <= qt < b) by (nonlinear_arith)
            requires
                x == qt * d + rt,
                0 <= rt < d,
                x < d * b,
                x >= 0,
        ;
    }
    (q1, r)
}

/// The quotient `x / d` of `x = n21 * 2^64 + n0` against the estimates of
/// `div_3x2_ref`: when the high words of `n21` and `d` are equal, the
/// quotient is `2^64 - 2` or `2^64 - 1`; otherwise the estimate `n21 / d1`
/// is a word that exceeds it by at most two.
proof fn lemma_3x2_ref_estimate(n21: int, n0: int, d: int)
    requires
        d >= 0x8000_0000_0000_0000_0000_0000_0000_0000int,
        d < word() * word(),
        0 <= n21 < d,
        0 <= n0 < word(),
    ensures
        n21 / word() == d / word() ==> word() - 2 <= (n21 * word() + n0) / d < word(),
        n21 / word() != d / word() ==> (n21 * word() + n0) / d <= n21 / (d / word()) <= (n21
            * word() + n0) / d + 2,
        n21 / word() != d / word() ==> n21 / (d / word()) < word(),
{
    let b = word();
    let x = n21 * b + n0;
    let d1 = d / b;
    let d0 = d % b;
    lemma_fundamental_div_mod(d, b);
    lemma_mod_bound(d, b);
    lemma_fundamental_div_mod(n21, b);
    lemma_mod_bound(n21, b);
    lemma_fundamental_div_mod(x, d);
    lemma_mod_bound(x, d);
    let q = x / d;
    assert(2 * d1 >= b) by (nonlinear_arith)
        requires
            d == b * d1 + d0,
            d0 < b,
            d >= 0x8000_0000_0000_0000_0000_0000_0000_0000int,
            b == 0x1_0000_0000_0000_0000int,
    ;
    assert(x < d * b) by (nonlinear_arith)
        requires
            x == n21 * b + n0,
            n21 + 1 <= d,
            n0 < b,
            b > 0,
    ;
    assert(q < b) by (nonlinear_arith)
        requires
            x == d * q + x % d,
            x % d >= 0,
            x < d * b,
            d > 0,
    ;
    let n2 = n21 / b;
    if n2 == d1 {
        assert(x >= d1 * b * b) by (nonlinear_arith)
            requires
                x == n21 * b + n0,
                n21 == b * n2 + n21 % b,
                n21 % b >= 0,
                n0 >= 0,
                n2 == d1,
                b > 0,
        ;
        if q <= b - 3 {
            assert(false) by (nonlinear_arith)
                requires
                    x == d * q + x % d,
                    x % d < d,
                    q <= b - 3,
                    x >= d1 * b * b,
                    d == b * d1 + d0,
                    d0 < b,
                    2 * d1 >= b,
                    b > 3,
                    d > 0,
            ;
        }
    } else {
        assert(n21 < d1 * b) by (nonlinear_arith)
            requires
                n21 == b * n2 + n21 % b,
                d == b * d1 + d0,
                n21 < d,
                n2 != d1,
                0 <= n21 % b < b,
                0 <= d0 < b,
        ;
        lemma_fundamental_div_mod(n21, d1);
        lemma_mod_bound(n21, d1);
        let qhat = n21 / d1;
        let rho = n21 % d1;
        assert(qhat < b) by (nonlinear_arith)
            requires
                n21 == d1 * qhat + rho,
                rho >= 0,
                n21 < d1 * b,
                d1 > 0,
        ;
        assert(x < (qhat + 1) * d) by (nonlinear_arith)
            requires
                n21 == d1 * qhat + rho,
                rho < d1,
                x == n21 * b + n0,
                n0 < b,
                d == b * d1 + d0,
                d0 >= 0,
                qhat >= 0,
                b > 0,
        ;
        assert(q <= qhat) by (nonlinear_arith)
            requires
                x == d * q + x % d,
                x % d >= 0,
                x < (qhat + 1) * d,
                d > 0,
        ;
        if qhat >= q + 3 {
            assert(x >= qhat * d1 * b) by (nonlinear_arith)
                requires
                    n21 == d1 * qhat + rho,
                    rho >= 0,
                    x == n21 * b + n0,
                    n0 >= 0,
                    b > 0,
            ;
            assert(x < (qhat - 2) * d) by (nonlinear_arith)
                requires
                    x == d * q + x % d,
                    x % d < d,
                    qhat >= q + 3,
                    d > 0,
            ;
            assert(false) by (nonlinear_arith)
                requires
                    x >= qhat * d1 * b,
                    x < (qhat - 2) * d,
                    qhat >= 3,
                    d == b * d1 + d0,
                    d0 < b,
                    2 * d1 >= b,
                    qhat < b,
                    b > 0,
            ;
        }
    }
}

/// `q <= x / d` when `q * d <= x`, and `x / d < q` when `x < q * d`.
proof fn lemma_quotient_compare(x: int, d: int, q: int)
    requires
        d > 0,
    ensures
        q * d <= x ==> q <= x / d,
        x < q * d ==> x / d < q,
{
    lemma_fundamental_div_mod(x, d);
    lemma_mod_bound(x, d);
    let qq = x / d;
    assert(q * d <= x ==> q <= qq) by (nonlinear_arith)
        requires
            x == d * qq + x % d,
            x % d < d,
            d > 0,
    ;
    assert(x < q * d ==> qq < q) by (nonlinear_arith)
        requires
            x == d * qq + x % d,
            x % d >= 0,
            d > 0,
    ;
}

/// Reference division of the three-word number `n21 * 2^64 + n0` by a
/// normalized double word `d`: the top two words divided by the high word of
/// `d` give an estimate of the quotient that is at most two too large, which
/// is corrected by comparing `q * d0` with the partial remainder.
///
/// Requires `d >= 2^127` and `n21 < d`.
pub fn div_3x2_ref(n21: u128, n0: u64, d: u128) -> (res: u64)
    requires
        d >= 0x8000_0000_0000_0000_0000_0000_0000_0000u128,
        n21 < d,
    ensures
        res == (n21 * word() + n0) / d as int,
{
    let n2 = high(n21);
    let n1 = low(n21);
    let d1 = high(d);
    let d0 = low(d);
    let ghost b = word();
    let ghost x: int = n21 * b + n0;
    proof {
        lemma_fundamental_div_mod(n21 as int, b);
        lemma_mod_bound(n21 as int, b);
        lemma_fundamental_div_mod(d as int, b);
        lemma_mod_bound(d as int, b);
        lemma_3x2_ref_estimate(n21 as int, n0 as int, d as int);
    }
    if n2 == d1 {
        // From [n2 n1] < [d1 d0] and n2 = d1 it follows that n1 < d0.
        // Subtracting 2^64 times the divisor leaves the negative remainder
        // -neg_remainder; one or two divisors added back make it nonnegative.
        proof {
            assert(n1 * b + n0 < d0 * b) by (nonlinear_arith)
                requires
                    n21 == b * n2 + n1,
                    d == b * d1 + d0,
                    n2 == d1,
                    n21 < d,
                    0 <= n0 < b,
            ;
        }
        let neg_remainder = join(d0, 0) - join(n1, n0);
        proof {
            assert(x == (b - 1) * d + (d - neg_remainder)) by (nonlinear_arith)
                requires
                    x == n21 * b + n0,
                    n21 == b * n2 + n1,
                    d == b * d1 + d0,
                    n2 == d1,
                    neg_remainder == d0 * b - (n1 * b + n0),
            ;
            assert(neg_remainder <= 2 * d) by (nonlinear_arith)
                requires
                    neg_remainder <= d0 * b,
                    d0 < b,
                    b * b <= 2 * d,
                    b > 0,
            ;
        }
        if neg_remainder > d {
            proof {
                lemma_fundamental_div_mod_converse(x, d as int, b - 2, 2 * d - neg_remainder);
            }
            0xffff_ffff_ffff_fffe_u64
        } else {
            proof {
                lemma_fundamental_div_mod_converse(x, d as int, b - 1, d - neg_remainder);
            }
            0xffff_ffff_ffff_ffff_u64
        }
    } else {
        proof {
            assert(n21 < d1 * b) by (nonlinear_arith)
                requires
                    n21 == b * n2 + n1,
                    d == b * d1 + d0,
                    n21 < d,
                    n2 != d1,
                    0 <= n1 < b,
                    0 <= d0 < b,
            ;
        }
        let (mut q, mut r) = div_2x1_ref(n21, d1);
        let ghost qh = q as int;
        let ghost rho = r as int;
        let ghost qq = x / d as int;
        proof {
            lemma_fundamental_div_mod(n21 as int, d1 as int);
            lemma_mod_bound(n21 as int, d1 as int);
            // the partial remainder of the estimate
            assert(x - qh * d == rho * b + n0 - qh * d0) by (nonlinear_arith)
                requires
                    x == n21 * b + n0,
                    n21 == d1 * qh + rho,
                    d == b * d1 + d0,
            ;
            assert(x - (qh - 1) * d == (rho + d1) * b + n0 - (qh - 1) * d0) by (nonlinear_arith)
                requires
                    x == n21 * b + n0,
                    n21 == d1 * qh + rho,
                    d == b * d1 + d0,
            ;
            lemma_quotient_compare(x, d as int, qh);
            lemma_quotient_compare(x, d as int, qh - 1);
            lemma_quotient_compare(x, d as int, qh - 2);
        }
        let t1 = mul_wide(q, d0);
        let t2 = join(r, n0);
        if t1 > t2 {
            // the estimate is too large
            q -= 1;
            r = r.wrapping_add(d1);
            let overflow = r < d1;
            if !overflow {
                let t1 = mul_wide(q, d0);
                let t2 = join(r, n0);
                if t1 > t2 {
                    q -= 1;
                }
            } else {
                proof {
                    assert(x - (qh - 1) * d > 0) by (nonlinear_arith)
                        requires
                            x - (qh - 1) * d == (rho + d1) * b + n0 - (qh - 1) * d0,
                            rho + d1 >= b,
                            0 <= qh - 1 < b,
                            0 <= d0 < b,
                            n0 >= 0,
                    ;
                }
            }
        }
        q
    }
}
/// Divides the limbs `u` in place by a normalized word `d` and returns the
/// remainder. Algorithm 7 of Möller and Granlund.
///
/// Requires `d >= 2^63`.
pub fn div_nx1_normalized(u: &mut [u64], d: u64) -> (rem: u64)
    requires
        d >= 0x8000_0000_0000_0000u64,
    ensures
        final(u)@.len() == old(u)@.len(),
        limbs_value(final(u)@) == limbs_value(old(u)@) / d as int,
        rem == limbs_value(old(u)@) % d as int,
{
    let ghost n = u@.len() as int;
    let ghost orig = u@;
    let v = reciprocal(d);
    let mut r: u64 = 0;
    let mut i = u.len();
    proof {
        assert(orig.subrange(n, n) =~= Seq::<u64>::empty());
        assert(u@.subrange(n, n) =~= Seq::<u64>::empty());
    }
    while i > 0
        invariant
            n == u@.len() == orig.len(),
            i <= n,
            d >= 0x8000_0000_0000_0000u64,
            v == reciprocal_spec(d as int),
            r < d,
            forall|j: int| 0 <= j < i ==> u@[j] == orig[j],
            limbs_value(orig.subrange(i as int, n)) == limbs_value(u@.subrange(i as int, n)) * d
                + r,
        decreases i,
    {
        i = i - 1;
        proof {
            assert(r * word() + u@[i as int] < d * word()) by (nonlinear_arith)
                requires
                    r + 1 <= d,
                    u@[i as int] < word(),
            ;
        }
        let nn = join(r, u[i]);
        let (q, r0) = div_2x1(nn, d, v);
        let ghost prev = u@;
        u[i] = q;
        proof {
            lemma_fundamental_div_mod(nn as int, d as int);
            lemma_limbs_division_step(orig, n, prev, u@, i as int, d as int, r as int, q, r0 as int);
        }
        r = r0;
    }
    proof {
        assert(orig.subrange(0, n) =~= orig);
        assert(u@.subrange(0, n) =~= u@);
        lemma_limbs_value_nonneg(u@);
        lemma_fundamental_div_mod_converse(limbs_value(orig), d as int, limbs_value(u@), r as int);
    }
    r
}

/// Divides the limbs `u` in place by a normalized double word `d` and
/// returns the remainder, using `div_3x2` for each limb.
///
/// Requires `d >= 2^127`.
pub fn div_nx2_normalized(u: &mut [u64], d: u128) -> (rem: u128)
    requires
        d >= 0x8000_0000_0000_0000_0000_0000_0000_0000u128,
    ensures
        final(u)@.len() == old(u)@.len(),
        limbs_value(final(u)@) == limbs_value(old(u)@) / d as int,
        rem == limbs_value(old(u)@) % d as int,
{
    let ghost n = u@.len() as int;
    let ghost orig = u@;
    let v = reciprocal_2(d);
    let mut remainder: u128 = 0;
    let mut i = u.len();
    proof {
        assert(orig.subrange(n, n) =~= Seq::<u64>::empty());
        assert(u@.subrange(n, n) =~= Seq::<u64>::empty());
    }
    while i > 0
        invariant
            n == u@.len() == orig.len(),
            i <= n,
            d >= 0x8000_0000_0000_0000_0000_0000_0000_0000u128,
            v == reciprocal_2_spec(d as int),
            remainder < d,
            forall|j: int| 0 <= j < i ==> u@[j] == orig[j],
            limbs_value(orig.subrange(i as int, n)) == limbs_value(u@.subrange(i as int, n)) * d
                + remainder,
        decreases i,
    {
        i = i - 1;
        let (q, r) = div_3x2(remainder, u[i], d, v);
        let ghost prev = u@;
        u[i] = q;
        proof {
            lemma_fundamental_div_mod(remainder * word() + orig[i as int], d as int);
            lemma_limbs_division_step(
                orig,
                n,
                prev,
                u@,
                i as int,
                d as int,
                remainder as int,
                q,
                r as int,
            );
        }
        remainder = r;
    }
    proof {
        assert(orig.subrange(0, n) =~= orig);
        assert(u@.subrange(0, n) =~= u@);
        lemma_limbs_value_nonneg(u@);
        lemma_fundamental_div_mod_converse(
            limbs_value(orig),
            d as int,
            limbs_value(u@),
            remainder as int,
        );
    }
    remainder
}

/// The start of a division of the limbs `orig`, shifted left by `0 < s < 64`
/// bits, by `divisor`: the top shifted limb is the partial remainder, and no
/// quotient limb has been stored yet.
proof fn lemma_shifted_division_start(orig: Seq<u64>, s: u32, divisor: int, top: int)
    requires
        0 < s < 64,
        orig.len() > 0,
        top == orig[orig.len() - 1] as int / pow2((64 - s) as nat) as int,
    ensures
        limbs_value(shifted_limbs(orig, s as nat, 0).subrange(orig.len() as int, (orig.len() + 1) as int))
            == limbs_value(orig.subrange(orig.len() as int, orig.len() as int)) * divisor + top,
        limbs_value(shifted_limbs(orig, s as nat, 0)) == limbs_value(orig) * pow2(s as nat),
        forall|j: int|
            0 <= j <= orig.len() ==> 0 <= #[trigger] shifted_limb(orig, s as nat, 0, j) < word(),
{
    let n = orig.len() as int;
    let ext = shifted_limbs(orig, s as nat, 0);
    lemma_pow2_pos(s as nat);
    lemma_shifted_limbs_value(orig, s as nat, 0);
    assert(ext[n] == top);
    lemma_limbs_value_step(ext, n, n + 1);
    assert(ext.subrange(n + 1, n + 1) =~= Seq::<u64>::empty());
    assert(orig.subrange(n, n) =~= Seq::<u64>::empty());
    assert(limbs_value(orig.subrange(n, n)) * divisor == 0);
}

/// Divides the limbs `limbs` in place by a nonzero word `divisor` and
/// returns the remainder. The divisor need not be normalized: the numerator
/// is shifted on the fly. Algorithm 7 of Möller and Granlund.
///
/// Requires a nonzero divisor and a nonempty numerator whose highest limb is
/// nonzero.
pub fn div_nx1(limbs: &mut [u64], divisor: u64) -> (rem: u64)
    requires
        divisor != 0,
        old(limbs)@.len() > 0,
        old(limbs)@.last() != 0,
    ensures
        final(limbs)@.len() == old(limbs)@.len(),
        limbs_value(final(limbs)@) == limbs_value(old(limbs)@) / divisor as int,
        rem == limbs_value(old(limbs)@) % divisor as int,
{
    let ghost orig = limbs@;
    let ghost n = limbs@.len() as int;
    // Normalize and compute reciprocal
    let shift = divisor.leading_zeros();
    proof {
        lemma_leading_zeros_bounds(divisor);
    }
    if shift == 0 {
        proof {
            lemma2_to64();
            lemma2_to64_rest();
        }
        return div_nx1_normalized(limbs, divisor);
    }
    let ghost d = divisor;
    let ghost sh = shift as nat;
    let ghost p = pow2(sh) as int;
    proof {
        lemma_word_shifts(divisor, 0, shift);
        lemma_pow2_pos(sh);
        lemma_pow2_adds((63 - sh) as nat, sh);
        lemma_pow2_adds((64 - sh) as nat, sh);
        lemma2_to64_rest();
        assert(pow2(63) * 2 == word());
        assert(divisor * p >= pow2(63)) by (nonlinear_arith)
            requires
                divisor >= pow2((63 - sh) as nat),
                pow2((63 - sh) as nat) * p == pow2(63),
                p > 0,
        ;
        assert(divisor * p < word()) by (nonlinear_arith)
            requires
                divisor < pow2((64 - sh) as nat),
                pow2((64 - sh) as nat) * p == word(),
                p > 0,
        ;
        lemma_fundamental_div_mod_converse(divisor * p, word(), 0, divisor * p);
    }
    let divisor = divisor << shift;
    let reciprocal = reciprocal(divisor);
    let ghost ext = shifted_limbs(orig, sh, 0);
    let last = limbs[limbs.len() - 1];
    let mut remainder = last >> (64 - shift);
    let mut i = limbs.len() - 1;
    proof {
        lemma_word_shifts(0, last, shift);
        lemma_shifted_division_start(orig, shift, divisor as int, remainder as int);
        assert(divisor >= p) by (nonlinear_arith)
            requires
                divisor == d * p,
                d >= 1,
                p > 0,
        ;
    }
    while i > 0
        invariant
            n == limbs@.len() == orig.len(),
            0 <= i < n,
            0 < shift < 64,
            sh == shift as nat,
            p == pow2(sh) as int,
            divisor == d * p,
            divisor >= 0x8000_0000_0000_0000u64,
            reciprocal == reciprocal_spec(divisor as int),
            ext == shifted_limbs(orig, sh, 0),
            forall|j: int| 0 <= j <= orig.len() ==> 0 <= #[trigger] shifted_limb(orig, sh, 0, j) < word(),
            remainder < divisor,
            forall|j: int| 0 <= j <= i ==> limbs@[j] == orig[j],
            limbs_value(ext.subrange(i + 1, n + 1)) == limbs_value(limbs@.subrange(i + 1, n))
                * divisor + remainder,
        decreases i,
    {
        // Shift limbs
        let upper = limbs[i];
        let lower = limbs[i - 1];
        let u = (upper << shift) | (lower >> (64 - shift));
        proof {
            lemma_word_shifts(upper, lower, shift);
            assert(shifted_limb(orig, sh, 0, i as int) == u);
            assert(ext[i as int] == u);
            assert(remainder * word() + u < divisor * word()) by (nonlinear_arith)
                requires
                    remainder + 1 <= divisor,
                    u < word(),
            ;
        }
        // Compute quotient
        let nn = join(remainder, u);
        let (q, r) = div_2x1(nn, divisor, reciprocal);
        // Store quotient
        let ghost prev = limbs@;
        limbs[i] = q;
        proof {
            lemma_fundamental_div_mod(nn as int, divisor as int);
            lemma_limbs_division_step(
                ext,
                n + 1,
                prev,
                limbs@,
                i as int,
                divisor as int,
                remainder as int,
                q,
                r as int,
            );
        }
        remainder = r;
        i -= 1;
    }
    // Compute last quotient
    let first = limbs[0];
    proof {
        lemma_word_shifts(first, 0, shift);
        assert(ext[0] == first << shift);
        assert((remainder * word() + (first << shift)) < divisor * word()) by (nonlinear_arith)
            requires
                remainder + 1 <= divisor,
                (first << shift) < word(),
        ;
    }
    let ghost rem_in = remainder;
    let nn = join(remainder, first << shift);
    let (q, remainder) = div_2x1(nn, divisor, reciprocal);
    let ghost prev = limbs@;
    limbs[0] = q;
    proof {
        lemma_fundamental_div_mod(nn as int, divisor as int);
        lemma_limbs_division_step(
            ext,
            n + 1,
            prev,
            limbs@,
            0,
            divisor as int,
            rem_in as int,
            q,
            remainder as int,
        );
        assert(ext.subrange(0, n + 1) =~= ext);
        assert(limbs@.subrange(0, n) =~= limbs@);
        lemma_unshifted_division(limbs_value(orig), limbs_value(limbs@), d as int, p, remainder as int);
        lemma_word_shifts(0, remainder, (64 - shift) as u32);
    }
    // Un-normalize remainder
    remainder >> shift
}

/// Divides the limbs `limbs` in place by a double word `divisor` of at
/// least `2^64` and returns the remainder. Same as `div_nx2_normalized`, but
/// shifts the numerator on the fly.
///
/// Requires `divisor >= 2^64` and a nonempty numerator whose highest limb is
/// nonzero.
pub fn div_nx2(limbs: &mut [u64], divisor: u128) -> (rem: u128)
    requires
        divisor >= 0x1_0000_0000_0000_0000u128,
        old(limbs)@.len() > 0,
        old(limbs)@.last() != 0,
    ensures
        final(limbs)@.len() == old(limbs)@.len(),
        limbs_value(final(limbs)@) == limbs_value(old(limbs)@) / divisor as int,
        rem == limbs_value(old(limbs)@) % divisor as int,
{
    let ghost orig = limbs@;
    let ghost n = limbs@.len() as int;
    let ghost bw = word();
    // Normalize and compute reciprocal
    let h = high(divisor);
    let shift = h.leading_zeros();
    proof {
        lemma_fundamental_div_mod(divisor as int, bw);
        lemma_mod_bound(divisor as int, bw);
        assert(h >= 1);
        lemma_leading_zeros_bounds(h);
        lemma2_to64();
        lemma2_to64_rest();
    }
    if shift == 0 {
        proof {
            assert(divisor >= 0x8000_0000_0000_0000_0000_0000_0000_0000u128) by (nonlinear_arith)
                requires
                    divisor == bw * h + divisor as int % bw,
                    divisor as int % bw >= 0,
                    h >= 0x8000_0000_0000_0000int,
                    bw == 0x1_0000_0000_0000_0000int,
            ;
        }
        return div_nx2_normalized(limbs, divisor);
    }
    let ghost d = divisor;
    let ghost sh = shift as nat;
    let ghost p = pow2(sh) as int;
    proof {
        lemma_pow2_pos(sh);
        lemma_pow2_adds((63 - sh) as nat, sh);
        lemma_pow2_adds((64 - sh) as nat, sh);
        let l = divisor as int % bw;
        assert(divisor * p >= pow2(63) * bw) by (nonlinear_arith)
            requires
                divisor == bw * h + l,
                l >= 0,
                h >= pow2((63 - sh) as nat),
                pow2((63 - sh) as nat) * p == pow2(63),
                p > 0,
                bw > 0,
        ;
        assert(divisor * p < bw * bw) by (nonlinear_arith)
            requires
                divisor == bw * h + l,
                l < bw,
                h + 1 <= pow2((64 - sh) as nat),
                pow2((64 - sh) as nat) * p == bw,
                p > 0,
                bw > 0,
        ;
        lemma_u128_shl_is_mul(divisor, shift);
    }
    let divisor = divisor << shift;
    let reciprocal = reciprocal_2(divisor);
    let ghost ext = shifted_limbs(orig, sh, 0);
    let last = limbs[limbs.len() - 1];
    let mut remainder: u128 = (last >> (64 - shift)) as u128;
    let mut i = limbs.len() - 1;
    proof {
        lemma_word_shifts(0, last, shift);
        lemma_shifted_division_start(orig, shift, divisor as int, remainder as int);
        assert(divisor >= p) by (nonlinear_arith)
            requires
                divisor == d * p,
                d >= 1,
                p > 0,
        ;
    }
    while i > 0
        invariant
            n == limbs@.len() == orig.len(),
            0 <= i < n,
            0 < shift < 64,
            sh == shift as nat,
            p == pow2(sh) as int,
            divisor == d * p,
            divisor >= 0x8000_0000_0000_0000_0000_0000_0000_0000u128,
            reciprocal == reciprocal_2_spec(divisor as int),
            ext == shifted_limbs(orig, sh, 0),
            forall|j: int| 0 <= j <= orig.len() ==> 0 <= #[trigger] shifted_limb(orig, sh, 0, j) < word(),
            remainder < divisor,
            forall|j: int| 0 <= j <= i ==> limbs@[j] == orig[j],
            limbs_value(ext.subrange(i + 1, n + 1)) == limbs_value(limbs@.subrange(i + 1, n))
                * divisor + remainder,
        decreases i,
    {
        // Shift limbs
        let upper = limbs[i];
        let lower = limbs[i - 1];
        let u = (upper << shift) | (lower >> (64 - shift));
        proof {
            lemma_word_shifts(upper, lower, shift);
            assert(shifted_limb(orig, sh, 0, i as int) == u);
            assert(ext[i as int] == u);
        }
        // Compute quotient
        let (q, r) = div_3x2(remainder, u, divisor, reciprocal);
        // Store quotient
        let ghost prev = limbs@;
        limbs[i] = q;
        proof {
            lemma_fundamental_div_mod(remainder * word() + u, divisor as int);
            lemma_limbs_division_step(
                ext,
                n + 1,
                prev,
                limbs@,
                i as int,
                divisor as int,
                remainder as int,
                q,
                r as int,
            );
        }
        remainder = r;
        i -= 1;
    }
    // Compute last quotient
    let first = limbs[0];
    proof {
        lemma_word_shifts(first, 0, shift);
        assert(ext[0] == first << shift);
    }
    let ghost rem_in = remainder;
    let (q, remainder) = div_3x2(remainder, first << shift, divisor, reciprocal);
    let ghost prev = limbs@;
    limbs[0] = q;
    proof {
        lemma_fundamental_div_mod(rem_in * word() + (first << shift), divisor as int);
        lemma_limbs_division_step(
            ext,
            n + 1,
            prev,
            limbs@,
            0,
            divisor as int,
            rem_in as int,
            q,
            remainder as int,
        );
        assert(ext.subrange(0, n + 1) =~= ext);
        assert(limbs@.subrange(0, n) =~= limbs@);
        lemma_unshifted_division(limbs_value(orig), limbs_value(limbs@), d as int, p, remainder as int);
        lemma_u128_shr_u32(remainder, shift);
    }
    // Un-normalize remainder
    remainder >> shift
}

} // verus!
