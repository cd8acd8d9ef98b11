//! The numeric value of a little-endian sequence of limbs, and facts about
//! it used by the multi-limb divisions.
use vstd::prelude::*;
use vstd::arithmetic::div_mod::*;
use vstd::arithmetic::power2::*;
use crate::double_word::word;

verus! {

/// The value of little-endian limbs: `s[0] + 2^64 * s[1] + 2^128 * s[2] + ...`.
pub open spec fn limbs_value(s: Seq<u64>) -> int
    decreases s.len(),
{
    if s.len() == 0 {
        0
    } else {
        s[0] + word() * limbs_value(s.drop_first())
    }
}

/// The value of limbs is never negative.
pub proof fn lemma_limbs_value_nonneg(s: Seq<u64>)
    ensures
        limbs_value(s) >= 0,
    decreases s.len(),
{
    if s.len() > 0 {
        lemma_limbs_value_nonneg(s.drop_first());
    }
}

/// Peeling the lowest limb off a range of limbs.
pub proof fn lemma_limbs_value_step(s: Seq<u64>, i: int, n: int)
    requires
        0 <= i < n <= s.len(),
    ensures
        limbs_value(s.subrange(i, n)) == s[i] + word() * limbs_value(s.subrange(i + 1, n)),
{
    assert(s.subrange(i, n).drop_first() =~= s.subrange(i + 1, n));
}

/// Limbs of equal length and equal value are equal.
pub proof fn lemma_limbs_value_injective(a: Seq<u64>, b: Seq<u64>)
    requires
        a.len() == b.len(),
        limbs_value(a) == limbs_value(b),
    ensures
        a == b,
    decreases a.len(),
{
    if a.len() > 0 {
        lemma_limbs_value_nonneg(a.drop_first());
        lemma_limbs_value_nonneg(b.drop_first());
        lemma_fundamental_div_mod_converse(
            limbs_value(a),
            word(),
            limbs_value(a.drop_first()),
            a[0] as int,
        );
        lemma_fundamental_div_mod_converse(
            limbs_value(b),
            word(),
            limbs_value(b.drop_first()),
            b[0] as int,
        );
        lemma_limbs_value_injective(a.drop_first(), b.drop_first());
        assert(a =~= seq![a[0]] + a.drop_first());
        assert(b =~= seq![b[0]] + b.drop_first());
    } else {
        assert(a =~= b);
    }
}

/// High zero limbs do not change the value.
pub proof fn lemma_limbs_value_zero_extend(s: Seq<u64>, k: nat)
    ensures
        limbs_value(s + Seq::new(k, |j: int| 0u64)) == limbs_value(s),
    decreases s.len() + k,
{
    let z = Seq::new(k, |j: int| 0u64);
    if s.len() > 0 {
        assert((s + z).drop_first() =~= s.drop_first() + z);
        lemma_limbs_value_zero_extend(s.drop_first(), k);
    } else if k > 0 {
        assert((s + z).drop_first() =~= s + Seq::new((k - 1) as nat, |j: int| 0u64));
        lemma_limbs_value_zero_extend(s, (k - 1) as nat);
        assert(s + Seq::new((k - 1) as nat, |j: int| 0u64) =~= Seq::new((k - 1) as nat, |j: int| 0u64));
    } else {
        assert(s + z =~= s);
    }
}

/// Limb `i` of the limbs `s` shifted left by `sh` bits, with `c` shifted in
/// at the bottom; the result has one limb more than `s`.
pub open spec fn shifted_limb(s: Seq<u64>, sh: nat, c: int, i: int) -> int {
    let low_part = if i < s.len() { (s[i] * pow2(sh)) % word() } else { 0 };
    let high_part = if i > 0 { s[i - 1] as int / (pow2((64 - sh) as nat) as int) } else { c };
    low_part + high_part
}

/// The limbs `s` shifted left by `sh` bits, with `c` shifted in at the bottom.
pub open spec fn shifted_limbs(s: Seq<u64>, sh: nat, c: int) -> Seq<u64> {
    Seq::new(s.len() + 1, |i: int| shifted_limb(s, sh, c, i) as u64)
}

/// The limbs of a left shift by `0 < sh < 64` bits: the value is multiplied
/// by `2^sh`, and each limb is a word.
pub proof fn lemma_shifted_limbs_value(s: Seq<u64>, sh: nat, c: int)
    requires
        0 < sh < 64,
        0 <= c < pow2(sh),
    ensures
        limbs_value(shifted_limbs(s, sh, c)) == limbs_value(s) * pow2(sh) + c,
        forall|i: int| 0 <= i <= s.len() ==> 0 <= #[trigger] shifted_limb(s, sh, c, i) < word(),
    decreases s.len(),
{
    let b = word();
    let p = pow2(sh) as int;
    let m = pow2((64 - sh) as nat) as int;
    lemma_pow2_pos(sh);
    lemma_pow2_pos((64 - sh) as nat);
    lemma_pow2_adds(sh, (64 - sh) as nat);
    lemma2_to64_rest();
    assert(p * m == b);
    assert(p <= b) by (nonlinear_arith)
        requires
            p * m == b,
            m > 0,
            p > 0,
    ;
    let t = shifted_limbs(s, sh, c);
    // each limb is the low part of one limb plus the high part of the one below
    assert forall|i: int| 0 <= i <= s.len() implies 0 <= #[trigger] shifted_limb(s, sh, c, i) < b by {
        let lo = if i < s.len() { (s[i] * p) % b } else { 0 };
        let hi = if i > 0 { s[i - 1] as int / m } else { c };
        if i < s.len() {
            lemma_mod_bound(s[i] * p, b);
            lemma_fundamental_div_mod(s[i] * p, b);
            lemma_low_part_bound(s[i] as int, p, m);
        }
        if i > 0 {
            lemma_div_bound_by_pow(s[i - 1] as int, p, m);
        }
        assert(lo <= b - p && 0 <= lo);
        assert(0 <= hi < p);
    }
    lemma_pow2_strictly_increases(sh, 64);
    if s.len() == 0 {
        assert(t.drop_first().len() == 0);
        assert(limbs_value(t.drop_first()) == 0);
        assert(t[0] == c);
    } else {
        let c2 = s[0] as int / m;
        lemma_div_bound_by_pow(s[0] as int, p, m);
        lemma_shifted_limbs_value(s.drop_first(), sh, c2);
        assert forall|i: int| 0 <= i < t.drop_first().len() implies t.drop_first()[i]
            == shifted_limbs(s.drop_first(), sh, c2)[i] by {
            assert(shifted_limb(s, sh, c, i + 1) == shifted_limb(s.drop_first(), sh, c2, i));
        }
        assert(t.drop_first() =~= shifted_limbs(s.drop_first(), sh, c2));
        // s[0] * p == (s[0] * p) % b + b * (s[0] / m)
        lemma_fundamental_div_mod(s[0] * p, b);
        lemma_div_denominator(s[0] * p, p, m);
        lemma_div_multiples_vanish(s[0] as int, p);
        assert((s[0] * p) / p == s[0]) by {
            assert(s[0] * p == p * s[0]) by (nonlinear_arith);
        }
        assert((s[0] * p) / b == c2);
        assert(shifted_limb(s, sh, c, 0) == (s[0] * p) % b + c);
        assert(t[0] == (s[0] * p) % b + c);
        assert(limbs_value(t) == t[0] + b * limbs_value(t.drop_first()));
        assert(limbs_value(t) == limbs_value(s) * p + c) by (nonlinear_arith)
            requires
                limbs_value(t) == (s[0] * p) % b + c + b * (limbs_value(s.drop_first()) * p + c2),
                s[0] * p == b * c2 + (s[0] * p) % b,
                limbs_value(s) == s[0] + b * limbs_value(s.drop_first()),
        ;
    }
}

/// The low part of a word shifted left: `(x * p) % 2^64 <= 2^64 - p`.
proof fn lemma_low_part_bound(x: int, p: int, m: int)
    requires
        0 <= x,
        p > 0,
        m > 0,
        p * m == word(),
    ensures
        (x * p) % word() <= word() - p,
{
    let b = word();
    lemma_fundamental_div_mod(x, m);
    lemma_mod_bound(x, m);
    let xm = x % m;
    let xq = x / m;
    assert(x * p == xq * b + xm * p) by (nonlinear_arith)
        requires
            x == m * xq + xm,
            p * m == b,
    ;
    assert(0 <= xm * p <= b - p) by (nonlinear_arith)
        requires
            0 <= xm < m,
            p > 0,
            p * m == b,
    ;
    lemma_fundamental_div_mod_converse(x * p, b, xq, xm * p);
}

/// `x / m < p` for a word `x` and `p * m == 2^64`.
proof fn lemma_div_bound_by_pow(x: int, p: int, m: int)
    requires
        0 <= x < word(),
        p > 0,
        m > 0,
        p * m == word(),
    ensures
        0 <= x / m < p,
{
    lemma_fundamental_div_mod(x, m);
    lemma_mod_bound(x, m);
    assert(x / m < p) by (nonlinear_arith)
        requires
            x == m * (x / m) + x % m,
            0 <= x % m,
            x < p * m,
            m > 0,
    ;
    lemma_div_pos_is_pos(x, m);
}

/// One step of a division from the top limb down: limb `i` of `num` below
/// the partial remainder `rem_in` is divided by `d`, giving the quotient limb
/// `q` (stored at `i` of `prev`, which makes `quot`) and the remainder
/// `rem_out`. The value of the numerator limbs from `i` up to `m` is then
/// the value of the quotient limbs from `i` up times `d`, plus `rem_out`.
pub proof fn lemma_limbs_division_step(
    num: Seq<u64>,
    m: int,
    prev: Seq<u64>,
    quot: Seq<u64>,
    i: int,
    d: int,
    rem_in: int,
    q: u64,
    rem_out: int,
)
    requires
        0 <= i < m <= num.len(),
        0 <= i < prev.len(),
        quot == prev.update(i, q),
        limbs_value(num.subrange(i + 1, m)) == limbs_value(prev.subrange(i + 1, prev.len() as int))
            * d + rem_in,
        rem_in * word() + num[i] == d * q + rem_out,
    ensures
        limbs_value(num.subrange(i, m)) == limbs_value(quot.subrange(i, quot.len() as int)) * d
            + rem_out,
{
    let n = prev.len() as int;
    lemma_limbs_value_step(num, i, m);
    lemma_limbs_value_step(quot, i, n);
    assert(quot.subrange(i + 1, n) =~= prev.subrange(i + 1, n));
    let rest = limbs_value(prev.subrange(i + 1, n));
    let b = word();
    let upper = limbs_value(num.subrange(i + 1, m));
    let x = num[i] as int;
    assert(limbs_value(num.subrange(i, m)) == limbs_value(quot.subrange(i, n)) * d + rem_out)
        by (nonlinear_arith)
        requires
            limbs_value(num.subrange(i, m)) == x + b * upper,
            upper == rest * d + rem_in,
            limbs_value(quot.subrange(i, n)) == q + b * rest,
            rem_in * b + x == d * q + rem_out,
    ;
}

/// Undoing a normalization: if `a * 2^s` divided by `d * 2^s` gives the
/// quotient `v` and the remainder `rem`, then `a` divided by `d` gives the
/// quotient `v` and the remainder `rem / 2^s`, with nothing lost in `rem`.
pub proof fn lemma_unshifted_division(a: int, v: int, d: int, p: int, rem: int)
    requires
        a * p == v * (d * p) + rem,
        0 <= rem < d * p,
        p > 0,
        d > 0,
    ensures
        v == a / d,
        rem / p == a % d,
        rem % p == 0,
{
    let rr = a - v * d;
    assert(rem == rr * p) by (nonlinear_arith)
        requires
            a * p == v * (d * p) + rem,
            rr == a - v * d,
    ;
    assert(0 <= rr < d) by (nonlinear_arith)
        requires
            rem == rr * p,
            0 <= rem < d * p,
            p > 0,
    ;
    lemma_fundamental_div_mod_converse(a, d, v, rr);
    lemma_fundamental_div_mod_converse(rem, p, rr, 0);
}

} // verus!
