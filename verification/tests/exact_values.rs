use rand::rngs::StdRng;
use rand::{Rng, SeedableRng};
use ruint_div::double_word::{high, join, low, mul_wide};
use ruint_div::problems::{problem_2x1, problem_3x2};
use ruint_div::reciprocal::{reciprocal, reciprocal_2};
use ruint_div::small::{
    div_2x1, div_2x1_mg10, div_2x1_ref, div_3x2, div_3x2_mg10, div_3x2_ref, div_nx1,
    div_nx1_normalized, div_nx2, div_nx2_normalized,
};

const B: u128 = 1 << 64;

#[test]
fn double_word_parts() {
    let x: u128 = 0x0123_4567_89ab_cdef_fedc_ba98_7654_3210;
    assert_eq!(high(x), 0x0123_4567_89ab_cdef);
    assert_eq!(low(x), 0xfedc_ba98_7654_3210);
    assert_eq!(join(high(x), low(x)), x);
    assert_eq!(mul_wide(u64::MAX, u64::MAX), u128::MAX - 2 * u128::from(u64::MAX));
}

#[test]
fn reciprocal_exact_values() {
    // floor((2^128 - 1) / d) - 2^64
    assert_eq!(reciprocal(1 << 63), u64::MAX);
    assert_eq!(reciprocal(u64::MAX), 1);
    assert_eq!(reciprocal((1 << 63) + 3), 18446744073709551604);
    // floor((2^192 - 1) / d) - 2^64
    assert_eq!(reciprocal_2(1 << 127), u64::MAX);
    assert_eq!(reciprocal_2(u128::MAX), 0);
    assert_eq!(reciprocal_2((1 << 127) + 5), 18446744073709551615);
}

#[test]
fn reciprocal_brackets_the_quotient() {
    for d in [1u64 << 63, (1 << 63) + 1, 0xdead_beef_0000_0001 | (1 << 63), u64::MAX - 1] {
        let v = reciprocal(d);
        // (2^64 + v) * d <= 2^128 - 1 < (2^64 + v + 1) * d
        let q = B + u128::from(v);
        let (lo, overflow) = q.overflowing_mul(u128::from(d));
        assert!(!overflow);
        assert!(u128::MAX - lo < u128::from(d));
    }
}

#[test]
fn div_2x1_reference_and_reciprocal_agree() {
    let d: u64 = (1 << 63) + 3;
    let u: u128 = 5 * B + 7;
    let expected = ((u / u128::from(d)) as u64, (u % u128::from(d)) as u64);
    assert_eq!(div_2x1_ref(u, d), expected);
    assert_eq!(div_2x1_mg10(u, d, reciprocal(d)), expected);
    assert_eq!(div_2x1(u, d, reciprocal(d)), expected);
    // largest numerator allowed
    let u = u128::from(d) * B - 1;
    assert_eq!(div_2x1(u, d, reciprocal(d)), (u64::MAX, d - 1));
    assert_eq!(div_2x1_ref(u, d), (u64::MAX, d - 1));
}

#[test]
fn div_3x2_exact_values() {
    let d: u128 = 0xdbc8_fbbc_bde5_c099_4164_d839_9f76_7c45;
    let n21: u128 = 0x747e_af04_1eb7_31ca_0346_a79e_8f3e_a28a;
    let n0: u64 = 0xa19a_4dcb_5cb3_c4ad;
    let (q, r) = div_3x2(n21, n0, d, reciprocal_2(d));
    assert_eq!(q, 0x87b0_b125_ec1d_7da0);
    // q * d + r == n21 * 2^64 + n0
    let lo = u128::from(q) * u128::from(low(d)) + u128::from(low(r));
    assert_eq!(low(lo), n0);
    assert_eq!(
        (lo >> 64) + u128::from(q) * u128::from(high(d)) + u128::from(high(r)),
        n21
    );
    assert!(r < d);
    // numerator 0
    assert_eq!(div_3x2_mg10(0, 0, d, reciprocal_2(d)), (0, 0));
}

#[test]
fn div_3x2_ref_exact_values() {
    let d: u128 = 0xdbc8_fbbc_bde5_c099_4164_d839_9f76_7c45;
    let n21: u128 = 0x747e_af04_1eb7_31ca_0346_a79e_8f3e_a28a;
    let n0: u64 = 0xa19a_4dcb_5cb3_c4ad;
    assert_eq!(div_3x2_ref(n21, n0, d), 0x87b0_b125_ec1d_7da0);
    // estimate two too large, corrected twice
    let d: u128 = 0x835b_7399_3fd4_2359_92ed_cf45_1a1a_fe87;
    let n21: u128 = 0x1c78_121e_facd_6e34_bc73_7507_d599_9883;
    let n0: u64 = 0x0676_76ab_5270_ac2b;
    assert_eq!(div_3x2_ref(n21, n0, d), 0x377b_9aa2_bb2e_db20);
    assert_eq!(div_3x2(n21, n0, d, reciprocal_2(d)).0, 0x377b_9aa2_bb2e_db20);
    let d: u128 = 0x815c_33b2_df14_61aa_f8eb_18b9_0074_5130;
    let n21: u128 = 0x6412_7c3e_7d53_5578_a13e_2e5c_275a_cda0;
    let n0: u64 = 0xf029_54ab_9836_c8a6;
    assert_eq!(div_3x2_ref(n21, n0, d), 0xc60a_3cab_359e_eefb);
    // 2^128 + 1 divided by 2^127 + 1
    assert_eq!(div_3x2_ref(1 << 64, 1, (1 << 127) + 1), 1);
    // equal high words: 2^191 + 2 divided by 2^127 + 1
    assert_eq!(div_3x2_ref(1 << 127, 2, (1 << 127) + 1), u64::MAX);
    let d: u128 = (1 << 127) + 12345;
    let n21: u128 = (1 << 127) + 5;
    assert_eq!(div_3x2_ref(n21, 77, d), u64::MAX);
    assert_eq!(div_3x2(n21, 77, d, reciprocal_2(d)).0, u64::MAX);
    // equal high words, two divisors added back
    assert_eq!(div_3x2_ref(1 << 127, 0, (1 << 127) + u128::from(u64::MAX)), u64::MAX - 1);
}

#[test]
fn div_3x2_ref_agrees_with_reciprocal_division() {
    let mut rng = StdRng::seed_from_u64(9);
    for _ in 0..2000 {
        let q: u64 = rng.gen();
        let r: u128 = rng.gen();
        let d: u128 = rng.gen();
        let (n21, n0, d) = problem_3x2(q, r, d);
        assert_eq!(div_3x2_ref(n21, n0, d), div_3x2(n21, n0, d, reciprocal_2(d)).0);
        assert_eq!(div_3x2_ref(n21, n0, d), q);
    }
}

#[test]
fn div_nx1_small_divisor() {
    let mut limbs = [10u64, 0, 1];
    let r = div_nx1(&mut limbs, 3);
    assert_eq!(r, 2);
    assert_eq!(limbs, [6148914691236517208, 6148914691236517205, 0]);

    let mut limbs = [123456789u64, 987654321, 5];
    let r = div_nx1(&mut limbs, 7 * (1 << 40) + 3);
    assert_eq!(r, 1333270830935);
    assert_eq!(limbs, [13178526756822874602, 11983725, 0]);
}

#[test]
fn div_nx1_normalized_divisor_takes_the_direct_path() {
    let d = u64::MAX;
    let mut a = [5u64, 6, 7];
    let mut b = a;
    let ra = div_nx1(&mut a, d);
    let rb = div_nx1_normalized(&mut b, d);
    assert_eq!((a, ra), (b, rb));
    // 7 * 2^128 + 6 * 2^64 + 5 == (7 * 2^64 + 13) * (2^64 - 1) + 18
    assert_eq!(a, [13, 7, 0]);
    assert_eq!(ra, 18);
}

#[test]
fn div_nx1_normalized_empty_numerator() {
    let mut limbs: [u64; 0] = [];
    assert_eq!(div_nx1_normalized(&mut limbs, 1 << 63), 0);
}

#[test]
fn div_nx2_small_divisor() {
    let d: u128 = (5 << 64) + 6;
    let mut limbs = [1u64, 2, 3, 4];
    let r = div_nx2(&mut limbs, d);
    assert_eq!(r, 80427804161373645047);
    assert_eq!(limbs, [8116567392432202711, 14757395258967641292, 0, 0]);
}

#[test]
fn div_nx2_normalized_matches_unnormalized() {
    let d: u128 = u128::MAX - 12;
    let mut a = [9u64, 8, 7, 6];
    let mut b = a;
    let ra = div_nx2(&mut a, d);
    let rb = div_nx2_normalized(&mut b, d);
    assert_eq!((a, ra), (b, rb));
}

#[test]
fn round_trip_on_concrete_values() {
    // dividing q * d + r gives back q (zero-padded) and r
    let quotient = [3u64, 0, u64::MAX];
    let d: u64 = 1000;
    let mut numerator = [999u64, 0, 0, 0];
    let mut carry: u128 = 0;
    for i in 0..3 {
        let t = u128::from(quotient[i]) * u128::from(d) + u128::from(numerator[i]) + carry;
        numerator[i] = t as u64;
        carry = t >> 64;
    }
    numerator[3] = carry as u64;
    let r = div_nx1(&mut numerator, d);
    assert_eq!(r, 999);
    assert_eq!(numerator, [3, 0, u64::MAX, 0]);
}

#[test]
fn problems_have_the_stated_answer() {
    let (n, d) = problem_2x1(7, 100, 5);
    assert_eq!(d, (1 << 63) | 5);
    assert_eq!(n, 7 * u128::from(d) + 100);
    assert_eq!(div_2x1(n, d, reciprocal(d)), (7, 100));

    let (n, d) = problem_2x1(u64::MAX, u64::MAX, u64::MAX);
    assert_eq!(d, u64::MAX);
    assert_eq!(div_2x1_ref(n, d), (u64::MAX, 0));

    let (n21, n0, d) = problem_3x2(42, (1 << 127) + 9, 17);
    assert_eq!(d, (1 << 127) | 17);
    assert_eq!(div_3x2(n21, n0, d, reciprocal_2(d)), (42, (1 << 127) + 9));
}

#[test]
fn problems_are_valid_inputs() {
    let mut rng = StdRng::seed_from_u64(10);
    for _ in 0..100 {
        let (n, d) = problem_2x1(rng.gen(), rng.gen(), rng.gen());
        assert!(d >= 1 << 63);
        assert!(n >> 64 < u128::from(d));
        let (q, r) = div_2x1(n, d, reciprocal(d));
        assert_eq!(div_2x1_ref(n, d), (q, r));
        let (n21, n0, d) = problem_3x2(rng.gen(), rng.gen(), rng.gen());
        assert!(d >= 1 << 127);
        assert!(n21 < d);
        let (q, r) = div_3x2(n21, n0, d, reciprocal_2(d));
        assert!(r < d);
        let lo = u128::from(q) * u128::from(low(d)) + u128::from(low(r));
        assert_eq!(low(lo), n0);
    }
}
