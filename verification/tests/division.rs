use rand::rngs::StdRng;
use rand::{Rng, SeedableRng};
use ruint_div::double_word::{high, low};
use ruint_div::reciprocal::{reciprocal, reciprocal_2};
use ruint_div::small::{
    div_2x1_mg10, div_3x2_mg10, div_3x2_ref, div_nx1, div_nx1_normalized, div_nx2,
    div_nx2_normalized,
};

const CASES: usize = 2000;

/// `result += a * b` on little-endian limbs; the product must fit.
fn add_mul(a: &[u64], b: &[u64], result: &mut [u64]) {
    for (i, &x) in a.iter().enumerate() {
        let mut carry: u128 = 0;
        for (j, &y) in b.iter().enumerate() {
            let t = u128::from(x) * u128::from(y) + u128::from(result[i + j]) + carry;
            result[i + j] = t as u64;
            carry = t >> 64;
        }
        let mut k = i + b.len();
        while carry != 0 {
            let t = u128::from(result[k]) + carry;
            result[k] = t as u64;
            carry = t >> 64;
            k += 1;
        }
    }
}

fn any_vec(rng: &mut StdRng, min: usize, max: usize) -> Vec<u64> {
    let len = rng.gen_range(min..max);
    (0..len).map(|_| rng.gen::<u64>()).collect()
}

#[test]
fn test_div_2x1_mg10() {
    let mut rng = StdRng::seed_from_u64(1);
    for _ in 0..CASES {
        let q: u64 = rng.gen();
        let r: u64 = rng.gen();
        let d: u64 = rng.gen();
        let d = d | (1 << 63);
        let r = r % d;
        let n = u128::from(q) * u128::from(d) + u128::from(r);
        let v = reciprocal(d);
        assert_eq!(div_2x1_mg10(n, d, v), (q, r));
    }
}

#[test]
fn test_div_3x2_ref() {
    let mut rng = StdRng::seed_from_u64(7);
    for _ in 0..CASES {
        let q: u64 = rng.gen();
        let r: u128 = rng.gen();
        let d: u128 = rng.gen();
        let d = d | (1 << 127);
        let r = r % d;
        let (n21, n0) = {
            let d1 = (d >> 64) as u64;
            let d0 = d as u64;
            let r1 = (r >> 64) as u64;
            let r0 = r as u64;
            // n = q * d + r
            let n10 = u128::from(q) * u128::from(d0) + u128::from(r0);
            let n0 = n10 as u64;
            let n21 = (n10 >> 64) + u128::from(q) * u128::from(d1) + u128::from(r1);
            (n21, n0)
        };
        assert_eq!(div_3x2_ref(n21, n0, d), q);
    }
}

#[test]
fn test_div_3x2_mg10() {
    let mut rng = StdRng::seed_from_u64(2);
    for _ in 0..CASES {
        let q: u64 = rng.gen();
        let r: u128 = rng.gen();
        let d: u128 = rng.gen();
        let d = d | (1 << 127);
        let r = r % d;
        let (n21, n0) = {
            let d1 = (d >> 64) as u64;
            let d0 = d as u64;
            let r1 = (r >> 64) as u64;
            let r0 = r as u64;
            // n = q * d + r
            let n10 = u128::from(q) * u128::from(d0) + u128::from(r0);
            let n0 = n10 as u64;
            let n21 = (n10 >> 64) + u128::from(q) * u128::from(d1) + u128::from(r1);
            (n21, n0)
        };
        let v = reciprocal_2(d);
        assert_eq!(div_3x2_mg10(n21, n0, d, v), (q, r));
    }
}

#[test]
fn test_div_nx1_normalized() {
    let mut rng = StdRng::seed_from_u64(3);
    for _ in 0..CASES {
        let quotient = any_vec(&mut rng, 0, 10);
        let mut divisor: u64 = rng.gen();
        let mut remainder: u64 = rng.gen();
        // Construct problem
        divisor |= 1 << 63;
        remainder %= divisor;
        let mut numerator = vec![0; quotient.len() + 1];
        numerator[0] = remainder;
        add_mul(&quotient, &[divisor], &mut numerator);

        // Test
        let r = div_nx1_normalized(&mut numerator, divisor);
        assert_eq!(&numerator[..quotient.len()], &quotient);
        assert_eq!(r, remainder);
    }
}

#[test]
fn test_div_nx1() {
    let mut rng = StdRng::seed_from_u64(4);
    let mut tried = 0;
    while tried < CASES {
        let quotient = any_vec(&mut rng, 1, 10);
        let divisor = rng.gen_range(1..u64::MAX);
        let remainder = rng.gen::<u64>() % divisor;
        // Construct problem
        let mut numerator = vec![0; quotient.len() + 1];
        numerator[0] = remainder;
        add_mul(&quotient, &[divisor], &mut numerator);

        // Trim numerator
        while numerator.last() == Some(&0) {
            numerator.pop();
        }
        if numerator.is_empty() {
            continue;
        }
        tried += 1;

        // Test
        let r = div_nx1(&mut numerator, divisor);
        assert_eq!(&numerator[..quotient.len()], &quotient);
        assert_eq!(r, remainder);
    }
}

#[test]
fn test_div_nx2_normalized() {
    let mut rng = StdRng::seed_from_u64(5);
    for _ in 0..CASES {
        let quotient = any_vec(&mut rng, 0, 10);
        let divisor = rng.gen_range(1_u128 << 127..=u128::MAX);
        let remainder = rng.gen::<u128>() % divisor;
        // Construct problem
        let mut numerator = vec![0; quotient.len() + 2];
        numerator[0] = low(remainder);
        numerator[1] = high(remainder);
        add_mul(&quotient, &[low(divisor), high(divisor)], &mut numerator);

        // Test
        let r = div_nx2_normalized(&mut numerator, divisor);
        assert_eq!(&numerator[..quotient.len()], &quotient);
        assert_eq!(r, remainder);
    }
}

#[test]
fn test_div_nx2() {
    let mut rng = StdRng::seed_from_u64(6);
    let mut tried = 0;
    while tried < CASES {
        let quotient = any_vec(&mut rng, 2, 10);
        let divisor = rng.gen_range(1..u128::MAX);
        let remainder = rng.gen::<u128>() % divisor;
        // Construct problem
        let mut numerator = vec![0; quotient.len() + 2];
        numerator[0] = low(remainder);
        numerator[1] = high(remainder);
        add_mul(&quotient, &[low(divisor), high(divisor)], &mut numerator);

        // Trim numerator
        while numerator.last() == Some(&0) {
            numerator.pop();
        }
        if numerator.is_empty() {
            continue;
        }
        if divisor < 1 << 64 {
            // the double-word division asks for a divisor of at least 2^64
            continue;
        }
        tried += 1;

        // Test
        let r = div_nx2(&mut numerator, divisor);
        assert_eq!(&numerator[..quotient.len()], &quotient);
        assert_eq!(r, remainder);
    }
}
