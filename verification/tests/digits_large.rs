use lib::div::limbs_div_mod;
use lib::from_dc::{_limbs_from_digits_small_base, _limbs_from_digits_small_base_divide_and_conquer};
use lib::from_digits::_limbs_from_digits_small_base_basecase;
use lib::natural::Natural;
use lib::power_build::{
    _limbs_compute_power_table, _limbs_compute_power_table_using_div,
    _limbs_compute_power_table_using_mul,
};
use lib::power_table::{PowerTableAlgorithm, _limbs_choose_power_table_algorithm};
use lib::to_dc::{_limbs_to_digits_small_base, limbs_to_digits_desc};
use lib::to_digits::_limbs_to_digits_small_base_basecase;
use std::str::FromStr;

/// Deterministic pseudo-random decimal digits, the first one nonzero.
fn digits(n: usize, seed: u64) -> Vec<u8> {
    let mut s = seed;
    let mut v = Vec::with_capacity(n);
    for i in 0..n {
        s = s.wrapping_mul(6364136223846793005).wrapping_add(1442695040888963407);
        let mut d = ((s >> 33) % 10) as u8;
        if i == 0 && d == 0 {
            d = 7;
        }
        v.push(d);
    }
    v
}

fn limbs(n: usize, seed: u64) -> Vec<u32> {
    let mut s = seed;
    let mut v = Vec::with_capacity(n);
    for _ in 0..n {
        s = s.wrapping_mul(6364136223846793005).wrapping_add(1442695040888963407);
        v.push((s >> 32) as u32);
    }
    if *v.last().unwrap() == 0 {
        *v.last_mut().unwrap() = 1;
    }
    v
}

#[test]
fn power_tables_agree_between_algorithms() {
    for &base in &[3u64, 10, 7, 100, 255] {
        for &xs_len in &[1usize, 2, 3, 5, 29, 30, 64, 100, 257] {
            let (pl_mul, mul) = _limbs_compute_power_table(xs_len, base, Some(PowerTableAlgorithm::Mul));
            let (pl_div, div) = _limbs_compute_power_table(xs_len, base, Some(PowerTableAlgorithm::Div));
            assert_eq!(pl_mul, pl_div);
            if xs_len >= 3 {
                assert_eq!(mul.len(), div.len());
            } else {
                assert_eq!(pl_mul, 0);
                assert_eq!(mul.len(), 2);
                assert_eq!(div.len(), 1);
            }
            for i in 0..=pl_mul {
                assert_eq!(mul[i], div[i], "base {} len {} row {}", base, xs_len, i);
            }
        }
    }
}

#[test]
fn power_table_rows_for_base_ten() {
    let mut exponents = vec![0usize; 64];
    let (power_len, _) = _limbs_choose_power_table_algorithm(&mut exponents, 10, 10);
    assert_eq!(power_len, 3);
    assert_eq!(&exponents[..4], &[45, 27, 18, 9]);
    let mul = _limbs_compute_power_table_using_mul(10, &exponents, power_len);
    let div = _limbs_compute_power_table_using_div(10, &exponents, power_len);
    assert_eq!(mul, div);
    let digits_in_base: Vec<usize> = mul.iter().map(|r| r.digits_in_base).collect();
    assert_eq!(digits_in_base, vec![9, 18, 27, 45]);
    // 10^9
    assert_eq!(mul[0].power, vec![1_000_000_000]);
    assert_eq!(mul[0].shift, 0);
    // 10^18 = 2^18 * 5^18 = 0x0de0b6b3a7640000
    assert_eq!(mul[1].power, vec![0xa7640000, 0x0de0b6b3]);
    assert_eq!(mul[1].shift, 0);
    // 10^45 == power * 2^(32 shift)
    let n = Natural::from_limbs_asc(&mul[3].power).shl_bits(32 * mul[3].shift as u64);
    let mut s = String::from("1");
    s.push_str(&"0".repeat(45));
    assert_eq!(n, Natural::from_str(&s).unwrap());
}

#[test]
fn from_digits_divide_and_conquer_matches_basecase() {
    for &(n, seed) in &[(7100usize, 1u64), (7101, 2), (9000, 3), (15000, 4)] {
        let xs = digits(n, seed);
        let out_len = n / 9 + 2;
        let mut out_a = vec![0u32; out_len];
        let mut out_b = vec![0u32; out_len];
        let a = _limbs_from_digits_small_base(&mut out_a, &xs, 10).unwrap();
        let b = _limbs_from_digits_small_base_basecase(&mut out_b, &xs, 10).unwrap();
        assert_eq!(a, b);
        assert_eq!(&out_a[..a], &out_b[..b]);
    }
}

#[test]
fn from_digits_divide_and_conquer_rejects_bad_digits() {
    let mut xs = digits(8000, 9);
    xs[10] = 10;
    let mut out = vec![0u32; 8000 / 9 + 2];
    assert_eq!(_limbs_from_digits_small_base(&mut out, &xs, 10), None);
    let mut xs = digits(8000, 9);
    xs[7990] = 200;
    assert_eq!(_limbs_from_digits_small_base(&mut out, &xs, 10), None);
    assert_eq!(_limbs_from_digits_small_base(&mut out, &digits(8000, 9), 10).is_some(), true);
}

#[test]
fn from_digits_divide_and_conquer_at_a_low_row() {
    let (power_len, powers) = _limbs_compute_power_table(100, 10, None);
    assert!(power_len >= 2);
    let xs = digits(50, 5);
    let mut out_a = vec![0u32; 10];
    let mut out_b = vec![0u32; 10];
    let a = _limbs_from_digits_small_base_divide_and_conquer(&mut out_a, &xs, 10, &powers, 2).unwrap();
    let b = _limbs_from_digits_small_base_basecase(&mut out_b, &xs, 10).unwrap();
    assert_eq!(&out_a[..a], &out_b[..b]);
}

#[test]
fn to_digits_divide_and_conquer_matches_basecase() {
    for &(n, base) in &[(29usize, 10u64), (40, 10), (100, 3), (64, 255), (200, 7)] {
        let xs = limbs(n, n as u64);
        let mut out_dc = vec![0u8; 40 * n];
        let mut out_mul = vec![0u8; 40 * n];
        let k = _limbs_to_digits_small_base(&mut out_dc, base, &xs, Some(PowerTableAlgorithm::Div));
        let k2 = _limbs_to_digits_small_base(&mut out_mul, base, &xs, Some(PowerTableAlgorithm::Mul));
        assert_eq!(k, k2);
        assert_eq!(&out_dc[..k], &out_mul[..k2]);
        // read the digits back
        let mut back = vec![0u32; n + 2];
        let m = _limbs_from_digits_small_base_basecase(&mut back, &out_dc[..k], base).unwrap();
        assert_eq!(&back[..m], &xs[..]);
        // a short prefix agrees with the quadratic method
        let short = &xs[..20];
        let mut a = vec![0u8; 1000];
        let mut b = vec![0u8; 1000];
        let ka = _limbs_to_digits_small_base(&mut a, base, short, None);
        let kb = _limbs_to_digits_small_base_basecase(&mut b, 0, short, base);
        assert_eq!(&a[..ka], &b[..kb]);
    }
}

#[test]
fn decimal_round_trip_of_long_numbers() {
    for &(n, seed) in &[(300usize, 11u64), (1000, 12), (7200, 13)] {
        let ds = digits(n, seed);
        let s: String = ds.iter().map(|d| (b'0' + d) as char).collect();
        let x = Natural::from_str(&s).unwrap();
        assert_eq!(x.to_digits_desc(&10), ds);
        let mut asc = ds.clone();
        asc.reverse();
        assert_eq!(x.to_digits_asc(&10), asc);
        assert_eq!(Natural::from_digits_desc(&10, &ds), Some(x));
    }
}

#[test]
fn limbs_to_digits_desc_of_powers_of_ten() {
    let mut s = String::from("1");
    s.push_str(&"0".repeat(500));
    let x = Natural::from_str(&s).unwrap();
    let ds = limbs_to_digits_desc(&x.to_limbs_asc(), 10);
    assert_eq!(ds.len(), 501);
    assert_eq!(ds[0], 1);
    assert!(ds[1..].iter().all(|&d| d == 0));
}

#[test]
fn test_limbs_div_mod() {
    let (q, r) = limbs_div_mod(&[0, 0, 1], &[3]);
    assert_eq!(q, vec![0x5555_5555, 0x5555_5555]);
    assert_eq!(r, vec![1]);
    let (q, r) = limbs_div_mod(&[5], &[7]);
    assert!(q.is_empty());
    assert_eq!(r, vec![5]);
    let (q, r) = limbs_div_mod(&[0, 0, 0, 1], &[0, 1]);
    assert_eq!(q, vec![0, 0, 1]);
    assert!(r.is_empty());
    let (q, r) = limbs_div_mod(&[123, 456, 789], &[1, 2]);
    // 789 * 2^64 + 456 * 2^32 + 123 == q * (2 * 2^32 + 1) + r
    assert_eq!(q, vec![2147483678, 394]);
    assert_eq!(r, vec![2147483741, 1]);
}

#[test]
fn choose_power_table_for_power_of_two_bases() {
    for &(base, dpl) in &[(2u64, 32usize), (4, 16), (8, 10), (16, 8), (32, 6), (64, 5), (128, 4), (256, 4)] {
        let mut exponents = vec![7usize; 64];
        let (power_len, alg) = _limbs_choose_power_table_algorithm(&mut exponents, 10, base);
        assert_eq!(power_len, 3);
        assert_eq!(&exponents[..4], &[5 * dpl, 3 * dpl, 2 * dpl, dpl]);
        assert!(exponents[4..].iter().all(|&e| e == 7));
        let mut tens = vec![0usize; 64];
        let (pl10, alg10) = _limbs_choose_power_table_algorithm(&mut tens, 10, 10);
        assert_eq!((power_len, alg), (pl10, alg10));
    }
}

#[test]
fn to_digits_divide_and_conquer_accepts_high_zero_limbs() {
    let s: String = digits(300, 5).iter().map(|d| (b'0' + d) as char).collect();
    let x = Natural::from_str(&s).unwrap();
    let mut xs = x.to_limbs_asc();
    let (power_len, powers) = _limbs_compute_power_table(300 / 9 + 1, 10, None);
    let mut plain = vec![0u8; 400];
    let n1 = lib::to_dc::_limbs_to_digits_small_base_divide_and_conquer(&mut plain, 0, &xs, 10, &powers, power_len);
    xs.push(0);
    xs.push(0);
    let mut padded = vec![0u8; 400];
    let n2 = lib::to_dc::_limbs_to_digits_small_base_divide_and_conquer(&mut padded, 0, &xs, 10, &powers, power_len);
    assert_eq!(n1, n2);
    assert_eq!(&plain[..n1], &padded[..n2]);
    let expected: Vec<u8> = s.bytes().map(|c| c - b'0').collect();
    assert_eq!(&plain[..n1], &expected[..]);
}
