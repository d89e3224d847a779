use lib::bases::{get_big_base, get_chars_per_limb};
use lib::natural_digits::limbs_per_digit_in_base;
use lib::digits_api::{
    _from_digits_asc_unsigned, _from_digits_desc_unsigned, _to_digits_asc_unsigned,
    _to_digits_desc_unsigned,
};
use lib::from_large::{
    _from_digits_asc_large, _from_digits_desc_divide_and_conquer, _from_digits_desc_large,
    _from_digits_desc_naive, compute_powers_for_from_digits,
};
use lib::from_limb::{
    _from_digits_asc_limb, _from_digits_asc_limb_from_natural,
    _from_digits_desc_divide_and_conquer_limb, _from_digits_desc_limb,
    _from_digits_desc_limb_from_natural,
};
use lib::limb_digits::_to_digits_asc_naive_primitive;
use lib::large_digits::{_to_digits_asc_large, _to_digits_asc_naive, _to_digits_desc_large};
use lib::natural::Natural;
use lib::natural_digits::{_from_digits_desc_basecase, _from_digits_desc_basecase_limb};
use std::str::FromStr;

fn decimal(n: usize, seed: u64) -> String {
    let mut s = seed;
    let mut out = String::new();
    for i in 0..n {
        s = s.wrapping_mul(6364136223846793005).wrapping_add(1442695040888963407);
        let mut d = ((s >> 33) % 10) as u8;
        if i == 0 && d == 0 {
            d = 7;
        }
        out.push((b'0' + d) as char);
    }
    out
}

/// The base-10^k digits of a decimal string, most significant first, as decimal strings.
fn grouped(s: &str, k: usize) -> Vec<String> {
    let bytes = s.as_bytes();
    let first = bytes.len() % k;
    let mut out = Vec::new();
    let mut i = 0;
    if first != 0 {
        out.push(std::str::from_utf8(&bytes[0..first]).unwrap().to_string());
        i = first;
    }
    while i < bytes.len() {
        out.push(std::str::from_utf8(&bytes[i..i + k]).unwrap().to_string());
        i += k;
    }
    out
}

fn num(s: &str) -> Natural {
    Natural::from_str(s).unwrap()
}

fn naturals(gs: &[String]) -> Vec<Natural> {
    gs.iter().map(|g| num(g)).collect()
}

fn ten_to(k: usize) -> Natural {
    let mut s = String::from("1");
    s.push_str(&"0".repeat(k));
    num(&s)
}

#[test]
fn to_digits_large_base_of_long_numbers() {
    for &(len, k) in &[(2000usize, 12usize), (400, 20), (30, 11)] {
        let s = decimal(len, len as u64 + 5);
        let x = num(&s);
        let base = ten_to(k);
        let expected = naturals(&grouped(&s, k));
        assert_eq!(_to_digits_desc_large(&x, &base), expected);
        let mut asc = expected.clone();
        asc.reverse();
        assert_eq!(_to_digits_asc_large(&x, &base), asc);
    }
}

#[test]
fn to_digits_large_base_edge_values() {
    let base = num("10000000000");
    assert_eq!(_to_digits_asc_large(&Natural::from_u32(0), &base), Vec::<Natural>::new());
    assert_eq!(_to_digits_asc_large(&num("9999999999"), &base), vec![num("9999999999")]);
    assert_eq!(_to_digits_desc_large(&base, &base), vec![num("1"), num("0")]);
    let mut digits = Vec::new();
    _to_digits_asc_naive(&mut digits, &num("123456789012345678901"), &base);
    assert_eq!(digits, vec![num("2345678901"), num("2345678901"), num("1")]);
}

#[test]
fn from_digits_desc_naive_values_and_rejections() {
    let base = num("10000000000");
    let ds = vec![num("12"), num("1234567890"), num("5678901")];
    assert_eq!(_from_digits_desc_naive(&ds, &base), Some(num("1212345678900005678901")));
    assert_eq!(_from_digits_desc_naive(&[], &base), Some(Natural::from_u32(0)));
    let bad = vec![num("1"), num("10000000000")];
    assert_eq!(_from_digits_desc_naive(&bad, &base), None);
    assert_eq!(
        _from_digits_desc_naive(&[Natural::from_u32(1), Natural::from_u32(1)], &Natural::from_u32(2)),
        Some(Natural::from_u32(3))
    );
}

#[test]
fn powers_for_from_digits() {
    assert!(compute_powers_for_from_digits(&Natural::from_u32(10), 100).is_empty());
    let base = Natural::from_u32(1000);
    let powers = compute_powers_for_from_digits(&base, 1000);
    // 1000 digits of 10 bits each pass the threshold; the last exponent reaches 500
    assert_eq!(powers.len(), 10);
    assert_eq!(powers[0], base);
    assert_eq!(powers[1], Natural::from_u32(1000000));
    assert_eq!(powers[3], ten_to(24));
    assert_eq!(powers[9], ten_to(3 * 512));
}

#[test]
fn from_digits_large_base_round_trip() {
    for &(len, k) in &[(3000usize, 12usize), (400, 20), (30, 11)] {
        let s = decimal(len, len as u64 + 9);
        let x = num(&s);
        let base = ten_to(k);
        let ds = naturals(&grouped(&s, k));
        assert_eq!(_from_digits_desc_large(&ds, &base), Some(x.clone()));
        let powers = compute_powers_for_from_digits(&base, ds.len());
        let idx = powers.len().saturating_sub(1);
        assert_eq!(_from_digits_desc_divide_and_conquer(&ds, &base, &powers, idx), Some(x.clone()));
        let mut asc = ds.clone();
        asc.reverse();
        assert_eq!(_from_digits_asc_large(&asc, &base), Some(x));
        let mut bad = ds.clone();
        let last = bad.len() - 1;
        bad[last] = base.clone();
        assert_eq!(_from_digits_desc_large(&bad, &base), None);
    }
}

#[test]
fn from_digits_limb_bases() {
    let s = decimal(3000, 21);
    let x = num(&s);
    let ds: Vec<u32> = grouped(&s, 3).iter().map(|g| g.parse().unwrap()).collect();
    assert_eq!(_from_digits_desc_limb(&ds, 1000), Some(x.clone()));
    let mut asc = ds.clone();
    asc.reverse();
    assert_eq!(_from_digits_asc_limb(&asc, 1000), Some(x.clone()));
    let nb = Natural::from_u32(1000);
    let powers = compute_powers_for_from_digits(&nb, ds.len());
    assert!(!powers.is_empty());
    assert_eq!(
        _from_digits_desc_divide_and_conquer_limb(&ds, 1000, &powers, powers.len() - 1),
        Some(x.clone())
    );
    let decimal_digits: Vec<u32> = s.bytes().map(|c| (c - b'0') as u32).collect();
    assert_eq!(_from_digits_desc_limb(&decimal_digits, 10), Some(x));
    assert_eq!(_from_digits_desc_limb(&[1, 2, 3], 10), Some(Natural::from_u32(123)));
    assert_eq!(_from_digits_asc_limb(&[1, 2, 3], 10), Some(Natural::from_u32(321)));
    assert_eq!(_from_digits_desc_limb(&[1, 10, 3], 10), None);
    assert_eq!(_from_digits_desc_limb(&[], 7), Some(Natural::from_u32(0)));
    assert_eq!(_from_digits_desc_limb(&[1, 0, 0], 4294967295), Some(num("18446744065119617025")));
    assert_eq!(_from_digits_asc_limb(&[5, 300], 300), None);
}

#[test]
fn from_digits_limb_from_naturals() {
    let ds = vec![Natural::from_u32(1), Natural::from_u32(2), Natural::from_u32(3)];
    assert_eq!(_from_digits_desc_limb_from_natural(&ds, 10), Some(Natural::from_u32(123)));
    assert_eq!(_from_digits_asc_limb_from_natural(&ds, 10), Some(Natural::from_u32(321)));
    let wide = vec![Natural::from_u32(1), num("4294967296")];
    assert_eq!(_from_digits_desc_limb_from_natural(&wide, 10), None);
    assert_eq!(_from_digits_asc_limb_from_natural(&wide, 4294967295), None);
}

#[test]
fn double_limb_digits() {
    let x = num("340282366920938463463374607431768211455");
    let base: u64 = 18446744073709551615;
    let asc = _to_digits_asc_unsigned(&x, &base);
    assert_eq!(asc, vec![0, 2, 1]);
    assert_eq!(_to_digits_desc_unsigned(&x, &base), vec![1, 2, 0]);
    assert_eq!(_from_digits_asc_unsigned(&base, &asc), Some(x.clone()));
    assert_eq!(_from_digits_desc_unsigned(&base, &[1, 2, 0]), Some(x));
    let y = num("1000000000000000000000000000000");
    assert_eq!(_to_digits_asc_unsigned(&y, &1000000000000000), vec![0, 0, 1]);
    assert_eq!(_to_digits_desc_unsigned(&y, &10), {
        let mut v = vec![1u64];
        v.extend(std::iter::repeat(0).take(30));
        v
    });
    assert_eq!(_from_digits_desc_unsigned(&1000, &[1, 2, 3]), Some(Natural::from_u32(1002003)));
    assert_eq!(_from_digits_desc_unsigned(&1000, &[1, 4294967296]), None);
    assert_eq!(_from_digits_asc_unsigned(&10000000000, &[10000000000]), None);
}

#[test]
fn natural_digit_methods() {
    let x = num("123456789012345678901234567890");
    let big = num("1000000000000000");
    let ds = x.to_digits_asc_natural(&big);
    assert_eq!(ds, vec![num("678901234567890"), num("123456789012345")]);
    assert_eq!(Natural::from_digits_asc_natural(&big, &ds), Some(x.clone()));
    let small = Natural::from_u32(100);
    let d2 = x.to_digits_desc_natural(&small);
    assert_eq!(d2.len(), 15);
    assert_eq!(d2[0], Natural::from_u32(12));
    assert_eq!(Natural::from_digits_desc_natural(&small, &d2), Some(x.clone()));
    assert_eq!(x.to_digits_desc_u32(&1000000000), vec![123, 456789012, 345678901, 234567890]);
    assert_eq!(Natural::from_digits_asc_u32(&1000000000, &[234567890, 345678901, 456789012, 123]), Some(x.clone()));
    assert_eq!(x.to_digits_asc_u64(&1000000000000000), vec![678901234567890, 123456789012345]);
    assert_eq!(Natural::from_digits_desc_u64(&1000000000000000, &[123456789012345, 678901234567890]), Some(x));
}

#[test]
fn to_digits_naive_primitive_appends() {
    let mut digits = vec![42u32];
    _to_digits_asc_naive_primitive(&mut digits, &num("1000000000000"), 1000);
    assert_eq!(digits, vec![42, 0, 0, 0, 0, 1]);
    let mut none: Vec<u32> = Vec::new();
    _to_digits_asc_naive_primitive(&mut none, &Natural::from_u32(0), 7);
    assert!(none.is_empty());
    let mut big: Vec<u32> = Vec::new();
    _to_digits_asc_naive_primitive(&mut big, &num("18446744073709551616"), 4294967295);
    assert_eq!(big, vec![1, 2, 1]);
}

#[test]
fn from_digits_basecase_in_limb_chunks() {
    let s = decimal(500, 31);
    let x = num(&s);
    let ds: Vec<u32> = s.bytes().map(|c| (c - b'0') as u32).collect();
    assert_eq!(_from_digits_desc_basecase_limb(&ds, 10), Some(x.clone()));
    let bytes: Vec<u8> = s.bytes().map(|c| c - b'0').collect();
    assert_eq!(_from_digits_desc_basecase(&bytes, 10), Some(x));
    assert_eq!(_from_digits_desc_basecase(&[1, 2], 300), None);
    assert_eq!(_from_digits_desc_basecase_limb(&[299, 1], 300), Some(Natural::from_u32(89701)));
    assert_eq!(_from_digits_desc_basecase_limb(&[1, 300], 300), None);
    assert_eq!(_from_digits_desc_basecase_limb(&[65535, 65535, 65535], 65536), Some(num("281474976710655")));
    assert_eq!(_from_digits_desc_basecase_limb(&[], 3), Some(Natural::from_u32(0)));
}

#[test]
fn per_base_constants() {
    assert_eq!(get_chars_per_limb(10), 9);
    assert_eq!(get_big_base(10), 1000000000);
    assert_eq!(get_chars_per_limb(3), 20);
    assert_eq!(get_big_base(3), 3486784401);
    assert_eq!(get_chars_per_limb(255), 4);
    assert_eq!(get_chars_per_limb(2), 32);
    assert_eq!(get_chars_per_limb(16), 8);
    assert_eq!(get_chars_per_limb(256), 4);
    assert_eq!(get_chars_per_limb(8), 10);
    assert_eq!(get_big_base(2), 1);
    assert_eq!(get_big_base(8), 3);
    assert_eq!(get_big_base(256), 8);
    assert_eq!(get_big_base(255), 4228250625);
    assert_eq!(limbs_per_digit_in_base(0, 10), 2);
    assert_eq!(limbs_per_digit_in_base(9, 10), 3);
    assert_eq!(limbs_per_digit_in_base(100, 10), 13);
    assert_eq!(limbs_per_digit_in_base(100, 3), 7);
}

#[test]
fn natural_to_string() {
    assert_eq!(Natural::new().to_string(), "0");
    assert_eq!(Natural::default().to_string(), "0");
    assert_eq!(Natural::from_u32(123).to_string(), "123");
    assert_eq!(num("1000000000000000000000000000000").to_string(), "1000000000000000000000000000000");
    let s = decimal(700, 3);
    assert_eq!(num(&s).to_string(), s);
}

#[test]
fn readers_agree_and_read_back() {
    let s = decimal(2500, 17);
    let ds: Vec<u32> = grouped(&s, 4).iter().map(|g| g.parse().unwrap()).collect();
    let nb = Natural::from_u32(10000);
    let powers = compute_powers_for_from_digits(&nb, ds.len());
    assert!(!powers.is_empty());
    assert_eq!(
        _from_digits_desc_divide_and_conquer_limb(&ds, 10000, &powers, powers.len() - 1),
        lib::natural_digits::_from_digits_desc_naive_primitive(&ds, 10000)
    );
    let x = num(&s);
    for &b in &[3u32, 10, 255, 256, 1000, 65537, 4294967295] {
        let asc = lib::limb_digits::_to_digits_asc_limb(&x, b);
        assert_eq!(_from_digits_asc_limb(&asc, b), Some(x.clone()));
    }
}

#[test]
fn limbs_per_digit_for_all_table_bases() {
    assert_eq!(limbs_per_digit_in_base(100, 2), 100 / 32 + 2);
    assert_eq!(limbs_per_digit_in_base(100, 16), 100 / 8 + 2);
    assert_eq!(limbs_per_digit_in_base(100, 256), 100 / 4 + 2);
    assert_eq!(limbs_per_digit_in_base(100, 8), 100 / 10 + 2);
}

#[test]
fn half_limb_and_word_digits() {
    let x = num("123456789012345678901234567890");
    let d16 = x.to_digits_asc_u16(&10000);
    assert_eq!(d16, vec![7890, 3456, 9012, 5678, 1234, 7890, 3456, 12]);
    assert_eq!(Natural::from_digits_asc_u16(&10000, &d16), Some(x.clone()));
    let mut rev = d16.clone();
    rev.reverse();
    assert_eq!(x.to_digits_desc_u16(&10000), rev);
    assert_eq!(Natural::from_digits_desc_u16(&10000, &rev), Some(x.clone()));
    assert_eq!(Natural::from_digits_desc_u16(&10000, &[1, 10000]), None);
    let du = x.to_digits_asc_usize(&1000000000);
    assert_eq!(du, vec![234567890, 345678901, 456789012, 123]);
    assert_eq!(x.to_digits_desc_usize(&1000000000), vec![123, 456789012, 345678901, 234567890]);
    assert_eq!(Natural::from_digits_asc_usize(&1000000000, &du), Some(x.clone()));
    assert_eq!(Natural::from_digits_desc_usize(&1000000000, &[123, 456789012, 345678901, 234567890]), Some(x));
    assert_eq!(Natural::from_digits_asc_usize(&10, &[3, 10]), None);
}

#[test]
fn quadruple_limb_digits() {
    let x = num("340282366920938463463374607431768211456");
    let big: u128 = 1u128 << 100;
    assert_eq!(x.to_digits_asc_u128(&big), vec![0, 1u128 << 28]);
    assert_eq!(x.to_digits_desc_u128(&big), vec![1u128 << 28, 0]);
    assert_eq!(Natural::from_digits_asc_u128(&big, &[0, 1u128 << 28]), Some(x.clone()));
    assert_eq!(Natural::from_digits_desc_u128(&big, &[1u128 << 28, 0]), Some(x.clone()));
    assert_eq!(Natural::from_digits_desc_u128(&big, &[1, big]), None);
    let y = num("1000000000000000000000000000000");
    assert_eq!(y.to_digits_asc_u128(&1000000000000000), vec![0, 0, 1]);
    assert_eq!(y.to_digits_desc_u128(&u128::MAX), vec![1000000000000000000000000000000u128]);
    assert_eq!(Natural::from_digits_asc_u128(&1000, &[1, 2, 3]), Some(Natural::from_u32(3002001)));
    assert_eq!(Natural::from_digits_asc_u128(&1000, &[1, 1u128 << 70]), None);
    assert_eq!(Natural::from_digits_desc_u128(&u128::MAX, &[1, 1]), Some(num("340282366920938463463374607431768211456")));
}
