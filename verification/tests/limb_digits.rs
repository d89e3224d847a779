use lib::limb_digits::{
    _to_digits_asc_limb, _to_digits_desc_limb, compute_powers_for_to_digits, limbs_bit_length,
};
use lib::natural::Natural;
use std::str::FromStr;

fn decimal(n: usize, seed: u64) -> String {
    let mut s = seed;
    let mut out = String::new();
    for i in 0..n {
        s = s.wrapping_mul(6364136223846793005).wrapping_add(1442695040888963407);
        let mut d = ((s >> 33) % 10) as u8;
        if i == 0 && d == 0 {
            d = 3;
        }
        out.push((b'0' + d) as char);
    }
    out
}

/// The base-10^k digits of a decimal string, most significant first.
fn grouped(s: &str, k: usize) -> Vec<u32> {
    let bytes = s.as_bytes();
    let first = bytes.len() % k;
    let mut out = Vec::new();
    let mut i = 0;
    if first != 0 {
        out.push(std::str::from_utf8(&bytes[..first]).unwrap().parse::<u32>().unwrap());
        i = first;
    }
    while i < bytes.len() {
        out.push(std::str::from_utf8(&bytes[i..i + k]).unwrap().parse::<u32>().unwrap());
        i += k;
    }
    while out.len() > 1 && out[0] == 0 {
        out.remove(0);
    }
    out
}

#[test]
fn to_digits_limb_small_values() {
    let x = Natural::from_str("123456789").unwrap();
    assert_eq!(_to_digits_asc_limb(&x, 10), vec![9, 8, 7, 6, 5, 4, 3, 2, 1]);
    assert_eq!(_to_digits_desc_limb(&x, 1000), vec![123, 456, 789]);
    assert_eq!(_to_digits_asc_limb(&Natural::from_u32(0), 7), Vec::<u32>::new());
    assert_eq!(_to_digits_desc_limb(&Natural::from_u32(255), 16), vec![15, 15]);
    assert_eq!(_to_digits_asc_limb(&Natural::from_u32(5), 2), vec![1, 0, 1]);
    let y = Natural::from_str("18446744073709551616").unwrap();
    assert_eq!(_to_digits_asc_limb(&y, 4294967295), vec![1, 2, 1]);
    assert_eq!(_to_digits_desc_limb(&y, 256), vec![1, 0, 0, 0, 0, 0, 0, 0, 0]);
}

#[test]
fn to_digits_limb_large_bases_and_values() {
    for &(len, k) in &[(300usize, 5usize), (2000, 9), (600, 4), (50, 3)] {
        let s = decimal(len, len as u64);
        let x = Natural::from_str(&s).unwrap();
        let base = 10u32.pow(k as u32);
        let expected = grouped(&s, k);
        assert_eq!(_to_digits_desc_limb(&x, base), expected);
        let mut asc = expected.clone();
        asc.reverse();
        assert_eq!(_to_digits_asc_limb(&x, base), asc);
    }
}

#[test]
fn to_digits_limb_base_below_256_on_large_values() {
    let s = decimal(1000, 77);
    let x = Natural::from_str(&s).unwrap();
    let expected: Vec<u32> = s.bytes().map(|c| (c - b'0') as u32).collect();
    assert_eq!(_to_digits_desc_limb(&x, 10), expected);
    let hundred = grouped(&s, 2);
    assert_eq!(_to_digits_desc_limb(&x, 100), hundred);
}

#[test]
fn powers_for_to_digits() {
    assert!(compute_powers_for_to_digits(&Natural::from_u32(10), 100).is_empty());
    let powers = compute_powers_for_to_digits(&Natural::from_u32(100000), 2000);
    assert!(!powers.is_empty());
    assert_eq!(powers[0].to_limbs_asc(), vec![100000]);
    assert_eq!(powers[1].to_limbs_asc(), vec![1410065408, 2]);
    let last = powers.last().unwrap().to_limbs_asc();
    assert!(limbs_bit_length(&last) >= (2000 + 3 + 1) / 2);
}
