use lib::natural::Natural;
use std::str::FromStr;

fn naturals() -> Vec<Natural> {
    [
        "0",
        "1",
        "2",
        "12",
        "32",
        "64",
        "123",
        "1000000000000",
        "4294967295",
        "4294967296",
        "18446744073709551615",
        "18446744073709551616",
        "1701411834921604967429270619762735448065",
        "340282366920938463463374607431768211456",
        "1267650600228229401496703205376",
    ]
    .iter()
    .map(|s| Natural::from_str(s).unwrap())
    .collect()
}

#[test]
fn test_trailing_zeros() {
    let test = |n, out| {
        assert_eq!(Natural::from_str(n).unwrap().trailing_zeros(), out);
    };
    test("0", None);
    test("123", Some(0));
    test("1000000000000", Some(12));
    test("4294967295", Some(0));
    test("4294967296", Some(32));
    test("18446744073709551615", Some(0));
    test("18446744073709551616", Some(64));
}

#[test]
fn trailing_zeros_properties() {
    for x in naturals() {
        let trailing_zeros = x.trailing_zeros();
        assert_eq!(trailing_zeros.is_none(), x.is_zero());
        if !x.is_zero() {
            let trailing_zeros = trailing_zeros.unwrap();
            if trailing_zeros <= u64::from(u32::MAX) {
                assert!(x.shr_bits(trailing_zeros).is_odd());
                assert_eq!(x.shr_bits(trailing_zeros).shl_bits(trailing_zeros), x);
            }
        }
    }
}

#[test]
fn shifts_of_known_values() {
    let n = Natural::from_str("1000000000000").unwrap();
    assert_eq!(n.shr_bits(12), Natural::from_str("244140625").unwrap());
    assert_eq!(n.shr_bits(40), Natural::from_u32(0));
    assert_eq!(n.shr_bits(33), Natural::from_u32(116));
    assert_eq!(
        Natural::from_u32(1).shl_bits(100),
        Natural::from_str("1267650600228229401496703205376").unwrap()
    );
    assert_eq!(Natural::from_u32(0).shl_bits(100), Natural::from_u32(0));
}

#[test]
fn test_to_limbs_le() {
    let test = |n, out: Vec<u32>| {
        assert_eq!(Natural::from_str(n).unwrap().to_limbs_asc(), out);
    };
    test("0", vec![]);
    test("123", vec![123]);
    test("1000000000000", vec![3_567_587_328, 232]);
    test(
        "1701411834921604967429270619762735448065",
        vec![1, 2, 3, 4, 5],
    );
    test("4294967295", vec![u32::MAX]);
    test("4294967296", vec![0, 1]);
    test("18446744073709551615", vec![u32::MAX, u32::MAX]);
    test("18446744073709551616", vec![0, 0, 1]);
}

#[test]
fn test_to_limbs_be() {
    let test = |n, out: Vec<u32>| {
        assert_eq!(Natural::from_str(n).unwrap().to_limbs_desc(), out);
    };
    test("0", vec![]);
    test("123", vec![123]);
    test("1000000000000", vec![232, 3_567_587_328]);
    test(
        "1701411834921604967429270619762735448065",
        vec![5, 4, 3, 2, 1],
    );
    test("4294967295", vec![u32::MAX]);
    test("4294967296", vec![1, 0]);
    test("18446744073709551615", vec![u32::MAX, u32::MAX]);
    test("18446744073709551616", vec![1, 0, 0]);
}

#[test]
fn to_limbs_le_properties() {
    for x in naturals() {
        let limbs = x.to_limbs_asc();
        assert_eq!(Natural::from_limbs_asc(&limbs), x);
        assert_eq!(
            x.to_limbs_desc(),
            limbs.iter().cloned().rev().collect::<Vec<u32>>()
        );
        if !x.is_zero() {
            assert_ne!(*limbs.last().unwrap(), 0);
        }
    }
}

#[test]
fn to_limbs_be_properties() {
    for x in naturals() {
        let limbs = x.to_limbs_desc();
        assert_eq!(Natural::from_limbs_desc(&limbs), x);
        assert_eq!(
            x.to_limbs_asc(),
            limbs.iter().cloned().rev().collect::<Vec<u32>>()
        );
        if !x.is_zero() {
            assert_ne!(limbs[0], 0);
        }
    }
}

#[test]
fn natural_order_matches_values() {
    let xs = naturals();
    let ys = naturals();
    for x in &xs {
        for y in &ys {
            let a = x.to_limbs_desc();
            let b = y.to_limbs_desc();
            let expected = a.len().cmp(&b.len()).then(a.cmp(&b));
            assert_eq!(x.cmp_natural(y), expected);
        }
    }
}
