use lib::integer::Integer;
use std::cmp::Ordering;
use std::str::FromStr;

fn integers() -> Vec<Integer> {
    [
        "0",
        "1",
        "-1",
        "123",
        "-123",
        "2147483647",
        "2147483648",
        "-2147483647",
        "-2147483648",
        "-2147483649",
        "4294967295",
        "4294967296",
        "-4294967295",
        "-4294967296",
        "1000000000000",
        "-1000000000000",
        "18446744073709551615",
        "18446744073709551616",
        "-18446744073709551615",
        "-18446744073709551616",
        "1000000000000000000000",
        "-1000000000000000000000",
        "340282366920938463463374607431768211455",
    ]
    .iter()
    .map(|s| Integer::from_str(s).unwrap())
    .collect()
}

#[test]
fn test_to_u64() {
    let test = |n, out| {
        assert_eq!(Integer::from_str(n).unwrap().to_u64(), out);
    };
    test("0", Some(0));
    test("123", Some(123));
    test("-123", None);
    test("1000000000000", Some(1_000_000_000_000));
    test("-1000000000000", None);
    test("1000000000000000000000", None);
    test("-1000000000000000000000", None);
    test("4294967295", Some(u32::MAX.into()));
    test("4294967296", Some(u64::from(u32::MAX) + 1));
    test("18446744073709551615", Some(u64::MAX));
    test("18446744073709551616", None);
}

#[test]
fn test_to_u64_wrapping() {
    let test = |n, out| {
        assert_eq!(Integer::from_str(n).unwrap().to_u64_wrapping(), out);
    };
    test("0", 0);
    test("123", 123);
    test("-123", 18_446_744_073_709_551_493);
    test("1000000000000", 1_000_000_000_000);
    test("-1000000000000", 18_446_743_073_709_551_616);
    test("1000000000000000000000", 3_875_820_019_684_212_736);
    test("-1000000000000000000000", 14_570_924_054_025_338_880);
    test("4294967296", u64::from(u32::MAX) + 1);
    test("4294967297", u64::from(u32::MAX) + 2);
    test("-4294967296", 0xffff_ffff_0000_0000);
    test("-4294967295", 18_446_744_069_414_584_321);
    test("18446744073709551616", 0);
    test("18446744073709551617", 1);
    test("-18446744073709551616", 0);
    test("-18446744073709551615", 1);
}

#[test]
fn to_u64_properties() {
    for x in integers() {
        let result = x.to_u64();
        if x.sign() != Ordering::Less && x.significant_bits() <= 64 {
            assert_eq!(Integer::from_u64(result.unwrap()), x);
            assert_eq!(result, Some(x.to_u64_wrapping()));
        } else {
            assert!(result.is_none());
        }
    }
}

#[test]
fn to_u64_wrapping_properties() {
    for x in integers() {
        let result = x.to_u64_wrapping();
        assert_eq!(result.wrapping_add(x.neg().to_u64_wrapping()), 0);
    }
}

#[test]
fn test_to_i32() {
    let test = |n, out| {
        assert_eq!(Integer::from_str(n).unwrap().to_i32(), out);
    };
    test("0", Some(0));
    test("123", Some(123));
    test("-123", Some(-123));
    test("1000000000000", None);
    test("-1000000000000", None);
    test("2147483647", Some(i32::MAX));
    test("2147483648", None);
    test("-2147483648", Some(i32::MIN));
    test("-2147483649", None);
}

#[test]
fn test_to_i32_wrapping() {
    let test = |n, out| {
        assert_eq!(Integer::from_str(n).unwrap().to_i32_wrapping(), out);
    };
    test("0", 0);
    test("123", 123);
    test("-123", -123);
    test("1000000000000", -727_379_968);
    test("-1000000000000", 727_379_968);
    test("2147483647", i32::MAX);
    test("2147483648", i32::MIN);
    test("-2147483648", i32::MIN);
    test("-2147483649", i32::MAX);
}

#[test]
fn to_i32_properties() {
    let min = Integer::from_i32(i32::MIN);
    let max = Integer::from_i32(i32::MAX);
    for x in integers() {
        let result = x.to_i32();
        if x.cmp_integer(&min) != Ordering::Less && x.cmp_integer(&max) != Ordering::Greater {
            assert_eq!(Integer::from_i32(result.unwrap()), x);
            assert_eq!(result, Some(x.to_i32_wrapping()));
        } else {
            assert!(result.is_none());
        }
    }
}

#[test]
fn to_i32_wrapping_properties() {
    for x in integers() {
        let result = x.to_i32_wrapping();
        assert_eq!(result.wrapping_neg(), x.neg().to_i32_wrapping());
    }
}

#[test]
fn neg_to_u64_wrapping_is_the_wrapped_negation() {
    for x in integers() {
        assert_eq!(
            x.neg().to_u64_wrapping(),
            x.to_u64_wrapping().wrapping_neg()
        );
        assert_eq!(x.neg().neg(), x);
    }
}
