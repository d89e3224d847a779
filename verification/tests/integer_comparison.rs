use lib::integer::Integer;
use lib::natural::Natural;
use std::cmp::Ordering;
use std::cmp::Ordering::{Equal, Greater, Less};
use std::str::FromStr;

fn integers() -> Vec<Integer> {
    [
        "0",
        "5",
        "-5",
        "122",
        "123",
        "-123",
        "124",
        "-124",
        "4294967295",
        "-4294967296",
        "1000000000000",
        "-1000000000000",
        "1000000000001",
        "18446744073709551616",
        "-18446744073709551616",
    ]
    .iter()
    .map(|s| Integer::from_str(s).unwrap())
    .collect()
}

fn naturals() -> Vec<Natural> {
    ["0", "5", "123", "124", "4294967296", "1000000000000", "18446744073709551616"]
        .iter()
        .map(|s| Natural::from_str(s).unwrap())
        .collect()
}

fn check_flags(cmp: Option<Ordering>, lt: bool, gt: bool, le: bool, ge: bool) {
    assert_eq!(lt, cmp == Some(Less));
    assert_eq!(gt, cmp == Some(Greater));
    assert_eq!(le, cmp != Some(Greater));
    assert_eq!(ge, cmp != Some(Less));
}

#[test]
fn test_partial_cmp_abs_u32() {
    let test = |s, v: u32, cmp, lt: bool, gt: bool, le: bool, ge: bool| {
        let u = Integer::from_str(s).unwrap();
        assert_eq!(u.partial_cmp_abs_u32(v), cmp);
        assert_eq!(
            Integer::from_u32(v).cmp_abs(&u),
            cmp.map(Ordering::reverse).unwrap()
        );
        check_flags(u.partial_cmp_abs_u32(v), lt, gt, le, ge);
    };
    test("0", 0, Some(Equal), false, false, true, true);
    test("0", 5, Some(Less), true, false, true, false);
    test("123", 123, Some(Equal), false, false, true, true);
    test("-123", 123, Some(Equal), false, false, true, true);
    test("123", 124, Some(Less), true, false, true, false);
    test("-123", 124, Some(Less), true, false, true, false);
    test("123", 122, Some(Greater), false, true, false, true);
    test("-123", 122, Some(Greater), false, true, false, true);
    test("1000000000000", 123, Some(Greater), false, true, false, true);
    test("-1000000000000", 123, Some(Greater), false, true, false, true);
}

#[test]
fn test_partial_cmp_abs_u64() {
    let test = |u, v: u64, cmp, lt: bool, gt: bool, le: bool, ge: bool| {
        assert_eq!(Integer::from_str(u).unwrap().partial_cmp_abs_u64(v), cmp);
        assert_eq!(
            Integer::from_u64(v).cmp_abs(&Integer::from_str(u).unwrap()),
            cmp.map(Ordering::reverse).unwrap()
        );
        check_flags(Integer::from_str(u).unwrap().partial_cmp_abs_u64(v), lt, gt, le, ge);
    };
    test("0", 0, Some(Equal), false, false, true, true);
    test("0", 5, Some(Less), true, false, true, false);
    test("123", 123, Some(Equal), false, false, true, true);
    test("-123", 123, Some(Equal), false, false, true, true);
    test("123", 124, Some(Less), true, false, true, false);
    test("-123", 124, Some(Less), true, false, true, false);
    test("123", 122, Some(Greater), false, true, false, true);
    test("-123", 122, Some(Greater), false, true, false, true);
    test("1000000000000", 123, Some(Greater), false, true, false, true);
    test("-1000000000000", 123, Some(Greater), false, true, false, true);
    test("1000000000000", 1000000000000, Some(Equal), false, false, true, true);
    test("-1000000000000", 1000000000000, Some(Equal), false, false, true, true);
    test("1000000000000", 1000000000001, Some(Less), true, false, true, false);
    test("-1000000000000", 1000000000001, Some(Less), true, false, true, false);
}

#[test]
fn test_partial_cmp_abs_i32() {
    let test = |u, v: i32, cmp, lt: bool, gt: bool, le: bool, ge: bool| {
        assert_eq!(Integer::from_str(u).unwrap().partial_cmp_abs_i32(v), cmp);
        assert_eq!(
            Integer::from_i32(v).cmp_abs(&Integer::from_str(u).unwrap()),
            cmp.map(Ordering::reverse).unwrap()
        );
        check_flags(Integer::from_str(u).unwrap().partial_cmp_abs_i32(v), lt, gt, le, ge);
    };
    test("0", 0, Some(Equal), false, false, true, true);
    test("0", 5, Some(Less), true, false, true, false);
    test("0", -5, Some(Less), true, false, true, false);
    test("123", 123, Some(Equal), false, false, true, true);
    test("123", -123, Some(Equal), false, false, true, true);
    test("-123", 123, Some(Equal), false, false, true, true);
    test("-123", -123, Some(Equal), false, false, true, true);
    test("123", 124, Some(Less), true, false, true, false);
    test("123", -124, Some(Less), true, false, true, false);
    test("-123", 124, Some(Less), true, false, true, false);
    test("-123", -124, Some(Less), true, false, true, false);
    test("123", 122, Some(Greater), false, true, false, true);
    test("123", -122, Some(Greater), false, true, false, true);
    test("-123", 122, Some(Greater), false, true, false, true);
    test("-123", -122, Some(Greater), false, true, false, true);
    test("1000000000000", 123, Some(Greater), false, true, false, true);
    test("1000000000000", -123, Some(Greater), false, true, false, true);
    test("-1000000000000", 123, Some(Greater), false, true, false, true);
    test("-1000000000000", -123, Some(Greater), false, true, false, true);
}

#[test]
fn test_partial_cmp_abs_i64() {
    let test = |u, v: i64, cmp, lt: bool, gt: bool, le: bool, ge: bool| {
        assert_eq!(Integer::from_str(u).unwrap().partial_cmp_abs_i64(v), cmp);
        assert_eq!(
            Integer::from_i64(v).cmp_abs(&Integer::from_str(u).unwrap()),
            cmp.map(Ordering::reverse).unwrap()
        );
        check_flags(Integer::from_str(u).unwrap().partial_cmp_abs_i64(v), lt, gt, le, ge);
    };
    test("0", 0, Some(Equal), false, false, true, true);
    test("0", 5, Some(Less), true, false, true, false);
    test("0", -5, Some(Less), true, false, true, false);
    test("123", 123, Some(Equal), false, false, true, true);
    test("123", -123, Some(Equal), false, false, true, true);
    test("-123", 123, Some(Equal), false, false, true, true);
    test("-123", -123, Some(Equal), false, false, true, true);
    test("123", 124, Some(Less), true, false, true, false);
    test("123", -124, Some(Less), true, false, true, false);
    test("-123", 124, Some(Less), true, false, true, false);
    test("-123", -124, Some(Less), true, false, true, false);
    test("123", 122, Some(Greater), false, true, false, true);
    test("123", -122, Some(Greater), false, true, false, true);
    test("-123", 122, Some(Greater), false, true, false, true);
    test("-123", -122, Some(Greater), false, true, false, true);
    test("1000000000000", 123, Some(Greater), false, true, false, true);
    test("1000000000000", -123, Some(Greater), false, true, false, true);
    test("-1000000000000", 123, Some(Greater), false, true, false, true);
    test("-1000000000000", -123, Some(Greater), false, true, false, true);
    test("1000000000000", 1000000000000, Some(Equal), false, false, true, true);
    test("1000000000000", -1000000000000, Some(Equal), false, false, true, true);
    test("-1000000000000", 1000000000000, Some(Equal), false, false, true, true);
    test("-1000000000000", -1000000000000, Some(Equal), false, false, true, true);
    test("1000000000000", 1000000000001, Some(Less), true, false, true, false);
    test("1000000000000", -1000000000001, Some(Less), true, false, true, false);
    test("-1000000000000", 1000000000001, Some(Less), true, false, true, false);
    test("-1000000000000", -1000000000001, Some(Less), true, false, true, false);
}

#[test]
fn partial_cmp_abs_primitive_int_properties() {
    let unsigneds: Vec<u64> = vec![0, 1, 5, 122, 123, 124, u32::MAX as u64, 1000000000000, u64::MAX];
    let signeds: Vec<i64> = vec![0, 1, -1, 5, -5, 123, -123, 1000000000000, -1000000000001, i64::MIN, i64::MAX];
    for n in integers() {
        for &u in &unsigneds {
            let cmp = n.partial_cmp_abs_u64(u);
            assert_eq!(Some(n.cmp_abs(&Integer::from_u64(u))), cmp);
            assert_eq!(
                Some(Integer::from_u64(u).cmp_abs(&n)),
                cmp.map(Ordering::reverse)
            );
            assert_eq!(n.neg().partial_cmp_abs_u64(u), cmp);
            if u <= u32::MAX as u64 {
                assert_eq!(n.partial_cmp_abs_u32(u as u32), cmp);
            }
        }
        for &i in &signeds {
            let cmp = n.partial_cmp_abs_i64(i);
            assert_eq!(Some(n.cmp_abs(&Integer::from_i64(i))), cmp);
            assert_eq!(
                Some(Integer::from_i64(i).cmp_abs(&n)),
                cmp.map(Ordering::reverse)
            );
            assert_eq!(n.neg().partial_cmp_abs_i64(i), cmp);
            if i != i64::MIN {
                assert_eq!(n.partial_cmp_abs_i64(-i), cmp);
                assert_eq!(n.neg().partial_cmp_abs_i64(-i), cmp);
            }
            if i >= i32::MIN as i64 && i <= i32::MAX as i64 {
                assert_eq!(n.partial_cmp_abs_i32(i as i32), cmp);
            }
        }
        assert_ne!(n.partial_cmp_abs_u32(0), Some(Less));
        assert_ne!(n.partial_cmp_abs_i32(0), Some(Less));
    }
    for n in integers() {
        for m in integers() {
            for &u in &unsigneds {
                let n_u = n.partial_cmp_abs_u64(u);
                let m_u = m.partial_cmp_abs_u64(u);
                if n_u == Some(Less) && m_u == Some(Greater) {
                    assert_eq!(n.cmp_abs(&m), Less);
                } else if n_u == Some(Greater) && m_u == Some(Less) {
                    assert_eq!(n.cmp_abs(&m), Greater);
                }
            }
        }
    }
    for &x in &unsigneds {
        for &y in &unsigneds {
            assert_eq!(Integer::from_u64(x).partial_cmp_abs_u64(y), Some(x.cmp(&y)));
        }
    }
    for &x in &signeds {
        for &y in &signeds {
            assert_eq!(
                Integer::from_i64(x).partial_cmp_abs_i64(y),
                Some(x.unsigned_abs().cmp(&y.unsigned_abs()))
            );
        }
    }
}

#[test]
fn test_partial_ord_integer_natural() {
    let test = |u, v, out| {
        assert_eq!(
            Integer::from_str(u)
                .unwrap()
                .partial_cmp_natural(&Natural::from_str(v).unwrap()),
            out
        );
    };
    test("0", "0", Some(Equal));
    test("0", "5", Some(Less));
    test("123", "123", Some(Equal));
    test("123", "124", Some(Less));
    test("123", "122", Some(Greater));
    test("1000000000000", "123", Some(Greater));
    test("123", "1000000000000", Some(Less));
    test("1000000000000", "1000000000000", Some(Equal));
    test("-1000000000000", "1000000000000", Some(Less));
    test("-1000000000000", "0", Some(Less));
}

#[test]
fn partial_cmp_integer_natural_properties() {
    for x in integers() {
        for y in naturals() {
            let cmp = x.partial_cmp_natural(&y);
            assert_eq!(
                x.cmp_integer(&Integer::from_natural(y.clone_natural())),
                cmp.unwrap()
            );
        }
    }
    for x in integers() {
        for y in naturals() {
            for z in integers() {
                let xy = x.partial_cmp_natural(&y).unwrap();
                let zy = z.partial_cmp_natural(&y).unwrap();
                if xy == Less && zy == Greater {
                    assert_eq!(x.cmp_integer(&z), Less);
                } else if xy == Greater && zy == Less {
                    assert_eq!(x.cmp_integer(&z), Greater);
                }
            }
        }
    }
    for x in naturals() {
        for y in integers() {
            for z in naturals() {
                let yx = y.partial_cmp_natural(&x).unwrap();
                let yz = y.partial_cmp_natural(&z).unwrap();
                if yx == Greater && yz == Less {
                    assert_eq!(x.cmp_natural(&z), Less);
                } else if yx == Less && yz == Greater {
                    assert_eq!(x.cmp_natural(&z), Greater);
                }
            }
        }
    }
}
