use lib::arith::{
    limbs_add_limb, limbs_add_limb_to_out, limbs_slice_add_limb_in_place,
    limbs_vec_add_limb_in_place,
};
use lib::natural::Natural;
use std::str::FromStr;

fn limb_vecs() -> Vec<Vec<u32>> {
    vec![
        vec![],
        vec![0],
        vec![5],
        vec![6, 7],
        vec![100, 101, 102],
        vec![123, 456],
        vec![0xffff_ffff],
        vec![0xffff_ffff, 5],
        vec![0xffff_ffff, 0xffff_ffff],
        vec![0xffff_fffe, 0xffff_ffff, 0xffff_ffff],
        vec![1, 2, 3, 4, 5],
        vec![0, 0, 0],
    ]
}

fn limb_values() -> Vec<u32> {
    vec![0, 1, 2, 5, 10, 789, 0x7fff_ffff, 0xffff_fffe, 0xffff_ffff]
}

#[test]
fn test_limbs_add_limb() {
    let test = |limbs: &[u32], limb: u32, out: &[u32]| {
        assert_eq!(limbs_add_limb(limbs, limb), out);
    };
    test(&[], 0, &[]);
    test(&[], 5, &[5]);
    test(&[6, 7], 2, &[8, 7]);
    test(&[100, 101, 102], 10, &[110, 101, 102]);
    test(&[123, 456], 789, &[912, 456]);
    test(&[0xffff_ffff, 5], 2, &[1, 6]);
    test(&[0xffff_ffff], 2, &[1, 1]);
}

#[test]
fn test_limbs_add_limb_to_out() {
    let test = |limbs_out_before: &[u32],
                limbs_in: &[u32],
                limb: u32,
                carry: bool,
                limbs_out_after: &[u32]| {
        let mut limbs_out = limbs_out_before.to_vec();
        assert_eq!(limbs_add_limb_to_out(&mut limbs_out, limbs_in, limb), carry);
        assert_eq!(limbs_out, limbs_out_after);
    };
    test(&[10, 10, 10, 10], &[], 0, false, &[10, 10, 10, 10]);
    test(&[10, 10, 10, 10], &[], 5, true, &[10, 10, 10, 10]);
    test(&[10, 10, 10, 10], &[6, 7], 2, false, &[8, 7, 10, 10]);
    test(
        &[10, 10, 10, 10],
        &[100, 101, 102],
        10,
        false,
        &[110, 101, 102, 10],
    );
    test(
        &[10, 10, 10, 10],
        &[123, 456],
        789,
        false,
        &[912, 456, 10, 10],
    );
    test(
        &[10, 10, 10, 10],
        &[0xffff_ffff, 5],
        2,
        false,
        &[1, 6, 10, 10],
    );
    test(&[10, 10, 10, 10], &[0xffff_ffff], 2, true, &[1, 10, 10, 10]);
}

#[test]
fn test_limbs_slice_add_limb_in_place() {
    let test = |limbs: &[u32], limb: u32, carry: bool, out: &[u32]| {
        let mut limbs = limbs.to_vec();
        assert_eq!(limbs_slice_add_limb_in_place(&mut limbs, limb), carry);
        assert_eq!(limbs, out);
    };
    test(&[], 0, false, &[]);
    test(&[], 5, true, &[]);
    test(&[6, 7], 2, false, &[8, 7]);
    test(&[100, 101, 102], 10, false, &[110, 101, 102]);
    test(&[123, 456], 789, false, &[912, 456]);
    test(&[0xffff_ffff, 5], 2, false, &[1, 6]);
    test(&[0xffff_ffff], 2, true, &[1]);
}

#[test]
fn test_limbs_vec_add_limb_in_place() {
    let test = |limbs: &[u32], limb: u32, out: &[u32]| {
        let mut limbs = limbs.to_vec();
        limbs_vec_add_limb_in_place(&mut limbs, limb);
        assert_eq!(limbs, out);
    };
    test(&[6, 7], 2, &[8, 7]);
    test(&[100, 101, 102], 10, &[110, 101, 102]);
    test(&[123, 456], 789, &[912, 456]);
    test(&[0xffff_ffff, 5], 2, &[1, 6]);
    test(&[0xffff_ffff], 2, &[1, 1]);
}

#[test]
fn test_add_u32() {
    let test = |u: &str, v: u32, out: &str| {
        let n = Natural::from_str(u).unwrap().add_limb(v);
        assert_eq!(n, Natural::from_str(out).unwrap());
        assert!(n.is_valid());
    };
    test("0", 0, "0");
    test("0", 123, "123");
    test("123", 0, "123");
    test("123", 456, "579");
    test("1000000000000", 123, "1000000000123");
    test("4294967295", 1, "4294967296");
    test("18446744073709551615", 1, "18446744073709551616");
}

#[test]
fn limbs_add_limb_properties() {
    for limbs in limb_vecs() {
        for limb in limb_values() {
            assert_eq!(
                Natural::from_owned_limbs_asc(limbs_add_limb(&limbs, limb)),
                Natural::from_limbs_asc(&limbs).add_limb(limb)
            );
        }
    }
}

#[test]
fn limbs_add_limb_to_out_properties() {
    for in_limbs in limb_vecs() {
        for extra in 0..3usize {
            for limb in limb_values() {
                let mut out_limbs = vec![7u32; in_limbs.len() + extra];
                let old_out_limbs = out_limbs.clone();
                let carry = limbs_add_limb_to_out(&mut out_limbs, &in_limbs, limb);
                let n = Natural::from_limbs_asc(&in_limbs).add_limb(limb);
                let len = in_limbs.len();
                let mut limbs = n.into_limbs_asc();
                assert_eq!(carry, limbs.len() == len + 1);
                limbs.resize(len, 0);
                assert_eq!(limbs, &out_limbs[..len]);
                assert_eq!(&out_limbs[len..], &old_out_limbs[len..]);
            }
        }
    }
}

#[test]
fn limbs_slice_add_limb_in_place_properties() {
    for limbs in limb_vecs() {
        for limb in limb_values() {
            let mut limbs = limbs.clone();
            let old_limbs = limbs.clone();
            limbs_slice_add_limb_in_place(&mut limbs, limb);
            let n = Natural::from_limbs_asc(&old_limbs).add_limb(limb);
            let mut expected_limbs = n.into_limbs_asc();
            expected_limbs.resize(limbs.len(), 0);
            assert_eq!(limbs, expected_limbs);
        }
    }
}

#[test]
fn limbs_vec_add_limb_in_place_properties() {
    for limbs in limb_vecs() {
        if limbs.is_empty() {
            continue;
        }
        for limb in limb_values() {
            let mut limbs = limbs.clone();
            let old_limbs = limbs.clone();
            limbs_vec_add_limb_in_place(&mut limbs, limb);
            let n = Natural::from_limbs_asc(&old_limbs).add_limb(limb);
            assert_eq!(Natural::from_owned_limbs_asc(limbs), n);
        }
    }
}

#[test]
fn add_u32_add_u32_properties() {
    let naturals: Vec<Natural> = limb_vecs()
        .iter()
        .map(|limbs| Natural::from_limbs_asc(limbs))
        .chain(
            ["0", "1", "4294967295", "4294967296", "18446744073709551615", "1000000000000000000000"]
                .iter()
                .map(|s| Natural::from_str(s).unwrap()),
        )
        .collect();
    for n in &naturals {
        for u in limb_values() {
            let sum = n.add_limb(u);
            assert!(sum.is_valid());
            let from_u = Natural::from_u32(u);
            assert_eq!(n.add_natural(&from_u), sum);
            assert_eq!(from_u.add_natural(n), sum);
            assert!(!sum.lt_natural(n));
            assert!(!sum.lt_natural(&from_u));
        }
        assert_eq!(n.add_limb(0), *n);
        assert_eq!(Natural::from_u32(0).add_natural(n), *n);
    }
    for u in limb_values() {
        assert_eq!(Natural::from_u32(0).add_limb(u), Natural::from_u32(u));
    }
}
