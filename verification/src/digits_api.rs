//! Digits of naturals with digits and bases of every width: limbs, double limbs and naturals.
use vstd::prelude::*;
use crate::digit_specs::{
    all_below, dval_asc, dval_desc, is_digits_asc, is_digits_desc, u128_digits, u16_digits,
    u32_digits, u64_digits, usize_digits,
};
use crate::large_digits::{all_wf, natural_values};
use crate::natural::{lemma_small_val, natural_limbs, Natural};

verus! {

/// The limb digits `xs` widened to double limbs.
fn widen_limb_digits(xs: &Vec<u32>) -> (r: Vec<u64>)
    ensures
        u64_digits(r@) == u32_digits(xs@),
{
    let n = xs.len();
    let mut r: Vec<u64> = Vec::new();
    let mut i: usize = 0;
    while i < n
        invariant
            i <= n,
            n == xs@.len(),
            r@.len() == i,
            forall|j: int| 0 <= j < i ==> r@[j] as nat == xs@[j] as nat,
        decreases n - i,
    {
        r.push(xs[i] as u64);
        i += 1;
    }
    proof {
        assert(u64_digits(r@) =~= u32_digits(xs@));
    }
    r
}

/// The double-limb digits `xs` as limbs when each fits in one; `None` otherwise.
fn checked_limb_digits_u64(xs: &[u64]) -> (r: Option<Vec<u32>>)
    ensures
        r is Some <==> forall|i: int| 0 <= i < xs@.len() ==> #[trigger] xs@[i] < 0x1_0000_0000,
        r matches Some(v) ==> u32_digits(v@) == u64_digits(xs@) && v@.len() == xs@.len(),
{
    let n = xs.len();
    let mut v: Vec<u32> = Vec::new();
    let mut i: usize = 0;
    while i < n
        invariant
            i <= n,
            n == xs@.len(),
            v@.len() == i,
            forall|j: int| 0 <= j < i ==> v@[j] as nat == xs@[j] as nat && xs@[j] < 0x1_0000_0000,
        decreases n - i,
    {
        let x = xs[i];
        if x >= 0x1_0000_0000 {
            return None;
        }
        v.push(x as u32);
        i += 1;
    }
    proof {
        assert(u32_digits(v@) =~= u64_digits(xs@));
    }
    Some(v)
}

/// Limbs as naturals.
fn limb_digits_to_naturals(xs: &Vec<u32>) -> (r: Vec<Natural>)
    ensures
        natural_values(r@) == u32_digits(xs@),
        all_wf(r@),
{
    let n = xs.len();
    let mut r: Vec<Natural> = Vec::new();
    let mut i: usize = 0;
    while i < n
        invariant
            i <= n,
            n == xs@.len(),
            r@.len() == i,
            forall|j: int| 0 <= j < i ==> (#[trigger] r@[j])@ == xs@[j] as nat && r@[j].wf(),
        decreases n - i,
    {
        r.push(Natural::from_u32(xs[i]));
        i += 1;
    }
    proof {
        assert(natural_values(r@) =~= u32_digits(xs@));
    }
    r
}

/// Double limbs as naturals.
fn double_limb_digits_to_naturals(xs: &[u64]) -> (r: Vec<Natural>)
    ensures
        natural_values(r@) == u64_digits(xs@),
        all_wf(r@),
        r@.len() == xs@.len(),
{
    let n = xs.len();
    let mut r: Vec<Natural> = Vec::new();
    let mut i: usize = 0;
    while i < n
        invariant
            i <= n,
            n == xs@.len(),
            r@.len() == i,
            forall|j: int| 0 <= j < i ==> (#[trigger] r@[j])@ == xs@[j] as nat && r@[j].wf(),
        decreases n - i,
    {
        r.push(Natural::from_u64(xs[i]));
        i += 1;
    }
    proof {
        assert(natural_values(r@) =~= u64_digits(xs@));
    }
    r
}

/// Naturals below 2^64 as double limbs.
fn naturals_to_double_limb_digits(xs: &Vec<Natural>) -> (r: Vec<u64>)
    requires
        forall|i: int| 0 <= i < xs@.len() ==> (#[trigger] xs@[i])@ < 0x1_0000_0000_0000_0000,
    ensures
        u64_digits(r@) == natural_values(xs@),
{
    let n = xs.len();
    let mut r: Vec<u64> = Vec::new();
    let mut i: usize = 0;
    while i < n
        invariant
            i <= n,
            n == xs@.len(),
            r@.len() == i,
            forall|j: int| 0 <= j < xs@.len() ==> (#[trigger] xs@[j])@ < 0x1_0000_0000_0000_0000,
            forall|j: int| 0 <= j < i ==> r@[j] as nat == (#[trigger] xs@[j])@,
        decreases n - i,
    {
        let x = xs[i].low_u64();
        proof {
            vstd::arithmetic::div_mod::lemma_small_mod(xs@[i as int]@, 0x1_0000_0000_0000_0000);
        }
        r.push(x);
        i += 1;
    }
    proof {
        assert(u64_digits(r@) =~= natural_values(xs@));
    }
    r
}

/// A natural below 2^64 has at most two limbs.
proof fn lemma_double_limb_natural(n: Natural)
    requires
        n.wf(),
        n@ < 0x1_0000_0000_0000_0000,
    ensures
        natural_limbs(n).len() <= 2,
{
    crate::limbs::lemma_lpow_pow2(2);
    vstd::arithmetic::power2::lemma2_to64_rest();
    crate::limb_digits::lemma_natural_len_bound(n, 2);
}

/// The digits of `x` in base `base`, least significant first and without high zero digits:
/// through the limb conversion when the base fits in a limb, else through the conversion for
/// large bases.
pub fn _to_digits_asc_unsigned(x: &Natural, base: &u64) -> (r: Vec<u64>)
    requires
        *base >= 2,
        x.wf(),
        natural_limbs(*x).len() < 0x800000000000,
        natural_limbs(*x).len() * 512 <= usize::MAX,
    ensures
        is_digits_asc(u64_digits(r@), *base as nat, x@),
{
    if *base < 0x1_0000_0000 {
        let ds = crate::limb_digits::_to_digits_asc_limb(x, *base as u32);
        widen_limb_digits(&ds)
    } else {
        let nb = Natural::from_u64(*base);
        proof {
            lemma_double_limb_natural(nb);
        }
        let ds = crate::large_digits::_to_digits_asc_large(x, &nb);
        proof {
            assert forall|i: int| 0 <= i < ds@.len() implies (#[trigger] ds@[i])@ < 0x1_0000_0000_0000_0000 by {
                assert(natural_values(ds@)[i] < *base as nat);
            }
        }
        naturals_to_double_limb_digits(&ds)
    }
}

/// The digits of `x` in base `base`, most significant first and without leading zero
/// digits.
pub fn _to_digits_desc_unsigned(x: &Natural, base: &u64) -> (r: Vec<u64>)
    requires
        *base >= 2,
        x.wf(),
        natural_limbs(*x).len() < 0x800000000000,
        natural_limbs(*x).len() * 512 <= usize::MAX,
    ensures
        is_digits_desc(u64_digits(r@), *base as nat, x@),
{
    if *base < 0x1_0000_0000 {
        let ds = crate::limb_digits::_to_digits_desc_limb(x, *base as u32);
        widen_limb_digits(&ds)
    } else {
        let nb = Natural::from_u64(*base);
        proof {
            lemma_double_limb_natural(nb);
        }
        let ds = crate::large_digits::_to_digits_desc_large(x, &nb);
        proof {
            assert forall|i: int| 0 <= i < ds@.len() implies (#[trigger] ds@[i])@ < 0x1_0000_0000_0000_0000 by {
                assert(natural_values(ds@)[i] < *base as nat);
            }
        }
        naturals_to_double_limb_digits(&ds)
    }
}

/// A digit that does not fit in a limb is not below a base that does.
proof fn lemma_wide_digit_not_below(xs: Seq<u64>, b: nat)
    requires
        b < 0x1_0000_0000,
        !(forall|i: int| 0 <= i < xs.len() ==> #[trigger] xs[i] < 0x1_0000_0000),
    ensures
        !all_below(u64_digits(xs), b),
{
    let i = choose|i: int| 0 <= i < xs.len() && !(#[trigger] xs[i] < 0x1_0000_0000);
    assert(u64_digits(xs)[i] == xs[i] as nat);
}

/// The natural whose digits in base `base` are `digits`, least significant first; `None`
/// when some digit is not below the base.
pub fn _from_digits_asc_unsigned(base: &u64, digits: &[u64]) -> (r: Option<Natural>)
    requires
        *base >= 2,
        (digits@.len() + 1) * 2 < 0x100000000000000,
        (digits@.len() + 1) * 2 <= usize::MAX,
    ensures
        r is Some <==> all_below(u64_digits(digits@), *base as nat),
        r matches Some(n) ==> n@ == dval_asc(u64_digits(digits@), *base as nat) && n.wf(),
{
    if *base < 0x1_0000_0000 {
        match checked_limb_digits_u64(digits) {
            Some(v) => crate::from_limb::_from_digits_asc_limb(v.as_slice(), *base as u32),
            None => {
                proof {
                    lemma_wide_digit_not_below(digits@, *base as nat);
                }
                None
            },
        }
    } else {
        let nb = Natural::from_u64(*base);
        proof {
            lemma_double_limb_natural(nb);
        }
        let ns = double_limb_digits_to_naturals(digits);
        proof {
            let l = natural_limbs(nb).len();
            assert((ns@.len() + 1) * l <= (digits@.len() + 1) * 2) by (nonlinear_arith)
                requires
                    l <= 2,
                    ns@.len() == digits@.len(),
            ;
        }
        crate::from_large::_from_digits_asc_large(ns.as_slice(), &nb)
    }
}

/// The natural whose digits in base `base` are `digits`, most significant first; `None` when
/// some digit is not below the base.
pub fn _from_digits_desc_unsigned(base: &u64, digits: &[u64]) -> (r: Option<Natural>)
    requires
        *base >= 2,
        (digits@.len() + 1) * 2 < 0x100000000000000,
        (digits@.len() + 1) * 2 <= usize::MAX,
    ensures
        r is Some <==> all_below(u64_digits(digits@), *base as nat),
        r matches Some(n) ==> n@ == dval_desc(u64_digits(digits@), *base as nat) && n.wf(),
{
    if *base < 0x1_0000_0000 {
        match checked_limb_digits_u64(digits) {
            Some(v) => crate::from_limb::_from_digits_desc_limb(v.as_slice(), *base as u32),
            None => {
                proof {
                    lemma_wide_digit_not_below(digits@, *base as nat);
                }
                None
            },
        }
    } else {
        let nb = Natural::from_u64(*base);
        proof {
            lemma_double_limb_natural(nb);
        }
        let ns = double_limb_digits_to_naturals(digits);
        proof {
            let l = natural_limbs(nb).len();
            assert((ns@.len() + 1) * l <= (digits@.len() + 1) * 2) by (nonlinear_arith)
                requires
                    l <= 2,
                    ns@.len() == digits@.len(),
            ;
        }
        crate::from_large::_from_digits_desc_large(ns.as_slice(), &nb)
    }
}

/// Limb digits below a base that fits in 16 bits, as half limbs.
fn narrow_to_u16(xs: &Vec<u32>, base: u16) -> (r: Vec<u16>)
    requires
        all_below(u32_digits(xs@), base as nat),
    ensures
        u16_digits(r@) == u32_digits(xs@),
{
    let n = xs.len();
    let mut r: Vec<u16> = Vec::new();
    let mut i: usize = 0;
    while i < n
        invariant
            i <= n,
            n == xs@.len(),
            all_below(u32_digits(xs@), base as nat),
            r@.len() == i,
            forall|j: int| 0 <= j < i ==> r@[j] as nat == xs@[j] as nat,
        decreases n - i,
    {
        proof {
            assert(u32_digits(xs@)[i as int] < base as nat);
        }
        r.push(xs[i] as u16);
        i += 1;
    }
    proof {
        assert(u16_digits(r@) =~= u32_digits(xs@));
    }
    r
}

/// Half-limb digits as limbs.
fn widen_from_u16(xs: &[u16]) -> (r: Vec<u32>)
    ensures
        u32_digits(r@) == u16_digits(xs@),
        r@.len() == xs@.len(),
{
    let n = xs.len();
    let mut r: Vec<u32> = Vec::new();
    let mut i: usize = 0;
    while i < n
        invariant
            i <= n,
            n == xs@.len(),
            r@.len() == i,
            forall|j: int| 0 <= j < i ==> r@[j] as nat == xs@[j] as nat,
        decreases n - i,
    {
        r.push(xs[i] as u32);
        i += 1;
    }
    proof {
        assert(u32_digits(r@) =~= u16_digits(xs@));
    }
    r
}

/// Double-limb digits below a base that fits in a `usize`, as `usize`s.
fn narrow_to_usize(xs: &Vec<u64>, base: usize) -> (r: Vec<usize>)
    requires
        all_below(u64_digits(xs@), base as nat),
    ensures
        usize_digits(r@) == u64_digits(xs@),
{
    let n = xs.len();
    let mut r: Vec<usize> = Vec::new();
    let mut i: usize = 0;
    while i < n
        invariant
            i <= n,
            n == xs@.len(),
            all_below(u64_digits(xs@), base as nat),
            r@.len() == i,
            forall|j: int| 0 <= j < i ==> r@[j] as nat == xs@[j] as nat,
        decreases n - i,
    {
        proof {
            assert(u64_digits(xs@)[i as int] < base as nat);
        }
        r.push(xs[i] as usize);
        i += 1;
    }
    proof {
        assert(usize_digits(r@) =~= u64_digits(xs@));
    }
    r
}

/// `usize` digits as double limbs.
fn widen_from_usize(xs: &[usize]) -> (r: Vec<u64>)
    ensures
        u64_digits(r@) == usize_digits(xs@),
        r@.len() == xs@.len(),
{
    let n = xs.len();
    let mut r: Vec<u64> = Vec::new();
    let mut i: usize = 0;
    while i < n
        invariant
            i <= n,
            n == xs@.len(),
            r@.len() == i,
            forall|j: int| 0 <= j < i ==> r@[j] as nat == xs@[j] as nat,
        decreases n - i,
    {
        r.push(xs[i] as u64);
        i += 1;
    }
    proof {
        assert(u64_digits(r@) =~= usize_digits(xs@));
    }
    r
}

/// The natural equal to `x`, which has at most four limbs.
fn natural_from_u128(x: u128) -> (r: Natural)
    ensures
        r@ == x as nat,
        r.wf(),
        natural_limbs(r).len() <= 4,
{
    let hi = Natural::from_u64((x >> 64u32) as u64);
    let lo = Natural::from_u64(x as u64);
    proof {
        lemma_double_limb_natural(hi);
    }
    let shifted = hi.shl_bits(64);
    let r = shifted.add_natural(&lo);
    proof {
        vstd::arithmetic::power2::lemma2_to64_rest();
        assert(x == (x >> 64u32) * 0x1_0000_0000_0000_0000u128 + ((x as u64) as u128)) by (bit_vector);
        crate::limbs::lemma_lpow_pow2(4);
        vstd::arithmetic::power2::lemma_pow2_adds(64, 64);
        assert(x < 0x1_0000_0000_0000_0000 * 0x1_0000_0000_0000_0000) by (bit_vector);
        crate::limb_digits::lemma_natural_len_bound(r, 4);
    }
    r
}

/// The value of `n`, which is below 2^128.
fn natural_to_u128(n: &Natural) -> (r: u128)
    requires
        n.wf(),
        n@ < 0x1_0000_0000_0000_0000 * 0x1_0000_0000_0000_0000,
    ensures
        r as nat == n@,
{
    let lo = n.low_u64();
    let h = n.shr_bits(64);
    let hi = h.low_u64();
    proof {
        vstd::arithmetic::power2::lemma2_to64_rest();
        let m: int = 0x1_0000_0000_0000_0000;
        vstd::arithmetic::div_mod::lemma_fundamental_div_mod(n@ as int, m);
        vstd::arithmetic::div_mod::lemma_div_is_ordered(n@ as int, m * m - 1, m);
        assert((m * m - 1) / m == m - 1) by (nonlinear_arith)
            requires
                m == 0x1_0000_0000_0000_0000,
        ;
        vstd::arithmetic::div_mod::lemma_small_mod(h@, 0x1_0000_0000_0000_0000);
        assert(hi as nat == n@ / 0x1_0000_0000_0000_0000);
        assert((hi as nat) * 0x1_0000_0000_0000_0000 + (lo as nat) < m * m) by (nonlinear_arith)
            requires
                hi as nat <= m - 1,
                lo as nat <= m - 1,
                m == 0x1_0000_0000_0000_0000,
        ;
    }
    (hi as u128) * 0x1_0000_0000_0000_0000u128 + (lo as u128)
}

/// Double-limb digits as `u128`s.
fn widen_to_u128(xs: &Vec<u64>) -> (r: Vec<u128>)
    ensures
        u128_digits(r@) == u64_digits(xs@),
{
    let n = xs.len();
    let mut r: Vec<u128> = Vec::new();
    let mut i: usize = 0;
    while i < n
        invariant
            i <= n,
            n == xs@.len(),
            r@.len() == i,
            forall|j: int| 0 <= j < i ==> r@[j] as nat == xs@[j] as nat,
        decreases n - i,
    {
        r.push(xs[i] as u128);
        i += 1;
    }
    proof {
        assert(u128_digits(r@) =~= u64_digits(xs@));
    }
    r
}

/// `u128` digits as double limbs when each fits in one; `None` otherwise.
fn checked_double_limbs(xs: &[u128]) -> (r: Option<Vec<u64>>)
    ensures
        r is Some <==> forall|i: int| 0 <= i < xs@.len() ==> #[trigger] xs@[i] < 0x1_0000_0000_0000_0000,
        r matches Some(v) ==> u64_digits(v@) == u128_digits(xs@) && v@.len() == xs@.len(),
{
    let n = xs.len();
    let mut v: Vec<u64> = Vec::new();
    let mut i: usize = 0;
    while i < n
        invariant
            i <= n,
            n == xs@.len(),
            v@.len() == i,
            forall|j: int| 0 <= j < i ==> v@[j] as nat == xs@[j] as nat && xs@[j] < 0x1_0000_0000_0000_0000,
        decreases n - i,
    {
        let x = xs[i];
        if x >= 0x1_0000_0000_0000_0000 {
            return None;
        }
        v.push(x as u64);
        i += 1;
    }
    proof {
        assert(u64_digits(v@) =~= u128_digits(xs@));
    }
    Some(v)
}

/// `u128` digits as naturals.
fn u128_digits_to_naturals(xs: &[u128]) -> (r: Vec<Natural>)
    ensures
        natural_values(r@) == u128_digits(xs@),
        all_wf(r@),
        r@.len() == xs@.len(),
{
    let n = xs.len();
    let mut r: Vec<Natural> = Vec::new();
    let mut i: usize = 0;
    while i < n
        invariant
            i <= n,
            n == xs@.len(),
            r@.len() == i,
            forall|j: int| 0 <= j < i ==> (#[trigger] r@[j])@ == xs@[j] as nat && r@[j].wf(),
        decreases n - i,
    {
        r.push(natural_from_u128(xs[i]));
        i += 1;
    }
    proof {
        assert(natural_values(r@) =~= u128_digits(xs@));
    }
    r
}

/// Naturals below 2^128 as `u128`s.
fn naturals_to_u128_digits(xs: &Vec<Natural>) -> (r: Vec<u128>)
    requires
        all_wf(xs@),
        forall|i: int|
            0 <= i < xs@.len() ==> (#[trigger] xs@[i])@ < 0x1_0000_0000_0000_0000 * 0x1_0000_0000_0000_0000,
    ensures
        u128_digits(r@) == natural_values(xs@),
{
    let n = xs.len();
    let mut r: Vec<u128> = Vec::new();
    let mut i: usize = 0;
    while i < n
        invariant
            i <= n,
            n == xs@.len(),
            all_wf(xs@),
            forall|j: int|
                0 <= j < xs@.len() ==> (#[trigger] xs@[j])@ < 0x1_0000_0000_0000_0000
                    * 0x1_0000_0000_0000_0000,
            r@.len() == i,
            forall|j: int| 0 <= j < i ==> r@[j] as nat == (#[trigger] xs@[j])@,
        decreases n - i,
    {
        proof {
            assert(xs@[i as int].wf());
        }
        r.push(natural_to_u128(&xs[i]));
        i += 1;
    }
    proof {
        assert(u128_digits(r@) =~= natural_values(xs@));
    }
    r
}

impl Natural {
    /// The digits of `self` in base `base`, least significant first. Zero has no digits;
    /// otherwise the last digit is not zero. Bases below 2^64 go through the double-limb
    /// conversion, larger ones through the conversion for large bases.
    pub fn to_digits_asc_u128(&self, base: &u128) -> (r: Vec<u128>)
        requires
            *base >= 2,
            self.wf(),
            natural_limbs(*self).len() < 0x800000000000,
            natural_limbs(*self).len() * 512 <= usize::MAX,
        ensures
            is_digits_asc(u128_digits(r@), *base as nat, self@),
    {
        if *base < 0x1_0000_0000_0000_0000 {
            let b64 = *base as u64;
            let ds = _to_digits_asc_unsigned(self, &b64);
            widen_to_u128(&ds)
        } else {
            let nb = natural_from_u128(*base);
            let ds = crate::large_digits::_to_digits_asc_large(self, &nb);
            proof {
                assert forall|i: int| 0 <= i < ds@.len() implies (#[trigger] ds@[i])@ < 0x1_0000_0000_0000_0000
                    * 0x1_0000_0000_0000_0000 by {
                    assert(natural_values(ds@)[i] < *base as nat);
                }
            }
            naturals_to_u128_digits(&ds)
        }
    }

    /// The digits of `self` in base `base`, most significant first. Zero has no digits;
    /// otherwise the first digit is not zero.
    pub fn to_digits_desc_u128(&self, base: &u128) -> (r: Vec<u128>)
        requires
            *base >= 2,
            self.wf(),
            natural_limbs(*self).len() < 0x800000000000,
            natural_limbs(*self).len() * 512 <= usize::MAX,
        ensures
            is_digits_desc(u128_digits(r@), *base as nat, self@),
    {
        if *base < 0x1_0000_0000_0000_0000 {
            let b64 = *base as u64;
            let ds = _to_digits_desc_unsigned(self, &b64);
            widen_to_u128(&ds)
        } else {
            let nb = natural_from_u128(*base);
            let ds = crate::large_digits::_to_digits_desc_large(self, &nb);
            proof {
                assert forall|i: int| 0 <= i < ds@.len() implies (#[trigger] ds@[i])@ < 0x1_0000_0000_0000_0000
                    * 0x1_0000_0000_0000_0000 by {
                    assert(natural_values(ds@)[i] < *base as nat);
                }
            }
            naturals_to_u128_digits(&ds)
        }
    }

    /// The natural whose digits in base `base`, least significant first, are `digits`;
    /// `None` when some digit is not below `base`.
    pub fn from_digits_asc_u128(base: &u128, digits: &[u128]) -> (r: Option<Natural>)
        requires
            *base >= 2,
            (digits@.len() + 1) * 4 < 0x100000000000000,
            (digits@.len() + 1) * 4 <= usize::MAX,
        ensures
            r is Some <==> all_below(u128_digits(digits@), *base as nat),
            r matches Some(n) ==> n@ == dval_asc(u128_digits(digits@), *base as nat) && n.wf(),
    {
        if *base < 0x1_0000_0000_0000_0000 {
            let b64 = *base as u64;
            match checked_double_limbs(digits) {
                Some(v) => _from_digits_asc_unsigned(&b64, v.as_slice()),
                None => {
                    proof {
                        let i = choose|i: int| 0 <= i < digits@.len() && !(#[trigger] digits@[i] < 0x1_0000_0000_0000_0000);
                        assert(u128_digits(digits@)[i] == digits@[i] as nat);
                    }
                    None
                },
            }
        } else {
            let nb = natural_from_u128(*base);
            let ns = u128_digits_to_naturals(digits);
            proof {
                let l = natural_limbs(nb).len();
                assert((ns@.len() + 1) * l <= (digits@.len() + 1) * 4) by (nonlinear_arith)
                    requires
                        l <= 4,
                        ns@.len() == digits@.len(),
                ;
            }
            crate::from_large::_from_digits_asc_large(ns.as_slice(), &nb)
        }
    }

    /// The natural whose digits in base `base`, most significant first, are `digits`; `None`
    /// when some digit is not below `base`.
    pub fn from_digits_desc_u128(base: &u128, digits: &[u128]) -> (r: Option<Natural>)
        requires
            *base >= 2,
            (digits@.len() + 1) * 4 < 0x100000000000000,
            (digits@.len() + 1) * 4 <= usize::MAX,
        ensures
            r is Some <==> all_below(u128_digits(digits@), *base as nat),
            r matches Some(n) ==> n@ == dval_desc(u128_digits(digits@), *base as nat) && n.wf(),
    {
        if *base < 0x1_0000_0000_0000_0000 {
            let b64 = *base as u64;
            match checked_double_limbs(digits) {
                Some(v) => _from_digits_desc_unsigned(&b64, v.as_slice()),
                None => {
                    proof {
                        let i = choose|i: int| 0 <= i < digits@.len() && !(#[trigger] digits@[i] < 0x1_0000_0000_0000_0000);
                        assert(u128_digits(digits@)[i] == digits@[i] as nat);
                    }
                    None
                },
            }
        } else {
            let nb = natural_from_u128(*base);
            let ns = u128_digits_to_naturals(digits);
            proof {
                let l = natural_limbs(nb).len();
                assert((ns@.len() + 1) * l <= (digits@.len() + 1) * 4) by (nonlinear_arith)
                    requires
                        l <= 4,
                        ns@.len() == digits@.len(),
                ;
            }
            crate::from_large::_from_digits_desc_large(ns.as_slice(), &nb)
        }
    }

    /// The digits of `self` in base `base`, least significant first. Zero has no digits;
    /// otherwise the last digit is not zero.
    pub fn to_digits_asc_u16(&self, base: &u16) -> (r: Vec<u16>)
        requires
            *base >= 2,
            self.wf(),
            natural_limbs(*self).len() < 0x800000000000,
            natural_limbs(*self).len() * 512 <= usize::MAX,
        ensures
            is_digits_asc(u16_digits(r@), *base as nat, self@),
    {
        let ds = crate::limb_digits::_to_digits_asc_limb(self, *base as u32);
        narrow_to_u16(&ds, *base)
    }

    /// The digits of `self` in base `base`, most significant first. Zero has no digits;
    /// otherwise the first digit is not zero.
    pub fn to_digits_desc_u16(&self, base: &u16) -> (r: Vec<u16>)
        requires
            *base >= 2,
            self.wf(),
            natural_limbs(*self).len() < 0x800000000000,
            natural_limbs(*self).len() * 512 <= usize::MAX,
        ensures
            is_digits_desc(u16_digits(r@), *base as nat, self@),
    {
        let ds = crate::limb_digits::_to_digits_desc_limb(self, *base as u32);
        narrow_to_u16(&ds, *base)
    }

    /// The natural whose digits in base `base`, least significant first, are `digits`;
    /// `None` when some digit is not below `base`.
    pub fn from_digits_asc_u16(base: &u16, digits: &[u16]) -> (r: Option<Natural>)
        requires
            *base >= 2,
            digits@.len() + 1 < 0x100000000000000,
            digits@.len() + 1 <= usize::MAX,
        ensures
            r is Some <==> all_below(u16_digits(digits@), *base as nat),
            r matches Some(n) ==> n@ == dval_asc(u16_digits(digits@), *base as nat) && n.wf(),
    {
        let wide = widen_from_u16(digits);
        crate::from_limb::_from_digits_asc_limb(wide.as_slice(), *base as u32)
    }

    /// The natural whose digits in base `base`, most significant first, are `digits`; `None`
    /// when some digit is not below `base`.
    pub fn from_digits_desc_u16(base: &u16, digits: &[u16]) -> (r: Option<Natural>)
        requires
            *base >= 2,
            digits@.len() + 1 < 0x100000000000000,
            digits@.len() + 1 <= usize::MAX,
        ensures
            r is Some <==> all_below(u16_digits(digits@), *base as nat),
            r matches Some(n) ==> n@ == dval_desc(u16_digits(digits@), *base as nat) && n.wf(),
    {
        let wide = widen_from_u16(digits);
        crate::from_limb::_from_digits_desc_limb(wide.as_slice(), *base as u32)
    }

    /// The digits of `self` in base `base`, least significant first. Zero has no digits;
    /// otherwise the last digit is not zero.
    pub fn to_digits_asc_usize(&self, base: &usize) -> (r: Vec<usize>)
        requires
            *base >= 2,
            self.wf(),
            natural_limbs(*self).len() < 0x800000000000,
            natural_limbs(*self).len() * 512 <= usize::MAX,
        ensures
            is_digits_asc(usize_digits(r@), *base as nat, self@),
    {
        let b64 = *base as u64;
        let ds = _to_digits_asc_unsigned(self, &b64);
        narrow_to_usize(&ds, *base)
    }

    /// The digits of `self` in base `base`, most significant first. Zero has no digits;
    /// otherwise the first digit is not zero.
    pub fn to_digits_desc_usize(&self, base: &usize) -> (r: Vec<usize>)
        requires
            *base >= 2,
            self.wf(),
            natural_limbs(*self).len() < 0x800000000000,
            natural_limbs(*self).len() * 512 <= usize::MAX,
        ensures
            is_digits_desc(usize_digits(r@), *base as nat, self@),
    {
        let b64 = *base as u64;
        let ds = _to_digits_desc_unsigned(self, &b64);
        narrow_to_usize(&ds, *base)
    }

    /// The natural whose digits in base `base`, least significant first, are `digits`;
    /// `None` when some digit is not below `base`.
    pub fn from_digits_asc_usize(base: &usize, digits: &[usize]) -> (r: Option<Natural>)
        requires
            *base >= 2,
            (digits@.len() + 1) * 2 < 0x100000000000000,
            (digits@.len() + 1) * 2 <= usize::MAX,
        ensures
            r is Some <==> all_below(usize_digits(digits@), *base as nat),
            r matches Some(n) ==> n@ == dval_asc(usize_digits(digits@), *base as nat) && n.wf(),
    {
        let wide = widen_from_usize(digits);
        let b64 = *base as u64;
        _from_digits_asc_unsigned(&b64, wide.as_slice())
    }

    /// The natural whose digits in base `base`, most significant first, are `digits`; `None`
    /// when some digit is not below `base`.
    pub fn from_digits_desc_usize(base: &usize, digits: &[usize]) -> (r: Option<Natural>)
        requires
            *base >= 2,
            (digits@.len() + 1) * 2 < 0x100000000000000,
            (digits@.len() + 1) * 2 <= usize::MAX,
        ensures
            r is Some <==> all_below(usize_digits(digits@), *base as nat),
            r matches Some(n) ==> n@ == dval_desc(usize_digits(digits@), *base as nat) && n.wf(),
    {
        let wide = widen_from_usize(digits);
        let b64 = *base as u64;
        _from_digits_desc_unsigned(&b64, wide.as_slice())
    }

    /// The digits of `self` in base `base`, least significant first. Zero has no digits;
    /// otherwise the last digit is not zero.
    pub fn to_digits_asc_u32(&self, base: &u32) -> (r: Vec<u32>)
        requires
            *base >= 2,
            self.wf(),
            natural_limbs(*self).len() < 0x800000000000,
            natural_limbs(*self).len() * 512 <= usize::MAX,
        ensures
            is_digits_asc(u32_digits(r@), *base as nat, self@),
    {
        crate::limb_digits::_to_digits_asc_limb(self, *base)
    }

    /// The digits of `self` in base `base`, most significant first. Zero has no digits;
    /// otherwise the first digit is not zero.
    pub fn to_digits_desc_u32(&self, base: &u32) -> (r: Vec<u32>)
        requires
            *base >= 2,
            self.wf(),
            natural_limbs(*self).len() < 0x800000000000,
            natural_limbs(*self).len() * 512 <= usize::MAX,
        ensures
            is_digits_desc(u32_digits(r@), *base as nat, self@),
    {
        crate::limb_digits::_to_digits_desc_limb(self, *base)
    }

    /// The natural whose digits in base `base`, least significant first, are `digits`;
    /// `None` when some digit is not below `base`.
    pub fn from_digits_asc_u32(base: &u32, digits: &[u32]) -> (r: Option<Natural>)
        requires
            *base >= 2,
            digits@.len() + 1 < 0x100000000000000,
            digits@.len() + 1 <= usize::MAX,
        ensures
            r is Some <==> all_below(u32_digits(digits@), *base as nat),
            r matches Some(n) ==> n@ == dval_asc(u32_digits(digits@), *base as nat) && n.wf(),
    {
        crate::from_limb::_from_digits_asc_limb(digits, *base)
    }

    /// The natural whose digits in base `base`, most significant first, are `digits`; `None`
    /// when some digit is not below `base`.
    pub fn from_digits_desc_u32(base: &u32, digits: &[u32]) -> (r: Option<Natural>)
        requires
            *base >= 2,
            digits@.len() + 1 < 0x100000000000000,
            digits@.len() + 1 <= usize::MAX,
        ensures
            r is Some <==> all_below(u32_digits(digits@), *base as nat),
            r matches Some(n) ==> n@ == dval_desc(u32_digits(digits@), *base as nat) && n.wf(),
    {
        crate::from_limb::_from_digits_desc_limb(digits, *base)
    }

    /// The digits of `self` in base `base`, least significant first. Zero has no digits;
    /// otherwise the last digit is not zero.
    pub fn to_digits_asc_u64(&self, base: &u64) -> (r: Vec<u64>)
        requires
            *base >= 2,
            self.wf(),
            natural_limbs(*self).len() < 0x800000000000,
            natural_limbs(*self).len() * 512 <= usize::MAX,
        ensures
            is_digits_asc(u64_digits(r@), *base as nat, self@),
    {
        _to_digits_asc_unsigned(self, base)
    }

    /// The digits of `self` in base `base`, most significant first. Zero has no digits;
    /// otherwise the first digit is not zero.
    pub fn to_digits_desc_u64(&self, base: &u64) -> (r: Vec<u64>)
        requires
            *base >= 2,
            self.wf(),
            natural_limbs(*self).len() < 0x800000000000,
            natural_limbs(*self).len() * 512 <= usize::MAX,
        ensures
            is_digits_desc(u64_digits(r@), *base as nat, self@),
    {
        _to_digits_desc_unsigned(self, base)
    }

    /// The natural whose digits in base `base`, least significant first, are `digits`;
    /// `None` when some digit is not below `base`.
    pub fn from_digits_asc_u64(base: &u64, digits: &[u64]) -> (r: Option<Natural>)
        requires
            *base >= 2,
            (digits@.len() + 1) * 2 < 0x100000000000000,
            (digits@.len() + 1) * 2 <= usize::MAX,
        ensures
            r is Some <==> all_below(u64_digits(digits@), *base as nat),
            r matches Some(n) ==> n@ == dval_asc(u64_digits(digits@), *base as nat) && n.wf(),
    {
        _from_digits_asc_unsigned(base, digits)
    }

    /// The natural whose digits in base `base`, most significant first, are `digits`; `None`
    /// when some digit is not below `base`.
    pub fn from_digits_desc_u64(base: &u64, digits: &[u64]) -> (r: Option<Natural>)
        requires
            *base >= 2,
            (digits@.len() + 1) * 2 < 0x100000000000000,
            (digits@.len() + 1) * 2 <= usize::MAX,
        ensures
            r is Some <==> all_below(u64_digits(digits@), *base as nat),
            r matches Some(n) ==> n@ == dval_desc(u64_digits(digits@), *base as nat) && n.wf(),
    {
        _from_digits_desc_unsigned(base, digits)
    }

    /// The digits of `self` in the base `base`, least significant first, each a natural.
    /// Zero has no digits; otherwise the last digit is not zero.
    pub fn to_digits_asc_natural(&self, base: &Natural) -> (r: Vec<Natural>)
        requires
            base.wf(),
            base@ >= 2,
            self.wf(),
            natural_limbs(*self).len() < 0x800000000000,
            natural_limbs(*self).len() * 512 <= usize::MAX,
            natural_limbs(*base).len() < 0x4000000000000,
            natural_limbs(*base).len() <= usize::MAX / 8,
        ensures
            is_digits_asc(natural_values(r@), base@, self@),
            all_wf(r@),
    {
        match base {
            Natural::Small(b) => {
                proof {
                    lemma_small_val(*b);
                }
                let ds = crate::limb_digits::_to_digits_asc_limb(self, *b);
                limb_digits_to_naturals(&ds)
            },
            Natural::Large(_) => {
                proof {
                    crate::limbs::lemma_val_normalized_lower(natural_limbs(*base));
                    crate::limbs::lemma_lpow_mono(1, (natural_limbs(*base).len() - 1) as nat);
                    assert(crate::limbs::lpow(1) == crate::limbs::radix() * crate::limbs::lpow(0));
                    let t = natural_limbs(*base);
                    assert(crate::limbs::lpow((t.len() - 1) as nat) * (t.last() as nat)
                        >= crate::limbs::lpow((t.len() - 1) as nat)) by (nonlinear_arith)
                        requires
                            t.last() as nat >= 1,
                    ;
                }
                crate::large_digits::_to_digits_asc_large(self, base)
            },
        }
    }

    /// The digits of `self` in the base `base`, most significant first, each a natural.
    /// Zero has no digits; otherwise the first digit is not zero.
    pub fn to_digits_desc_natural(&self, base: &Natural) -> (r: Vec<Natural>)
        requires
            base.wf(),
            base@ >= 2,
            self.wf(),
            natural_limbs(*self).len() < 0x800000000000,
            natural_limbs(*self).len() * 512 <= usize::MAX,
            natural_limbs(*base).len() < 0x4000000000000,
            natural_limbs(*base).len() <= usize::MAX / 8,
        ensures
            is_digits_desc(natural_values(r@), base@, self@),
            all_wf(r@),
    {
        match base {
            Natural::Small(b) => {
                proof {
                    lemma_small_val(*b);
                }
                let ds = crate::limb_digits::_to_digits_desc_limb(self, *b);
                limb_digits_to_naturals(&ds)
            },
            Natural::Large(_) => {
                proof {
                    crate::limbs::lemma_val_normalized_lower(natural_limbs(*base));
                    crate::limbs::lemma_lpow_mono(1, (natural_limbs(*base).len() - 1) as nat);
                    assert(crate::limbs::lpow(1) == crate::limbs::radix() * crate::limbs::lpow(0));
                    let t = natural_limbs(*base);
                    assert(crate::limbs::lpow((t.len() - 1) as nat) * (t.last() as nat)
                        >= crate::limbs::lpow((t.len() - 1) as nat)) by (nonlinear_arith)
                        requires
                            t.last() as nat >= 1,
                    ;
                }
                crate::large_digits::_to_digits_desc_large(self, base)
            },
        }
    }

    /// The natural whose digits in the base `base`, least significant first, are the naturals
    /// `digits`; `None` when some digit is not below `base`.
    pub fn from_digits_asc_natural(base: &Natural, digits: &[Natural]) -> (r: Option<Natural>)
        requires
            base.wf(),
            base@ >= 2,
            all_wf(digits@),
            (digits@.len() + 1) * natural_limbs(*base).len() < 0x100000000000000,
            (digits@.len() + 1) * natural_limbs(*base).len() <= usize::MAX,
        ensures
            r is Some <==> all_below(natural_values(digits@), base@),
            r matches Some(n) ==> n@ == dval_asc(natural_values(digits@), base@) && n.wf(),
    {
        match base {
            Natural::Small(b) => {
                proof {
                    lemma_small_val(*b);
                    assert(natural_limbs(*base).len() == 1);
                    assert((digits@.len() + 1) * 1 == digits@.len() + 1);
                }
                crate::from_limb::_from_digits_asc_limb_from_natural(digits, *b)
            },
            Natural::Large(_) => crate::from_large::_from_digits_asc_large(digits, base),
        }
    }

    /// The natural whose digits in the base `base`, most significant first, are the naturals
    /// `digits`; `None` when some digit is not below `base`.
    pub fn from_digits_desc_natural(base: &Natural, digits: &[Natural]) -> (r: Option<Natural>)
        requires
            base.wf(),
            base@ >= 2,
            all_wf(digits@),
            (digits@.len() + 1) * natural_limbs(*base).len() < 0x100000000000000,
            (digits@.len() + 1) * natural_limbs(*base).len() <= usize::MAX,
        ensures
            r is Some <==> all_below(natural_values(digits@), base@),
            r matches Some(n) ==> n@ == dval_desc(natural_values(digits@), base@) && n.wf(),
    {
        match base {
            Natural::Small(b) => {
                proof {
                    lemma_small_val(*b);
                    assert(natural_limbs(*base).len() == 1);
                    assert((digits@.len() + 1) * 1 == digits@.len() + 1);
                }
                crate::from_limb::_from_digits_desc_limb_from_natural(digits, *b)
            },
            Natural::Large(_) => crate::from_large::_from_digits_desc_large(digits, base),
        }
    }
}

} // verus!
