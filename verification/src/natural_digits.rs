//! Digits of naturals in bases up to 255, most or least significant first.
use vstd::prelude::*;
use crate::bases::{
    chars_per_limb_and_big_base, get_chars_per_limb, is_chars_per_limb, is_limb_power, is_pow2_u64, lemma_npow_add,
    lemma_npow_base_mono, lemma_npow_mono, lemma_npow_mul, lemma_npow_pos, npow,
};
use crate::digit_specs::{
    all_below, dval_asc, dval_desc, is_digits_asc, is_digits_desc, lemma_dval_desc_append,
    lemma_dval_desc_bound, lemma_dval_desc_push, lemma_dval_desc_reverse, lemma_u32_digits_subrange,
    u32_digits, u8_digits,
};
use crate::limbs::{
    is_normalized, lemma_lpow_pos, lemma_val_bound, lemma_val_normalized_lower, lemma_val_push,
    limbs_val, lpow, radix,
};
use crate::arith::{limbs_slice_mul_limb_in_place, limbs_vec_add_limb_in_place};
use crate::from_digits::{_limbs_from_digits_small_base_basecase, chunk_value, lemma_top_limb_nonzero};
use crate::natural::Natural;

verus! {

/// Limb powers are powers of the radix.
pub proof fn lemma_npow_radix(k: nat)
    ensures
        npow(radix(), k) == lpow(k),
    decreases k,
{
    if k > 0 {
        lemma_npow_radix((k - 1) as nat);
    }
}

/// Replaces the limbs of `xs`, which have no high zero limb, by the limbs of their value
/// times `m` plus `a`.
pub fn limbs_vec_mul_add_limb(xs: &mut Vec<u32>, m: u32, a: u32)
    requires
        is_normalized(old(xs)@),
        m >= 1,
    ensures
        limbs_val(final(xs)@) == limbs_val(old(xs)@) * (m as nat) + (a as nat),
        is_normalized(final(xs)@),
{
    let ghost v = limbs_val(xs@);
    let c = limbs_slice_mul_limb_in_place(xs.as_mut_slice(), m);
    let ghost w = xs@;
    if c != 0 {
        xs.push(c);
        proof {
            lemma_val_push(w, c);
        }
    }
    proof {
        assert(limbs_val(w) + lpow(w.len()) * (c as nat) == v * (m as nat));
        if c == 0 {
            assert(lpow(w.len()) * 0 == 0);
        }
        assert(limbs_val(xs@) == v * (m as nat));
        if c == 0 && xs@.len() > 0 {
            lemma_val_normalized_lower(old(xs)@);
            assert(v * (m as nat) >= v) by (nonlinear_arith)
                requires
                    m >= 1,
            ;
            lemma_top_limb_nonzero(xs@);
        }
    }
    let ghost mid = xs@;
    if xs.len() == 0 {
        if a != 0 {
            xs.push(a);
            proof {
                lemma_val_push(mid, a);
                assert(lpow(0) * (a as nat) == a as nat);
            }
        }
    } else {
        limbs_vec_add_limb_in_place(xs, a);
        proof {
            if xs@.len() == mid.len() {
                lemma_val_normalized_lower(mid);
                lemma_top_limb_nonzero(xs@);
            } else {
                let t = xs@;
                assert(limbs_val(t) >= lpow(mid.len()));
                lemma_top_limb_nonzero(t);
            }
        }
    }
}

/// Reads the limb digits `xs`, most significant first, in base `base`, in chunks of as many
/// digits as fit in a limb. `None` when some digit is not below `base`.
pub fn _from_digits_desc_basecase_limb(xs: &[u32], base: u32) -> (r: Option<Natural>)
    requires
        base >= 2,
    ensures
        r is None <==> !all_below(u32_digits(xs@), base as nat),
        r matches Some(n) ==> n@ == dval_desc(u32_digits(xs@), base as nat) && n.wf(),
{
    let ghost b = base as nat;
    let ghost d = u32_digits(xs@);
    let (digits_per_limb, big_base) = chars_per_limb_and_big_base(base as u64);
    let n = xs.len();
    let mut acc: Vec<u32> = Vec::new();
    if n == 0 {
        proof {
            assert(d =~= Seq::<nat>::empty());
            assert(limbs_val(acc@) == 0);
        }
        return Some(Natural::from_owned_limbs_asc(acc));
    }
    let rem = n % digits_per_limb;
    let first_len = if rem == 0 { digits_per_limb } else { rem };
    proof {
        let nn = n as int;
        let dd = digits_per_limb as int;
        vstd::arithmetic::div_mod::lemma_fundamental_div_mod(nn, dd);
        vstd::arithmetic::div_mod::lemma_mod_bound(nn, dd);
        if rem == 0 {
            assert(nn >= dd) by (nonlinear_arith)
                requires
                    nn == dd * (nn / dd) + nn % dd,
                    nn % dd == 0,
                    nn > 0,
                    dd > 0,
            ;
            vstd::arithmetic::div_mod::lemma_mod_sub_multiples_vanish(nn, dd);
        } else {
            assert(nn - nn % dd == (nn / dd) * dd) by (nonlinear_arith)
                requires
                    nn == dd * (nn / dd) + nn % dd,
            ;
            vstd::arithmetic::div_mod::lemma_mod_multiples_basic(nn / dd, dd);
        }
        assert(first_len <= n);
        lemma_npow_mono(b, first_len as nat, digits_per_limb as nat);
        lemma_npow_pos(b, digits_per_limb as nat);
        assert((n - first_len) % (digits_per_limb as int) == 0);
    }
    let first = limb_chunk_value(xs, 0, first_len, base as u64);
    let mut start = first_len;
    proof {
        lemma_u32_digits_subrange(xs@, 0, first_len as int);
    }
    match first {
        None => {
            proof {
                let c = d.subrange(0, first_len as int);
                let k = choose|k: int| 0 <= k < c.len() && !(#[trigger] c[k] < b);
                assert(d[k] == c[k]);
            }
            return None;
        },
        Some(y) => {
            proof {
                assert(limbs_val(acc@) == 0);
                assert(is_normalized(acc@));
            }
            limbs_vec_mul_add_limb(&mut acc, 1, y);
            proof {
                assert(0 * 1nat == 0);
            }
        },
    }
    while start < n
        invariant
            d == u32_digits(xs@),
            b == base as nat,
            2 <= base,
            n == xs@.len(),
            1 <= digits_per_limb <= 32,
            is_limb_power(b, digits_per_limb as nat, big_base as nat),
            big_base >= 1,
            start <= n,
            (n - start) % (digits_per_limb as int) == 0,
            all_below(d.subrange(0, start as int), b),
            limbs_val(acc@) == dval_desc(d.subrange(0, start as int), b),
            is_normalized(acc@),
        decreases n - start,
    {
        proof {
            let k = (n - start) as int;
            let dd = digits_per_limb as int;
            vstd::arithmetic::div_mod::lemma_fundamental_div_mod(k, dd);
            assert(k >= dd) by (nonlinear_arith)
                requires
                    k == dd * (k / dd) + k % dd,
                    k % dd == 0,
                    k > 0,
                    dd > 0,
            ;
            assert((n - (start + digits_per_limb)) % (digits_per_limb as int) == 0) by {
                vstd::arithmetic::div_mod::lemma_mod_sub_multiples_vanish(k, dd);
            }
        }
        let end = start + digits_per_limb;
        let chunk = limb_chunk_value(xs, start, end, base as u64);
        let ghost c = d.subrange(start as int, end as int);
        proof {
            lemma_u32_digits_subrange(xs@, start as int, end as int);
            assert(d.subrange(0, end as int) =~= d.subrange(0, start as int) + c);
        }
        match chunk {
            None => {
                proof {
                    let k = choose|k: int| 0 <= k < c.len() && !(#[trigger] c[k] < b);
                    assert(d[start + k] == c[k]);
                }
                return None;
            },
            Some(y) => {
                limbs_vec_mul_add_limb(&mut acc, big_base, y);
                proof {
                    lemma_dval_desc_append(d.subrange(0, start as int), c, b);
                    assert forall|k: int| 0 <= k < end implies #[trigger] d.subrange(0, end as int)[k] < b by {
                        if k < start {
                            assert(d.subrange(0, start as int)[k] == d[k]);
                        } else {
                            assert(c[k - start] == d[k]);
                        }
                    }
                }
            },
        }
        start = end;
    }
    proof {
        assert(d.subrange(0, n as int) =~= d);
    }
    Some(Natural::from_owned_limbs_asc(acc))
}

/// Reads the byte digits `xs`, most significant first, in base `base`, in chunks of as many
/// digits as fit in a limb. `None` when `base` does not fit in a digit or some digit is not
/// below it.
pub fn _from_digits_desc_basecase(xs: &[u8], base: u32) -> (r: Option<Natural>)
    requires
        base >= 2,
    ensures
        base > 255 ==> r is None,
        base <= 255 ==> (r is None <==> !all_below(u8_digits(xs@), base as nat)),
        r matches Some(n) ==> n@ == dval_desc(u8_digits(xs@), base as nat) && n.wf(),
{
    if base > 255 {
        return None;
    }
    let wide = crate::limb_digits::widen_digits_slice(xs);
    _from_digits_desc_basecase_limb(wide.as_slice(), base)
}

/// Reads the limb digits `xs[start..end]` as one number in base `base`; `None` when some
/// digit is not below `base`.
fn limb_chunk_value(xs: &[u32], start: usize, end: usize, base: u64) -> (r: Option<u32>)
    requires
        start <= end <= xs@.len(),
        2 <= base <= 4294967295,
        npow(base as nat, (end - start) as nat) <= 4294967295,
    ensures
        r is None <==> !all_below(u32_digits(xs@).subrange(start as int, end as int), base as nat),
        r matches Some(y) ==> y as nat == dval_desc(
            u32_digits(xs@).subrange(start as int, end as int),
            base as nat,
        ),
{
    let ghost d = u32_digits(xs@);
    let mut y: u32 = 0;
    let mut j = start;
    proof {
        assert(d.subrange(start as int, start as int) =~= Seq::<nat>::empty());
    }
    while j < end
        invariant
            start <= j <= end <= xs@.len(),
            d == u32_digits(xs@),
            2 <= base <= 4294967295,
            npow(base as nat, (end - start) as nat) <= 4294967295,
            all_below(d.subrange(start as int, j as int), base as nat),
            y as nat == dval_desc(d.subrange(start as int, j as int), base as nat),
        decreases end - j,
    {
        let x = xs[j];
        if (x as u64) >= base {
            proof {
                assert(d.subrange(start as int, end as int)[j - start] == x as nat);
            }
            return None;
        }
        proof {
            lemma_dval_desc_bound(d.subrange(start as int, j as int), base as nat);
            lemma_npow_mono(base as nat, (j + 1 - start) as nat, (end - start) as nat);
            let pp = npow(base as nat, (j - start) as nat);
            assert(npow(base as nat, (j + 1 - start) as nat) == base * pp);
            let yy = y as nat;
            let bb = base as nat;
            assert(yy * bb + (x as nat) < bb * pp) by (nonlinear_arith)
                requires
                    yy < pp,
                    (x as nat) < bb,
            ;
            assert(d.subrange(start as int, j + 1) =~= d.subrange(start as int, j as int).push(
                x as nat,
            ));
            lemma_dval_desc_push(d.subrange(start as int, j as int), x as nat, base as nat);
        }
        y = y * (base as u32) + x;
        j += 1;
    }
    Some(y)
}

/// Reads the digits `xs`, most significant first, in base `base`, one digit at a time.
/// `None` when some digit is not below `base`.
pub fn _from_digits_desc_naive_primitive(xs: &[u32], base: u32) -> (r: Option<Natural>)
    requires
        base > 1,
    ensures
        r is None <==> !all_below(u32_digits(xs@), base as nat),
        r matches Some(n) ==> n@ == dval_desc(u32_digits(xs@), base as nat) && n.wf(),
{
    let ghost b = base as nat;
    let ghost d = u32_digits(xs@);
    let mut acc: Vec<u32> = Vec::new();
    let mut i: usize = 0;
    proof {
        assert(d.subrange(0, 0) =~= Seq::<nat>::empty());
    }
    while i < xs.len()
        invariant
            d == u32_digits(xs@),
            b == base as nat,
            base > 1,
            i <= xs@.len(),
            all_below(d.subrange(0, i as int), b),
            limbs_val(acc@) == dval_desc(d.subrange(0, i as int), b),
            is_normalized(acc@),
        decreases xs@.len() - i,
    {
        let x = xs[i];
        if x >= base {
            proof {
                assert(d[i as int] == x as nat);
            }
            return None;
        }
        limbs_vec_mul_add_limb(&mut acc, base, x);
        proof {
            assert(d.subrange(0, i + 1) =~= d.subrange(0, i as int).push(x as nat));
            lemma_dval_desc_push(d.subrange(0, i as int), x as nat, b);
        }
        i += 1;
    }
    proof {
        assert(d.subrange(0, xs@.len() as int) =~= d);
    }
    Some(Natural::from_owned_limbs_asc(acc))
}


/// A number of limbs that holds any number of `digit_count` base-`base` digits, plus one
/// spare limb: `digit_count / chars_per_limb + 2`, for any base from 2 to 256.
pub fn limbs_per_digit_in_base(digit_count: usize, base: u64) -> (r: u64)
    requires
        2 <= base <= 256,
    ensures
        r >= 2,
        npow(base as nat, digit_count as nat) <= lpow((r - 1) as nat),
        r as nat <= digit_count as nat / 2 + 2,
        forall|k: nat| #[trigger] is_chars_per_limb(base, k) ==> r as nat == digit_count as nat / k + 2,
{
    let dpl = get_chars_per_limb(base);
    let q = digit_count / dpl;
    proof {
        assert forall|k: nat| #[trigger] is_chars_per_limb(base, k) implies k == dpl as nat by {
            crate::bases::lemma_chars_per_limb_unique(base, k, dpl as nat);
        }
        let b = base as nat;
        let qq = q as nat;
        let dd = dpl as nat;
        vstd::arithmetic::div_mod::lemma_fundamental_div_mod(digit_count as int, dpl as int);
        vstd::arithmetic::div_mod::lemma_mod_bound(digit_count as int, dpl as int);
        assert(digit_count as nat <= dd * (qq + 1)) by (nonlinear_arith)
            requires
                digit_count as int == (dd as int) * (qq as int) + (digit_count as int) % (dd as int),
                (digit_count as int) % (dd as int) < dd as int,
        ;
        lemma_npow_mono(b, digit_count as nat, dd * (qq + 1));
        lemma_npow_mul(b, dd, qq + 1);
        assert(npow(b, dd) <= radix());
        lemma_npow_base_mono(npow(b, dd), radix(), qq + 1);
        lemma_npow_radix(qq + 1);
        // two digits always fit in a limb for bases up to 256
        assert(dd >= 2) by {
            if dd < 2 {
                assert(dd == 1);
                crate::bases::lemma_npow_one(b);
                assert(npow(b, 2) == b * npow(b, 1));
                assert(b * b <= 65536) by (nonlinear_arith)
                    requires
                        b <= 256,
                ;
                assert(npow(b, dd + 1) == npow(b, 2));
            }
        }
        assert(qq <= (digit_count as nat) / 2) by {
            vstd::arithmetic::div_mod::lemma_div_is_ordered_by_denominator(digit_count as int, 2, dd as int);
        }
    }
    (q as u64) + 2
}

impl Natural {
    /// The digits of `self` in base `base`, least significant first. Zero has no digits;
    /// otherwise the last digit is not zero.
    pub fn to_digits_asc(&self, base: &u8) -> (r: Vec<u8>)
        requires
            *base >= 2,
        ensures
            is_digits_asc(u8_digits(r@), *base as nat, self@),
    {
        let b = *base;
        let digits: Vec<u32> = match self {
            Natural::Small(x) => {
                let mut v: Vec<u32> = Vec::new();
                crate::to_digits::push_canonical_digits(&mut v, *x, b as u32);
                proof {
                    crate::natural::lemma_small_val(*x);
                    assert(u32_digits(Seq::<u32>::empty()) =~= Seq::<nat>::empty());
                    assert(npow(b as nat, 0) == 1);
                    assert(1 * (*x as nat) == *x as nat);
                    assert(all_below(u32_digits(v@), b as nat)) by {
                        assert forall|i: int| 0 <= i < v@.len() implies #[trigger] u32_digits(v@)[i] < b as nat by {
                            assert(v@[i] < b as u32);
                        }
                    }
                    if v@.len() > 0 {
                        assert(u32_digits(v@).last() == v@.last() as nat);
                    }
                }
                v
            },
            Natural::Large(xs) => {
                let b64 = b as u64;
                if b64 & (b64 - 1) != 0 && xs.len() <= usize::MAX / 512 {
                    proof {
                        assert(b64 & ((b64 - 1) as u64) != 0 ==> b64 != 2) by (bit_vector);
                    }
                    let desc = crate::to_dc::limbs_to_digits_desc(xs.as_slice(), b64);
                    let asc = reverse_digits(&desc);
                    proof {
                        let d = u8_digits(desc@);
                        let a = u8_digits(asc@);
                        assert(a =~= d.reverse());
                        lemma_dval_desc_reverse(d, b as nat);
                        assert forall|i: int| 0 <= i < a.len() implies #[trigger] a[i] < b as nat by {
                            assert(a[i] == d[d.len() - 1 - i]);
                        }
                        if a.len() > 0 {
                            assert(a.last() == d[0]);
                        }
                    }
                    return asc;
                }
                crate::to_digits::limbs_to_digits_asc_canonical(xs.as_slice(), b as u32)
            },
        };
        narrow_digits(&digits, b)
    }

    /// The digits of `self` in base `base`, most significant first. Zero has no digits;
    /// otherwise the first digit is not zero.
    pub fn to_digits_desc(&self, base: &u8) -> (r: Vec<u8>)
        requires
            *base >= 2,
        ensures
            is_digits_desc(u8_digits(r@), *base as nat, self@),
    {
        let asc = self.to_digits_asc(base);
        let r = reverse_digits(&asc);
        proof {
            let a = u8_digits(asc@);
            let d = u8_digits(r@);
            assert(d =~= a.reverse());
            lemma_dval_desc_reverse(d, *base as nat);
            assert(d.reverse() =~= a);
            assert forall|i: int| 0 <= i < d.len() implies #[trigger] d[i] < *base as nat by {
                assert(d[i] == a[a.len() - 1 - i]);
            }
            if d.len() > 0 {
                assert(d[0] == a.last());
            }
        }
        r
    }

    /// The natural whose digits in base `base`, most significant first, are `digits`; `None`
    /// when some digit is not below `base`.
    pub fn from_digits_desc(base: &u8, digits: &[u8]) -> (r: Option<Natural>)
        requires
            *base >= 2,
        ensures
            r is None <==> !all_below(u8_digits(digits@), *base as nat),
            r matches Some(n) ==> n@ == dval_desc(u8_digits(digits@), *base as nat) && n.wf(),
    {
        let b = *base;
        let b64 = b as u64;
        if b64 & (b64 - 1) == 0 {
            // powers of two
            return _from_digits_desc_basecase(digits, b as u32);
        }
        if digits.len() == 0 {
            proof {
                assert(u8_digits(digits@) =~= Seq::<nat>::empty());
                crate::natural::lemma_small_val(0);
            }
            return Some(Natural::new());
        }
        proof {
            assert(b64 == 2 ==> b64 & ((b64 - 1) as u64) == 0) by (bit_vector);
            assert(!is_pow2_u64(b64));
        }
        let len = limbs_per_digit_in_base(digits.len(), b64);
        proof {
            assert(len as nat <= digits@.len() / 2 + 2);
        }
        let mut out: Vec<u32> = vec![0u32; len as usize];
        let size = if digits.len() <= usize::MAX / 256 {
            crate::from_dc::_limbs_from_digits_small_base(out.as_mut_slice(), digits, b64)
        } else {
            _limbs_from_digits_small_base_basecase(out.as_mut_slice(), digits, b64)
        };
        match size {
            None => None,
            Some(size) => {
                out.truncate(size);
                Some(Natural::from_owned_limbs_asc(out))
            },
        }
    }

    /// The natural whose digits in base `base`, least significant first, are `digits`; `None`
    /// when some digit is not below `base`.
    pub fn from_digits_asc(base: &u8, digits: &[u8]) -> (r: Option<Natural>)
        requires
            *base >= 2,
        ensures
            r is None <==> !all_below(u8_digits(digits@), *base as nat),
            r matches Some(n) ==> n@ == dval_asc(u8_digits(digits@), *base as nat) && n.wf(),
    {
        let v = crate::sub_naive::limbs_copy_range_u8(digits, 0, digits.len());
        let rev = reverse_digits(&v);
        proof {
            let a = u8_digits(digits@);
            let d = u8_digits(rev@);
            assert(v@ =~= digits@);
            assert(d =~= a.reverse());
            lemma_dval_desc_reverse(d, *base as nat);
            assert(d.reverse() =~= a);
            if all_below(d, *base as nat) {
                assert forall|i: int| 0 <= i < a.len() implies #[trigger] a[i] < *base as nat by {
                    assert(a[i] == d[a.len() - 1 - i]);
                }
            }
            if all_below(a, *base as nat) {
                assert forall|i: int| 0 <= i < d.len() implies #[trigger] d[i] < *base as nat by {
                    assert(d[i] == a[a.len() - 1 - i]);
                }
            }
        }
        Natural::from_digits_desc(base, rev.as_slice())
    }
}

/// Digits below `base`, as bytes.
fn narrow_digits(digits: &Vec<u32>, base: u8) -> (r: Vec<u8>)
    requires
        forall|i: int| 0 <= i < digits@.len() ==> #[trigger] u32_digits(digits@)[i] < base as nat,
    ensures
        u8_digits(r@) == u32_digits(digits@),
{
    let mut r: Vec<u8> = Vec::new();
    let mut i: usize = 0;
    while i < digits.len()
        invariant
            i <= digits@.len(),
            r@.len() == i,
            forall|j: int| 0 <= j < digits@.len() ==> #[trigger] u32_digits(digits@)[j] < base as nat,
            forall|j: int| 0 <= j < i ==> r@[j] as nat == digits@[j] as nat,
        decreases digits@.len() - i,
    {
        proof {
            assert(u32_digits(digits@)[i as int] < base as nat);
        }
        r.push(digits[i] as u8);
        i += 1;
    }
    proof {
        assert(u8_digits(r@) =~= u32_digits(digits@));
    }
    r
}

/// The bytes of `xs` in reverse order.
fn reverse_digits(xs: &Vec<u8>) -> (r: Vec<u8>)
    ensures
        r@ == xs@.reverse(),
{
    let mut r: Vec<u8> = Vec::new();
    let n = xs.len();
    let mut i: usize = 0;
    while i < n
        invariant
            n == xs@.len(),
            i <= n,
            r@.len() == i,
            forall|j: int| 0 <= j < i ==> r@[j] == xs@[n - 1 - j],
        decreases n - i,
    {
        r.push(xs[n - 1 - i]);
        i += 1;
    }
    proof {
        assert(r@ =~= xs@.reverse());
    }
    r
}


/// Whether `s` is a nonempty string of ASCII decimal digits.
pub open spec fn is_decimal(s: Seq<u8>) -> bool {
    s.len() > 0 && forall|i: int| 0 <= i < s.len() ==> 48 <= #[trigger] s[i] <= 57
}

/// The digit values of ASCII decimal digits.
pub open spec fn decimal_digits(s: Seq<u8>) -> Seq<nat> {
    s.map_values(|c: u8| (c - 48) as nat)
}

/// The natural written in decimal by the bytes `s`: one or more ASCII digits, leading zeros
/// allowed. `None` for anything else.
pub fn natural_from_decimal_bytes(s: &[u8]) -> (r: Option<Natural>)
    ensures
        r is Some <==> is_decimal(s@),
        r matches Some(n) ==> n@ == dval_desc(decimal_digits(s@), 10) && n.wf(),
{
    if s.len() == 0 {
        return None;
    }
    let mut digits: Vec<u8> = Vec::new();
    let mut i: usize = 0;
    while i < s.len()
        invariant
            i <= s@.len(),
            digits@.len() == i,
            forall|j: int| 0 <= j < i ==> 48 <= #[trigger] s@[j] <= 57,
            forall|j: int| 0 <= j < i ==> #[trigger] digits@[j] as nat == (s@[j] - 48) as nat,
        decreases s@.len() - i,
    {
        let c = s[i];
        if c < 48 || c > 57 {
            return None;
        }
        digits.push(c - 48);
        i += 1;
    }
    proof {
        assert(u8_digits(digits@) =~= decimal_digits(s@));
        assert forall|j: int| 0 <= j < digits@.len() implies #[trigger] u8_digits(digits@)[j] < 10 by {
            assert(digits@[j] as nat == (s@[j] - 48) as nat);
        }
    }
    Natural::from_digits_desc(&10, digits.as_slice())
}

impl core::str::FromStr for Natural {
    type Err = ();

    /// Parses a natural written in decimal: `Ok` exactly when the text is one or more decimal
    /// digits, and then the number they stand for.
    fn from_str(s: &str) -> (r: Result<Natural, ()>)
        ensures
            r is Ok <==> is_decimal(vstd::string::StringSliceAdditionalSpecFns::spec_bytes(s)),
            r matches Ok(n) ==> n@ == dval_desc(decimal_digits(vstd::string::StringSliceAdditionalSpecFns::spec_bytes(s)), 10) && n.wf(),
    {
        match natural_from_decimal_bytes(s.as_bytes()) {
            Some(n) => Ok(n),
            None => Err(()),
        }
    }
}

} // verus!
