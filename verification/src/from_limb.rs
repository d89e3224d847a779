//! Naturals from digits in a base that fits in a limb.
use vstd::prelude::*;
use vstd::arithmetic::power2::pow2;
use crate::bases::{lemma_npow_pos, npow};
use crate::digit_specs::{all_below, dval_asc, dval_desc, lemma_dval_desc_bound, u32_digits, u8_digits};
use crate::from_large::{
    bit_length, compute_powers_for_from_digits, lemma_bit_length_of, lemma_limbs_below_power,
    FROM_DIGITS_DIVIDE_AND_CONQUER_THRESHOLD,
};
use crate::large_digits::{all_wf, natural_values};
use crate::natural::{lemma_small_val, limb_significant_bits, natural_limbs, Natural};
use crate::natural_digits::_from_digits_desc_naive_primitive;

verus! {

/// Facts about a split of limb digits: the parts hold the digits of the whole, and the whole
/// is below the base exactly when both parts are.
proof fn lemma_split_limb_digits(xs: Seq<u32>, m: int, b: nat)
    requires
        0 <= m <= xs.len(),
    ensures
        u32_digits(xs) =~= u32_digits(xs.subrange(0, m)) + u32_digits(xs.subrange(m, xs.len() as int)),
        all_below(u32_digits(xs), b) <==> (all_below(u32_digits(xs.subrange(0, m)), b) && all_below(
            u32_digits(xs.subrange(m, xs.len() as int)),
            b,
        )),
{
    let vs = u32_digits(xs);
    let vh = u32_digits(xs.subrange(0, m));
    let vl = u32_digits(xs.subrange(m, xs.len() as int));
    assert(vs =~= vh + vl);
    if all_below(vh, b) && all_below(vl, b) {
        assert forall|i: int| 0 <= i < vs.len() implies #[trigger] vs[i] < b by {
            if i < m {
                assert(vs[i] == vh[i]);
            } else {
                assert(vs[i] == vl[i - m]);
            }
        }
    }
    if all_below(vs, b) {
        assert forall|i: int| 0 <= i < vh.len() implies #[trigger] vh[i] < b by {
            assert(vs[i] == vh[i]);
        }
        assert forall|i: int| 0 <= i < vl.len() implies #[trigger] vl[i] < b by {
            assert(vs[i + m] == vl[i]);
        }
    }
}

/// The natural whose digits in base `base`, most significant first, are `xs`: the low
/// `2^power_index` digits and the digits above them are converted separately and joined with
/// `powers[power_index]`, which is `base^(2^power_index)`, until few digits remain, which are
/// then read a limb's worth at a time for bases up to `SQRT_MAX_LIMB` and one at a time for
/// larger bases; `None` when some digit is not below the base.
pub fn _from_digits_desc_divide_and_conquer_limb(
    xs: &[u32],
    base: u32,
    powers: &[Natural],
    power_index: usize,
) -> (r: Option<Natural>)
    requires
        base >= 2,
        xs@.len() + 1 <= usize::MAX,
        xs@.len() + 1 < 0x100000000000000,
        pow2(power_index as nat) <= usize::MAX,
        power_index == 0 || power_index < powers@.len(),
        forall|k: int|
            0 <= k < powers@.len() ==> (#[trigger] powers@[k])@ == npow(base as nat, pow2(k as nat))
                && powers@[k].wf(),
    ensures
        r is Some <==> all_below(u32_digits(xs@), base as nat),
        r matches Some(n) ==> n@ == dval_desc(u32_digits(xs@), base as nat) && n.wf(),
    decreases power_index,
{
    let ghost b = base as nat;
    let ghost nb = Natural::Small(base);
    let xs_len = xs.len();
    let bits = limb_significant_bits(base);
    proof {
        lemma_bit_length_of(b, bits as nat);
        assert(xs_len * bits <= 32 * xs_len) by (nonlinear_arith)
            requires
                bits <= 32,
        ;
    }
    if power_index == 0 || (xs_len as u64) * (bits as u64) < FROM_DIGITS_DIVIDE_AND_CONQUER_THRESHOLD {
        if base <= crate::limb_digits::SQRT_MAX_LIMB {
            return crate::natural_digits::_from_digits_desc_basecase_limb(xs, base);
        } else {
            return _from_digits_desc_naive_primitive(xs, base);
        }
    }
    proof {
        vstd::arithmetic::power2::lemma_pow2_strictly_increases((power_index - 1) as nat, power_index as nat);
    }
    let p = crate::limb_digits::usize_pow2(power_index);
    if xs_len <= p {
        return _from_digits_desc_divide_and_conquer_limb(xs, base, powers, power_index - 1);
    }
    let m = xs_len - p;
    let (xs_hi, xs_lo) = xs.split_at(m);
    proof {
        lemma_split_limb_digits(xs@, m as int, b);
    }
    let out_hi = match _from_digits_desc_divide_and_conquer_limb(xs_hi, base, powers, power_index - 1) {
        Some(v) => v,
        None => {
            return None;
        },
    };
    let out_lo = match _from_digits_desc_divide_and_conquer_limb(xs_lo, base, powers, power_index - 1) {
        Some(v) => v,
        None => {
            return None;
        },
    };
    let pw = &powers[power_index];
    proof {
        let vh = u32_digits(xs_hi@);
        lemma_small_val(base);
        assert(nb@ == b);
        lemma_dval_desc_bound(vh, b);
        lemma_limbs_below_power(out_hi, nb, m as nat);
        lemma_npow_pos(b, p as nat);
        crate::bases::lemma_npow_add(b, p as nat, 1);
        crate::bases::lemma_npow_one(b);
        assert(npow(b, p as nat) < npow(b, (p + 1) as nat)) by (nonlinear_arith)
            requires
                npow(b, (p + 1) as nat) == npow(b, p as nat) * npow(b, 1),
                npow(b, 1) == b,
                b >= 2,
                npow(b, p as nat) > 0,
        ;
        lemma_limbs_below_power(*pw, nb, (p + 1) as nat);
    }
    let prod = out_hi.mul_natural(pw);
    let n = prod.add_natural(&out_lo);
    proof {
        let vh = u32_digits(xs_hi@);
        let vl = u32_digits(xs_lo@);
        crate::digit_specs::lemma_dval_desc_append(vh, vl, b);
        assert(vl.len() == p);
    }
    Some(n)
}

/// The digits `xs` as bytes when all are below `base`, which is below 256; `None` otherwise.
fn checked_byte_digits(xs: &[u32], base: u32) -> (r: Option<Vec<u8>>)
    requires
        base < 256,
    ensures
        r is Some <==> all_below(u32_digits(xs@), base as nat),
        r matches Some(v) ==> u8_digits(v@) == u32_digits(xs@),
{
    let n = xs.len();
    let mut v: Vec<u8> = Vec::new();
    let mut i: usize = 0;
    while i < n
        invariant
            i <= n,
            n == xs@.len(),
            base < 256,
            v@.len() == i,
            forall|j: int| 0 <= j < i ==> v@[j] as nat == xs@[j] as nat && xs@[j] < base,
        decreases n - i,
    {
        let x = xs[i];
        if x >= base {
            proof {
                assert(u32_digits(xs@)[i as int] == x as nat);
            }
            return None;
        }
        v.push(x as u8);
        i += 1;
    }
    proof {
        assert(u8_digits(v@) =~= u32_digits(xs@));
        assert forall|j: int| 0 <= j < n implies #[trigger] u32_digits(xs@)[j] < base as nat by {
            assert(xs@[j] < base);
        }
    }
    Some(v)
}

/// The natural whose digits in base `base` are `xs`, most significant first; `None` when some
/// digit is not below the base. Bases below 256 go through the byte conversion, larger ones
/// through the divide-and-conquer conversion over repeated squares of the base.
pub fn _from_digits_desc_limb(xs: &[u32], base: u32) -> (r: Option<Natural>)
    requires
        base >= 2,
        xs@.len() + 1 <= usize::MAX,
        xs@.len() + 1 < 0x100000000000000,
    ensures
        r is Some <==> all_below(u32_digits(xs@), base as nat),
        r matches Some(n) ==> n@ == dval_desc(u32_digits(xs@), base as nat) && n.wf(),
{
    if xs.len() == 0 {
        proof {
            assert(u32_digits(xs@) =~= Seq::<nat>::empty());
        }
        return Some(Natural::new());
    }
    if base < 256 {
        let bytes = match checked_byte_digits(xs, base) {
            Some(v) => v,
            None => {
                return None;
            },
        };
        let b8 = base as u8;
        return Natural::from_digits_desc(&b8, bytes.as_slice());
    }
    let nb = Natural::from_u32(base);
    proof {
        lemma_small_val(base);
    }
    let powers = compute_powers_for_from_digits(&nb, xs.len());
    proof {
        crate::from_large::lemma_top_power_fits(powers@.len(), xs@.len() as nat);
    }
    let idx = if powers.len() > 0 { powers.len() - 1 } else { 0 };
    _from_digits_desc_divide_and_conquer_limb(xs, base, powers.as_slice(), idx)
}

/// The natural whose digits in base `base` are `xs`, least significant first; `None` when
/// some digit is not below the base.
pub fn _from_digits_asc_limb(xs: &[u32], base: u32) -> (r: Option<Natural>)
    requires
        base >= 2,
        xs@.len() + 1 <= usize::MAX,
        xs@.len() + 1 < 0x100000000000000,
    ensures
        r is Some <==> all_below(u32_digits(xs@), base as nat),
        r matches Some(n) ==> n@ == dval_asc(u32_digits(xs@), base as nat) && n.wf(),
{
    let v = crate::sub_naive::limbs_copy_range(xs, 0, xs.len());
    let rev = crate::limb_digits::reverse_limb_digits(&v);
    let r = _from_digits_desc_limb(rev.as_slice(), base);
    proof {
        let b = base as nat;
        let a = u32_digits(xs@);
        let d = u32_digits(rev@);
        assert(v@ =~= xs@);
        assert(d =~= a.reverse());
        crate::digit_specs::lemma_dval_desc_reverse(d, b);
        assert(d.reverse() =~= a);
        if all_below(d, b) {
            assert forall|i: int| 0 <= i < a.len() implies #[trigger] a[i] < b by {
                assert(a[i] == d[a.len() - 1 - i]);
            }
        }
        if all_below(a, b) {
            assert forall|i: int| 0 <= i < d.len() implies #[trigger] d[i] < b by {
                assert(d[i] == a[a.len() - 1 - i]);
            }
        }
    }
    r
}

/// The naturals `xs` as limbs when each fits in one; `None` otherwise.
fn checked_limb_digits(xs: &[Natural]) -> (r: Option<Vec<u32>>)
    requires
        all_wf(xs@),
    ensures
        r is Some <==> forall|i: int| 0 <= i < xs@.len() ==> (#[trigger] xs@[i])@ < crate::limbs::radix(),
        r matches Some(v) ==> u32_digits(v@) == natural_values(xs@),
{
    let n = xs.len();
    let mut v: Vec<u32> = Vec::new();
    let mut i: usize = 0;
    while i < n
        invariant
            i <= n,
            n == xs@.len(),
            all_wf(xs@),
            v@.len() == i,
            forall|j: int| 0 <= j < i ==> v@[j] as nat == (#[trigger] xs@[j])@,
        decreases n - i,
    {
        match &xs[i] {
            Natural::Small(x) => {
                proof {
                    lemma_small_val(*x);
                }
                v.push(*x);
            },
            Natural::Large(ls) => {
                proof {
                    assert(xs@[i as int].wf());
                    crate::limbs::lemma_val_normalized_lower(ls@);
                    crate::limbs::lemma_lpow_mono(1, (ls@.len() - 1) as nat);
                    assert(crate::limbs::lpow(1) == crate::limbs::radix() * crate::limbs::lpow(0));
                    assert(ls@.last() as nat >= 1);
                    assert(crate::limbs::lpow((ls@.len() - 1) as nat) * (ls@.last() as nat)
                        >= crate::limbs::lpow((ls@.len() - 1) as nat)) by (nonlinear_arith)
                        requires
                            ls@.last() as nat >= 1,
                    ;
                }
                return None;
            },
        }
        i += 1;
    }
    proof {
        assert(u32_digits(v@) =~= natural_values(xs@));
        assert forall|i: int| 0 <= i < xs@.len() implies (#[trigger] xs@[i])@ < crate::limbs::radix() by {
            assert(v@[i] as nat == xs@[i]@);
        }
    }
    Some(v)
}

/// A digit that does not fit in a limb is not below a base that does.
proof fn lemma_limb_digits_below(xs: Seq<Natural>, b: nat)
    requires
        b < crate::limbs::radix(),
    ensures
        all_below(natural_values(xs), b) ==> forall|i: int| 0 <= i < xs.len() ==> (#[trigger] xs[i])@ < crate::limbs::radix(),
{
    if all_below(natural_values(xs), b) {
        assert forall|i: int| 0 <= i < xs.len() implies (#[trigger] xs[i])@ < crate::limbs::radix() by {
            assert(natural_values(xs)[i] == xs[i]@);
        }
    }
}

/// The natural whose digits in base `base` are the naturals `xs`, most significant first;
/// `None` when some digit is not below the base.
pub fn _from_digits_desc_limb_from_natural(xs: &[Natural], base: u32) -> (r: Option<Natural>)
    requires
        base >= 2,
        all_wf(xs@),
        xs@.len() + 1 <= usize::MAX,
        xs@.len() + 1 < 0x100000000000000,
    ensures
        r is Some <==> all_below(natural_values(xs@), base as nat),
        r matches Some(n) ==> n@ == dval_desc(natural_values(xs@), base as nat) && n.wf(),
{
    proof {
        lemma_limb_digits_below(xs@, base as nat);
    }
    match checked_limb_digits(xs) {
        Some(v) => _from_digits_desc_limb(v.as_slice(), base),
        None => None,
    }
}

/// The natural whose digits in base `base` are the naturals `xs`, least significant first;
/// `None` when some digit is not below the base.
pub fn _from_digits_asc_limb_from_natural(xs: &[Natural], base: u32) -> (r: Option<Natural>)
    requires
        base >= 2,
        all_wf(xs@),
        xs@.len() + 1 <= usize::MAX,
        xs@.len() + 1 < 0x100000000000000,
    ensures
        r is Some <==> all_below(natural_values(xs@), base as nat),
        r matches Some(n) ==> n@ == dval_asc(natural_values(xs@), base as nat) && n.wf(),
{
    proof {
        lemma_limb_digits_below(xs@, base as nat);
    }
    match checked_limb_digits(xs) {
        Some(v) => _from_digits_asc_limb(v.as_slice(), base),
        None => None,
    }
}

} // verus!
