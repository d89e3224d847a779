//! Naturals from digits that are themselves naturals, in a base that is a natural.
use vstd::prelude::*;
use crate::bases::{lemma_npow_base_mono, lemma_npow_mono, lemma_npow_mul, lemma_npow_pos, npow};
use crate::digit_specs::{all_below, dval_desc, lemma_dval_desc_bound, lemma_dval_desc_push};
use crate::large_digits::{all_wf, natural_values};
use crate::limbs::{lemma_val_bound, lpow, radix};
use crate::natural::{natural_limbs, Natural};
use crate::power_table::ceil_half;
use vstd::arithmetic::power2::{lemma2_to64, lemma_pow2_unfold, pow2};

verus! {

/// Below this many bits, counted as the number of digits times the bits of the base, digits
/// are combined directly rather than by divide and conquer.
pub const FROM_DIGITS_DIVIDE_AND_CONQUER_THRESHOLD: u64 = 1652;

/// The number of significant bits of `x`; zero for zero.
pub open spec fn bit_length(x: nat) -> nat
    decreases x,
{
    if x == 0 {
        0
    } else {
        1 + bit_length(x / 2)
    }
}

/// The number of bits that `significant_bits` pins down by its bounds is the bit length.
pub(crate) proof fn lemma_bit_length_of(x: nat, r: nat)
    requires
        x < pow2(r),
        r > 0 ==> x >= pow2((r - 1) as nat),
    ensures
        bit_length(x) == r,
    decreases r,
{
    if r == 0 {
        lemma2_to64();
    } else {
        lemma_pow2_unfold(r);
        vstd::arithmetic::power2::lemma_pow2_pos((r - 1) as nat);
        if r > 1 {
            lemma_pow2_unfold((r - 1) as nat);
        }
        lemma_bit_length_of(x / 2, (r - 1) as nat);
    }
}

/// Every natural has at least one limb.
pub(crate) proof fn lemma_limbs_nonempty(n: Natural)
    requires
        n.wf(),
    ensures
        natural_limbs(n).len() >= 1,
{
}

/// A natural below `base^k`, `k >= 1`, has at most `k` times as many limbs as `base`.
pub(crate) proof fn lemma_limbs_below_power(n: Natural, base: Natural, k: nat)
    requires
        n.wf(),
        base.wf(),
        k >= 1,
        n@ < npow(base@, k),
    ensures
        natural_limbs(n).len() <= natural_limbs(base).len() * k,
{
    let l = natural_limbs(base).len();
    lemma_limbs_nonempty(base);
    lemma_val_bound(natural_limbs(base));
    lemma_npow_base_mono(base@, lpow(l), k);
    crate::natural_digits::lemma_npow_radix(l);
    lemma_npow_mul(radix(), l, k);
    crate::natural_digits::lemma_npow_radix(l * k);
    assert(l * k >= 1) by (nonlinear_arith)
        requires
            l >= 1,
            k >= 1,
    ;
    crate::limb_digits::lemma_natural_len_bound(n, l * k);
}

/// The natural whose digits in base `base`, most significant first, are `xs`, by Horner's
/// rule; `None` when some digit is not below the base.
pub fn _from_digits_desc_naive(xs: &[Natural], base: &Natural) -> (r: Option<Natural>)
    requires
        base.wf(),
        base@ >= 2,
        all_wf(xs@),
        (xs@.len() + 1) * natural_limbs(*base).len() <= usize::MAX,
    ensures
        r is Some <==> all_below(natural_values(xs@), base@),
        r matches Some(n) ==> n@ == dval_desc(natural_values(xs@), base@) && n.wf(),
{
    let ghost b = base@;
    let ghost l = natural_limbs(*base).len();
    let ghost vs = natural_values(xs@);
    let mut n = Natural::new();
    let mut i: usize = 0;
    proof {
        lemma_limbs_nonempty(*base);
        assert(natural_values(xs@.subrange(0, 0)) =~= Seq::<nat>::empty());
    }
    while i < xs.len()
        invariant
            b == base@,
            b >= 2,
            l == natural_limbs(*base).len(),
            l >= 1,
            vs == natural_values(xs@),
            base.wf(),
            all_wf(xs@),
            (xs@.len() + 1) * l <= usize::MAX,
            i <= xs.len(),
            n.wf(),
            n@ == dval_desc(vs.subrange(0, i as int), b),
            all_below(vs.subrange(0, i as int), b),
            i == 0 ==> n == Natural::Small(0),
        decreases xs.len() - i,
    {
        let x = &xs[i];
        proof {
            assert(xs@[i as int].wf());
            assert(vs[i as int] == x@);
        }
        if !x.lt_natural(base) {
            proof {
                assert(!(vs[i as int] < b));
            }
            return None;
        }
        proof {
            if i == 0 {
                assert(natural_limbs(n).len() == 1);
                assert(1 + l <= (xs@.len() + 1) * l) by (nonlinear_arith)
                    requires
                        xs@.len() >= 1,
                        l >= 1,
                ;
            } else {
                lemma_dval_desc_bound(vs.subrange(0, i as int), b);
                lemma_limbs_below_power(n, *base, i as nat);
                assert(l * i + l <= (xs@.len() + 1) * l) by (nonlinear_arith)
                    requires
                        i < xs@.len(),
                        l >= 1,
                ;
            }
        }
        let nb = n.mul_natural(base);
        n = nb.add_natural(x);
        proof {
            let s = vs.subrange(0, i as int);
            assert(vs.subrange(0, i + 1) =~= s.push(vs[i as int]));
            lemma_dval_desc_push(s, vs[i as int], b);
            assert forall|j: int| 0 <= j < i + 1 implies #[trigger] vs.subrange(0, i + 1)[j] < b by {
                if j < i {
                    assert(vs.subrange(0, i + 1)[j] == s[j]);
                }
            }
        }
        i = i + 1;
    }
    proof {
        assert(vs.subrange(0, xs@.len() as int) =~= vs);
    }
    Some(n)
}

/// The powers `base^(2^k)` for `k = 0, 1, ...`, up to the first whose exponent is at least
/// half the number of digits (rounded up); none when the digits carry fewer than
/// `FROM_DIGITS_DIVIDE_AND_CONQUER_THRESHOLD` bits' worth of the base.
pub fn compute_powers_for_from_digits(base: &Natural, digits: usize) -> (r: Vec<Natural>)
    requires
        base.wf(),
        base@ >= 2,
        (digits + 1) * natural_limbs(*base).len() < 0x100000000000000,
        (digits + 1) * natural_limbs(*base).len() <= usize::MAX,
    ensures
        forall|k: int|
            0 <= k < r@.len() ==> (#[trigger] r@[k])@ == npow(base@, pow2(k as nat)) && r@[k].wf(),
        r@.len() == 0 <==> digits * bit_length(base@) < FROM_DIGITS_DIVIDE_AND_CONQUER_THRESHOLD,
        r@.len() > 0 ==> ceil_half(digits as nat) <= pow2((r@.len() - 1) as nat),
        r@.len() > 1 ==> pow2((r@.len() - 2) as nat) < ceil_half(digits as nat),
        r@.len() <= 64,
{
    let ghost b = base@;
    let ghost l = natural_limbs(*base).len();
    proof {
        lemma_limbs_nonempty(*base);
        assert(l <= (digits + 1) * l) by (nonlinear_arith)
            requires
                l >= 1,
        ;
    }
    let bits = base.significant_bits();
    proof {
        lemma_limbs_nonempty(*base);
        lemma_bit_length_of(b, bits as nat);
        crate::limb_digits::lemma_bits_le_limbs(*base, bits as nat);
        assert(digits * bits <= 32 * ((digits + 1) * l)) by (nonlinear_arith)
            requires
                bits <= 32 * l,
        ;
    }
    if (digits as u64) * bits < FROM_DIGITS_DIVIDE_AND_CONQUER_THRESHOLD {
        return Vec::new();
    }
    let limit = digits / 2 + digits % 2;
    let mut powers: Vec<Natural> = Vec::new();
    let mut power = base.clone_natural();
    let mut p: usize = 1;
    let mut done = false;
    proof {
        lemma2_to64();
        crate::bases::lemma_npow_one(b);
        assert(digits >= 1) by {
            if digits == 0 {
                assert(0 * bits == 0);
            }
        }
    }
    while !done
        invariant
            b == base@,
            b >= 2,
            base.wf(),
            l == natural_limbs(*base).len(),
            l >= 1,
            (digits + 1) * l <= usize::MAX,
            limit == ceil_half(digits as nat),
            limit >= 1,
            !done ==> p as nat == pow2(powers@.len() as nat),
            done ==> powers@.len() >= 1 && p as nat == pow2((powers@.len() - 1) as nat),
            forall|k: int|
                0 <= k < powers@.len() ==> (#[trigger] powers@[k])@ == npow(b, pow2(k as nat))
                    && powers@[k].wf(),
            power@ == npow(b, p as nat),
            power.wf(),
            !done ==> (powers@.len() == 0 || p < 2 * limit),
            !done ==> (powers@.len() > 0 ==> pow2((powers@.len() - 1) as nat) < limit),
            done ==> powers@.len() >= 1 && pow2((powers@.len() - 1) as nat) >= limit,
            done ==> (powers@.len() > 1 ==> pow2((powers@.len() - 2) as nat) < limit),
            powers@.len() <= 64,
            1 <= p <= 2 * limit,
        decreases (if done { 0int } else { 1int }), 2 * limit - p,
    {
        let ghost k = powers@.len();
        powers.push(power.clone_natural());
        proof {
            assert(powers@[k as int]@ == power@ && powers@[k as int].wf());
            assert(k < 64) by {
                if k >= 64 {
                    if k > 64 {
                        vstd::arithmetic::power2::lemma_pow2_strictly_increases(64, k as nat);
                    }
                    assert(pow2(64) == 0x10000000000000000) by {
                        vstd::arithmetic::power2::lemma2_to64_rest();
                    }
                }
            }
        }
        if p >= limit {
            done = true;
        } else {
            proof {
                lemma_npow_pos(b, p as nat);
                crate::bases::lemma_npow_add(b, p as nat, 1);
                crate::bases::lemma_npow_one(b);
                assert(npow(b, p as nat) < npow(b, (p + 1) as nat)) by (nonlinear_arith)
                    requires
                        npow(b, (p + 1) as nat) == npow(b, p as nat) * npow(b, 1),
                        npow(b, 1) == b,
                        b >= 2,
                        npow(b, p as nat) > 0,
                ;
                lemma_limbs_below_power(power, *base, (p + 1) as nat);
                assert(l * (p + 1) + l * (p + 1) <= (digits + 1) * l) by (nonlinear_arith)
                    requires
                        p < limit,
                        limit == (digits + 1) / 2,
                        l >= 1,
                ;
            }
            let sq = power.mul_natural(&power);
            proof {
                crate::bases::lemma_npow_add(b, p as nat, p as nat);
                lemma_pow2_unfold((k + 1) as nat);
                if k + 1 > 64 {
                    vstd::arithmetic::power2::lemma_pow2_strictly_increases(64, (k + 1) as nat);
                }
                assert(k + 1 <= 64) by {
                    if k + 1 > 64 {
                        assert(pow2(64) == 0x10000000000000000) by {
                            vstd::arithmetic::power2::lemma2_to64_rest();
                        }
                    }
                }
            }
            power = sq;
            p = p * 2;
        }
    }
    powers
}

/// Facts about a split of digits: the parts hold the digits of the whole, and the whole is
/// below the base exactly when both parts are.
proof fn lemma_split_digits(xs: Seq<Natural>, m: int, b: nat)
    requires
        0 <= m <= xs.len(),
    ensures
        natural_values(xs) =~= natural_values(xs.subrange(0, m)) + natural_values(
            xs.subrange(m, xs.len() as int),
        ),
        all_below(natural_values(xs), b) <==> (all_below(natural_values(xs.subrange(0, m)), b)
            && all_below(natural_values(xs.subrange(m, xs.len() as int)), b)),
        all_wf(xs) ==> all_wf(xs.subrange(0, m)) && all_wf(xs.subrange(m, xs.len() as int)),
{
    let vs = natural_values(xs);
    let vh = natural_values(xs.subrange(0, m));
    let vl = natural_values(xs.subrange(m, xs.len() as int));
    assert(vs =~= vh + vl);
    if all_below(vh, b) && all_below(vl, b) {
        assert forall|i: int| 0 <= i < vs.len() implies #[trigger] vs[i] < b by {
            if i < m {
                assert(vs[i] == vh[i]);
            } else {
                assert(vs[i] == vl[i - m]);
            }
        }
    }
    if all_below(vs, b) {
        assert forall|i: int| 0 <= i < vh.len() implies #[trigger] vh[i] < b by {
            assert(vs[i] == vh[i]);
        }
        assert forall|i: int| 0 <= i < vl.len() implies #[trigger] vl[i] < b by {
            assert(vs[i + m] == vl[i]);
        }
    }
    if all_wf(xs) {
        let h = xs.subrange(0, m);
        let lo = xs.subrange(m, xs.len() as int);
        assert forall|i: int| 0 <= i < h.len() implies #[trigger] h[i].wf() by {
            assert(h[i] == xs[i]);
        }
        assert forall|i: int| 0 <= i < lo.len() implies #[trigger] lo[i].wf() by {
            assert(lo[i] == xs[i + m]);
        }
    }
}

/// The natural whose digits in base `base`, most significant first, are `xs`: the low
/// `2^power_index` digits and the digits above them are converted separately and joined with
/// `powers[power_index]`, which is `base^(2^power_index)`, until few digits remain; `None` when
/// some digit is not below the base.
pub fn _from_digits_desc_divide_and_conquer(
    xs: &[Natural],
    base: &Natural,
    powers: &[Natural],
    power_index: usize,
) -> (r: Option<Natural>)
    requires
        base.wf(),
        base@ >= 2,
        all_wf(xs@),
        (xs@.len() + 1) * natural_limbs(*base).len() < 0x100000000000000,
        (xs@.len() + 1) * natural_limbs(*base).len() <= usize::MAX,
        pow2(power_index as nat) <= usize::MAX,
        power_index == 0 || power_index < powers@.len(),
        forall|k: int|
            0 <= k < powers@.len() ==> (#[trigger] powers@[k])@ == npow(base@, pow2(k as nat))
                && powers@[k].wf(),
    ensures
        r is Some <==> all_below(natural_values(xs@), base@),
        r matches Some(n) ==> n@ == dval_desc(natural_values(xs@), base@) && n.wf(),
    decreases power_index,
{
    let ghost b = base@;
    let ghost l = natural_limbs(*base).len();
    let xs_len = xs.len();
    proof {
        lemma_limbs_nonempty(*base);
        assert(l <= (xs_len + 1) * l) by (nonlinear_arith)
            requires
                l >= 1,
        ;
    }
    let bits = base.significant_bits();
    proof {
        crate::limb_digits::lemma_bits_le_limbs(*base, bits as nat);
        assert(xs_len * bits <= 32 * ((xs_len + 1) * l)) by (nonlinear_arith)
            requires
                bits <= 32 * l,
        ;
    }
    if power_index == 0 || (xs_len as u64) * bits < FROM_DIGITS_DIVIDE_AND_CONQUER_THRESHOLD {
        return _from_digits_desc_naive(xs, base);
    }
    proof {
        if power_index > 0 {
            vstd::arithmetic::power2::lemma_pow2_strictly_increases((power_index - 1) as nat, power_index as nat);
        }
    }
    let p = crate::limb_digits::usize_pow2(power_index);
    if xs_len <= p {
        return _from_digits_desc_divide_and_conquer(xs, base, powers, power_index - 1);
    }
    let m = xs_len - p;
    let (xs_hi, xs_lo) = xs.split_at(m);
    proof {
        lemma_split_digits(xs@, m as int, b);
        assert(xs_hi@.len() + 1 <= xs@.len() + 1);
        assert((xs_hi@.len() + 1) * l <= (xs_len + 1) * l) by (nonlinear_arith)
            requires
                xs_hi@.len() <= xs_len,
        ;
        assert((xs_lo@.len() + 1) * l <= (xs_len + 1) * l) by (nonlinear_arith)
            requires
                xs_lo@.len() <= xs_len,
        ;
    }
    let out_hi = match _from_digits_desc_divide_and_conquer(xs_hi, base, powers, power_index - 1) {
        Some(v) => v,
        None => {
            return None;
        },
    };
    let out_lo = match _from_digits_desc_divide_and_conquer(xs_lo, base, powers, power_index - 1) {
        Some(v) => v,
        None => {
            return None;
        },
    };
    let pw = &powers[power_index];
    proof {
        let vh = natural_values(xs_hi@);
        let vl = natural_values(xs_lo@);
        lemma_dval_desc_bound(vh, b);
        lemma_limbs_below_power(out_hi, *base, m as nat);
        lemma_npow_pos(b, p as nat);
        crate::bases::lemma_npow_add(b, p as nat, 1);
        crate::bases::lemma_npow_one(b);
        assert(npow(b, p as nat) < npow(b, (p + 1) as nat)) by (nonlinear_arith)
            requires
                npow(b, (p + 1) as nat) == npow(b, p as nat) * npow(b, 1),
                npow(b, 1) == b,
                b >= 2,
                npow(b, p as nat) > 0,
        ;
        lemma_limbs_below_power(*pw, *base, (p + 1) as nat);
        assert(l * m + l * (p + 1) == (xs_len + 1) * l) by (nonlinear_arith)
            requires
                m + p == xs_len,
        ;
    }
    let prod = out_hi.mul_natural(pw);
    let n = prod.add_natural(&out_lo);
    proof {
        let vh = natural_values(xs_hi@);
        let vl = natural_values(xs_lo@);
        crate::digit_specs::lemma_dval_desc_append(vh, vl, b);
        assert(vl.len() == p);
    }
    Some(n)
}

/// Copies of the naturals `xs` in reverse order.
pub(crate) fn reversed_naturals(xs: &[Natural]) -> (r: Vec<Natural>)
    ensures
        natural_values(r@) == natural_values(xs@).reverse(),
        all_wf(xs@) ==> all_wf(r@),
        r@.len() == xs@.len(),
{
    let n = xs.len();
    let mut r: Vec<Natural> = Vec::new();
    let mut i: usize = n;
    while i > 0
        invariant
            i <= n,
            n == xs@.len(),
            r@.len() == n - i,
            forall|j: int|
                0 <= j < r@.len() ==> (#[trigger] r@[j])@ == xs@[n - 1 - j]@ && (xs@[n - 1 - j].wf()
                    ==> r@[j].wf()),
        decreases i,
    {
        i = i - 1;
        let c = xs[i].clone_natural();
        r.push(c);
    }
    proof {
        let a = natural_values(r@);
        let b = natural_values(xs@).reverse();
        assert forall|j: int| 0 <= j < a.len() implies a[j] == b[j] by {
            assert(r@[j]@ == xs@[n - 1 - j]@);
        }
        assert(a =~= b);
        if all_wf(xs@) {
            assert forall|j: int| 0 <= j < r@.len() implies #[trigger] r@[j].wf() by {
                assert(xs@[n - 1 - j].wf());
            }
        }
    }
    r
}

/// The index of the largest power that `compute_powers_for_from_digits` hands out (zero when
/// there is none) is one whose power of two fits a `usize`.
pub(crate) proof fn lemma_top_power_fits(len: nat, digits: nat)
    requires
        len > 0 ==> ceil_half(digits) <= pow2((len - 1) as nat),
        len > 1 ==> pow2((len - 2) as nat) < ceil_half(digits),
        digits + 1 <= usize::MAX,
    ensures
        pow2((if len > 0 { len - 1 } else { 0 }) as nat) <= usize::MAX,
{
    lemma2_to64();
    if len > 1 {
        lemma_pow2_unfold((len - 1) as nat);
    }
}

/// The natural whose digits in base `base`, which is at least 2, are `xs`, most significant
/// first; `None` when some digit is not below the base.
pub fn _from_digits_desc_large(xs: &[Natural], base: &Natural) -> (r: Option<Natural>)
    requires
        base.wf(),
        base@ >= 2,
        all_wf(xs@),
        (xs@.len() + 1) * natural_limbs(*base).len() < 0x100000000000000,
        (xs@.len() + 1) * natural_limbs(*base).len() <= usize::MAX,
    ensures
        r is Some <==> all_below(natural_values(xs@), base@),
        r matches Some(n) ==> n@ == dval_desc(natural_values(xs@), base@) && n.wf(),
{
    let powers = compute_powers_for_from_digits(base, xs.len());
    proof {
        lemma_limbs_nonempty(*base);
        assert(xs@.len() + 1 <= (xs@.len() + 1) * natural_limbs(*base).len()) by (nonlinear_arith)
            requires
                natural_limbs(*base).len() >= 1,
        ;
        lemma_top_power_fits(powers@.len(), xs@.len() as nat);
    }
    let idx = if powers.len() > 0 { powers.len() - 1 } else { 0 };
    _from_digits_desc_divide_and_conquer(xs, base, powers.as_slice(), idx)
}

/// The natural whose digits in base `base`, which is at least 2, are `xs`, least significant
/// first; `None` when some digit is not below the base.
pub fn _from_digits_asc_large(xs: &[Natural], base: &Natural) -> (r: Option<Natural>)
    requires
        base.wf(),
        base@ >= 2,
        all_wf(xs@),
        (xs@.len() + 1) * natural_limbs(*base).len() < 0x100000000000000,
        (xs@.len() + 1) * natural_limbs(*base).len() <= usize::MAX,
    ensures
        r is Some <==> all_below(natural_values(xs@), base@),
        r matches Some(n) ==> n@ == crate::digit_specs::dval_asc(natural_values(xs@), base@)
            && n.wf(),
{
    let desc = reversed_naturals(xs);
    let r = _from_digits_desc_large(desc.as_slice(), base);
    proof {
        let vs = natural_values(xs@);
        let vd = natural_values(desc@);
        crate::digit_specs::lemma_dval_desc_reverse(vd, base@);
        assert(vd.reverse() =~= vs);
        if all_below(vs, base@) {
            assert forall|i: int| 0 <= i < vd.len() implies #[trigger] vd[i] < base@ by {
                assert(vd[i] == vs[vs.len() - 1 - i]);
            }
        }
        if all_below(vd, base@) {
            assert forall|i: int| 0 <= i < vs.len() implies #[trigger] vs[i] < base@ by {
                assert(vs[i] == vd[vd.len() - 1 - i]);
            }
        }
    }
    r
}

} // verus!
