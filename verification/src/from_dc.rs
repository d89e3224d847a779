//! Converting digits, most significant first, into limbs by divide and conquer over a
//! table of powers of the base.
use vstd::prelude::*;
use crate::bases::{get_chars_per_limb, is_pow2_u64, lemma_npow_mono, lemma_npow_pos, npow};
use crate::digit_specs::{
    all_below, dval_desc, lemma_dval_desc_append, lemma_dval_desc_bound, lemma_u8_digits_subrange,
    u8_digits,
};
use crate::from_digits::{_limbs_from_digits_small_base_basecase, lemma_normalized_len_bound};
use crate::limbs::{
    is_normalized, lemma_lpow_add, lemma_lpow_mono, lemma_lpow_pos, lemma_val_bound,
    lemma_val_high_zeros, lemma_val_normalized_lower, lemma_val_split, lemma_val_zeros, limbs_val,
    lpow,
};
use crate::power_build::{
    _limbs_compute_power_table, lemma_halvings_double, row_ok, zero_limbs, PowerTableRow,
};
use crate::power_table::{ceil_half, halvings};
use crate::to_digits::normalize_vec;

verus! {

/// Digit counts from which the divide-and-conquer conversion splits its input rather than
/// converting it directly.
pub const SET_STR_DC_THRESHOLD: usize = 7100;

/// Digit counts from which a table of powers is built for the conversion.
pub const SET_STR_PRECOMPUTE_THRESHOLD: usize = 7100;

/// The product of the limbs of `xs` and `ys`, with `xs.len() + ys.len()` limbs.
pub(crate) fn limbs_product(xs: &Vec<u32>, ys: &Vec<u32>) -> (r: Vec<u32>)
    requires
        xs@.len() > 0,
        ys@.len() > 0,
        xs@.len() + ys@.len() <= usize::MAX,
    ensures
        limbs_val(r@) == limbs_val(xs@) * limbs_val(ys@),
        r@.len() == xs@.len() + ys@.len(),
{
    let mut out = zero_limbs(xs.len() + ys.len());
    crate::arith::limbs_mul_to_out(out.as_mut_slice(), xs.as_slice(), ys.as_slice());
    proof {
        assert(out@.subrange(0, (xs@.len() + ys@.len()) as int) =~= out@);
    }
    out
}

/// `k` zero limbs followed by the limbs of `v`: `v` times 2^(32 k).
fn limbs_shift_up(v: &Vec<u32>, k: usize) -> (r: Vec<u32>)
    requires
        k + v@.len() <= usize::MAX,
    ensures
        limbs_val(r@) == lpow(k as nat) * limbs_val(v@),
        r@.len() == k + v@.len(),
{
    let mut r = zero_limbs(k);
    let n = v.len();
    let mut j: usize = 0;
    while j < n
        invariant
            j <= n,
            n == v@.len(),
            r@.len() == k + j,
            forall|t: int| 0 <= t < k ==> r@[t] == 0,
            r@.subrange(k as int, (k + j) as int) == v@.subrange(0, j as int),
        decreases n - j,
    {
        r.push(v[j]);
        proof {
            assert(r@.subrange(k as int, (k + j + 1) as int) =~= v@.subrange(0, j + 1));
        }
        j += 1;
    }
    proof {
        assert(v@.subrange(0, n as int) =~= v@);
        lemma_val_split(r@, k as int);
        lemma_val_zeros(r@.subrange(0, k as int));
    }
    r
}

/// Adds the limbs of `ys` to those of `acc` in place, where the sum fits in `acc.len()` limbs.
fn limbs_add_into(acc: &mut Vec<u32>, ys: &Vec<u32>)
    requires
        ys@.len() <= old(acc)@.len(),
        limbs_val(old(acc)@) + limbs_val(ys@) < lpow(old(acc)@.len()),
    ensures
        limbs_val(final(acc)@) == limbs_val(old(acc)@) + limbs_val(ys@),
        final(acc)@.len() == old(acc)@.len(),
{
    let n = acc.len();
    let mut pad = crate::sub_naive::limbs_copy_range(ys.as_slice(), 0, ys.len());
    proof {
        assert(pad@ =~= ys@);
    }
    while pad.len() < n
        invariant
            pad@.len() <= n,
            limbs_val(pad@) == limbs_val(ys@),
        decreases n - pad@.len(),
    {
        let ghost before = pad@;
        pad.push(0);
        proof {
            crate::limbs::lemma_val_push(before, 0);
            assert(lpow(before.len()) * 0 == 0) by (nonlinear_arith);
        }
    }
    let carry = crate::arith::limbs_slice_add_same_length_in_place_left(acc.as_mut_slice(), pad.as_slice());
    proof {
        lemma_val_bound(acc@);
        if carry {
            assert(false);
        }
    }
}

/// Every digit of a concatenation is below `b` exactly when every digit of both parts is.
proof fn lemma_all_below_concat(a: Seq<nat>, c: Seq<nat>, b: nat)
    ensures
        all_below(a + c, b) <==> all_below(a, b) && all_below(c, b),
{
    if all_below(a + c, b) {
        assert forall|i: int| 0 <= i < a.len() implies #[trigger] a[i] < b by {
            assert((a + c)[i] == a[i]);
        }
        assert forall|i: int| 0 <= i < c.len() implies #[trigger] c[i] < b by {
            assert((a + c)[a.len() + i] == c[i]);
        }
    }
    if all_below(a, b) && all_below(c, b) {
        assert forall|i: int| 0 <= i < (a + c).len() implies #[trigger] (a + c)[i] < b by {
            if i < a.len() {
                assert((a + c)[i] == a[i]);
            } else {
                assert((a + c)[i] == c[i - a.len()]);
            }
        }
    }
}

/// Converts the digits `xs`, most significant first, in base `base` into limbs written to
/// the low limbs of `out`, splitting the digits at the exponent of row `i` of the power
/// table `powers`: the high part times that power plus the low part. Returns the number of
/// limbs, without high zero limbs, or `None` when some digit is not below `base`. `out` must
/// have room for the largest number with `xs.len()` digits plus one limb.
#[verifier::spinoff_prover]
pub fn _limbs_from_digits_small_base_divide_and_conquer(
    out: &mut [u32],
    xs: &[u8],
    base: u64,
    powers: &[PowerTableRow],
    i: usize,
) -> (r: Option<usize>)
    requires
        2 < base < 256,
        !is_pow2_u64(base),
        i < powers@.len(),
        forall|j: int| 0 <= j <= i ==> row_ok(#[trigger] powers@[j], base as nat),
        forall|j: int|
            1 <= j <= i ==> (#[trigger] powers@[j]).digits_in_base <= 2 * powers@[j - 1].digits_in_base,
        xs@.len() > 0,
        xs@.len() <= 2 * powers@[i as int].digits_in_base,
        old(out)@.len() >= 1,
        npow(base as nat, xs@.len()) <= lpow((old(out)@.len() - 1) as nat),
    ensures
        final(out)@.len() == old(out)@.len(),
        r is None <==> !all_below(u8_digits(xs@), base as nat),
        r matches Some(size) ==> size <= final(out)@.len() && limbs_val(
            final(out)@.subrange(0, size as int),
        ) == dval_desc(u8_digits(xs@), base as nat) && is_normalized(
            final(out)@.subrange(0, size as int),
        ),
    decreases i,
{
    if i == 0 {
        return _limbs_from_digits_small_base_basecase(out, xs, base);
    }
    let xs_len = xs.len();
    let len_lo = powers[i].digits_in_base;
    if xs_len <= len_lo {
        return if xs_len < SET_STR_DC_THRESHOLD {
            _limbs_from_digits_small_base_basecase(out, xs, base)
        } else {
            _limbs_from_digits_small_base_divide_and_conquer(out, xs, base, powers, i - 1)
        };
    }
    let ghost b = base as nat;
    let ghost d = u8_digits(xs@);
    let len_hi = xs_len - len_lo;
    let xs_lo = vstd::slice::slice_subrange(xs, 0, len_hi);
    let xs_hi = vstd::slice::slice_subrange(xs, len_hi, xs_len);
    proof {
        lemma_npow_pos(b, len_hi as nat);
        lemma_npow_mono(b, len_hi as nat, xs_len as nat);
        lemma_npow_mono(b, len_lo as nat, xs_len as nat);
        lemma_u8_digits_subrange(xs@, 0, len_hi as int);
        lemma_u8_digits_subrange(xs@, len_hi as int, xs_len as int);
        assert(d.subrange(0, len_hi as int) + d.subrange(len_hi as int, xs_len as int) =~= d);
        lemma_all_below_concat(d.subrange(0, len_hi as int), d.subrange(len_hi as int, xs_len as int), b);
        lemma_dval_desc_append(d.subrange(0, len_hi as int), d.subrange(len_hi as int, xs_len as int), b);
    }
    let mut hi_buf = zero_limbs(out.len());
    let hi_result = if len_hi < SET_STR_DC_THRESHOLD {
        _limbs_from_digits_small_base_basecase(hi_buf.as_mut_slice(), xs_lo, base)
    } else {
        _limbs_from_digits_small_base_divide_and_conquer(hi_buf.as_mut_slice(), xs_lo, base, powers, i - 1)
    };
    let out_len_hi = match hi_result {
        None => return None,
        Some(n) => n,
    };
    let mut lo_buf = zero_limbs(out.len());
    let lo_result = if len_lo < SET_STR_DC_THRESHOLD {
        _limbs_from_digits_small_base_basecase(lo_buf.as_mut_slice(), xs_hi, base)
    } else {
        _limbs_from_digits_small_base_divide_and_conquer(lo_buf.as_mut_slice(), xs_hi, base, powers, i - 1)
    };
    let out_len_lo = match lo_result {
        None => return None,
        Some(n) => n,
    };
    let lo_v = crate::sub_naive::limbs_copy_range(lo_buf.as_slice(), 0, out_len_lo);
    let ghost hi_val = dval_desc(d.subrange(0, len_hi as int), b);
    let ghost lo_val = dval_desc(d.subrange(len_hi as int, xs_len as int), b);
    let ghost pw = npow(b, len_lo as nat);
    proof {
        assert(d.subrange(len_hi as int, xs_len as int).len() == len_lo);
        lemma_dval_desc_bound(d.subrange(len_hi as int, xs_len as int), b);
        lemma_dval_desc_bound(d, b);
        assert(limbs_val(lo_v@) == lo_val);
        assert(dval_desc(d, b) == hi_val * pw + lo_val);
    }
    let acc = if out_len_hi == 0 {
        proof {
            assert(hi_buf@.subrange(0, 0) =~= Seq::<u32>::empty());
            assert(hi_val == 0);
            assert(dval_desc(d, b) == lo_val) by (nonlinear_arith)
                requires
                    dval_desc(d, b) == hi_val * pw + lo_val,
                    hi_val == 0,
            ;
        }
        lo_v
    } else {
        let hi_v = crate::sub_naive::limbs_copy_range(hi_buf.as_slice(), 0, out_len_hi);
        let ghost pv = limbs_val(powers@[i as int].power@);
        let ghost sh = powers@[i as int].shift as nat;
        let ghost plen = powers@[i as int].power@.len();
        proof {
            assert(limbs_val(hi_v@) == hi_val);
            assert(pv * lpow(sh) == pw);
            lemma_val_bound(powers@[i as int].power@);
            lemma_val_bound(hi_v@);
            lemma_lpow_pos(sh);
            lemma_npow_pos(b, xs_len as nat);
            // the whole number fits in out.len() - 1 limbs, so the pieces do too
            lemma_val_normalized_lower(hi_v@);
            lemma_val_normalized_lower(powers@[i as int].power@);
            lemma_lpow_add(out_len_hi as nat, plen);
            lemma_lpow_add((out_len_hi + plen) as nat, sh);
            let lh = lpow((out_len_hi - 1) as nat);
            let lp = lpow((plen - 1) as nat);
            lemma_lpow_add((out_len_hi - 1) as nat, (plen - 1) as nat);
            lemma_lpow_add(((out_len_hi - 1) + (plen - 1)) as nat, sh);
            assert(lh * lp * lpow(sh) <= hi_val * pw) by (nonlinear_arith)
                requires
                    lh <= hi_val,
                    lp <= pv,
                    pv * lpow(sh) == pw,
            ;
            assert(hi_val * pw <= dval_desc(d, b));
            let top = ((out_len_hi - 1) + (plen - 1) + sh) as nat;
            assert(lpow(top) == lh * lp * lpow(sh));
            assert(lpow(top) < lpow((out@.len() - 1) as nat));
            if top >= (out@.len() - 1) as nat {
                lemma_lpow_mono((out@.len() - 1) as nat, top);
            }
        }
        let prod = limbs_product(&powers[i].power, &hi_v);
        let mut acc = limbs_shift_up(&prod, powers[i].shift);
        proof {
            let pr = pv * hi_val;
            assert(limbs_val(acc@) == lpow(sh) * pr);
            assert(limbs_val(acc@) == hi_val * pw) by (nonlinear_arith)
                requires
                    limbs_val(acc@) == lpow(sh) * (pv * hi_val),
                    pv * lpow(sh) == pw,
            ;
            // the low part is below the power, so it has at most shift + plen limbs
            lemma_lpow_add(plen, sh);
            assert(pw < lpow(plen) * lpow(sh)) by (nonlinear_arith)
                requires
                    pv < lpow(plen),
                    pv * lpow(sh) == pw,
                    lpow(sh) > 0,
            ;
            lemma_normalized_len_bound(lo_v@, plen + sh);
            // and adding it does not overflow the limbs of the product
            assert(hi_val * pw + lo_val < lpow(acc@.len())) by (nonlinear_arith)
                requires
                    lo_val < pw,
                    hi_val < lpow(out_len_hi as nat),
                    pw < lpow(plen) * lpow(sh),
                    lpow(acc@.len()) == lpow(out_len_hi as nat) * lpow(plen) * lpow(sh),
                    pw >= 0,
            {
                assert(hi_val * pw + lo_val < (hi_val + 1) * pw);
                assert((hi_val + 1) * pw <= lpow(out_len_hi as nat) * pw);
            }
            assert(acc@.len() == sh + plen + out_len_hi);
            lemma_lpow_add(sh, (plen + out_len_hi) as nat);
            lemma_lpow_add(plen, out_len_hi as nat);
            assert(lpow(acc@.len()) == lpow(out_len_hi as nat) * lpow(plen) * lpow(sh)) by (nonlinear_arith)
                requires
                    lpow(acc@.len()) == lpow(sh) * lpow((plen + out_len_hi) as nat),
                    lpow((plen + out_len_hi) as nat) == lpow(plen) * lpow(out_len_hi as nat),
            ;
        }
        limbs_add_into(&mut acc, &lo_v);
        normalize_vec(&mut acc);
        acc
    };
    proof {
        assert(limbs_val(acc@) == dval_desc(d, b));
        lemma_normalized_len_bound(acc@, (out@.len() - 1) as nat);
    }
    crate::sub_naive::limbs_copy_into_prefix(out, acc.as_slice());
    Some(acc.len())
}

/// Converts the digits `xs`, most significant first, in base `base` into limbs written to
/// the low limbs of `out`: directly for fewer than `SET_STR_PRECOMPUTE_THRESHOLD` digits,
/// else by divide and conquer over a table of powers. Returns the number of limbs, without
/// high zero limbs, or `None` when some digit is not below `base`. `out` must have room for
/// the largest number with `xs.len()` digits plus one limb.
pub fn _limbs_from_digits_small_base(out: &mut [u32], xs: &[u8], base: u64) -> (r: Option<usize>)
    requires
        2 < base < 256,
        !is_pow2_u64(base),
        xs@.len() > 0,
        xs@.len() * 256 <= usize::MAX,
        old(out)@.len() >= 1,
        npow(base as nat, xs@.len()) <= lpow((old(out)@.len() - 1) as nat),
    ensures
        final(out)@.len() == old(out)@.len(),
        r is None <==> !all_below(u8_digits(xs@), base as nat),
        r matches Some(size) ==> size <= final(out)@.len() && limbs_val(
            final(out)@.subrange(0, size as int),
        ) == dval_desc(u8_digits(xs@), base as nat) && is_normalized(
            final(out)@.subrange(0, size as int),
        ),
{
    let xs_len = xs.len();
    if xs_len < SET_STR_PRECOMPUTE_THRESHOLD {
        _limbs_from_digits_small_base_basecase(out, xs, base)
    } else {
        let chars_per_limb = get_chars_per_limb(base);
        proof {
            assert(chars_per_limb >= 1) by {
                if chars_per_limb == 0 {
                    crate::bases::lemma_npow_one(base as nat);
                }
            }
        }
        proof {
            assert(chars_per_limb >= 2) by {
                if chars_per_limb <= 1 {
                    crate::bases::lemma_npow_one(base as nat);
                    assert(npow(base as nat, 2) == base * npow(base as nat, 1));
                    lemma_npow_mono(base as nat, (chars_per_limb + 1) as nat, 2);
                    assert(base * base <= 255 * 255) by (nonlinear_arith)
                        requires
                            base < 256,
                    ;
                }
            }
            vstd::arithmetic::div_mod::lemma_div_is_ordered_by_denominator(xs_len as int, 2, chars_per_limb as int);
        }
        let len = xs_len / chars_per_limb + 1;
        let (power_len, powers) = _limbs_compute_power_table(len, base, None);
        proof {
            let dpl = powers@[0].digits_in_base;
            crate::power_build::lemma_dpl_unique(base as nat, dpl as nat, chars_per_limb as nat);
            assert(powers@[power_len as int].digits_in_base == halvings(len as nat, 1) * dpl);
            assert(halvings(len as nat, 0) == len);
            assert(halvings(len as nat, 1) == ceil_half(halvings(len as nat, 0)));
            vstd::arithmetic::div_mod::lemma_fundamental_div_mod(xs_len as int, dpl as int);
            assert(xs_len <= 2 * (ceil_half(len as nat) * dpl)) by (nonlinear_arith)
                requires
                    xs_len == dpl * (xs_len / dpl) + xs_len % dpl,
                    xs_len % dpl < dpl,
                    len == xs_len / dpl + 1,
                    ceil_half(len as nat) == (len + 1) / 2,
            ;
            assert forall|j: int|
                1 <= j <= power_len implies (#[trigger] powers@[j]).digits_in_base <= 2
                * powers@[j - 1].digits_in_base by {
                lemma_halvings_double(len as nat, (power_len - j + 1) as nat);
                assert((power_len - (j - 1) + 1) as nat == (power_len - j + 1) as nat + 1);
                let h1 = halvings(len as nat, (power_len - j + 1) as nat);
                let h0 = halvings(len as nat, (power_len - (j - 1) + 1) as nat);
                assert(h1 * dpl <= 2 * (h0 * dpl)) by (nonlinear_arith)
                    requires
                        h1 <= 2 * h0,
                ;
            }
        }
        _limbs_from_digits_small_base_divide_and_conquer(out, xs, base, powers.as_slice(), power_len)
    }
}

} // verus!
