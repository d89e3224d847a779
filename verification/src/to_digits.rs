//! Converting limbs into digits.
use vstd::prelude::*;
use crate::bases::{chars_per_limb_and_big_base, is_limb_power, is_pow2_u64, lemma_npow_mono, lemma_npow_pos, npow};
use crate::digit_specs::{
    all_below, dval_asc, dval_desc, is_digits_asc, lemma_dval_asc_append, lemma_dval_asc_high_zeros,
    lemma_dval_asc_lower, lemma_dval_asc_push, lemma_dval_desc_leading_zeros, lemma_dval_desc_reverse,
    u32_digits, u8_digits,
};
use crate::limbs::{
    is_normalized, lemma_val_bound, lemma_val_high_zeros, lemma_val_normalized_lower, lemma_val_push,
    lemma_val_zero_iff, limbs_val, lpow, radix,
};
use crate::arith::{limbs_div_limb_in_place_mod, limbs_test_zero};

verus! {

/// Pushes the `count` lowest base-`base` digits of `r`, least significant first.
fn push_digit_block(digits: &mut Vec<u32>, r: u32, base: u32, count: usize)
    requires
        base >= 2,
        (r as nat) < npow(base as nat, count as nat),
    ensures
        final(digits)@.len() == old(digits)@.len() + count,
        final(digits)@.subrange(0, old(digits)@.len() as int) == old(digits)@,
        dval_asc(u32_digits(final(digits)@), base as nat) == dval_asc(u32_digits(old(digits)@), base as nat)
            + npow(base as nat, old(digits)@.len()) * (r as nat),
        forall|i: int| old(digits)@.len() <= i < final(digits)@.len() ==> #[trigger] final(digits)@[i] < base,
{
    let ghost o = digits@;
    let ghost b = base as nat;
    let mut cur = r;
    let mut k: usize = 0;
    while k < count
        invariant
            base >= 2,
            b == base as nat,
            k <= count,
            digits@.len() == o.len() + k,
            digits@.subrange(0, o.len() as int) == o,
            (cur as nat) < npow(b, (count - k) as nat),
            dval_asc(u32_digits(digits@), b) + npow(b, digits@.len()) * (cur as nat) == dval_asc(
                u32_digits(o),
                b,
            ) + npow(b, o.len()) * (r as nat),
            forall|i: int| o.len() <= i < digits@.len() ==> #[trigger] digits@[i] < base,
        decreases count - k,
    {
        let d = cur % base;
        let next = cur / base;
        proof {
            let ds = u32_digits(digits@);
            assert(u32_digits(digits@.push(d)) =~= ds.push(d as nat));
            lemma_dval_asc_push(ds, d as nat, b);
            let p = npow(b, digits@.len());
            assert(npow(b, digits@.len() + 1) == b * p);
            vstd::arithmetic::div_mod::lemma_fundamental_div_mod(cur as int, base as int);
            assert(p * (cur as nat) == p * (d as nat) + (b * p) * (next as nat)) by (nonlinear_arith)
                requires
                    cur as int == (base as int) * (next as int) + d as int,
                    b == base as nat,
            ;
            assert(npow(b, (count - k) as nat) == b * npow(b, (count - k - 1) as nat));
            assert((next as nat) < npow(b, (count - k - 1) as nat)) by (nonlinear_arith)
                requires
                    cur as int == (base as int) * (next as int) + d as int,
                    (cur as nat) < b * npow(b, (count - k - 1) as nat),
                    b == base as nat,
                    d >= 0,
            ;
        }
        digits.push(d);
        proof {
            assert(digits@.subrange(0, o.len() as int) =~= o);
        }
        cur = next;
        k += 1;
    }
    proof {
        assert(npow(b, 0) == 1);
        assert(cur == 0);
        assert(npow(b, digits@.len()) * 0 == 0);
    }
}

/// Pushes the base-`base` digits of `r`, least significant first, stopping after the highest
/// digit that is not zero; nothing for zero.
pub(crate) fn push_canonical_digits(digits: &mut Vec<u32>, r: u32, base: u32)
    requires
        base >= 2,
    ensures
        final(digits)@.subrange(0, old(digits)@.len() as int) == old(digits)@,
        final(digits)@.len() >= old(digits)@.len(),
        dval_asc(u32_digits(final(digits)@), base as nat) == dval_asc(u32_digits(old(digits)@), base as nat)
            + npow(base as nat, old(digits)@.len()) * (r as nat),
        forall|i: int| old(digits)@.len() <= i < final(digits)@.len() ==> #[trigger] final(digits)@[i] < base,
        r != 0 ==> final(digits)@.len() > old(digits)@.len() && final(digits)@.last() != 0,
        r == 0 ==> final(digits)@ == old(digits)@,
{
    let ghost o = digits@;
    let ghost b = base as nat;
    let mut cur = r;
    proof {
        assert(digits@.subrange(0, o.len() as int) =~= o);
    }
    while cur != 0
        invariant
            base >= 2,
            b == base as nat,
            digits@.len() >= o.len(),
            digits@.subrange(0, o.len() as int) == o,
            dval_asc(u32_digits(digits@), b) + npow(b, digits@.len()) * (cur as nat) == dval_asc(
                u32_digits(o),
                b,
            ) + npow(b, o.len()) * (r as nat),
            forall|i: int| o.len() <= i < digits@.len() ==> #[trigger] digits@[i] < base,
            digits@.len() > o.len() ==> (cur != 0 || digits@.last() != 0),
            r == 0 ==> digits@ == o && cur == 0,
            r != 0 && digits@.len() == o.len() ==> cur == r,
        decreases cur,
    {
        let d = cur % base;
        let next = cur / base;
        proof {
            let ds = u32_digits(digits@);
            assert(u32_digits(digits@.push(d)) =~= ds.push(d as nat));
            lemma_dval_asc_push(ds, d as nat, b);
            let p = npow(b, digits@.len());
            assert(npow(b, digits@.len() + 1) == b * p);
            vstd::arithmetic::div_mod::lemma_fundamental_div_mod(cur as int, base as int);
            assert(p * (cur as nat) == p * (d as nat) + (b * p) * (next as nat)) by (nonlinear_arith)
                requires
                    cur as int == (base as int) * (next as int) + d as int,
                    b == base as nat,
            ;
            assert((next as int) < (cur as int)) by (nonlinear_arith)
                requires
                    cur as int == (base as int) * (next as int) + d as int,
                    base >= 2,
                    cur >= 1,
                    d >= 0,
                    next >= 0,
            ;
            if next == 0 {
                assert(d == cur) by (nonlinear_arith)
                    requires
                        cur as int == (base as int) * (next as int) + d as int,
                        next == 0,
                ;
            }
        }
        digits.push(d);
        proof {
            assert(digits@.subrange(0, o.len() as int) =~= o);
        }
        cur = next;
    }
    proof {
        assert(npow(b, digits@.len()) * 0 == 0);
        if r == 0 {
            assert(npow(b, o.len()) * 0 == 0);
        }
    }
}

/// The digits in base `base` of the number whose limbs are `xs`, least significant first,
/// without high zero digits.
pub(crate) fn limbs_to_digits_asc_canonical(xs: &[u32], base: u32) -> (r: Vec<u32>)
    requires
        base >= 2,
    ensures
        is_digits_asc(u32_digits(r@), base as nat, limbs_val(xs@)),
{
    let ghost b = base as nat;
    let ghost x = limbs_val(xs@);
    let (dpl, bb) = chars_per_limb_and_big_base(base as u64);
    let mut q: Vec<u32> = crate::sub_naive::limbs_copy_range(xs, 0, xs.len());
    proof {
        assert(q@ =~= xs@);
    }
    normalize_vec(&mut q);
    let mut digits: Vec<u32> = Vec::new();
    proof {
        assert(u32_digits(digits@) =~= Seq::<nat>::empty());
        assert(npow(b, 0) == 1);
        assert(1 * limbs_val(q@) == limbs_val(q@));
        lemma_npow_pos(b, dpl as nat);
        lemma_npow_mono(b, 1, dpl as nat);
        assert(npow(b, 1) == b * npow(b, 0));
    }
    while q.len() > 1
        invariant
            base >= 2,
            b == base as nat,
            is_limb_power(b, dpl as nat, bb as nat),
            bb >= 2,
            is_normalized(q@),
            x == dval_asc(u32_digits(digits@), b) + npow(b, digits@.len()) * limbs_val(q@),
            all_below(u32_digits(digits@), b),
            digits@.len() > 0 ==> limbs_val(q@) > 0,
        decreases limbs_val(q@),
    {
        let ghost qv = limbs_val(q@);
        proof {
            lemma_val_normalized_lower(q@);
            crate::limbs::lemma_lpow_mono(1, (q@.len() - 1) as nat);
            assert(lpow(1) == radix()) by {
                assert(lpow(1) == radix() * lpow(0));
            }
        }
        let r = limbs_div_limb_in_place_mod(q.as_mut_slice(), bb);
        let ghost qn = limbs_val(q@);
        proof {
            // q was at least 2^32 > bb, so the quotient is positive
            assert(qn >= 1) by (nonlinear_arith)
                requires
                    qv == qn * (bb as nat) + (r as nat),
                    qv >= radix(),
                    (r as nat) < bb as nat,
                    (bb as nat) < radix(),
            ;
            assert(qn < qv) by (nonlinear_arith)
                requires
                    qv == qn * (bb as nat) + (r as nat),
                    qn >= 1,
                    bb >= 2,
            ;
        }
        let ghost before = digits@;
        push_digit_block(&mut digits, r, base, dpl);
        proof {
            let p = npow(b, before.len());
            let pb = npow(b, digits@.len());
            crate::bases::lemma_npow_add(b, before.len(), dpl as nat);
            assert(p * qv == p * (r as nat) + (p * (bb as nat)) * qn) by (nonlinear_arith)
                requires
                    qv == qn * (bb as nat) + (r as nat),
            ;
            assert forall|i: int| 0 <= i < digits@.len() implies #[trigger] u32_digits(digits@)[i] < b by {
                if i < before.len() {
                    assert(digits@[i] == before[i]);
                    assert(u32_digits(before)[i] < b);
                }
            }
        }
        normalize_vec(&mut q);
    }
    let r0: u32 = if q.len() == 1 { q[0] } else { 0 };
    proof {
        if q@.len() == 1 {
            crate::natural::lemma_small_val(q@[0]);
            assert(q@ =~= seq![q@[0]]);
        } else {
            assert(q@ =~= Seq::<u32>::empty());
        }
    }
    let ghost before = digits@;
    push_canonical_digits(&mut digits, r0, base);
    proof {
        assert forall|i: int| 0 <= i < digits@.len() implies #[trigger] u32_digits(digits@)[i] < b by {
            if i < before.len() {
                assert(digits@[i] == before[i]);
                assert(u32_digits(before)[i] < b);
            }
        }
        if digits@.len() > 0 {
            assert(u32_digits(digits@).last() == digits@.last() as nat);
        }
    }
    digits
}

/// Removes high zero limbs.
pub(crate) fn normalize_vec(v: &mut Vec<u32>)
    ensures
        limbs_val(final(v)@) == limbs_val(old(v)@),
        is_normalized(final(v)@),
        final(v)@.len() <= old(v)@.len(),
{
    while v.len() > 0 && v[v.len() - 1] == 0
        invariant
            limbs_val(v@) == limbs_val(old(v)@),
            v@.len() <= old(v)@.len(),
        decreases v@.len(),
    {
        let ghost before = v@;
        v.pop();
        proof {
            assert(before =~= v@.push(0));
            lemma_val_push(v@, 0);
            assert(lpow(v@.len()) * 0 == 0) by (nonlinear_arith);
        }
    }
}


/// Operands shorter than this many limbs are converted to digits by the quadratic method.
pub const GET_STR_PRECOMPUTE_THRESHOLD: usize = 29;

/// Appends to `digits` the digits in base `base`, least significant first, of the number
/// whose limbs are `xs`, then removes the zero digits at the high end of `digits`; `xs` is
/// consumed (left zero). The limbs must be at least two.
pub fn _limbs_to_digits_basecase(digits: &mut Vec<u32>, xs: &mut [u32], base: u32)
    requires
        base >= 2,
        old(xs)@.len() > 1,
    ensures
        final(xs)@.len() == old(xs)@.len(),
        limbs_val(final(xs)@) == 0,
        limbs_val(old(xs)@) != 0 ==> {
            &&& final(digits)@.len() >= old(digits)@.len()
            &&& final(digits)@.subrange(0, old(digits)@.len() as int) == old(digits)@
            &&& is_digits_asc(
                u32_digits(final(digits)@.subrange(old(digits)@.len() as int, final(digits)@.len() as int)),
                base as nat,
                limbs_val(old(xs)@),
            )
        },
        limbs_val(old(xs)@) == 0 ==> {
            &&& final(digits)@.len() <= old(digits)@.len()
            &&& final(digits)@ == old(digits)@.subrange(0, final(digits)@.len() as int)
            &&& forall|i: int| final(digits)@.len() <= i < old(digits)@.len() ==> old(digits)@[i] == 0
            &&& (final(digits)@.len() == 0 || final(digits)@.last() != 0)
        },
{
    let ghost b = base as nat;
    let ghost o = digits@;
    let ghost x = limbs_val(xs@);
    let (digits_per_limb, big_base) = chars_per_limb_and_big_base(base as u64);
    proof {
        lemma_npow_mono(b, 1, digits_per_limb as nat);
        assert(npow(b, 0) == 1);
        assert(npow(b, 1) == b * npow(b, 0));
        assert(big_base as nat == npow(b, digits_per_limb as nat));
        assert(digits@.subrange(0, o.len() as int) =~= o);
    }
    while !limbs_test_zero(xs)
        invariant
            base >= 2,
            b == base as nat,
            is_limb_power(b, digits_per_limb as nat, big_base as nat),
            big_base >= 2,
            xs@.len() == old(xs)@.len(),
            x == limbs_val(old(xs)@),
            digits@.len() >= o.len(),
            digits@.subrange(0, o.len() as int) == o,
            dval_asc(u32_digits(digits@), b) + npow(b, digits@.len()) * limbs_val(xs@) == dval_asc(
                u32_digits(o),
                b,
            ) + npow(b, o.len()) * x,
            forall|i: int| o.len() <= i < digits@.len() ==> #[trigger] digits@[i] < base,
            x == 0 ==> digits@ == o,
            x == 0 ==> limbs_val(xs@) == 0,
        decreases limbs_val(xs@),
    {
        let ghost qv = limbs_val(xs@);
        let big_digit = limbs_div_limb_in_place_mod(xs, big_base);
        let ghost qn = limbs_val(xs@);
        let ghost before = digits@;
        proof {
            assert(qn < qv) by (nonlinear_arith)
                requires
                    qv == qn * (big_base as nat) + (big_digit as nat),
                    qv > 0,
                    big_base >= 2,
            ;
        }
        push_digit_block(digits, big_digit, base, digits_per_limb);
        proof {
            crate::bases::lemma_npow_add(b, before.len(), digits_per_limb as nat);
            let p = npow(b, before.len());
            assert(p * qv == p * (big_digit as nat) + (p * (big_base as nat)) * qn) by (nonlinear_arith)
                requires
                    qv == qn * (big_base as nat) + (big_digit as nat),
            ;
            assert(digits@.subrange(0, o.len() as int) =~= before.subrange(0, o.len() as int));
            assert forall|i: int| o.len() <= i < digits@.len() implies #[trigger] digits@[i] < base by {
                if i < before.len() {
                    assert(digits@.subrange(0, before.len() as int)[i] == before[i]);
                }
            }
        }
    }
    // remove the zero digits at the high end
    let mut n = digits.len();
    while n > 0 && digits[n - 1] == 0
        invariant
            n <= digits@.len(),
            forall|i: int| n <= i < digits@.len() ==> digits@[i] == 0,
        decreases n,
    {
        n -= 1;
    }
    let ghost full = digits@;
    proof {
        assert(npow(b, digits@.len()) * 0 == 0);
        let fd = u32_digits(full);
        let c = fd.subrange(o.len() as int, fd.len() as int);
        assert(fd =~= u32_digits(o) + c);
        lemma_dval_asc_append(u32_digits(o), c, b);
        lemma_npow_pos(b, o.len());
        let p = npow(b, o.len());
        assert(dval_asc(c, b) == x) by (nonlinear_arith)
            requires
                p * dval_asc(c, b) == p * x,
                p > 0,
        ;
        if x != 0 {
            // some digit of the new part is not zero, so the trimming stays inside it
            if n <= o.len() {
                lemma_dval_asc_high_zeros(c, 0, b);
                assert(c.subrange(0, 0) =~= Seq::<nat>::empty());
                assert forall|i: int| 0 <= i < c.len() implies c[i] == 0 by {
                    assert(full[o.len() + i] == 0);
                }
                assert(false);
            }
            let k = n - o.len();
            assert forall|i: int| k <= i < c.len() implies c[i] == 0 by {
                assert(full[o.len() + i] == 0);
            }
            lemma_dval_asc_high_zeros(c, k, b);
            assert(u32_digits(full.subrange(0, n as int).subrange(o.len() as int, n as int)) =~= c.subrange(0, k));
            assert(full.subrange(0, n as int)[n - 1] != 0);
        } else {
            assert(full == o);
        }
    }
    digits.truncate(n);
    proof {
        assert(digits@ =~= full.subrange(0, n as int));
        if x != 0 {
            assert(digits@.subrange(0, o.len() as int) =~= o);
            let c = u32_digits(digits@.subrange(o.len() as int, digits@.len() as int));
            assert forall|i: int| 0 <= i < c.len() implies #[trigger] c[i] < b by {
                assert(c[i] == full[o.len() + i] as nat);
            }
            if c.len() > 0 {
                assert(c.last() == digits@[n - 1] as nat);
            }
        }
    }
}

/// Writes to `out` the digits in base `base`, most significant first, of the number whose
/// limbs are `xs`, padded with zeros at the front to `len` digits; when `len` is zero, as many
/// digits as the number needs. Returns the number of digits written. Quadratic; for operands
/// of fewer than `GET_STR_PRECOMPUTE_THRESHOLD` limbs.
#[verifier::rlimit(50)]
pub fn _limbs_to_digits_small_base_basecase(out: &mut [u8], len: usize, xs: &[u32], base: u64) -> (r: usize)
    requires
        2 < base < 256,
        old(out)@.len() >= len,
        xs@.len() < GET_STR_PRECOMPUTE_THRESHOLD,
        limbs_val(xs@) < npow(base as nat, old(out)@.len()),
        len == 0 || limbs_val(xs@) < npow(base as nat, len as nat),
    ensures
        final(out)@.len() == old(out)@.len(),
        r <= final(out)@.len(),
        len > 0 ==> r == len,
        all_below(u8_digits(final(out)@.subrange(0, r as int)), base as nat),
        dval_desc(u8_digits(final(out)@.subrange(0, r as int)), base as nat) == limbs_val(xs@),
        len == 0 ==> r == 0 || final(out)@[0] != 0,
        final(out)@.subrange(r as int, final(out)@.len() as int) == old(out)@.subrange(
            r as int,
            old(out)@.len() as int,
        ),
{
    let ghost b = base as nat;
    let ghost x = limbs_val(xs@);
    let digits = limbs_to_digits_asc_canonical(xs, base as u32);
    let ghost dg = u32_digits(digits@);
    let nonzero_len = digits.len();
    proof {
        // the number of digits fits in out, and in len when len is given
        if nonzero_len > 0 {
            assert(dg.last() == digits@.last() as nat);
            lemma_dval_asc_lower(dg, b);
            if nonzero_len > old(out)@.len() {
                lemma_npow_mono(b, old(out)@.len(), (nonzero_len - 1) as nat);
            }
            if len > 0 && nonzero_len > len {
                lemma_npow_mono(b, len as nat, (nonzero_len - 1) as nat);
            }
        }
    }
    let zero_len: usize = if len > nonzero_len { len - nonzero_len } else { 0 };
    let total = zero_len + nonzero_len;
    let mut k: usize = 0;
    while k < zero_len
        invariant
            zero_len + nonzero_len <= out@.len(),
            out@.len() == old(out)@.len(),
            k <= zero_len,
            forall|i: int| 0 <= i < k ==> out@[i] == 0,
            forall|i: int| zero_len <= i < out@.len() ==> out@[i] == old(out)@[i],
        decreases zero_len - k,
    {
        out[k] = 0;
        k += 1;
    }
    let mut j: usize = 0;
    while j < nonzero_len
        invariant
            zero_len + nonzero_len <= out@.len(),
            total == zero_len + nonzero_len,
            out@.len() == old(out)@.len(),
            nonzero_len == digits@.len(),
            j <= nonzero_len,
            forall|i: int| 0 <= i < zero_len ==> out@[i] == 0,
            forall|i: int|
                zero_len <= i < zero_len + j ==> #[trigger] out@[i] as nat == digits@[nonzero_len - 1
                    - (i - zero_len)] as nat,
            forall|i: int| zero_len + nonzero_len <= i < out@.len() ==> out@[i] == old(out)@[i],
            all_below(u32_digits(digits@), base as nat),
            2 < base < 256,
        decreases nonzero_len - j,
    {
        let d = digits[nonzero_len - 1 - j];
        proof {
            assert(u32_digits(digits@)[nonzero_len - 1 - j] < base as nat);
        }
        out[zero_len + j] = d as u8;
        j += 1;
    }
    proof {
        let t = u8_digits(out@.subrange(0, total as int));
        let zs = t.subrange(0, zero_len as int);
        let ds = t.subrange(zero_len as int, total as int);
        assert(t =~= zs + ds);
        assert(ds =~= dg.reverse());
        lemma_dval_desc_leading_zeros(zs, ds, b);
        lemma_dval_desc_reverse(ds, b);
        assert(ds.reverse() =~= dg);
        assert forall|i: int| 0 <= i < t.len() implies #[trigger] t[i] < b by {
            if i >= zero_len {
                assert(t[i] == dg[nonzero_len - 1 - (i - zero_len)]);
            }
        }
        if len == 0 && total > 0 {
            assert(zero_len == 0);
            assert(t[0] == dg[nonzero_len - 1]);
            assert(dg.last() == digits@.last() as nat);
        }
        assert(out@.subrange(total as int, out@.len() as int) =~= old(out)@.subrange(total as int, old(out)@.len() as int));
    }
    total
}

} // verus!
