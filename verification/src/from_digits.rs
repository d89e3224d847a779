//! Converting digits, most significant first, into limbs.
use vstd::prelude::*;
use crate::bases::{
    chars_per_limb_and_big_base, is_limb_power, is_pow2_u64, lemma_npow_mono, lemma_npow_pos, npow,
};
use crate::digit_specs::{
    all_below, dval_desc, lemma_dval_desc_append, lemma_dval_desc_bound, lemma_dval_desc_push,
    lemma_u8_digits_subrange, u8_digits,
};
use crate::limbs::{
    is_normalized, lemma_lpow_mono, lemma_lpow_pos, lemma_val_bound, lemma_val_normalized_lower,
    lemma_val_prefix_step, limbs_val, lpow,
};
use crate::arith::{limbs_slice_add_limb_in_place, limbs_slice_mul_limb_in_place};

verus! {

/// A limb sequence whose value reaches the weight of its top limb has a top limb that is not
/// zero.
pub proof fn lemma_top_limb_nonzero(s: Seq<u32>)
    requires
        s.len() > 0,
        limbs_val(s) >= lpow((s.len() - 1) as nat),
    ensures
        s.last() != 0,
{
    if s.last() == 0 {
        lemma_val_bound(s.drop_last());
        assert(lpow((s.len() - 1) as nat) * 0 == 0);
    }
}

/// A normalized limb sequence whose value is below 2^(32 m) has at most `m` limbs.
pub proof fn lemma_normalized_len_bound(s: Seq<u32>, m: nat)
    requires
        is_normalized(s),
        limbs_val(s) < lpow(m),
    ensures
        s.len() <= m,
{
    if s.len() > m {
        lemma_val_normalized_lower(s);
        lemma_lpow_mono(m, (s.len() - 1) as nat);
    }
}

/// Reads the digits `xs[start..end]` as one number in base `base`, and returns it with
/// `base` raised to the number of digits; `None` when some digit is not below `base`.
pub(crate) fn chunk_value(xs: &[u8], start: usize, end: usize, base: u64) -> (r: Option<(u32, u32)>)
    requires
        start <= end <= xs@.len(),
        2 <= base < 256,
        npow(base as nat, (end - start) as nat) <= 4294967295,
    ensures
        r is None <==> !all_below(u8_digits(xs@).subrange(start as int, end as int), base as nat),
        r matches Some(p) ==> p.0 as nat == dval_desc(
            u8_digits(xs@).subrange(start as int, end as int),
            base as nat,
        ) && p.1 as nat == npow(base as nat, (end - start) as nat),
{
    let ghost d = u8_digits(xs@);
    let mut y: u32 = 0;
    let mut p: u32 = 1;
    let mut j = start;
    proof {
        assert(d.subrange(start as int, start as int) =~= Seq::<nat>::empty());
    }
    while j < end
        invariant
            start <= j <= end <= xs@.len(),
            d == u8_digits(xs@),
            2 <= base < 256,
            npow(base as nat, (end - start) as nat) <= 4294967295,
            all_below(d.subrange(start as int, j as int), base as nat),
            y as nat == dval_desc(d.subrange(start as int, j as int), base as nat),
            p as nat == npow(base as nat, (j - start) as nat),
        decreases end - j,
    {
        let x = xs[j];
        if (x as u64) >= base {
            proof {
                assert(d.subrange(start as int, end as int)[j - start] == x as nat);
            }
            return None;
        }
        proof {
            lemma_dval_desc_bound(d.subrange(start as int, j as int), base as nat);
            lemma_npow_mono(base as nat, (j + 1 - start) as nat, (end - start) as nat);
            assert(npow(base as nat, (j + 1 - start) as nat) == base * npow(
                base as nat,
                (j - start) as nat,
            ));
            let yy = y as nat;
            let bb = base as nat;
            let pp = p as nat;
            assert(yy * bb + (x as nat) < bb * pp) by (nonlinear_arith)
                requires
                    yy < pp,
                    (x as nat) < bb,
            ;
            assert(pp * bb == bb * pp) by (nonlinear_arith);
            assert(d.subrange(start as int, j + 1) =~= d.subrange(start as int, j as int).push(
                x as nat,
            ));
            lemma_dval_desc_push(d.subrange(start as int, j as int), x as nat, base as nat);
        }
        y = y * (base as u32) + (x as u32);
        p = p * (base as u32);
        j += 1;
    }
    Some((y, p))
}

/// Replaces the normalized `size` low limbs of `out` by the limbs of their value times
/// `mult` plus `y`, and returns the new normalized length. Limbs above the new length are
/// left alone except possibly the one at `size`.
fn limbs_mul_add_normalized(out: &mut [u32], size: usize, mult: u32, y: u32) -> (new_size: usize)
    requires
        size < old(out)@.len(),
        mult >= 1,
        is_normalized(old(out)@.subrange(0, size as int)),
    ensures
        final(out)@.len() == old(out)@.len(),
        new_size <= size + 1,
        limbs_val(final(out)@.subrange(0, new_size as int)) == limbs_val(
            old(out)@.subrange(0, size as int),
        ) * (mult as nat) + (y as nat),
        is_normalized(final(out)@.subrange(0, new_size as int)),
{
    let ghost v = limbs_val(old(out)@.subrange(0, size as int));
    if size == 0 {
        proof {
            assert(old(out)@.subrange(0, 0) =~= Seq::<u32>::empty());
            assert(v == 0);
            assert(0 * (mult as nat) == 0);
        }
        if y != 0 {
            out[0] = y;
            proof {
                assert(out@.subrange(0, 1) =~= seq![y]);
                crate::natural::lemma_small_val(y);
            }
            return 1;
        } else {
            proof {
                assert(out@.subrange(0, 0) =~= Seq::<u32>::empty());
            }
            return 0;
        }
    }
    let ghost o = out@;
    let (init, rest) = out.split_at_mut(size);
    let ghost i0 = init@;
    let c1 = limbs_slice_mul_limb_in_place(init, mult);
    let ghost i1 = init@;
    let c2 = limbs_slice_add_limb_in_place(init, y);
    let ghost i2 = init@;
    proof {
        assert(i0 == o.subrange(0, size as int));
        let n = size as nat;
        let p = lpow(n);
        lemma_val_bound(i0);
        lemma_val_bound(i1);
        lemma_lpow_pos(n);
        let a = limbs_val(i1) as int;
        let cc1 = c1 as int;
        let m = mult as int;
        assert(v * m < p * m) by (nonlinear_arith)
            requires
                v < p,
                m >= 1,
                v >= 0,
        ;
        assert(cc1 < m) by (nonlinear_arith)
            requires
                a + p * cc1 == v * m,
                v * m < p * m,
                a >= 0,
                p > 0,
        ;
    }
    let carry: u32 = if c2 { c1 + 1 } else { c1 };
    proof {
        let n = size as nat;
        let p = lpow(n) as int;
        let a = limbs_val(i1) as int;
        let t = a + y as int;
        if c2 {
            crate::limbs::lemma_div_mod_pair(t, p, 1, t - p);
        } else {
            crate::limbs::lemma_div_mod_pair(t, p, 0, t);
        }
        assert(limbs_val(i2) + p * (carry as int) == v * (mult as int) + y as int) by (nonlinear_arith)
            requires
                limbs_val(i2) == t - (if c2 { p } else { 0 }),
                t == a + y as int,
                a + p * (c1 as int) == v * (mult as int),
                carry as int == c1 as int + (if c2 { 1int } else { 0int }),
        ;
    }
    proof {
        assert(out@ == i2 + rest@);
        assert(out@.subrange(0, size as int) =~= i2);
    }
    if carry != 0 {
        let ghost before = out@;
        out[size] = carry;
        proof {
            assert(out@.subrange(0, size as int) =~= before.subrange(0, size as int));
            lemma_val_prefix_step(out@, size as int);
            assert(out@.subrange(0, size + 1)[size as int] == carry);
        }
        size + 1
    } else {
        proof {
            let s2 = out@.subrange(0, size as int);
            lemma_val_normalized_lower(o.subrange(0, size as int));
            let p = lpow(size as nat) as int;
            assert(p * 0 == 0);
            assert(limbs_val(s2) >= v) by (nonlinear_arith)
                requires
                    limbs_val(s2) == v * (mult as int) + y as int,
                    mult >= 1,
                    v >= 0,
            ;
            lemma_top_limb_nonzero(s2);
        }
        size
    }
}

/// Converts the digits `xs`, most significant first, in base `base` into limbs written to
/// the low limbs of `out`. Returns the number of limbs, without high zero limbs, or `None`
/// when some digit is not below `base`. `out` must have room for the largest number with
/// `xs.len()` digits plus one limb.
pub fn _limbs_from_digits_small_base_basecase(out: &mut [u32], xs: &[u8], base: u64) -> (r: Option<usize>)
    requires
        2 < base < 256,
        !is_pow2_u64(base),
        xs@.len() > 0,
        old(out)@.len() >= 1,
        npow(base as nat, xs@.len()) <= lpow((old(out)@.len() - 1) as nat),
    ensures
        final(out)@.len() == old(out)@.len(),
        r is None <==> !all_below(u8_digits(xs@), base as nat),
        r matches Some(size) ==> size <= final(out)@.len() && limbs_val(
            final(out)@.subrange(0, size as int),
        ) == dval_desc(u8_digits(xs@), base as nat) && is_normalized(
            final(out)@.subrange(0, size as int),
        ),
{
    let ghost d = u8_digits(xs@);
    let xs_len = xs.len();
    let (digits_per_limb, big_base) = chars_per_limb_and_big_base(base);
    let ghost m = out@.len();
    let mut size: usize = 0;
    let mut i: usize = 0;
    proof {
        assert(d.subrange(0, 0) =~= Seq::<nat>::empty());
        assert(out@.subrange(0, 0) =~= Seq::<u32>::empty());
        lemma_npow_pos(base as nat, xs_len as nat);
    }
    proof {
        lemma_npow_pos(base as nat, digits_per_limb as nat);
    }
    while digits_per_limb < xs_len - i
        invariant
            m == old(out)@.len(),
            big_base >= 1,
            d == u8_digits(xs@),
            xs_len == xs@.len(),
            2 < base < 256,
            1 <= digits_per_limb <= 32,
            is_limb_power(base as nat, digits_per_limb as nat, big_base as nat),
            m == out@.len(),
            m >= 1,
            npow(base as nat, xs_len as nat) <= lpow((m - 1) as nat),
            i <= xs_len - 1,
            all_below(d.subrange(0, i as int), base as nat),
            limbs_val(out@.subrange(0, size as int)) == dval_desc(d.subrange(0, i as int), base as nat),
            is_normalized(out@.subrange(0, size as int)),
            size <= m,
        decreases xs_len - i,
    {
        let end = i + digits_per_limb;
        let chunk = chunk_value(xs, i, end, base);
        let ghost c = d.subrange(i as int, end as int);
        proof {
            lemma_u8_digits_subrange(xs@, i as int, end as int);
            assert(d.subrange(0, end as int) =~= d.subrange(0, i as int) + c);
        }
        match chunk {
            None => {
                proof {
                    let k = choose|k: int| 0 <= k < c.len() && !(#[trigger] c[k] < base as nat);
                    assert(d[i + k] == c[k]);
                }
                return None;
            },
            Some((y, _)) => {
                proof {
                    // the value so far is below the weight of the top limb of out
                    lemma_dval_desc_bound(d.subrange(0, i as int), base as nat);
                    lemma_npow_mono(base as nat, i as nat, xs_len as nat);
                    lemma_normalized_len_bound(out@.subrange(0, size as int), (m - 1) as nat);
                }
                let ghost before = out@;
                size = limbs_mul_add_normalized(out, size, big_base, y);
                proof {
                    lemma_dval_desc_append(d.subrange(0, i as int), c, base as nat);
                    assert(all_below(d.subrange(0, end as int), base as nat)) by {
                        assert forall|k: int| 0 <= k < end implies #[trigger] d.subrange(0, end as int)[k] < base as nat by {
                            if k < i {
                                assert(d.subrange(0, i as int)[k] == d[k]);
                            } else {
                                assert(c[k - i] == d[k]);
                            }
                        }
                    }
                }
                i = end;
            },
        }
    }
    // the last 1..=digits_per_limb digits
    proof {
        lemma_npow_mono(base as nat, (xs_len - i) as nat, digits_per_limb as nat);
    }
    let tail = chunk_value(xs, i, xs_len, base);
    let ghost c = d.subrange(i as int, xs_len as int);
    proof {
        lemma_u8_digits_subrange(xs@, i as int, xs_len as int);
        assert(d =~= d.subrange(0, i as int) + c);
        assert(d.subrange(0, xs_len as int) =~= d);
    }
    match tail {
        None => {
            proof {
                let k = choose|k: int| 0 <= k < c.len() && !(#[trigger] c[k] < base as nat);
                assert(d[i + k] == c[k]);
            }
            None
        },
        Some((y, mult)) => {
            proof {
                lemma_dval_desc_bound(d.subrange(0, i as int), base as nat);
                lemma_npow_mono(base as nat, i as nat, xs_len as nat);
                lemma_normalized_len_bound(out@.subrange(0, size as int), (m - 1) as nat);
                lemma_npow_pos(base as nat, (xs_len - i) as nat);
            }
            size = limbs_mul_add_normalized(out, size, mult, y);
            proof {
                lemma_dval_desc_append(d.subrange(0, i as int), c, base as nat);
                assert(all_below(d, base as nat)) by {
                    assert forall|k: int| 0 <= k < xs_len implies #[trigger] d[k] < base as nat by {
                        if k < i {
                            assert(d.subrange(0, i as int)[k] == d[k]);
                        } else {
                            assert(c[k - i] == d[k]);
                        }
                    }
                }
                lemma_dval_desc_bound(d, base as nat);
                lemma_normalized_len_bound(out@.subrange(0, size as int), (m - 1) as nat);
            }
            Some(size)
        },
    }
}

} // verus!
