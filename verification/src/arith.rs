//! Limb-slice arithmetic: adding a limb, subtracting slices, multiplying and
//! dividing by a limb, and schoolbook multiplication.
use vstd::prelude::*;
use crate::limbs::{
    lemma_div_mod_pair, lemma_lpow_add, lemma_lpow_pos, lemma_update_keeps_range,
    lemma_update_keeps_suffix, lemma_val_bound, lemma_val_cons, lemma_val_prefix_step,
    lemma_val_push, lemma_val_split, lemma_val_zero_iff, lemma_val_zeros, lemma_weighted_step, limbs_val, lpow,
    radix,
};

verus! {

/// Whether every limb of `xs` is zero.
pub fn limbs_test_zero(xs: &[u32]) -> (r: bool)
    ensures
        r <==> (forall|i: int| 0 <= i < xs@.len() ==> xs@[i] == 0),
        r <==> limbs_val(xs@) == 0,
{
    proof {
        lemma_val_zero_iff(xs@);
    }
    let mut i: usize = 0;
    while i < xs.len()
        invariant
            i <= xs@.len(),
            forall|j: int| 0 <= j < i ==> xs@[j] == 0,
        decreases xs@.len() - i,
    {
        if xs[i] != 0 {
            proof {
                lemma_val_zero_iff(xs@);
                assert(!(forall|j: int| 0 <= j < xs@.len() ==> xs@[j] == 0));
            }
            return false;
        }
        i += 1;
    }
    true
}

/// Adds `y` to the limbs of `xs` in place. Returns whether the sum does not fit in
/// `xs.len()` limbs; the limbs then hold the sum modulo 2^(32 len).
pub fn limbs_slice_add_limb_in_place(xs: &mut [u32], y: u32) -> (carry: bool)
    ensures
        final(xs)@.len() == old(xs)@.len(),
        limbs_val(final(xs)@) == (limbs_val(old(xs)@) + y) % (lpow(old(xs)@.len()) as int),
        carry <==> limbs_val(old(xs)@) + y >= lpow(old(xs)@.len()),
{
    let n = xs.len();
    let mut c: u32 = y;
    let mut i: usize = 0;
    proof {
        let yy = y as nat;
        assert(lpow(0) * yy == yy) by (nonlinear_arith)
            requires
                lpow(0) == 1,
        ;
    }
    while i < n
        invariant
            n == xs@.len(),
            n == old(xs)@.len(),
            i <= n,
            i > 0 ==> c <= 1,
            i == 0 ==> c == y,
            xs@.subrange(i as int, n as int) == old(xs)@.subrange(i as int, n as int),
            limbs_val(xs@.subrange(0, i as int)) + lpow(i as nat) * (c as nat) == limbs_val(
                old(xs)@.subrange(0, i as int),
            ) + y,
        decreases n - i,
    {
        let ghost prev = xs@;
        let x = xs[i];
        let t: u64 = x as u64 + c as u64;
        let nc: u32;
        if t >= 4294967296 {
            xs[i] = (t - 4294967296) as u32;
            nc = 1;
        } else {
            xs[i] = t as u32;
            nc = 0;
        }
        proof {
            assert(xs@.subrange(0, i as int) =~= prev.subrange(0, i as int));
            assert forall|k: int| i + 1 <= k < n implies xs@[k] == old(xs)@[k] by {
                assert(old(xs)@.subrange(i as int, n as int)[k - i] == prev.subrange(
                    i as int,
                    n as int,
                )[k - i]);
            }
            assert(xs@.subrange(i + 1, n as int) =~= old(xs)@.subrange(i + 1, n as int));
            assert(old(xs)@[i as int] == x) by {
                assert(old(xs)@.subrange(i as int, n as int)[0] == prev.subrange(
                    i as int,
                    n as int,
                )[0]);
            }
            lemma_val_prefix_step(xs@, i as int);
            lemma_val_prefix_step(old(xs)@, i as int);
            lemma_weighted_step(
                lpow(i as nat),
                xs@[i as int] as int,
                nc as int,
                x as int,
                c as int,
            );
        }
        c = nc;
        i += 1;
    }
    proof {
        assert(xs@.subrange(0, n as int) =~= xs@);
        assert(old(xs)@.subrange(0, n as int) =~= old(xs)@);
        lemma_val_bound(xs@);
        lemma_lpow_pos(n as nat);
        lemma_div_mod_pair(
            limbs_val(old(xs)@) + y,
            lpow(n as nat) as int,
            c as int,
            limbs_val(xs@) as int,
        );
    }
    c != 0
}


/// Writes the sum of the limbs of `xs` and `y` to the low `xs.len()` limbs of `out`, leaving
/// the rest of `out` alone. Returns whether the sum does not fit in `xs.len()` limbs.
pub fn limbs_add_limb_to_out(out: &mut [u32], xs: &[u32], y: u32) -> (carry: bool)
    requires
        old(out)@.len() >= xs@.len(),
    ensures
        final(out)@.len() == old(out)@.len(),
        limbs_val(final(out)@.subrange(0, xs@.len() as int)) == (limbs_val(xs@) + y) % (lpow(
            xs@.len(),
        ) as int),
        final(out)@.subrange(xs@.len() as int, old(out)@.len() as int) == old(out)@.subrange(
            xs@.len() as int,
            old(out)@.len() as int,
        ),
        carry <==> limbs_val(xs@) + y >= lpow(xs@.len()),
{
    let n = xs.len();
    let m = out.len();
    let mut c: u32 = y;
    let mut i: usize = 0;
    proof {
        let yy = y as nat;
        assert(lpow(0) * yy == yy) by (nonlinear_arith)
            requires
                lpow(0) == 1,
        ;
        assert(out@.subrange(0, 0) =~= xs@.subrange(0, 0));
    }
    while i < n
        invariant
            n == xs@.len(),
            m == out@.len(),
            m == old(out)@.len(),
            i <= n <= m,
            i > 0 ==> c <= 1,
            i == 0 ==> c == y,
            out@.subrange(i as int, m as int) == old(out)@.subrange(i as int, m as int),
            limbs_val(out@.subrange(0, i as int)) + lpow(i as nat) * (c as nat) == limbs_val(
                xs@.subrange(0, i as int),
            ) + y,
        decreases n - i,
    {
        let ghost prev = out@;
        let x = xs[i];
        let t: u64 = x as u64 + c as u64;
        let nc: u32;
        let v: u32;
        if t >= 4294967296 {
            v = (t - 4294967296) as u32;
            nc = 1;
        } else {
            v = t as u32;
            nc = 0;
        }
        out[i] = v;
        proof {
            lemma_update_keeps_suffix(old(out)@, prev, i as int, v);
            lemma_update_keeps_range(prev, i as int, v, (i + 1) as int, m as int);
            assert(out@ == prev.update(i as int, v));
            lemma_val_prefix_step(out@, i as int);
            lemma_val_prefix_step(xs@, i as int);
            lemma_weighted_step(lpow(i as nat), v as int, nc as int, x as int, c as int);
        }
        c = nc;
        i += 1;
    }
    proof {
        assert(xs@.subrange(0, n as int) =~= xs@);
        lemma_val_bound(out@.subrange(0, n as int));
        lemma_lpow_pos(n as nat);
        lemma_div_mod_pair(
            limbs_val(xs@) + y,
            lpow(n as nat) as int,
            c as int,
            limbs_val(out@.subrange(0, n as int)) as int,
        );
    }
    c != 0
}

/// Returns the limbs of the sum of the limbs of `xs` and `y`; the result is one limb longer
/// than `xs` exactly when the sum does not fit in `xs.len()` limbs.
pub fn limbs_add_limb(xs: &[u32], y: u32) -> (r: Vec<u32>)
    ensures
        limbs_val(r@) == limbs_val(xs@) + y,
        r@.len() == xs@.len() + (if limbs_val(xs@) + y >= lpow(xs@.len()) {
            1int
        } else {
            0int
        }),
{
    let n = xs.len();
    let mut out: Vec<u32> = Vec::new();
    let mut c: u32 = y;
    let mut i: usize = 0;
    proof {
        let yy = y as nat;
        assert(lpow(0) * yy == yy) by (nonlinear_arith)
            requires
                lpow(0) == 1,
        ;
        assert(out@ =~= xs@.subrange(0, 0));
    }
    while i < n
        invariant
            n == xs@.len(),
            out@.len() == i,
            i <= n,
            i > 0 ==> c <= 1,
            i == 0 ==> c == y,
            limbs_val(out@) + lpow(i as nat) * (c as nat) == limbs_val(xs@.subrange(0, i as int))
                + y,
        decreases n - i,
    {
        let x = xs[i];
        let t: u64 = x as u64 + c as u64;
        let nc: u32;
        let v: u32;
        if t >= 4294967296 {
            v = (t - 4294967296) as u32;
            nc = 1;
        } else {
            v = t as u32;
            nc = 0;
        }
        proof {
            lemma_val_push(out@, v);
            lemma_val_prefix_step(xs@, i as int);
            lemma_weighted_step(lpow(i as nat), v as int, nc as int, x as int, c as int);
        }
        out.push(v);
        c = nc;
        i += 1;
    }
    proof {
        assert(xs@.subrange(0, n as int) =~= xs@);
        lemma_val_bound(out@);
        lemma_lpow_pos(n as nat);
        lemma_div_mod_pair(limbs_val(xs@) + y, lpow(n as nat) as int, c as int, limbs_val(out@) as int);
        lemma_val_push(out@, c);
    }
    if c != 0 {
        out.push(c);
    }
    out
}

/// Adds `y` to the limbs of the nonempty `xs`, appending a limb when the sum needs one.
pub fn limbs_vec_add_limb_in_place(xs: &mut Vec<u32>, y: u32)
    requires
        old(xs)@.len() > 0,
    ensures
        limbs_val(final(xs)@) == limbs_val(old(xs)@) + y,
        final(xs)@.len() == old(xs)@.len() + (if limbs_val(old(xs)@) + y >= lpow(old(xs)@.len()) {
            1int
        } else {
            0int
        }),
{
    let ghost o = xs@;
    let carry = limbs_slice_add_limb_in_place(xs.as_mut_slice(), y);
    proof {
        lemma_val_bound(o);
        lemma_lpow_pos(o.len());
        if carry {
            assert(limbs_val(o) + y < 2 * lpow(o.len())) by {
                lemma_lpow_pos(o.len());
                assert(y < radix());
                assert(lpow(o.len()) >= radix()) by {
                    crate::limbs::lemma_lpow_mono(1, o.len());
                }
            }
            lemma_div_mod_pair(limbs_val(o) + y, lpow(o.len()) as int, 1, limbs_val(o) + y - lpow(o.len()));
            lemma_val_push(xs@, 1);
        } else {
            lemma_div_mod_pair(limbs_val(o) + y, lpow(o.len()) as int, 0, limbs_val(o) + y);
        }
    }
    if carry {
        xs.push(1);
    }
}

/// Subtracts the limbs of `ys` from those of the same-length `xs` in place. Returns whether
/// a borrow out of the top limb occurred, which happens exactly when `ys` is larger; the limbs
/// then hold the difference modulo 2^(32 len).
pub fn limbs_sub_same_length_in_place_left(xs: &mut [u32], ys: &[u32]) -> (borrow: bool)
    requires
        old(xs)@.len() == ys@.len(),
    ensures
        final(xs)@.len() == old(xs)@.len(),
        limbs_val(final(xs)@) + limbs_val(ys@) == limbs_val(old(xs)@) + (if borrow {
            lpow(ys@.len())
        } else {
            0
        }),
        borrow <==> limbs_val(old(xs)@) < limbs_val(ys@),
{
    let n = xs.len();
    let mut bw: u32 = 0;
    let mut i: usize = 0;
    proof {
        assert(lpow(0) * 0 == 0);
    }
    while i < n
        invariant
            n == xs@.len(),
            n == ys@.len(),
            n == old(xs)@.len(),
            i <= n,
            bw <= 1,
            xs@.subrange(i as int, n as int) == old(xs)@.subrange(i as int, n as int),
            limbs_val(xs@.subrange(0, i as int)) + limbs_val(ys@.subrange(0, i as int))
                == limbs_val(old(xs)@.subrange(0, i as int)) + lpow(i as nat) * (bw as nat),
        decreases n - i,
    {
        let ghost prev = xs@;
        let x = xs[i];
        let y = ys[i];
        let v: u32;
        let nb: u32;
        if (x as u64) >= (y as u64) + (bw as u64) {
            v = x - y - bw;
            nb = 0;
        } else {
            v = ((x as u64 + 4294967296) - (y as u64) - (bw as u64)) as u32;
            nb = 1;
        }
        xs[i] = v;
        proof {
            lemma_update_keeps_suffix(old(xs)@, prev, i as int, v);
            lemma_val_prefix_step(xs@, i as int);
            lemma_val_prefix_step(ys@, i as int);
            lemma_val_prefix_step(old(xs)@, i as int);
            let p = lpow(i as nat);
            let vv = v as int;
            let yy = y as int;
            let xx = x as int;
            let b0 = bw as int;
            let b1 = nb as int;
            assert(p * vv + p * yy + p * b0 == p * xx + (radix() * p) * b1) by (nonlinear_arith)
                requires
                    vv + yy + b0 == xx + radix() * b1,
            ;
        }
        bw = nb;
        i += 1;
    }
    proof {
        assert(xs@.subrange(0, n as int) =~= xs@);
        assert(ys@.subrange(0, n as int) =~= ys@);
        assert(old(xs)@.subrange(0, n as int) =~= old(xs)@);
        lemma_val_bound(xs@);
        let p = lpow(n as nat);
        let b = bw as int;
        assert(p * b == if b == 1 { p as int } else { 0 }) by (nonlinear_arith)
            requires
                b == 0 || b == 1,
        ;
    }
    bw != 0
}

/// Adds the limbs of `ys` to those of the same-length `xs` in place. Returns whether the sum
/// does not fit in `xs.len()` limbs; the limbs then hold the sum modulo 2^(32 len).
pub fn limbs_slice_add_same_length_in_place_left(xs: &mut [u32], ys: &[u32]) -> (carry: bool)
    requires
        old(xs)@.len() == ys@.len(),
    ensures
        final(xs)@.len() == old(xs)@.len(),
        limbs_val(final(xs)@) + (if carry {
            lpow(ys@.len())
        } else {
            0
        }) == limbs_val(old(xs)@) + limbs_val(ys@),
        carry <==> limbs_val(old(xs)@) + limbs_val(ys@) >= lpow(ys@.len()),
{
    let n = xs.len();
    let mut c: u32 = 0;
    let mut i: usize = 0;
    proof {
        assert(lpow(0) * 0 == 0);
    }
    while i < n
        invariant
            n == xs@.len(),
            n == ys@.len(),
            n == old(xs)@.len(),
            i <= n,
            c <= 1,
            xs@.subrange(i as int, n as int) == old(xs)@.subrange(i as int, n as int),
            limbs_val(xs@.subrange(0, i as int)) + lpow(i as nat) * (c as nat) == limbs_val(
                old(xs)@.subrange(0, i as int),
            ) + limbs_val(ys@.subrange(0, i as int)),
        decreases n - i,
    {
        let ghost prev = xs@;
        let x = xs[i];
        let y = ys[i];
        let t: u64 = x as u64 + y as u64 + c as u64;
        let v: u32;
        let nc: u32;
        if t >= 4294967296 {
            v = (t - 4294967296) as u32;
            nc = 1;
        } else {
            v = t as u32;
            nc = 0;
        }
        xs[i] = v;
        proof {
            lemma_update_keeps_suffix(old(xs)@, prev, i as int, v);
            lemma_val_prefix_step(xs@, i as int);
            lemma_val_prefix_step(ys@, i as int);
            lemma_val_prefix_step(old(xs)@, i as int);
            let p = lpow(i as nat);
            let vv = v as int;
            let yy = y as int;
            let xx = x as int;
            let c0 = c as int;
            let c1 = nc as int;
            assert(p * vv + (radix() * p) * c1 == p * xx + p * yy + p * c0) by (nonlinear_arith)
                requires
                    vv + radix() * c1 == xx + yy + c0,
            ;
        }
        c = nc;
        i += 1;
    }
    proof {
        assert(xs@.subrange(0, n as int) =~= xs@);
        assert(ys@.subrange(0, n as int) =~= ys@);
        assert(old(xs)@.subrange(0, n as int) =~= old(xs)@);
        lemma_val_bound(xs@);
        let p = lpow(n as nat);
        let b = c as int;
        assert(p * b == if b == 1 { p as int } else { 0 }) by (nonlinear_arith)
            requires
                b == 0 || b == 1,
        ;
    }
    c != 0
}


/// A limb product plus two limbs fits in 64 bits.
proof fn lemma_mul_add_fits(x: u32, y: u32, a: u32, b: u32)
    ensures
        (x as nat) * (y as nat) + (a as nat) + (b as nat) < 18446744073709551616,
{
    let xx = x as nat;
    let yy = y as nat;
    assert(xx * yy <= 4294967295 * 4294967295) by (nonlinear_arith)
        requires
            xx <= 4294967295,
            yy <= 4294967295,
    ;
}

/// Multiplies the limbs of `xs` by `y` in place and returns the carry limb: the limbs of the
/// product are the new limbs of `xs` followed by the returned limb.
pub fn limbs_slice_mul_limb_in_place(xs: &mut [u32], y: u32) -> (carry: u32)
    ensures
        final(xs)@.len() == old(xs)@.len(),
        limbs_val(final(xs)@) + lpow(old(xs)@.len()) * (carry as nat) == limbs_val(old(xs)@) * (
        y as nat),
{
    let n = xs.len();
    let mut c: u32 = 0;
    let mut i: usize = 0;
    proof {
        assert(lpow(0) * 0 == 0);
        assert(0 * (y as nat) == 0);
    }
    while i < n
        invariant
            n == xs@.len(),
            n == old(xs)@.len(),
            i <= n,
            xs@.subrange(i as int, n as int) == old(xs)@.subrange(i as int, n as int),
            limbs_val(xs@.subrange(0, i as int)) + lpow(i as nat) * (c as nat) == limbs_val(
                old(xs)@.subrange(0, i as int),
            ) * (y as nat),
        decreases n - i,
    {
        let ghost prev = xs@;
        let x = xs[i];
        proof {
            lemma_mul_add_fits(x, y, c, 0);
        }
        let t: u64 = (x as u64) * (y as u64) + (c as u64);
        let v: u32 = (t % 4294967296) as u32;
        let nc: u32 = (t / 4294967296) as u32;
        xs[i] = v;
        proof {
            lemma_update_keeps_suffix(old(xs)@, prev, i as int, v);
            lemma_val_prefix_step(xs@, i as int);
            lemma_val_prefix_step(old(xs)@, i as int);
            let p = lpow(i as nat);
            let vv = v as int;
            let xx = x as int;
            let yy = y as int;
            let c0 = c as int;
            let c1 = nc as int;
            let lo = limbs_val(old(xs)@.subrange(0, i as int)) as int;
            assert(vv + radix() * c1 == xx * yy + c0);
            assert(p * vv + (radix() * p) * c1 == (lo + p * xx) * yy - lo * yy + p * c0)
                by (nonlinear_arith)
                requires
                    vv + radix() * c1 == xx * yy + c0,
            ;
        }
        c = nc;
        i += 1;
    }
    proof {
        assert(xs@.subrange(0, n as int) =~= xs@);
        assert(old(xs)@.subrange(0, n as int) =~= old(xs)@);
    }
    c
}

/// Writes the limbs of the product of the limbs of `xs` and `y` to the low `xs.len()` limbs
/// of `out` and returns the carry limb; the rest of `out` is left alone.
pub fn limbs_mul_limb_to_out(out: &mut [u32], xs: &[u32], y: u32) -> (carry: u32)
    requires
        old(out)@.len() >= xs@.len(),
    ensures
        final(out)@.len() == old(out)@.len(),
        limbs_val(final(out)@.subrange(0, xs@.len() as int)) + lpow(xs@.len()) * (carry as nat)
            == limbs_val(xs@) * (y as nat),
        final(out)@.subrange(xs@.len() as int, old(out)@.len() as int) == old(out)@.subrange(
            xs@.len() as int,
            old(out)@.len() as int,
        ),
{
    let n = xs.len();
    let m = out.len();
    let mut c: u32 = 0;
    let mut i: usize = 0;
    proof {
        assert(lpow(0) * 0 == 0);
        assert(0 * (y as nat) == 0);
    }
    while i < n
        invariant
            n == xs@.len(),
            m == out@.len(),
            m == old(out)@.len(),
            i <= n <= m,
            out@.subrange(i as int, m as int) == old(out)@.subrange(i as int, m as int),
            limbs_val(out@.subrange(0, i as int)) + lpow(i as nat) * (c as nat) == limbs_val(
                xs@.subrange(0, i as int),
            ) * (y as nat),
        decreases n - i,
    {
        let ghost prev = out@;
        let x = xs[i];
        proof {
            lemma_mul_add_fits(x, y, c, 0);
        }
        let t: u64 = (x as u64) * (y as u64) + (c as u64);
        let v: u32 = (t % 4294967296) as u32;
        let nc: u32 = (t / 4294967296) as u32;
        out[i] = v;
        proof {
            lemma_update_keeps_suffix(old(out)@, prev, i as int, v);
            lemma_val_prefix_step(out@, i as int);
            lemma_val_prefix_step(xs@, i as int);
            let p = lpow(i as nat);
            let vv = v as int;
            let xx = x as int;
            let yy = y as int;
            let c0 = c as int;
            let c1 = nc as int;
            let lo = limbs_val(xs@.subrange(0, i as int)) as int;
            assert(p * vv + (radix() * p) * c1 == (lo + p * xx) * yy - lo * yy + p * c0)
                by (nonlinear_arith)
                requires
                    vv + radix() * c1 == xx * yy + c0,
            ;
        }
        c = nc;
        i += 1;
    }
    proof {
        assert(xs@.subrange(0, n as int) =~= xs@);
    }
    c
}

/// Adds the product of the limbs of `xs` and `y` to the `xs.len()` limbs of `out` that start
/// at `offset`, and returns the carry limb. Limbs of `out` outside that window are left alone.
pub fn limbs_add_mul_limb_at(out: &mut [u32], offset: usize, xs: &[u32], y: u32) -> (carry: u32)
    requires
        offset + xs@.len() <= old(out)@.len(),
    ensures
        final(out)@.len() == old(out)@.len(),
        limbs_val(final(out)@.subrange(offset as int, offset + xs@.len())) + lpow(xs@.len()) * (
        carry as nat) == limbs_val(old(out)@.subrange(offset as int, offset + xs@.len()))
            + limbs_val(xs@) * (y as nat),
        final(out)@.subrange(0, offset as int) == old(out)@.subrange(0, offset as int),
        final(out)@.subrange(offset + xs@.len(), old(out)@.len() as int) == old(out)@.subrange(
            offset + xs@.len(),
            old(out)@.len() as int,
        ),
{
    let n = xs.len();
    let m = out.len();
    let mut c: u32 = 0;
    let mut i: usize = 0;
    proof {
        assert(lpow(0) * 0 == 0);
        assert(0 * (y as nat) == 0);
        assert(out@.subrange(offset as int, offset as int) =~= Seq::<u32>::empty());
    }
    while i < n
        invariant
            n == xs@.len(),
            m == out@.len(),
            m == old(out)@.len(),
            i <= n,
            offset + n <= m,
            out@.subrange(0, offset as int) == old(out)@.subrange(0, offset as int),
            out@.subrange(offset + i, m as int) == old(out)@.subrange(offset + i, m as int),
            limbs_val(out@.subrange(offset as int, offset + i)) + lpow(i as nat) * (c as nat)
                == limbs_val(old(out)@.subrange(offset as int, offset + i)) + limbs_val(
                xs@.subrange(0, i as int),
            ) * (y as nat),
        decreases n - i,
    {
        let ghost prev = out@;
        let k = offset + i;
        let x = xs[i];
        let o = out[k];
        proof {
            lemma_mul_add_fits(x, y, c, o);
        }
        let t: u64 = (x as u64) * (y as u64) + (c as u64) + (o as u64);
        let v: u32 = (t % 4294967296) as u32;
        let nc: u32 = (t / 4294967296) as u32;
        out[k] = v;
        proof {
            lemma_update_keeps_suffix(old(out)@, prev, k as int, v);
            lemma_update_keeps_range(prev, k as int, v, 0, offset as int);
            let w = out@.subrange(offset as int, offset + i + 1);
            let wo = old(out)@.subrange(offset as int, offset + i + 1);
            assert(w.subrange(0, i as int) =~= prev.subrange(offset as int, offset + i));
            assert(wo.subrange(0, i as int) =~= old(out)@.subrange(offset as int, offset + i));
            lemma_val_prefix_step(w, i as int);
            lemma_val_prefix_step(wo, i as int);
            assert(w.subrange(0, i as int + 1) =~= w);
            assert(wo.subrange(0, i as int + 1) =~= wo);
            assert(wo[i as int] == o);
            lemma_val_prefix_step(xs@, i as int);
            let p = lpow(i as nat);
            let vv = v as int;
            let xx = x as int;
            let yy = y as int;
            let oo = o as int;
            let c0 = c as int;
            let c1 = nc as int;
            let lo = limbs_val(xs@.subrange(0, i as int)) as int;
            assert(p * vv + (radix() * p) * c1 == p * oo + ((lo + p * xx) * yy - lo * yy) + p
                * c0) by (nonlinear_arith)
                requires
                    vv + radix() * c1 == xx * yy + c0 + oo,
            ;
        }
        c = nc;
        i += 1;
    }
    proof {
        assert(xs@.subrange(0, n as int) =~= xs@);
    }
    c
}

/// Writes the limbs of the product of the limbs of `xs` and `ys` to the low
/// `xs.len() + ys.len()` limbs of `out`, leaving the rest alone, and returns the highest limb
/// written. Schoolbook multiplication.
pub fn limbs_mul_to_out(out: &mut [u32], xs: &[u32], ys: &[u32]) -> (high: u32)
    requires
        xs@.len() > 0,
        ys@.len() > 0,
        old(out)@.len() >= xs@.len() + ys@.len(),
    ensures
        final(out)@.len() == old(out)@.len(),
        limbs_val(final(out)@.subrange(0, (xs@.len() + ys@.len()) as int)) == limbs_val(xs@) * limbs_val(
            ys@,
        ),
        final(out)@.subrange((xs@.len() + ys@.len()) as int, old(out)@.len() as int) == old(
            out,
        )@.subrange((xs@.len() + ys@.len()) as int, old(out)@.len() as int),
        high == final(out)@[xs@.len() + ys@.len() - 1],
{
    let n = xs.len();
    let m = ys.len();
    let len = out.len();
    let mut i: usize = 0;
    while i < n
        invariant
            n == xs@.len(),
            len == out@.len(),
            len == old(out)@.len(),
            n + m <= len,
            i <= n,
            forall|k: int| 0 <= k < i ==> out@[k] == 0,
            out@.subrange(n as int, len as int) == old(out)@.subrange(n as int, len as int),
        decreases n - i,
    {
        let ghost prev = out@;
        out[i] = 0;
        proof {
            lemma_update_keeps_range(prev, i as int, 0, n as int, len as int);
        }
        i += 1;
    }
    proof {
        lemma_val_zeros(out@.subrange(0, n as int));
        assert(ys@.subrange(0, 0) =~= Seq::<u32>::empty());
        assert(out@.subrange(n as int, len as int).subrange(m as int, len - n)
            =~= out@.subrange(n + m, len as int));
        assert(old(out)@.subrange(n as int, len as int).subrange(m as int, len - n)
            =~= old(out)@.subrange(n + m, len as int));
        assert(limbs_val(xs@) * 0 == 0);
    }
    let mut j: usize = 0;
    while j < m
        invariant
            n == xs@.len(),
            m == ys@.len(),
            len == out@.len(),
            len == old(out)@.len(),
            n + m <= len,
            n > 0,
            j <= m,
            limbs_val(out@.subrange(0, n + j)) == limbs_val(xs@) * limbs_val(
                ys@.subrange(0, j as int),
            ),
            out@.subrange(n + m, len as int) == old(out)@.subrange(n + m, len as int),
        decreases m - j,
    {
        let ghost before = out@;
        let y = ys[j];
        let carry = limbs_add_mul_limb_at(out, j, xs, y);
        let ghost mid = out@;
        out[n + j] = carry;
        proof {
            let a = limbs_val(before.subrange(0, j as int));
            let wb = limbs_val(before.subrange(j as int, n + j));
            let wm = limbs_val(mid.subrange(j as int, n + j));
            let p = lpow(j as nat);
            let q = lpow(n as nat);
            // the low j limbs are untouched, the window grew by the product
            assert(mid.subrange(0, j as int) == before.subrange(0, j as int));
            assert(out@.subrange(0, j as int) =~= mid.subrange(0, j as int));
            let cur = out@.subrange(0, n + j + 1);
            assert(cur.subrange(0, j as int) =~= mid.subrange(0, j as int));
            assert(cur.subrange(j as int, n + j + 1) =~= mid.subrange(j as int, n + j).push(
                carry,
            ));
            lemma_val_split(cur, j as int);
            lemma_val_push(mid.subrange(j as int, n + j), carry);
            lemma_val_split(before.subrange(0, n + j), j as int);
            assert(before.subrange(0, n + j).subrange(0, j as int) =~= before.subrange(
                0,
                j as int,
            ));
            assert(before.subrange(0, n + j).subrange(j as int, n + j) =~= before.subrange(
                j as int,
                n + j,
            ));
            lemma_val_prefix_step(ys@, j as int);
            let vx = limbs_val(xs@);
            let vy = limbs_val(ys@.subrange(0, j as int));
            let yy = y as int;
            let cc = carry as int;
            assert(a + p * (wm + q * cc) == vx * (vy + p * yy)) by (nonlinear_arith)
                requires
                    a + p * wb == vx * vy,
                    wm + q * cc == wb + vx * yy,
            ;
            assert(cur.subrange(0, n + j + 1) =~= cur);
            assert(out@.subrange(n + m, len as int) =~= mid.subrange(n + m, len as int));
            assert(mid.subrange(n + j, len as int).subrange(m - j, len - n - j) =~= mid.subrange(
                n + m,
                len as int,
            ));
            assert(before.subrange(n + j, len as int).subrange(m - j, len - n - j)
                =~= before.subrange(n + m, len as int));
        }
        j += 1;
    }
    proof {
        assert(ys@.subrange(0, m as int) =~= ys@);
    }
    out[n + m - 1]
}

/// Writes the limbs of the square of the limbs of `xs` to the low `2 xs.len()` limbs of `out`.
pub fn limbs_square_to_out(out: &mut [u32], xs: &[u32])
    requires
        xs@.len() > 0,
        old(out)@.len() >= 2 * xs@.len(),
    ensures
        final(out)@.len() == old(out)@.len(),
        limbs_val(final(out)@.subrange(0, (2 * xs@.len()) as int)) == limbs_val(xs@) * limbs_val(xs@),
        final(out)@.subrange((2 * xs@.len()) as int, old(out)@.len() as int) == old(out)@.subrange(
            (2 * xs@.len()) as int,
            old(out)@.len() as int,
        ),
{
    limbs_mul_to_out(out, xs, xs);
}

/// Divides the limbs of `xs` by `d` in place and returns the remainder.
pub fn limbs_div_limb_in_place_mod(xs: &mut [u32], d: u32) -> (r: u32)
    requires
        d > 0,
    ensures
        final(xs)@.len() == old(xs)@.len(),
        limbs_val(old(xs)@) == limbs_val(final(xs)@) * (d as nat) + (r as nat),
        r < d,
{
    let n = xs.len();
    let mut r: u32 = 0;
    let mut i: usize = n;
    proof {
        assert(xs@.subrange(n as int, n as int) =~= Seq::<u32>::empty());
        assert(0 * (d as nat) == 0);
    }
    while i > 0
        invariant
            n == xs@.len(),
            n == old(xs)@.len(),
            i <= n,
            r < d,
            xs@.subrange(0, i as int) == old(xs)@.subrange(0, i as int),
            limbs_val(old(xs)@.subrange(i as int, n as int)) == limbs_val(
                xs@.subrange(i as int, n as int),
            ) * (d as nat) + (r as nat),
        decreases i,
    {
        let ghost prev = xs@;
        let k = i - 1;
        let x = xs[k];
        let t: u64 = (r as u64) * 4294967296 + (x as u64);
        let q64: u64 = t / (d as u64);
        let nr: u32 = (t % (d as u64)) as u32;
        proof {
            let rr = r as int;
            let dd = d as int;
            let tt = t as int;
            let qq = q64 as int;
            vstd::arithmetic::div_mod::lemma_fundamental_div_mod(tt, dd);
            assert(tt == dd * qq + (t % (d as u64)) as int);
            assert(tt == qq * dd + (t % (d as u64)) as int) by (nonlinear_arith)
                requires
                    tt == dd * qq + (t % (d as u64)) as int,
            ;
            assert(qq < 4294967296) by (nonlinear_arith)
                requires
                    tt == qq * dd + (tt - qq * dd),
                    0 <= tt - qq * dd,
                    tt < (rr + 1) * 4294967296,
                    rr + 1 <= dd,
                    dd > 0,
            ;
        }
        let q: u32 = q64 as u32;
        xs[k] = q;
        proof {
            assert(xs@.subrange(0, k as int) =~= prev.subrange(0, k as int));
            assert(old(xs)@.subrange(0, k as int) =~= old(xs)@.subrange(0, i as int).subrange(
                0,
                k as int,
            ));
            assert(prev.subrange(0, i as int).subrange(0, k as int) =~= prev.subrange(0, k as int));
            assert(old(xs)@[k as int] == x) by {
                assert(old(xs)@.subrange(0, i as int)[k as int] == prev.subrange(0, i as int)[k as int]);
            }
            let so = old(xs)@.subrange(k as int, n as int);
            let sn = xs@.subrange(k as int, n as int);
            lemma_val_cons(so);
            lemma_val_cons(sn);
            assert(so.subrange(1, so.len() as int) =~= old(xs)@.subrange(i as int, n as int));
            assert(sn.subrange(1, sn.len() as int) =~= prev.subrange(i as int, n as int));
            let hi = limbs_val(prev.subrange(i as int, n as int)) as int;
            let rr = r as int;
            let dd = d as int;
            let qq = q as int;
            let r2 = nr as int;
            let xx = x as int;
            assert(xx + radix() * (hi * dd + rr) == (qq + radix() * hi) * dd + r2)
                by (nonlinear_arith)
                requires
                    rr * 4294967296 + xx == qq * dd + r2,
                    radix() == 4294967296,
            ;
        }
        r = nr;
        i = k;
    }
    proof {
        assert(xs@.subrange(0, n as int) =~= xs@);
        assert(old(xs)@.subrange(0, n as int) =~= old(xs)@);
    }
    r
}

/// Divides the limbs of `xs` in place by `d`, which divides them exactly.
pub fn limbs_div_exact_limb_in_place(xs: &mut [u32], d: u32)
    requires
        d > 0,
        limbs_val(old(xs)@) % (d as nat) == 0,
    ensures
        final(xs)@.len() == old(xs)@.len(),
        limbs_val(final(xs)@) * (d as nat) == limbs_val(old(xs)@),
{
    let ghost o = xs@;
    let r = limbs_div_limb_in_place_mod(xs, d);
    proof {
        lemma_div_mod_pair(limbs_val(o) as int, d as int, limbs_val(xs@) as int, r as int);
    }
}

} // verus!
