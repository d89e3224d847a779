//! Reference versions of subtraction between overlapping windows of one limb slice. They
//! copy the minuend out first, so reads never see a limb that was already written.
use vstd::prelude::*;
use crate::limbs::{limbs_val, lpow};
use crate::arith::limbs_sub_same_length_in_place_left;

verus! {

/// Copies the limbs `xs[start..end]` into a new vector.
pub fn limbs_copy_range(xs: &[u32], start: usize, end: usize) -> (r: Vec<u32>)
    requires
        start <= end <= xs@.len(),
    ensures
        r@ == xs@.subrange(start as int, end as int),
{
    let mut r: Vec<u32> = Vec::new();
    let mut i = start;
    while i < end
        invariant
            start <= i <= end <= xs@.len(),
            r@ == xs@.subrange(start as int, i as int),
        decreases end - i,
    {
        r.push(xs[i]);
        proof {
            assert(r@ =~= xs@.subrange(start as int, i + 1));
        }
        i += 1;
    }
    r
}

/// Overwrites `xs[..ys.len()]` with `ys`, leaving the rest of `xs` alone.
pub fn limbs_copy_into_prefix(xs: &mut [u32], ys: &[u32])
    requires
        ys@.len() <= old(xs)@.len(),
    ensures
        final(xs)@.len() == old(xs)@.len(),
        final(xs)@.subrange(0, ys@.len() as int) == ys@,
        final(xs)@.subrange(ys@.len() as int, old(xs)@.len() as int) == old(xs)@.subrange(
            ys@.len() as int,
            old(xs)@.len() as int,
        ),
{
    let n = ys.len();
    let len = xs.len();
    let mut i: usize = 0;
    while i < n
        invariant
            n == ys@.len(),
            len == xs@.len(),
            len == old(xs)@.len(),
            i <= n <= len,
            forall|k: int| 0 <= k < i ==> xs@[k] == ys@[k],
            forall|k: int| n <= k < len ==> xs@[k] == old(xs)@[k],
        decreases n - i,
    {
        xs[i] = ys[i];
        i += 1;
    }
    proof {
        assert(xs@.subrange(0, n as int) =~= ys@);
        assert(xs@.subrange(n as int, len as int) =~= old(xs)@.subrange(n as int, len as int));
    }
}

/// Subtracts the limbs of `xs[right_start..]` from those of `xs[..xs.len() - right_start]`
/// and writes the difference to `xs[..xs.len() - right_start]`. Returns whether a borrow out of
/// the top limb occurred, which happens exactly when the subtrahend is larger.
pub fn limbs_sub_same_length_in_place_with_overlap_naive(xs: &mut [u32], right_start: usize) -> (borrow: bool)
    requires
        right_start <= old(xs)@.len(),
    ensures
        final(xs)@.len() == old(xs)@.len(),
        limbs_val(final(xs)@.subrange(0, old(xs)@.len() - right_start)) + limbs_val(
            old(xs)@.subrange(right_start as int, old(xs)@.len() as int),
        ) == limbs_val(old(xs)@.subrange(0, old(xs)@.len() - right_start)) + (if borrow {
            lpow((old(xs)@.len() - right_start) as nat)
        } else {
            0
        }),
        final(xs)@.subrange(old(xs)@.len() - right_start, old(xs)@.len() as int) == old(
            xs,
        )@.subrange(old(xs)@.len() - right_start, old(xs)@.len() as int),
        borrow <==> limbs_val(old(xs)@.subrange(0, old(xs)@.len() - right_start)) < limbs_val(
            old(xs)@.subrange(right_start as int, old(xs)@.len() as int),
        ),
{
    let len = xs.len();
    let left_end = len - right_start;
    let mut x = limbs_copy_range(xs, 0, left_end);
    let ys = limbs_copy_range(xs, right_start, len);
    let borrow = limbs_sub_same_length_in_place_left(x.as_mut_slice(), ys.as_slice());
    limbs_copy_into_prefix(xs, x.as_slice());
    borrow
}

/// Subtracts the limbs of `ys` from those of `xs[xs.len() - ys.len()..]` and writes the
/// difference to `xs[..ys.len()]`. Returns whether a borrow out of the top limb occurred,
/// which happens exactly when `ys` is larger.
pub fn limbs_sub_same_length_to_out_with_overlap_naive(xs: &mut [u32], ys: &[u32]) -> (borrow: bool)
    requires
        ys@.len() <= old(xs)@.len(),
    ensures
        final(xs)@.len() == old(xs)@.len(),
        limbs_val(final(xs)@.subrange(0, ys@.len() as int)) + limbs_val(ys@) == limbs_val(
            old(xs)@.subrange(old(xs)@.len() - ys@.len(), old(xs)@.len() as int),
        ) + (if borrow {
            lpow(ys@.len())
        } else {
            0
        }),
        final(xs)@.subrange(ys@.len() as int, old(xs)@.len() as int) == old(xs)@.subrange(
            ys@.len() as int,
            old(xs)@.len() as int,
        ),
        borrow <==> limbs_val(old(xs)@.subrange(old(xs)@.len() - ys@.len(), old(xs)@.len() as int))
            < limbs_val(ys@),
{
    let y_len = ys.len();
    let len = xs.len();
    let mut x = limbs_copy_range(xs, len - y_len, len);
    let borrow = limbs_sub_same_length_in_place_left(x.as_mut_slice(), ys);
    limbs_copy_into_prefix(xs, x.as_slice());
    borrow
}


/// Copies the bytes `xs[start..end]` into a new vector.
pub fn limbs_copy_range_u8(xs: &[u8], start: usize, end: usize) -> (r: Vec<u8>)
    requires
        start <= end <= xs@.len(),
    ensures
        r@ == xs@.subrange(start as int, end as int),
{
    let mut r: Vec<u8> = Vec::new();
    let mut i = start;
    while i < end
        invariant
            start <= i <= end <= xs@.len(),
            r@ == xs@.subrange(start as int, i as int),
        decreases end - i,
    {
        r.push(xs[i]);
        proof {
            assert(r@ =~= xs@.subrange(start as int, i + 1));
        }
        i += 1;
    }
    r
}

} // verus!
