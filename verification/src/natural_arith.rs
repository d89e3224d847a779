//! Sums, products and quotients of naturals.
use vstd::prelude::*;
use crate::limbs::{is_normalized, lemma_val_bound, lemma_val_push, limbs_val, lpow};
use crate::natural::{natural_limbs, Natural};
use crate::to_digits::normalize_vec;

verus! {

/// The sum of the limbs of `xs` and `ys`, without high zero limbs.
pub fn limbs_sum(xs: &Vec<u32>, ys: &Vec<u32>) -> (r: Vec<u32>)
    ensures
        limbs_val(r@) == limbs_val(xs@) + limbs_val(ys@),
        is_normalized(r@),
{
    let (long, short) = if xs.len() >= ys.len() {
        (xs, ys)
    } else {
        (ys, xs)
    };
    let n = long.len();
    let mut acc = crate::sub_naive::limbs_copy_range(long.as_slice(), 0, n);
    let mut pad = crate::sub_naive::limbs_copy_range(short.as_slice(), 0, short.len());
    proof {
        assert(acc@ =~= long@);
        assert(pad@ =~= short@);
    }
    while pad.len() < n
        invariant
            pad@.len() <= n,
            limbs_val(pad@) == limbs_val(short@),
        decreases n - pad@.len(),
    {
        let ghost before = pad@;
        pad.push(0);
        proof {
            lemma_val_push(before, 0);
            assert(lpow(before.len()) * 0 == 0) by (nonlinear_arith);
        }
    }
    let ghost a0 = acc@;
    let carry = crate::arith::limbs_slice_add_same_length_in_place_left(acc.as_mut_slice(), pad.as_slice());
    let ghost a1 = acc@;
    if carry {
        acc.push(1);
        proof {
            lemma_val_push(a1, 1);
        }
    }
    normalize_vec(&mut acc);
    acc
}

impl Natural {
    /// The sum of `self` and `other`.
    pub fn add_natural(&self, other: &Natural) -> (r: Natural)
        requires
            self.wf(),
            other.wf(),
        ensures
            r@ == self@ + other@,
            r.wf(),
    {
        let a = self.to_limbs_asc();
        let b = other.to_limbs_asc();
        let s = limbs_sum(&a, &b);
        Natural::from_owned_limbs_asc(s)
    }

    /// The product of `self` and `other`.
    pub fn mul_natural(&self, other: &Natural) -> (r: Natural)
        requires
            self.wf(),
            other.wf(),
            natural_limbs(*self).len() + natural_limbs(*other).len() <= usize::MAX,
        ensures
            r@ == self@ * other@,
            r.wf(),
    {
        let a = self.to_limbs_asc();
        let b = other.to_limbs_asc();
        if a.len() == 0 || b.len() == 0 {
            proof {
                if a@.len() == 0 {
                    assert(a@ =~= Seq::<u32>::empty());
                    assert(0 * other@ == 0);
                } else {
                    assert(b@ =~= Seq::<u32>::empty());
                    assert(self@ * 0 == 0);
                }
            }
            return Natural::new();
        }
        let p = crate::from_dc::limbs_product(&a, &b);
        Natural::from_owned_limbs_asc(p)
    }

    /// The quotient and remainder of `self` divided by the nonzero `other`.
    pub fn div_mod_natural(&self, other: &Natural) -> (r: (Natural, Natural))
        requires
            self.wf(),
            other.wf(),
            other@ > 0,
        ensures
            self@ == r.0@ * other@ + r.1@,
            r.1@ < other@,
            r.0.wf(),
            r.1.wf(),
    {
        let a = self.to_limbs_asc();
        let b = other.to_limbs_asc();
        proof {
            if b@.len() == 0 {
                assert(b@ =~= Seq::<u32>::empty());
            }
        }
        let (q, r) = crate::div::limbs_div_mod(a.as_slice(), b.as_slice());
        (Natural::from_owned_limbs_asc(q), Natural::from_owned_limbs_asc(r))
    }
}

} // verus!
