//! Division of limb sequences with remainder, one quotient limb at a time.
use vstd::prelude::*;
use vstd::arithmetic::power2::{pow2, lemma_pow2_pos, lemma_pow2_unfold, lemma2_to64};
use crate::limbs::{
    is_normalized, lemma_val_bound, lemma_val_cons, lemma_val_normalized_lower, lemma_val_zero_iff,
    limbs_val, lpow, radix,
};
use crate::natural_ops::{limb_pow2, limbs_order_normalized};
use crate::power_build::{mul_limb_limbs, zero_limbs};
use crate::to_digits::normalize_vec;
use crate::from_digits::lemma_normalized_len_bound;

verus! {

/// The limb `x` followed by the limbs of `v`: `x + 2^32 v`, without high zero limbs.
fn limbs_prepend(x: u32, v: &Vec<u32>) -> (r: Vec<u32>)
    ensures
        limbs_val(r@) == x as nat + radix() * limbs_val(v@),
        is_normalized(r@),
{
    let mut r: Vec<u32> = Vec::new();
    r.push(x);
    let n = v.len();
    let mut j: usize = 0;
    while j < n
        invariant
            j <= n,
            n == v@.len(),
            r@.len() == j + 1,
            r@[0] == x,
            r@.subrange(1, (j + 1) as int) == v@.subrange(0, j as int),
        decreases n - j,
    {
        r.push(v[j]);
        proof {
            assert(r@.subrange(1, (j + 2) as int) =~= v@.subrange(0, j + 1));
        }
        j += 1;
    }
    proof {
        assert(v@.subrange(0, n as int) =~= v@);
        lemma_val_cons(r@);
    }
    normalize_vec(&mut r);
    r
}

/// The difference of the limbs of `a` and `b`, where `b` is not larger, without high zero limbs.
fn limbs_sub_vec(a: &Vec<u32>, b: &Vec<u32>) -> (r: Vec<u32>)
    requires
        is_normalized(a@),
        is_normalized(b@),
        limbs_val(b@) <= limbs_val(a@),
    ensures
        limbs_val(r@) + limbs_val(b@) == limbs_val(a@),
        is_normalized(r@),
{
    let n = a.len();
    proof {
        lemma_val_bound(a@);
        lemma_normalized_len_bound(b@, n as nat);
    }
    let mut pad = crate::sub_naive::limbs_copy_range(b.as_slice(), 0, b.len());
    proof {
        assert(pad@ =~= b@);
    }
    while pad.len() < n
        invariant
            pad@.len() <= n,
            limbs_val(pad@) == limbs_val(b@),
        decreases n - pad@.len(),
    {
        let ghost before = pad@;
        pad.push(0);
        proof {
            crate::limbs::lemma_val_push(before, 0);
            assert(lpow(before.len()) * 0 == 0) by (nonlinear_arith);
        }
    }
    let mut r = crate::sub_naive::limbs_copy_range(a.as_slice(), 0, n);
    proof {
        assert(r@ =~= a@);
    }
    let borrow = crate::arith::limbs_sub_same_length_in_place_left(r.as_mut_slice(), pad.as_slice());
    proof {
        lemma_val_bound(r@);
        if borrow {
            crate::limbs::lemma_lpow_pos(n as nat);
            assert(false);
        }
    }
    normalize_vec(&mut r);
    r
}

/// The largest limb `q` with `q * d <= r`, where `r < 2^32 d`.
fn quotient_limb(r: &Vec<u32>, d: &Vec<u32>) -> (q: u32)
    requires
        is_normalized(r@),
        is_normalized(d@),
        limbs_val(d@) > 0,
        limbs_val(r@) < radix() * limbs_val(d@),
    ensures
        (q as nat) * limbs_val(d@) <= limbs_val(r@),
        limbs_val(r@) < (q as nat + 1) * limbs_val(d@),
{
    let ghost dv = limbs_val(d@);
    let ghost rv = limbs_val(r@);
    let mut q: u32 = 0;
    let mut bit: u32 = 32;
    proof {
        lemma2_to64();
    }
    while bit > 0
        invariant
            bit <= 32,
            (q as nat) + pow2(bit as nat) <= radix(),
            (q as nat) * dv <= rv,
            rv < ((q as nat) + pow2(bit as nat)) * dv,
            is_normalized(r@),
            is_normalized(d@),
            dv == limbs_val(d@),
            rv == limbs_val(r@),
            dv > 0,
        decreases bit,
    {
        bit -= 1;
        let step = limb_pow2(bit);
        proof {
            lemma_pow2_unfold((bit + 1) as nat);
            lemma_pow2_pos(bit as nat);
        }
        let cand = q + step;
        let t = mul_limb_limbs(d, cand);
        let c = limbs_order_normalized(&t, r);
        if c != 1 {
            proof {
                assert(rv < ((cand as nat) + pow2(bit as nat)) * dv) by (nonlinear_arith)
                    requires
                        rv < ((q as nat) + pow2((bit + 1) as nat)) * dv,
                        pow2((bit + 1) as nat) == 2 * pow2(bit as nat),
                        cand == q + pow2(bit as nat),
                ;
                assert((cand as nat) * dv == dv * (cand as nat)) by (nonlinear_arith);
            }
            q = cand;
        } else {
            proof {
                assert((cand as nat) * dv == dv * (cand as nat)) by (nonlinear_arith);
            }
        }
    }
    proof {
        assert(pow2(0) == 1);
    }
    q
}

/// The quotient and remainder of the limbs of `ns` divided by the nonzero limbs of `ds`,
/// both without high zero limbs. Long division, one quotient limb at a time.
pub fn limbs_div_mod(ns: &[u32], ds: &[u32]) -> (r: (Vec<u32>, Vec<u32>))
    requires
        is_normalized(ds@),
        ds@.len() > 0,
    ensures
        limbs_val(ns@) == limbs_val(r.0@) * limbs_val(ds@) + limbs_val(r.1@),
        limbs_val(r.1@) < limbs_val(ds@),
        is_normalized(r.0@),
        is_normalized(r.1@),
{
    let n = ns.len();
    let d = crate::sub_naive::limbs_copy_range(ds, 0, ds.len());
    let ghost dv = limbs_val(ds@);
    proof {
        assert(d@ =~= ds@);
        lemma_val_normalized_lower(ds@);
        crate::limbs::lemma_lpow_pos((ds@.len() - 1) as nat);
    }
    let mut q = zero_limbs(n);
    let mut rem: Vec<u32> = Vec::new();
    let mut j = n;
    proof {
        assert(ns@.subrange(n as int, n as int) =~= Seq::<u32>::empty());
        assert(q@.subrange(n as int, n as int) =~= Seq::<u32>::empty());
        assert(rem@ =~= Seq::<u32>::empty());
        assert(0 * dv == 0);
    }
    while j > 0
        invariant
            j <= n,
            n == ns@.len(),
            q@.len() == n,
            d@ == ds@,
            dv == limbs_val(ds@),
            dv > 0,
            is_normalized(ds@),
            is_normalized(rem@),
            limbs_val(rem@) < dv,
            limbs_val(ns@.subrange(j as int, n as int)) == limbs_val(q@.subrange(j as int, n as int)) * dv
                + limbs_val(rem@),
        decreases j,
    {
        j -= 1;
        let ghost qo = q@;
        let ghost hi_q = limbs_val(qo.subrange((j + 1) as int, n as int));
        let ghost ro = limbs_val(rem@);
        let cur = limbs_prepend(ns[j], &rem);
        proof {
            assert(limbs_val(cur@) < radix() * dv) by (nonlinear_arith)
                requires
                    limbs_val(cur@) == ns@[j as int] as nat + radix() * ro,
                    ro < dv,
                    (ns@[j as int] as nat) < radix(),
            ;
        }
        let qd = quotient_limb(&cur, &d);
        let t = mul_limb_limbs(&d, qd);
        proof {
            assert(limbs_val(t@) == (qd as nat) * dv) by (nonlinear_arith)
                requires
                    limbs_val(t@) == dv * (qd as nat),
            ;
        }
        rem = limbs_sub_vec(&cur, &t);
        q.set(j, qd);
        proof {
            let s = ns@.subrange(j as int, n as int);
            lemma_val_cons(s);
            assert(s.subrange(1, s.len() as int) =~= ns@.subrange((j + 1) as int, n as int));
            let w = q@.subrange(j as int, n as int);
            lemma_val_cons(w);
            assert(w.subrange(1, w.len() as int) =~= qo.subrange((j + 1) as int, n as int));
            assert(w[0] == qd);
            let c = limbs_val(cur@);
            assert(c == ns@[j as int] as nat + radix() * ro);
            assert(limbs_val(s) == ns@[j as int] as nat + radix() * (hi_q * dv + ro));
            assert(limbs_val(s) == (qd as nat + radix() * hi_q) * dv + limbs_val(rem@)) by (nonlinear_arith)
                requires
                    limbs_val(s) == ns@[j as int] as nat + radix() * (hi_q * dv + ro),
                    c == ns@[j as int] as nat + radix() * ro,
                    limbs_val(rem@) + (qd as nat) * dv == c,
            ;
            assert(limbs_val(rem@) < dv) by (nonlinear_arith)
                requires
                    limbs_val(rem@) + (qd as nat) * dv == c,
                    c < (qd as nat + 1) * dv,
            ;
        }
    }
    proof {
        assert(ns@.subrange(0, n as int) =~= ns@);
        assert(q@.subrange(0, n as int) =~= q@);
    }
    normalize_vec(&mut q);
    (q, rem)
}

} // verus!
