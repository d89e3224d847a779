//! Comparison, bit shifts, trailing zeros and limb views of naturals.
use vstd::prelude::*;
use vstd::arithmetic::power2::{pow2, lemma_pow2_adds, lemma_pow2_pos, lemma_pow2_unfold, lemma2_to64};
use crate::limbs::{
    is_normalized, lemma_lpow_mono, lemma_lpow_pos, lemma_lpow_pow2, lemma_val_bound,
    lemma_val_cons, lemma_val_lt_from_top, lemma_val_normalized_lower, lemma_val_split,
    lemma_val_zeros, limbs_val, lpow, radix,
};
use crate::natural::Natural;
use core::cmp::Ordering;

verus! {

/// Compares two limb sequences without high zero limbs by value: -1, 0 or 1 as the first
/// is below, equal to or above the second.
pub fn limbs_order_normalized(xs: &[u32], ys: &[u32]) -> (r: i8)
    requires
        is_normalized(xs@),
        is_normalized(ys@),
    ensures
        r == -1 <==> limbs_val(xs@) < limbs_val(ys@),
        r == 0 <==> limbs_val(xs@) == limbs_val(ys@),
        r == 1 <==> limbs_val(xs@) > limbs_val(ys@),
{
    let n = xs.len();
    let m = ys.len();
    if n != m {
        proof {
            if n < m {
                lemma_val_bound(xs@);
                lemma_lpow_mono(n as nat, (m - 1) as nat);
                lemma_val_normalized_lower(ys@);
            } else {
                lemma_val_bound(ys@);
                lemma_lpow_mono(m as nat, (n - 1) as nat);
                lemma_val_normalized_lower(xs@);
            }
        }
        if n < m {
            -1
        } else {
            1
        }
    } else {
        let mut i = n;
        while i > 0
            invariant
                i <= n,
                n == xs@.len(),
                n == ys@.len(),
                forall|k: int| i <= k < n ==> xs@[k] == ys@[k],
            decreases i,
        {
            if xs[i - 1] != ys[i - 1] {
                proof {
                    if xs@[i - 1] < ys@[i - 1] {
                        lemma_val_lt_from_top(xs@, ys@, i - 1);
                    } else {
                        lemma_val_lt_from_top(ys@, xs@, i - 1);
                    }
                }
                if xs[i - 1] < ys[i - 1] {
                    return -1;
                } else {
                    return 1;
                }
            }
            i -= 1;
        }
        proof {
            assert(xs@ =~= ys@);
        }
        0
    }
}

/// 2^k as a limb.
pub fn limb_pow2(k: u32) -> (r: u32)
    requires
        k < 32,
    ensures
        r as nat == pow2(k as nat),
        r > 0,
{
    let mut r: u32 = 1;
    let mut i: u32 = 0;
    proof {
        lemma2_to64();
    }
    while i < k
        invariant
            i <= k < 32,
            r as nat == pow2(i as nat),
        decreases k - i,
    {
        proof {
            lemma_pow2_unfold((i + 1) as nat);
            vstd::arithmetic::power2::lemma_pow2_strictly_increases((i + 1) as nat, 32);
            lemma2_to64();
        }
        r = r * 2;
        i += 1;
    }
    proof {
        lemma_pow2_pos(k as nat);
    }
    r
}

/// The number of trailing zero bits of the nonzero `x`.
pub fn limb_trailing_zeros(x: u32) -> (r: u32)
    requires
        x != 0,
    ensures
        r < 32,
        (x as nat) % pow2(r as nat) == 0,
        ((x as nat) / pow2(r as nat)) % 2 == 1,
{
    let mut v = x;
    let mut k: u32 = 0;
    proof {
        lemma2_to64();
    }
    while v % 2 == 0
        invariant
            v != 0,
            x as nat == (v as nat) * pow2(k as nat),
            k < 32,
        decreases v,
    {
        proof {
            lemma_pow2_unfold((k + 1) as nat);
            let p = pow2(k as nat);
            let vv = v as nat;
            vstd::arithmetic::div_mod::lemma_fundamental_div_mod(v as int, 2);
            assert(x as nat == (vv / 2) * (2 * p)) by (nonlinear_arith)
                requires
                    x as nat == vv * p,
                    vv == 2 * (vv / 2),
            ;
            if k + 1 >= 32 {
                assert(k + 1 == 32);
                lemma2_to64();
                lemma_pow2_pos(k as nat);
                assert((vv / 2) * (2 * p) >= 2 * p) by (nonlinear_arith)
                    requires
                        vv / 2 >= 1,
                        p > 0,
                ;
                assert(false);
            }
        }
        v = v / 2;
        k += 1;
    }
    proof {
        lemma_pow2_pos(k as nat);
        let p = pow2(k as nat);
        vstd::arithmetic::div_mod::lemma_mod_multiples_basic(v as int, p as int);
        vstd::arithmetic::div_mod::lemma_div_multiples_vanish(v as int, p as int);
        assert((v as nat) * p == p * (v as nat)) by (nonlinear_arith);
    }
    k
}

impl Natural {
    /// The limbs of `self`, most significant first, without leading zero limbs; zero has none.
    pub fn to_limbs_desc(&self) -> (r: Vec<u32>)
        requires
            self.wf(),
        ensures
            limbs_val(r@.reverse()) == self@,
            r@.len() == 0 || r@[0] != 0,
    {
        let xs = self.to_limbs_asc();
        let n = xs.len();
        let mut r: Vec<u32> = Vec::new();
        let mut i = n;
        while i > 0
            invariant
                i <= n,
                n == xs@.len(),
                r@ == xs@.subrange(i as int, n as int).reverse(),
            decreases i,
        {
            r.push(xs[i - 1]);
            proof {
                assert(r@ =~= xs@.subrange(i - 1, n as int).reverse());
            }
            i -= 1;
        }
        proof {
            assert(xs@.subrange(0, n as int) =~= xs@);
            assert(r@.reverse() =~= xs@);
        }
        r
    }

    /// The natural whose limbs, most significant first, are `xs`.
    pub fn from_limbs_desc(xs: &[u32]) -> (r: Natural)
        ensures
            r@ == limbs_val(xs@.reverse()),
            r.wf(),
    {
        let n = xs.len();
        let mut v: Vec<u32> = Vec::new();
        let mut i = n;
        while i > 0
            invariant
                i <= n,
                n == xs@.len(),
                v@ == xs@.subrange(i as int, n as int).reverse(),
            decreases i,
        {
            v.push(xs[i - 1]);
            proof {
                assert(v@ =~= xs@.subrange(i - 1, n as int).reverse());
            }
            i -= 1;
        }
        proof {
            assert(xs@.subrange(0, n as int) =~= xs@);
        }
        Natural::from_owned_limbs_asc(v)
    }

    /// The limbs of `self`, least significant first, without high zero limbs.
    pub fn into_limbs_asc(self) -> (r: Vec<u32>)
        requires
            self.wf(),
        ensures
            limbs_val(r@) == self@,
            is_normalized(r@),
    {
        self.to_limbs_asc()
    }

    /// The sum of `self` and the limb `y`.
    pub fn add_limb(&self, y: u32) -> (r: Natural)
        requires
            self.wf(),
        ensures
            r@ == self@ + y,
            r.wf(),
    {
        let xs = self.to_limbs_asc();
        let s = crate::arith::limbs_add_limb(&xs, y);
        Natural::from_owned_limbs_asc(s)
    }

    /// Whether `self` is below, equal to or above `other`.
    pub fn cmp_natural(&self, other: &Natural) -> (r: Ordering)
        requires
            self.wf(),
            other.wf(),
        ensures
            r == Ordering::Less <==> self@ < other@,
            r == Ordering::Equal <==> self@ == other@,
            r == Ordering::Greater <==> self@ > other@,
    {
        let xs = self.to_limbs_asc();
        let ys = other.to_limbs_asc();
        let c = limbs_order_normalized(&xs, &ys);
        if c == -1 {
            Ordering::Less
        } else if c == 0 {
            Ordering::Equal
        } else {
            Ordering::Greater
        }
    }

    /// Whether `self` is divisible by 2^`pow`. Zero is divisible by every power of two.
    pub fn divisible_by_power_of_two(&self, pow: u64) -> (r: bool)
        ensures
            r == (self@ % pow2(pow as nat) == 0),
    {
        if pow == 0 {
            proof {
                lemma2_to64();
            }
            return true;
        }
        let ghost v = self@;
        let r = match self {
            Natural::Small(small) => {
                let x = *small;
                proof {
                    crate::natural::lemma_small_val(x);
                    assert(v == x as nat);
                }
                let t = crate::divisible::limb_divisible_by_power_of_two(x, pow);
                assert(t == (v % pow2(pow as nat) == 0));
                t
            },
            Natural::Large(limbs) => {
                if crate::arith::limbs_test_zero(limbs.as_slice()) {
                    proof {
                        lemma_pow2_pos(pow as nat);
                        crate::limbs::lemma_val_zero_iff(limbs@);
                        assert(v == 0);
                        assert(v % pow2(pow as nat) == 0);
                    }
                    true
                } else {
                    proof {
                        crate::limbs::lemma_val_zero_iff(limbs@);
                    }
                    let t = crate::divisible::limbs_divisible_by_power_of_two(limbs.as_slice(), pow);
                    assert(t == (v % pow2(pow as nat) == 0));
                    t
                }
            },
        };
        assert(r == (v % pow2(pow as nat) == 0));
        r
    }

    /// Whether `self` is below `other`.
    pub fn lt_natural(&self, other: &Natural) -> (r: bool)
        requires
            self.wf(),
            other.wf(),
        ensures
            r == (self@ < other@),
    {
        let xs = self.to_limbs_asc();
        let ys = other.to_limbs_asc();
        limbs_order_normalized(&xs, &ys) == -1
    }


    /// The number of trailing zero bits of `self`; `None` for zero.
    pub fn trailing_zeros(&self) -> (r: Option<u64>)
        requires
            self.wf(),
            crate::natural::natural_limbs(*self).len() < 0x100000000000000,
        ensures
            r is None <==> self@ == 0,
            r matches Some(t) ==> self@ % pow2(t as nat) == 0 && (self@ / pow2(t as nat)) % 2
                == 1,
    {
        let xs = self.to_limbs_asc();
        let n = xs.len();
        let mut i: usize = 0;
        while i < n && xs[i] == 0
            invariant
                i <= n,
                n == xs@.len(),
                forall|k: int| 0 <= k < i ==> xs@[k] == 0,
            decreases n - i,
        {
            i += 1;
        }
        if i == n {
            proof {
                lemma_val_zeros(xs@);
            }
            return None;
        }
        let t = limb_trailing_zeros(xs[i]);
        let r: u64 = 32 * (i as u64) + (t as u64);
        proof {
            let s = xs@;
            lemma_val_split(s, i as int);
            lemma_val_zeros(s.subrange(0, i as int));
            let rest = s.subrange(i as int, n as int);
            lemma_val_cons(rest);
            let hi = limbs_val(rest.subrange(1, rest.len() as int));
            let x = s[i as int] as nat;
            let pt = pow2(t as nat);
            let odd = x / pt;
            lemma_pow2_pos(t as nat);
            vstd::arithmetic::div_mod::lemma_fundamental_div_mod(x as int, pt as int);
            // radix() == 2^t * 2^(32 - t)
            lemma_pow2_adds(t as nat, (32 - t) as nat);
            lemma2_to64();
            let pu = pow2((32 - t) as nat);
            assert(pt * pu == radix());
            lemma_pow2_unfold((32 - t) as nat);
            // the cofactor is odd
            let cof = odd + pu * hi;
            assert(limbs_val(rest) == pt * cof) by (nonlinear_arith)
                requires
                    limbs_val(rest) == x + radix() * hi,
                    x == pt * odd,
                    radix() == pt * pu,
                    cof == odd + pu * hi,
            ;
            let half = pow2((32 - t - 1) as nat);
            assert(pu == 2 * half);
            assert(cof == odd + 2 * (half * hi)) by (nonlinear_arith)
                requires
                    cof == odd + pu * hi,
                    pu == 2 * half,
            ;
            vstd::arithmetic::div_mod::lemma_mod_multiples_vanish((half * hi) as int, odd as int, 2);
            assert(cof % 2 == 1);
            // the weight of the low zero limbs
            lemma_lpow_pow2(i as nat);
            let pl = lpow(i as nat);
            lemma_pow2_adds(32 * (i as nat), t as nat);
            assert(32 * (i as nat) + t as nat == r as nat);
            let pr = pow2(r as nat);
            assert(pr == pl * pt);
            assert(limbs_val(s) == pl * (pt * cof)) by {
                assert(limbs_val(s.subrange(0, i as int)) == 0);
            }
            assert(limbs_val(s) == pr * cof) by (nonlinear_arith)
                requires
                    limbs_val(s) == pl * (pt * cof),
                    pr == pl * pt,
            ;
            lemma_pow2_pos(r as nat);
            vstd::arithmetic::div_mod::lemma_mod_multiples_basic(cof as int, pr as int);
            vstd::arithmetic::div_mod::lemma_div_multiples_vanish(cof as int, pr as int);
            assert(cof * pr == pr * cof) by (nonlinear_arith);
        }
        Some(r)
    }

    /// `self` shifted right by `bits`: the floor of `self / 2^bits`.
    pub fn shr_bits(&self, bits: u64) -> (r: Natural)
        requires
            self.wf(),
        ensures
            r@ == self@ / pow2(bits as nat),
            r.wf(),
    {
        let xs = self.to_limbs_asc();
        let n = xs.len();
        let q: u64 = bits / 32;
        let b: u32 = (bits % 32) as u32;
        proof {
            lemma_pow2_adds(32 * (q as nat), b as nat);
            lemma_lpow_pow2(q as nat);
            lemma_pow2_pos(b as nat);
            lemma_lpow_pos(q as nat);
            assert(32 * (q as nat) + b as nat == bits as nat);
            assert(pow2(bits as nat) == lpow(q as nat) * pow2(b as nat));
        }
        if q >= n as u64 {
            proof {
                lemma_val_bound(xs@);
                lemma_lpow_mono(n as nat, q as nat);
                let p = pow2(bits as nat);
                assert(lpow(q as nat) * pow2(b as nat) >= lpow(q as nat)) by (nonlinear_arith)
                    requires
                        pow2(b as nat) > 0,
                ;
                vstd::arithmetic::div_mod::lemma_basic_div(limbs_val(xs@) as int, p as int);
            }
            return Natural::new();
        }
        let qq = q as usize;
        let mut rest = crate::sub_naive::limbs_copy_range(&xs, qq, n);
        let d = limb_pow2(b);
        let ghost r0 = rest@;
        let _rem = crate::arith::limbs_div_limb_in_place_mod(rest.as_mut_slice(), d);
        proof {
            let s = xs@;
            lemma_val_split(s, qq as int);
            lemma_val_bound(s.subrange(0, qq as int));
            let lo = limbs_val(s.subrange(0, qq as int));
            let p = lpow(qq as nat);
            let hv = limbs_val(r0);
            assert(limbs_val(s) == hv * p + lo) by (nonlinear_arith)
                requires
                    limbs_val(s) == lo + p * hv,
            ;
            vstd::arithmetic::div_mod::lemma_fundamental_div_mod_converse(
                limbs_val(s) as int,
                p as int,
                hv as int,
                lo as int,
            );
            vstd::arithmetic::div_mod::lemma_fundamental_div_mod_converse(
                hv as int,
                d as int,
                limbs_val(rest@) as int,
                _rem as int,
            );
            vstd::arithmetic::div_mod::lemma_div_denominator(limbs_val(s) as int, p as int, d as int);
        }
        Natural::from_owned_limbs_asc(rest)
    }

    /// `self` shifted left by `bits`: `self * 2^bits`.
    pub fn shl_bits(&self, bits: u64) -> (r: Natural)
        requires
            self.wf(),
            crate::natural::natural_limbs(*self).len() + bits / 32 + 2 <= usize::MAX,
        ensures
            r@ == self@ * pow2(bits as nat),
            r.wf(),
    {
        let xs = self.to_limbs_asc();
        let n = xs.len();
        let q: usize = (bits / 32) as usize;
        let b: u32 = (bits % 32) as u32;
        let mut v: Vec<u32> = Vec::new();
        let mut i: usize = 0;
        while i < q
            invariant
                i <= q,
                v@.len() == i,
                forall|k: int| 0 <= k < i ==> v@[k] == 0,
            decreases q - i,
        {
            v.push(0);
            i += 1;
        }
        let mut j: usize = 0;
        while j < n
            invariant
                j <= n,
                n == xs@.len(),
                v@.len() == q + j,
                forall|k: int| 0 <= k < q ==> v@[k] == 0,
                v@.subrange(q as int, (q + j) as int) == xs@.subrange(0, j as int),
            decreases n - j,
        {
            v.push(xs[j]);
            proof {
                assert(v@.subrange(q as int, (q + j + 1) as int) =~= xs@.subrange(0, j + 1));
            }
            j += 1;
        }
        let d = limb_pow2(b);
        let ghost v0 = v@;
        let carry = crate::arith::limbs_slice_mul_limb_in_place(v.as_mut_slice(), d);
        let ghost v1 = v@;
        v.push(carry);
        proof {
            assert(xs@.subrange(0, n as int) =~= xs@);
            lemma_val_split(v0, q as int);
            lemma_val_zeros(v0.subrange(0, q as int));
            assert(v0.subrange(q as int, v0.len() as int) =~= xs@);
            crate::limbs::lemma_val_push(v1, carry);
            assert(v@ =~= v1.push(carry));
            lemma_pow2_adds(32 * (q as nat), b as nat);
            lemma_lpow_pow2(q as nat);
            assert(32 * (q as nat) + b as nat == bits as nat);
            let lq = lpow(q as nat);
            let x = limbs_val(xs@);
            let pb = pow2(b as nat);
            assert(limbs_val(v@) == (lq * x) * pb);
            assert((lq * x) * pb == x * (lq * pb)) by (nonlinear_arith);
        }
        Natural::from_owned_limbs_asc(v)
    }
}

} // verus!
