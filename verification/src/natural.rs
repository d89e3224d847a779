//! Natural numbers: a limb when small enough, else a vector of limbs, least significant first.
use vstd::prelude::*;
use crate::limbs::{
    is_normalized, lemma_lpow_pos, lemma_val_bound, lemma_val_high_zeros, lemma_val_normalized_lower,
    lemma_val_push, lemma_val_zero_iff, limbs_val, lpow, radix,
};

verus! {

/// A natural (non-negative) integer.
///
/// Any `Natural` small enough to fit into a `u32` is represented inline. Only naturals outside
/// this range incur the costs of heap-allocation.
#[derive(Clone, PartialEq, Eq, Hash, Debug)]
pub enum Natural {
    Small(u32),
    Large(Vec<u32>),
}

/// The limbs of a natural, least significant first; a small natural has one limb.
pub open spec fn natural_limbs(n: Natural) -> Seq<u32> {
    match n {
        Natural::Small(x) => seq![x],
        Natural::Large(xs) => xs@,
    }
}

impl View for Natural {
    type V = nat;

    /// The number that a natural stands for.
    open spec fn view(&self) -> nat {
        limbs_val(natural_limbs(*self))
    }
}

impl Natural {
    /// The form that all naturals handed out by this crate have: a large natural is at least
    /// 2^32 and has no high zero limb.
    pub open spec fn wf(self) -> bool {
        match self {
            Natural::Small(_) => true,
            Natural::Large(xs) => xs@.len() > 1 && xs@.last() != 0,
        }
    }

    /// Creates a new `Natural` equal to 0.
    pub fn new() -> (r: Natural)
        ensures
            r@ == 0,
            r.wf(),
            r == Natural::Small(0),
    {
        proof {
            lemma_small_val(0);
        }
        Natural::Small(0)
    }

    /// Returns true iff `self` is valid. To be valid, `self` can only be Large when it is at
    /// least 2^(32), and cannot have leading zero limbs. All Naturals used outside this crate
    /// are valid, but temporary Naturals used inside may not be.
    pub fn is_valid(&self) -> (r: bool)
        ensures
            r == self.wf(),
    {
        match self {
            Natural::Small(_) => true,
            Natural::Large(xs) => xs.len() > 1 && xs[xs.len() - 1] != 0,
        }
    }

    /// Turns a small natural into a large one with the same value.
    fn promote(&mut self)
        ensures
            final(self)@ == old(self)@,
            *final(self) matches Natural::Large(_),
            natural_limbs(*final(self)) == natural_limbs(*old(self)),
    {
        if let Natural::Small(x) = *self {
            let mut xs: Vec<u32> = Vec::new();
            xs.push(x);
            proof {
                assert(xs@ =~= seq![x]);
            }
            *self = Natural::Large(xs);
        }
    }

    /// The limb vector of a large natural.
    fn get_u32s_ref(&self) -> (r: &Vec<u32>)
        requires
            self matches Natural::Large(_),
        ensures
            r@ == natural_limbs(*self),
    {
        match self {
            Natural::Large(xs) => xs,
            Natural::Small(_) => vstd::pervasive::unreached(),
        }
    }

    /// Removes high zero limbs of a large natural, and turns it into a small one when a
    /// single limb is left. The value is kept.
    fn trim(&mut self)
        ensures
            final(self)@ == old(self)@,
            (*old(self) matches Natural::Small(_)) ==> *final(self) == *old(self),
            final(self)@ != 0 ==> final(self).wf(),
    {
        let mut demote: Option<u32> = None;
        if let Natural::Large(xs) = self {
            let ghost orig = xs@;
            while xs.len() > 0 && xs[xs.len() - 1] == 0
                invariant
                    limbs_val(xs@) == limbs_val(orig),
                decreases xs@.len(),
            {
                let ghost before = xs@;
                xs.pop();
                proof {
                    assert(before =~= xs@.push(0));
                    lemma_val_push(xs@, 0);
                    assert(lpow(xs@.len()) * 0 == 0) by (nonlinear_arith);
                }
            }
            if xs.len() == 1 {
                demote = Some(xs[0]);
                proof {
                    assert(xs@ =~= seq![xs@[0]]);
                }
            }
            proof {
                if xs@.len() == 0 {
                    assert(xs@ =~= Seq::<u32>::empty());
                }
            }
        }
        if let Some(x) = demote {
            *self = Natural::Small(x);
        }
        proof {
            if let Natural::Large(ys) = self {
                if ys@.len() == 0 {
                    assert(limbs_val(ys@) == 0);
                } else if ys@.len() == 1 {
                    assert(false);
                }
            }
        }
    }

    /// The natural whose limbs, least significant first, are `xs`.
    pub fn from_limbs_asc(xs: &[u32]) -> (r: Natural)
        ensures
            r@ == limbs_val(xs@),
            r.wf(),
    {
        let mut n = xs.len();
        while n > 0 && xs[n - 1] == 0
            invariant
                n <= xs@.len(),
                forall|i: int| n <= i < xs@.len() ==> xs@[i] == 0,
            decreases n,
        {
            n -= 1;
        }
        proof {
            lemma_val_high_zeros(xs@, n as int);
        }
        if n == 0 {
            proof {
                lemma_val_zero_iff(xs@.subrange(0, 0));
                lemma_small_val(0);
            }
            Natural::Small(0)
        } else if n == 1 {
            proof {
                lemma_small_val(xs@[0]);
                assert(xs@.subrange(0, 1) =~= seq![xs@[0]]);
            }
            Natural::Small(xs[0])
        } else {
            let v = crate::sub_naive::limbs_copy_range(xs, 0, n);
            Natural::Large(v)
        }
    }

    /// The natural whose limbs, least significant first, are `xs`.
    pub fn from_owned_limbs_asc(xs: Vec<u32>) -> (r: Natural)
        ensures
            r@ == limbs_val(xs@),
            r.wf(),
    {
        Natural::from_limbs_asc(xs.as_slice())
    }

    /// The limbs of `self`, least significant first, without high zero limbs; zero has none.
    pub fn to_limbs_asc(&self) -> (r: Vec<u32>)
        requires
            self.wf(),
        ensures
            limbs_val(r@) == self@,
            is_normalized(r@),
            r@.len() <= natural_limbs(*self).len(),
    {
        match self {
            Natural::Small(x) => {
                let mut v: Vec<u32> = Vec::new();
                if *x != 0 {
                    v.push(*x);
                }
                proof {
                    lemma_small_val(*x);
                    if *x != 0 {
                        assert(v@ =~= seq![*x]);
                    } else {
                        assert(v@ =~= Seq::<u32>::empty());
                    }
                }
                v
            },
            Natural::Large(xs) => xs.clone(),
        }
    }

    /// The natural equal to `x`.
    pub fn from_u32(x: u32) -> (r: Natural)
        ensures
            r@ == x as nat,
            r.wf(),
            r == Natural::Small(x),
    {
        proof {
            lemma_small_val(x);
        }
        Natural::Small(x)
    }

    /// The natural equal to `x`.
    pub fn from_u64(x: u64) -> (r: Natural)
        ensures
            r@ == x as nat,
            r.wf(),
    {
        let lo = (x % 4294967296) as u32;
        let hi = (x / 4294967296) as u32;
        let mut v: Vec<u32> = Vec::new();
        v.push(lo);
        v.push(hi);
        proof {
            lemma_val_push(Seq::<u32>::empty(), lo);
            assert(Seq::<u32>::empty().push(lo) =~= seq![lo]);
            lemma_val_push(seq![lo], hi);
            assert(seq![lo].push(hi) =~= v@);
            assert(limbs_val(Seq::<u32>::empty()) == 0);
            assert(lpow(0) == 1);
            assert(lpow(1) == radix()) by {
                assert(lpow(1) == radix() * lpow(0));
            }
            assert(1 * (lo as nat) == lo as nat);
            assert(lpow(1) * (hi as nat) == radix() * (hi as nat));
            vstd::arithmetic::div_mod::lemma_fundamental_div_mod(x as int, 4294967296);
        }
        Natural::from_owned_limbs_asc(v)
    }
}

impl Natural {
    /// Whether `self` is zero.
    pub fn is_zero(&self) -> (r: bool)
        requires
            self.wf(),
        ensures
            r <==> self@ == 0,
    {
        match self {
            Natural::Small(x) => {
                proof {
                    lemma_small_val(*x);
                }
                *x == 0
            },
            Natural::Large(xs) => {
                proof {
                    lemma_val_normalized_lower(xs@);
                    crate::limbs::lemma_lpow_pos((xs@.len() - 1) as nat);
                }
                false
            },
        }
    }

    /// A copy of `self`.
    pub fn clone_natural(&self) -> (r: Natural)
        ensures
            natural_limbs(r) == natural_limbs(*self),
            (r matches Natural::Small(_)) == (*self matches Natural::Small(_)),
            r@ == self@,
            r.wf() == self.wf(),
    {
        match self {
            Natural::Small(x) => Natural::Small(*x),
            Natural::Large(xs) => {
                let v = crate::sub_naive::limbs_copy_range(xs.as_slice(), 0, xs.len());
                proof {
                    assert(v@ =~= xs@);
                }
                Natural::Large(v)
            },
        }
    }

    /// Whether `self` is odd.
    pub fn is_odd(&self) -> (r: bool)
        ensures
            r <==> self@ % 2 == 1,
    {
        let lo = self.low_u32();
        proof {
            vstd::arithmetic::div_mod::lemma_mod_mod(self@ as int, 2, 2147483648);
        }
        lo % 2 == 1
    }

    /// The value of `self` modulo 2^32: its lowest limb.
    pub fn low_u32(&self) -> (r: u32)
        ensures
            r as nat == self@ % radix(),
    {
        match self {
            Natural::Small(x) => {
                proof {
                    lemma_small_val(*x);
                    vstd::arithmetic::div_mod::lemma_small_mod(*x as nat, radix());
                }
                *x
            },
            Natural::Large(xs) => {
                if xs.len() == 0 {
                    proof {
                        assert(xs@ =~= Seq::<u32>::empty());
                    }
                    return 0;
                }
                proof {
                    let s = xs@;
                    crate::limbs::lemma_val_cons(s);
                    let rest = limbs_val(s.subrange(1, s.len() as int));
                    vstd::arithmetic::div_mod::lemma_fundamental_div_mod_converse(
                        limbs_val(s) as int,
                        radix() as int,
                        rest as int,
                        s[0] as int,
                    );
                }
                xs[0]
            },
        }
    }

    /// The value of `self` modulo 2^64: its two lowest limbs.
    pub fn low_u64(&self) -> (r: u64)
        ensures
            r as nat == self@ % 18446744073709551616,
    {
        match self {
            Natural::Small(x) => {
                proof {
                    lemma_small_val(*x);
                    vstd::arithmetic::div_mod::lemma_small_mod(*x as nat, 18446744073709551616);
                }
                *x as u64
            },
            Natural::Large(xs) => {
                let n = xs.len();
                if n < 2 {
                    proof {
                        lemma_val_bound(xs@);
                        crate::limbs::lemma_lpow_mono(n as nat, 2);
                        crate::limbs::lemma_lpow_pow2(2);
                        vstd::arithmetic::power2::lemma2_to64();
                        vstd::arithmetic::div_mod::lemma_small_mod(limbs_val(xs@), 18446744073709551616);
                    }
                    if n == 0 {
                        proof {
                            assert(xs@ =~= Seq::<u32>::empty());
                        }
                        return 0;
                    } else {
                        proof {
                            assert(xs@ =~= seq![xs@[0]]);
                            lemma_small_val(xs@[0]);
                        }
                        return xs[0] as u64;
                    }
                }
                let lo = make_u64(xs[1], xs[0]);
                proof {
                    let s = xs@;
                    crate::limbs::lemma_val_split(s, 2);
                    let low = s.subrange(0, 2);
                    crate::limbs::lemma_val_prefix_step(low, 1);
                    assert(low.subrange(0, 2) =~= low);
                    assert(low.subrange(0, 1) =~= seq![s[0]]);
                    lemma_small_val(s[0]);
                    assert(lpow(1) == radix()) by {
                        assert(lpow(1) == radix() * lpow(0));
                    }
                    assert(limbs_val(low) == s[0] as nat + radix() * (s[1] as nat)) by (nonlinear_arith)
                        requires
                            limbs_val(low) == s[0] as nat + lpow(1) * (s[1] as nat),
                            lpow(1) == radix(),
                    ;
                    crate::limbs::lemma_lpow_pow2(2);
                    vstd::arithmetic::power2::lemma2_to64();
                    let rest = limbs_val(s.subrange(2, n as int));
                    assert(lpow(2) == 18446744073709551616);
                    assert(limbs_val(s) == rest * 18446744073709551616 + lo as nat) by (nonlinear_arith)
                        requires
                            limbs_val(s) == limbs_val(low) + lpow(2) * rest,
                            lpow(2) == 18446744073709551616,
                            limbs_val(low) == lo as nat,
                    ;
                    vstd::arithmetic::div_mod::lemma_fundamental_div_mod_converse(
                        limbs_val(s) as int,
                        18446744073709551616,
                        rest as int,
                        lo as int,
                    );
                }
                lo
            },
        }
    }

    /// The value of `self` as a `u64`, or `None` when it does not fit.
    pub fn to_u64(&self) -> (r: Option<u64>)
        requires
            self.wf(),
        ensures
            r is Some <==> self@ < 18446744073709551616,
            r matches Some(x) ==> x as nat == self@,
    {
        let fits = match self {
            Natural::Small(_) => true,
            Natural::Large(xs) => xs.len() == 2,
        };
        proof {
            crate::limbs::lemma_lpow_pow2(2);
            vstd::arithmetic::power2::lemma2_to64();
            if let Natural::Large(xs) = self {
                if xs@.len() == 2 {
                    lemma_val_bound(xs@);
                } else {
                    lemma_val_normalized_lower(xs@);
                    crate::limbs::lemma_lpow_mono(2, (xs@.len() - 1) as nat);
                }
            } else if let Natural::Small(x) = self {
                lemma_small_val(*x);
            }
        }
        if fits {
            let lo = self.low_u64();
            proof {
                vstd::arithmetic::div_mod::lemma_small_mod(self@, 18446744073709551616);
            }
            Some(lo)
        } else {
            None
        }
    }

    /// The number of bits of `self`: zero for zero, else one more than the position of its
    /// highest set bit.
    pub fn significant_bits(&self) -> (r: u64)
        requires
            self.wf(),
            natural_limbs(*self).len() < 0x100000000000000,
        ensures
            self@ < vstd::arithmetic::power2::pow2(r as nat),
            r == 0 <==> self@ == 0,
            r > 0 ==> self@ >= vstd::arithmetic::power2::pow2((r - 1) as nat),
    {
        match self {
            Natural::Small(x) => {
                proof {
                    lemma_small_val(*x);
                }
                limb_significant_bits(*x) as u64
            },
            Natural::Large(xs) => {
                let n = xs.len();
                let top = xs[n - 1];
                let k = limb_significant_bits(top);
                let r = 32 * ((n - 1) as u64) + (k as u64);
                proof {
                    let s = xs@;
                    let e = 32 * ((n - 1) as nat);
                    crate::limbs::lemma_lpow_pow2((n - 1) as nat);
                    lemma_val_bound(s.drop_last());
                    let low = limbs_val(s.drop_last());
                    let p = lpow((n - 1) as nat);
                    let t = top as nat;
                    assert(limbs_val(s) == low + p * t);
                    vstd::arithmetic::power2::lemma_pow2_adds(e, k as nat);
                    vstd::arithmetic::power2::lemma_pow2_adds(e, (k - 1) as nat);
                    let pk = vstd::arithmetic::power2::pow2(k as nat);
                    let pk1 = vstd::arithmetic::power2::pow2((k - 1) as nat);
                    assert(low + p * t < p * pk) by (nonlinear_arith)
                        requires
                            low < p,
                            t < pk,
                            t + 1 <= pk,
                    ;
                    assert(low + p * t >= p * pk1) by (nonlinear_arith)
                        requires
                            t >= pk1,
                            low >= 0,
                            p >= 0,
                    ;
                    assert(e + k as nat == r as nat);
                    assert(e + (k - 1) as nat == (r - 1) as nat);
                    lemma_val_normalized_lower(s);
                    crate::limbs::lemma_lpow_pos((n - 1) as nat);
                }
                r
            },
        }
    }
}

/// The number of bits of `x`: zero for zero, else one more than the position of its highest
/// set bit.
pub fn limb_significant_bits(x: u32) -> (r: u32)
    ensures
        (x as nat) < vstd::arithmetic::power2::pow2(r as nat),
        r == 0 <==> x == 0,
        r > 0 ==> (x as nat) >= vstd::arithmetic::power2::pow2((r - 1) as nat),
        r <= 32,
{
    let mut v = x;
    let mut k: u32 = 0;
    proof {
        vstd::arithmetic::power2::lemma2_to64();
    }
    while v != 0
        invariant
            k <= 32,
            (v as nat) * vstd::arithmetic::power2::pow2(k as nat) <= x as nat,
            (x as nat) < (v as nat + 1) * vstd::arithmetic::power2::pow2(k as nat),
            (v as nat) < vstd::arithmetic::power2::pow2((32 - k) as nat),
            k > 0 ==> v > 0 || x as nat >= vstd::arithmetic::power2::pow2((k - 1) as nat),
            x == 0 ==> k == 0,
        decreases v,
    {
        let nv = v / 2;
        proof {
            vstd::arithmetic::power2::lemma2_to64();
            vstd::arithmetic::power2::lemma_pow2_pos(k as nat);
            let p = vstd::arithmetic::power2::pow2(k as nat);
            assert((v as nat) * p >= 1) by (nonlinear_arith)
                requires
                    v >= 1,
                    p >= 1,
            ;
            vstd::arithmetic::power2::lemma_pow2_unfold((k + 1) as nat);
            assert(vstd::arithmetic::power2::pow2((k + 1) as nat) == 2 * p);
            vstd::arithmetic::div_mod::lemma_fundamental_div_mod(v as int, 2);
            let vv = v as nat;
            let nn = nv as nat;
            assert(nn * (2 * p) <= vv * p) by (nonlinear_arith)
                requires
                    vv == 2 * nn + vv % 2,
                    p >= 0,
            ;
            assert((vv + 1) * p <= (nn + 1) * (2 * p)) by (nonlinear_arith)
                requires
                    vv == 2 * nn + vv % 2,
                    vv % 2 <= 1,
                    p >= 0,
            ;
            if k == 32 {
                assert(vstd::arithmetic::power2::pow2(0) == 1);
                assert(false);
            }
            vstd::arithmetic::power2::lemma_pow2_unfold((32 - k) as nat);
            assert(vstd::arithmetic::power2::pow2((32 - k) as nat) == 2 * vstd::arithmetic::power2::pow2((32 - k - 1) as nat));
            if nv == 0 {
                assert(vv >= 1);
                assert(x as nat >= vv * p);
                assert(vv * p >= p) by (nonlinear_arith)
                    requires
                        vv >= 1,
                        p >= 0,
                ;
            }
        }
        v = nv;
        k += 1;
    }
    proof {
        let p = vstd::arithmetic::power2::pow2(k as nat);
        assert((v as nat + 1) * p == p) by (nonlinear_arith)
            requires
                v == 0,
        ;
        if x == 0 {
            assert(k == 0);
        }
        if k == 0 && x != 0 {
            assert((x as nat) < 1 * vstd::arithmetic::power2::pow2(0));
        }
    }
    k
}

/// A one-limb sequence has the value of its limb.
pub proof fn lemma_small_val(x: u32)
    ensures
        limbs_val(seq![x]) == x as nat,
{
    assert(seq![x].drop_last() =~= Seq::<u32>::empty());
    assert(seq![x].len() == 1);
    assert(seq![x].last() == x);
    assert(limbs_val(Seq::<u32>::empty()) == 0);
    assert(lpow(0) == 1);
    assert(1 * (x as nat) == x as nat);
}

impl Default for Natural {
    /// Creates a default `Natural` equal to 0.
    fn default() -> (r: Natural)
        ensures
            r@ == 0,
            r.wf(),
    {
        Natural::new()
    }
}

/// The 64-bit number whose high half is `upper` and low half is `lower`.
pub fn make_u64(upper: u32, lower: u32) -> (r: u64)
    ensures
        r as nat == (upper as nat) * radix() + lower as nat,
{
    let r = (upper as u64) << 32 | (lower as u64);
    assert(r == (upper as u64) * 4294967296 + (lower as u64)) by (bit_vector)
        requires
            r == (upper as u64) << 32 | (lower as u64),
    ;
    r
}

/// The low half of `val`.
pub fn get_lower(val: u64) -> (r: u32)
    ensures
        r as nat == (val as nat) % radix(),
{
    let r = (val & 0x0000_0000_ffff_ffff) as u32;
    assert(r == val % 4294967296) by (bit_vector)
        requires
            r == (val & 0x0000_0000_ffff_ffff) as u32,
    ;
    r
}

/// The high half of `val`.
pub fn get_upper(val: u64) -> (r: u32)
    ensures
        r as nat == (val as nat) / radix(),
{
    let r = ((val & 0xffff_ffff_0000_0000) >> 32) as u32;
    assert(r == val / 4294967296) by (bit_vector)
        requires
            r == ((val & 0xffff_ffff_0000_0000) >> 32) as u32,
    ;
    r
}

} // verus!
