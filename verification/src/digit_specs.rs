//! The value of a sequence of digits in a base, and the facts about it that digit
//! conversion rests on.
use vstd::prelude::*;
use crate::bases::{lemma_npow_add, lemma_npow_pos, npow};

verus! {

/// The value of digits in base `b`, most significant first.
pub open spec fn dval_desc(s: Seq<nat>, b: nat) -> nat
    decreases s.len(),
{
    if s.len() == 0 {
        0
    } else {
        dval_desc(s.drop_last(), b) * b + s.last()
    }
}

/// The value of digits in base `b`, least significant first.
pub open spec fn dval_asc(s: Seq<nat>, b: nat) -> nat
    decreases s.len(),
{
    if s.len() == 0 {
        0
    } else {
        dval_asc(s.drop_last(), b) + npow(b, (s.len() - 1) as nat) * s.last()
    }
}

/// Whether every digit is below `b`.
pub open spec fn all_below(s: Seq<nat>, b: nat) -> bool {
    forall|i: int| 0 <= i < s.len() ==> #[trigger] s[i] < b
}

/// Byte digits as numbers.
pub open spec fn u8_digits(s: Seq<u8>) -> Seq<nat> {
    s.map_values(|d: u8| d as nat)
}

/// Limb digits as numbers.
pub open spec fn u32_digits(s: Seq<u32>) -> Seq<nat> {
    s.map_values(|d: u32| d as nat)
}

/// Half-limb digits as numbers.
pub open spec fn u16_digits(s: Seq<u16>) -> Seq<nat> {
    s.map_values(|d: u16| d as nat)
}

/// Word-sized digits as numbers.
pub open spec fn usize_digits(s: Seq<usize>) -> Seq<nat> {
    s.map_values(|d: usize| d as nat)
}

/// Quadruple-limb digits as numbers.
pub open spec fn u128_digits(s: Seq<u128>) -> Seq<nat> {
    s.map_values(|d: u128| d as nat)
}

/// Double-limb digits as numbers.
pub open spec fn u64_digits(s: Seq<u64>) -> Seq<nat> {
    s.map_values(|d: u64| d as nat)
}

/// The digits of `x` in base `b`, least significant first, are `s`: each is below `b`, the
/// last is not zero, and they add up to `x`. Zero has no digits.
pub open spec fn is_digits_asc(s: Seq<nat>, b: nat, x: nat) -> bool {
    &&& all_below(s, b)
    &&& dval_asc(s, b) == x
    &&& (s.len() == 0 || s.last() != 0)
}

/// Digits of `x` in base `b`, most significant first.
pub open spec fn is_digits_desc(s: Seq<nat>, b: nat, x: nat) -> bool {
    &&& all_below(s, b)
    &&& dval_desc(s, b) == x
    &&& (s.len() == 0 || s[0] != 0)
}

pub proof fn lemma_u8_digits_subrange(s: Seq<u8>, i: int, j: int)
    requires
        0 <= i <= j <= s.len(),
    ensures
        u8_digits(s.subrange(i, j)) == u8_digits(s).subrange(i, j),
{
    assert(u8_digits(s.subrange(i, j)) =~= u8_digits(s).subrange(i, j));
}

pub proof fn lemma_u32_digits_subrange(s: Seq<u32>, i: int, j: int)
    requires
        0 <= i <= j <= s.len(),
    ensures
        u32_digits(s.subrange(i, j)) == u32_digits(s).subrange(i, j),
{
    assert(u32_digits(s.subrange(i, j)) =~= u32_digits(s).subrange(i, j));
}

/// Appending digits shifts the value of the front by the base to the number of digits
/// appended.
pub proof fn lemma_dval_desc_append(a: Seq<nat>, c: Seq<nat>, b: nat)
    ensures
        dval_desc(a + c, b) == dval_desc(a, b) * npow(b, c.len()) + dval_desc(c, b),
    decreases c.len(),
{
    if c.len() == 0 {
        assert(a + c =~= a);
        assert(dval_desc(a, b) * 1 == dval_desc(a, b));
    } else {
        let c0 = c.drop_last();
        lemma_dval_desc_append(a, c0, b);
        assert((a + c).drop_last() =~= a + c0);
        assert((a + c).last() == c.last());
        let va = dval_desc(a, b);
        let vc = dval_desc(c0, b);
        let p = npow(b, c0.len());
        assert(npow(b, c.len()) == b * p);
        assert((va * p + vc) * b + c.last() == va * (b * p) + (vc * b + c.last()))
            by (nonlinear_arith);
    }
}

/// A digit pushed at the end becomes the least significant digit.
pub proof fn lemma_dval_desc_push(s: Seq<nat>, x: nat, b: nat)
    ensures
        dval_desc(s.push(x), b) == dval_desc(s, b) * b + x,
{
    assert(s.push(x).drop_last() =~= s);
}

/// A digit pushed at the end becomes the most significant digit.
pub proof fn lemma_dval_asc_push(s: Seq<nat>, x: nat, b: nat)
    ensures
        dval_asc(s.push(x), b) == dval_asc(s, b) + npow(b, s.len()) * x,
{
    assert(s.push(x).drop_last() =~= s);
}

/// Digits below the base have a value below the base to the number of digits.
pub proof fn lemma_dval_desc_bound(s: Seq<nat>, b: nat)
    requires
        all_below(s, b),
        b > 0,
    ensures
        dval_desc(s, b) < npow(b, s.len()),
    decreases s.len(),
{
    if s.len() > 0 {
        let s0 = s.drop_last();
        assert(all_below(s0, b)) by {
            assert forall|i: int| 0 <= i < s0.len() implies #[trigger] s0[i] < b by {
                assert(s0[i] == s[i]);
            }
        }
        lemma_dval_desc_bound(s0, b);
        let v = dval_desc(s0, b);
        let p = npow(b, s0.len());
        assert(s[s.len() - 1] < b);
        assert(v * b + s.last() < b * p) by (nonlinear_arith)
            requires
                v < p,
                s.last() < b,
        ;
    }
}

/// The value read most significant first equals the value of the reversed digits read least
/// significant first.
pub proof fn lemma_dval_desc_reverse(s: Seq<nat>, b: nat)
    ensures
        dval_desc(s, b) == dval_asc(s.reverse(), b),
    decreases s.len(),
{
    if s.len() > 0 {
        // s = [s0] + t; reverse(s) = reverse(t).push(s0)
        let t = s.subrange(1, s.len() as int);
        lemma_dval_desc_reverse(t, b);
        assert(s.reverse() =~= t.reverse().push(s[0]));
        lemma_dval_asc_push(t.reverse(), s[0], b);
        assert(s =~= seq![s[0]] + t);
        lemma_dval_desc_append(seq![s[0]], t, b);
        lemma_dval_desc_single(s[0], b);
        let p = npow(b, t.len());
        assert(s[0] * p == p * s[0]) by (nonlinear_arith);
    }
}

/// Leading zero digits do not change the value.
pub proof fn lemma_dval_desc_leading_zeros(z: Seq<nat>, s: Seq<nat>, b: nat)
    requires
        forall|i: int| 0 <= i < z.len() ==> z[i] == 0,
    ensures
        dval_desc(z + s, b) == dval_desc(s, b),
{
    lemma_dval_desc_append(z, s, b);
    lemma_dval_desc_zeros(z, b);
    assert(0 * npow(b, s.len()) == 0);
}

/// A single digit is its own value.
pub proof fn lemma_dval_desc_single(x: nat, b: nat)
    ensures
        dval_desc(seq![x], b) == x,
{
    assert(seq![x].drop_last() =~= Seq::<nat>::empty());
    assert(dval_desc(Seq::<nat>::empty(), b) == 0);
    assert(0 * b == 0);
    assert(seq![x].last() == x);
}

/// Zero digits have value zero.
pub proof fn lemma_dval_desc_zeros(z: Seq<nat>, b: nat)
    requires
        forall|i: int| 0 <= i < z.len() ==> z[i] == 0,
    ensures
        dval_desc(z, b) == 0,
    decreases z.len(),
{
    if z.len() > 0 {
        lemma_dval_desc_zeros(z.drop_last(), b);
        assert(z.last() == z[z.len() - 1]);
        assert(0 * b == 0);
    }
}

/// A leading digit that is not zero makes the value at least the base to the number of the
/// other digits.
pub proof fn lemma_dval_desc_lower(s: Seq<nat>, b: nat)
    requires
        s.len() > 0,
        s[0] != 0,
        b > 0,
    ensures
        dval_desc(s, b) >= npow(b, (s.len() - 1) as nat),
{
    let t = s.subrange(1, s.len() as int);
    assert(s =~= seq![s[0]] + t);
    lemma_dval_desc_append(seq![s[0]], t, b);
    lemma_dval_desc_single(s[0], b);
    let p = npow(b, t.len());
    assert(s[0] * p >= p) by (nonlinear_arith)
        requires
            s[0] >= 1,
    ;
}


/// Appending digits above others adds their value at the weight of the digits below.
pub proof fn lemma_dval_asc_append(a: Seq<nat>, c: Seq<nat>, b: nat)
    ensures
        dval_asc(a + c, b) == dval_asc(a, b) + npow(b, a.len()) * dval_asc(c, b),
    decreases c.len(),
{
    if c.len() == 0 {
        assert(a + c =~= a);
        assert(npow(b, a.len()) * 0 == 0);
    } else {
        let c0 = c.drop_last();
        lemma_dval_asc_append(a, c0, b);
        assert((a + c).drop_last() =~= a + c0);
        assert((a + c).last() == c.last());
        lemma_npow_add(b, a.len(), c0.len());
        let p = npow(b, a.len());
        let q = npow(b, c0.len());
        let v = dval_asc(c0, b);
        let l = c.last();
        assert(p * (v + q * l) == p * v + (p * q) * l) by (nonlinear_arith);
    }
}

/// High zero digits do not change the value.
pub proof fn lemma_dval_asc_high_zeros(s: Seq<nat>, k: int, b: nat)
    requires
        0 <= k <= s.len(),
        forall|i: int| k <= i < s.len() ==> s[i] == 0,
    ensures
        dval_asc(s, b) == dval_asc(s.subrange(0, k), b),
    decreases s.len(),
{
    if s.len() > k {
        lemma_dval_asc_high_zeros(s.drop_last(), k, b);
        assert(s.drop_last().subrange(0, k) =~= s.subrange(0, k));
        assert(s.last() == s[s.len() - 1]);
        assert(npow(b, (s.len() - 1) as nat) * 0 == 0);
    } else {
        assert(s.subrange(0, k) =~= s);
    }
}

/// Digits whose highest digit is not zero have a value of at least the base to the number
/// of the other digits.
pub proof fn lemma_dval_asc_lower(s: Seq<nat>, b: nat)
    requires
        s.len() > 0,
        s.last() != 0,
        b > 0,
    ensures
        dval_asc(s, b) >= npow(b, (s.len() - 1) as nat),
{
    let p = npow(b, (s.len() - 1) as nat);
    assert(p * s.last() >= p) by (nonlinear_arith)
        requires
            s.last() >= 1,
    ;
}

} // verus!
