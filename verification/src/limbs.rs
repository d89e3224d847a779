//! Little-endian sequences of 32-bit limbs read as natural numbers, and the
//! facts about that reading that the arithmetic in this crate rests on.
use vstd::prelude::*;

verus! {

/// The radix of a limb: 2^32.
pub open spec fn radix() -> nat {
    4294967296
}

/// 2^(32 n): the weight of the limb at position `n`.
pub open spec fn lpow(n: nat) -> nat
    decreases n,
{
    if n == 0 {
        1
    } else {
        radix() * lpow((n - 1) as nat)
    }
}

/// The natural number whose limbs, least significant first, are `s`.
pub open spec fn limbs_val(s: Seq<u32>) -> nat
    decreases s.len(),
{
    if s.len() == 0 {
        0
    } else {
        limbs_val(s.drop_last()) + lpow((s.len() - 1) as nat) * (s.last() as nat)
    }
}

/// Whether a limb sequence has no high zero limb (the empty sequence is normalized).
pub open spec fn is_normalized(s: Seq<u32>) -> bool {
    s.len() == 0 || s.last() != 0
}

pub proof fn lemma_lpow_pos(n: nat)
    ensures
        lpow(n) > 0,
    decreases n,
{
    if n > 0 {
        lemma_lpow_pos((n - 1) as nat);
    }
}

pub proof fn lemma_lpow_add(a: nat, b: nat)
    ensures
        lpow(a + b) == lpow(a) * lpow(b),
    decreases b,
{
    if b == 0 {
        assert(lpow(a + 0) == lpow(a) * 1);
    } else {
        lemma_lpow_add(a, (b - 1) as nat);
        assert(lpow(a + b) == radix() * lpow((a + b - 1) as nat));
        assert((a + b - 1) as nat == a + (b - 1) as nat);
        let p = lpow(a);
        let q = lpow((b - 1) as nat);
        assert(radix() * (p * q) == p * (radix() * q)) by (nonlinear_arith);
    }
}

pub proof fn lemma_lpow_mono(a: nat, b: nat)
    requires
        a <= b,
    ensures
        lpow(a) <= lpow(b),
{
    lemma_lpow_add(a, (b - a) as nat);
    lemma_lpow_pos((b - a) as nat);
    lemma_lpow_pos(a);
    let p = lpow(a);
    let q = lpow((b - a) as nat);
    assert(p * q >= p) by (nonlinear_arith)
        requires
            q >= 1,
            p >= 1,
    ;
    assert(a + (b - a) as nat == b);
}

/// The value of a prefix grows by one weighted limb.
pub proof fn lemma_val_prefix_step(s: Seq<u32>, i: int)
    requires
        0 <= i < s.len(),
    ensures
        limbs_val(s.subrange(0, i + 1)) == limbs_val(s.subrange(0, i)) + lpow(i as nat) * (
        s[i] as nat),
{
    assert(s.subrange(0, i + 1).drop_last() =~= s.subrange(0, i));
}

/// Appending a limb adds it at the next weight.
pub proof fn lemma_val_push(s: Seq<u32>, x: u32)
    ensures
        limbs_val(s.push(x)) == limbs_val(s) + lpow(s.len()) * (x as nat),
{
    assert(s.push(x).drop_last() =~= s);
}

/// The value of a sequence is its lowest limb plus the radix times the value of the rest.
pub proof fn lemma_val_cons(s: Seq<u32>)
    requires
        s.len() > 0,
    ensures
        limbs_val(s) == s[0] as nat + radix() * limbs_val(s.subrange(1, s.len() as int)),
    decreases s.len(),
{
    if s.len() == 1 {
        assert(s.drop_last() =~= Seq::<u32>::empty());
        assert(s.subrange(1, 1) =~= Seq::<u32>::empty());
        assert(lpow(0) == 1);
        assert(s.last() == s[0]);
        assert(limbs_val(s.drop_last()) == 0);
        assert(limbs_val(s.subrange(1, 1)) == 0);
        let x = s[0] as nat;
        assert(lpow(0) * x == x) by (nonlinear_arith)
            requires
                lpow(0) == 1,
        ;
        assert(radix() * 0 == 0);
    } else {
        let dl = s.drop_last();
        lemma_val_cons(dl);
        assert(dl[0] == s[0]);
        let t = s.subrange(1, s.len() as int);
        assert(t.drop_last() =~= dl.subrange(1, dl.len() as int));
        assert(t.last() == s.last());
        assert(limbs_val(t) == limbs_val(t.drop_last()) + lpow((t.len() - 1) as nat) * (t.last() as nat));
        assert((t.len() - 1) as nat == (s.len() - 2) as nat);
        let a = limbs_val(dl.subrange(1, dl.len() as int));
        let p = lpow((s.len() - 2) as nat);
        let l = s.last() as nat;
        assert(lpow((s.len() - 1) as nat) == radix() * p);
        assert(radix() * (a + p * l) == radix() * a + (radix() * p) * l) by (nonlinear_arith);
        assert(limbs_val(dl) == s[0] as nat + radix() * a);
        assert(limbs_val(t) == a + p * l);
        assert(limbs_val(s) == limbs_val(dl) + lpow((s.len() - 1) as nat) * l);
        assert(limbs_val(s) == s[0] as nat + radix() * limbs_val(t));
    }
}

/// Splitting a sequence at `i` splits its value.
pub proof fn lemma_val_split(s: Seq<u32>, i: int)
    requires
        0 <= i <= s.len(),
    ensures
        limbs_val(s) == limbs_val(s.subrange(0, i)) + lpow(i as nat) * limbs_val(
            s.subrange(i, s.len() as int),
        ),
    decreases s.len(),
{
    if i == s.len() {
        assert(s.subrange(0, i) =~= s);
        assert(s.subrange(i, s.len() as int) =~= Seq::<u32>::empty());
        let p = lpow(i as nat);
        assert(p * 0 == 0) by (nonlinear_arith);
    } else {
        let dl = s.drop_last();
        lemma_val_split(dl, i);
        assert(dl.subrange(0, i) =~= s.subrange(0, i));
        let t = s.subrange(i, s.len() as int);
        assert(t.drop_last() =~= dl.subrange(i, dl.len() as int));
        assert(t.last() == s.last());
        let a = limbs_val(dl.subrange(i, dl.len() as int));
        let q = lpow((t.len() - 1) as nat);
        let p = lpow(i as nat);
        let l = s.last() as nat;
        lemma_lpow_add(i as nat, (t.len() - 1) as nat);
        assert(i as nat + (t.len() - 1) as nat == (s.len() - 1) as nat);
        assert(p * (a + q * l) == p * a + (p * q) * l) by (nonlinear_arith);
    }
}

/// A sequence of `n` limbs has a value below 2^(32 n).
pub proof fn lemma_val_bound(s: Seq<u32>)
    ensures
        limbs_val(s) < lpow(s.len()),
    decreases s.len(),
{
    if s.len() > 0 {
        lemma_val_bound(s.drop_last());
        let p = lpow((s.len() - 1) as nat);
        let v = limbs_val(s.drop_last());
        let l = s.last() as nat;
        assert(v + p * l < radix() * p) by (nonlinear_arith)
            requires
                v < p,
                l < radix(),
        ;
    }
}

/// A sequence of zero limbs has value zero.
pub proof fn lemma_val_zeros(s: Seq<u32>)
    requires
        forall|i: int| 0 <= i < s.len() ==> s[i] == 0,
    ensures
        limbs_val(s) == 0,
    decreases s.len(),
{
    if s.len() > 0 {
        lemma_val_zeros(s.drop_last());
    }
}

/// High zero limbs do not change the value.
pub proof fn lemma_val_high_zeros(s: Seq<u32>, k: int)
    requires
        0 <= k <= s.len(),
        forall|i: int| k <= i < s.len() ==> s[i] == 0,
    ensures
        limbs_val(s) == limbs_val(s.subrange(0, k)),
{
    lemma_val_split(s, k);
    lemma_val_zeros(s.subrange(k, s.len() as int));
}

/// A normalized nonempty sequence has value at least 2^(32 (n - 1)).
pub proof fn lemma_val_normalized_lower(s: Seq<u32>)
    requires
        s.len() > 0,
        s.last() != 0,
    ensures
        limbs_val(s) >= lpow((s.len() - 1) as nat),
{
    let p = lpow((s.len() - 1) as nat);
    let l = s.last() as nat;
    assert(p * l >= p) by (nonlinear_arith)
        requires
            l >= 1,
    ;
}

/// The value of a sequence is zero exactly when all its limbs are zero.
pub proof fn lemma_val_zero_iff(s: Seq<u32>)
    ensures
        limbs_val(s) == 0 <==> (forall|i: int| 0 <= i < s.len() ==> s[i] == 0),
    decreases s.len(),
{
    if s.len() > 0 {
        lemma_val_zero_iff(s.drop_last());
        lemma_lpow_pos((s.len() - 1) as nat);
        let p = lpow((s.len() - 1) as nat);
        let l = s.last() as nat;
        if l > 0 {
            assert(p * l > 0) by (nonlinear_arith)
                requires
                    p > 0,
                    l > 0,
            ;
        }
        if limbs_val(s) == 0 {
            assert forall|i: int| 0 <= i < s.len() implies s[i] == 0 by {
                if i < s.len() - 1 {
                    assert(s.drop_last()[i] == s[i]);
                }
            }
        } else {
            if forall|i: int| 0 <= i < s.len() ==> s[i] == 0 {
                assert forall|i: int| 0 <= i < s.drop_last().len() implies s.drop_last()[i]
                    == 0 by {
                    assert(s.drop_last()[i] == s[i]);
                }
                assert(s[s.len() - 1] == 0);
            }
        }
    }
}

/// Two sequences of one length compare as their highest differing limb does.
pub proof fn lemma_val_lt_from_top(a: Seq<u32>, b: Seq<u32>, k: int)
    requires
        a.len() == b.len(),
        0 <= k < a.len(),
        a[k] < b[k],
        forall|i: int| k < i < a.len() ==> a[i] == b[i],
    ensures
        limbs_val(a) < limbs_val(b),
{
    let n = a.len() as int;
    lemma_val_split(a, k + 1);
    lemma_val_split(b, k + 1);
    assert(a.subrange(k + 1, n) =~= b.subrange(k + 1, n));
    lemma_val_prefix_step(a, k);
    lemma_val_prefix_step(b, k);
    lemma_val_bound(a.subrange(0, k));
    let p = lpow(k as nat);
    let va = limbs_val(a.subrange(0, k));
    let vb = limbs_val(b.subrange(0, k));
    let x = a[k] as nat;
    let y = b[k] as nat;
    assert(va + p * x < vb + p * y) by (nonlinear_arith)
        requires
            va < p,
            x < y,
    ;
}

} // verus!

verus! {

/// Scaling a one-limb carry relation by a limb weight.
pub proof fn lemma_weighted_step(p: nat, a: int, b: int, c: int, d: int)
    requires
        a + radix() * b == c + d,
    ensures
        p * a + (radix() * p) * b == p * c + p * d,
{
    assert(p * a + (radix() * p) * b == p * (a + radix() * b)) by (nonlinear_arith);
    assert(p * (c + d) == p * c + p * d) by (nonlinear_arith);
}

/// A quotient and a remainder determine division by `m`.
pub proof fn lemma_div_mod_pair(total: int, m: int, q: int, r: int)
    requires
        m > 0,
        0 <= r < m,
        q >= 0,
        total == q * m + r,
    ensures
        r == total % m,
        q == total / m,
        q > 0 <==> total >= m,
{
    vstd::arithmetic::div_mod::lemma_fundamental_div_mod_converse(total, m, q, r);
    if q > 0 {
        assert(q * m >= m) by (nonlinear_arith)
            requires
                q >= 1,
                m > 0,
        ;
    }
}

} // verus!

verus! {

/// Writing at `i` keeps what lies above `i` equal to `o`, and below `i` equal
/// to the sequence before the write.
pub proof fn lemma_update_keeps_suffix(o: Seq<u32>, p: Seq<u32>, i: int, v: u32)
    requires
        0 <= i < o.len(),
        o.len() == p.len(),
        p.subrange(i, p.len() as int) == o.subrange(i, o.len() as int),
    ensures
        p.update(i, v).subrange(i + 1, p.len() as int) == o.subrange(i + 1, o.len() as int),
        p.update(i, v).subrange(0, i) == p.subrange(0, i),
        p[i] == o[i],
        p.update(i, v)[i] == v,
{
    let n = o.len() as int;
    assert forall|k: int| i + 1 <= k < n implies p.update(i, v)[k] == o[k] by {
        assert(o.subrange(i, n)[k - i] == p.subrange(i, n)[k - i]);
    }
    assert(p.update(i, v).subrange(i + 1, n) =~= o.subrange(i + 1, n));
    assert(p.update(i, v).subrange(0, i) =~= p.subrange(0, i));
    assert(o.subrange(i, n)[0] == p.subrange(i, n)[0]);
}

/// Writing at `i` keeps what lies outside `i`.
pub proof fn lemma_update_keeps_range(p: Seq<u32>, i: int, v: u32, a: int, b: int)
    requires
        0 <= a <= b <= p.len(),
        i < a || i >= b,
        0 <= i < p.len(),
    ensures
        p.update(i, v).subrange(a, b) == p.subrange(a, b),
{
    assert(p.update(i, v).subrange(a, b) =~= p.subrange(a, b));
}

} // verus!

verus! {

/// The weight of limb `n` is 2^(32 n).
pub proof fn lemma_lpow_pow2(n: nat)
    ensures
        lpow(n) == vstd::arithmetic::power2::pow2(32 * n),
    decreases n,
{
    if n == 0 {
        vstd::arithmetic::power2::lemma2_to64();
    } else {
        lemma_lpow_pow2((n - 1) as nat);
        vstd::arithmetic::power2::lemma_pow2_adds(32, 32 * (n - 1) as nat);
        vstd::arithmetic::power2::lemma2_to64();
        assert(vstd::arithmetic::power2::pow2(32) == radix());
        assert(32 + 32 * (n - 1) as nat == 32 * n);
    }
}

} // verus!
