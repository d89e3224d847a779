//! Per-base constants: how many base-`b` digits fit in one limb, and the matching power of `b`.
use vstd::prelude::*;

verus! {

/// `b` raised to the power `k`.
pub open spec fn npow(b: nat, k: nat) -> nat
    decreases k,
{
    if k == 0 {
        1
    } else {
        b * npow(b, (k - 1) as nat)
    }
}

/// Whether `b` is a power of two, by its bits.
pub open spec fn is_pow2_u64(b: u64) -> bool {
    b != 0 && (b & ((b - 1) as u64)) == 0
}

/// The largest `k` such that `b^k` fits in a limb, and `b^k` itself.
pub open spec fn is_limb_power(b: nat, k: nat, p: nat) -> bool {
    &&& p == npow(b, k)
    &&& p <= 4294967295
    &&& npow(b, k + 1) > 4294967295
}

pub proof fn lemma_npow_pos(b: nat, k: nat)
    requires
        b > 0,
    ensures
        npow(b, k) > 0,
    decreases k,
{
    if k > 0 {
        lemma_npow_pos(b, (k - 1) as nat);
        assert(b * npow(b, (k - 1) as nat) > 0) by (nonlinear_arith)
            requires
                b > 0,
                npow(b, (k - 1) as nat) > 0,
        ;
    }
}

/// Powers of two agree with `pow2`.
pub proof fn lemma_npow2(k: nat)
    ensures
        npow(2, k) == vstd::arithmetic::power2::pow2(k),
    decreases k,
{
    if k == 0 {
        vstd::arithmetic::power2::lemma2_to64();
    } else {
        lemma_npow2((k - 1) as nat);
        vstd::arithmetic::power2::lemma_pow2_unfold(k);
    }
}

pub proof fn lemma_npow_add(b: nat, x: nat, y: nat)
    ensures
        npow(b, x + y) == npow(b, x) * npow(b, y),
    decreases y,
{
    if y == 0 {
        assert(npow(b, x) * 1 == npow(b, x));
        assert(x + 0 == x);
    } else {
        lemma_npow_add(b, x, (y - 1) as nat);
        assert((x + y - 1) as nat == x + (y - 1) as nat);
        let p = npow(b, x);
        let q = npow(b, (y - 1) as nat);
        assert(b * (p * q) == p * (b * q)) by (nonlinear_arith);
    }
}

pub proof fn lemma_npow_mono(b: nat, x: nat, y: nat)
    requires
        b > 0,
        x <= y,
    ensures
        npow(b, x) <= npow(b, y),
{
    lemma_npow_add(b, x, (y - x) as nat);
    lemma_npow_pos(b, (y - x) as nat);
    lemma_npow_pos(b, x);
    let p = npow(b, x);
    let q = npow(b, (y - x) as nat);
    assert(p <= p * q) by (nonlinear_arith)
        requires
            q >= 1,
            p >= 1,
    ;
    assert(x + (y - x) as nat == y);
}

/// The number of digits that fit in a limb is determined by the base.
pub proof fn lemma_limb_power_unique(b: nat, k1: nat, p1: nat, k2: nat, p2: nat)
    requires
        b >= 2,
        is_limb_power(b, k1, p1),
        is_limb_power(b, k2, p2),
    ensures
        k1 == k2,
        p1 == p2,
{
    if k1 < k2 {
        lemma_npow_mono(b, k1 + 1, k2);
    }
    if k2 < k1 {
        lemma_npow_mono(b, k2 + 1, k1);
    }
}

/// The number of base-`base` digits that fit in a limb, together with `base` raised to that
/// number: the largest power of `base` that fits in a limb.
pub fn chars_per_limb_and_big_base(base: u64) -> (r: (usize, u32))
    requires
        2 <= base <= 4294967295,
    ensures
        is_limb_power(base as nat, r.0 as nat, r.1 as nat),
        r.0 >= 1,
        r.0 <= 32,
{
    let mut k: usize = 0;
    let mut p: u64 = 1;
    while p * base <= 4294967295
        invariant
            2 <= base <= 4294967295,
            p as nat == npow(base as nat, k as nat),
            1 <= p <= 4294967295,
            k <= 32,
            npow(2, k as nat) <= p,
            (p as nat) * (base as nat) <= 4294967295 * 4294967295,
        decreases 4294967295 - p,
    {
        proof {
            assert(npow(2, (k + 1) as nat) == 2 * npow(2, k as nat));
            assert(npow(base as nat, (k + 1) as nat) == base * npow(base as nat, k as nat));
            assert(2 * (p as nat) <= (base as nat) * (p as nat)) by (nonlinear_arith)
                requires
                    base >= 2,
            ;
            if k == 32 {
                lemma_npow2(32);
                vstd::arithmetic::power2::lemma2_to64();
            }
        }
        let ghost old_p = p;
        p = p * base;
        k = k + 1;
        proof {
            assert((base as nat) * (old_p as nat) == (old_p as nat) * (base as nat)) by (nonlinear_arith);
            assert((p as nat) * (base as nat) <= 4294967295 * 4294967295) by (nonlinear_arith)
                requires
                    p <= 4294967295,
                    base <= 4294967295,
            ;
            if k == 33 {
                lemma_npow2(33);
                vstd::arithmetic::power2::lemma2_to64_rest();
            }
        }
    }
    proof {
        assert(npow(base as nat, (k + 1) as nat) == base * npow(base as nat, k as nat));
        assert((base as nat) * (p as nat) == (p as nat) * (base as nat)) by (nonlinear_arith);
        if k == 0 {
            assert(npow(base as nat, 0) == 1);
            assert(npow(base as nat, 1) == (base as nat) * npow(base as nat, 0));
            assert(npow(base as nat, 1) == base);
        }
    }
    (k, p as u32)
}

/// Whether `k` is the number of base-`base` digits per limb: for a power of two, the largest
/// `k` with `base^k` at most 2^32 (a limb holds exactly `k` such digits); for another base, the
/// largest `k` with `base^k` at most `u32::MAX`.
pub open spec fn is_chars_per_limb(base: u64, k: nat) -> bool {
    if is_pow2_u64(base) {
        npow(base as nat, k) <= 4294967296 && npow(base as nat, k + 1) > 4294967296
    } else {
        npow(base as nat, k) <= 4294967295 && npow(base as nat, k + 1) > 4294967295
    }
}

/// The number of digits per limb is determined by the base.
pub proof fn lemma_chars_per_limb_unique(base: u64, k1: nat, k2: nat)
    requires
        base >= 2,
        is_chars_per_limb(base, k1),
        is_chars_per_limb(base, k2),
    ensures
        k1 == k2,
{
    if k1 < k2 {
        lemma_npow_mono(base as nat, k1 + 1, k2);
    }
    if k2 < k1 {
        lemma_npow_mono(base as nat, k2 + 1, k1);
    }
}

/// The number of base-`base` digits that fit in a limb, for any base from 2 to 256.
pub fn get_chars_per_limb(base: u64) -> (r: usize)
    requires
        2 <= base <= 256,
    ensures
        is_chars_per_limb(base, r as nat),
        1 <= r <= 32,
{
    let (k, p) = chars_per_limb_and_big_base(base);
    let is_pow2 = base & (base - 1) == 0;
    proof {
        assert(is_pow2 == is_pow2_u64(base));
        assert((p as nat) * (base as nat) <= 4294967295 * 256) by (nonlinear_arith)
            requires
                p <= 4294967295,
                base <= 256,
        ;
        assert(npow(base as nat, (k + 1) as nat) == base * npow(base as nat, k as nat));
        assert((p as nat) * (base as nat) == (base as nat) * (p as nat)) by (nonlinear_arith);
    }
    if is_pow2 && (p as u64) * base == 4294967296 {
        proof {
            assert(npow(base as nat, (k + 1) as nat) == base * npow(base as nat, k as nat));
            assert((p as nat) * (base as nat) == (base as nat) * (p as nat)) by (nonlinear_arith);
            assert(npow(base as nat, (k + 2) as nat) == base * npow(base as nat, (k + 1) as nat));
            assert(k + 1 <= 32) by {
                if k + 1 > 32 {
                    lemma_npow_base_mono(2, base as nat, (k + 1) as nat);
                    lemma_npow_mono(2, 33, (k + 1) as nat);
                    lemma_npow2(33);
                    vstd::arithmetic::power2::lemma2_to64_rest();
                }
            }
        }
        k + 1
    } else {
        proof {
            assert(npow(base as nat, (k + 1) as nat) == base * npow(base as nat, k as nat));
            assert((p as nat) * (base as nat) == (base as nat) * (p as nat)) by (nonlinear_arith);
        }
        k
    }
}

/// The limb power of `base`: for a power of two, the number of bits per digit; for another
/// base, the largest power of `base` that fits in a limb. Any base from 2 to 256.
pub fn get_big_base(base: u64) -> (r: u32)
    requires
        2 <= base <= 256,
    ensures
        is_pow2_u64(base) ==> vstd::arithmetic::power2::pow2(r as nat) == base,
        !is_pow2_u64(base) ==> exists|k: nat| is_limb_power(base as nat, k, r as nat),
{
    if base & (base - 1) == 0 {
        let mut v: u64 = base;
        let mut bits: u32 = 0;
        proof {
            vstd::arithmetic::power2::lemma2_to64();
        }
        while v > 1
            invariant
                1 <= v <= 256,
                2 <= base <= 256,
                bits <= 8,
                (v as nat) * vstd::arithmetic::power2::pow2(bits as nat) == base,
                v & ((v - 1) as u64) == 0,
            decreases v,
        {
            proof {
                assert(v & ((v - 1) as u64) == 0 && v > 1 && v <= 256 ==> v % 2 == 0 && (v / 2) & ((v / 2 - 1) as u64) == 0 && v / 2 >= 1) by (bit_vector);
                vstd::arithmetic::power2::lemma_pow2_unfold((bits + 1) as nat);
                assert(bits < 8) by {
                    if bits >= 8 {
                        vstd::arithmetic::power2::lemma2_to64();
                        if bits > 8 {
                            vstd::arithmetic::power2::lemma_pow2_strictly_increases(8, bits as nat);
                        }
                        assert(v * vstd::arithmetic::power2::pow2(bits as nat) >= 2 * 256) by (nonlinear_arith)
                            requires
                                v >= 2,
                                vstd::arithmetic::power2::pow2(bits as nat) >= 256,
                        ;
                    }
                }
                assert((v / 2) as nat * vstd::arithmetic::power2::pow2((bits + 1) as nat) == base) by (nonlinear_arith)
                    requires
                        (v as nat) * vstd::arithmetic::power2::pow2(bits as nat) == base,
                        v % 2 == 0,
                        vstd::arithmetic::power2::pow2((bits + 1) as nat) == 2 * vstd::arithmetic::power2::pow2(bits as nat),
                ;
            }
            v = v / 2;
            bits = bits + 1;
        }
        proof {
            assert(v == 1) by {
                assert(v & ((v - 1) as u64) == 0 && v >= 1 && v <= 1 ==> v == 1) by (bit_vector);
            }
        }
        bits
    } else {
        let (k, p) = chars_per_limb_and_big_base(base);
        p
    }
}

pub proof fn lemma_npow_base_mono(a: nat, b: nat, k: nat)
    requires
        a <= b,
    ensures
        npow(a, k) <= npow(b, k),
    decreases k,
{
    if k > 0 {
        lemma_npow_base_mono(a, b, (k - 1) as nat);
        let x = npow(a, (k - 1) as nat);
        let y = npow(b, (k - 1) as nat);
        assert(a * x <= b * y) by (nonlinear_arith)
            requires
                a <= b,
                x <= y,
                0 <= a,
                0 <= x,
        ;
    }
}

pub proof fn lemma_npow_strict(b: nat, k: nat)
    requires
        b >= 3,
        k >= 1,
    ensures
        npow(b, k) > npow(2, k),
    decreases k,
{
    lemma_npow_base_mono(2, b, (k - 1) as nat);
    lemma_npow_pos(2, (k - 1) as nat);
    let x = npow(2, (k - 1) as nat);
    let y = npow(b, (k - 1) as nat);
    assert(b * y > 2 * x) by (nonlinear_arith)
        requires
            b >= 3,
            y >= x,
            x >= 1,
    ;
}


/// Raising to a product of exponents is raising twice.
pub proof fn lemma_npow_mul(b: nat, x: nat, y: nat)
    ensures
        npow(b, x * y) == npow(npow(b, x), y),
    decreases y,
{
    if y > 0 {
        lemma_npow_mul(b, x, (y - 1) as nat);
        assert(x * y == x * (y - 1) as nat + x) by (nonlinear_arith)
            requires
                y >= 1,
        ;
        lemma_npow_add(b, x * (y - 1) as nat, x);
        let p = npow(b, x);
        let q = npow(p, (y - 1) as nat);
        assert(q * p == p * q) by (nonlinear_arith);
    } else {
        assert(x * 0 == 0);
    }
}


/// The first power is the base itself.
pub proof fn lemma_npow_one(b: nat)
    ensures
        npow(b, 1) == b,
        npow(b, 0) == 1,
{
    assert(npow(b, 0) == 1);
    assert(npow(b, 1) == b * npow(b, 0));
    assert(b * 1 == b);
}

} // verus!
