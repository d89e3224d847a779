//! Digits of naturals in any base that fits in a limb, as limbs: the conversion picks a
//! method by the size of the base and of the number.
use vstd::prelude::*;
use vstd::arithmetic::power2::{pow2, lemma_pow2_adds, lemma_pow2_pos, lemma_pow2_strictly_increases, lemma_pow2_unfold, lemma2_to64};
use crate::bases::{is_pow2_u64, lemma_npow_add, lemma_npow_mono, lemma_npow_pos, npow};
use crate::digit_specs::{
    all_below, dval_asc, is_digits_asc, is_digits_desc, lemma_dval_asc_append, lemma_dval_desc_reverse,
    u32_digits, u8_digits,
};
use crate::limbs::{
    is_normalized, lemma_lpow_pos, lemma_lpow_pow2, lemma_val_bound, lemma_val_normalized_lower,
    limbs_val, lpow,
};
use crate::natural::{natural_limbs, Natural};
use crate::from_large::{bit_length, lemma_bit_length_of};
use crate::power_build::square_limbs;

verus! {

/// Numbers with fewer than this many digits, counted by bits, are converted directly.
pub const TO_DIGITS_DIVIDE_AND_CONQUER_THRESHOLD: u64 = 50;

/// The largest limb whose square fits in a limb.
pub const SQRT_MAX_LIMB: u32 = 65535;

/// The number of significant bits of the limbs `v`, which have no high zero limb.
pub fn limbs_bit_length(v: &Vec<u32>) -> (r: u64)
    requires
        is_normalized(v@),
        v@.len() < 0x100000000000000,
    ensures
        limbs_val(v@) < pow2(r as nat),
        r == 0 <==> limbs_val(v@) == 0,
        r > 0 ==> limbs_val(v@) >= pow2((r - 1) as nat),
        r <= 32 * v@.len(),
{
    let n = v.len();
    if n == 0 {
        proof {
            lemma2_to64();
        }
        return 0;
    }
    let k = crate::natural::limb_significant_bits(v[n - 1]);
    let r = 32 * ((n - 1) as u64) + (k as u64);
    proof {
        let s = v@;
        let e = 32 * ((n - 1) as nat);
        lemma_lpow_pow2((n - 1) as nat);
        lemma_val_bound(s.drop_last());
        let low = limbs_val(s.drop_last());
        let p = lpow((n - 1) as nat);
        let t = s.last() as nat;
        assert(limbs_val(s) == low + p * t);
        lemma_pow2_adds(e, k as nat);
        lemma_pow2_adds(e, (k - 1) as nat);
        let pk = pow2(k as nat);
        let pk1 = pow2((k - 1) as nat);
        assert(low + p * t < p * pk) by (nonlinear_arith)
            requires
                low < p,
                t < pk,
                t + 1 <= pk,
        ;
        assert(low + p * t >= p * pk1) by (nonlinear_arith)
            requires
                t >= pk1,
                low >= 0,
                p >= 0,
        ;
        lemma_val_normalized_lower(s);
        lemma_lpow_pos((n - 1) as nat);
    }
    r
}

/// Appends the digits `ys` to `digits`.
fn append_digits(digits: &mut Vec<u32>, ys: &Vec<u32>)
    ensures
        final(digits)@ == old(digits)@ + ys@,
{
    let n = ys.len();
    let mut j: usize = 0;
    while j < n
        invariant
            j <= n,
            n == ys@.len(),
            digits@ == old(digits)@ + ys@.subrange(0, j as int),
        decreases n - j,
    {
        digits.push(ys[j]);
        proof {
            assert(digits@ =~= old(digits)@ + ys@.subrange(0, j + 1));
        }
        j += 1;
    }
    proof {
        assert(ys@.subrange(0, n as int) =~= ys@);
    }
}

/// A number below `b^n` has at most `n` digits in base `b`.
pub(crate) proof fn lemma_digit_count_bound(s: Seq<nat>, b: nat, x: nat, n: nat)
    requires
        b >= 2,
        is_digits_asc(s, b, x),
        x < npow(b, n),
    ensures
        s.len() <= n,
{
    if s.len() > n {
        crate::digit_specs::lemma_dval_asc_lower(s, b);
        lemma_npow_mono(b, n, (s.len() - 1) as nat);
    }
}

/// A natural below `2^(32 m)`, `m >= 1`, has at most `m` limbs.
pub(crate) proof fn lemma_natural_len_bound(n: Natural, m: nat)
    requires
        n.wf(),
        m >= 1,
        n@ < lpow(m),
    ensures
        natural_limbs(n).len() <= m,
{
    if let Natural::Large(xs) = n {
        crate::from_digits::lemma_normalized_len_bound(xs@, m);
    }
}

/// A natural below `2^k` has at most `k / 32 + 1` limbs.
proof fn lemma_natural_bits_limbs(n: Natural, k: nat)
    requires
        n.wf(),
        n@ < pow2(k),
    ensures
        natural_limbs(n).len() <= k / 32 + 1,
{
    if let Natural::Large(xs) = n {
        let len = xs@.len();
        lemma_val_normalized_lower(xs@);
        lemma_lpow_pow2((len - 1) as nat);
        if 32 * ((len - 1) as nat) >= k {
            if 32 * ((len - 1) as nat) > k {
                lemma_pow2_strictly_increases(k, 32 * ((len - 1) as nat));
            }
        }
        assert(32 * ((len - 1) as nat) < k);
        assert(len <= k / 32 + 1) by (nonlinear_arith)
            requires
                32 * ((len - 1) as nat) < k,
                len >= 1,
        ;
    }
}

/// A natural with `r` significant bits and `m` limbs has `r <= 32 m`.
pub(crate) proof fn lemma_bits_le_limbs(n: Natural, r: nat)
    requires
        n.wf(),
        r > 0,
        n@ >= pow2((r - 1) as nat),
    ensures
        r <= 32 * natural_limbs(n).len(),
{
    let m = natural_limbs(n).len();
    crate::limbs::lemma_val_bound(natural_limbs(n));
    lemma_lpow_pow2(m);
    if r > 32 * m {
        if (r - 1) as nat > 32 * m {
            lemma_pow2_strictly_increases(32 * m, (r - 1) as nat);
        }
    }
}

/// The powers `base^(2^k)` for `k = 0, 1, ...`, up to the first one with at least
/// `ceil((bits + 3) / 2)` significant bits; none when a number of `bits` bits has fewer than
/// `TO_DIGITS_DIVIDE_AND_CONQUER_THRESHOLD` digits' worth of `base`'s bits. The square of the
/// last power then exceeds any number of `bits` bits.
pub fn compute_powers_for_to_digits(base: &Natural, bits: u64) -> (r: Vec<Natural>)
    requires
        base.wf(),
        base@ >= 2,
        bits < 0x10000000000000,
        bits <= usize::MAX / 8,
        natural_limbs(*base).len() < 0x4000000000000,
        natural_limbs(*base).len() <= usize::MAX / 8,
    ensures
        forall|k: int|
            0 <= k < r@.len() ==> (#[trigger] r@[k])@ == npow(base@, pow2(k as nat)) && r@[k].wf(),
        r@.len() < 64,
        r@.len() > 0 ==> pow2(bits as nat) < npow(base@, 2 * pow2((r@.len() - 1) as nat)),
        r@.len() == 0 <==> (bits as nat) / bit_length(base@) < TO_DIGITS_DIVIDE_AND_CONQUER_THRESHOLD,
        r@.len() > 0 ==> r@.len() >= 2 && bit_length(r@[r@.len() - 1]@) >= (bits + 4) / 2,
        forall|k: int| 0 <= k < r@.len() - 1 ==> bit_length((#[trigger] r@[k])@) < (bits + 4) / 2,
{
    let ghost b = base@;
    let ghost blen = natural_limbs(*base).len();
    let base_bits = base.significant_bits();
    proof {
        lemma_bit_length_of(b, base_bits as nat);
    }
    proof {
        assert(base_bits > 0);
    }
    if bits / base_bits < TO_DIGITS_DIVIDE_AND_CONQUER_THRESHOLD {
        return Vec::new();
    }
    let limit = (bits + 3) / 2 + (bits + 3) % 2;
    let mut powers: Vec<Natural> = Vec::new();
    let mut power = base.clone_natural();
    let mut pbits: u64 = base_bits;
    proof {
        lemma2_to64();
        crate::bases::lemma_npow_one(b);
        assert(base_bits >= 2) by {
            if base_bits < 2 {
                assert(b < pow2(1)) by {
                    assert(base_bits == 1);
                }
                lemma_pow2_unfold(1);
            }
        }
        lemma_bits_le_limbs(*base, base_bits as nat);
        lemma_natural_bits_limbs(*base, base_bits as nat);
        assert(base_bits < limit) by (nonlinear_arith)
            requires
                bits / base_bits >= 50,
                base_bits > 0,
                limit == (bits + 4) / 2,
        {
            vstd::arithmetic::div_mod::lemma_fundamental_div_mod(bits as int, base_bits as int);
        }
    }
    let mut done = false;
    while !done
        invariant
            b >= 2,
            b == base@,
            bits < 0x10000000000000,
            bits <= usize::MAX / 8,
            limit == (bits + 4) / 2,
            base_bits < limit,
            base_bits <= 32 * blen,
            blen <= usize::MAX / 8,
            blen < 0x4000000000000,
            forall|k: int|
                0 <= k < powers@.len() ==> (#[trigger] powers@[k])@ == npow(b, pow2(k as nat))
                    && powers@[k].wf(),
            power@ == npow(b, pow2(powers@.len() as nat)),
            power.wf(),
            pbits >= 2,
            !done ==> pbits < limit,
            forall|k: int| 0 <= k < powers@.len() ==> bit_length((#[trigger] powers@[k])@) < limit,
            !done ==> pbits <= base_bits || pbits < limit,
            done ==> pbits >= limit,
            done ==> powers@.len() >= 1,
            power@ < pow2(pbits as nat),
            power@ >= pow2((pbits - 1) as nat),
            natural_limbs(power).len() <= pbits / 32 + 1,
            powers@.len() < 62,
            pow2(powers@.len() as nat) < pbits,
        decreases (if pbits >= limit + 64 {
            0
        } else {
            limit + 64 - pbits
        }),
    {
        let ghost k = powers@.len();
        proof {
            lemma_bit_length_of(power@, pbits as nat);
        }
        powers.push(power.clone_natural());
        proof {
            assert(natural_limbs(power).len() <= usize::MAX / 4) by (nonlinear_arith)
                requires
                    natural_limbs(power).len() <= pbits / 32 + 1,
                    pbits <= base_bits || pbits < limit,
                    limit == (bits + 4) / 2,
                    bits <= usize::MAX / 8,
                    base_bits <= 32 * blen,
                    blen <= usize::MAX / 8,
                    usize::MAX >= 0xffff_ffff,
            ;
        }
        let sq = power.mul_natural(&power);
        proof {
            let x = power@;
            lemma_pow2_pos((pbits - 1) as nat);
            assert(x * x > 0) by (nonlinear_arith)
                requires
                    x >= pow2((pbits - 1) as nat),
                    pow2((pbits - 1) as nat) > 0,
            ;
            // the square has at most twice as many limbs
            crate::limbs::lemma_val_bound(natural_limbs(power));
            let pl = natural_limbs(power).len();
            crate::limbs::lemma_lpow_add(pl, pl);
            assert(sq@ < lpow(pl + pl)) by (nonlinear_arith)
                requires
                    sq@ == power@ * power@,
                    power@ < lpow(pl),
                    lpow(pl + pl) == lpow(pl) * lpow(pl),
                    power@ >= 0,
            ;
            assert(pl >= 1) by {
                if let Natural::Large(v) = power {
                } else {
                }
            }
            lemma_natural_len_bound(sq, pl + pl);
            assert(natural_limbs(sq).len() < 0x100000000000000) by (nonlinear_arith)
                requires
                    natural_limbs(sq).len() <= 2 * natural_limbs(power).len(),
                    natural_limbs(power).len() <= pbits / 32 + 1,
                    pbits <= base_bits || pbits < limit,
                    limit == (bits + 4) / 2,
                    bits < 0x10000000000000,
                    base_bits <= 32 * blen,
                    blen < 0x4000000000000,
            ;
        }
        let sbits = sq.significant_bits();
        proof {
            let x = power@;
            let pb = pbits as nat;
            lemma_pow2_adds((pb - 1) as nat, (pb - 1) as nat);
            assert(x * x >= pow2((pb - 1) as nat) * pow2((pb - 1) as nat)) by (nonlinear_arith)
                requires
                    x >= pow2((pb - 1) as nat),
            ;
            assert(sbits as nat >= 2 * pb - 1) by {
                if (sbits as nat) < 2 * pb - 1 {
                    if (sbits as nat) < 2 * pb - 2 {
                        lemma_pow2_strictly_increases(sbits as nat, (2 * pb - 2) as nat);
                    }
                    assert(((pb - 1) + (pb - 1)) as nat == (2 * pb - 2) as nat);
                }
            }
            lemma_pow2_adds(pb, pb);
            assert(x * x < pow2(pb) * pow2(pb)) by (nonlinear_arith)
                requires
                    x < pow2(pb),
                    x >= 0,
            ;
            assert(sbits as nat <= 2 * pb) by {
                if sbits as nat > 2 * pb {
                    lemma_pow2_strictly_increases(2 * pb, (sbits - 1) as nat);
                    assert((pb + pb) as nat == 2 * pb);
                }
            }
            // the limbs of the square fit its bits
            lemma_natural_bits_limbs(sq, sbits as nat);
            lemma_pow2_unfold((k + 1) as nat);
            if k + 1 >= 62 {
                if k + 1 > 52 {
                    lemma_pow2_strictly_increases(52, (k + 1) as nat);
                }
                assert(pow2(52) == 0x10000000000000) by {
                    lemma2_to64();
                    vstd::arithmetic::power2::lemma2_to64_rest();
                }
            }
            lemma_npow_add(b, pow2(k), pow2(k));
            assert(pow2(k) + pow2(k) == pow2((k + 1) as nat));
        }
        power = sq;
        pbits = sbits;
        if sbits >= limit {
            done = true;
        }
    }
    let ghost k = powers@.len();
    proof {
        lemma_bit_length_of(power@, pbits as nat);
    }
    powers.push(power);
    proof {
        let x = powers@[k as int]@;
        assert(x >= pow2((pbits - 1) as nat));
        assert(pbits >= limit);
        lemma_pow2_adds((pbits - 1) as nat, (pbits - 1) as nat);
        if (bits as nat) < ((pbits - 1) + (pbits - 1)) as nat {
            lemma_pow2_strictly_increases(bits as nat, ((pbits - 1) + (pbits - 1)) as nat);
        }
        lemma_pow2_pos((pbits - 1) as nat);
        assert(x * x >= pow2((pbits - 1) as nat) * pow2((pbits - 1) as nat)) by (nonlinear_arith)
            requires
                x >= pow2((pbits - 1) as nat),
        ;
        lemma_npow_add(b, pow2(k), pow2(k));
        assert(pow2(k) + pow2(k) == 2 * pow2(k));
    }
    powers
}

/// Appends to `digits` the digits of `x` in base `base`, least significant first and without
/// high zero digits, by repeated division.
pub fn _to_digits_asc_naive_primitive(digits: &mut Vec<u32>, x: &Natural, base: u32)
    requires
        x.wf(),
        base >= 2,
    ensures
        final(digits)@.len() >= old(digits)@.len(),
        final(digits)@.subrange(0, old(digits)@.len() as int) == old(digits)@,
        is_digits_asc(
            u32_digits(final(digits)@.subrange(old(digits)@.len() as int, final(digits)@.len() as int)),
            base as nat,
            x@,
        ),
{
    let ghost o = digits@;
    let ghost b = base as nat;
    let nb = Natural::from_u32(base);
    let mut remainder = x.clone_natural();
    proof {
        crate::natural::lemma_small_val(base);
        assert(digits@.subrange(0, o.len() as int) =~= o);
        assert(u32_digits(digits@.subrange(o.len() as int, digits@.len() as int)) =~= Seq::<nat>::empty());
        assert(dval_asc(Seq::<nat>::empty(), b) == 0);
        assert(npow(b, 0) == 1);
        assert((digits@.len() - o.len()) as nat == 0);
        assert(1 * remainder@ == remainder@);
    }
    while !remainder.is_zero()
        invariant
            b == base as nat,
            b >= 2,
            nb@ == b,
            nb.wf(),
            remainder.wf(),
            digits@.len() >= o.len(),
            digits@.subrange(0, o.len() as int) == o,
            x@ == dval_asc(u32_digits(digits@.subrange(o.len() as int, digits@.len() as int)), b) + npow(
                b,
                (digits@.len() - o.len()) as nat,
            ) * remainder@,
            all_below(u32_digits(digits@.subrange(o.len() as int, digits@.len() as int)), b),
            digits@.len() > o.len() ==> (remainder@ != 0 || digits@.last() != 0),
        decreases remainder@,
    {
        let ghost before = digits@.subrange(o.len() as int, digits@.len() as int);
        let (q, r) = remainder.div_mod_natural(&nb);
        let ghost rv = remainder@;
        let d = r.low_u32();
        proof {
            vstd::arithmetic::div_mod::lemma_small_mod(r@, crate::limbs::radix());
            assert(d as nat == r@);
        }
        digits.push(d);
        proof {
            let after = digits@.subrange(o.len() as int, digits@.len() as int);
            assert(after =~= before.push(d));
            assert(u32_digits(after) =~= u32_digits(before).push(d as nat));
            crate::digit_specs::lemma_dval_asc_push(u32_digits(before), d as nat, b);
            let k = before.len();
            assert(npow(b, k + 1) == b * npow(b, k));
            let p = npow(b, k);
            assert(p * rv == p * r@ + (b * p) * q@) by (nonlinear_arith)
                requires
                    rv == q@ * b + r@,
            ;
            assert(digits@.subrange(0, o.len() as int) =~= o);
            assert(q@ < rv) by (nonlinear_arith)
                requires
                    rv == q@ * b + r@,
                    b >= 2,
                    rv > 0,
            ;
            if q@ == 0 {
                assert(r@ == rv) by (nonlinear_arith)
                    requires
                        rv == q@ * b + r@,
                        q@ == 0,
                ;
            }
            assert forall|i: int| 0 <= i < after.len() implies #[trigger] u32_digits(after)[i] < b by {
                if i < before.len() {
                    assert(after[i] == before[i]);
                    assert(u32_digits(before)[i] < b);
                }
            }
            assert((digits@.len() - o.len()) as nat == k + 1);
        }
        remainder = q;
    }
    proof {
        assert(remainder@ == 0);
        let k = (digits@.len() - o.len()) as nat;
        assert(npow(b, k) * 0 == 0);
        let s = digits@.subrange(o.len() as int, digits@.len() as int);
        if s.len() > 0 {
            assert(u32_digits(s).last() == s.last() as nat);
            assert(s.last() == digits@.last());
        }
    }
}

/// 2^k as a `usize`.
pub(crate) fn usize_pow2(k: usize) -> (r: usize)
    requires
        pow2(k as nat) <= usize::MAX,
    ensures
        r as nat == pow2(k as nat),
{
    let mut r: usize = 1;
    let mut i: usize = 0;
    proof {
        lemma2_to64();
    }
    while i < k
        invariant
            i <= k,
            r as nat == pow2(i as nat),
            pow2(k as nat) <= usize::MAX,
        decreases k - i,
    {
        proof {
            lemma_pow2_unfold((i + 1) as nat);
            if i + 1 < k {
                lemma_pow2_strictly_increases((i + 1) as nat, k as nat);
            }
        }
        r = r * 2;
        i += 1;
    }
    r
}

/// Digits that are all zero stand for zero.
pub(crate) proof fn lemma_dval_asc_zeros(z: Seq<nat>, b: nat)
    requires
        forall|i: int| 0 <= i < z.len() ==> z[i] == 0,
    ensures
        dval_asc(z, b) == 0,
{
    crate::digit_specs::lemma_dval_asc_high_zeros(z, 0, b);
    assert(z.subrange(0, 0) =~= Seq::<nat>::empty());
}

/// Appends to `digits` the digits of the number whose limbs are `x` in base `base`, least
/// significant first and without high zero digits: directly when the number is small for
/// the base, else by splitting it at the power `powers[power_index]` (`base^(2^power_index)`),
/// whose square exceeds it, and appending the digits of the remainder padded with zeros to
/// `2^power_index` digits, then those of the quotient.
pub fn _to_digits_asc_divide_and_conquer_limb(
    digits: &mut Vec<u32>,
    x: Vec<u32>,
    base: u32,
    powers: &[Natural],
    power_index: usize,
)
    requires
        base >= 2,
        is_normalized(x@),
        x@.len() < 0x100000000000000,
        x@.len() * 32 <= usize::MAX,
        powers@.len() < 64,
        forall|k: int|
            0 <= k < powers@.len() ==> (#[trigger] powers@[k])@ == npow(base as nat, pow2(k as nat))
                && powers@[k].wf(),
        powers@.len() > 0 ==> power_index < powers@.len() && limbs_val(x@) < npow(
            base as nat,
            2 * pow2(power_index as nat),
        ),
    ensures
        final(digits)@.len() >= old(digits)@.len(),
        final(digits)@.subrange(0, old(digits)@.len() as int) == old(digits)@,
        is_digits_asc(
            u32_digits(final(digits)@.subrange(old(digits)@.len() as int, final(digits)@.len() as int)),
            base as nat,
            limbs_val(x@),
        ),
    decreases power_index,
{
    let ghost b = base as nat;
    let ghost o = digits@;
    let bits = limbs_bit_length(&x);
    let base_bits = crate::natural::limb_significant_bits(base);
    if powers.len() == 0 || bits / (base_bits as u64) < TO_DIGITS_DIVIDE_AND_CONQUER_THRESHOLD {
        let ds = crate::to_digits::limbs_to_digits_asc_canonical(x.as_slice(), base);
        append_digits(digits, &ds);
        proof {
            assert(digits@.subrange(0, o.len() as int) =~= o);
            assert(digits@.subrange(o.len() as int, digits@.len() as int) =~= ds@);
        }
        return;
    }
    let ghost xv = limbs_val(x@);
    let ghost pw = npow(b, pow2(power_index as nat));
    proof {
        lemma_npow_add(b, pow2(power_index as nat), pow2(power_index as nat));
        assert(pow2(power_index as nat) + pow2(power_index as nat) == 2 * pow2(power_index as nat));
        assert(xv < pw * pw);
        // the lowest power is the base, and a number below its square is small for the base
        if power_index == 0 {
            lemma2_to64();
            crate::bases::lemma_npow_one(b);
            assert(pow2(0) == 1);
            let bb = base_bits as nat;
            lemma_pow2_adds(bb, bb);
            assert(b * b < pow2(bb) * pow2(bb)) by (nonlinear_arith)
                requires
                    b < pow2(bb),
                    b >= 0,
            ;
            assert(bits as nat <= 2 * bb) by {
                if bits as nat > 2 * bb {
                    lemma_pow2_strictly_increases(bb + bb, (bits - 1) as nat);
                    if (bits - 1) as nat == bb + bb {
                    }
                }
            }
            vstd::arithmetic::div_mod::lemma_div_is_ordered(bits as int, (2 * bb) as int, bb as int);
            vstd::arithmetic::div_mod::lemma_div_multiples_vanish(2, bb as int);
            assert(2 * bb == bb * 2) by (nonlinear_arith);
            assert(false);
        }
    }
    let pv = powers[power_index].to_limbs_asc();
    proof {
        lemma_npow_pos(b, pow2(power_index as nat));
        if pv@.len() == 0 {
            assert(pv@ =~= Seq::<u32>::empty());
        }
    }
    let (q, r) = crate::div::limbs_div_mod(x.as_slice(), pv.as_slice());
    let start_len = digits.len();
    let ghost qv = limbs_val(q@);
    let ghost rv = limbs_val(r@);
    proof {
        assert(xv == qv * pw + rv);
        lemma_pow2_unfold(power_index as nat);
        assert(pw == npow(b, 2 * pow2((power_index - 1) as nat)));
        lemma_npow_pos(b, pow2(power_index as nat));
        assert(qv < pw) by (nonlinear_arith)
            requires
                xv == qv * pw + rv,
                xv < pw * pw,
                rv >= 0,
                pw > 0,
        ;
        lemma_val_bound(x@);
        assert(rv <= xv);
        assert(qv <= xv) by (nonlinear_arith)
            requires
                xv == qv * pw + rv,
                pw >= 1,
                rv >= 0,
        ;
        crate::from_digits::lemma_normalized_len_bound(r@, x@.len() as nat);
        crate::from_digits::lemma_normalized_len_bound(q@, x@.len() as nat);
    }
    _to_digits_asc_divide_and_conquer_limb(digits, r, base, powers, power_index - 1);
    let ghost d1 = digits@;
    proof {
        let rd = u32_digits(d1.subrange(start_len as int, d1.len() as int));
        lemma_digit_count_bound(rd, b, rv, pow2(power_index as nat));
    }
    if q.len() != 0 {
        proof {
            // the number is at least the power, so it has more than 2^power_index bits
            lemma_val_normalized_lower(q@);
            lemma_lpow_pos((q@.len() - 1) as nat);
            assert(xv >= pw) by (nonlinear_arith)
                requires
                    xv == qv * pw + rv,
                    qv >= 1,
                    rv >= 0,
                    pw >= 0,
            ;
            crate::bases::lemma_npow_base_mono(2, b, pow2(power_index as nat));
            crate::bases::lemma_npow2(pow2(power_index as nat));
            if pow2(power_index as nat) >= bits as nat {
                if pow2(power_index as nat) > bits as nat {
                    lemma_pow2_strictly_increases(bits as nat, pow2(power_index as nat));
                }
            }
            assert(pow2(power_index as nat) <= usize::MAX);
        }
        let t = usize_pow2(power_index);
        while digits.len() - start_len < t
            invariant
                digits@.len() >= start_len,
                digits@.len() >= d1.len(),
                digits@.subrange(0, d1.len() as int) == d1,
                forall|i: int| d1.len() <= i < digits@.len() ==> digits@[i] == 0,
                d1.len() >= start_len,
                d1.len() - start_len <= t,
                digits@.len() - start_len <= t,
            decreases t - (digits@.len() - start_len),
        {
            digits.push(0);
            proof {
                assert(digits@.subrange(0, d1.len() as int) =~= d1);
            }
        }
        let ghost d2 = digits@;
        _to_digits_asc_divide_and_conquer_limb(digits, q, base, powers, power_index - 1);
        proof {
            let a = d1.subrange(start_len as int, d1.len() as int);
            let z = d2.subrange(d1.len() as int, d2.len() as int);
            let c = digits@.subrange(d2.len() as int, digits@.len() as int);
            assert(digits@.subrange(0, d2.len() as int) == d2);
            assert(d2.subrange(0, d1.len() as int) == d1);
            assert(digits@.subrange(start_len as int, digits@.len() as int) =~= a + z + c);
            assert(digits@.subrange(0, o.len() as int) =~= o);
            let ua = u32_digits(a);
            let uz = u32_digits(z);
            let uc = u32_digits(c);
            assert(u32_digits(a + z + c) =~= ua + uz + uc);
            assert forall|i: int| 0 <= i < uz.len() implies uz[i] == 0 by {
                assert(z[i] == 0);
            }
            lemma_dval_asc_zeros(uz, b);
            lemma_dval_asc_append(ua + uz, uc, b);
            lemma_dval_asc_append(ua, uz, b);
            assert(ua.len() + uz.len() == pow2(power_index as nat));
            assert(dval_asc(ua + uz + uc, b) == rv + pw * qv);
            assert forall|i: int| 0 <= i < (ua + uz + uc).len() implies #[trigger] (ua + uz + uc)[i] < b by {
                if i < ua.len() {
                    assert((ua + uz + uc)[i] == ua[i]);
                } else if i < ua.len() + uz.len() {
                    assert((ua + uz + uc)[i] == uz[i - ua.len()]);
                } else {
                    assert((ua + uz + uc)[i] == uc[i - ua.len() - uz.len()]);
                }
            }
            assert(uc.len() > 0) by {
                if uc.len() == 0 {
                    assert(dval_asc(uc, b) == 0);
                }
            }
            assert((ua + uz + uc).last() == uc.last());
            assert(qv * pw == pw * qv) by (nonlinear_arith);
        }
    } else {
        proof {
            assert(q@ =~= Seq::<u32>::empty());
            assert(qv == 0);
            assert(digits@.subrange(0, o.len() as int) =~= o);
            assert(xv == rv) by (nonlinear_arith)
                requires
                    xv == qv * pw + rv,
                    qv == 0,
            ;
        }
    }
}

/// The byte digits `xs` as limbs.
pub(crate) fn widen_digits_slice(xs: &[u8]) -> (r: Vec<u32>)
    ensures
        u32_digits(r@) == u8_digits(xs@),
        r@.len() == xs@.len(),
{
    let n = xs.len();
    let mut r: Vec<u32> = Vec::new();
    let mut i: usize = 0;
    while i < n
        invariant
            i <= n,
            n == xs@.len(),
            r@.len() == i,
            forall|j: int| 0 <= j < i ==> r@[j] as nat == xs@[j] as nat,
        decreases n - i,
    {
        r.push(xs[i] as u32);
        i += 1;
    }
    proof {
        assert(u32_digits(r@) =~= u8_digits(xs@));
    }
    r
}

/// The digits `xs` in reverse order.
pub(crate) fn reverse_limb_digits(xs: &Vec<u32>) -> (r: Vec<u32>)
    ensures
        r@ == xs@.reverse(),
{
    let n = xs.len();
    let mut r: Vec<u32> = Vec::new();
    let mut i: usize = n;
    while i > 0
        invariant
            i <= n,
            n == xs@.len(),
            r@ == xs@.subrange(i as int, n as int).reverse(),
        decreases i,
    {
        r.push(xs[i - 1]);
        proof {
            assert(r@ =~= xs@.subrange(i - 1, n as int).reverse());
        }
        i -= 1;
    }
    proof {
        assert(xs@.subrange(0, n as int) =~= xs@);
    }
    r
}

/// The digits of `x` in base `base`, least significant first and without high zero digits:
/// for a power-of-two base and for a one-limb `x` directly; for a larger `x`, by the
/// divide-and-conquer conversion over a table of powers of the base when the base is below
/// 256, else by splitting at repeated squares of the base.
pub fn _to_digits_asc_limb(x: &Natural, base: u32) -> (r: Vec<u32>)
    requires
        base >= 2,
        x.wf(),
        natural_limbs(*x).len() < 0x800000000000,
        natural_limbs(*x).len() * 512 <= usize::MAX,
    ensures
        is_digits_asc(u32_digits(r@), base as nat, x@),
{
    if base & (base - 1) == 0 {
        let xs = x.to_limbs_asc();
        return crate::to_digits::limbs_to_digits_asc_canonical(xs.as_slice(), base);
    }
    proof {
        assert(base & ((base - 1) as u32) != 0 ==> base != 2) by (bit_vector);
    }
    match x {
        Natural::Small(v) => {
            let mut digits: Vec<u32> = Vec::new();
            crate::to_digits::push_canonical_digits(&mut digits, *v, base);
            proof {
                crate::natural::lemma_small_val(*v);
                assert(u32_digits(Seq::<u32>::empty()) =~= Seq::<nat>::empty());
                assert(npow(base as nat, 0) == 1);
                assert(1 * (*v as nat) == *v as nat);
                assert forall|i: int| 0 <= i < digits@.len() implies #[trigger] u32_digits(digits@)[i] < base as nat by {
                    assert(digits@[i] < base);
                }
                if digits@.len() > 0 {
                    assert(u32_digits(digits@).last() == digits@.last() as nat);
                }
            }
            digits
        },
        Natural::Large(xs) => {
            if base < 256 {
                let desc = crate::to_dc::limbs_to_digits_desc(xs.as_slice(), base as u64);
                let wide = widen_digits_slice(desc.as_slice());
                let asc = reverse_limb_digits(&wide);
                proof {
                    let d = u8_digits(desc@);
                    let a = u32_digits(asc@);
                    assert(a =~= d.reverse());
                    lemma_dval_desc_reverse(d, base as nat);
                    assert forall|i: int| 0 <= i < a.len() implies #[trigger] a[i] < base as nat by {
                        assert(a[i] == d[d.len() - 1 - i]);
                    }
                    if a.len() > 0 {
                        assert(a.last() == d[0]);
                    }
                }
                asc
            } else {
                let bits = limbs_bit_length(xs);
                let nb = Natural::from_u32(base);
                proof {
                    assert(natural_limbs(nb).len() == 1);
                }
                let powers = compute_powers_for_to_digits(&nb, bits);
                let mut digits: Vec<u32> = Vec::new();
                let idx = if powers.len() > 0 { powers.len() - 1 } else { 0 };
                let v = crate::sub_naive::limbs_copy_range(xs.as_slice(), 0, xs.len());
                proof {
                    assert(v@ =~= xs@);
                }
                _to_digits_asc_divide_and_conquer_limb(&mut digits, v, base, powers.as_slice(), idx);
                proof {
                    assert(digits@.subrange(0, digits@.len() as int) =~= digits@);
                }
                digits
            }
        },
    }
}

/// The digits of `x` in base `base`, most significant first and without leading zero
/// digits; computed as `_to_digits_asc_limb` does, and for a larger `x` and a base below 256
/// directly in this order.
pub fn _to_digits_desc_limb(x: &Natural, base: u32) -> (r: Vec<u32>)
    requires
        base >= 2,
        x.wf(),
        natural_limbs(*x).len() < 0x800000000000,
        natural_limbs(*x).len() * 512 <= usize::MAX,
    ensures
        is_digits_desc(u32_digits(r@), base as nat, x@),
{
    if base & (base - 1) != 0 && base < 256 {
        if let Natural::Large(xs) = x {
            proof {
                assert(base & ((base - 1) as u32) != 0 ==> base != 2) by (bit_vector);
            }
            let desc = crate::to_dc::limbs_to_digits_desc(xs.as_slice(), base as u64);
            return widen_digits_slice(desc.as_slice());
        }
    }
    let asc = _to_digits_asc_limb(x, base);
    let desc = reverse_limb_digits(&asc);
    proof {
        let a = u32_digits(asc@);
        let d = u32_digits(desc@);
        assert(d =~= a.reverse());
        lemma_dval_desc_reverse(d, base as nat);
        assert(d.reverse() =~= a);
        assert forall|i: int| 0 <= i < d.len() implies #[trigger] d[i] < base as nat by {
            assert(d[i] == a[a.len() - 1 - i]);
        }
        if d.len() > 0 {
            assert(d[0] == a.last());
        }
    }
    desc
}

} // verus!
