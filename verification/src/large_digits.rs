//! Digits of naturals in bases that are themselves naturals, the digits naturals too.
use vstd::prelude::*;
use vstd::arithmetic::power2::{pow2, lemma_pow2_adds, lemma_pow2_pos, lemma_pow2_strictly_increases, lemma_pow2_unfold, lemma2_to64};
use crate::bases::{lemma_npow_add, lemma_npow_mono, lemma_npow_pos, npow};
use crate::digit_specs::{
    all_below, dval_asc, dval_desc, is_digits_asc, is_digits_desc, lemma_dval_asc_append,
    lemma_dval_asc_push, lemma_dval_desc_reverse,
};
use crate::limb_digits::{
    compute_powers_for_to_digits, lemma_digit_count_bound, lemma_dval_asc_zeros, lemma_natural_len_bound,
    usize_pow2, TO_DIGITS_DIVIDE_AND_CONQUER_THRESHOLD,
};
use crate::limbs::{lemma_lpow_pow2, lemma_val_bound, limbs_val, lpow};
use crate::natural::{natural_limbs, Natural};

verus! {

/// The numbers that naturals stand for.
pub open spec fn natural_values(s: Seq<Natural>) -> Seq<nat> {
    s.map_values(|n: Natural| n@)
}

/// Whether every natural of `s` is in canonical form.
pub open spec fn all_wf(s: Seq<Natural>) -> bool {
    forall|i: int| 0 <= i < s.len() ==> #[trigger] s[i].wf()
}

/// Appends to `digits` the digits of `x` in base `base`, least significant first and without
/// high zero digits, by repeated division.
pub fn _to_digits_asc_naive(digits: &mut Vec<Natural>, x: &Natural, base: &Natural)
    requires
        x.wf(),
        base.wf(),
        base@ >= 2,
    ensures
        final(digits)@.len() >= old(digits)@.len(),
        final(digits)@.subrange(0, old(digits)@.len() as int) == old(digits)@,
        is_digits_asc(
            natural_values(final(digits)@.subrange(old(digits)@.len() as int, final(digits)@.len() as int)),
            base@,
            x@,
        ),
        all_wf(final(digits)@.subrange(old(digits)@.len() as int, final(digits)@.len() as int)),
{
    let ghost o = digits@;
    let ghost b = base@;
    let mut remainder = x.clone_natural();
    proof {
        assert(digits@.subrange(0, o.len() as int) =~= o);
        assert(natural_values(digits@.subrange(o.len() as int, digits@.len() as int)) =~= Seq::<nat>::empty());
        assert(dval_asc(Seq::<nat>::empty(), b) == 0);
        assert(npow(b, 0) == 1);
        assert((digits@.len() - o.len()) as nat == 0);
        assert(1 * remainder@ == remainder@);
    }
    while !remainder.is_zero()
        invariant
            b == base@,
            b >= 2,
            base.wf(),
            remainder.wf(),
            digits@.len() >= o.len(),
            digits@.subrange(0, o.len() as int) == o,
            x@ == dval_asc(natural_values(digits@.subrange(o.len() as int, digits@.len() as int)), b) + npow(
                b,
                (digits@.len() - o.len()) as nat,
            ) * remainder@,
            all_below(natural_values(digits@.subrange(o.len() as int, digits@.len() as int)), b),
            all_wf(digits@.subrange(o.len() as int, digits@.len() as int)),
            digits@.len() > o.len() ==> (remainder@ != 0 || digits@.last()@ != 0),
        decreases remainder@,
    {
        let ghost before = digits@.subrange(o.len() as int, digits@.len() as int);
        let (q, r) = remainder.div_mod_natural(base);
        let ghost rv = remainder@;
        digits.push(r);
        proof {
            let after = digits@.subrange(o.len() as int, digits@.len() as int);
            assert(after =~= before.push(r));
            assert(natural_values(after) =~= natural_values(before).push(r@));
            lemma_dval_asc_push(natural_values(before), r@, b);
            let k = before.len();
            assert(npow(b, k + 1) == b * npow(b, k));
            let p = npow(b, k);
            assert(p * rv == p * r@ + (b * p) * q@) by (nonlinear_arith)
                requires
                    rv == q@ * b + r@,
            ;
            assert(digits@.subrange(0, o.len() as int) =~= o);
            assert(q@ < rv) by (nonlinear_arith)
                requires
                    rv == q@ * b + r@,
                    b >= 2,
                    rv > 0,
            ;
            if q@ == 0 {
                assert(r@ == rv) by (nonlinear_arith)
                    requires
                        rv == q@ * b + r@,
                        q@ == 0,
                ;
            }
            assert forall|i: int| 0 <= i < after.len() implies #[trigger] after[i].wf() by {
                if i < before.len() {
                    assert(after[i] == before[i]);
                }
            }
            assert((digits@.len() - o.len()) as nat == k + 1);
        }
        remainder = q;
    }
    proof {
        assert(remainder@ == 0);
        let k = (digits@.len() - o.len()) as nat;
        assert(npow(b, k) * 0 == 0);
        let s = digits@.subrange(o.len() as int, digits@.len() as int);
        if s.len() > 0 {
            assert(natural_values(s).last() == s.last()@);
            assert(s.last() == digits@.last());
        }
    }
}

/// Appends to `digits` the digits of `x` in base `base`, least significant first and without
/// high zero digits: by repeated division when `x` is small for the base, else by splitting
/// it at the power `powers[power_index]` (`base^(2^power_index)`), whose square exceeds it,
/// and appending the digits of the remainder padded with zeros to `2^power_index` digits,
/// then those of the quotient.
pub fn _to_digits_asc_divide_and_conquer(
    digits: &mut Vec<Natural>,
    x: &Natural,
    base: &Natural,
    powers: &[Natural],
    power_index: usize,
)
    requires
        x.wf(),
        base.wf(),
        base@ >= 2,
        natural_limbs(*x).len() < 0x100000000000000,
        natural_limbs(*x).len() * 32 <= usize::MAX,
        natural_limbs(*base).len() < 0x100000000000000,
        powers@.len() < 64,
        forall|k: int|
            0 <= k < powers@.len() ==> (#[trigger] powers@[k])@ == npow(base@, pow2(k as nat))
                && powers@[k].wf(),
        powers@.len() > 0 ==> power_index < powers@.len() && x@ < npow(base@, 2 * pow2(power_index as nat)),
    ensures
        final(digits)@.len() >= old(digits)@.len(),
        final(digits)@.subrange(0, old(digits)@.len() as int) == old(digits)@,
        is_digits_asc(
            natural_values(final(digits)@.subrange(old(digits)@.len() as int, final(digits)@.len() as int)),
            base@,
            x@,
        ),
        all_wf(final(digits)@.subrange(old(digits)@.len() as int, final(digits)@.len() as int)),
    decreases power_index,
{
    let ghost b = base@;
    let ghost o = digits@;
    let bits = x.significant_bits();
    let base_bits = base.significant_bits();
    if powers.len() == 0 || bits / base_bits < TO_DIGITS_DIVIDE_AND_CONQUER_THRESHOLD {
        _to_digits_asc_naive(digits, x, base);
        return;
    }
    let ghost xv = x@;
    let ghost pw = npow(b, pow2(power_index as nat));
    proof {
        lemma_npow_add(b, pow2(power_index as nat), pow2(power_index as nat));
        assert(pow2(power_index as nat) + pow2(power_index as nat) == 2 * pow2(power_index as nat));
        assert(xv < pw * pw);
        if power_index == 0 {
            lemma2_to64();
            crate::bases::lemma_npow_one(b);
            assert(pow2(0) == 1);
            let bb = base_bits as nat;
            lemma_pow2_adds(bb, bb);
            assert(b * b < pow2(bb) * pow2(bb)) by (nonlinear_arith)
                requires
                    b < pow2(bb),
                    b >= 0,
            ;
            assert(bits as nat <= 2 * bb) by {
                if bits as nat > 2 * bb {
                    lemma_pow2_strictly_increases(bb + bb, (bits - 1) as nat);
                    if (bits - 1) as nat == bb + bb {
                    }
                }
            }
            vstd::arithmetic::div_mod::lemma_div_is_ordered(bits as int, (2 * bb) as int, bb as int);
            vstd::arithmetic::div_mod::lemma_div_multiples_vanish(2, bb as int);
            assert(2 * bb == bb * 2) by (nonlinear_arith);
            assert(false);
        }
        lemma_npow_pos(b, pow2(power_index as nat));
    }
    let (q, r) = x.div_mod_natural(&powers[power_index]);
    let start_len = digits.len();
    let ghost qv = q@;
    let ghost rv = r@;
    proof {
        lemma_pow2_unfold(power_index as nat);
        assert(pw == npow(b, 2 * pow2((power_index - 1) as nat)));
        assert(qv < pw) by (nonlinear_arith)
            requires
                xv == qv * pw + rv,
                xv < pw * pw,
                rv >= 0,
                pw > 0,
        ;
        assert(qv <= xv) by (nonlinear_arith)
            requires
                xv == qv * pw + rv,
                pw >= 1,
                rv >= 0,
        ;
        let xl = natural_limbs(*x).len();
        crate::limbs::lemma_val_bound(natural_limbs(*x));
        assert(xl >= 1) by {
            if let Natural::Large(v) = *x {
            } else {
            }
        }
        lemma_natural_len_bound(q, xl);
        lemma_natural_len_bound(r, xl);
    }
    _to_digits_asc_divide_and_conquer(digits, &r, base, powers, power_index - 1);
    let ghost d1 = digits@;
    proof {
        let rd = natural_values(d1.subrange(start_len as int, d1.len() as int));
        lemma_digit_count_bound(rd, b, rv, pow2(power_index as nat));
    }
    if !q.is_zero() {
        proof {
            assert(xv >= pw) by (nonlinear_arith)
                requires
                    xv == qv * pw + rv,
                    qv >= 1,
                    rv >= 0,
                    pw >= 0,
            ;
            crate::bases::lemma_npow_base_mono(2, b, pow2(power_index as nat));
            crate::bases::lemma_npow2(pow2(power_index as nat));
            if pow2(power_index as nat) >= bits as nat {
                if pow2(power_index as nat) > bits as nat {
                    lemma_pow2_strictly_increases(bits as nat, pow2(power_index as nat));
                }
            }
            assert(bits as nat <= 32 * natural_limbs(*x).len()) by {
                let m = natural_limbs(*x).len();
                crate::limbs::lemma_val_bound(natural_limbs(*x));
                lemma_lpow_pow2(m);
                if bits as nat > 32 * m {
                    if (bits - 1) as nat > 32 * m {
                        lemma_pow2_strictly_increases(32 * m, (bits - 1) as nat);
                    }
                }
            }
        }
        let t = usize_pow2(power_index);
        while digits.len() - start_len < t
            invariant
                digits@.len() >= start_len,
                digits@.len() >= d1.len(),
                digits@.subrange(0, d1.len() as int) == d1,
                forall|i: int| d1.len() <= i < digits@.len() ==> (#[trigger] digits@[i])@ == 0 && digits@[i].wf(),
                d1.len() >= start_len,
                d1.len() - start_len <= t,
                digits@.len() - start_len <= t,
            decreases t - (digits@.len() - start_len),
        {
            digits.push(Natural::new());
            proof {
                assert(digits@.subrange(0, d1.len() as int) =~= d1);
            }
        }
        let ghost d2 = digits@;
        _to_digits_asc_divide_and_conquer(digits, &q, base, powers, power_index - 1);
        proof {
            let a = d1.subrange(start_len as int, d1.len() as int);
            let z = d2.subrange(d1.len() as int, d2.len() as int);
            let c = digits@.subrange(d2.len() as int, digits@.len() as int);
            assert(digits@.subrange(0, d2.len() as int) == d2);
            assert(d2.subrange(0, d1.len() as int) == d1);
            let all = digits@.subrange(start_len as int, digits@.len() as int);
            assert(all =~= a + z + c);
            assert(digits@.subrange(0, o.len() as int) =~= o);
            let ua = natural_values(a);
            let uz = natural_values(z);
            let uc = natural_values(c);
            assert(natural_values(a + z + c) =~= ua + uz + uc);
            assert forall|i: int| 0 <= i < uz.len() implies uz[i] == 0 by {
                assert(z[i] == d2[d1.len() + i]);
            }
            lemma_dval_asc_zeros(uz, b);
            lemma_dval_asc_append(ua + uz, uc, b);
            lemma_dval_asc_append(ua, uz, b);
            assert(ua.len() + uz.len() == pow2(power_index as nat));
            assert(dval_asc(ua + uz + uc, b) == rv + pw * qv);
            assert forall|i: int| 0 <= i < (ua + uz + uc).len() implies #[trigger] (ua + uz + uc)[i] < b by {
                if i < ua.len() {
                    assert((ua + uz + uc)[i] == ua[i]);
                } else if i < ua.len() + uz.len() {
                    assert((ua + uz + uc)[i] == uz[i - ua.len()]);
                } else {
                    assert((ua + uz + uc)[i] == uc[i - ua.len() - uz.len()]);
                }
            }
            assert(uc.len() > 0) by {
                if uc.len() == 0 {
                    assert(dval_asc(uc, b) == 0);
                }
            }
            assert((ua + uz + uc).last() == uc.last());
            assert(qv * pw == pw * qv) by (nonlinear_arith);
            assert forall|i: int| 0 <= i < all.len() implies #[trigger] all[i].wf() by {
                if i < a.len() {
                    assert(all[i] == a[i]);
                } else if i < a.len() + z.len() {
                    assert(all[i] == z[i - a.len()]);
                    assert(z[i - a.len()] == d2[d1.len() + i - a.len()]);
                } else {
                    assert(all[i] == c[i - a.len() - z.len()]);
                }
            }
        }
    } else {
        proof {
            assert(qv == 0);
            assert(digits@.subrange(0, o.len() as int) =~= o);
            assert(xv == rv) by (nonlinear_arith)
                requires
                    xv == qv * pw + rv,
                    qv == 0,
            ;
        }
    }
}

/// The naturals `xs` in reverse order.
fn reverse_naturals(xs: Vec<Natural>) -> (r: Vec<Natural>)
    ensures
        r@ == xs@.reverse(),
{
    let mut xs = xs;
    let n = xs.len();
    let mut r: Vec<Natural> = Vec::new();
    let ghost orig = xs@;
    while xs.len() > 0
        invariant
            n == orig.len(),
            xs@.len() <= n,
            xs@ == orig.subrange(0, xs@.len() as int),
            r@ == orig.subrange(xs@.len() as int, n as int).reverse(),
        decreases xs@.len(),
    {
        let ghost k = xs@.len() as int;
        let ghost before = xs@;
        let ghost r_before = r@;
        let popped = xs.pop();
        proof {
            assert(popped == Some(before[k - 1]));
            assert(xs@ == before.subrange(0, k - 1));
        }
        let last = popped.unwrap();
        r.push(last);
        proof {
            assert(before =~= orig.subrange(0, k));
            assert(last == orig[k - 1]);
            assert(xs@ =~= orig.subrange(0, k - 1));
            assert(r_before =~= orig.subrange(k, n as int).reverse());
            assert(r@ =~= orig.subrange(k - 1, n as int).reverse());
        }
    }
    proof {
        assert(orig.subrange(0, n as int) =~= orig);
    }
    r
}

/// The digits of `x` in the base `base`, which does not fit in a limb, least significant
/// first and without high zero digits: none for zero, `x` itself when it is below the base,
/// else by the divide-and-conquer conversion over repeated squares of the base.
pub fn _to_digits_asc_large(x: &Natural, base: &Natural) -> (r: Vec<Natural>)
    requires
        x.wf(),
        base.wf(),
        base@ >= 0x1_0000_0000,
        natural_limbs(*x).len() < 0x800000000000,
        natural_limbs(*x).len() * 512 <= usize::MAX,
        natural_limbs(*base).len() < 0x4000000000000,
        natural_limbs(*base).len() <= usize::MAX / 8,
    ensures
        is_digits_asc(natural_values(r@), base@, x@),
        all_wf(r@),
{
    if x.is_zero() {
        let r: Vec<Natural> = Vec::new();
        proof {
            assert(natural_values(r@) =~= Seq::<nat>::empty());
        }
        return r;
    }
    if x.lt_natural(base) {
        let mut r: Vec<Natural> = Vec::new();
        r.push(x.clone_natural());
        proof {
            assert(natural_values(r@) =~= seq![x@]);
            crate::laws::lemma_dval_asc_single(x@, base@);
        }
        return r;
    }
    let bits = x.significant_bits();
    proof {
        let m = natural_limbs(*x).len();
        crate::limbs::lemma_val_bound(natural_limbs(*x));
        lemma_lpow_pow2(m);
        if bits as nat > 32 * m {
            if (bits - 1) as nat > 32 * m {
                lemma_pow2_strictly_increases(32 * m, (bits - 1) as nat);
            }
        }
    }
    let powers = compute_powers_for_to_digits(base, bits);
    let mut digits: Vec<Natural> = Vec::new();
    let idx = if powers.len() > 0 { powers.len() - 1 } else { 0 };
    _to_digits_asc_divide_and_conquer(&mut digits, x, base, powers.as_slice(), idx);
    proof {
        assert(digits@.subrange(0, digits@.len() as int) =~= digits@);
    }
    digits
}

/// The digits of `x` in the base `base`, which does not fit in a limb, most significant
/// first and without leading zero digits.
pub fn _to_digits_desc_large(x: &Natural, base: &Natural) -> (r: Vec<Natural>)
    requires
        x.wf(),
        base.wf(),
        base@ >= 0x1_0000_0000,
        natural_limbs(*x).len() < 0x800000000000,
        natural_limbs(*x).len() * 512 <= usize::MAX,
        natural_limbs(*base).len() < 0x4000000000000,
        natural_limbs(*base).len() <= usize::MAX / 8,
    ensures
        is_digits_desc(natural_values(r@), base@, x@),
        all_wf(r@),
{
    let asc = _to_digits_asc_large(x, base);
    let ghost a = asc@;
    let desc = reverse_naturals(asc);
    proof {
        let va = natural_values(a);
        let vd = natural_values(desc@);
        assert(vd =~= va.reverse());
        lemma_dval_desc_reverse(vd, base@);
        assert(vd.reverse() =~= va);
        assert forall|i: int| 0 <= i < vd.len() implies #[trigger] vd[i] < base@ by {
            assert(vd[i] == va[va.len() - 1 - i]);
        }
        if vd.len() > 0 {
            assert(vd[0] == va.last());
        }
        assert forall|i: int| 0 <= i < desc@.len() implies #[trigger] desc@[i].wf() by {
            assert(desc@[i] == a[a.len() - 1 - i]);
        }
    }
    desc
}

} // verus!
