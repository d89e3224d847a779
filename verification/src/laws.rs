//! Properties that hold across the operations of this crate: the representations it hands
//! out are unique, so its conversions undo each other, and its two ways of building a power
//! table agree.
use vstd::prelude::*;
use vstd::arithmetic::power2::pow2;
use crate::bases::{lemma_npow_pos, npow};
use crate::digit_specs::{
    all_below, dval_asc, dval_desc, is_digits_asc, is_digits_desc, lemma_dval_asc_append,
    lemma_dval_asc_lower, lemma_dval_desc_reverse,
};
use crate::limbs::{
    is_normalized, lemma_lpow_pos, lemma_val_cons, lemma_val_normalized_lower, limbs_val, lpow,
    radix,
};
use crate::power_build::{row_ok, table_ok, PowerTableRow};
use crate::natural::{lemma_small_val, natural_limbs, Natural};
use crate::power_table::{ceil_half, halvings, power_count, PowerTableAlgorithm};

verus! {

/// A number has one representation in limbs without high zero limbs: two such limb
/// sequences with the same value are the same sequence.
pub proof fn lemma_limbs_unique(s1: Seq<u32>, s2: Seq<u32>)
    requires
        is_normalized(s1),
        is_normalized(s2),
        limbs_val(s1) == limbs_val(s2),
    ensures
        s1 == s2,
    decreases s1.len(),
{
    if s1.len() == 0 || s2.len() == 0 {
        if s1.len() > 0 {
            lemma_val_normalized_lower(s1);
            lemma_lpow_pos((s1.len() - 1) as nat);
        }
        if s2.len() > 0 {
            lemma_val_normalized_lower(s2);
            lemma_lpow_pos((s2.len() - 1) as nat);
        }
        assert(s1 =~= s2);
    } else {
        lemma_val_cons(s1);
        lemma_val_cons(s2);
        let t1 = s1.subrange(1, s1.len() as int);
        let t2 = s2.subrange(1, s2.len() as int);
        let v = limbs_val(s1);
        vstd::arithmetic::div_mod::lemma_fundamental_div_mod_converse(
            v as int,
            radix() as int,
            limbs_val(t1) as int,
            s1[0] as int,
        );
        vstd::arithmetic::div_mod::lemma_fundamental_div_mod_converse(
            v as int,
            radix() as int,
            limbs_val(t2) as int,
            s2[0] as int,
        );
        assert(limbs_val(t1) * radix() == radix() * limbs_val(t1)) by (nonlinear_arith);
        assert(limbs_val(t2) * radix() == radix() * limbs_val(t2)) by (nonlinear_arith);
        if t1.len() > 0 {
            assert(t1.last() == s1.last());
        }
        if t2.len() > 0 {
            assert(t2.last() == s2.last());
        }
        lemma_limbs_unique(t1, t2);
        assert(s1 =~= seq![s1[0]] + t1);
        assert(s2 =~= seq![s2[0]] + t2);
    }
}

/// A number has one representation by digits in base `b >= 2` without high zero digits,
/// least significant first: `to_digits_asc` can return nothing else, and converting those
/// digits back gives the number.
pub proof fn lemma_digits_asc_unique(s1: Seq<nat>, s2: Seq<nat>, b: nat, x: nat)
    requires
        b >= 2,
        is_digits_asc(s1, b, x),
        is_digits_asc(s2, b, x),
    ensures
        s1 == s2,
    decreases s1.len(),
{
    if s1.len() == 0 || s2.len() == 0 {
        if s1.len() > 0 {
            lemma_dval_asc_lower(s1, b);
            lemma_npow_pos(b, (s1.len() - 1) as nat);
        }
        if s2.len() > 0 {
            lemma_dval_asc_lower(s2, b);
            lemma_npow_pos(b, (s2.len() - 1) as nat);
        }
        assert(s1 =~= s2);
    } else {
        let t1 = s1.subrange(1, s1.len() as int);
        let t2 = s2.subrange(1, s2.len() as int);
        assert(s1 =~= seq![s1[0]] + t1);
        assert(s2 =~= seq![s2[0]] + t2);
        lemma_dval_asc_append(seq![s1[0]], t1, b);
        lemma_dval_asc_append(seq![s2[0]], t2, b);
        lemma_dval_asc_single(s1[0], b);
        lemma_dval_asc_single(s2[0], b);
        crate::bases::lemma_npow_one(b);
        assert(s1[0] < b);
        assert(s2[0] < b);
        vstd::arithmetic::div_mod::lemma_fundamental_div_mod_converse(
            x as int,
            b as int,
            dval_asc(t1, b) as int,
            s1[0] as int,
        );
        vstd::arithmetic::div_mod::lemma_fundamental_div_mod_converse(
            x as int,
            b as int,
            dval_asc(t2, b) as int,
            s2[0] as int,
        );
        assert(dval_asc(t1, b) * b == b * dval_asc(t1, b)) by (nonlinear_arith);
        assert(dval_asc(t2, b) * b == b * dval_asc(t2, b)) by (nonlinear_arith);
        assert forall|i: int| 0 <= i < t1.len() implies #[trigger] t1[i] < b by {
            assert(t1[i] == s1[i + 1]);
        }
        assert forall|i: int| 0 <= i < t2.len() implies #[trigger] t2[i] < b by {
            assert(t2[i] == s2[i + 1]);
        }
        if t1.len() > 0 {
            assert(t1.last() == s1.last());
        }
        if t2.len() > 0 {
            assert(t2.last() == s2.last());
        }
        lemma_digits_asc_unique(t1, t2, b, dval_asc(t1, b));
    }
}

pub(crate) proof fn lemma_dval_asc_single(d: nat, b: nat)
    ensures
        dval_asc(seq![d], b) == d,
{
    assert(seq![d].drop_last() =~= Seq::<nat>::empty());
    assert(seq![d].len() == 1);
    assert(seq![d].last() == d);
    assert(dval_asc(Seq::<nat>::empty(), b) == 0);
    assert(npow(b, 0) == 1);
    assert(1 * d == d);
}

/// The most-significant-first digits of a number are its least-significant-first digits in
/// reverse: `to_digits_desc` returns the reverse of what `to_digits_asc` returns.
pub proof fn law_digits_desc_is_reversed_asc(a: Seq<nat>, d: Seq<nat>, b: nat, x: nat)
    requires
        b >= 2,
        is_digits_asc(a, b, x),
        is_digits_desc(d, b, x),
    ensures
        d == a.reverse(),
{
    let r = d.reverse();
    lemma_dval_desc_reverse(d, b);
    assert forall|i: int| 0 <= i < r.len() implies #[trigger] r[i] < b by {
        assert(r[i] == d[d.len() - 1 - i]);
    }
    if r.len() > 0 {
        assert(r.last() == d[0]);
    }
    lemma_digits_asc_unique(a, r, b, x);
    assert(r.reverse() =~= d);
}

/// Converting the digits of a number back gives the number, and the digits of the number
/// that canonical digits stand for are those digits: `from_digits_desc` and
/// `to_digits_desc` undo each other on canonical digits.
pub proof fn law_digits_desc_round_trip(d: Seq<nat>, r: Seq<nat>, b: nat)
    requires
        b >= 2,
        is_digits_desc(d, b, dval_desc(d, b)),
        is_digits_desc(r, b, dval_desc(d, b)),
    ensures
        r == d,
        all_below(r, b),
{
    let a = d.reverse();
    lemma_dval_desc_reverse(d, b);
    assert forall|i: int| 0 <= i < a.len() implies #[trigger] a[i] < b by {
        assert(a[i] == d[d.len() - 1 - i]);
    }
    if a.len() > 0 {
        assert(a.last() == d[0]);
    }
    law_digits_desc_is_reversed_asc(a, r, b, dval_desc(d, b));
    assert(a.reverse() =~= d);
}

/// A row of a power table is determined by its exponent: the rows that both table builders
/// produce for one exponent have the same limbs and the same shift.
pub proof fn law_power_rows_canonical(r1: PowerTableRow, r2: PowerTableRow, base: nat)
    requires
        row_ok(r1, base),
        row_ok(r2, base),
        r1.digits_in_base == r2.digits_in_base,
    ensures
        r1.power@ == r2.power@,
        r1.shift == r2.shift,
{
    let p1 = r1.power@;
    let p2 = r2.power@;
    let s1 = r1.shift as nat;
    let s2 = r2.shift as nat;
    lemma_shift_order(p1, s1, p2, s2);
    lemma_shift_order(p2, s2, p1, s1);
    assert(s1 == s2);
    lemma_lpow_pos(s1);
    assert(limbs_val(p1) == limbs_val(p2)) by (nonlinear_arith)
        requires
            limbs_val(p1) * lpow(s1) == limbs_val(p2) * lpow(s1),
            lpow(s1) > 0,
    ;
    lemma_limbs_unique(p1, p2);
}

/// Limbs whose lowest limb is not zero, shifted by `s1` limbs, can only equal limbs shifted
/// by `s2` limbs when `s1 >= s2`.
proof fn lemma_shift_order(p1: Seq<u32>, s1: nat, p2: Seq<u32>, s2: nat)
    requires
        p1.len() > 0,
        p1[0] != 0,
        limbs_val(p1) * lpow(s1) == limbs_val(p2) * lpow(s2),
    ensures
        s1 >= s2,
{
    if s1 < s2 {
        crate::limbs::lemma_lpow_add(s1, (s2 - s1) as nat);
        crate::limbs::lemma_lpow_add(1, (s2 - s1 - 1) as nat);
        lemma_lpow_pos(s1);
        let k = lpow((s2 - s1 - 1) as nat);
        assert(lpow(1) == radix()) by {
            assert(lpow(1) == radix() * lpow(0));
        }
        assert(limbs_val(p1) == radix() * (k * limbs_val(p2))) by (nonlinear_arith)
            requires
                limbs_val(p1) * lpow(s1) == limbs_val(p2) * lpow(s2),
                lpow(s2) == lpow(s1) * lpow((s2 - s1) as nat),
                lpow((s2 - s1) as nat) == lpow(1) * k,
                lpow(1) == radix(),
                lpow(s1) > 0,
        ;
        lemma_val_cons(p1);
        let t = limbs_val(p1.subrange(1, p1.len() as int));
        vstd::arithmetic::div_mod::lemma_fundamental_div_mod_converse(
            limbs_val(p1) as int,
            radix() as int,
            t as int,
            p1[0] as int,
        );
        vstd::arithmetic::div_mod::lemma_fundamental_div_mod_converse(
            limbs_val(p1) as int,
            radix() as int,
            (k * limbs_val(p2)) as int,
            0,
        );
        assert(t * radix() == radix() * t) by (nonlinear_arith);
        assert((k * limbs_val(p2)) * radix() == radix() * (k * limbs_val(p2))) by (nonlinear_arith);
    }
}

/// The multiplication and the division algorithm build the same power table: for one
/// exponent table, their rows have the same limbs, shifts and exponents.
pub proof fn law_power_tables_agree(
    m: Seq<PowerTableRow>,
    d: Seq<PowerTableRow>,
    e: Seq<usize>,
    power_len: nat,
    base: nat,
)
    requires
        table_ok(m, e, power_len, base),
        table_ok(d, e, power_len, base),
    ensures
        forall|i: int|
            0 <= i <= power_len ==> (#[trigger] m[i]).power@ == d[i].power@ && m[i].shift
                == d[i].shift && m[i].digits_in_base == d[i].digits_in_base,
{
    assert forall|i: int| 0 <= i <= power_len implies (#[trigger] m[i]).power@ == d[i].power@
        && m[i].shift == d[i].shift && m[i].digits_in_base == d[i].digits_in_base by {
        assert(row_ok(m[i], base));
        assert(row_ok(d[i], base));
        law_power_rows_canonical(m[i], d[i], base);
    }
}

/// `_limbs_compute_power_table` builds the same table whichever algorithm it uses, once there
/// are at least three limbs: the two tables have the same number of levels and rows, and
/// their rows have the same limbs, shifts and exponents.
pub proof fn law_compute_power_table_agrees(
    n1: nat,
    r1: Seq<PowerTableRow>,
    a1: PowerTableAlgorithm,
    n2: nat,
    r2: Seq<PowerTableRow>,
    a2: PowerTableAlgorithm,
    xs_len: nat,
    base: nat,
)
    requires
        xs_len >= 3,
        base >= 2,
        n1 == power_count(ceil_half(xs_len)),
        n2 == power_count(ceil_half(xs_len)),
        r1.len() == (if n1 == 0 && a1 == PowerTableAlgorithm::Mul { 2 } else { n1 + 1 }),
        r2.len() == (if n2 == 0 && a2 == PowerTableAlgorithm::Mul { 2 } else { n2 + 1 }),
        forall|i: int| 0 <= i < r1.len() ==> row_ok(#[trigger] r1[i], base),
        forall|i: int| 0 <= i < r2.len() ==> row_ok(#[trigger] r2[i], base),
        npow(base, r1[0].digits_in_base as nat) <= 4294967295,
        npow(base, (r1[0].digits_in_base + 1) as nat) > 4294967295,
        npow(base, r2[0].digits_in_base as nat) <= 4294967295,
        npow(base, (r2[0].digits_in_base + 1) as nat) > 4294967295,
        forall|i: int|
            0 <= i <= n1 ==> (#[trigger] r1[i]).digits_in_base == halvings(xs_len, (n1 - i + 1) as nat)
                * r1[0].digits_in_base,
        forall|i: int|
            0 <= i <= n2 ==> (#[trigger] r2[i]).digits_in_base == halvings(xs_len, (n2 - i + 1) as nat)
                * r2[0].digits_in_base,
    ensures
        n1 == n2,
        r1.len() == r2.len(),
        forall|i: int|
            0 <= i < r1.len() ==> (#[trigger] r1[i]).power@ == r2[i].power@ && r1[i].shift == r2[i].shift
                && r1[i].digits_in_base == r2[i].digits_in_base,
{
    assert(ceil_half(xs_len) >= 2);
    assert(power_count(ceil_half(xs_len)) >= 1);
    let d1 = r1[0].digits_in_base as nat;
    let d2 = r2[0].digits_in_base as nat;
    crate::bases::lemma_limb_power_unique(base, d1, npow(base, d1), d2, npow(base, d2));
    assert forall|i: int| 0 <= i < r1.len() implies (#[trigger] r1[i]).power@ == r2[i].power@
        && r1[i].shift == r2[i].shift && r1[i].digits_in_base == r2[i].digits_in_base by {
        assert(r1[i].digits_in_base == r2[i].digits_in_base);
        assert(row_ok(r1[i], base));
        assert(row_ok(r2[i], base));
        law_power_rows_canonical(r1[i], r2[i], base);
    }
}

/// Shifting right by the number of trailing zeros leaves an odd number, and shifting back
/// left restores the number: what `trailing_zeros` returns makes `shr_bits` followed by
/// `shl_bits` the identity.
pub proof fn law_trailing_zeros_shift(x: nat, t: nat)
    requires
        x % pow2(t) == 0,
        (x / pow2(t)) % 2 == 1,
    ensures
        (x / pow2(t)) * pow2(t) == x,
        (x / pow2(t)) % 2 == 1,
{
    vstd::arithmetic::power2::lemma_pow2_pos(t);
    vstd::arithmetic::div_mod::lemma_fundamental_div_mod(x as int, pow2(t) as int);
    assert((x / pow2(t)) * pow2(t) == pow2(t) * (x / pow2(t))) by (nonlinear_arith);
}

/// Wrapping to 64 bits commutes with negation: the wrapped value of `-v` is 2^64 minus that
/// of `v`, modulo 2^64, so `to_u64_wrapping` of `x` and of `-x` add up to zero modulo 2^64.
pub proof fn law_u64_wrapping_neg(v: int)
    ensures
        ((v % 0x1_0000_0000_0000_0000) + ((-v) % 0x1_0000_0000_0000_0000)) % 0x1_0000_0000_0000_0000
            == 0,
{
    let m = 0x1_0000_0000_0000_0000int;
    vstd::arithmetic::div_mod::lemma_fundamental_div_mod(v, m);
    vstd::arithmetic::div_mod::lemma_fundamental_div_mod(-v, m);
    let a = v % m;
    let c = (-v) % m;
    assert(a + c == m * (-(v / m) - ((-v) / m))) by (nonlinear_arith)
        requires
            v == m * (v / m) + a,
            -v == m * ((-v) / m) + c,
    ;
    vstd::arithmetic::div_mod::lemma_mod_multiples_basic(-(v / m) - ((-v) / m), m);
    assert((-(v / m) - ((-v) / m)) * m == m * (-(v / m) - ((-v) / m))) by (nonlinear_arith);
}

/// The `i32` congruent to `-v` modulo 2^32 is the wrapping negation of the one congruent to
/// `v`: what `to_i32_wrapping` returns for `x` and for `-x` add up to zero modulo 2^32.
pub proof fn law_i32_wrapping_neg(v: int, r: i32, s: i32)
    requires
        (r as int - v) % 0x1_0000_0000 == 0,
        (s as int + v) % 0x1_0000_0000 == 0,
    ensures
        (r as int + s as int) % 0x1_0000_0000 == 0,
{
    let m = 0x1_0000_0000int;
    vstd::arithmetic::div_mod::lemma_fundamental_div_mod(r as int - v, m);
    vstd::arithmetic::div_mod::lemma_fundamental_div_mod(s as int + v, m);
    let q1 = (r as int - v) / m;
    let q2 = (s as int + v) / m;
    assert(r as int + s as int == (q1 + q2) * m) by (nonlinear_arith)
        requires
            r as int - v == m * q1,
            s as int + v == m * q2,
    ;
    vstd::arithmetic::div_mod::lemma_mod_multiples_basic(q1 + q2, m);
}

/// The limbs of a number most significant first are its limbs least significant first in
/// reverse: `to_limbs_desc` returns the reverse of what `to_limbs_asc` returns.
pub proof fn law_limbs_desc_is_reversed_asc(a: Seq<u32>, d: Seq<u32>, x: nat)
    requires
        is_normalized(a),
        limbs_val(a) == x,
        limbs_val(d.reverse()) == x,
        d.len() == 0 || d[0] != 0,
    ensures
        d == a.reverse(),
{
    let r = d.reverse();
    if r.len() > 0 {
        assert(r.last() == d[0]);
    }
    lemma_limbs_unique(a, r);
    assert(a.reverse() =~= d);
}

/// A value that fits in 64 bits is its own wrapped value: where `to_u64` succeeds, it agrees
/// with `to_u64_wrapping`.
pub proof fn law_u64_in_range(v: int)
    requires
        0 <= v < 0x1_0000_0000_0000_0000,
    ensures
        v % 0x1_0000_0000_0000_0000 == v,
{
    vstd::arithmetic::div_mod::lemma_small_mod(v as nat, 0x1_0000_0000_0000_0000);
}

/// A value that fits in an `i32` is the only `i32` congruent to it modulo 2^32: where
/// `to_i32` succeeds, it agrees with `to_i32_wrapping`.
pub proof fn law_i32_in_range(v: int, r: i32)
    requires
        -0x8000_0000 <= v < 0x8000_0000,
        (r as int - v) % 0x1_0000_0000 == 0,
    ensures
        r as int == v,
{
    let m = 0x1_0000_0000int;
    vstd::arithmetic::div_mod::lemma_fundamental_div_mod(r as int - v, m);
    let q = (r as int - v) / m;
    assert(r as int - v == m * q);
    assert(q == 0) by (nonlinear_arith)
        requires
            r as int - v == m * q,
            m == 0x1_0000_0000,
            -0x8000_0000 <= v < 0x8000_0000,
            -0x8000_0000 <= r < 0x8000_0000,
    ;
}

/// A natural in canonical form is determined by its value: two canonical naturals with the
/// same value are both small or both large, with the same limbs.
pub proof fn law_natural_canonical(a: Natural, b: Natural)
    requires
        a.wf(),
        b.wf(),
        a@ == b@,
    ensures
        natural_limbs(a) == natural_limbs(b),
        (a is Small) == (b is Small),
{
    match (a, b) {
        (Natural::Small(x), Natural::Small(y)) => {
            lemma_small_val(x);
            lemma_small_val(y);
        },
        (Natural::Large(xs), Natural::Large(ys)) => {
            lemma_limbs_unique(xs@, ys@);
        },
        (Natural::Small(x), Natural::Large(ys)) => {
            lemma_small_val(x);
            lemma_large_at_least_radix(ys@);
        },
        (Natural::Large(xs), Natural::Small(y)) => {
            lemma_small_val(y);
            lemma_large_at_least_radix(xs@);
        },
    }
}

/// The limbs of a large natural stand for at least 2^32.
proof fn lemma_large_at_least_radix(s: Seq<u32>)
    requires
        s.len() > 1,
        s.last() != 0,
    ensures
        limbs_val(s) >= radix(),
{
    lemma_val_normalized_lower(s);
    crate::limbs::lemma_lpow_mono(1, (s.len() - 1) as nat);
    assert(lpow(1) == radix() * lpow(0));
    assert(lpow((s.len() - 1) as nat) * (s.last() as nat) >= lpow((s.len() - 1) as nat))
        by (nonlinear_arith)
        requires
            s.last() as nat >= 1,
    ;
}

/// Two readers of the same digits in the same base that each return `None` exactly when a
/// digit is not below the base, and otherwise the canonical natural with the digits' value,
/// return the same result: `_from_digits_desc_divide_and_conquer_limb` agrees with
/// `_from_digits_desc_naive_primitive`, and `_from_digits_desc_divide_and_conquer` with
/// `_from_digits_desc_naive`.
pub proof fn law_from_digits_readers_agree(r1: Option<Natural>, r2: Option<Natural>, s: Seq<nat>, b: nat)
    requires
        r1 is Some <==> all_below(s, b),
        r2 is Some <==> all_below(s, b),
        r1 matches Some(n) ==> n@ == dval_desc(s, b) && n.wf(),
        r2 matches Some(n) ==> n@ == dval_desc(s, b) && n.wf(),
    ensures
        r1 is Some <==> r2 is Some,
        r1 is Some ==> (r1->0)@ == (r2->0)@ && natural_limbs(r1->0) == natural_limbs(r2->0) && (
        r1->0 is Small) == (r2->0 is Small),
{
    if r1 is Some {
        law_natural_canonical(r1->0, r2->0);
    }
}

/// Two conversions of the same digits into limbs that each return `None` exactly when a digit
/// is not below the base, and otherwise the number of limbs, without high zero limbs, of the
/// digits' value, return the same count and the same limbs:
/// `_limbs_from_digits_small_base_divide_and_conquer` agrees with
/// `_limbs_from_digits_small_base_basecase`.
pub proof fn law_limbs_from_digits_agree(
    r1: Option<usize>,
    o1: Seq<u32>,
    r2: Option<usize>,
    o2: Seq<u32>,
    s: Seq<nat>,
    b: nat,
)
    requires
        r1 is None <==> !all_below(s, b),
        r2 is None <==> !all_below(s, b),
        r1 matches Some(n) ==> n <= o1.len() && limbs_val(o1.subrange(0, n as int)) == dval_desc(s, b)
            && is_normalized(o1.subrange(0, n as int)),
        r2 matches Some(n) ==> n <= o2.len() && limbs_val(o2.subrange(0, n as int)) == dval_desc(s, b)
            && is_normalized(o2.subrange(0, n as int)),
    ensures
        r1 == r2,
        r1 matches Some(n) ==> o1.subrange(0, n as int) == o2.subrange(0, n as int),
{
    if let Some(n1) = r1 {
        let n2 = r2->0;
        lemma_limbs_unique(o1.subrange(0, n1 as int), o2.subrange(0, n2 as int));
    }
}

/// Reading back the digits that a number was written as gives the number: when `ds` are the
/// canonical digits of the canonical natural `x` in base `b`, least significant first (as
/// `_to_digits_asc_limb` returns them), a reader with the contract of `_from_digits_asc_limb`
/// returns `x` itself.
pub proof fn law_digits_asc_read_back(x: Natural, ds: Seq<nat>, b: nat, r: Option<Natural>)
    requires
        x.wf(),
        is_digits_asc(ds, b, x@),
        r is Some <==> all_below(ds, b),
        r matches Some(n) ==> n@ == dval_asc(ds, b) && n.wf(),
    ensures
        r is Some,
        (r->0)@ == x@,
        natural_limbs(r->0) == natural_limbs(x),
        (r->0 is Small) == (x is Small),
{
    law_natural_canonical(r->0, x);
}

/// The number of levels and the algorithm that `_limbs_choose_power_table_algorithm` picks
/// depend on the number of limbs alone, and the exponent tables that it writes for two bases
/// differ only by the factor of each base's digits per limb.
pub proof fn law_choose_depends_on_len_only(
    xs_len: nat,
    n1: nat,
    e1: Seq<usize>,
    a1: PowerTableAlgorithm,
    n2: nat,
    e2: Seq<usize>,
    a2: PowerTableAlgorithm,
)
    requires
        n1 == power_count(ceil_half(xs_len)),
        n2 == power_count(ceil_half(xs_len)),
        n1 < e1.len(),
        n2 < e2.len(),
        a1 == crate::power_table::chosen_algorithm(xs_len, n1),
        a2 == crate::power_table::chosen_algorithm(xs_len, n2),
        forall|k: int| 0 <= k < n1 ==> #[trigger] e1[k] == halvings(xs_len, (k + 1) as nat) * e1[n1 as int],
        forall|k: int| 0 <= k < n2 ==> #[trigger] e2[k] == halvings(xs_len, (k + 1) as nat) * e2[n2 as int],
    ensures
        n1 == n2,
        a1 == a2,
        forall|j: int|
            0 <= j <= n1 ==> (#[trigger] e2[j]) * e1[n1 as int] == e1[j] * e2[n2 as int],
{
    assert forall|j: int| 0 <= j <= n1 implies (#[trigger] e2[j]) * e1[n1 as int] == e1[j] * e2[n2 as int] by {
        if j < n1 {
            let h = halvings(xs_len, (j + 1) as nat);
            let d1 = e1[n1 as int] as nat;
            let d2 = e2[n2 as int] as nat;
            assert(e1[j] == h * d1);
            assert(e2[j] == h * d2);
            assert((h * d2) * d1 == (h * d1) * d2) by (nonlinear_arith);
        } else {
            assert(e2[j] * e1[n1 as int] == e1[j] * e2[n2 as int]) by (nonlinear_arith)
                requires
                    j == n1,
                    n1 == n2,
            ;
        }
    }
}

/// The algorithm that `_limbs_choose_power_table_algorithm` returns is the cheaper one by its
/// cost estimate: multiplication exactly when its estimated cost is at most 150% of the
/// estimated cost of division.
pub proof fn law_choose_picks_cheaper(xs_len: nat, count: nat, alg: PowerTableAlgorithm)
    requires
        xs_len >= 1,
        alg == crate::power_table::chosen_algorithm(xs_len, count),
    ensures
        alg == PowerTableAlgorithm::Mul <==> 1 + crate::power_table::mul_cost_sum(
            (xs_len - 1) as nat,
            ceil_half(xs_len),
            1,
            count,
        ) <= (1 + crate::power_table::div_cost_sum((xs_len - 1) as nat, 1, count)) * 150 / 100,
        alg == PowerTableAlgorithm::Div <==> 1 + crate::power_table::mul_cost_sum(
            (xs_len - 1) as nat,
            ceil_half(xs_len),
            1,
            count,
        ) > (1 + crate::power_table::div_cost_sum((xs_len - 1) as nat, 1, count)) * 150 / 100,
{
}

/// Halving does not stop at 1 before the count of halvings is used up.
proof fn lemma_halvings_above_one(p: nat, j: nat)
    requires
        p >= 1,
        j < power_count(p),
    ensures
        halvings(p, j) >= 2,
    decreases power_count(p) - j,
{
    crate::power_build::lemma_count_halvings(p);
    if j + 1 < power_count(p) {
        lemma_halvings_above_one(p, j + 1);
        assert(halvings(p, j + 1) == ceil_half(halvings(p, j)));
    } else {
        assert(j == (power_count(p) - 1) as nat);
    }
}

/// Each row of a table that `_limbs_compute_power_table` builds stands for a strictly higher
/// power of the base than the row before it: the exponents strictly increase along the
/// table, the spare row of the multiplication algorithm included.
pub proof fn law_power_table_exponents_increase(n: nat, rows: Seq<PowerTableRow>, xs_len: nat, base: nat)
    requires
        xs_len >= 1,
        2 <= base < 256,
        n == power_count(ceil_half(xs_len)),
        rows.len() == n + 1 || (n == 0 && rows.len() == 2),
        npow(base, rows[0].digits_in_base as nat) <= 4294967295,
        npow(base, (rows[0].digits_in_base + 1) as nat) > 4294967295,
        forall|i: int|
            0 <= i <= n ==> (#[trigger] rows[i]).digits_in_base == halvings(xs_len, (n - i + 1) as nat)
                * rows[0].digits_in_base,
        rows.len() == n + 2 ==> rows[n + 1int].digits_in_base == 2 * rows[0].digits_in_base,
    ensures
        forall|i: int|
            0 <= i && i + 1 < rows.len() ==> (#[trigger] rows[i]).digits_in_base < rows[i + 1].digits_in_base,
{
    let d0 = rows[0].digits_in_base as nat;
    assert(d0 >= 1) by {
        if d0 == 0 {
            crate::bases::lemma_npow_one(base);
        }
    }
    let cp = ceil_half(xs_len);
    crate::power_table::lemma_ceil_half_le(xs_len);
    crate::power_build::lemma_count_halvings(cp);
    assert forall|i: int| 0 <= i && i + 1 < rows.len() implies (#[trigger] rows[i]).digits_in_base
        < rows[i + 1].digits_in_base by {
        if i + 1 <= n {
            let j = (n - i - 1) as nat;
            crate::power_build::lemma_halvings_shift(xs_len, j);
            crate::power_build::lemma_halvings_shift(xs_len, j + 1);
            assert((n - i + 1) as nat == j + 2);
            assert((n - (i + 1) + 1) as nat == j + 1);
            assert(rows[i].digits_in_base == halvings(xs_len, j + 2) * d0);
            assert(rows[i + 1].digits_in_base == halvings(xs_len, j + 1) * d0);
            lemma_halvings_above_one(cp, j);
            let h = halvings(cp, j);
            assert(halvings(cp, j + 1) == ceil_half(h));
            crate::power_table::lemma_ceil_half_le(h);
            assert(ceil_half(h) * d0 < h * d0) by (nonlinear_arith)
                requires
                    ceil_half(h) < h,
                    d0 >= 1,
            ;
        } else {
            assert(i == 0 && n == 0);
            assert(rows[1].digits_in_base == 2 * d0);
        }
    }
}

} // verus!
