//! Building the table of powers of a base's big base, by repeated squaring either followed
//! by a multiplication or preceded by an exact division.
use vstd::prelude::*;
use vstd::arithmetic::power2::{pow2, lemma_pow2_adds, lemma_pow2_pos, lemma_pow2_unfold, lemma2_to64};
use crate::arith::{limbs_mul_limb_to_out, limbs_square_to_out};
use crate::bases::{
    chars_per_limb_and_big_base, is_limb_power, is_pow2_u64, lemma_npow_add, lemma_npow_base_mono,
    lemma_npow_mono, lemma_npow_mul, lemma_npow_one, lemma_npow_pos, npow,
};
use crate::limbs::{
    is_normalized, lemma_lpow_add, lemma_lpow_mono, lemma_lpow_pos, lemma_val_normalized_lower,
    lemma_val_push, lemma_val_split, lemma_val_zero_iff, lemma_val_zeros, limbs_val, lpow, radix,
};
use crate::natural_digits::lemma_npow_radix;
use crate::power_table::{
    _limbs_choose_power_table_algorithm, ceil_half, halvings, lemma_power_count_bound, power_count,
    PowerTableAlgorithm,
};
use crate::to_digits::normalize_vec;

verus! {

/// One level of a power table: `power`, shifted up by `shift` limbs, is the base raised to
/// `digits_in_base`. The limbs of `power` are least significant first.
#[derive(Clone, Debug, PartialEq, Eq)]
pub struct PowerTableRow {
    pub power: Vec<u32>,
    pub shift: usize,
    pub digits_in_base: usize,
}

/// Whether `row` stands for a power of `base`: `power * 2^(32 shift) == base^digits_in_base`,
/// with `power` free of high and of low zero limbs.
pub open spec fn row_ok(row: PowerTableRow, base: nat) -> bool {
    &&& row.power@.len() > 0
    &&& row.power@.last() != 0
    &&& row.power@[0] != 0
    &&& limbs_val(row.power@) * lpow(row.shift as nat) == npow(base, row.digits_in_base as nat)
}

/// Whether `e[..=power_len]` is the exponent table of a power table for `base`: its last
/// entry is the number of digits per limb, and entry `k` is that number times the top
/// quotient `e[0] / dpl` halved (rounding up) `k` times, which reaches 1 exactly at `power_len`.
pub open spec fn is_exponent_table(e: Seq<usize>, power_len: nat, base: nat) -> bool {
    &&& power_len < e.len()
    &&& e[power_len as int] >= 1
    &&& npow(base, e[power_len as int] as nat) <= 4294967295
    &&& npow(base, (e[power_len as int] + 1) as nat) > 4294967295
    &&& forall|k: int|
        0 <= k <= power_len ==> #[trigger] e[k] == halvings(
            (e[0] / e[power_len as int]) as nat,
            k as nat,
        ) * e[power_len as int]
    &&& halvings((e[0] / e[power_len as int]) as nat, power_len) == 1
    &&& power_len >= 1 ==> halvings((e[0] / e[power_len as int]) as nat, (power_len - 1) as nat)
        >= 2
    &&& e[0] <= usize::MAX / 8
}

/// Whether `rows` is a power table for `base` and the exponent table `e[..=power_len]`:
/// every row stands for a power of `base`, and row `i` for the exponent `e[power_len - i]`.
pub open spec fn table_ok(rows: Seq<PowerTableRow>, e: Seq<usize>, power_len: nat, base: nat) -> bool {
    &&& rows.len() >= power_len + 1
    &&& forall|i: int| 0 <= i < rows.len() ==> row_ok(#[trigger] rows[i], base)
    &&& forall|i: int|
        0 <= i <= power_len ==> (#[trigger] rows[i]).digits_in_base == e[power_len - i]
}

/// Halving `p` (rounding up) `m` times is dividing by 2^m rounding up.
pub proof fn lemma_halvings_ceil(p: nat, m: nat)
    requires
        p >= 1,
    ensures
        halvings(p, m) >= 1,
        (halvings(p, m) - 1) * pow2(m) < p,
        p <= halvings(p, m) * pow2(m),
    decreases m,
{
    if m == 0 {
        lemma2_to64();
    } else {
        lemma_halvings_ceil(p, (m - 1) as nat);
        let h = halvings(p, (m - 1) as nat);
        let q = pow2((m - 1) as nat);
        lemma_pow2_unfold(m);
        let h2 = ceil_half(h);
        assert(halvings(p, m) == h2);
        if h % 2 == 0 {
            assert(h2 * 2 == h);
            assert((h2 - 1) * (2 * q) == (h - 2) * q) by (nonlinear_arith)
                requires
                    h2 * 2 == h,
            ;
            assert(h2 * (2 * q) == h * q) by (nonlinear_arith)
                requires
                    h2 * 2 == h,
            ;
            assert((h - 2) * q <= (h - 1) * q) by (nonlinear_arith)
                requires
                    h >= 2,
            ;
        } else {
            assert(h2 * 2 == h + 1);
            assert((h2 - 1) * (2 * q) == (h - 1) * q) by (nonlinear_arith)
                requires
                    h2 * 2 == h + 1,
            ;
            assert(h2 * (2 * q) == (h + 1) * q) by (nonlinear_arith)
                requires
                    h2 * 2 == h + 1,
            ;
            lemma_pow2_pos((m - 1) as nat);
            assert(h * q <= (h + 1) * q) by (nonlinear_arith)
                requires
                    q > 0,
            ;
        }
    }
}

/// A level whose quotient `f` is `p / 2^m` rounded down needs the exponent `f` or `f + 1`
/// (in units of digits per limb), and `f` exactly when the division is exact.
proof fn lemma_level_target(p: nat, m: nat, f: nat)
    requires
        p >= 1,
        f * pow2(m) <= p < (f + 1) * pow2(m),
    ensures
        halvings(p, m) == f || halvings(p, m) == f + 1,
        halvings(p, m) == f <==> f * pow2(m) == p,
{
    lemma_halvings_ceil(p, m);
    lemma_pow2_pos(m);
    let h = halvings(p, m);
    let q = pow2(m);
    assert(h <= f + 1) by {
        if h > f + 1 {
            assert((h - 1) * q >= (f + 1) * q) by (nonlinear_arith)
                requires
                    h - 1 >= f + 1,
                    q > 0,
            ;
        }
    }
    assert(h >= f) by {
        if h < f {
            assert(h * q <= (f - 1) * q) by (nonlinear_arith)
                requires
                    h <= f - 1,
                    q > 0,
            ;
            assert((f - 1) * q < f * q) by (nonlinear_arith)
                requires
                    q > 0,
                    f >= 1,
            ;
        }
    }
    if f * q == p {
        if h == f + 1 {
            assert((h - 1) * q == f * q);
        }
    } else {
        if h == f {
            assert(h * q == f * q);
        }
    }
}

/// One more halving of `x` is the same as halving `ceil(x / 2)` one time fewer.
pub proof fn lemma_halvings_shift(x: nat, k: nat)
    ensures
        halvings(x, k + 1) == halvings(ceil_half(x), k),
    decreases k,
{
    if k > 0 {
        lemma_halvings_shift(x, (k - 1) as nat);
        assert(halvings(x, k + 1) == ceil_half(halvings(x, k)));
        assert(halvings(ceil_half(x), k) == ceil_half(halvings(ceil_half(x), (k - 1) as nat)));
    } else {
        assert(halvings(x, 1) == ceil_half(halvings(x, 0)));
        assert(halvings(ceil_half(x), 0) == ceil_half(x));
    }
}

/// Limbs below 2^32 raised to `n` stay below 2^(32 n).
proof fn lemma_npow_below_lpow(b: nat, n: nat)
    requires
        b < radix(),
        n >= 1,
    ensures
        npow(b, n) < lpow(n),
    decreases n,
{
    lemma_npow_radix(n);
    if n == 1 {
        lemma_npow_one(b);
        lemma_npow_one(radix());
    } else {
        lemma_npow_below_lpow(b, (n - 1) as nat);
        lemma_npow_radix((n - 1) as nat);
        let x = npow(b, (n - 1) as nat);
        let y = lpow((n - 1) as nat);
        assert(b * x < radix() * y) by (nonlinear_arith)
            requires
                b < radix(),
                x < y,
        ;
    }
}

/// A normalized power of a limb-sized number `bb`, shifted by `s` limbs, has at most `f`
/// limbs in all.
pub proof fn lemma_limb_count_bound(v: Seq<u32>, s: nat, bb: nat, f: nat)
    requires
        v.len() > 0,
        v.last() != 0,
        bb < radix(),
        f >= 1,
        limbs_val(v) * lpow(s) == npow(bb, f),
    ensures
        s + v.len() <= f,
{
    lemma_val_normalized_lower(v);
    lemma_lpow_pos(s);
    lemma_lpow_add(s, (v.len() - 1) as nat);
    let a = lpow((v.len() - 1) as nat);
    let p = lpow(s);
    assert(p * a <= limbs_val(v) * p) by (nonlinear_arith)
        requires
            a <= limbs_val(v),
            p >= 0,
    ;
    lemma_npow_below_lpow(bb, f);
    if s + v.len() > f {
        lemma_lpow_mono(f, s + (v.len() - 1) as nat);
    }
}

/// A vector of `n` zero limbs.
pub(crate) fn zero_limbs(n: usize) -> (r: Vec<u32>)
    ensures
        r@.len() == n,
        forall|k: int| 0 <= k < n ==> r@[k] == 0,
{
    let mut v: Vec<u32> = Vec::new();
    let mut i: usize = 0;
    while i < n
        invariant
            i <= n,
            v@.len() == i,
            forall|k: int| 0 <= k < i ==> v@[k] == 0,
        decreases n - i,
    {
        v.push(0);
        i += 1;
    }
    v
}

/// The limbs of `v` above its low zero limbs, and how many low zero limbs there were.
pub(crate) fn strip_low_zero_limbs(v: &Vec<u32>) -> (r: (Vec<u32>, usize))
    requires
        limbs_val(v@) > 0,
        is_normalized(v@),
    ensures
        limbs_val(r.0@) * lpow(r.1 as nat) == limbs_val(v@),
        r.0@.len() > 0,
        r.0@[0] != 0,
        r.0@.last() != 0,
        r.1 + r.0@.len() == v@.len(),
{
    let n = v.len();
    let mut i: usize = 0;
    while i < n && v[i] == 0
        invariant
            i <= n,
            n == v@.len(),
            forall|k: int| 0 <= k < i ==> v@[k] == 0,
        decreases n - i,
    {
        i += 1;
    }
    if i == n {
        proof {
            lemma_val_zeros(v@);
            assert(false);
        }
    }
    let w = crate::sub_naive::limbs_copy_range(v.as_slice(), i, n);
    proof {
        lemma_val_split(v@, i as int);
        lemma_val_zeros(v@.subrange(0, i as int));
        let p = lpow(i as nat);
        let x = limbs_val(w@);
        assert(x * p == p * x) by (nonlinear_arith);
    }
    (w, i)
}

/// The square of the limbs of `v`, without high zero limbs.
pub(crate) fn square_limbs(v: &Vec<u32>) -> (r: Vec<u32>)
    requires
        v@.len() > 0,
        v@.len() <= usize::MAX / 4,
    ensures
        limbs_val(r@) == limbs_val(v@) * limbs_val(v@),
        is_normalized(r@),
        r@.len() <= 2 * v@.len(),
{
    let n = v.len();
    let mut out = zero_limbs(2 * n);
    limbs_square_to_out(out.as_mut_slice(), v.as_slice());
    proof {
        assert(out@.subrange(0, (2 * n) as int) =~= out@);
    }
    normalize_vec(&mut out);
    out
}

/// The limbs of `v` times `y`, without high zero limbs.
pub(crate) fn mul_limb_limbs(v: &Vec<u32>, y: u32) -> (r: Vec<u32>)
    ensures
        limbs_val(r@) == limbs_val(v@) * (y as nat),
        is_normalized(r@),
{
    let n = v.len();
    let mut out = zero_limbs(n);
    let carry = limbs_mul_limb_to_out(out.as_mut_slice(), v.as_slice(), y);
    let ghost o = out@;
    out.push(carry);
    proof {
        assert(o.subrange(0, n as int) =~= o);
        lemma_val_push(o, carry);
        assert(out@ =~= o.push(carry));
    }
    normalize_vec(&mut out);
    out
}

/// Squares the power `v * 2^(32 s) == bb^f` and strips low zero limbs: the result stands for
/// `bb^(2 f)`.
fn square_step(v: &Vec<u32>, s: usize, Ghost(bb): Ghost<nat>, Ghost(f): Ghost<nat>) -> (r: (Vec<u32>, usize))
    requires
        v@.len() > 0,
        v@.last() != 0,
        s + v@.len() <= f,
        f <= usize::MAX / 8,
        bb > 0,
        limbs_val(v@) * lpow(s as nat) == npow(bb, f),
    ensures
        r.0@.len() > 0,
        r.0@.last() != 0,
        r.0@[0] != 0,
        limbs_val(r.0@) * lpow(r.1 as nat) == npow(bb, 2 * f),
        r.1 + r.0@.len() <= 2 * f,
{
    let sq = square_limbs(v);
    proof {
        lemma_val_normalized_lower(v@);
        lemma_lpow_pos((v@.len() - 1) as nat);
        let x = limbs_val(v@);
        assert(x * x > 0) by (nonlinear_arith)
            requires
                x > 0,
        ;
    }
    let (w, t) = strip_low_zero_limbs(&sq);
    proof {
        crate::limbs::lemma_val_bound(v@);
        assert(sq@.len() <= 2 * v@.len()) by {
            // a normalized square of an n-limb number has at most 2n limbs
            let x = limbs_val(v@);
            let n = v@.len();
            crate::limbs::lemma_val_bound(v@);
            lemma_lpow_add(n, n);
            assert(x * x < lpow(n) * lpow(n)) by (nonlinear_arith)
                requires
                    x < lpow(n),
                    x >= 0,
            ;
            if sq@.len() > 2 * n {
                lemma_val_normalized_lower(sq@);
                lemma_lpow_mono(n + n, (sq@.len() - 1) as nat);
            }
        }
    }
    let ns = 2 * s + t;
    proof {
        let x = limbs_val(v@);
        let y = limbs_val(w@);
        let ps = lpow(s as nat);
        let pt = lpow(t as nat);
        lemma_lpow_add(s as nat, s as nat);
        lemma_lpow_add((2 * s) as nat, t as nat);
        lemma_npow_add(bb, f, f);
        assert(y * pt == x * x);
        assert(y * lpow(ns as nat) == (y * pt) * (ps * ps)) by (nonlinear_arith)
            requires
                lpow(ns as nat) == lpow((2 * s) as nat) * pt,
                lpow((2 * s) as nat) == ps * ps,
        ;
        assert((x * x) * (ps * ps) == (x * ps) * (x * ps)) by (nonlinear_arith);
        assert(f + f == 2 * f);
    }
    (w, ns)
}

/// Multiplies the power `v * 2^(32 s) == bb^f` by `bb` and strips low zero limbs: the result
/// stands for `bb^(f + 1)`.
fn mul_step(v: &Vec<u32>, s: usize, bb: u32, Ghost(f): Ghost<nat>) -> (r: (Vec<u32>, usize))
    requires
        f <= usize::MAX / 8,
        v@.len() > 0,
        v@.last() != 0,
        bb > 0,
        s + v@.len() <= f,
        limbs_val(v@) * lpow(s as nat) == npow(bb as nat, f),
    ensures
        r.0@.len() > 0,
        r.0@.last() != 0,
        r.0@[0] != 0,
        limbs_val(r.0@) * lpow(r.1 as nat) == npow(bb as nat, f + 1),
{
    let m = mul_limb_limbs(v, bb);
    proof {
        lemma_val_normalized_lower(v@);
        lemma_lpow_pos((v@.len() - 1) as nat);
        let x = limbs_val(v@);
        assert(x * (bb as nat) > 0) by (nonlinear_arith)
            requires
                x > 0,
                bb > 0,
        ;
    }
    let (w, t) = strip_low_zero_limbs(&m);
    proof {
        assert(t < m@.len());
        assert(m@.len() <= v@.len() + 1) by {
            let x = limbs_val(v@);
            let n = v@.len();
            crate::limbs::lemma_val_bound(v@);
            lemma_lpow_add(n, 1);
            assert(lpow(1) == radix()) by {
                assert(lpow(1) == radix() * lpow(0));
            }
            assert(x * (bb as nat) < lpow(n) * radix()) by (nonlinear_arith)
                requires
                    x < lpow(n),
                    bb < radix(),
                    x >= 0,
            ;
            if m@.len() > n + 1 {
                lemma_val_normalized_lower(m@);
                lemma_lpow_mono(n + 1, (m@.len() - 1) as nat);
            }
        }
    }
    let ns = s + t;
    proof {
        let x = limbs_val(v@);
        let y = limbs_val(w@);
        let ps = lpow(s as nat);
        let pt = lpow(t as nat);
        lemma_lpow_add(s as nat, t as nat);
        lemma_npow_add(bb as nat, f, 1);
        lemma_npow_one(bb as nat);
        assert(y * (pt * ps) == (x * (bb as nat)) * ps) by (nonlinear_arith)
            requires
                y * pt == x * (bb as nat),
        ;
        assert((x * (bb as nat)) * ps == (x * ps) * (bb as nat)) by (nonlinear_arith);
        assert(lpow(ns as nat) == ps * pt);
        assert(y * lpow(ns as nat) == y * (pt * ps)) by (nonlinear_arith)
            requires
                lpow(ns as nat) == ps * pt,
        ;
    }
    (w, ns)
}

/// Digit counts per limb are determined by the base.
pub proof fn lemma_dpl_unique(b: nat, k1: nat, k2: nat)
    requires
        b >= 2,
        npow(b, k1) <= 4294967295,
        npow(b, k1 + 1) > 4294967295,
        npow(b, k2) <= 4294967295,
        npow(b, k2 + 1) > 4294967295,
    ensures
        k1 == k2,
{
    if k1 < k2 {
        lemma_npow_mono(b, k1 + 1, k2);
    } else if k2 < k1 {
        lemma_npow_mono(b, k2 + 1, k1);
    }
}

/// Builds the power table for `base` and the exponent table `exponents[..=power_len]` by
/// squaring: each level squares the one below and, when the doubled exponent would fall
/// short of what the top of the table needs, multiplies by the big base once more; levels
/// that end up one big base short of their exponent get that factor afterwards. Low zero
/// limbs are stripped into the shifts. Level 1 is always the square of the big base, and it is
/// built even when `power_len` is zero.
#[verifier::spinoff_prover]
pub fn _limbs_compute_power_table_using_mul(
    base: u64,
    exponents: &[usize],
    power_len: usize,
) -> (rows: Vec<PowerTableRow>)
    requires
        2 < base < 256,
        is_exponent_table(exponents@, power_len as nat, base as nat),
    ensures
        table_ok(rows@, exponents@, power_len as nat, base as nat),
        rows@.len() == if power_len == 0 {
            2
        } else {
            power_len + 1
        },
        rows@[1].digits_in_base == 2 * exponents@[power_len as int],
{
    let (dpl, big_base) = chars_per_limb_and_big_base(base);
    let ghost e = exponents@;
    let ghost pl = power_len as nat;
    let ghost bb = big_base as nat;
    let ghost b = base as nat;
    proof {
        lemma_dpl_unique(b, dpl as nat, e[pl as int] as nat);
        lemma_npow_pos(b, dpl as nat);
    }
    let e0 = exponents[0];
    let ghost p: nat = (e0 / dpl) as nat;
    proof {
        assert(e[0] == halvings(p, 0) * dpl);
        assert(p * dpl == e0);
        assert(p >= 1) by {
            if p == 0 {
                assert(halvings(0, pl) == 0) by {
                    lemma_halvings_zero(pl);
                }
            }
        }
    }
    let mut rows: Vec<PowerTableRow> = Vec::new();
    // level 0: the big base itself
    let mut v0: Vec<u32> = Vec::new();
    v0.push(big_base);
    proof {
        crate::natural::lemma_small_val(big_base);
        assert(v0@ =~= seq![big_base]);
        lemma_npow_one(b);
        lemma_npow_mul(b, dpl as nat, 1);
        assert(dpl as nat * 1 == dpl as nat);
        lemma_npow_one(bb);
        assert(lpow(0) == 1);
        assert(big_base > 0);
    }
    let row0 = PowerTableRow { power: v0, shift: 0, digits_in_base: dpl };
    // level 1: the square of the big base
    let mut bbv: Vec<u32> = Vec::new();
    bbv.push(big_base);
    proof {
        assert(bbv@ =~= seq![big_base]);
        assert(limbs_val(bbv@) * lpow(0) == npow(bb, 1));
    }
    let (w1, s1) = square_step(&bbv, 0, Ghost(bb), Ghost(1));
    let row1 = PowerTableRow { power: w1, shift: s1, digits_in_base: 2 * dpl };
    proof {
        lemma_npow_mul(b, dpl as nat, 2);
        assert(dpl as nat * 2 == 2 * dpl as nat);
    }
    // the chain: value cv * B^cs == bb^f, with f == p / 2^(pl - lvl) rounded down
    let mut lvl: usize = 1;
    let mut cv: Vec<u32>;
    let mut cs: usize;
    let mut f: usize;
    // two_m == 2^(pl - lvl)
    let mut two_m: usize = 1;
    let mut j: usize = 1;
    proof {
        lemma2_to64();
    }
    while j < power_len
        invariant
            p >= 1,
            1 <= j,
            power_len >= 1 ==> j <= power_len,
            two_m as nat == pow2((j - 1) as nat),
            two_m as nat <= p,
            p * dpl == e0,
            e0 <= usize::MAX / 8,
            is_exponent_table(e, pl, b),
            e == exponents@,
            pl == power_len,
            p == e0 / dpl,
            e0 == e[0],
            dpl as nat == e[pl as int],
        decreases power_len - j,
    {
        proof {
            lemma_pow2_unfold(j as nat);
            lemma_halvings_ceil(p, (pl - 1) as nat);
            let h = halvings(p, (pl - 1) as nat);
            assert(halvings(p, pl) == ceil_half(h));
            assert(h == 2);
            assert(pow2(j as nat) <= pow2((pl - 1) as nat)) by {
                if j < pl - 1 {
                    vstd::arithmetic::power2::lemma_pow2_strictly_increases(j as nat, (pl - 1) as nat);
                }
            }
            let q = pow2((pl - 1) as nat);
            assert((h - 1) * q < p);
            assert(q < p) by (nonlinear_arith)
                requires
                    (h - 1) * q < p,
                    h == 2,
            ;
            assert(pow2(j as nat) == 2 * (two_m as nat));
            assert(2 * (two_m as nat) <= p) by (nonlinear_arith)
                requires
                    pow2(j as nat) == 2 * (two_m as nat),
                    pow2(j as nat) <= q,
                    q < p,
            ;
        }
        two_m = two_m * 2;
        j += 1;
    }
    proof {
        if power_len >= 1 {
            assert(j == power_len);
        }
    }
    if power_len == 0 {
        rows.push(row0);
        rows.push(row1);
        proof {
            assert(rows@[0].digits_in_base == e[0]);
        }
        return rows;
    }
    proof {
        lemma_halvings_ceil(p, pl);
        lemma_halvings_ceil(p, (pl - 1) as nat);
        lemma_pow2_unfold(pl);
        let h = halvings(p, (pl - 1) as nat);
        assert(halvings(p, pl) == ceil_half(h));
        assert(h == 2);
        assert(two_m as nat == pow2((pl - 1) as nat));
        let q = pow2((pl - 1) as nat);
        assert(pow2(pl) == 2 * q);
        assert((h - 1) * q < p);
        assert(q < p) by (nonlinear_arith)
            requires
                (h - 1) * q < p,
                h == 2,
        ;
        assert(p <= halvings(p, pl) * pow2(pl));
        assert(p <= 2 * q) by (nonlinear_arith)
            requires
                p <= halvings(p, pl) * pow2(pl),
                halvings(p, pl) == 1,
                pow2(pl) == 2 * q,
        ;
        assert(two_m < p && p <= 2 * two_m);
        assert(dpl * two_m * 2 <= usize::MAX) by (nonlinear_arith)
            requires
                two_m <= p,
                p * dpl == e0,
                e0 <= usize::MAX / 8,
        ;
    }
    let mut cv: Vec<u32>;
    let mut cs: usize;
    let mut f: usize;
    if e0 == dpl * two_m * 2 {
        cv = crate::sub_naive::limbs_copy_range(row1.power.as_slice(), 0, row1.power.len());
        cs = row1.shift;
        f = 2;
        proof {
            assert(p == 2 * two_m) by (nonlinear_arith)
                requires
                    e0 == dpl * two_m * 2,
                    p * dpl == e0,
                    dpl > 0,
            ;
            assert(2 * two_m <= p < 3 * two_m);
            assert(cv@ =~= row1.power@);
        }
    } else {
        cv = crate::sub_naive::limbs_copy_range(row0.power.as_slice(), 0, row0.power.len());
        cs = 0;
        f = 1;
        proof {
            assert(p != 2 * two_m) by {
                if p == 2 * two_m {
                    assert(e0 == dpl * two_m * 2) by (nonlinear_arith)
                        requires
                            p == 2 * two_m,
                            p * dpl == e0,
                    ;
                }
            }
            assert(cv@ =~= row0.power@);
            assert(1 * two_m <= p < 2 * two_m);
        }
    }
    rows.push(row0);
    rows.push(row1);
    let mut lvl: usize = 1;
    proof {
        assert(rows@[0].digits_in_base == e[pl as int]);
        assert(rows@[1].digits_in_base == 2 * dpl);
        assert(e[(pl - 1) as int] == halvings(p, (pl - 1) as nat) * dpl);
    }
    while lvl < power_len
        invariant
            1 <= lvl <= power_len,
            rows@.len() == lvl + 1,
            forall|i: int| 0 <= i < rows@.len() ==> row_ok(#[trigger] rows@[i], b),
            forall|i: int| 0 <= i <= lvl ==> (#[trigger] rows@[i]).digits_in_base == e[pl - i],
            rows@[1].digits_in_base == 2 * dpl,
            cv@.len() > 0,
            cv@.last() != 0,
            cv@[0] != 0,
            limbs_val(cv@) * lpow(cs as nat) == npow(bb, f as nat),
            cs + cv@.len() <= f,
            f >= 1,
            two_m as nat == pow2((pl - lvl) as nat),
            f * two_m <= p < (f + 1) * two_m,
            p * dpl == e0,
            p >= 1,
            e0 <= usize::MAX / 8,
            is_exponent_table(e, pl, b),
            e == exponents@,
            pl == power_len,
            pl >= 1,
            p == e0 / dpl,
            e0 == e[0],
            dpl as nat == e[pl as int],
            dpl >= 1,
            is_limb_power(b, dpl as nat, bb),
            bb == big_base,
            b == base,
            big_base > 0,
        decreases power_len - lvl,
    {
        proof {
            lemma_pow2_unfold((pl - lvl) as nat);
            lemma_pow2_pos((pl - lvl) as nat);
            assert(f <= p) by (nonlinear_arith)
                requires
                    f * two_m <= p,
                    two_m >= 1,
            ;
        }
        two_m = two_m / 2;
        let (sv, ss) = square_step(&cv, cs, Ghost(bb), Ghost(f as nat));
        let nf = 2 * f;
        proof {
            lemma_pow2_pos((pl - lvl - 1) as nat);
            assert(two_m <= p) by (nonlinear_arith)
                requires
                    f >= 1,
                    f * (2 * two_m) <= p,
            ;
            assert(2 * f <= p) by (nonlinear_arith)
                requires
                    two_m >= 1,
                    f * (2 * two_m) <= p,
            ;
            assert(p <= e0) by (nonlinear_arith)
                requires
                    p * dpl == e0,
                    dpl >= 1,
            ;
            assert((nf + 1) * dpl <= usize::MAX) by (nonlinear_arith)
                requires
                    f <= p,
                    nf == 2 * f,
                    p * dpl == e0,
                    e0 <= usize::MAX / 8,
            ;
            assert((nf + 1) * dpl * two_m <= usize::MAX) by (nonlinear_arith)
                requires
                    f * (2 * two_m) <= p,
                    two_m <= p,
                    nf == 2 * f,
                    p * dpl == e0,
                    e0 <= usize::MAX / 8,
            ;
        }
        if (nf + 1) * dpl * two_m <= e0 {
            let (mv, ms) = mul_step(&sv, ss, big_base, Ghost(nf as nat));
            proof {
                lemma_limb_count_bound(mv@, ms as nat, bb, (nf + 1) as nat);
                assert((nf + 1) * two_m <= p) by (nonlinear_arith)
                    requires
                        (nf + 1) * dpl * two_m <= e0,
                        p * dpl == e0,
                        dpl > 0,
                ;
                assert(p < (nf + 2) * two_m) by (nonlinear_arith)
                    requires
                        p < (f + 1) * (2 * two_m),
                        nf == 2 * f,
                ;
            }
            cv = mv;
            cs = ms;
            f = nf + 1;
        } else {
            proof {
                assert(p < (nf + 1) * two_m) by (nonlinear_arith)
                    requires
                        !((nf + 1) * dpl * two_m <= e0),
                        p * dpl == e0,
                        dpl > 0,
                ;
                assert(nf * two_m <= p) by (nonlinear_arith)
                    requires
                        f * (2 * two_m) <= p,
                        nf == 2 * f,
                ;
            }
            cv = sv;
            cs = ss;
            f = nf;
        }
        lvl += 1;
        let target = exponents[power_len - lvl];
        proof {
            let m = (pl - lvl) as nat;
            lemma_pow2_pos(m);
            assert(two_m as nat == pow2(m));
            assert(e[(pl - lvl) as int] == halvings(p, m) * dpl);
            lemma_level_target(p, m, f as nat);
            assert(f <= p) by (nonlinear_arith)
                requires
                    f * two_m <= p,
                    two_m >= 1,
            ;
            assert(p <= e0) by (nonlinear_arith)
                requires
                    p * dpl == e0,
                    dpl >= 1,
            ;
            assert(f * dpl <= e0) by (nonlinear_arith)
                requires
                    f * two_m <= p,
                    two_m >= 1,
                    p * dpl == e0,
            ;
        }
        if f * dpl < target {
            let (rv, rs) = mul_step(&cv, cs, big_base, Ghost(f as nat));
            proof {
                let h = halvings(p, (pl - lvl) as nat);
                assert(h == f + 1) by {
                    if h == f {
                        assert(target == f * dpl);
                    }
                }
                lemma_npow_mul(b, dpl as nat, (f + 1) as nat);
                assert((dpl * (f + 1)) as nat == ((f + 1) * dpl) as nat) by (nonlinear_arith);
            }
            rows.push(PowerTableRow { power: rv, shift: rs, digits_in_base: target });
        } else {
            let pv = crate::sub_naive::limbs_copy_range(cv.as_slice(), 0, cv.len());
            proof {
                assert(pv@ =~= cv@);
                let h = halvings(p, (pl - lvl) as nat);
                assert(h == f) by {
                    if h == f + 1 {
                        assert(target == (f + 1) * dpl);
                        assert((f + 1) * dpl > f * dpl) by (nonlinear_arith)
                            requires
                                dpl >= 1,
                        ;
                    }
                }
                lemma_npow_mul(b, dpl as nat, f as nat);
                assert((dpl * f) as nat == (f * dpl) as nat) by (nonlinear_arith);
            }
            rows.push(PowerTableRow { power: pv, shift: cs, digits_in_base: f * dpl });
        }
    }
    rows
}

/// An odd number that divides `2 y` divides `y`.
proof fn lemma_odd_divides_double(u: nat, y: nat)
    requires
        u % 2 == 1,
        (2 * y) % u == 0,
    ensures
        y % u == 0,
{
    vstd::arithmetic::div_mod::lemma_fundamental_div_mod((2 * y) as int, u as int);
    let q = (2 * y) / u;
    assert(2 * y == u * q);
    vstd::arithmetic::div_mod::lemma_fundamental_div_mod(q as int, 2);
    vstd::arithmetic::div_mod::lemma_fundamental_div_mod(u as int, 2);
    let qh = q / 2;
    let qr = q % 2;
    let uh = u / 2;
    assert(u * q == 2 * (uh * q + qh) + qr) by (nonlinear_arith)
        requires
            u == 2 * uh + 1,
            q == 2 * qh + qr,
    ;
    assert(qr == 0);
    assert(y == u * qh) by (nonlinear_arith)
        requires
            2 * y == u * q,
            q == 2 * qh,
    ;
    vstd::arithmetic::div_mod::lemma_mod_multiples_basic(qh as int, u as int);
    assert(qh * u == u * qh) by (nonlinear_arith);
}

/// An odd number that divides `y * 2^k` divides `y`.
proof fn lemma_odd_divides_shifted(u: nat, y: nat, k: nat)
    requires
        u % 2 == 1,
        (y * pow2(k)) % u == 0,
    ensures
        y % u == 0,
    decreases k,
{
    if k == 0 {
        lemma2_to64();
        assert(y * 1 == y);
    } else {
        lemma_pow2_unfold(k);
        let p = pow2((k - 1) as nat);
        assert(y * pow2(k) == (2 * y) * p) by (nonlinear_arith)
            requires
                pow2(k) == 2 * p,
        ;
        lemma_odd_divides_shifted(u, 2 * y, (k - 1) as nat);
        lemma_odd_divides_double(u, y);
    }
}

/// If 2^t divides `q * u` with `u` odd, it divides `q`.
proof fn lemma_pow2_divides_odd_product(q: nat, u: nat, t: nat)
    requires
        u % 2 == 1,
        (q * u) % pow2(t) == 0,
    ensures
        q % pow2(t) == 0,
    decreases t,
{
    if t == 0 {
        lemma2_to64();
        vstd::arithmetic::div_mod::lemma_small_mod(0, 1);
        vstd::arithmetic::div_mod::lemma_fundamental_div_mod(q as int, 1);
    } else {
        lemma_pow2_unfold(t);
        let p = pow2((t - 1) as nat);
        lemma_pow2_pos((t - 1) as nat);
        vstd::arithmetic::div_mod::lemma_fundamental_div_mod((q * u) as int, pow2(t) as int);
        let k = (q * u) / pow2(t);
        assert(q * u == 2 * (p * k)) by (nonlinear_arith)
            requires
                q * u == pow2(t) * k,
                pow2(t) == 2 * p,
        ;
        vstd::arithmetic::div_mod::lemma_fundamental_div_mod(q as int, 2);
        vstd::arithmetic::div_mod::lemma_fundamental_div_mod(u as int, 2);
        let qh = q / 2;
        let qr = q % 2;
        let uh = u / 2;
        assert(q * u == 2 * (qh * u + qr * uh) + qr) by (nonlinear_arith)
            requires
                u == 2 * uh + 1,
                q == 2 * qh + qr,
        ;
        assert(qr == 0);
        assert(qh * u == p * k) by (nonlinear_arith)
            requires
                q * u == 2 * (p * k),
                q == 2 * qh,
        ;
        vstd::arithmetic::div_mod::lemma_mod_multiples_basic(k as int, p as int);
        assert(k * p == p * k) by (nonlinear_arith);
        lemma_pow2_divides_odd_product(qh, u, (t - 1) as nat);
        vstd::arithmetic::div_mod::lemma_fundamental_div_mod(qh as int, p as int);
        let j = qh / p;
        assert(q == pow2(t) * j) by (nonlinear_arith)
            requires
                qh == p * j,
                q == 2 * qh,
                pow2(t) == 2 * p,
        ;
        vstd::arithmetic::div_mod::lemma_mod_multiples_basic(j as int, pow2(t) as int);
        assert(j * pow2(t) == pow2(t) * j) by (nonlinear_arith);
    }
}

/// Squaring a power `x * 2^(32 s) == b^d` of the base, with `d` at least `dpl` and `x`
/// divisible by the power of two `2^t` in the big base `b^dpl == 2^t * u` (`u` odd), gives a
/// multiple of the big base whose quotient is still divisible by `2^t`.
proof fn lemma_square_divisible(x: nat, s: nat, b: nat, d: nat, dpl: nat, bb: nat, t: nat, u: nat)
    requires
        b >= 2,
        d >= dpl,
        x * lpow(s) == npow(b, d),
        bb == npow(b, dpl),
        bb == pow2(t) * u,
        u % 2 == 1,
        x % pow2(t) == 0,
    ensures
        (x * x) % bb == 0,
        ((x * x) / bb) % pow2(t) == 0,
        ((x * x) / bb) * lpow(2 * s) == npow(b, (2 * d - dpl) as nat),
{
    lemma_pow2_pos(t);
    let pt = pow2(t);
    // x == pt * a
    vstd::arithmetic::div_mod::lemma_fundamental_div_mod(x as int, pt as int);
    let a = x / pt;
    assert(x == pt * a);
    // x^2 * B^(2s) == b^(2d) == bb * b^(2d - dpl)
    lemma_npow_add(b, d, d);
    lemma_npow_add(b, dpl, (2 * d - dpl) as nat);
    assert(d + d == dpl + (2 * d - dpl) as nat);
    let rest = npow(b, (2 * d - dpl) as nat);
    lemma_lpow_add(s, s);
    assert(s + s == 2 * s);
    let ls = lpow(s);
    let l2 = lpow(2 * s);
    assert((x * x) * l2 == bb * rest) by (nonlinear_arith)
        requires
            x * ls == npow(b, d),
            l2 == ls * ls,
            npow(b, d + d) == npow(b, d) * npow(b, d),
            npow(b, d + d) == bb * rest,
    ;
    // u divides x^2
    crate::limbs::lemma_lpow_pow2(2 * s);
    assert(((x * x) * l2) % u == 0) by {
        assert((x * x) * l2 == u * (pt * rest)) by (nonlinear_arith)
            requires
                (x * x) * l2 == bb * rest,
                bb == pt * u,
        ;
        vstd::arithmetic::div_mod::lemma_mod_multiples_basic((pt * rest) as int, u as int);
        assert((pt * rest) * u == u * (pt * rest)) by (nonlinear_arith);
    }
    lemma_odd_divides_shifted(u, x * x, 32 * (2 * s));
    vstd::arithmetic::div_mod::lemma_fundamental_div_mod((x * x) as int, u as int);
    let w = (x * x) / u;
    assert(x * x == u * w);
    // pt^2 divides u * w, so pt^2 divides w
    lemma_pow2_adds(t, t);
    assert(x * x == pow2(t + t) * (a * a)) by (nonlinear_arith)
        requires
            x == pt * a,
            pow2(t + t) == pt * pt,
    ;
    lemma_pow2_pos(t + t);
    assert((w * u) % pow2(t + t) == 0) by {
        vstd::arithmetic::div_mod::lemma_mod_multiples_basic((a * a) as int, pow2(t + t) as int);
        assert(w * u == (a * a) * pow2(t + t)) by (nonlinear_arith)
            requires
                x * x == u * w,
                x * x == pow2(t + t) * (a * a),
        ;
    }
    lemma_pow2_divides_odd_product(w, u, t + t);
    lemma_pow2_pos(t + t);
    vstd::arithmetic::div_mod::lemma_fundamental_div_mod(w as int, pow2(t + t) as int);
    let c = w / pow2(t + t);
    assert(x * x == bb * (pt * c)) by (nonlinear_arith)
        requires
            x * x == u * w,
            w == pow2(t + t) * c,
            pow2(t + t) == pt * pt,
            bb == pt * u,
    ;
    lemma_npow_pos(b, dpl);
    vstd::arithmetic::div_mod::lemma_mod_multiples_basic((pt * c) as int, bb as int);
    vstd::arithmetic::div_mod::lemma_div_multiples_vanish((pt * c) as int, bb as int);
    assert((pt * c) * bb == bb * (pt * c)) by (nonlinear_arith);
    assert((x * x) / bb == pt * c);
    vstd::arithmetic::div_mod::lemma_mod_multiples_basic(c as int, pt as int);
    assert(c * pt == pt * c) by (nonlinear_arith);
    assert((pt * c) * l2 == rest) by (nonlinear_arith)
        requires
            (x * x) * l2 == bb * rest,
            x * x == bb * (pt * c),
            bb > 0,
    ;
}

/// A limb sequence whose lowest limb is zero is the rest shifted by one limb, and divisibility
/// by a power of two below 2^32 passes to the rest when it holds of the next limb.
proof fn lemma_strip_one(v: Seq<u32>, t: nat)
    requires
        v.len() >= 2,
        v[0] == 0,
        t < 32,
        (v[1] as nat) % pow2(t) == 0,
    ensures
        limbs_val(v) == radix() * limbs_val(v.subrange(1, v.len() as int)),
        limbs_val(v.subrange(1, v.len() as int)) % pow2(t) == 0,
{
    crate::limbs::lemma_val_cons(v);
    let w = v.subrange(1, v.len() as int);
    crate::limbs::lemma_val_cons(w);
    assert(w[0] == v[1]);
    let rest = limbs_val(w.subrange(1, w.len() as int));
    lemma_pow2_pos(t);
    lemma2_to64();
    lemma_pow2_adds(t, (32 - t) as nat);
    let pt = pow2(t);
    let pu = pow2((32 - t) as nat);
    assert(radix() == pt * pu);
    vstd::arithmetic::div_mod::lemma_fundamental_div_mod(v[1] as int, pt as int);
    let k = (v[1] as nat) / pt;
    assert(limbs_val(w) == pt * (k + pu * rest)) by (nonlinear_arith)
        requires
            limbs_val(w) == v[1] as nat + radix() * rest,
            v[1] as nat == pt * k,
            radix() == pt * pu,
    ;
    vstd::arithmetic::div_mod::lemma_mod_multiples_basic((k + pu * rest) as int, pt as int);
    assert((k + pu * rest) * pt == pt * (k + pu * rest)) by (nonlinear_arith);
}

/// Builds the power table for `base` and the exponent table `exponents[..=power_len]` by
/// squaring: a level whose doubled exponent overshoots what it needs is divided exactly by
/// the big base. Low zero limbs are stripped into the shifts, keeping in the stored value
/// enough low bits for the next exact division; a row skips a low zero limb kept that way.
#[verifier::spinoff_prover]
pub fn _limbs_compute_power_table_using_div(
    base: u64,
    exponents: &[usize],
    power_len: usize,
) -> (rows: Vec<PowerTableRow>)
    requires
        2 < base < 256,
        is_exponent_table(exponents@, power_len as nat, base as nat),
    ensures
        table_ok(rows@, exponents@, power_len as nat, base as nat),
        rows@.len() == power_len + 1,
{
    let (dpl, big_base) = chars_per_limb_and_big_base(base);
    let ghost e = exponents@;
    let ghost pl = power_len as nat;
    let ghost bb = big_base as nat;
    let ghost b = base as nat;
    proof {
        lemma_dpl_unique(b, dpl as nat, e[pl as int] as nat);
        lemma_npow_pos(b, dpl as nat);
    }
    let e0 = exponents[0];
    let ghost p: nat = (e0 / dpl) as nat;
    proof {
        assert(e[0] == halvings(p, 0) * dpl);
        assert(p * dpl == e0);
        assert(p >= 1) by {
            if p == 0 {
                lemma_halvings_zero(pl);
            }
        }
    }
    let tz = crate::natural_ops::limb_trailing_zeros(big_base);
    let tzp = crate::natural_ops::limb_pow2(tz);
    let ghost t = tz as nat;
    let ghost u: nat = bb / pow2(t);
    proof {
        lemma_pow2_pos(t);
        vstd::arithmetic::div_mod::lemma_fundamental_div_mod(bb as int, pow2(t) as int);
        assert(bb == pow2(t) * u);
    }
    let mut rows: Vec<PowerTableRow> = Vec::new();
    let mut v0: Vec<u32> = Vec::new();
    v0.push(big_base);
    proof {
        crate::natural::lemma_small_val(big_base);
        assert(v0@ =~= seq![big_base]);
        assert(lpow(0) == 1);
    }
    let mut cv = crate::sub_naive::limbs_copy_range(v0.as_slice(), 0, 1);
    rows.push(PowerTableRow { power: v0, shift: 0, digits_in_base: dpl });
    let mut cs: usize = 0;
    let mut d: usize = dpl;
    let mut k: usize = power_len;
    proof {
        assert(cv@ =~= seq![big_base]);
        assert(rows@[0].digits_in_base == e[pl as int]);
        lemma_halvings_ceil(p, pl);
        assert(dpl <= e0) by (nonlinear_arith)
            requires
                p * dpl == e0,
                p >= 1,
        ;
    }
    while k > 0
        invariant
            k <= power_len,
            rows@.len() == power_len - k + 1,
            forall|i: int| 0 <= i < rows@.len() ==> row_ok(#[trigger] rows@[i], b),
            forall|i: int|
                0 <= i <= power_len - k ==> (#[trigger] rows@[i]).digits_in_base == e[pl - i],
            cv@.len() > 0,
            cv@.last() != 0,
            limbs_val(cv@) * lpow(cs as nat) == npow(b, d as nat),
            limbs_val(cv@) % pow2(t) == 0,
            d as nat == e[k as int],
            d >= dpl,
            d <= e0,
            p * dpl == e0,
            p >= 1,
            e0 <= usize::MAX / 8,
            is_exponent_table(e, pl, b),
            e == exponents@,
            pl == power_len,
            p == e0 / dpl,
            e0 == e[0],
            dpl as nat == e[pl as int],
            dpl >= 1,
            is_limb_power(b, dpl as nat, bb),
            bb == big_base,
            b == base,
            bb == pow2(t) * u,
            u % 2 == 1,
            t < 32,
            tzp as nat == pow2(t),
            tzp > 0,
            2 < base < 256,
            big_base > 0,
        decreases k,
    {
        let exp = exponents[k - 1];
        proof {
            lemma_limb_count_bound(cv@, cs as nat, b, d as nat);
            lemma_halvings_ceil(p, (k - 1) as nat);
            let hk = halvings(p, k as nat);
            let hk1 = halvings(p, (k - 1) as nat);
            assert(hk == ceil_half(hk1));
            assert(e[(k - 1) as int] == hk1 * dpl);
            assert(e[k as int] == hk * dpl);
            assert(hk1 == 2 * hk || hk1 + 1 == 2 * hk);
            assert(exp == 2 * d || exp + dpl == 2 * d) by (nonlinear_arith)
                requires
                    hk1 == 2 * hk || hk1 + 1 == 2 * hk,
                    exp == hk1 * dpl,
                    d == hk * dpl,
            ;
            lemma_pow2_pos((k - 1) as nat);
            assert(hk1 <= p) by (nonlinear_arith)
                requires
                    (hk1 - 1) * pow2((k - 1) as nat) < p,
                    pow2((k - 1) as nat) >= 1,
                    hk1 >= 1,
            ;
            lemma_pow2_pos((k - 1) as nat);
            assert(exp <= e0) by (nonlinear_arith)
                requires
                    hk1 <= p,
                    exp == hk1 * dpl,
                    p * dpl == e0,
            ;
        }
        let ghost x = limbs_val(cv@);
        let mut sq = square_limbs(&cv);
        let mut nd = 2 * d;
        proof {
            lemma_val_normalized_lower(cv@);
            lemma_lpow_pos((cv@.len() - 1) as nat);
            lemma_square_divisible(x, cs as nat, b, d as nat, dpl as nat, bb, t, u);
            lemma_npow_add(b, d as nat, d as nat);
            lemma_lpow_add(cs as nat, cs as nat);
            assert((x * x) * lpow((2 * cs) as nat) == npow(b, nd as nat)) by (nonlinear_arith)
                requires
                    x * lpow(cs as nat) == npow(b, d as nat),
                    lpow((2 * cs) as nat) == lpow(cs as nat) * lpow(cs as nat),
                    npow(b, nd as nat) == npow(b, d as nat) * npow(b, d as nat),
                    nd == d + d,
            ;
            vstd::arithmetic::div_mod::lemma_fundamental_div_mod(x as int, pow2(t) as int);
            let a = x / pow2(t);
            vstd::arithmetic::div_mod::lemma_mod_multiples_basic((a * x) as int, pow2(t) as int);
            assert((a * x) * pow2(t) == x * x) by (nonlinear_arith)
                requires
                    x == pow2(t) * a,
            ;
            assert(x * x > 0) by (nonlinear_arith)
                requires
                    x > 0,
            ;
        }
        if nd != exp {
            let ghost sq0 = sq@;
            crate::arith::limbs_div_exact_limb_in_place(sq.as_mut_slice(), big_base);
            proof {
                lemma_npow_pos(b, dpl as nat);
                assert(limbs_val(sq@) == (x * x) / bb) by (nonlinear_arith)
                    requires
                        limbs_val(sq@) * bb == x * x,
                        (x * x) % bb == 0,
                        bb > 0,
                {
                    vstd::arithmetic::div_mod::lemma_div_multiples_vanish(limbs_val(sq@) as int, bb as int);
                    assert(limbs_val(sq@) * bb == bb * limbs_val(sq@));
                }
                assert(limbs_val(sq@) > 0) by (nonlinear_arith)
                    requires
                        limbs_val(sq@) * bb == x * x,
                        x * x > 0,
                ;
            }
            normalize_vec(&mut sq);
            nd = nd - dpl;
        }
        proof {
            assert(sq@.len() <= 2 * cv@.len());
            assert(cs + cv@.len() <= d);
            assert(limbs_val(sq@) * lpow((2 * cs) as nat) == npow(b, nd as nat));
            assert(limbs_val(sq@) % pow2(t) == 0);
            assert(limbs_val(sq@) > 0);
            assert(nd == exp);
        }
        // strip low zero limbs while the next limb keeps the rest divisible by 2^t
        let n = sq.len();
        let mut adjust: usize = 0;
        proof {
            lemma_val_zero_iff(sq@);
            assert(sq@.subrange(0, n as int) =~= sq@);
            assert(lpow(0) == 1);
            assert(sq@.subrange(0, n as int) == sq@.subrange(0 as int, n as int));
        }
        while adjust + 1 < n && sq[adjust] == 0 && sq[adjust + 1] % tzp == 0
            invariant
                n == sq@.len(),
                adjust < n,
                n > 0,
                sq@.last() != 0,
                limbs_val(sq@.subrange(adjust as int, n as int)) * lpow(adjust as nat) == limbs_val(sq@),
                limbs_val(sq@.subrange(adjust as int, n as int)) % pow2(t) == 0,
                t < 32,
                tzp as nat == pow2(t),
                tzp > 0,
            decreases n - adjust,
        {
            let ghost w = sq@.subrange(adjust as int, n as int);
            proof {
                lemma_strip_one(w, t);
                assert(w.subrange(1, w.len() as int) =~= sq@.subrange(adjust + 1, n as int));
                crate::limbs::lemma_lpow_add(1, adjust as nat);
                assert(lpow(1) == radix()) by {
                    assert(lpow(1) == radix() * lpow(0));
                }
                let r = limbs_val(sq@.subrange(adjust + 1, n as int));
                assert(r * lpow((adjust + 1) as nat) == (radix() * r) * lpow(adjust as nat)) by (nonlinear_arith)
                    requires
                        lpow((1 + adjust) as nat) == lpow(1) * lpow(adjust as nat),
                        lpow(1) == radix(),
                ;
                assert((1 + adjust) as nat == (adjust + 1) as nat);
            }
            adjust += 1;
        }
        let nv = crate::sub_naive::limbs_copy_range(sq.as_slice(), adjust, n);
        let ncs = 2 * cs + adjust;
        proof {
            lemma_lpow_add((2 * cs) as nat, adjust as nat);
            let y = limbs_val(nv@);
            assert(y * lpow(ncs as nat) == npow(b, nd as nat)) by (nonlinear_arith)
                requires
                    y * lpow(adjust as nat) == limbs_val(sq@),
                    limbs_val(sq@) * lpow((2 * cs) as nat) == npow(b, nd as nat),
                    lpow(ncs as nat) == lpow((2 * cs) as nat) * lpow(adjust as nat),
            ;
            assert(nv@.last() == sq@.last());
        }
        // the row skips a low zero limb that was kept for divisibility
        let row = if nv[0] == 0 {
            let ghost w = nv@;
            proof {
                assert(adjust + 1 < n);
                assert(nv@[1] == sq@[adjust + 1]);
                assert(nv@[1] != 0) by {
                    if nv@[1] == 0 {
                        assert((0u32 as nat) % pow2(t) == 0) by {
                            vstd::arithmetic::div_mod::lemma_mod_multiples_basic(0, pow2(t) as int);
                        }
                    }
                }
                crate::limbs::lemma_val_cons(w);
                assert(lpow(1) == radix()) by {
                    assert(lpow(1) == radix() * lpow(0));
                }
                lemma_lpow_add(1, ncs as nat);
            }
            let rv = crate::sub_naive::limbs_copy_range(nv.as_slice(), 1, nv.len());
            proof {
                let r = limbs_val(rv@);
                assert(r * lpow((ncs + 1) as nat) == limbs_val(w) * lpow(ncs as nat)) by (nonlinear_arith)
                    requires
                        limbs_val(w) == 0 + radix() * r,
                        lpow((1 + ncs) as nat) == lpow(1) * lpow(ncs as nat),
                        lpow(1) == radix(),
                ;
                assert((1 + ncs) as nat == (ncs + 1) as nat);
            }
            PowerTableRow { power: rv, shift: ncs + 1, digits_in_base: nd }
        } else {
            let rv = crate::sub_naive::limbs_copy_range(nv.as_slice(), 0, nv.len());
            proof {
                assert(rv@ =~= nv@);
            }
            PowerTableRow { power: rv, shift: ncs, digits_in_base: nd }
        };
        rows.push(row);
        cv = nv;
        cs = ncs;
        d = nd;
        k -= 1;
    }
    rows
}

/// Halving `p` (rounding up) as many times as `power_count` says reaches exactly 1, and one
/// halving fewer is still at least 2.
pub proof fn lemma_count_halvings(p: nat)
    requires
        p >= 1,
    ensures
        halvings(p, power_count(p)) == 1,
        power_count(p) >= 1 ==> halvings(p, (power_count(p) - 1) as nat) >= 2,
    decreases p,
{
    if p > 1 {
        let cp = ceil_half(p);
        lemma_count_halvings(cp);
        let c = power_count(cp);
        assert(power_count(p) == 1 + c);
        lemma_halvings_shift(p, c);
        assert(c + 1 == 1 + c);
        if c >= 1 {
            lemma_halvings_shift(p, (c - 1) as nat);
            assert((c - 1) as nat + 1 == c);
        }
    }
}

/// Each level of a halving table is at most twice the next one.
pub proof fn lemma_halvings_double(x: nat, k: nat)
    ensures
        halvings(x, k) <= 2 * halvings(x, k + 1),
{
    assert(halvings(x, k + 1) == ceil_half(halvings(x, k)));
}

/// The exponent table that `_limbs_choose_power_table_algorithm` makes for `xs_len` limbs and
/// a base from 3 to 255 that is not a power of two is one that the table builders accept.
pub proof fn lemma_choose_gives_exponent_table(e: Seq<usize>, xs_len: nat, pl: nat, base: nat)
    requires
        xs_len >= 1,
        xs_len * 256 <= usize::MAX,
        2 < base < 256,
        pl < e.len(),
        pl == power_count(ceil_half(xs_len)),
        npow(base, e[pl as int] as nat) <= 4294967295,
        npow(base, (e[pl as int] + 1) as nat) > 4294967295,
        forall|k: int| 0 <= k < pl ==> #[trigger] e[k] == halvings(xs_len, (k + 1) as nat) * e[pl as int],
    ensures
        is_exponent_table(e, pl, base),
        forall|i: int|
            0 <= i <= pl ==> #[trigger] e[pl - i] == halvings(xs_len, (pl - i + 1) as nat) * e[pl as int],
{
    let dpl = e[pl as int] as nat;
    let p = ceil_half(xs_len);
    assert(dpl >= 1) by {
        if dpl == 0 {
            lemma_npow_one(base);
        }
    }
    assert(dpl < 32) by {
        crate::bases::lemma_npow_strict(base, dpl);
        crate::bases::lemma_npow2(dpl);
        lemma2_to64();
        if dpl >= 32 {
            if dpl > 32 {
                vstd::arithmetic::power2::lemma_pow2_strictly_increases(32, dpl);
            }
        }
    }
    lemma_count_halvings(p);
    assert(halvings(xs_len, 0) == xs_len);
    assert(halvings(xs_len, 1) == ceil_half(halvings(xs_len, 0)));
    assert(halvings(xs_len, 1) == p);
    assert(e[0] == p * dpl) by {
        if pl >= 1 {
            assert(e[0] == halvings(xs_len, (0 + 1) as nat) * e[pl as int]);
            assert((0 + 1) as nat == 1);
        } else {
            assert(power_count(p) == 0);
            assert(p <= 1) by {
                if p > 1 {
                    assert(power_count(p) == 1 + power_count(ceil_half(p)));
                }
            }
            assert(p == 1);
            assert(e[0] == e[pl as int]);
        }
    }
    vstd::arithmetic::div_mod::lemma_div_multiples_vanish(p as int, dpl as int);
    assert(p * dpl == dpl * p) by (nonlinear_arith);
    assert(e[0] / e[pl as int] == p);
    assert forall|k: int| 0 <= k <= pl implies #[trigger] e[k] == halvings(p, k as nat) * dpl by {
        lemma_halvings_shift(xs_len, k as nat);
        if k == pl {
            assert(e[k] == dpl);
            assert(halvings(p, pl) == 1);
            assert(halvings(p, k as nat) * dpl == 1 * dpl);
        } else {
            assert(e[k] == halvings(xs_len, (k + 1) as nat) * e[pl as int]);
            assert((k + 1) as nat == k as nat + 1);
            assert(halvings(xs_len, k as nat + 1) == halvings(ceil_half(xs_len), k as nat));
        }
    }
    assert forall|i: int| 0 <= i <= pl implies #[trigger] e[pl - i] == halvings(
        xs_len,
        (pl - i + 1) as nat,
    ) * dpl by {
        let k = pl - i;
        lemma_halvings_shift(xs_len, k as nat);
        if k == pl {
            assert(e[k] == dpl);
            assert(halvings(p, pl) == 1);
            assert(halvings(xs_len, (pl - i + 1) as nat) == halvings(xs_len, k as nat + 1));
        } else {
            assert(e[k] == halvings(xs_len, (k + 1) as nat) * dpl);
        }
    }
    assert(p * dpl <= usize::MAX / 8) by (nonlinear_arith)
        requires
            p == (xs_len + 1) / 2,
            dpl < 32,
            xs_len * 256 <= usize::MAX,
    ;
}

/// A vector of `n` zeros.
fn zero_usizes(n: usize) -> (r: Vec<usize>)
    ensures
        r@.len() == n,
{
    let mut v: Vec<usize> = Vec::new();
    let mut i: usize = 0;
    while i < n
        invariant
            i <= n,
            v@.len() == i,
        decreases n - i,
    {
        v.push(0);
        i += 1;
    }
    v
}

/// Builds the table of powers of `base` used to convert numbers of `xs_len` limbs, with the
/// algorithm that `forced_algorithm` names or, when it is `None`, the one the cost estimate
/// picks. Returns the index of the top level and the rows: row `i` stands for
/// `base^(h * dpl)`, where `dpl` is the number of digits per limb (the exponent of row 0) and
/// `h` is `xs_len` halved, rounding up, `power_len - i + 1` times.
pub fn _limbs_compute_power_table(
    xs_len: usize,
    base: u64,
    forced_algorithm: Option<PowerTableAlgorithm>,
) -> (r: (usize, Vec<PowerTableRow>))
    requires
        xs_len >= 1,
        (xs_len as nat) * 256 <= usize::MAX,
        2 < base < 256,
        !is_pow2_u64(base),
    ensures
        r.0 == power_count(ceil_half(xs_len as nat)),
        r.1@.len() == (if r.0 == 0 && (match forced_algorithm {
            Some(a) => a,
            None => crate::power_table::chosen_algorithm(xs_len as nat, r.0 as nat),
        }) == PowerTableAlgorithm::Mul {
            2
        } else {
            r.0 + 1
        }),
        forall|i: int| 0 <= i < r.1@.len() ==> row_ok(#[trigger] r.1@[i], base as nat),
        npow(base as nat, r.1@[0].digits_in_base as nat) <= 4294967295,
        npow(base as nat, (r.1@[0].digits_in_base + 1) as nat) > 4294967295,
        forall|i: int|
            0 <= i <= r.0 ==> (#[trigger] r.1@[i]).digits_in_base == halvings(
                xs_len as nat,
                (r.0 - i + 1) as nat,
            ) * r.1@[0].digits_in_base,
        r.1@.len() == r.0 + 2 ==> r.1@[r.0 + 1].digits_in_base == 2 * r.1@[0].digits_in_base,
{
    let mut exponents = zero_usizes(64);
    proof {
        crate::bases::lemma_npow2(64);
        lemma2_to64();
        vstd::arithmetic::power2::lemma2_to64_rest();
        crate::power_table::lemma_ceil_half_le(xs_len as nat);
        lemma_power_count_bound(ceil_half(xs_len as nat), 63);
        crate::bases::lemma_npow2(63);
    }
    let (power_len, auto_algorithm) = _limbs_choose_power_table_algorithm(
        exponents.as_mut_slice(),
        xs_len,
        base,
    );
    proof {
        assert(crate::bases::is_chars_per_limb(base, exponents@[power_len as int] as nat));
        lemma_choose_gives_exponent_table(exponents@, xs_len as nat, power_len as nat, base as nat);
    }
    let algorithm = match forced_algorithm {
        Some(a) => a,
        None => auto_algorithm,
    };
    let rows = match algorithm {
        PowerTableAlgorithm::Mul => _limbs_compute_power_table_using_mul(base, exponents.as_slice(), power_len),
        PowerTableAlgorithm::Div => _limbs_compute_power_table_using_div(base, exponents.as_slice(), power_len),
    };
    proof {
        let e = exponents@;
        let pl = power_len as nat;
        assert(rows@[0].digits_in_base == e[pl as int]);
        assert forall|i: int|
            0 <= i <= power_len implies (#[trigger] rows@[i]).digits_in_base == halvings(
                xs_len as nat,
                (power_len - i + 1) as nat,
            ) * rows@[0].digits_in_base by {
            assert(rows@[i].digits_in_base == e[pl - i]);
        }
    }
    (power_len, rows)
}

/// Halving zero keeps it zero.
proof fn lemma_halvings_zero(k: nat)
    ensures
        halvings(0, k) == 0,
    decreases k,
{
    if k > 0 {
        lemma_halvings_zero((k - 1) as nat);
    }
}

} // verus!
