//! Converting limbs into digits, most significant first, by divide and conquer over a table
//! of powers of the base.
use vstd::prelude::*;
use crate::bases::{is_pow2_u64, lemma_npow_add, lemma_npow_base_mono, lemma_npow_mono, lemma_npow_pos, npow};
use crate::digit_specs::{
    all_below, dval_desc, is_digits_desc, lemma_dval_desc_append, lemma_dval_desc_lower,
    lemma_dval_desc_zeros, u8_digits,
};
use crate::div::limbs_div_mod;
use crate::limbs::{
    is_normalized, lemma_lpow_add, lemma_lpow_mono, lemma_lpow_pos, lemma_val_bound,
    lemma_val_normalized_lower, lemma_val_split, limbs_val, lpow, radix,
};
use crate::natural_ops::limbs_order_normalized;
use crate::power_build::{_limbs_compute_power_table, lemma_halvings_double, row_ok, PowerTableRow};
use crate::power_table::{ceil_half, halvings};
use crate::to_digits::{_limbs_to_digits_small_base_basecase, normalize_vec, GET_STR_PRECOMPUTE_THRESHOLD};

verus! {

/// Operands shorter than this many limbs are converted directly by the divide-and-conquer
/// conversion.
pub const GET_STR_DC_THRESHOLD: usize = 15;

/// `n` zero bytes.
fn zero_bytes(n: usize) -> (r: Vec<u8>)
    ensures
        r@.len() == n,
        forall|k: int| 0 <= k < n ==> r@[k] == 0,
{
    let mut v: Vec<u8> = Vec::new();
    let mut i: usize = 0;
    while i < n
        invariant
            i <= n,
            v@.len() == i,
            forall|k: int| 0 <= k < i ==> v@[k] == 0,
        decreases n - i,
    {
        v.push(0);
        i += 1;
    }
    v
}

/// Overwrites `out[offset..offset + ys.len()]` with `ys`, leaving the rest alone.
fn copy_bytes_at(out: &mut [u8], offset: usize, ys: &[u8])
    requires
        offset + ys@.len() <= old(out)@.len(),
    ensures
        final(out)@.len() == old(out)@.len(),
        final(out)@.subrange(offset as int, offset + ys@.len()) == ys@,
        forall|k: int| 0 <= k < offset ==> final(out)@[k] == old(out)@[k],
        forall|k: int| offset + ys@.len() <= k < old(out)@.len() ==> final(out)@[k] == old(out)@[k],
{
    let n = ys.len();
    let m = out.len();
    let mut j: usize = 0;
    while j < n
        invariant
            j <= n,
            n == ys@.len(),
            m == out@.len(),
            offset + n <= out@.len(),
            out@.len() == old(out)@.len(),
            forall|k: int| 0 <= k < j ==> out@[offset + k] == ys@[k],
            forall|k: int| 0 <= k < offset ==> out@[k] == old(out)@[k],
            forall|k: int| offset + j <= k < old(out)@.len() ==> out@[k] == old(out)@[k],
        decreases n - j,
    {
        out[offset + j] = ys[j];
        j += 1;
    }
    proof {
        assert(out@.subrange(offset as int, offset + n) =~= ys@);
    }
}

/// The limbs `lo` followed by the limbs of `hi` padded to `width` limbs: `lo + 2^(32 lo.len()) hi`.
fn limbs_concat(lo: &[u32], hi: &Vec<u32>) -> (r: Vec<u32>)
    requires
        lo@.len() + hi@.len() <= usize::MAX,
    ensures
        limbs_val(r@) == limbs_val(lo@) + lpow(lo@.len()) * limbs_val(hi@),
        r@.len() == lo@.len() + hi@.len(),
{
    let mut r = crate::sub_naive::limbs_copy_range(lo, 0, lo.len());
    let n = hi.len();
    let mut j: usize = 0;
    while j < n
        invariant
            j <= n,
            n == hi@.len(),
            r@.len() == lo@.len() + j,
            r@.subrange(0, lo@.len() as int) == lo@,
            r@.subrange(lo@.len() as int, (lo@.len() + j) as int) == hi@.subrange(0, j as int),
        decreases n - j,
    {
        r.push(hi[j]);
        proof {
            assert(r@.subrange(0, lo@.len() as int) =~= lo@);
            assert(r@.subrange(lo@.len() as int, (lo@.len() + j + 1) as int) =~= hi@.subrange(0, j + 1));
        }
        j += 1;
    }
    proof {
        assert(hi@.subrange(0, n as int) =~= hi@);
        lemma_val_split(r@, lo@.len() as int);
    }
    r
}

/// Every digit of a concatenation is below `b` exactly when every digit of both parts is.
proof fn lemma_all_below_concat(a: Seq<nat>, c: Seq<nat>, b: nat)
    ensures
        all_below(a + c, b) <==> all_below(a, b) && all_below(c, b),
{
    if all_below(a + c, b) {
        assert forall|i: int| 0 <= i < a.len() implies #[trigger] a[i] < b by {
            assert((a + c)[i] == a[i]);
        }
        assert forall|i: int| 0 <= i < c.len() implies #[trigger] c[i] < b by {
            assert((a + c)[a.len() + i] == c[i]);
        }
    }
    if all_below(a, b) && all_below(c, b) {
        assert forall|i: int| 0 <= i < (a + c).len() implies #[trigger] (a + c)[i] < b by {
            if i < a.len() {
                assert((a + c)[i] == a[i]);
            } else {
                assert((a + c)[i] == c[i - a.len()]);
            }
        }
    }
}

/// The limbs `xs` without their high zero limbs.
fn normalized_prefix<'a>(xs: &'a [u32]) -> (r: &'a [u32])
    ensures
        r@ == xs@.subrange(0, r@.len() as int),
        r@.len() <= xs@.len(),
        is_normalized(r@),
        limbs_val(r@) == limbs_val(xs@),
{
    let mut n = xs.len();
    while n > 0 && xs[n - 1] == 0
        invariant
            n <= xs@.len(),
            forall|t: int| n <= t < xs@.len() ==> xs@[t] == 0,
        decreases n,
    {
        n -= 1;
    }
    proof {
        crate::limbs::lemma_val_high_zeros(xs@, n as int);
    }
    vstd::slice::slice_subrange(xs, 0, n)
}

/// Writes to `out` the digits in base `base`, most significant first, of the number whose
/// limbs are `xs`, padded with zeros at the front to `len` digits; when `len` is zero, as many
/// digits as the number needs. Returns the number of digits written. Splits the number at
/// the power in row `i` of the table `powers`, whose square must exceed the number, and
/// converts quotient and remainder separately, the remainder padded to the exponent of that
/// row.
#[verifier::spinoff_prover]
pub fn _limbs_to_digits_small_base_divide_and_conquer(
    out: &mut [u8],
    len: usize,
    xs: &[u32],
    base: u64,
    powers: &[PowerTableRow],
    i: usize,
) -> (r: usize)
    requires
        2 < base < 256,
        !is_pow2_u64(base),
        i < powers@.len(),
        forall|j: int| 0 <= j <= i ==> row_ok(#[trigger] powers@[j], base as nat),
        forall|j: int|
            1 <= j <= i ==> (#[trigger] powers@[j]).digits_in_base <= 2 * powers@[j - 1].digits_in_base,
        npow(base as nat, powers@[0].digits_in_base as nat) < radix(),
        limbs_val(xs@) < npow(base as nat, (2 * powers@[i as int].digits_in_base) as nat),
        old(out)@.len() >= len,
        limbs_val(xs@) < npow(base as nat, old(out)@.len()),
        len == 0 || limbs_val(xs@) < npow(base as nat, len as nat),
    ensures
        final(out)@.len() == old(out)@.len(),
        r <= final(out)@.len(),
        len > 0 ==> r == len,
        all_below(u8_digits(final(out)@.subrange(0, r as int)), base as nat),
        dval_desc(u8_digits(final(out)@.subrange(0, r as int)), base as nat) == limbs_val(xs@),
        len == 0 ==> r == 0 || final(out)@[0] != 0,
        final(out)@.subrange(r as int, final(out)@.len() as int) == old(out)@.subrange(
            r as int,
            old(out)@.len() as int,
        ),
    decreases i,
{
    let xs = normalized_prefix(xs);
    let ghost b = base as nat;
    let ghost x = limbs_val(xs@);
    let xs_len = xs.len();
    if xs_len < GET_STR_DC_THRESHOLD {
        if xs_len != 0 {
            return _limbs_to_digits_small_base_basecase(out, len, xs, base);
        } else {
            let mut k: usize = 0;
            while k < len
                invariant
                    k <= len,
                    len <= out@.len(),
                    out@.len() == old(out)@.len(),
                    forall|t: int| 0 <= t < k ==> out@[t] == 0,
                    forall|t: int| k <= t < out@.len() ==> out@[t] == old(out)@[t],
                decreases len - k,
            {
                out[k] = 0;
                k += 1;
            }
            proof {
                let z = u8_digits(out@.subrange(0, len as int));
                assert forall|t: int| 0 <= t < z.len() implies #[trigger] z[t] == 0 by {}
                lemma_dval_desc_zeros(z, b);
                assert(limbs_val(xs@) == 0) by {
                    assert(xs@ =~= Seq::<u32>::empty());
                }
                assert(out@.subrange(len as int, out@.len() as int) =~= old(out)@.subrange(
                    len as int,
                    old(out)@.len() as int,
                ));
            }
            return len;
        }
    }
    let ghost pv = limbs_val(powers@[i as int].power@);
    let ghost sh = powers@[i as int].shift as nat;
    let ghost di = powers@[i as int].digits_in_base as nat;
    let ghost pw = npow(b, di);
    proof {
        // the lowest row is a single limb, so a number below its square has at most 2 limbs
        if i == 0 {
            lemma_npow_add(b, di, di);
            assert(di + di == 2 * di);
            assert(x < radix() * radix()) by (nonlinear_arith)
                requires
                    x < pw * pw,
                    pw < radix(),
            ;
            lemma_val_normalized_lower(xs@);
            assert(lpow(2) == radix() * radix()) by {
                assert(lpow(1) == radix() * lpow(0));
                assert(lpow(2) == radix() * lpow(1));
            }
            if xs_len > 2 {
                lemma_lpow_mono(2, (xs_len - 1) as nat);
            }
        }
    }
    proof {
        assert(di >= 1) by {
            if di == 0 {
                assert(npow(b, 0) == 1);
                assert(x == 0) by {
                    assert(x < npow(b, (2 * powers@[i as int].digits_in_base) as nat));
                    assert((2 * powers@[i as int].digits_in_base) as nat == 0);
                }
                crate::limbs::lemma_val_zero_iff(xs@);
                lemma_val_normalized_lower(xs@);
                lemma_lpow_pos((xs_len - 1) as nat);
            }
        }
        crate::power_build::lemma_limb_count_bound(powers@[i as int].power@, sh, b, di);
    }
    let power = &powers[i];
    let plen = power.power.len();
    let shift = power.shift;
    let di_exec = power.digits_in_base;
    proof {
        lemma_val_bound(xs@);
        lemma_val_normalized_lower(xs@);
        lemma_val_normalized_lower(powers@[i as int].power@);
        lemma_val_bound(powers@[i as int].power@);
        lemma_lpow_pos(sh);
        lemma_lpow_add((plen - 1) as nat, sh);
        lemma_lpow_add(plen as nat, sh);
        assert(pv * lpow(sh) == pw);
        assert(lpow(((plen - 1) + sh) as nat) <= pw) by (nonlinear_arith)
            requires
                lpow(((plen - 1) + sh) as nat) == lpow((plen - 1) as nat) * lpow(sh),
                lpow((plen - 1) as nat) <= pv,
                pv * lpow(sh) == pw,
        ;
        assert(pw < lpow((plen + sh) as nat)) by (nonlinear_arith)
            requires
                lpow((plen + sh) as nat) == lpow(plen as nat) * lpow(sh),
                pv < lpow(plen as nat),
                pv * lpow(sh) == pw,
                lpow(sh) > 0,
        ;
    }
    let total_len = plen + shift;
    let below = if xs_len < total_len {
        proof {
            lemma_lpow_mono(xs_len as nat, ((plen - 1) + sh) as nat);
        }
        true
    } else if xs_len == total_len {
        let hi = vstd::slice::slice_subrange(xs, shift, xs_len);
        let c = limbs_order_normalized(hi, power.power.as_slice());
        proof {
            lemma_val_split(xs@, shift as int);
            lemma_val_bound(xs@.subrange(0, shift as int));
            let h = limbs_val(hi@);
            let l = limbs_val(xs@.subrange(0, shift as int));
            assert(hi@ =~= xs@.subrange(shift as int, xs_len as int));
            if c == -1 {
                assert(x < pw) by (nonlinear_arith)
                    requires
                        x == l + lpow(sh) * h,
                        l < lpow(sh),
                        h + 1 <= pv,
                        pv * lpow(sh) == pw,
                ;
            } else {
                assert(x >= pw) by (nonlinear_arith)
                    requires
                        x == l + lpow(sh) * h,
                        l >= 0,
                        h >= pv,
                        pv * lpow(sh) == pw,
                ;
            }
        }
        c == -1
    } else {
        proof {
            lemma_lpow_mono((plen + sh) as nat, (xs_len - 1) as nat);
        }
        false
    };
    if below {
        proof {
            assert(x < pw);
            if i == 0 {
                assert(false);
            }
            assert(di <= 2 * powers@[i - 1].digits_in_base);
            lemma_npow_mono(b, di, 2 * powers@[i - 1].digits_in_base as nat);
        }
        return _limbs_to_digits_small_base_divide_and_conquer(out, len, xs, base, powers, i - 1);
    }
    proof {
        assert(x >= pw);
        assert(i > 0);
    }
    let hi = vstd::slice::slice_subrange(xs, shift, xs_len);
    let (q, r) = limbs_div_mod(hi, power.power.as_slice());
    let lo = vstd::slice::slice_subrange(xs, 0, shift);
    proof {
        crate::from_digits::lemma_normalized_len_bound(r@, plen as nat);
    }
    let mut rem = limbs_concat(lo, &r);
    normalize_vec(&mut rem);
    let ghost qv = limbs_val(q@);
    let ghost rv = limbs_val(rem@);
    let ghost di1 = powers@[i - 1].digits_in_base as nat;
    proof {
        assert(hi@ =~= xs@.subrange(shift as int, xs_len as int));
        assert(lo@ =~= xs@.subrange(0, shift as int));
        lemma_val_split(xs@, shift as int);
        lemma_val_bound(lo@);
        let h = limbs_val(hi@);
        let l = limbs_val(lo@);
        let ls = lpow(sh);
        assert(rv == l + ls * limbs_val(r@));
        assert(x == qv * pw + rv) by (nonlinear_arith)
            requires
                x == l + ls * h,
                h == qv * pv + limbs_val(r@),
                rv == l + ls * limbs_val(r@),
                pv * ls == pw,
        ;
        assert(rv < pw) by (nonlinear_arith)
            requires
                rv == l + ls * limbs_val(r@),
                l < ls,
                limbs_val(r@) + 1 <= pv,
                pv * ls == pw,
        ;
        lemma_npow_pos(b, di);
        assert(qv >= 1) by (nonlinear_arith)
            requires
                x == qv * pw + rv,
                rv < pw,
                x >= pw,
        ;
        // the quotient is below the power too
        lemma_npow_add(b, di, di);
        assert(di + di == 2 * di);
        assert(qv < pw) by (nonlinear_arith)
            requires
                x == qv * pw + rv,
                x < pw * pw,
                rv >= 0,
                pw > 0,
        ;
        assert(di <= 2 * di1);
        lemma_npow_mono(b, di, 2 * di1);
        assert(qv <= x) by (nonlinear_arith)
            requires
                x == qv * pw + rv,
                pw >= 1,
                rv >= 0,
        ;
        // the number needs more than `di` digits
        assert(len == 0 || di < len) by {
            if len > 0 && di >= len {
                lemma_npow_mono(b, len as nat, di);
            }
        }
        assert(di < out@.len()) by {
            if di >= out@.len() {
                lemma_npow_mono(b, out@.len() as nat, di);
            }
        }
    }
    let len_q: usize = if len != 0 { len - di_exec } else { 0 };
    proof {
        if len != 0 {
            lemma_npow_add(b, len_q as nat, di);
            assert(len_q as nat + di == len);
            assert(qv < npow(b, len_q as nat)) by (nonlinear_arith)
                requires
                    x == qv * pw + rv,
                    x < npow(b, len_q as nat) * pw,
                    rv >= 0,
                    pw > 0,
            ;
        }
    }
    let mut t1 = zero_bytes(out.len());
    let n1 = _limbs_to_digits_small_base_divide_and_conquer(&mut t1, len_q, &q, base, powers, i - 1);
    let mut t2 = zero_bytes(di_exec);
    let n2 = _limbs_to_digits_small_base_divide_and_conquer(&mut t2, di_exec, &rem, base, powers, i - 1);
    proof {
        let a = u8_digits(t1@.subrange(0, n1 as int));
        assert(n1 >= 1) by {
            if n1 == 0 {
                assert(a =~= Seq::<nat>::empty());
            }
        }
        if len == 0 {
            // the leading digit of the quotient is not zero, which bounds its digit count
            assert(a[0] == t1@[0] as nat);
            lemma_dval_desc_lower(a, b);
            lemma_npow_add(b, (n1 - 1) as nat, di);
            assert(npow(b, (n1 - 1) as nat) * pw <= x) by (nonlinear_arith)
                requires
                    npow(b, (n1 - 1) as nat) <= qv,
                    x == qv * pw + rv,
                    rv >= 0,
                    pw >= 0,
            ;
            if n1 + di > out@.len() {
                lemma_npow_mono(b, out@.len() as nat, ((n1 - 1) as nat + di) as nat);
            }
        }
    }
    let ghost out0 = out@;
    let t1p = crate::sub_naive::limbs_copy_range_u8(t1.as_slice(), 0, n1);
    copy_bytes_at(out, 0, t1p.as_slice());
    copy_bytes_at(out, n1, t2.as_slice());
    proof {
        let total = n1 + di;
        let s = out@.subrange(0, total as int);
        assert(s.subrange(0, n1 as int) =~= t1@.subrange(0, n1 as int));
        assert(s.subrange(n1 as int, total as int) =~= t2@.subrange(0, n2 as int));
        assert(s =~= t1@.subrange(0, n1 as int) + t2@.subrange(0, n2 as int));
        let a = u8_digits(t1@.subrange(0, n1 as int));
        let c = u8_digits(t2@.subrange(0, n2 as int));
        assert(u8_digits(s) =~= a + c);
        lemma_all_below_concat(a, c, b);
        lemma_dval_desc_append(a, c, b);
        assert(c.len() == di);
        assert(dval_desc(u8_digits(s), b) == qv * pw + rv);
        assert(out@.subrange(total as int, out@.len() as int) =~= out0.subrange(
            total as int,
            out0.len() as int,
        ));
        if len == 0 {
            assert(out@[0] == t1@[0]);
        }
    }
    n1 + di_exec
}

/// Writes to `out` the digits in base `base`, most significant first, of the number whose
/// limbs are `xs`, as many as it needs; returns their number. Quadratic for fewer than
/// `GET_STR_PRECOMPUTE_THRESHOLD` limbs; else divide and conquer over a table of powers whose
/// top power squared exceeds the number, built with the algorithm `forced_algorithm` names
/// or, when it is `None`, the one the cost estimate picks.
pub fn _limbs_to_digits_small_base(
    out: &mut [u8],
    base: u64,
    xs: &[u32],
    forced_algorithm: Option<crate::power_table::PowerTableAlgorithm>,
) -> (r: usize)
    requires
        2 < base < 256,
        !is_pow2_u64(base),
        is_normalized(xs@),
        xs@.len() * 512 <= usize::MAX,
        limbs_val(xs@) < npow(base as nat, old(out)@.len()),
    ensures
        final(out)@.len() == old(out)@.len(),
        r <= final(out)@.len(),
        all_below(u8_digits(final(out)@.subrange(0, r as int)), base as nat),
        dval_desc(u8_digits(final(out)@.subrange(0, r as int)), base as nat) == limbs_val(xs@),
        r == 0 || final(out)@[0] != 0,
{
    let xs_len = xs.len();
    if xs_len == 0 {
        proof {
            assert(out@.subrange(0, 0) =~= Seq::<u8>::empty());
            assert(u8_digits(out@.subrange(0, 0)) =~= Seq::<nat>::empty());
            assert(xs@ =~= Seq::<u32>::empty());
        }
        0
    } else if xs_len < GET_STR_PRECOMPUTE_THRESHOLD {
        _limbs_to_digits_small_base_basecase(out, 0, xs, base)
    } else {
        // Enough levels that the square of the top power exceeds 2^(32 xs_len): the big base
        // has `bits` significant bits, so each factor of it is worth at least `bits - 1` bits.
        let (dpl, big_base) = crate::bases::chars_per_limb_and_big_base(base);
        let bits = crate::natural::limb_significant_bits(big_base);
        proof {
            assert(bits >= 2) by {
                if bits < 2 {
                    vstd::arithmetic::power2::lemma2_to64();
                    assert(big_base < 2);
                    crate::bases::lemma_npow_one(base as nat);
                    if dpl >= 1 {
                        lemma_npow_mono(base as nat, 1, dpl as nat);
                    } else {
                        crate::bases::lemma_npow_one(base as nat);
                        assert(npow(base as nat, 1) > 4294967295);
                    }
                }
            }
        }
        proof {
            assert(bits >= 25) by {
                if bits <= 24 {
                    vstd::arithmetic::power2::lemma2_to64();
                    if bits < 24 {
                        vstd::arithmetic::power2::lemma_pow2_strictly_increases(bits as nat, 24);
                    }
                    assert(big_base < 16777216);
                    assert(npow(base as nat, (dpl + 1) as nat) == base * npow(base as nat, dpl as nat));
                    assert((base as nat) * (big_base as nat) <= 255 * 16777215) by (nonlinear_arith)
                        requires
                            base <= 255,
                            big_base <= 16777215,
                    ;
                }
            }
        }
        let len = (32 * xs_len) / ((bits - 1) as usize) + 1;
        proof {
            vstd::arithmetic::div_mod::lemma_div_is_ordered_by_denominator((32 * xs_len) as int, 24, (bits - 1) as int);
            assert((32 * xs_len) / 24 <= 2 * xs_len - 1);
        }
        let (power_len, powers) = _limbs_compute_power_table(len, base, forced_algorithm);
        proof {
            let b = base as nat;
            let d0 = powers@[0].digits_in_base as nat;
            crate::power_build::lemma_dpl_unique(b, d0, dpl as nat);
            let top = powers@[power_len as int].digits_in_base as nat;
            assert(halvings(len as nat, 0) == len);
            assert(halvings(len as nat, 1) == ceil_half(halvings(len as nat, 0)));
            assert(top == ceil_half(len as nat) * d0);
            // big_base^len >= 2^((bits - 1) len) >= 2^(32 xs_len) > x
            let bb = big_base as nat;
            let e = (bits - 1) as nat;
            let w = (32 * xs_len) as int;
            vstd::arithmetic::div_mod::lemma_fundamental_div_mod(w, e as int);
            assert(w <= e * len) by (nonlinear_arith)
                requires
                    w == e * (w / (e as int)) + w % (e as int),
                    w % (e as int) < e,
                    len == w / (e as int) + 1,
            ;
            lemma_pow2_npow(e, len as nat);
            crate::bases::lemma_npow2(e);
            lemma_npow_base_mono(vstd::arithmetic::power2::pow2(e), bb, len as nat);
            crate::limbs::lemma_lpow_pow2(xs_len as nat);
            vstd::arithmetic::power2::lemma_pow2_pos(e * (len as nat));
            if 32 * (xs_len as nat) < e * (len as nat) {
                vstd::arithmetic::power2::lemma_pow2_strictly_increases(32 * (xs_len as nat), e * (len as nat));
            }
            lemma_val_bound(xs@);
            crate::bases::lemma_npow_mul(b, d0, len as nat);
            assert(2 * top >= d0 * len) by (nonlinear_arith)
                requires
                    top == ((len + 1) / 2) * d0,
            ;
            lemma_npow_mono(b, d0 * (len as nat), 2 * top);
            assert forall|j: int|
                1 <= j <= power_len implies (#[trigger] powers@[j]).digits_in_base <= 2
                * powers@[j - 1].digits_in_base by {
                lemma_halvings_double(len as nat, (power_len - j + 1) as nat);
                assert((power_len - (j - 1) + 1) as nat == (power_len - j + 1) as nat + 1);
                let h1 = halvings(len as nat, (power_len - j + 1) as nat);
                let h0 = halvings(len as nat, (power_len - (j - 1) + 1) as nat);
                assert(h1 * d0 <= 2 * (h0 * d0)) by (nonlinear_arith)
                    requires
                        h1 <= 2 * h0,
                ;
            }
        }
        _limbs_to_digits_small_base_divide_and_conquer(out, 0, xs, base, powers.as_slice(), power_len)
    }
}

/// The digits in base `base` of the number whose limbs are `xs`, most significant first,
/// without leading zeros: directly for short operands, else by divide and conquer.
pub fn limbs_to_digits_desc(xs: &[u32], base: u64) -> (r: Vec<u8>)
    requires
        2 < base < 256,
        !is_pow2_u64(base),
        xs@.len() * 512 <= usize::MAX,
    ensures
        is_digits_desc(u8_digits(r@), base as nat, limbs_val(xs@)),
{
    let mut v = crate::sub_naive::limbs_copy_range(xs, 0, xs.len());
    proof {
        assert(v@ =~= xs@);
    }
    normalize_vec(&mut v);
    let (dpl, big_base) = crate::bases::chars_per_limb_and_big_base(base);
    proof {
        assert((dpl + 1) * v@.len() <= usize::MAX) by (nonlinear_arith)
            requires
                dpl <= 32,
                v@.len() <= xs@.len(),
                xs@.len() * 512 <= usize::MAX,
        ;
    }
    let cap = (dpl + 1) * v.len();
    let mut out = zero_bytes(cap);
    proof {
        let b = base as nat;
        let n = v@.len();
        crate::bases::lemma_npow_mul(b, (dpl + 1) as nat, n);
        lemma_npow_base_mono(radix(), npow(b, (dpl + 1) as nat), n);
        crate::natural_digits::lemma_npow_radix(n);
        lemma_val_bound(v@);
        assert(((dpl + 1) * n) as nat == ((dpl + 1) as nat) * n);
    }
    let n = _limbs_to_digits_small_base(&mut out, base, v.as_slice(), None);
    let r = crate::sub_naive::limbs_copy_range_u8(out.as_slice(), 0, n);
    proof {
        if r@.len() > 0 {
            assert(u8_digits(r@)[0] == r@[0] as nat);
        }
    }
    r
}

/// 2^e raised to `k` is 2^(e k).
proof fn lemma_pow2_npow(e: nat, k: nat)
    ensures
        npow(vstd::arithmetic::power2::pow2(e), k) == vstd::arithmetic::power2::pow2(e * k),
    decreases k,
{
    if k == 0 {
        vstd::arithmetic::power2::lemma2_to64();
        assert(e * 0 == 0);
    } else {
        lemma_pow2_npow(e, (k - 1) as nat);
        vstd::arithmetic::power2::lemma_pow2_adds(e, e * (k - 1) as nat);
        assert(e + e * (k - 1) as nat == e * k) by (nonlinear_arith)
            requires
                k >= 1,
        ;
    }
}

} // verus!
