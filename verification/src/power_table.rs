//! Tables of powers of a base's "big base" (the largest power of the base that fits in a
//! limb), used by divide-and-conquer digit conversion, and the choice between the two ways of
//! computing them.
use vstd::prelude::*;
use crate::bases::{get_chars_per_limb, is_chars_per_limb, lemma_npow_pos, npow};

verus! {

/// The two ways of building a power table: by squaring and multiplying, or by squaring and
/// dividing exactly.
#[derive(Clone, Copy, Debug, PartialEq, Eq, Hash, Structural)]
pub enum PowerTableAlgorithm {
    Mul,
    Div,
}

/// `x / 2`, rounded up.
pub open spec fn ceil_half(x: nat) -> nat {
    (x + 1) / 2
}

/// `x` halved (rounding up) `j` times.
pub open spec fn halvings(x: nat, j: nat) -> nat
    decreases j,
{
    if j == 0 {
        x
    } else {
        ceil_half(halvings(x, (j - 1) as nat))
    }
}

/// How many times `p` must be halved, rounding up, to reach 1.
pub open spec fn power_count(p: nat) -> nat
    decreases p,
{
    if p <= 1 {
        0
    } else {
        1 + power_count(ceil_half(p))
    }
}

/// The quotient `power / 2^i`, plus one: the length, in limbs, that level `i` of the table
/// stands for.
pub open spec fn level_len(power: nat, i: nat) -> nat {
    power / npow(2, i) + 1
}

/// What level `i` adds to the cost of building the table by multiplication.
pub open spec fn mul_cost_term(power: nat, n: nat, i: nat) -> nat {
    let p = level_len(power, i);
    if n != p * npow(2, (i - 1) as nat) {
        if p > 2 && p % 2 == 0 {
            2 * p
        } else {
            p
        }
    } else if p % 2 == 1 {
        p
    } else {
        0
    }
}

/// What level `i` adds to the cost of building the table by division.
pub open spec fn div_cost_term(power: nat, i: nat) -> nat {
    let p = level_len(power, i);
    if p % 2 == 1 {
        p
    } else {
        0
    }
}

/// The multiplication cost of levels `lo..hi`.
pub open spec fn mul_cost_sum(power: nat, n: nat, lo: nat, hi: nat) -> nat
    decreases hi - lo,
{
    if hi <= lo {
        0
    } else {
        mul_cost_term(power, n, lo) + mul_cost_sum(power, n, lo + 1, hi)
    }
}

/// The division cost of levels `lo..hi`.
pub open spec fn div_cost_sum(power: nat, lo: nat, hi: nat) -> nat
    decreases hi - lo,
{
    if hi <= lo {
        0
    } else {
        div_cost_term(power, lo) + div_cost_sum(power, lo + 1, hi)
    }
}

/// The algorithm that the cost estimate picks for `xs_len` limbs and `count` table levels:
/// division costs are weighed at 150% of multiplication costs, and ties go to multiplication.
pub open spec fn chosen_algorithm(xs_len: nat, count: nat) -> PowerTableAlgorithm {
    let power = (xs_len - 1) as nat;
    let n = ceil_half(xs_len);
    let mul_cost = 1 + mul_cost_sum(power, n, 1, count);
    let div_cost = (1 + div_cost_sum(power, 1, count)) * 150 / 100;
    if mul_cost <= div_cost {
        PowerTableAlgorithm::Mul
    } else {
        PowerTableAlgorithm::Div
    }
}

pub proof fn lemma_ceil_half_le(p: nat)
    requires
        p >= 1,
    ensures
        1 <= ceil_half(p) <= p,
        p >= 2 ==> ceil_half(p) < p,
{
}

/// Halving `p` at most `2^k` reaches 1 within `k` steps.
pub proof fn lemma_power_count_bound(p: nat, k: nat)
    requires
        1 <= p <= npow(2, k),
    ensures
        power_count(p) <= k,
    decreases p,
{
    if p > 1 {
        assert(k > 0) by {
            if k == 0 {
                assert(npow(2, 0) == 1);
            }
        }
        assert(npow(2, k) == 2 * npow(2, (k - 1) as nat));
        lemma_power_count_bound(ceil_half(p), (k - 1) as nat);
    }
}

proof fn lemma_halvings_step(x: nat, j: nat)
    ensures
        halvings(x, j + 1) == ceil_half(halvings(x, j)),
{
}

proof fn lemma_halvings_le(x: nat, j: nat)
    requires
        x >= 1,
        j >= 1,
    ensures
        1 <= halvings(x, j) <= ceil_half(x),
    decreases j,
{
    lemma_ceil_half_le(x);
    if j > 1 {
        lemma_halvings_le(x, (j - 1) as nat);
        lemma_ceil_half_le(halvings(x, (j - 1) as nat));
    }
}

/// Fills `exptab` with the digit counts that each level of a power table for `xs_len` limbs
/// must reach, highest level first, and decides whether to build the table by multiplication
/// or by division. Returns the number of levels above the lowest one, and the algorithm. Any
/// base from 2 to 256 is accepted; only the number of digits per limb depends on it.
pub fn _limbs_choose_power_table_algorithm(
    exptab: &mut [usize],
    xs_len: usize,
    base: u64,
) -> (r: (usize, PowerTableAlgorithm))
    requires
        xs_len >= 1,
        (xs_len as nat) * 32 <= usize::MAX,
        2 <= base <= 256,
        power_count(ceil_half(xs_len as nat)) < old(exptab)@.len(),
    ensures
        final(exptab)@.len() == old(exptab)@.len(),
        r.0 == power_count(ceil_half(xs_len as nat)),
        ({
            let dpl = final(exptab)@[r.0 as int];
            &&& is_chars_per_limb(base, dpl as nat)
            &&& forall|k: int|
                0 <= k < r.0 ==> #[trigger] final(exptab)@[k] == halvings(xs_len as nat, (k + 1) as nat)
                    * dpl
        }),
        forall|k: int| r.0 < k < old(exptab)@.len() ==> #[trigger] final(exptab)@[k] == old(exptab)@[k],
        r.1 == chosen_algorithm(xs_len as nat, r.0 as nat),
{
    let digits_per_limb = get_chars_per_limb(base);
    let mut number_of_powers: usize = 0;
    let mut power: usize = xs_len / 2 + xs_len % 2;
    proof {
        assert(power as nat == ceil_half(xs_len as nat));
        lemma_ceil_half_le(xs_len as nat);
        assert(halvings(xs_len as nat, 1) == ceil_half(halvings(xs_len as nat, 0)));
    }
    while power != 1
        invariant
            exptab@.len() == old(exptab)@.len(),
            1 <= power <= ceil_half(xs_len as nat),
            xs_len >= 1,
            (xs_len as nat) * 32 <= usize::MAX,
            digits_per_limb <= 32,
            power as nat == halvings(xs_len as nat, (number_of_powers + 1) as nat),
            number_of_powers + power_count(power as nat) == power_count(ceil_half(xs_len as nat)),
            power_count(ceil_half(xs_len as nat)) < exptab@.len(),
            forall|k: int|
                0 <= k < number_of_powers ==> #[trigger] exptab@[k] == halvings(
                    xs_len as nat,
                    (k + 1) as nat,
                ) * digits_per_limb,
            forall|k: int|
                number_of_powers <= k < exptab@.len() ==> #[trigger] exptab@[k] == old(exptab)@[k],
        decreases power,
    {
        proof {
            assert(power as nat * digits_per_limb <= usize::MAX) by (nonlinear_arith)
                requires
                    power as nat <= (xs_len as nat + 1) / 2,
                    digits_per_limb <= 32,
                    (xs_len as nat) * 32 <= usize::MAX,
            ;
        }
        exptab[number_of_powers] = power * digits_per_limb;
        proof {
            lemma_halvings_step(xs_len as nat, (number_of_powers + 1) as nat);
            lemma_ceil_half_le(power as nat);
            lemma_halvings_le(xs_len as nat, (number_of_powers + 2) as nat);
        }
        number_of_powers += 1;
        power = power / 2 + power % 2;
    }
    proof {
        assert(power_count(1) == 0);
    }
    exptab[number_of_powers] = digits_per_limb;
    // Both table algorithms are available with a division-to-multiplication cost ratio of
    // 150%, so the cheaper one is picked by estimate.
    let np = number_of_powers;
    proof {
        crate::bases::lemma_npow2(64);
        vstd::arithmetic::power2::lemma2_to64();
        lemma_ceil_half_le(xs_len as nat);
        assert(usize::MAX <= 18446744073709551615);
        lemma_power_count_bound(ceil_half(xs_len as nat), 64);
        assert(np <= 64);
    }
    let power_all: usize = xs_len - 1;
    let n: usize = xs_len / 2 + xs_len % 2;
    let mut mul_cost: u128 = 1;
    let mut div_cost: u128 = 1;
    // two = 2^(i - 1) for the level i about to be processed
    let mut two: u128 = 1;
    let mut j: usize = 1;
    while j + 1 < np
        invariant
            1 <= j,
            np <= 64,
            np >= 2 ==> j + 1 <= np,
            two as nat == npow(2, (j - 1) as nat),
            j <= 64,
        decreases np - j,
    {
        proof {
            crate::bases::lemma_npow2((j - 1) as nat);
            crate::bases::lemma_npow2(64);
            vstd::arithmetic::power2::lemma_pow2_strictly_increases((j - 1) as nat, 64);
            vstd::arithmetic::power2::lemma2_to64();
            assert(npow(2, j as nat) == 2 * npow(2, (j - 1) as nat));
        }
        two = two * 2;
        j += 1;
    }
    // process levels np - 1 down to 1
    let mut i: usize = if np >= 1 { np - 1 } else { 0 };
    proof {
        if np >= 2 {
            assert(j + 1 == np);
            assert(two as nat == npow(2, (i - 1) as nat));
        }
        assert(mul_cost_sum(power_all as nat, n as nat, (i + 1) as nat, np as nat) == 0 || i + 1 < np);
    }
    let mut mul_acc: u128 = 0;
    let mut div_acc: u128 = 0;
    proof {
        if i >= 1 {
            lemma_npow_pos(2, (i - 1) as nat);
            crate::bases::lemma_npow_mono(2, (i - 1) as nat, 62);
            crate::bases::lemma_npow2(62);
            vstd::arithmetic::power2::lemma2_to64_rest();
        }
        assert(mul_cost_sum(power_all as nat, n as nat, np as nat, np as nat) == 0);
    }
    let ghost mut lo: nat = np as nat;
    while i >= 1
        invariant
            np <= 64,
            i < np || (np == 0 && i == 0),
            lo == (i + 1) as nat || (np == 0 && lo == 0),
            np >= 1 ==> lo == (i + 1) as nat,
            i >= 1 ==> two as nat == npow(2, (i - 1) as nat),
            i >= 1 ==> 1 <= two <= 4611686018427387904,
            power_all as nat == (xs_len - 1) as nat,
            n as nat == ceil_half(xs_len as nat),
            mul_acc as nat == mul_cost_sum(power_all as nat, n as nat, lo, np as nat),
            div_acc as nat == div_cost_sum(power_all as nat, lo, np as nat),
            mul_acc as nat <= (np - lo) * 4 * 18446744073709551616,
            div_acc as nat <= (np - lo) * 4 * 18446744073709551616,
            lo <= np,
        decreases i,
    {
        let two_i: u128 = two * 2;
        let pow: u128 = (power_all as u128) / two_i + 1;
        proof {
            assert(npow(2, i as nat) == 2 * npow(2, (i - 1) as nat));
            lemma_npow_pos(2, i as nat);
            assert(pow as nat == level_len(power_all as nat, i as nat));
            assert(pow <= 18446744073709551616) by {
                vstd::arithmetic::div_mod::lemma_div_is_ordered_by_denominator(
                    power_all as int,
                    1,
                    two_i as int,
                );
            }
        }
        let mt: u128;
        let dt: u128;
        proof {
            assert((pow as nat) * (two as nat) <= 18446744073709551616 * 9223372036854775808)
                by (nonlinear_arith)
                requires
                    pow <= 18446744073709551616,
                    two <= 9223372036854775808,
            ;
        }
        if (n as u128) != pow * two {
            if pow % 2 == 1 {
                dt = pow;
            } else {
                dt = 0;
            }
            if pow > 2 && pow % 2 == 0 {
                mt = 2 * pow;
            } else {
                mt = pow;
            }
        } else if pow % 2 == 1 {
            mt = pow;
            dt = pow;
        } else {
            mt = 0;
            dt = 0;
        }
        proof {
            assert(mt as nat == mul_cost_term(power_all as nat, n as nat, i as nat));
            assert(dt as nat == div_cost_term(power_all as nat, i as nat));
        }
        mul_acc = mul_acc + mt;
        div_acc = div_acc + dt;
        proof {
            lo = i as nat;
            if i >= 2 {
                assert(npow(2, (i - 1) as nat) == 2 * npow(2, (i - 2) as nat));
                lemma_npow_pos(2, (i - 2) as nat);
            }
        }
        i = i - 1;
        two = two / 2;
    }
    mul_cost = mul_cost + mul_acc;
    div_cost = div_cost + div_acc;
    div_cost = div_cost * 150 / 100;
    let algorithm = if mul_cost <= div_cost {
        PowerTableAlgorithm::Mul
    } else {
        PowerTableAlgorithm::Div
    };
    (number_of_powers, algorithm)
}

} // verus!
