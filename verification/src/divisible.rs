//! Divisibility of limb sequences by powers of two.
use vstd::prelude::*;
use vstd::arithmetic::power2::{pow2, lemma_pow2_adds, lemma_pow2_pos, lemma_pow2_strictly_increases, lemma2_to64};
use crate::limbs::{
    lemma_lpow_mono, lemma_lpow_pos, lemma_lpow_pow2, lemma_val_bound, lemma_val_cons,
    lemma_val_split, lemma_val_zero_iff, limbs_val, lpow, radix,
};
use crate::arith::limbs_test_zero;

verus! {

/// Whether `x` is divisible by 2^`pow`. Zero is divisible by every power of two; a nonzero limb
/// is not divisible by 2^`pow` once `pow` reaches the limb width.
pub fn limb_divisible_by_power_of_two(x: u32, pow: u64) -> (r: bool)
    ensures
        r <==> (x as nat) % pow2(pow as nat) == 0,
{
    if pow >= 32 {
        proof {
            lemma_pow2_pos(pow as nat);
            lemma2_to64();
            vstd::arithmetic::power2::lemma2_to64_rest();
            if pow > 32 {
                lemma_pow2_strictly_increases(32, pow as nat);
            }
            assert(x < pow2(pow as nat));
            if x != 0 {
                vstd::arithmetic::div_mod::lemma_small_mod(x as nat, pow2(pow as nat));
            } else {
                assert((x as nat) % pow2(pow as nat) == 0);
            }
        }
        x == 0
    } else {
        let s = pow as u32;
        proof {
            vstd::bits::lemma_u32_pow2_no_overflow(s as nat);
            vstd::bits::lemma_u32_shl_is_mul(1, s);
        }
        let m = 1u32 << s;
        proof {
            assert(m as nat == pow2(pow as nat));
        }
        x % m == 0
    }
}

/// Interpreting `limbs` as the limbs of a natural number, least significant first, whether
/// that number is divisible by 2^`pow`. The number must not be zero.
pub fn limbs_divisible_by_power_of_two(limbs: &[u32], pow: u64) -> (r: bool)
    requires
        limbs_val(limbs@) != 0,
    ensures
        r <==> limbs_val(limbs@) % pow2(pow as nat) == 0,
{
    let n = limbs.len();
    let z64 = pow >> 5;
    proof {
        vstd::bits::lemma_u64_shr_is_div(pow, 5);
        vstd::arithmetic::power2::lemma2_to64();
    }
    if z64 >= n as u64 {
        proof {
            let v = limbs_val(limbs@);
            lemma_val_bound(limbs@);
            lemma_lpow_mono(n as nat, z64 as nat);
            lemma_lpow_pow2(z64 as nat);
            assert(32 * (z64 as nat) <= pow as nat);
            if 32 * (z64 as nat) < pow as nat {
                lemma_pow2_strictly_increases(32 * (z64 as nat), pow as nat);
            }
            vstd::arithmetic::div_mod::lemma_small_mod(v, pow2(pow as nat));
        }
        return false;
    }
    let z = z64 as usize;
    let low = vstd::slice::slice_subrange(limbs, 0, z);
    let low_zero = limbs_test_zero(low);
    proof {
        assert(pow2(5) == 32);
        assert((z64 as nat) * 32 <= pow as nat) by (nonlinear_arith)
            requires
                z64 as nat == (pow as nat) / 32,
        ;
        vstd::bits::lemma_u64_shl_is_mul(z64, 5);
    }
    let r = pow - (z64 << 5);
    proof {
        assert(r < 32) by (nonlinear_arith)
            requires
                z64 as nat == (pow as nat) / 32,
                r == pow - (z64 as nat) * 32,
        ;
        assert(pow as nat == 32 * (z as nat) + r as nat);
    }
    let result = low_zero && limb_divisible_by_power_of_two(limbs[z], r);
    proof {
        let s = limbs@;
        let v = limbs_val(s);
        let big_l = lpow(z as nat);
        let p = pow2(r as nat);
        lemma_lpow_pos(z as nat);
        lemma_pow2_pos(r as nat);
        lemma_lpow_pow2(z as nat);
        lemma_pow2_adds(32 * (z as nat), r as nat);
        assert(pow2(pow as nat) == big_l * p);
        lemma_val_split(s, z as int);
        let v0 = limbs_val(s.subrange(0, z as int));
        let rest = s.subrange(z as int, n as int);
        let w = limbs_val(rest);
        assert(v == v0 + big_l * w);
        lemma_val_zero_iff(s.subrange(0, z as int));
        if low_zero {
            assert(v0 == 0);
            lemma_val_cons(rest);
            let x = s[z as int] as int;
            let hi = limbs_val(rest.subrange(1, rest.len() as int)) as int;
            assert(w == x + radix() * hi);
            // radix() is a multiple of p
            lemma_pow2_adds(r as nat, (32 - r) as nat);
            let e = pow2((32 - r) as nat);
            vstd::arithmetic::power2::lemma2_to64_rest();
            assert(radix() == p * e);
            assert(w == x + p * (e * hi)) by (nonlinear_arith)
                requires
                    w == x + radix() * hi,
                    radix() == p * e,
            ;
            vstd::arithmetic::div_mod::lemma_mod_multiples_vanish(e * hi, x, p as int);
            assert((w as int) % (p as int) == x % (p as int)) by {
                assert(p * (e * hi) + x == w);
            }
            // big_l * w divisible by big_l * p iff w divisible by p
            let bp = (big_l * p) as int;
            assert(bp > 0) by (nonlinear_arith)
                requires
                    bp == big_l * p,
                    big_l > 0,
                    p > 0,
            ;
            vstd::arithmetic::div_mod::lemma_fundamental_div_mod(w as int, p as int);
            vstd::arithmetic::div_mod::lemma_fundamental_div_mod(v as int, bp);
            let k = (w as int) / (p as int);
            let m = (w as int) % (p as int);
            vstd::arithmetic::div_mod::lemma_mod_bound(w as int, p as int);
            let big_k = (v as int) / bp;
            let big_m = (v as int) % bp;
            vstd::arithmetic::div_mod::lemma_mod_bound(v as int, bp);
            assert(v == big_l * w);
            // v = bp * k + big_l * m with 0 <= big_l * m < bp
            assert(v as int == bp * k + big_l * m) by (nonlinear_arith)
                requires
                    v == big_l * w,
                    w as int == p * k + m,
                    bp == big_l * p,
            ;
            assert(0 <= big_l * m < bp) by (nonlinear_arith)
                requires
                    0 <= m < p,
                    big_l > 0,
                    bp == big_l * p,
            ;
            vstd::arithmetic::div_mod::lemma_fundamental_div_mod_converse(v as int, bp, k, big_l * m);
            assert(big_l * m == 0 <==> m == 0) by (nonlinear_arith)
                requires
                    big_l > 0,
                    m >= 0,
            ;
            assert(((s[z as int] as nat) % pow2(r as nat) == 0) <==> m == 0);
        } else {
            assert(v0 > 0);
            lemma_val_bound(s.subrange(0, z as int));
            assert(v0 < big_l);
            if v % pow2(pow as nat) == 0 {
                let bp = (big_l * p) as int;
                assert(bp > 0) by (nonlinear_arith)
                    requires
                        bp == big_l * p,
                        big_l > 0,
                        p > 0,
                ;
                vstd::arithmetic::div_mod::lemma_fundamental_div_mod(v as int, bp);
                let k = (v as int) / bp;
                assert(v as int == bp * k);
                let t = p * k - w;
                assert(v0 == big_l * t) by (nonlinear_arith)
                    requires
                        v0 + big_l * w == bp * k,
                        bp == big_l * p,
                        t == p * k - w,
                ;
                assert(false) by (nonlinear_arith)
                    requires
                        v0 == big_l * t,
                        0 < v0 < big_l,
                ;
            }
        }
    }
    result
}

} // verus!
