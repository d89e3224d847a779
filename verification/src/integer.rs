//! Integers: a natural magnitude and whether the value is non-negative.
use vstd::prelude::*;
use core::cmp::Ordering;
use crate::natural::{Natural, natural_limbs};
use crate::natural_digits::{decimal_digits, is_decimal, natural_from_decimal_bytes};
use crate::digit_specs::dval_desc;
use crate::limbs::radix;

verus! {

/// An integer: whether it is non-negative, and its magnitude.
#[derive(PartialEq, Eq, Hash, Debug)]
pub struct Integer {
    pub(crate) non_neg: bool,
    pub(crate) abs: Natural,
}

impl View for Integer {
    type V = int;

    /// The number that an integer stands for.
    closed spec fn view(&self) -> int {
        if self.non_neg {
            self.abs@ as int
        } else {
            -(self.abs@ as int)
        }
    }
}

/// The absolute value of `v`.
pub open spec fn int_abs(v: int) -> int {
    if v >= 0 {
        v
    } else {
        -v
    }
}

/// The value that an integer written in decimal stands for: an optional `-` and one or more
/// ASCII digits.
pub open spec fn decimal_integer_spec(s: Seq<u8>) -> Option<int> {
    if s.len() > 0 && s[0] == 45 {
        let t = s.subrange(1, s.len() as int);
        if is_decimal(t) {
            Some(-(dval_desc(decimal_digits(t), 10) as int))
        } else {
            None
        }
    } else if is_decimal(s) {
        Some(dval_desc(decimal_digits(s), 10) as int)
    } else {
        None
    }
}

impl Integer {
    /// Canonical form: a canonical magnitude, and zero is non-negative.
    #[verifier::type_invariant]
    closed spec fn wf(self) -> bool {
        self.abs.wf() && (self.abs@ == 0 ==> self.non_neg)
    }

    /// The number of limbs of the magnitude.
    pub closed spec fn magnitude_len(self) -> nat {
        natural_limbs(self.abs).len()
    }

    /// The integer equal to the natural `n`.
    pub fn from_natural(n: Natural) -> (r: Integer)
        requires
            n.wf(),
        ensures
            r@ == n@ as int,
    {
        Integer { non_neg: true, abs: n }
    }

    /// The integer equal to `x`.
    pub fn from_u64(x: u64) -> (r: Integer)
        ensures
            r@ == x as int,
    {
        Integer { non_neg: true, abs: Natural::from_u64(x) }
    }

    /// The integer equal to `x`.
    pub fn from_i64(x: i64) -> (r: Integer)
        ensures
            r@ == x as int,
    {
        if x >= 0 {
            Integer { non_neg: true, abs: Natural::from_u64(x as u64) }
        } else {
            let a: u64 = ((-(x + 1)) as u64) + 1;
            Integer { non_neg: false, abs: Natural::from_u64(a) }
        }
    }

    /// The integer equal to `x`.
    pub fn from_i32(x: i32) -> (r: Integer)
        ensures
            r@ == x as int,
    {
        Integer::from_i64(x as i64)
    }

    /// The integer equal to `x`.
    pub fn from_u32(x: u32) -> (r: Integer)
        ensures
            r@ == x as int,
    {
        Integer::from_u64(x as u64)
    }

    /// The magnitude of `self`.
    pub fn unsigned_abs_ref(&self) -> (r: &Natural)
        ensures
            r@ as int == int_abs(self@),
    {
        proof {
            use_type_invariant(self);
        }
        &self.abs
    }

    /// The negation of `self`.
    pub fn neg(&self) -> (r: Integer)
        ensures
            r@ == -self@,
    {
        proof {
            use_type_invariant(self);
        }
        let z = self.abs.is_zero();
        Integer { non_neg: if z { true } else { !self.non_neg }, abs: self.abs.clone_natural() }
    }

    /// Whether `self` is below, equal to or above zero.
    pub fn sign(&self) -> (r: Ordering)
        ensures
            r == Ordering::Less <==> self@ < 0,
            r == Ordering::Equal <==> self@ == 0,
            r == Ordering::Greater <==> self@ > 0,
    {
        proof {
            use_type_invariant(self);
        }
        if self.abs.is_zero() {
            Ordering::Equal
        } else if self.non_neg {
            Ordering::Greater
        } else {
            Ordering::Less
        }
    }

    /// The number of bits of the magnitude of `self`.
    pub fn significant_bits(&self) -> (r: u64)
        requires
            self.magnitude_len() < 0x100000000000000,
        ensures
            r == 0 <==> self@ == 0,
            int_abs(self@) < vstd::arithmetic::power2::pow2(r as nat),
            r > 0 ==> int_abs(self@) >= vstd::arithmetic::power2::pow2((r - 1) as nat),
    {
        proof {
            use_type_invariant(self);
        }
        self.abs.significant_bits()
    }

    /// The value of `self` as a `u64`, or `None` when it is negative or too large.
    pub fn to_u64(&self) -> (r: Option<u64>)
        ensures
            r is Some <==> 0 <= self@ < 18446744073709551616,
            r matches Some(x) ==> x as int == self@,
    {
        proof {
            use_type_invariant(self);
        }
        if self.non_neg {
            self.abs.to_u64()
        } else {
            None
        }
    }

    /// The value of `self` modulo 2^64.
    pub fn to_u64_wrapping(&self) -> (r: u64)
        ensures
            r as int == self@ % 18446744073709551616,
    {
        proof {
            use_type_invariant(self);
        }
        let lo = self.abs.low_u64();
        if self.non_neg || lo == 0 {
            proof {
                if !self.non_neg {
                    lemma_neg_mod(self.abs@ as int, 18446744073709551616);
                }
            }
            lo
        } else {
            proof {
                lemma_neg_mod(self.abs@ as int, 18446744073709551616);
            }
            (18446744073709551615 - lo) + 1
        }
    }

    /// The value of `self` as an `i32`, or `None` when it does not fit.
    pub fn to_i32(&self) -> (r: Option<i32>)
        ensures
            r is Some <==> -2147483648 <= self@ < 2147483648,
            r matches Some(x) ==> x as int == self@,
    {
        proof {
            use_type_invariant(self);
        }
        match self.abs.to_u64() {
            None => None,
            Some(a) => {
                if self.non_neg {
                    if a < 2147483648 {
                        Some(a as i32)
                    } else {
                        None
                    }
                } else if a <= 2147483648 {
                    Some((-(a as i64)) as i32)
                } else {
                    None
                }
            },
        }
    }

    /// The `i32` congruent to `self` modulo 2^32.
    pub fn to_i32_wrapping(&self) -> (r: i32)
        ensures
            (r as int - self@) % 4294967296 == 0,
    {
        proof {
            use_type_invariant(self);
        }
        let lo = self.abs.low_u32();
        let w: u64 = if self.non_neg || lo == 0 {
            lo as u64
        } else {
            4294967296 - (lo as u64)
        };
        proof {
            let m = 4294967296int;
            let a = self.abs@ as int;
            vstd::arithmetic::div_mod::lemma_fundamental_div_mod(a, m);
            if self.non_neg {
                assert(w as int - self@ == -(m * (a / m)));
            } else {
                assert(w as int - self@ == m * (a / m) + (if lo == 0 { 0int } else { m }));
            }
            let q = (w as int - self@) / m;
            assert((w as int - self@) % m == 0) by {
                if self.non_neg {
                    vstd::arithmetic::div_mod::lemma_mod_multiples_basic(-(a / m), m);
                    assert(-(m * (a / m)) == (-(a / m)) * m) by (nonlinear_arith);
                } else if lo == 0 {
                    vstd::arithmetic::div_mod::lemma_mod_multiples_basic(a / m, m);
                    assert(m * (a / m) == (a / m) * m) by (nonlinear_arith);
                } else {
                    vstd::arithmetic::div_mod::lemma_mod_multiples_basic(a / m + 1, m);
                    assert(m * (a / m) + m == (a / m + 1) * m) by (nonlinear_arith);
                }
            }
        }
        if w < 2147483648 {
            w as i32
        } else {
            let r = ((w as i64) - 4294967296) as i32;
            proof {
                let m = 4294967296int;
                vstd::arithmetic::div_mod::lemma_mod_sub_multiples_vanish(w as int - self@, m);
            }
            r
        }
    }

    /// The integer written in decimal by `s`: an optional `-` and one or more ASCII digits.
    /// `None` for anything else.
    pub fn from_decimal_bytes(s: &[u8]) -> (r: Option<Integer>)
        ensures
            r is Some <==> decimal_integer_spec(s@) is Some,
            r matches Some(x) ==> x@ == decimal_integer_spec(s@)->0,
    {
        if s.len() > 0 && s[0] == 45 {
            let rest = vstd::slice::slice_subrange(s, 1, s.len());
            match natural_from_decimal_bytes(rest) {
                Some(n) => {
                    let z = n.is_zero();
                    Some(Integer { non_neg: z, abs: n })
                },
                None => None,
            }
        } else {
            match natural_from_decimal_bytes(s) {
                Some(n) => Some(Integer { non_neg: true, abs: n }),
                None => None,
            }
        }
    }
}

/// The remainder of a negated number.
proof fn lemma_neg_mod(a: int, m: int)
    requires
        a >= 0,
        m > 0,
    ensures
        a % m == 0 ==> (-a) % m == 0,
        a % m != 0 ==> (-a) % m == m - a % m,
{
    vstd::arithmetic::div_mod::lemma_fundamental_div_mod(a, m);
    vstd::arithmetic::div_mod::lemma_mod_bound(a, m);
    let q = a / m;
    let t = a % m;
    if t == 0 {
        assert(-a == (-q) * m + 0) by (nonlinear_arith)
            requires
                a == m * q + t,
                t == 0,
        ;
        vstd::arithmetic::div_mod::lemma_fundamental_div_mod_converse(-a, m, -q, 0);
    } else {
        assert(-a == (-q - 1) * m + (m - t)) by (nonlinear_arith)
            requires
                a == m * q + t,
        ;
        vstd::arithmetic::div_mod::lemma_fundamental_div_mod_converse(-a, m, -q - 1, m - t);
    }
}

/// The absolute value of `v`.
pub open spec fn abs_i64(v: i64) -> int {
    if v >= 0 {
        v as int
    } else {
        -(v as int)
    }
}

/// The absolute value of `v`.
pub open spec fn abs_i32(v: i32) -> int {
    if v >= 0 {
        v as int
    } else {
        -(v as int)
    }
}

/// The magnitude of `v`.
pub fn i64_unsigned_abs(v: i64) -> (r: u64)
    ensures
        r as int == abs_i64(v),
{
    if v >= 0 {
        v as u64
    } else {
        ((-(v + 1)) as u64) + 1
    }
}

/// The magnitude of `v`.
pub fn i32_unsigned_abs(v: i32) -> (r: u64)
    ensures
        r as int == abs_i32(v),
{
    i64_unsigned_abs(v as i64)
}

impl Integer {
    /// Compares the magnitudes of `self` and `other`.
    pub fn cmp_abs(&self, other: &Integer) -> (r: Ordering)
        ensures
            r == Ordering::Less <==> int_abs(self@) < int_abs(other@),
            r == Ordering::Equal <==> int_abs(self@) == int_abs(other@),
            r == Ordering::Greater <==> int_abs(self@) > int_abs(other@),
    {
        proof {
            use_type_invariant(self);
            use_type_invariant(other);
        }
        self.abs.cmp_natural(&other.abs)
    }

    /// Compares the magnitude of `self` with the natural `n`.
    fn cmp_abs_natural(&self, n: &Natural) -> (r: Ordering)
        requires
            n.wf(),
        ensures
            r == Ordering::Less <==> int_abs(self@) < n@,
            r == Ordering::Equal <==> int_abs(self@) == n@,
            r == Ordering::Greater <==> int_abs(self@) > n@,
    {
        proof {
            use_type_invariant(self);
        }
        self.abs.cmp_natural(n)
    }

    /// Compares the magnitude of `self` with `v`; always `Some`.
    pub fn partial_cmp_abs_u32(&self, v: u32) -> (r: Option<Ordering>)
        ensures
            r matches Some(o) && (o == Ordering::Less <==> int_abs(self@) < v) && (o
                == Ordering::Equal <==> int_abs(self@) == v) && (o == Ordering::Greater
                <==> int_abs(self@) > v),
    {
        Some(self.cmp_abs_natural(&Natural::from_u32(v)))
    }

    /// Compares the magnitude of `self` with `v`; always `Some`.
    pub fn partial_cmp_abs_u64(&self, v: u64) -> (r: Option<Ordering>)
        ensures
            r matches Some(o) && (o == Ordering::Less <==> int_abs(self@) < v) && (o
                == Ordering::Equal <==> int_abs(self@) == v) && (o == Ordering::Greater
                <==> int_abs(self@) > v),
    {
        Some(self.cmp_abs_natural(&Natural::from_u64(v)))
    }

    /// Compares the magnitude of `self` with that of `v`; always `Some`.
    pub fn partial_cmp_abs_i64(&self, v: i64) -> (r: Option<Ordering>)
        ensures
            r matches Some(o) && (o == Ordering::Less <==> int_abs(self@) < abs_i64(v)) && (o
                == Ordering::Equal <==> int_abs(self@) == abs_i64(v)) && (o
                == Ordering::Greater <==> int_abs(self@) > abs_i64(v)),
    {
        Some(self.cmp_abs_natural(&Natural::from_u64(i64_unsigned_abs(v))))
    }

    /// Compares the magnitude of `self` with that of `v`; always `Some`.
    pub fn partial_cmp_abs_i32(&self, v: i32) -> (r: Option<Ordering>)
        ensures
            r matches Some(o) && (o == Ordering::Less <==> int_abs(self@) < abs_i32(v)) && (o
                == Ordering::Equal <==> int_abs(self@) == abs_i32(v)) && (o
                == Ordering::Greater <==> int_abs(self@) > abs_i32(v)),
    {
        Some(self.cmp_abs_natural(&Natural::from_u64(i32_unsigned_abs(v))))
    }

    /// Compares `self` with the natural `n`; always `Some`.
    pub fn partial_cmp_natural(&self, n: &Natural) -> (r: Option<Ordering>)
        requires
            n.wf(),
        ensures
            r matches Some(o) && (o == Ordering::Less <==> self@ < n@) && (o == Ordering::Equal
                <==> self@ == n@) && (o == Ordering::Greater <==> self@ > n@),
    {
        proof {
            use_type_invariant(self);
        }
        if self.non_neg {
            Some(self.abs.cmp_natural(n))
        } else {
            Some(Ordering::Less)
        }
    }

    /// Compares `self` with `other`.
    pub fn cmp_integer(&self, other: &Integer) -> (r: Ordering)
        ensures
            r == Ordering::Less <==> self@ < other@,
            r == Ordering::Equal <==> self@ == other@,
            r == Ordering::Greater <==> self@ > other@,
    {
        proof {
            use_type_invariant(self);
            use_type_invariant(other);
        }
        if self.non_neg && other.non_neg {
            self.abs.cmp_natural(&other.abs)
        } else if !self.non_neg && !other.non_neg {
            match self.abs.cmp_natural(&other.abs) {
                Ordering::Less => Ordering::Greater,
                Ordering::Equal => Ordering::Equal,
                Ordering::Greater => Ordering::Less,
            }
        } else if self.non_neg {
            Ordering::Greater
        } else {
            Ordering::Less
        }
    }
}

impl Clone for Integer {
    fn clone(&self) -> (r: Integer)
        ensures
            r@ == self@,
    {
        proof {
            use_type_invariant(self);
        }
        Integer { non_neg: self.non_neg, abs: self.abs.clone_natural() }
    }
}

impl core::str::FromStr for Integer {
    type Err = ();

    /// Parses an integer written in decimal, with an optional leading `-`: `Ok` exactly when
    /// the text is such a numeral, and then the integer it stands for.
    fn from_str(s: &str) -> (r: Result<Integer, ()>)
        ensures
            r is Ok <==> decimal_integer_spec(vstd::string::StringSliceAdditionalSpecFns::spec_bytes(s)) is Some,
            r matches Ok(x) ==> x@ == decimal_integer_spec(vstd::string::StringSliceAdditionalSpecFns::spec_bytes(s))->0,
    {
        match Integer::from_decimal_bytes(s.as_bytes()) {
            Some(n) => Ok(n),
            None => Err(()),
        }
    }
}

/// Magnitudes compare as squares do.
proof fn lemma_abs_order_squares(a: int, b: int)
    ensures
        (int_abs(a) < int_abs(b)) == (a * a < b * b),
        (int_abs(a) == int_abs(b)) == (a * a == b * b),
        (int_abs(a) > int_abs(b)) == (a * a > b * b),
{
    let p = int_abs(a);
    let q = int_abs(b);
    assert(a * a == p * p) by (nonlinear_arith)
        requires
            p == a || p == -a,
    ;
    assert(b * b == q * q) by (nonlinear_arith)
        requires
            q == b || q == -b,
    ;
    assert((p < q) == (p * p < q * q)) by (nonlinear_arith)
        requires
            p >= 0,
            q >= 0,
    ;
    assert((p == q) == (p * p == q * q)) by (nonlinear_arith)
        requires
            p >= 0,
            q >= 0,
    ;
    assert((p > q) == (p * p > q * q)) by (nonlinear_arith)
        requires
            p >= 0,
            q >= 0,
    ;
}

/// Comparing a magnitude with that of an `i64` is comparing squares.
proof fn lemma_abs_i64_squares(a: int, v: i64)
    ensures
        (int_abs(a) < abs_i64(v)) == (a * a < v * v),
        (int_abs(a) == abs_i64(v)) == (a * a == v * v),
        (int_abs(a) > abs_i64(v)) == (a * a > v * v),
{
    lemma_abs_order_squares(a, v as int);
}

/// Comparing a magnitude with that of an `i32` is comparing squares.
proof fn lemma_abs_i32_squares(a: int, v: i32)
    ensures
        (int_abs(a) < abs_i32(v)) == (a * a < v * v),
        (int_abs(a) == abs_i32(v)) == (a * a == v * v),
        (int_abs(a) > abs_i32(v)) == (a * a > v * v),
{
    lemma_abs_order_squares(a, v as int);
}

/// What `i64_unsigned_abs` returns for `v` is the non-negative number whose square is the
/// square of `v`.
pub proof fn law_i64_unsigned_abs(v: i64, r: u64)
    requires
        r as int == abs_i64(v),
    ensures
        (r as int) * (r as int) == (v as int) * (v as int),
{
    lemma_abs_order_squares(r as int, v as int);
}

/// What `i32_unsigned_abs` returns for `v` is the non-negative number whose square is the
/// square of `v`.
pub proof fn law_i32_unsigned_abs(v: i32, r: u64)
    requires
        r as int == abs_i32(v),
    ensures
        (r as int) * (r as int) == (v as int) * (v as int),
{
    lemma_abs_order_squares(r as int, v as int);
}

/// `partial_cmp_abs_i64` compares the magnitudes of `x` and `v`, which is comparing their
/// squares: equal exactly when `x` is `v` or `-v`.
pub proof fn law_partial_cmp_abs_i64(x: Integer, v: i64, r: Option<Ordering>)
    requires
        r matches Some(o) && (o == Ordering::Less <==> int_abs(x@) < abs_i64(v)) && (o
            == Ordering::Equal <==> int_abs(x@) == abs_i64(v)) && (o == Ordering::Greater
            <==> int_abs(x@) > abs_i64(v)),
    ensures
        r matches Some(o) && (o == Ordering::Less <==> x@ * x@ < v * v) && (o == Ordering::Equal
            <==> x@ * x@ == v * v) && (o == Ordering::Greater <==> x@ * x@ > v * v),
{
    lemma_abs_i64_squares(x@, v);
}

/// `partial_cmp_abs_i32` compares the magnitudes of `x` and `v`, which is comparing their
/// squares: equal exactly when `x` is `v` or `-v`.
pub proof fn law_partial_cmp_abs_i32(x: Integer, v: i32, r: Option<Ordering>)
    requires
        r matches Some(o) && (o == Ordering::Less <==> int_abs(x@) < abs_i32(v)) && (o
            == Ordering::Equal <==> int_abs(x@) == abs_i32(v)) && (o == Ordering::Greater
            <==> int_abs(x@) > abs_i32(v)),
    ensures
        r matches Some(o) && (o == Ordering::Less <==> x@ * x@ < v * v) && (o == Ordering::Equal
            <==> x@ * x@ == v * v) && (o == Ordering::Greater <==> x@ * x@ > v * v),
{
    lemma_abs_i32_squares(x@, v);
}

/// Parsing decimal digits `d` gives the number they stand for, and parsing `-` followed by
/// the same digits gives its negation, however many digits there are.
pub proof fn law_parse_decimal_integer(d: Seq<u8>, pos: Option<Integer>, neg: Option<Integer>)
    requires
        is_decimal(d),
        pos is Some <==> decimal_integer_spec(d) is Some,
        pos matches Some(x) ==> x@ == decimal_integer_spec(d)->0,
        neg is Some <==> decimal_integer_spec(seq![45u8] + d) is Some,
        neg matches Some(x) ==> x@ == decimal_integer_spec(seq![45u8] + d)->0,
    ensures
        pos matches Some(x) && x@ == dval_desc(decimal_digits(d), 10) as int,
        neg matches Some(y) && y@ == -((pos->0)@),
{
    let s = seq![45u8] + d;
    assert(s[0] == 45);
    assert(s.subrange(1, s.len() as int) =~= d);
    assert(48 <= d[0]);
}

} // verus!
