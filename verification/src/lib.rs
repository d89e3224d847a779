//! Arbitrary-precision natural numbers stored as little-endian 32-bit limbs,
//! with verified conversions between limbs and digits in any base.
pub mod limbs;
pub mod arith;
pub mod divisible;
pub mod sub_naive;
pub mod factorization;
pub mod bases;
pub mod power_table;
pub mod natural;
pub mod digit_specs;
pub mod from_digits;
pub mod to_digits;
pub mod natural_digits;
pub mod natural_ops;
pub mod power_build;
pub mod from_dc;
pub mod div;
pub mod to_dc;
pub mod laws;
pub mod limb_digits;
pub mod natural_arith;
pub mod large_digits;
pub mod integer;
pub mod chars;
pub mod from_large;
pub mod from_limb;
pub mod digits_api;
pub mod decimal_text;
