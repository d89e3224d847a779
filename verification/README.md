# lib

Arbitrary-precision natural numbers, stored as little-endian 32-bit limbs, with verified
conversions between numbers and digits in any base, and a few integer comparisons and
conversions built on them. Every function in `src/` is verified by Verus against a contract
stated over mathematical values (`limbs_val`, `dval_asc`, `dval_desc`, `is_digits_asc`, ...).

Layout of `src/`:

- `limbs`, `arith`, `sub_naive`, `div`, `divisible`: limb sequences read as numbers, and
  addition, subtraction, multiplication and division on them.
- `natural`, `natural_ops`, `natural_arith`: the `Natural` type (one limb inline, more on the
  heap), its canonical form `wf`, and its operations.
- `bases`, `power_table`, `power_build`: digits per limb, and the tables of powers of a base
  used by the divide-and-conquer conversions.
- `digit_specs`: the value of a digit sequence and the facts conversions rest on.
- `to_digits`, `to_dc`, `from_digits`, `from_dc`, `natural_digits`: byte-digit conversions,
  basecase and divide-and-conquer.
- `limb_digits`, `large_digits`, `from_limb`, `from_large`, `digits_api`: conversions with 16-, 32-,
  64- and 128-bit, word-sized and natural digits and bases.
- `decimal_text`: naturals written out in decimal.
- `integer`, `chars`, `factorization`: signed integers, ASCII characters, prime traits.
- `laws`: properties that relate several operations (uniqueness of representations, round
  trips, agreement of the two power-table builders).

`tests/` holds ordinary Rust tests run against the compiled library.
