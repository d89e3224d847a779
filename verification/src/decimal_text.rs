//! Naturals written out in decimal.
use vstd::prelude::*;
use vstd::string::StringExecFns;
use crate::digit_specs::{dval_desc, is_digits_desc, u8_digits};
use crate::natural::Natural;

verus! {

/// The digit values of decimal digit characters.
pub open spec fn decimal_char_values(t: Seq<char>) -> Seq<nat> {
    t.map_values(|c: char| (c as nat - 48) as nat)
}

/// Whether `t` is how `x` is written in decimal: one or more characters `'0'` to `'9'`, with
/// the value `x` and no leading zero unless `x` is zero itself.
pub open spec fn is_decimal_text(t: Seq<char>, x: nat) -> bool {
    &&& t.len() >= 1
    &&& forall|i: int| 0 <= i < t.len() ==> '0' <= #[trigger] t[i] <= '9'
    &&& dval_desc(decimal_char_values(t), 10) == x
    &&& (t.len() == 1 || t[0] != '0')
}

/// The one-character string of the decimal digit `d`.
fn digit_str(d: u8) -> (r: &'static str)
    requires
        d < 10,
    ensures
        r@ == seq![(d + 48) as char],
{
    proof {
        reveal_strlit("0");
        reveal_strlit("1");
        reveal_strlit("2");
        reveal_strlit("3");
        reveal_strlit("4");
        reveal_strlit("5");
        reveal_strlit("6");
        reveal_strlit("7");
        reveal_strlit("8");
        reveal_strlit("9");
    }
    match d {
        0 => "0",
        1 => "1",
        2 => "2",
        3 => "3",
        4 => "4",
        5 => "5",
        6 => "6",
        7 => "7",
        8 => "8",
        _ => "9",
    }
}

impl Natural {
    /// `self` written in decimal.
    pub fn to_string(&self) -> (r: String)
        ensures
            is_decimal_text(r@, self@),
    {
        let ds = self.to_digits_desc(&10);
        let ghost d = u8_digits(ds@);
        let mut out = String::new();
        if ds.len() == 0 {
            out.append(digit_str(0));
            proof {
                assert(out@ =~= seq!['0']);
                assert(decimal_char_values(out@) =~= seq![0nat]);
                crate::digit_specs::lemma_dval_desc_single(0, 10);
                assert(d =~= Seq::<nat>::empty());
            }
            return out;
        }
        let mut i: usize = 0;
        while i < ds.len()
            invariant
                is_digits_desc(d, 10, self@),
                d == u8_digits(ds@),
                i <= ds@.len(),
                out@.len() == i,
                forall|j: int| 0 <= j < i ==> out@[j] == (ds@[j] + 48) as char,
            decreases ds@.len() - i,
        {
            let c = ds[i];
            proof {
                assert(d[i as int] == c as nat);
                assert(d[i as int] < 10);
            }
            out.append(digit_str(c));
            i += 1;
        }
        proof {
            assert(decimal_char_values(out@) =~= d) by {
                assert forall|j: int| 0 <= j < d.len() implies decimal_char_values(out@)[j] == d[j] by {
                    assert(d[j] < 10);
                    assert(out@[j] == (ds@[j] + 48) as char);
                }
            }
            assert forall|j: int| 0 <= j < out@.len() implies '0' <= #[trigger] out@[j] <= '9' by {
                assert(d[j] < 10);
                assert(out@[j] == (ds@[j] + 48) as char);
            }
            assert(d[0] != 0);
            assert(out@[0] == (ds@[0] + 48) as char);
        }
        out
    }
}

} // verus!
