//! The ASCII characters, in the order in which they are enumerated.
use vstd::prelude::*;

verus! {

/// The characters with codes `a` up to but excluding `b`, in increasing order.
pub open spec fn char_range(a: nat, b: nat) -> Seq<char> {
    Seq::new((b - a) as nat, |i: int| (a + i) as char)
}

/// All 128 ASCII characters: the lowercase letters, the uppercase letters, the digits, the
/// other printable characters in increasing order, the control characters below the space, and
/// finally DEL.
pub open spec fn ascii_chars_in_order() -> Seq<char> {
    char_range(97, 123) + char_range(65, 91) + char_range(48, 58) + char_range(32, 48)
        + char_range(58, 65) + char_range(91, 97) + char_range(123, 127) + char_range(0, 32)
        + char_range(127, 128)
}

/// Appends the characters with codes `a` up to but excluding `b` to `v`.
fn push_char_range(v: &mut Vec<char>, a: u8, b: u8)
    requires
        a <= b <= 128,
    ensures
        final(v)@ == old(v)@ + char_range(a as nat, b as nat),
{
    let mut c = a;
    while c < b
        invariant
            a <= c <= b <= 128,
            v@ == old(v)@ + char_range(a as nat, c as nat),
        decreases b - c,
    {
        v.push(c as char);
        proof {
            assert(v@ =~= old(v)@ + char_range(a as nat, (c + 1) as nat));
        }
        c += 1;
    }
}

/// Every ASCII character once, in the order of `ascii_chars_in_order`.
pub fn exhaustive_ascii_chars() -> (r: Vec<char>)
    ensures
        r@ == ascii_chars_in_order(),
        r@.len() == 128,
{
    let mut v: Vec<char> = Vec::new();
    push_char_range(&mut v, 97, 123);
    push_char_range(&mut v, 65, 91);
    push_char_range(&mut v, 48, 58);
    push_char_range(&mut v, 32, 48);
    push_char_range(&mut v, 58, 65);
    push_char_range(&mut v, 91, 97);
    push_char_range(&mut v, 123, 127);
    push_char_range(&mut v, 0, 32);
    push_char_range(&mut v, 127, 128);
    proof {
        assert(v@ =~= ascii_chars_in_order());
    }
    v
}

} // verus!
