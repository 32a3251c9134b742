//! Building text character by character.

use vstd::prelude::*;

verus! {

/// Appends `c` to `text`. This is `String::push`, which adds the one
/// character at the end and changes nothing else.
#[verifier::external_body]
pub(crate) fn push_char(text: &mut String, c: char)
    ensures
        final(text)@ == old(text)@.push(c),
{
    text.push(c)
}

/// The character of the decimal digit `d`.
pub open spec fn digit_char(d: int) -> char {
    (48 + d) as char
}

/// `v` written in decimal, without leading zeros.
#[verifier::opaque]
pub open spec fn decimal(v: u8) -> Seq<char> {
    if v >= 100 {
        seq![digit_char(v as int / 100), digit_char(v as int / 10 % 10), digit_char(v as int % 10)]
    } else if v >= 10 {
        seq![digit_char(v as int / 10), digit_char(v as int % 10)]
    } else {
        seq![digit_char(v as int)]
    }
}

/// The character of the decimal digit `d`.
pub(crate) fn digit_of(d: u8) -> (c: char)
    requires
        d < 10,
    ensures
        c == digit_char(d as int),
{
    (48 + d) as char
}

/// Appends `v` in decimal.
pub(crate) fn push_decimal(text: &mut String, v: u8)
    ensures
        final(text)@ == old(text)@ + decimal(v),
{
    if v >= 100 {
        push_char(text, digit_of(v / 100));
    }
    if v >= 10 {
        push_char(text, digit_of(v / 10 % 10));
    }
    push_char(text, digit_of(v % 10));
    assert(text@ =~= old(text)@ + decimal(v)) by {
        reveal(decimal);
    }
}

} // verus!
