//! Characters: the control-character test used when names are displayed, and
//! appending one character to a `String`.

use vstd::prelude::*;

verus! {

/// A control character in the Unicode sense: the C0 range, delete, and the C1
/// range.
pub open spec fn is_ctrl(c: char) -> bool {
    (c as u32) < 0x20 || (0x7f <= (c as u32) && (c as u32) <= 0x9f)
}

/// Whether `c` is a control character.
pub fn is_control_char(c: char) -> (r: bool)
    ensures
        r == is_ctrl(c),
{
    let u = c as u32;
    u < 0x20 || (0x7f <= u && u <= 0x9f)
}

/// Relies on `String::push`: appends the given character to the string.
#[verifier::external_body]
pub fn push_char(s: &mut String, c: char)
    ensures
        final(s)@ == old(s)@.push(c),
{
    s.push(c);
}

} // verus!
