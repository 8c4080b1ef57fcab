//! Conversions between strings and the character sequences the logic works on.

use vstd::prelude::*;

verus! {

/// `str::chars` collected into a vector: the characters of `s`, in order.
/// A `str` never spans more than `isize::MAX` bytes and every character takes
/// at least one byte, which bounds the count.
#[verifier::external_body]
pub(crate) fn chars_of(s: &str) -> (v: Vec<char>)
    ensures
        v@ == s@,
        v@.len() <= isize::MAX,
{
    s.chars().collect()
}

/// `String::from_iter` over characters: the string made of `chars`, in order.
#[verifier::external_body]
pub(crate) fn string_of(chars: &[char]) -> (s: String)
    ensures
        s@ == chars@,
{
    chars.iter().collect()
}

/// `String::push`: appends the character `c` to `s`.
#[verifier::external_body]
pub(crate) fn push_char(s: &mut String, c: char)
    ensures
        final(s)@ == old(s)@.push(c),
{
    s.push(c)
}

} // verus!
