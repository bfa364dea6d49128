//! Character-level access to strings.
use vstd::prelude::*;

verus! {

/// Appends `c` to `s` (`String::push`).
#[verifier::external_body]
pub fn push_char(s: &mut String, c: char)
    ensures
        final(s)@ == old(s)@.push(c),
{
    s.push(c);
}

/// The character whose scalar value is `v` (meaningful when there is one).
pub open spec fn char_with(v: u32) -> char {
    choose|x: char| #[trigger] scalar(x) == v
}

/// The scalar value of a character.
pub open spec fn scalar(c: char) -> u32 {
    c as u32
}

/// A character is the one with its own scalar value.
pub proof fn lemma_char_with(c: char)
    ensures
        char_with(c as u32) == c,
{
    assert(scalar(c) == c as u32);
}

/// `char::from_u32`: the character with scalar value `v`, or `None` when `v`
/// is a surrogate or above U+10FFFF.
#[verifier::external_body]
pub fn char_from_u32(v: u32) -> (r: Option<char>)
    ensures
        r is Some <==> (v < 0xD800 || (0xE000 <= v && v <= 0x10FFFF)),
        r matches Some(c) ==> c as u32 == v,
{
    char::from_u32(v)
}

/// The characters of `s`, in order.
pub fn chars_of(s: &str) -> (out: Vec<char>)
    ensures
        out@ == s@,
{
    let mut out: Vec<char> = Vec::new();
    broadcast use vstd::string::group_string_axioms;
    for c in it: s.chars()
        invariant
            out@ == it.seq().take(it.index() as int),
    {
        out.push(c);
    }
    assert(out@ =~= s@);
    out
}

} // verus!
