//! Accent stripping: common accented Latin letters map to their ASCII base
//! letter, keeping case; `ß` becomes "ss".
use vstd::prelude::*;
use crate::chars::{chars_of, push_char};

verus! {

/// The base letter of an accented character; every other character is kept.
pub open spec fn base_char(c: char) -> char {
    match c {
        '\u{C0}' | '\u{C1}' | '\u{C2}' | '\u{C3}' | '\u{C4}' | '\u{C5}' => 'A',
        '\u{E0}' | '\u{E1}' | '\u{E2}' | '\u{E3}' | '\u{E4}' | '\u{E5}' => 'a',
        '\u{C8}' | '\u{C9}' | '\u{CA}' | '\u{CB}' => 'E',
        '\u{E8}' | '\u{E9}' | '\u{EA}' | '\u{EB}' => 'e',
        '\u{CC}' | '\u{CD}' | '\u{CE}' | '\u{CF}' => 'I',
        '\u{EC}' | '\u{ED}' | '\u{EE}' | '\u{EF}' => 'i',
        '\u{D2}' | '\u{D3}' | '\u{D4}' | '\u{D5}' | '\u{D6}' => 'O',
        '\u{F2}' | '\u{F3}' | '\u{F4}' | '\u{F5}' | '\u{F6}' => 'o',
        '\u{D9}' | '\u{DA}' | '\u{DB}' | '\u{DC}' => 'U',
        '\u{F9}' | '\u{FA}' | '\u{FB}' | '\u{FC}' => 'u',
        '\u{D1}' => 'N',
        '\u{F1}' => 'n',
        '\u{C7}' => 'C',
        '\u{E7}' => 'c',
        '\u{178}' | '\u{DD}' => 'Y',
        '\u{FF}' | '\u{FD}' => 'y',
        '\u{D0}' => 'D',
        '\u{F0}' => 'd',
        '\u{DE}' => 'T',
        '\u{FE}' => 't',
        '\u{DF}' => 's',
        '\u{D8}' => 'O',
        '\u{F8}' => 'o',
        '\u{C6}' => 'A',
        '\u{E6}' => 'a',
        '\u{152}' => 'O',
        '\u{153}' => 'o',
        '\u{141}' => 'L',
        '\u{142}' => 'l',
        '\u{17D}' => 'Z',
        '\u{17E}' => 'z',
        '\u{160}' => 'S',
        '\u{161}' => 's',
        '\u{10C}' => 'C',
        '\u{10D}' => 'c',
        '\u{158}' => 'R',
        '\u{159}' => 'r',
        '\u{179}' | '\u{17B}' => 'Z',
        '\u{17A}' | '\u{17C}' => 'z',
        '\u{106}' => 'C',
        '\u{107}' => 'c',
        '\u{143}' => 'N',
        '\u{144}' => 'n',
        '\u{104}' => 'A',
        '\u{105}' => 'a',
        '\u{118}' => 'E',
        '\u{119}' => 'e',
        '\u{11E}' => 'G',
        '\u{11F}' => 'g',
        '\u{130}' => 'I',
        '\u{131}' => 'i',
        '\u{15E}' => 'S',
        '\u{15F}' => 's',
        _ => c,
    }
}

/// What one input character becomes.
pub open spec fn stripped_char(c: char) -> Seq<char> {
    if c == '\u{DF}' { seq!['s', 's'] } else { seq![base_char(c)] }
}

/// The stripped form of a character sequence.
pub open spec fn stripped(s: Seq<char>) -> Seq<char>
    decreases s.len(),
{
    if s.len() == 0 { Seq::empty() } else { stripped(s.drop_last()) + stripped_char(s.last()) }
}

fn normalize_char(c: char) -> (r: char)
    ensures
        r == base_char(c),
{
    match c {
        '\u{C0}' | '\u{C1}' | '\u{C2}' | '\u{C3}' | '\u{C4}' | '\u{C5}' => 'A',
        '\u{E0}' | '\u{E1}' | '\u{E2}' | '\u{E3}' | '\u{E4}' | '\u{E5}' => 'a',
        '\u{C8}' | '\u{C9}' | '\u{CA}' | '\u{CB}' => 'E',
        '\u{E8}' | '\u{E9}' | '\u{EA}' | '\u{EB}' => 'e',
        '\u{CC}' | '\u{CD}' | '\u{CE}' | '\u{CF}' => 'I',
        '\u{EC}' | '\u{ED}' | '\u{EE}' | '\u{EF}' => 'i',
        '\u{D2}' | '\u{D3}' | '\u{D4}' | '\u{D5}' | '\u{D6}' => 'O',
        '\u{F2}' | '\u{F3}' | '\u{F4}' | '\u{F5}' | '\u{F6}' => 'o',
        '\u{D9}' | '\u{DA}' | '\u{DB}' | '\u{DC}' => 'U',
        '\u{F9}' | '\u{FA}' | '\u{FB}' | '\u{FC}' => 'u',
        '\u{D1}' => 'N',
        '\u{F1}' => 'n',
        '\u{C7}' => 'C',
        '\u{E7}' => 'c',
        '\u{178}' | '\u{DD}' => 'Y',
        '\u{FF}' | '\u{FD}' => 'y',
        '\u{D0}' => 'D',
        '\u{F0}' => 'd',
        '\u{DE}' => 'T',
        '\u{FE}' => 't',
        '\u{DF}' => 's',
        '\u{D8}' => 'O',
        '\u{F8}' => 'o',
        '\u{C6}' => 'A',
        '\u{E6}' => 'a',
        '\u{152}' => 'O',
        '\u{153}' => 'o',
        '\u{141}' => 'L',
        '\u{142}' => 'l',
        '\u{17D}' => 'Z',
        '\u{17E}' => 'z',
        '\u{160}' => 'S',
        '\u{161}' => 's',
        '\u{10C}' => 'C',
        '\u{10D}' => 'c',
        '\u{158}' => 'R',
        '\u{159}' => 'r',
        '\u{179}' | '\u{17B}' => 'Z',
        '\u{17A}' | '\u{17C}' => 'z',
        '\u{106}' => 'C',
        '\u{107}' => 'c',
        '\u{143}' => 'N',
        '\u{144}' => 'n',
        '\u{104}' => 'A',
        '\u{105}' => 'a',
        '\u{118}' => 'E',
        '\u{119}' => 'e',
        '\u{11E}' => 'G',
        '\u{11F}' => 'g',
        '\u{130}' => 'I',
        '\u{131}' => 'i',
        '\u{15E}' => 'S',
        '\u{15F}' => 's',
        _ => c,
    }
}

/// The accented Latin letters the table covers: the letters of U+00C0 to
/// U+00FF (all but the signs U+00D7 and U+00F7), and the listed letters of
/// Latin Extended-A.
pub open spec fn covered(c: char) -> bool {
    let x = c as u32;
    ||| (0xC0 <= x <= 0xFF && x != 0xD7 && x != 0xF7)
    ||| x == 0x104 || x == 0x105 || x == 0x106 || x == 0x107 || x == 0x10C || x == 0x10D
    ||| x == 0x118 || x == 0x119 || x == 0x11E || x == 0x11F || x == 0x130 || x == 0x131
    ||| x == 0x141 || x == 0x142 || x == 0x143 || x == 0x144 || x == 0x152 || x == 0x153
    ||| x == 0x158 || x == 0x159 || x == 0x15E || x == 0x15F || x == 0x160 || x == 0x161
    ||| 0x178 <= x <= 0x17E
}

/// An ASCII letter.
pub open spec fn ascii_letter(c: char) -> bool {
    ('A' <= c <= 'Z') || ('a' <= c <= 'z')
}

/// The upper and lower case forms of a covered letter outside U+00C0 to
/// U+00FF: `u` and `l` are the two cases of one letter.
pub open spec fn extended_pair(u: u32, l: u32) -> bool {
    ||| (l == u + 1 && (u == 0x104 || u == 0x106 || u == 0x10C || u == 0x118 || u == 0x11E || u == 0x130
            || u == 0x141 || u == 0x143 || u == 0x152 || u == 0x158 || u == 0x15E || u == 0x160 || u == 0x179
            || u == 0x17B || u == 0x17D))
    ||| (u == 0x178 && l == 0xFF)
}

/// Stripping turns every covered letter into an ASCII letter and keeps
/// every other character.
pub proof fn lemma_base_char_ascii(c: char)
    ensures
        covered(c) ==> ascii_letter(base_char(c)),
        !covered(c) ==> base_char(c) == c,
{
}

/// Stripping keeps case: an upper case letter of U+00C0 to U+00DE (or of a
/// listed extended pair) becomes an ASCII upper case letter, and its lower
/// case form (32 further on, or the listed partner) becomes the same letter
/// in lower case.
pub proof fn lemma_base_char_case(u: char, l: char)
    requires
        (0xC0 <= u as u32 <= 0xDE && u as u32 != 0xD7 && l as u32 == u as u32 + 0x20)
            || extended_pair(u as u32, l as u32),
    ensures
        'A' <= base_char(u) <= 'Z',
        base_char(l) as u32 == base_char(u) as u32 + 32,
{
}

/// The base letters of U+00C0 to U+00DE by column: A for U+00C0 to U+00C6,
/// C for U+00C7, E for U+00C8 to U+00CB, I for U+00CC to U+00CF, D, N,
/// O for U+00D2 to U+00D6 and U+00D8, U for U+00D9 to U+00DC, Y and T; the
/// lower case letters 32 further on get the same letters in lower case.
pub proof fn lemma_latin1_bases(c: char)
    requires
        0xC0 <= c as u32 <= 0xDE,
        c as u32 != 0xD7,
    ensures
        base_char(c) == (if c as u32 <= 0xC6 { 'A' } else if c as u32 == 0xC7 { 'C' } else if c as u32 <= 0xCB { 'E' }
            else if c as u32 <= 0xCF { 'I' } else if c as u32 == 0xD0 { 'D' } else if c as u32 == 0xD1 { 'N' }
            else if c as u32 <= 0xD8 { 'O' } else if c as u32 <= 0xDC { 'U' } else if c as u32 == 0xDD { 'Y' }
            else { 'T' }),
{
}

/// A text of ASCII characters and covered letters strips to ASCII.
pub proof fn lemma_stripped_ascii(s: Seq<char>)
    requires
        forall|i: int| 0 <= i < s.len() ==> (#[trigger] s[i] as u32) < 0x80 || covered(s[i]),
    ensures
        forall|i: int| 0 <= i < stripped(s).len() ==> (#[trigger] stripped(s)[i] as u32) < 0x80,
    decreases s.len(),
{
    if s.len() > 0 {
        let p = s.drop_last();
        assert forall|i: int| 0 <= i < p.len() implies (#[trigger] p[i] as u32) < 0x80 || covered(p[i]) by {
            assert(p[i] == s[i]);
        }
        lemma_stripped_ascii(p);
        let c = s.last();
        assert((c as u32) < 0x80 || covered(c));
        lemma_base_char_ascii(c);
        let tail = stripped_char(c);
        assert forall|i: int| 0 <= i < stripped(s).len() implies (#[trigger] stripped(s)[i] as u32) < 0x80 by {
            if i < stripped(p).len() {
                assert(stripped(s)[i] == stripped(p)[i]);
            } else {
                assert(stripped(s)[i] == tail[i - stripped(p).len()]);
            }
        }
    }
}

/// Strips diacritics: accented letters become their ASCII base letter of the
/// same case, `ß` becomes "ss", everything else is copied.
pub fn strip_diacritics(input: &str) -> (out: String)
    ensures
        out@ == stripped(input@),
{
    let cs = chars_of(input);
    let mut out = String::new();
    let mut i: usize = 0;
    while i < cs.len()
        invariant
            i <= cs@.len(),
            cs@ == input@,
            out@ == stripped(cs@.take(i as int)),
        decreases cs@.len() - i,
    {
        let c = cs[i];
        assert(cs@.take(i + 1).drop_last() == cs@.take(i as int));
        if c == '\u{DF}' {
            push_char(&mut out, 's');
            push_char(&mut out, 's');
        } else {
            push_char(&mut out, normalize_char(c));
        }
        assert(out@ =~= stripped(cs@.take(i + 1)));
        i = i + 1;
    }
    assert(cs@.take(cs@.len() as int) == cs@);
    out
}

} // verus!
