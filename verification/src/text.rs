//! Text normalisation (case folding and diacritic folding with tables of
//! our own), UTF-8 decoding of queries, and the offset utilities that report
//! ranges in the caller's text.
//!
//! The default normaliser drops the diacritics of the letters of Latin-1
//! Supplement and Latin Extended-A (U+00C0 to U+017F), expands `æ`, `œ`,
//! `ß`, `ĳ`, `þ` and the ligatures U+FB00 to U+FB06, drops the combining
//! marks U+0300 to U+036F, then folds case (full case folding) in ASCII and
//! those blocks. Everything else is copied unchanged; there is no locale.
use vstd::prelude::*;
use core::ops::Range;
use crate::chars::{char_with, chars_of, lemma_char_with, push_char};
use vstd::string::StringSliceAdditionalSpecFns;

verus! {

/// First code point of the folding tables.
pub const FIRST: u32 = 0xC0;
/// Last code point of the folding tables.
pub const LAST: u32 = 0x17F;

/// Version of the normalisation algorithm, recorded in serialized indexes.
pub const ALGORITHM_VERSION: u16 = 1;
/// Unicode version (major, minor, update) the tables follow.
pub const UNICODE_VERSION: [u8; 3] = [15, 0, 0];

/// The ASCII base letters (up to two, 0 for none) of U+00C0 to U+017F.
pub const BASE: [[u8; 2]; 192] = [
    [65, 0],
    [65, 0],
    [65, 0],
    [65, 0],
    [65, 0],
    [65, 0],
    [65, 69],
    [67, 0],
    [69, 0],
    [69, 0],
    [69, 0],
    [69, 0],
    [73, 0],
    [73, 0],
    [73, 0],
    [73, 0],
    [68, 0],
    [78, 0],
    [79, 0],
    [79, 0],
    [79, 0],
    [79, 0],
    [79, 0],
    [0, 0],
    [79, 0],
    [85, 0],
    [85, 0],
    [85, 0],
    [85, 0],
    [89, 0],
    [84, 72],
    [115, 115],
    [97, 0],
    [97, 0],
    [97, 0],
    [97, 0],
    [97, 0],
    [97, 0],
    [97, 101],
    [99, 0],
    [101, 0],
    [101, 0],
    [101, 0],
    [101, 0],
    [105, 0],
    [105, 0],
    [105, 0],
    [105, 0],
    [100, 0],
    [110, 0],
    [111, 0],
    [111, 0],
    [111, 0],
    [111, 0],
    [111, 0],
    [0, 0],
    [111, 0],
    [117, 0],
    [117, 0],
    [117, 0],
    [117, 0],
    [121, 0],
    [116, 104],
    [121, 0],
    [65, 0],
    [97, 0],
    [65, 0],
    [97, 0],
    [65, 0],
    [97, 0],
    [67, 0],
    [99, 0],
    [67, 0],
    [99, 0],
    [67, 0],
    [99, 0],
    [67, 0],
    [99, 0],
    [68, 0],
    [100, 0],
    [68, 0],
    [100, 0],
    [69, 0],
    [101, 0],
    [69, 0],
    [101, 0],
    [69, 0],
    [101, 0],
    [69, 0],
    [101, 0],
    [69, 0],
    [101, 0],
    [71, 0],
    [103, 0],
    [71, 0],
    [103, 0],
    [71, 0],
    [103, 0],
    [71, 0],
    [103, 0],
    [72, 0],
    [104, 0],
    [72, 0],
    [104, 0],
    [73, 0],
    [105, 0],
    [73, 0],
    [105, 0],
    [73, 0],
    [105, 0],
    [73, 0],
    [105, 0],
    [73, 0],
    [105, 0],
    [73, 74],
    [105, 106],
    [74, 0],
    [106, 0],
    [75, 0],
    [107, 0],
    [113, 0],
    [76, 0],
    [108, 0],
    [76, 0],
    [108, 0],
    [76, 0],
    [108, 0],
    [76, 0],
    [108, 0],
    [76, 0],
    [108, 0],
    [78, 0],
    [110, 0],
    [78, 0],
    [110, 0],
    [78, 0],
    [110, 0],
    [39, 110],
    [78, 0],
    [110, 0],
    [79, 0],
    [111, 0],
    [79, 0],
    [111, 0],
    [79, 0],
    [111, 0],
    [79, 69],
    [111, 101],
    [82, 0],
    [114, 0],
    [82, 0],
    [114, 0],
    [82, 0],
    [114, 0],
    [83, 0],
    [115, 0],
    [83, 0],
    [115, 0],
    [83, 0],
    [115, 0],
    [83, 0],
    [115, 0],
    [84, 0],
    [116, 0],
    [84, 0],
    [116, 0],
    [84, 0],
    [116, 0],
    [85, 0],
    [117, 0],
    [85, 0],
    [117, 0],
    [85, 0],
    [117, 0],
    [85, 0],
    [117, 0],
    [85, 0],
    [117, 0],
    [85, 0],
    [117, 0],
    [87, 0],
    [119, 0],
    [89, 0],
    [121, 0],
    [89, 0],
    [90, 0],
    [122, 0],
    [90, 0],
    [122, 0],
    [90, 0],
    [122, 0],
    [115, 0]
];

/// The case folding of U+00C0 to U+017F (the single-character ones; U+00DF,
/// U+0130 and U+0149 fold to two characters and are handled apart).
pub const CASE_FOLD: [u16; 192] = [0xE0, 0xE1, 0xE2, 0xE3, 0xE4, 0xE5, 0xE6, 0xE7, 0xE8, 0xE9, 0xEA, 0xEB, 0xEC, 0xED, 0xEE, 0xEF, 0xF0, 0xF1, 0xF2, 0xF3, 0xF4, 0xF5, 0xF6, 0xD7, 0xF8, 0xF9, 0xFA, 0xFB, 0xFC, 0xFD, 0xFE, 0xDF, 0xE0, 0xE1, 0xE2, 0xE3, 0xE4, 0xE5, 0xE6, 0xE7, 0xE8, 0xE9, 0xEA, 0xEB, 0xEC, 0xED, 0xEE, 0xEF, 0xF0, 0xF1, 0xF2, 0xF3, 0xF4, 0xF5, 0xF6, 0xF7, 0xF8, 0xF9, 0xFA, 0xFB, 0xFC, 0xFD, 0xFE, 0xFF, 0x101, 0x101, 0x103, 0x103, 0x105, 0x105, 0x107, 0x107, 0x109, 0x109, 0x10B, 0x10B, 0x10D, 0x10D, 0x10F, 0x10F, 0x111, 0x111, 0x113, 0x113, 0x115, 0x115, 0x117, 0x117, 0x119, 0x119, 0x11B, 0x11B, 0x11D, 0x11D, 0x11F, 0x11F, 0x121, 0x121, 0x123, 0x123, 0x125, 0x125, 0x127, 0x127, 0x129, 0x129, 0x12B, 0x12B, 0x12D, 0x12D, 0x12F, 0x12F, 0x130, 0x131, 0x133, 0x133, 0x135, 0x135, 0x137, 0x137, 0x138, 0x13A, 0x13A, 0x13C, 0x13C, 0x13E, 0x13E, 0x140, 0x140, 0x142, 0x142, 0x144, 0x144, 0x146, 0x146, 0x148, 0x148, 0x149, 0x14B, 0x14B, 0x14D, 0x14D, 0x14F, 0x14F, 0x151, 0x151, 0x153, 0x153, 0x155, 0x155, 0x157, 0x157, 0x159, 0x159, 0x15B, 0x15B, 0x15D, 0x15D, 0x15F, 0x15F, 0x161, 0x161, 0x163, 0x163, 0x165, 0x165, 0x167, 0x167, 0x169, 0x169, 0x16B, 0x16B, 0x16D, 0x16D, 0x16F, 0x16F, 0x171, 0x171, 0x173, 0x173, 0x175, 0x175, 0x177, 0x177, 0xFF, 0x17A, 0x17A, 0x17C, 0x17C, 0x17E, 0x17E, 0x73];

/// The letters of a Latin ligature U+FB00 to U+FB06, or none.
pub open spec fn ligature(cp: u32) -> Seq<char> {
    if cp == 0xFB00 {
        seq!['f', 'f']
    } else if cp == 0xFB01 {
        seq!['f', 'i']
    } else if cp == 0xFB02 {
        seq!['f', 'l']
    } else if cp == 0xFB03 {
        seq!['f', 'f', 'i']
    } else if cp == 0xFB04 {
        seq!['f', 'f', 'l']
    } else if cp == 0xFB05 || cp == 0xFB06 {
        seq!['s', 't']
    } else {
        Seq::empty()
    }
}

fn ligature_exec(cp: u32) -> (r: Vec<char>)
    ensures
        r@ == ligature(cp),
{
    if cp == 0xFB00 {
        vec!['f', 'f']
    } else if cp == 0xFB01 {
        vec!['f', 'i']
    } else if cp == 0xFB02 {
        vec!['f', 'l']
    } else if cp == 0xFB03 {
        vec!['f', 'f', 'i']
    } else if cp == 0xFB04 {
        vec!['f', 'f', 'l']
    } else if cp == 0xFB05 || cp == 0xFB06 {
        vec!['s', 't']
    } else {
        Vec::new()
    }
}

/// The lowercase form of an ASCII character.
pub open spec fn ascii_lower(c: char) -> char {
    if 'A' <= c <= 'Z' { char_with((c as u32 + 32) as u32) } else { c }
}

/// Folds case and diacritics, identically for terms and queries.
#[derive(Clone, Copy, Debug, PartialEq, Eq, Hash)]
pub struct Normalizer {
    case: bool,
    diacritics: bool,
}

/// Case folding of one character (when `case` is on).
pub open spec fn fold_case(case: bool, c: char) -> Seq<char> {
    let cp = c as u32;
    if !case {
        seq![c]
    } else if cp < 0x80 {
        seq![ascii_lower(c)]
    } else if cp == 0xB5 {
        seq!['\u{3BC}']
    } else if cp == 0xDF {
        seq!['s', 's']
    } else if cp == 0x130 {
        seq!['i', '\u{307}']
    } else if cp == 0x149 {
        seq!['\u{2BC}', 'n']
    } else if FIRST <= cp <= LAST {
        seq![char_with(CASE_FOLD[(cp - FIRST) as int] as u32)]
    } else if ligature(cp).len() > 0 {
        ligature(cp)
    } else {
        seq![c]
    }
}

/// What character `c` normalises to: none, one or up to three characters.
pub open spec fn norm_char(n: Normalizer, c: char) -> Seq<char> {
    let cp = c as u32;
    if n.diacritics_spec() && 0x300 <= cp < 0x370 {
        Seq::empty()
    } else if n.diacritics_spec() && FIRST <= cp <= LAST && BASE[(cp - FIRST) as int][0] != 0 {
        let b = BASE[(cp - FIRST) as int];
        fold_case(n.case_spec(), char_with(b[0] as u32)) + if b[1] != 0 { fold_case(n.case_spec(), char_with(b[1] as u32)) } else { Seq::empty() }
    } else if n.diacritics_spec() && ligature(cp).len() > 0 {
        ligature(cp)
    } else {
        fold_case(n.case_spec(), c)
    }
}

/// The normalised form of a character sequence: its characters normalised
/// one by one.
pub open spec fn norm_str(n: Normalizer, s: Seq<char>) -> Seq<char>
    decreases s.len(),
{
    if s.len() == 0 { Seq::empty() } else { norm_str(n, s.drop_last()) + norm_char(n, s.last()) }
}

/// For each character of `norm_str(n, s)`, the index in `s` of the character
/// it came from.
pub open spec fn norm_sources(n: Normalizer, s: Seq<char>) -> Seq<usize>
    decreases s.len(),
{
    if s.len() == 0 {
        Seq::empty()
    } else {
        norm_sources(n, s.drop_last()) + Seq::new(norm_char(n, s.last()).len(), |k: int| (s.len() - 1) as usize)
    }
}

proof fn lemma_norm_sources_len(n: Normalizer, s: Seq<char>)
    ensures
        norm_sources(n, s).len() == norm_str(n, s).len(),
        forall|k: int| 0 <= k < norm_sources(n, s).len() ==> #[trigger] norm_sources(n, s)[k] < s.len(),
    decreases s.len(),
{
    if s.len() > 0 {
        lemma_norm_sources_len(n, s.drop_last());
    }
}

impl Normalizer {
    /// Whether case is folded.
    pub closed spec fn case_spec(self) -> bool {
        self.case
    }

    /// Whether diacritics are folded.
    pub closed spec fn diacritics_spec(self) -> bool {
        self.diacritics
    }

    /// The normaliser with these modes.
    pub closed spec fn of_modes(case: bool, diacritics: bool) -> Normalizer {
        Normalizer { case, diacritics }
    }

    /// A normaliser is its two modes.
    pub proof fn lemma_of_modes(n: Normalizer, case: bool, diacritics: bool)
        ensures
            Normalizer::of_modes(case, diacritics).case_spec() == case,
            Normalizer::of_modes(case, diacritics).diacritics_spec() == diacritics,
            (n.case_spec() == case && n.diacritics_spec() == diacritics) ==> n == Normalizer::of_modes(case, diacritics),
    {
    }

    /// The normaliser that changes nothing.
    pub closed spec fn plain_spec() -> Normalizer {
        Normalizer { case: false, diacritics: false }
    }

    /// The normaliser that changes nothing: no case folding, no diacritic
    /// folding.
    pub fn plain() -> (n: Self)
        ensures
            n == Normalizer::plain_spec(),
            !n.case_spec() && !n.diacritics_spec(),
    {
        Normalizer { case: false, diacritics: false }
    }

    /// Case folding and diacritic folding.
    pub fn new() -> (n: Self)
        ensures
            n.case_spec() && n.diacritics_spec(),
    {
        Normalizer { case: true, diacritics: true }
    }

    /// The same normaliser with case folding on or off.
    pub fn with_case_folding(self, on: bool) -> (n: Self)
        ensures
            n.case_spec() == on,
            n.diacritics_spec() == self.diacritics_spec(),
    {
        Normalizer { case: on, diacritics: self.diacritics }
    }

    /// The same normaliser with diacritic folding on or off.
    pub fn with_diacritic_folding(self, on: bool) -> (n: Self)
        ensures
            n.case_spec() == self.case_spec(),
            n.diacritics_spec() == on,
    {
        Normalizer { case: self.case, diacritics: on }
    }

    /// Whether case is folded.
    pub fn folds_case(self) -> (r: bool)
        ensures
            r == self.case_spec(),
    {
        self.case
    }

    /// Whether diacritics are folded.
    pub fn folds_diacritics(self) -> (r: bool)
        ensures
            r == self.diacritics_spec(),
    {
        self.diacritics
    }

    fn fold_case_exec(self, c: char, out: &mut Vec<char>)
        ensures
            final(out)@ == old(out)@ + fold_case(self.case_spec(), c),
    {
        let cp = c as u32;
        if !self.case {
            out.push(c);
        } else if cp < 0x80 {
            let l = if 'A' <= c && c <= 'Z' { ((cp + 32) as u8) as char } else { c };
            proof { lemma_char_with(l); }
            out.push(l);
        } else if cp == 0xB5 {
            out.push('\u{3BC}');
        } else if cp == 0xDF {
            out.push('s');
            out.push('s');
        } else if cp == 0x130 {
            out.push('i');
            out.push('\u{307}');
        } else if cp == 0x149 {
            out.push('\u{2BC}');
            out.push('n');
        } else if FIRST <= cp && cp <= LAST {
            let f = CASE_FOLD[(cp - FIRST) as usize];
            out.push(char_of(f));
        } else {
            let l = ligature_exec(cp);
            if l.len() > 0 {
                push_all(out, &l);
            } else {
                out.push(c);
            }
        }
    }

    /// The characters `c` normalises to (none, one or up to three), in order.
    pub fn normalize_char(self, c: char) -> (out: Vec<char>)
        ensures
            out@ == norm_char(self, c),
    {
        let mut out: Vec<char> = Vec::new();
        self.normalize_char_into(c, &mut out);
        assert(out@ =~= norm_char(self, c));
        out
    }

    fn normalize_char_into(self, c: char, out: &mut Vec<char>)
        ensures
            final(out)@ == old(out)@ + norm_char(self, c),
    {
        let cp = c as u32;
        if self.diacritics && 0x300 <= cp && cp < 0x370 {
            assert(norm_char(self, c) =~= Seq::<char>::empty());
            assert(out@ =~= old(out)@ + norm_char(self, c));
            return;
        }
        if self.diacritics && FIRST <= cp && cp <= LAST {
            let b = BASE[(cp - FIRST) as usize];
            if b[0] != 0 {
                self.fold_case_exec(ascii_char(b[0]), out);
                if b[1] != 0 {
                    self.fold_case_exec(ascii_char(b[1]), out);
                }
                assert(out@ =~= old(out)@ + norm_char(self, c));
                return;
            }
        }
        if self.diacritics {
            let l = ligature_exec(cp);
            if l.len() > 0 {
                push_all(out, &l);
                return;
            }
        }
        self.fold_case_exec(c, out);
    }

    /// The normalised form of `s`.
    pub fn normalize(&self, s: &str) -> (out: String)
        ensures
            out@ == norm_str(*self, s@),
    {
        let mut out = String::new();
        self.normalize_into(s, &mut out);
        out
    }

    /// Clears `out` and writes the normalised form of `s` into it.
    pub fn normalize_into(&self, s: &str, out: &mut String)
        ensures
            final(out)@ == norm_str(*self, s@),
    {
        let v = self.normalize_chars(s);
        let mut o = String::new();
        let mut i: usize = 0;
        while i < v.len()
            invariant
                i <= v@.len(),
                o@ == v@.take(i as int),
            decreases v@.len() - i,
        {
            push_char(&mut o, v[i]);
            assert(v@.take(i + 1) == v@.take(i as int).push(v@[i as int]));
            i = i + 1;
        }
        assert(v@.take(v@.len() as int) == v@);
        *out = o;
    }

    /// The normalised form of `s`, as characters.
    pub fn normalize_chars(&self, s: &str) -> (out: Vec<char>)
        ensures
            out@ == norm_str(*self, s@),
    {
        let cs = chars_of(s);
        let mut out: Vec<char> = Vec::new();
        let mut i: usize = 0;
        while i < cs.len()
            invariant
                i <= cs@.len(),
                cs@ == s@,
                out@ == norm_str(*self, cs@.take(i as int)),
            decreases cs@.len() - i,
        {
            assert(cs@.take(i + 1).drop_last() == cs@.take(i as int));
            self.normalize_char_into(cs[i], &mut out);
            i = i + 1;
        }
        assert(cs@.take(cs@.len() as int) == cs@);
        out
    }

    /// The normalised form of `s`, and in `map` where each of its characters
    /// came from. `map` is cleared first.
    pub fn normalize_mapped(&self, s: &str, map: &mut SourceMap) -> (out: String)
        ensures
            out@ == norm_str(*self, s@),
            final(map).sources() == norm_sources(*self, s@),
            final(map).source_count() == s@.len(),
    {
        let cs = chars_of(s);
        let mut out: Vec<char> = Vec::new();
        let mut from: Vec<usize> = Vec::new();
        let mut i: usize = 0;
        while i < cs.len()
            invariant
                i <= cs@.len(),
                cs@ == s@,
                out@ == norm_str(*self, cs@.take(i as int)),
                from@ == norm_sources(*self, cs@.take(i as int)),
            decreases cs@.len() - i,
        {
            assert(cs@.take(i + 1).drop_last() == cs@.take(i as int));
            assert(cs@.take(i + 1).last() == cs@[i as int]);
            let before = out.len();
            self.normalize_char_into(cs[i], &mut out);
            let after = out.len();
            let ghost from_before = from@;
            let mut k = before;
            while k < after
                invariant
                    before <= k <= after,
                    from@ == from_before + Seq::new((k - before) as nat, |j: int| i),
                decreases after - k,
            {
                from.push(i);
                assert(from@ =~= from_before + Seq::new((k + 1 - before) as nat, |j: int| i));
                k = k + 1;
            }
            assert(from@ =~= norm_sources(*self, cs@.take(i + 1)));
            i = i + 1;
        }
        assert(cs@.take(cs@.len() as int) == cs@);
        let mut o = String::new();
        let mut j: usize = 0;
        while j < out.len()
            invariant
                j <= out@.len(),
                o@ == out@.take(j as int),
            decreases out@.len() - j,
        {
            push_char(&mut o, out[j]);
            assert(out@.take(j + 1) == out@.take(j as int).push(out@[j as int]));
            j = j + 1;
        }
        assert(out@.take(out@.len() as int) == out@);
        proof { lemma_norm_sources_len(*self, cs@); }
        *map = SourceMap { from, source_len: cs.len() };
        o
    }
}

impl Default for Normalizer {
    fn default() -> (n: Self)
        ensures
            n.case_spec() && n.diacritics_spec(),
    {
        Normalizer::new()
    }
}

fn char_of(f: u16) -> (c: char)
    requires
        f < 0xD800,
    ensures
        c == char_with(f as u32),
{
    match crate::chars::char_from_u32(f as u32) {
        Some(c) => {
            proof { lemma_char_with(c); }
            c
        },
        None => '\0',
    }
}

fn ascii_char(b: u8) -> (c: char)
    ensures
        c == char_with(b as u32),
{
    let c = b as char;
    proof { lemma_char_with(c); }
    c
}

fn push_all(out: &mut Vec<char>, v: &Vec<char>)
    ensures
        final(out)@ == old(out)@ + v@,
{
    let mut i: usize = 0;
    while i < v.len()
        invariant
            i <= v@.len(),
            out@ == old(out)@ + v@.take(i as int),
        decreases v@.len() - i,
    {
        out.push(v[i]);
        assert(v@.take(i + 1) == v@.take(i as int).push(v@[i as int]));
        i = i + 1;
    }
    assert(v@.take(v@.len() as int) == v@);
}

/// Where each character of a normalised string came from in its source.
#[derive(Debug, PartialEq, Eq)]
pub struct SourceMap {
    from: Vec<usize>,
    source_len: usize,
}

impl Default for SourceMap {
    fn default() -> (m: Self)
        ensures
            m.sources().len() == 0,
            m.source_count() == 0,
    {
        SourceMap::new()
    }
}

/// The source range of the normalised range `a..b`, for a map with sources
/// `from` and a source of `n` characters; see [`SourceMap::to_source`].
pub open spec fn to_source_spec(from: Seq<usize>, n: nat, a: int, b: int) -> Option<(int, int)> {
    let at = |i: int| if 0 <= i < from.len() { from[i] as int } else { n as int };
    if a > b || b > from.len() {
        None
    } else if a == b {
        Some((at(a), at(a)))
    } else {
        let last = from[b - 1] as int;
        let next = at(b);
        Some((from[a] as int, if next > last { next } else { last + 1 }))
    }
}

impl SourceMap {
    /// Every source index is within the source.
    #[verifier::type_invariant]
    spec fn indices_in_source(self) -> bool {
        forall|i: int| 0 <= i < self.from@.len() ==> #[trigger] self.from@[i] < self.source_len
    }

    /// For each normalised character, the index of its source character.
    pub closed spec fn sources(&self) -> Seq<usize> {
        self.from@
    }

    /// Number of characters of the source.
    pub closed spec fn source_count(&self) -> nat {
        self.source_len as nat
    }

    /// An empty map.
    pub fn new() -> (m: Self)
        ensures
            m.sources().len() == 0,
            m.source_count() == 0,
    {
        SourceMap { from: Vec::new(), source_len: 0 }
    }

    /// Number of characters of the normalised string.
    pub fn len(&self) -> (n: usize)
        ensures
            n == self.sources().len(),
    {
        self.from.len()
    }

    /// Whether the normalised string is empty.
    pub fn is_empty(&self) -> (r: bool)
        ensures
            r == (self.sources().len() == 0),
    {
        self.from.len() == 0
    }

    /// Number of characters of the source.
    pub fn source_len(&self) -> (n: usize)
        ensures
            n == self.source_count(),
    {
        self.source_len
    }

    /// The source character that produced normalised character `i`.
    pub fn source_of(&self, i: usize) -> (r: Option<usize>)
        ensures
            r == if i < self.sources().len() { Some(self.sources()[i as int]) } else { None },
    {
        if i < self.from.len() { Some(self.from[i]) } else { None }
    }

    /// The smallest range of source characters that produced the normalised
    /// characters `range`, extended at the end over source characters that
    /// produced nothing. An empty range maps to an empty range at the
    /// matching source position; `None` if `range` is reversed or not within
    /// `0..=self.len()`.
    pub fn to_source(&self, range: Range<usize>) -> (r: Option<Range<usize>>)
        ensures
            match to_source_spec(self.sources(), self.source_count(), range.start as int, range.end as int) {
                Some((x, y)) => r matches Some(rr) && rr.start == x && rr.end == y,
                None => r is None,
            },
    {
        proof { use_type_invariant(self); }
        let (a, b) = (range.start, range.end);
        let n = self.from.len();
        if a > b || b > n {
            return None;
        }
        if a == b {
            let p = if a < n { self.from[a] } else { self.source_len };
            return Some(p..p);
        }
        let start = self.from[a];
        let last = self.from[b - 1];
        let next = if b < n { self.from[b] } else { self.source_len };
        if next > last {
            Some(start..next)
        } else {
            Some(start..last + 1)
        }
    }
}



/// Number of bytes of the UTF-8 encoding of `c`.
pub open spec fn utf8_width(c: char) -> nat {
    if (c as u32) < 0x80 {
        1
    } else if (c as u32) < 0x800 {
        2
    } else if (c as u32) < 0x10000 {
        3
    } else {
        4
    }
}

/// Number of 16-bit units of the UTF-16 encoding of `c`.
pub open spec fn utf16_width(c: char) -> nat {
    if (c as u32) < 0x10000 { 1 } else { 2 }
}

/// Number of UTF-8 bytes of a character sequence.
pub open spec fn utf8_len(cs: Seq<char>) -> nat
    decreases cs.len(),
{
    if cs.len() == 0 { 0 } else { utf8_len(cs.drop_last()) + utf8_width(cs.last()) }
}

/// Number of UTF-16 units of a character sequence.
pub open spec fn utf16_len(cs: Seq<char>) -> nat
    decreases cs.len(),
{
    if cs.len() == 0 { 0 } else { utf16_len(cs.drop_last()) + utf16_width(cs.last()) }
}

proof fn lemma_encode_concat(a: Seq<char>, b: Seq<char>)
    ensures
        vstd::utf8::encode_utf8(a + b) == vstd::utf8::encode_utf8(a) + vstd::utf8::encode_utf8(b),
    decreases a.len(),
{
    if a.len() == 0 {
        assert(a + b =~= b);
        assert(vstd::utf8::encode_utf8(a) =~= Seq::<u8>::empty());
        assert(vstd::utf8::encode_utf8(a) + vstd::utf8::encode_utf8(b) =~= vstd::utf8::encode_utf8(b));
    } else {
        assert((a + b).drop_first() =~= a.drop_first() + b);
        assert((a + b)[0] == a[0]);
        lemma_encode_concat(a.drop_first(), b);
        let e0 = vstd::utf8::encode_scalar(a[0] as u32);
        assert(e0 + (vstd::utf8::encode_utf8(a.drop_first()) + vstd::utf8::encode_utf8(b))
            =~= (e0 + vstd::utf8::encode_utf8(a.drop_first())) + vstd::utf8::encode_utf8(b));
    }
}

/// The UTF-8 encoding of a character sequence has `utf8_len` bytes.
pub proof fn lemma_utf8_len(cs: Seq<char>)
    ensures
        vstd::utf8::encode_utf8(cs).len() == utf8_len(cs),
    decreases cs.len(),
{
    if cs.len() > 0 {
        let init = cs.drop_last();
        let c = cs.last();
        lemma_utf8_len(init);
        assert(init + seq![c] =~= cs);
        lemma_encode_concat(init, seq![c]);
        assert(seq![c].drop_first() =~= Seq::<char>::empty());
        assert(vstd::utf8::encode_utf8(seq![c]) =~= vstd::utf8::encode_scalar(c as u32)
            + vstd::utf8::encode_utf8(Seq::<char>::empty()));
        assert(vstd::utf8::is_scalar(c as u32)) by {
            vstd::utf8::char_is_scalar(c);
        }
    }
}

proof fn lemma_len_prefix(cs: Seq<char>, k: int)
    requires
        0 <= k <= cs.len(),
    ensures
        utf16_len(cs.take(k)) <= utf8_len(cs.take(k)),
        utf8_len(cs.take(k)) <= utf8_len(cs),
        utf16_len(cs.take(k)) <= utf16_len(cs),
    decreases cs.len(),
{
    if k < cs.len() {
        assert(cs.drop_last().take(k) =~= cs.take(k));
        lemma_len_prefix(cs.drop_last(), k);
    } else {
        assert(cs.take(k) =~= cs);
        lemma_utf16_le_utf8(cs);
    }
}

proof fn lemma_utf16_le_utf8(cs: Seq<char>)
    ensures
        utf16_len(cs) <= utf8_len(cs),
    decreases cs.len(),
{
    if cs.len() > 0 {
        lemma_utf16_le_utf8(cs.drop_last());
    }
}

proof fn lemma_take_step(cs: Seq<char>, k: int)
    requires
        0 <= k < cs.len(),
    ensures
        utf8_len(cs.take(k + 1)) == utf8_len(cs.take(k)) + utf8_width(cs[k]),
        utf16_len(cs.take(k + 1)) == utf16_len(cs.take(k)) + utf16_width(cs[k]),
{
    assert(cs.take(k + 1).drop_last() =~= cs.take(k));
}

/// The byte offset in `s` of character index `cp`: `s.len()` for
/// `cp == s.chars().count()`, `None` beyond that.
pub fn utf8_offset(s: &str, cp: usize) -> (r: Option<usize>)
    ensures
        r == if cp <= s@.len() { Some(utf8_len(s@.take(cp as int)) as usize) } else { None::<usize> },
        r matches Some(b) ==> b == utf8_len(s@.take(cp as int)) && b <= s.spec_bytes().len(),
{
    let cs = chars_of(s);
    if cp > cs.len() {
        return None;
    }
    let bytes = s.as_bytes();
    let _n = bytes.len();
    proof {
        lemma_utf8_len(s@);
        lemma_len_prefix(s@, cp as int);
    }
    let mut i: usize = 0;
    let mut b: usize = 0;
    while i < cp
        invariant
            cs@ == s@,
            cp <= cs@.len(),
            i <= cp,
            b == utf8_len(s@.take(i as int)),
            utf8_len(s@.take(cp as int)) <= s.spec_bytes().len(),
            s.spec_bytes().len() <= usize::MAX,
        decreases cp - i,
    {
        proof {
            lemma_take_step(s@, i as int);
            lemma_len_prefix(s@.take(cp as int), i + 1);
            assert(s@.take(cp as int).take(i + 1) =~= s@.take(i + 1));
        }
        let c = cs[i];
        let w: usize = if (c as u32) < 0x80 {
            1
        } else if (c as u32) < 0x800 {
            2
        } else if (c as u32) < 0x10000 {
            3
        } else {
            4
        };
        b = b + w;
        i = i + 1;
    }
    Some(b)
}

/// The UTF-16 offset (in 16-bit units, as JavaScript counts) in `s` of
/// character index `cp`; `None` beyond the end.
pub fn utf16_offset(s: &str, cp: usize) -> (r: Option<usize>)
    ensures
        r == if cp <= s@.len() { Some(utf16_len(s@.take(cp as int)) as usize) } else { None::<usize> },
        r matches Some(u) ==> u == utf16_len(s@.take(cp as int)),
{
    let cs = chars_of(s);
    if cp > cs.len() {
        return None;
    }
    let bytes = s.as_bytes();
    let _n = bytes.len();
    proof {
        lemma_utf8_len(s@);
        lemma_len_prefix(s@, cp as int);
    }
    let mut i: usize = 0;
    let mut u: usize = 0;
    while i < cp
        invariant
            cs@ == s@,
            cp <= cs@.len(),
            i <= cp,
            u == utf16_len(s@.take(i as int)),
            utf16_len(s@.take(cp as int)) <= usize::MAX,
        decreases cp - i,
    {
        proof {
            lemma_take_step(s@, i as int);
            lemma_len_prefix(s@.take(cp as int), i + 1);
            assert(s@.take(cp as int).take(i + 1) =~= s@.take(i + 1));
        }
        let c = cs[i];
        let w: usize = if (c as u32) < 0x10000 { 1 } else { 2 };
        u = u + w;
        i = i + 1;
    }
    Some(u)
}

/// A range of characters of `s` as a range of bytes; `None` if it is not
/// within `s` or is reversed.
pub fn utf8_range(s: &str, range: Range<usize>) -> (r: Option<Range<usize>>)
    ensures
        r is Some <==> range.start <= range.end <= s@.len(),
        r matches Some(rr) ==> rr.start == utf8_len(s@.take(range.start as int))
            && rr.end == utf8_len(s@.take(range.end as int)),
{
    if range.start > range.end {
        return None;
    }
    let a = match utf8_offset(s, range.start) {
        Some(a) => a,
        None => return None,
    };
    let b = match utf8_offset(s, range.end) {
        Some(b) => b,
        None => return None,
    };
    Some(a..b)
}

/// A range of characters of `s` as a range of UTF-16 units; `None` if it is
/// not within `s` or is reversed.
pub fn utf16_range(s: &str, range: Range<usize>) -> (r: Option<Range<usize>>)
    ensures
        r is Some <==> range.start <= range.end <= s@.len(),
        r matches Some(rr) ==> rr.start == utf16_len(s@.take(range.start as int))
            && rr.end == utf16_len(s@.take(range.end as int)),
{
    if range.start > range.end {
        return None;
    }
    let a = match utf16_offset(s, range.start) {
        Some(a) => a,
        None => return None,
    };
    let b = match utf16_offset(s, range.end) {
        Some(b) => b,
        None => return None,
    };
    Some(a..b)
}


/// The symbol that stands for a byte that is not part of valid UTF-8: a
/// value above every scalar value, so it matches no term.
pub open spec fn stray_symbol(b: u8) -> u32 {
    (0x110000 + b) as u32
}

/// The symbols of `b`: the scalar value of each well-formed UTF-8 sequence,
/// and [`stray_symbol`] for each byte that does not start one.
pub open spec fn decode_syms(b: Seq<u8>) -> Seq<u32>
    decreases b.len(),
{
    if b.len() == 0 {
        Seq::empty()
    } else if vstd::utf8::valid_first_scalar(b) && 1 <= vstd::utf8::length_of_first_scalar(b) <= b.len() {
        seq![vstd::utf8::decode_first_scalar(b)] + decode_syms(b.skip(vstd::utf8::length_of_first_scalar(b)))
    } else {
        seq![stray_symbol(b[0])] + decode_syms(b.skip(1))
    }
}

/// The scalar value and the length of the well-formed UTF-8 sequence that
/// starts `b[p..]`, if one does.
pub(crate) fn first_scalar(b: &[u8], p: usize) -> (r: Option<(u32, usize)>)
    requires
        p < b.len(),
    ensures
        match r {
            Some((cp, len)) => {
                &&& vstd::utf8::valid_first_scalar(b@.skip(p as int))
                &&& cp == vstd::utf8::decode_first_scalar(b@.skip(p as int))
                &&& len == vstd::utf8::length_of_first_scalar(b@.skip(p as int))
                &&& 1 <= len <= b.len() - p
            },
            None => !vstd::utf8::valid_first_scalar(b@.skip(p as int)),
        },
{
    let ghost s = b@.skip(p as int);
    let n = b.len() - p;
    let b0 = b[p];
    assert(s[0] == b0);
    if b0 <= 0x7f {
        let cp = (b0 & 0x7F) as u32;
        return Some((cp, 1));
    }
    if 0xc0 <= b0 && b0 <= 0xdf {
        if n < 2 {
            return None;
        }
        let b1 = b[p + 1];
        assert(s[1] == b1);
        if !(0x80 <= b1 && b1 <= 0xbf) {
            return None;
        }
        let cp = (((b0 & 0x1F) as u32) << 6) | ((b1 & 0x3f) as u32);
        assert(cp <= 0x7FF) by (bit_vector)
            requires cp == (((b0 & 0x1F) as u32) << 6) | ((b1 & 0x3f) as u32);
        if cp < 0x80 {
            return None;
        }
        return Some((cp, 2));
    }
    if 0xe0 <= b0 && b0 <= 0xef {
        if n < 3 {
            return None;
        }
        let b1 = b[p + 1];
        let b2 = b[p + 2];
        assert(s[1] == b1 && s[2] == b2);
        if !(0x80 <= b1 && b1 <= 0xbf) || !(0x80 <= b2 && b2 <= 0xbf) {
            return None;
        }
        let cp = (((b0 & 0x0F) as u32) << 12) | (((b1 & 0x3f) as u32) << 6) | ((b2 & 0x3f) as u32);
        if cp < 0x800 || (0xD800 <= cp && cp <= 0xDFFF) {
            return None;
        }
        return Some((cp, 3));
    }
    if 0xf0 <= b0 && b0 <= 0xf7 {
        if n < 4 {
            return None;
        }
        let b1 = b[p + 1];
        let b2 = b[p + 2];
        let b3 = b[p + 3];
        assert(s[1] == b1 && s[2] == b2 && s[3] == b3);
        if !(0x80 <= b1 && b1 <= 0xbf) || !(0x80 <= b2 && b2 <= 0xbf) || !(0x80 <= b3 && b3 <= 0xbf) {
            return None;
        }
        let cp = (((b0 & 0x07) as u32) << 18) | (((b1 & 0x3f) as u32) << 12) | (((b2 & 0x3f) as u32) << 6)
            | ((b3 & 0x3f) as u32);
        if cp < 0x10000 || cp > 0x10ffff || (0xD800 <= cp && cp <= 0xDFFF) {
            return None;
        }
        return Some((cp, 4));
    }
    None
}

/// The symbols of the bytes `q`: each well-formed UTF-8 sequence is its
/// scalar value, and each byte that is not part of one is a symbol of its
/// own ([`stray_symbol`]) that matches no term.
pub fn decode(q: &[u8]) -> (out: Vec<u32>)
    ensures
        out@ == decode_syms(q@),
{
    let mut out: Vec<u32> = Vec::new();
    let mut p: usize = 0;
    assert(q@.skip(0) =~= q@);
    assert(out@ + decode_syms(q@) =~= decode_syms(q@));
    while p < q.len()
        invariant
            p <= q.len(),
            out@ + decode_syms(q@.skip(p as int)) == decode_syms(q@),
        decreases q.len() - p,
    {
        let ghost s = q@.skip(p as int);
        match first_scalar(q, p) {
            Some((cp, len)) => {
                proof {
                    assert(s.skip(len as int) =~= q@.skip(p + len));
                    assert(decode_syms(s) == seq![cp] + decode_syms(q@.skip(p + len)));
                    assert((out@.push(cp)) + decode_syms(q@.skip(p + len)) =~= out@ + decode_syms(s));
                }
                out.push(cp);
                p = p + len;
            },
            None => {
                let b = q[p];
                proof {
                    assert(s[0] == b);
                    assert(s.skip(1) =~= q@.skip(p + 1));
                    assert(decode_syms(s) == seq![stray_symbol(b)] + decode_syms(q@.skip(p + 1)));
                    assert((out@.push(stray_symbol(b))) + decode_syms(q@.skip(p + 1)) =~= out@ + decode_syms(s));
                }
                out.push(0x110000 + b as u32);
                p = p + 1;
            },
        }
    }
    proof {
        assert(q@.skip(q.len() as int) =~= Seq::<u8>::empty());
        assert(out@ + Seq::<u32>::empty() =~= out@);
    }
    out
}

/// Whether `s` is its own normal form under `n`.
pub fn is_normalized(n: &Normalizer, s: &str) -> (r: bool)
    ensures
        r == (norm_str(*n, s@) == s@),
{
    let t = n.normalize_chars(s);
    let c = chars_of(s);
    if t.len() != c.len() {
        assert(t@ != c@);
        return false;
    }
    let mut i: usize = 0;
    while i < t.len()
        invariant
            t.len() == c.len(),
            i <= t.len(),
            t@ == norm_str(*n, s@),
            c@ == s@,
            t@.take(i as int) == c@.take(i as int),
        decreases t.len() - i,
    {
        if t[i] != c[i] {
            assert(t@[i as int] != c@[i as int]);
            return false;
        }
        assert(t@.take(i + 1) =~= t@.take(i as int).push(t@[i as int]));
        assert(c@.take(i + 1) =~= c@.take(i as int).push(c@[i as int]));
        i = i + 1;
    }
    assert(t@ =~= t@.take(i as int));
    assert(c@ =~= c@.take(i as int));
    true
}

} // verus!
