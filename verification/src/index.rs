//! The binary index format: a versioned, checksummed, little-endian image of
//! a trie, its writer, and a validated view that can be searched.
//!
//! An index is a 64-byte header, a table of eleven 24-byte section entries,
//! and eleven sections, each starting at a multiple of 8 and padded with
//! zeros: the node labels, the child offsets, the term ids, the shortest and
//! longest term lengths, the largest weights and the class masks per node,
//! then the weights, the input indices and the text offsets per term, and
//! the text pool. The CRC-32 of the whole image (with its own field read as
//! zero) is stored in the header.
use vstd::prelude::*;
use vstd::string::StringSliceAdditionalSpecFns;
use vstd::utf8::encode_utf8;
use core::ops::Range;
use crate::cost::CostModel;
use crate::search::{finds_prefix, finds_query, hits_term, within_budget, hit_ok, holds_prefix, holds_query, prefix_hit_ok, search_outcome, text_syms, Hit, Output, SearchConfig, SearchError, Searcher};
use crate::text::{decode_syms, Normalizer};
use crate::trie::{structure_ok, str_syms, Trie, NO_TERM};
use vstd::set_lib::{set_int_range, lemma_int_range, lemma_map_size, lemma_len_subset};
use vstd::relations::injective_on;

verus! {

/// The first eight bytes of every index: `"KHINDEX\0"`.
pub const MAGIC: [u8; 8] = [0x4Bu8, 0x48u8, 0x49u8, 0x4Eu8, 0x44u8, 0x45u8, 0x58u8, 0x00u8];
/// The format version written and read.
pub const VERSION: u16 = 1;
/// The layout profile written and read.
pub const PROFILE: u16 = 1;
/// Length of the header.
pub const HEADER_LEN: usize = 64;
/// Length of a section table entry.
pub const ENTRY_LEN: usize = 24;
/// Number of sections.
pub const SECTIONS: usize = 11;
/// End of the section table, where the first section starts.
pub const TABLE_END: usize = 328;
/// Offset of the CRC field, read as zero while the CRC is computed.
pub const CRC_AT: usize = 24;
/// Header flag: a normaliser is recorded.
pub const FLAG_NORMALIZER: u32 = 1;
/// Normaliser mode bit: case folding.
pub const MODE_CASE: u8 = 1;
/// Normaliser mode bit: diacritic folding.
pub const MODE_DIACRITICS: u8 = 2;
/// Longest term, in bytes.
pub const MAX_TERM_BYTES: usize = 65535;

/// Why an index could not be written or loaded. The checks run in a fixed
/// order and the first failure is returned; `node` and `term` fields name
/// the offending node or term id.
#[derive(Clone, Copy, Debug, PartialEq, Eq)]
#[non_exhaustive]
pub enum FormatError {
    /// The input is shorter than the 64-byte header.
    TooShort { len: usize },
    /// The input does not start with [`MAGIC`].
    BadMagic,
    /// The format version is not [`VERSION`].
    UnsupportedVersion { found: u16 },
    /// The profile id is not [`PROFILE`].
    UnknownProfile { found: u16 },
    /// Flag bits this version does not define are set.
    UnknownFlags { flags: u32 },
    /// The length in the header differs from the length of the input.
    LengthMismatch { declared: u64, actual: usize },
    /// The CRC-32 does not match the contents.
    ChecksumMismatch { stored: u32, computed: u32 },
    /// A reserved header field or a padding byte is not zero.
    NonZeroReserved { offset: usize },
    /// The normaliser mode byte has bits other than case and diacritics.
    BadNormalizer { modes: u8 },
    /// The index was built with another version of the normaliser.
    NormalizerMismatch { algorithm: u16, unicode: [u8; 3] },
    /// The section count is not the one of this version.
    SectionCount { found: u32 },
    /// The node, term or pool counts are impossible or disagree with the
    /// length.
    BadCounts,
    /// A section table entry differs from the layout the counts imply.
    BadSectionTable { section: u32 },
    /// The child ranges are not contiguous, breadth first, after their
    /// parent and at most 65535 long.
    BadChildren { node: u32 },
    /// A node is deeper than 65535.
    TooDeep { node: u32 },
    /// A label is not a Unicode scalar value, the root's is not 0, or the
    /// labels of siblings are not strictly increasing.
    BadLabel { node: u32 },
    /// A term id is out of range, on the root, or missing on a leaf.
    BadTermId { node: u32 },
    /// The number of nodes with a term differs from the term count.
    TerminalCount { found: u32, expected: u32 },
    /// A stored `len_min` or `len_max` differs from the recomputed value.
    BadLenBounds { node: u32 },
    /// A stored `below_mask` differs from the recomputed value.
    BadBelowMask { node: u32 },
    /// A stored `max_weight` differs from the recomputed value.
    BadMaxWeight { node: u32 },
    /// The term offsets are not increasing from 0 to the pool length, or a
    /// term is empty or longer than 65535 bytes.
    BadTermOffsets { term: u32 },
    /// A term is not valid UTF-8.
    InvalidUtf8 { term: u32 },
    /// A term is not strictly after the previous one in byte order.
    TermsNotSorted { term: u32 },
    /// A term's path does not lead to a node with its id.
    TermNotInTrie { term: u32 },
    /// A term is not in the normal form of the recorded normaliser.
    TermNotNormalized { term: u32 },
    /// An input index is `u32::MAX`.
    BadInputIndex { term: u32 },
    /// The trie exceeds the limits of the format (writing only).
    TooLarge,
}

impl FormatError {
    /// A human-readable description of the error.
    pub fn message(&self) -> (s: String) {
        match self {
            FormatError::TooShort { .. } => "index is shorter than its header".to_string(),
            FormatError::BadMagic => "not a keyhammer index (bad magic)".to_string(),
            FormatError::UnsupportedVersion { .. } => "index format version is not supported".to_string(),
            FormatError::UnknownProfile { .. } => "unknown index profile".to_string(),
            FormatError::UnknownFlags { .. } => "unknown index flags".to_string(),
            FormatError::LengthMismatch { .. } => "index length differs from its header".to_string(),
            FormatError::ChecksumMismatch { .. } => "index checksum does not match".to_string(),
            FormatError::NonZeroReserved { .. } => "reserved or padding byte is not zero".to_string(),
            FormatError::BadNormalizer { .. } => "unknown normaliser modes".to_string(),
            FormatError::NormalizerMismatch { .. } => "index was built with another normaliser version; rebuild the index".to_string(),
            FormatError::SectionCount { .. } => "index has the wrong number of sections".to_string(),
            FormatError::BadCounts => "index node, term or text counts are invalid".to_string(),
            FormatError::BadSectionTable { .. } => "section table entry is invalid".to_string(),
            FormatError::BadChildren { .. } => "invalid child range".to_string(),
            FormatError::TooDeep { .. } => "node is deeper than 65535".to_string(),
            FormatError::BadLabel { .. } => "invalid label".to_string(),
            FormatError::BadTermId { .. } => "invalid term id".to_string(),
            FormatError::TerminalCount { .. } => "wrong number of nodes carrying a term".to_string(),
            FormatError::BadLenBounds { .. } => "wrong length bounds".to_string(),
            FormatError::BadBelowMask { .. } => "wrong symbol-class mask".to_string(),
            FormatError::BadMaxWeight { .. } => "wrong maximum weight".to_string(),
            FormatError::BadTermOffsets { .. } => "invalid text offsets".to_string(),
            FormatError::InvalidUtf8 { .. } => "term is not valid UTF-8".to_string(),
            FormatError::TermsNotSorted { .. } => "term is out of order".to_string(),
            FormatError::TermNotInTrie { .. } => "term does not match the trie".to_string(),
            FormatError::TermNotNormalized { .. } => "term is not normalised".to_string(),
            FormatError::BadInputIndex { .. } => "invalid input index".to_string(),
            FormatError::TooLarge => "the trie exceeds the limits of the index format".to_string(),
        }
    }
}

// ---------------------------------------------------------------------------
// Little-endian fields.

/// `256^k`.
pub open spec fn pow256(k: nat) -> nat
    decreases k,
{
    if k == 0 { 1 } else { 256 * pow256((k - 1) as nat) }
}

/// The `k`-byte little-endian number at `b[off..off + k]`.
pub open spec fn le(b: Seq<u8>, off: int, k: nat) -> nat
    decreases k,
{
    if k == 0 { 0 } else { b[off] as nat + 256 * le(b, off + 1, (k - 1) as nat) }
}

/// The `k` little-endian bytes of `v` (its low `8k` bits).
pub open spec fn le_bytes(v: nat, k: nat) -> Seq<u8>
    decreases k,
{
    if k == 0 { seq![] } else { seq![(v % 256) as u8] + le_bytes(v / 256, (k - 1) as nat) }
}

/// `le_bytes` has `k` bytes.
pub proof fn lemma_le_bytes_len(v: nat, k: nat)
    ensures
        le_bytes(v, k).len() == k,
    decreases k,
{
    if k > 0 {
        lemma_le_bytes_len(v / 256, (k - 1) as nat);
    }
}

/// A field reads the same wherever its bytes are.
pub proof fn lemma_le_frame(a: Seq<u8>, oa: int, b: Seq<u8>, ob: int, k: nat)
    requires
        0 <= oa,
        oa + k <= a.len(),
        0 <= ob,
        ob + k <= b.len(),
        a.subrange(oa, oa + k) == b.subrange(ob, ob + k),
    ensures
        le(a, oa, k) == le(b, ob, k),
    decreases k,
{
    if k > 0 {
        assert(a[oa] == a.subrange(oa, oa + k)[0]);
        assert(b[ob] == b.subrange(ob, ob + k)[0]);
        assert(a.subrange(oa + 1, oa + k) =~= a.subrange(oa, oa + k).subrange(1, k as int));
        assert(b.subrange(ob + 1, ob + k) =~= b.subrange(ob, ob + k).subrange(1, k as int));
        lemma_le_frame(a, oa + 1, b, ob + 1, (k - 1) as nat);
    }
}

/// A field is below `256^k`.
pub proof fn lemma_le_bound(b: Seq<u8>, off: int, k: nat)
    requires
        0 <= off,
        off + k <= b.len(),
    ensures
        le(b, off, k) < pow256(k),
    decreases k,
{
    if k > 0 {
        lemma_le_bound(b, off + 1, (k - 1) as nat);
    }
}

/// Writing a value then reading it back gives the value (law of the
/// field encoding): the `k` little-endian bytes of `v < 256^k` read as `v`.
pub proof fn lemma_le_round_trip(v: nat, k: nat)
    requires
        v < pow256(k),
    ensures
        le(le_bytes(v, k), 0, k) == v,
    decreases k,
{
    lemma_le_bytes_len(v, k);
    if k > 0 {
        let rest = le_bytes(v / 256, (k - 1) as nat);
        lemma_le_bytes_len(v / 256, (k - 1) as nat);
        assert(v / 256 < pow256((k - 1) as nat));
        lemma_le_round_trip(v / 256, (k - 1) as nat);
        let s = le_bytes(v, k);
        assert(s == seq![(v % 256) as u8] + rest);
        assert(s.subrange(1, k as int) =~= rest.subrange(0, k - 1));
        lemma_le_frame(s, 1, rest, 0, (k - 1) as nat);
    }
}

/// Reading a field then writing it back gives its bytes (law of the field
/// encoding).
pub proof fn lemma_le_bytes_of_field(b: Seq<u8>, off: int, k: nat)
    requires
        0 <= off,
        off + k <= b.len(),
    ensures
        le_bytes(le(b, off, k), k) == b.subrange(off, off + k),
    decreases k,
{
    if k > 0 {
        lemma_le_bytes_of_field(b, off + 1, (k - 1) as nat);
        let x = le(b, off + 1, (k - 1) as nat);
        let v = le(b, off, k);
        assert(v == b[off] as nat + 256 * x);
        assert(v % 256 == b[off] as nat);
        assert(v / 256 == x);
        assert(le_bytes(v, k) =~= b.subrange(off, off + k));
    }
}

/// Reads the `u16` at byte offset `off`.
pub fn at_u16(s: &[u8], off: usize) -> (r: u16)
    requires
        off + 2 <= s.len(),
    ensures
        r == le(s@, off as int, 2),
{
    proof {
        reveal_with_fuel(le, 3);
    }
    (s[off] as u16) + (s[off + 1] as u16) * 256
}

/// Reads the `u32` at byte offset `off`.
pub fn at_u32(s: &[u8], off: usize) -> (r: u32)
    requires
        off + 4 <= s.len(),
    ensures
        r == le(s@, off as int, 4),
{
    proof {
        reveal_with_fuel(le, 5);
    }
    (s[off] as u32) + (s[off + 1] as u32) * 256 + (s[off + 2] as u32) * 65536 + (s[off + 3] as u32) * 16777216
}

/// Reads the `u64` at byte offset `off`.
pub fn at_u64(s: &[u8], off: usize) -> (r: u64)
    requires
        off + 8 <= s.len(),
    ensures
        r == le(s@, off as int, 8),
{
    let lo = at_u32(s, off) as u64;
    let hi = at_u32(s, off + 4) as u64;
    proof {
        reveal_with_fuel(le, 9);
        assert(le(s@, off as int, 8) == le(s@, off as int, 4) + 0x1_0000_0000 * le(s@, off + 4, 4));
    }
    lo + hi * 0x1_0000_0000
}

/// Appends the two little-endian bytes of `v`.
pub fn put_u16(out: &mut Vec<u8>, v: u16)
    ensures
        final(out)@ == old(out)@ + le_bytes(v as nat, 2),
{
    proof {
        reveal_with_fuel(le_bytes, 3);
    }
    let x1 = v / 256;
    out.push((v % 256) as u8);
    out.push((x1 % 256) as u8);
    assert(final(out)@ =~= old(out)@ + le_bytes(v as nat, 2));
}

/// Appends the four little-endian bytes of `v`.
pub fn put_u32(out: &mut Vec<u8>, v: u32)
    ensures
        final(out)@ == old(out)@ + le_bytes(v as nat, 4),
{
    proof {
        reveal_with_fuel(le_bytes, 5);
    }
    let x1 = v / 256;
    let x2 = x1 / 256;
    let x3 = x2 / 256;
    out.push((v % 256) as u8);
    out.push((x1 % 256) as u8);
    out.push((x2 % 256) as u8);
    out.push((x3 % 256) as u8);
    assert(final(out)@ =~= old(out)@ + le_bytes(v as nat, 4));
}

/// Appends the eight little-endian bytes of `v`.
pub fn put_u64(out: &mut Vec<u8>, v: u64)
    ensures
        final(out)@ == old(out)@ + le_bytes(v as nat, 8),
{
    proof {
        reveal_with_fuel(le_bytes, 9);
    }
    let x1 = v / 256;
    let x2 = x1 / 256;
    let x3 = x2 / 256;
    let x4 = x3 / 256;
    let x5 = x4 / 256;
    let x6 = x5 / 256;
    let x7 = x6 / 256;
    out.push((v % 256) as u8);
    out.push((x1 % 256) as u8);
    out.push((x2 % 256) as u8);
    out.push((x3 % 256) as u8);
    out.push((x4 % 256) as u8);
    out.push((x5 % 256) as u8);
    out.push((x6 % 256) as u8);
    out.push((x7 % 256) as u8);
    assert(final(out)@ =~= old(out)@ + le_bytes(v as nat, 8));
}

// ---------------------------------------------------------------------------
// CRC-32 (IEEE 802.3, reflected, as zlib).

/// One bit step of the reflected CRC-32 register.
pub open spec fn crc_bit(c: u32) -> u32 {
    if c & 1u32 != 0u32 { 0xEDB8_8320u32 ^ (c >> 1u32) } else { c >> 1u32 }
}

/// Eight bit steps: one byte.
pub open spec fn crc_byte(c: u32) -> u32 {
    crc_bit(crc_bit(crc_bit(crc_bit(crc_bit(crc_bit(crc_bit(crc_bit(c))))))))
}

/// The register after feeding `data` to the register `c`.
pub open spec fn crc_fold(c: u32, data: Seq<u8>) -> u32
    decreases data.len(),
{
    if data.len() == 0 {
        c
    } else {
        crc_byte(crc_fold(c, data.drop_last()) ^ (data.last() as u32))
    }
}

/// The CRC-32 of `data` (zlib's `crc32`).
pub open spec fn crc32_spec(data: Seq<u8>) -> u32 {
    !crc_fold(0xFFFF_FFFFu32, data)
}

/// Feeding two pieces one after the other is feeding their concatenation.
pub proof fn lemma_crc_concat(c: u32, a: Seq<u8>, b: Seq<u8>)
    ensures
        crc_fold(c, a + b) == crc_fold(crc_fold(c, a), b),
    decreases b.len(),
{
    if b.len() > 0 {
        assert((a + b).drop_last() =~= a + b.drop_last());
        lemma_crc_concat(c, a, b.drop_last());
    }
}

/// The byte step splits into a table lookup on the low byte and a shift.
proof fn lemma_crc_table_step(c: u32, b: u32)
    requires
        b < 256,
    ensures
        crc_byte(c ^ b) == crc_byte((c ^ b) & 0xFFu32) ^ (c >> 8u32),
        (c ^ b) & 0xFFu32 < 256,
{
    assert(crc_byte(c ^ b) == crc_byte((c ^ b) & 0xFFu32) ^ (c >> 8u32) && (c ^ b) & 0xFFu32 < 256)
        by (bit_vector)
        requires
            b < 256,
    ;
}

fn crc_bit_exec(c: u32) -> (r: u32)
    ensures
        r == crc_bit(c),
{
    if c & 1 != 0 { 0xEDB8_8320u32 ^ (c >> 1u32) } else { c >> 1u32 }
}

/// The 256 byte steps of a register holding one byte.
fn crc_table() -> (t: Vec<u32>)
    ensures
        t.len() == 256,
        forall|i: int| 0 <= i < 256 ==> t[i] == crc_byte(i as u32),
{
    let mut t: Vec<u32> = Vec::new();
    let mut i: u32 = 0;
    while i < 256
        invariant
            i <= 256,
            t.len() == i,
            forall|j: int| 0 <= j < i ==> t[j] == crc_byte(j as u32),
        decreases 256 - i,
    {
        let c = crc_bit_exec(crc_bit_exec(crc_bit_exec(crc_bit_exec(crc_bit_exec(crc_bit_exec(crc_bit_exec(crc_bit_exec(i))))))));
        t.push(c);
        i = i + 1;
    }
    t
}

/// Feeds `data[lo..hi]` to the register `c`, one byte at a time.
fn crc_feed(t: &Vec<u32>, c: u32, data: &[u8], lo: usize, hi: usize) -> (r: u32)
    requires
        t.len() == 256,
        forall|i: int| 0 <= i < 256 ==> t[i] == crc_byte(i as u32),
        lo <= hi <= data.len(),
    ensures
        r == crc_fold(c, data@.subrange(lo as int, hi as int)),
{
    let mut r = c;
    let mut i = lo;
    assert(data@.subrange(lo as int, lo as int) =~= Seq::<u8>::empty());
    while i < hi
        invariant
            t.len() == 256,
            forall|k: int| 0 <= k < 256 ==> t[k] == crc_byte(k as u32),
            lo <= i <= hi <= data.len(),
            r == crc_fold(c, data@.subrange(lo as int, i as int)),
        decreases hi - i,
    {
        let b = data[i] as u32;
        proof {
            lemma_crc_table_step(r, b);
            let s = data@.subrange(lo as int, i + 1);
            assert(s.drop_last() =~= data@.subrange(lo as int, i as int));
            assert(s.last() == data[i as int]);
        }
        r = t[((r ^ b) & 0xFF) as usize] ^ (r >> 8u32);
        i = i + 1;
    }
    r
}

/// Feeds `data` to the running (pre-inverted) register `c`.
pub fn crc_update(c: u32, data: &[u8]) -> (r: u32)
    ensures
        r == crc_fold(c, data@),
{
    let t = crc_table();
    let r = crc_feed(&t, c, data, 0, data.len());
    assert(data@.subrange(0, data.len() as int) =~= data@);
    r
}

/// The CRC-32 of `data` (zlib's `crc32`).
pub fn crc32(data: &[u8]) -> (r: u32)
    ensures
        r == crc32_spec(data@),
{
    !crc_update(0xFFFF_FFFF, data)
}

/// `b` with the CRC field read as zero.
pub open spec fn crc_zeroed(b: Seq<u8>) -> Seq<u8> {
    b.subrange(0, 24) + seq![0u8, 0u8, 0u8, 0u8] + b.subrange(28, b.len() as int)
}

/// The CRC of a whole index, with the CRC field read as zero.
fn file_crc(t: &Vec<u32>, bytes: &[u8]) -> (r: u32)
    requires
        t.len() == 256,
        forall|i: int| 0 <= i < 256 ==> t[i] == crc_byte(i as u32),
        bytes.len() >= 28,
    ensures
        r == crc32_spec(crc_zeroed(bytes@)),
{
    let c1 = crc_feed(t, 0xFFFF_FFFF, bytes, 0, 24);
    let zero: [u8; 4] = [0u8, 0u8, 0u8, 0u8];
    let c2 = crc_feed(t, c1, &zero, 0, 4);
    let c3 = crc_feed(t, c2, bytes, 28, bytes.len());
    proof {
        let a = bytes@.subrange(0, 24);
        let z = zero@.subrange(0, 4);
        let b = bytes@.subrange(28, bytes.len() as int);
        assert(z =~= seq![0u8, 0u8, 0u8, 0u8]);
        lemma_crc_concat(0xFFFF_FFFFu32, a, z);
        lemma_crc_concat(0xFFFF_FFFFu32, a + z, b);
        assert(crc_zeroed(bytes@) == a + z + b);
    }
    !c3
}

// ---------------------------------------------------------------------------
// Layout.

/// Element size of section `i`, in bytes.
pub open spec fn elem_size(i: int) -> nat {
    if i == 6 {
        8
    } else if 3 <= i <= 5 || i == 7 {
        2
    } else if i == 10 {
        1
    } else {
        4
    }
}

/// `x` rounded up to a multiple of 8.
pub open spec fn round8_spec(x: nat) -> nat {
    ((x + 7) / 8 * 8) as nat
}

/// Length of section `i`, in bytes, for `n` nodes, `t` terms and a pool of
/// `p` bytes: the element count times the element size.
pub open spec fn sec_len(n: nat, t: nat, p: nat, i: int) -> nat {
    if i == 0 || i == 2 {
        n * 4
    } else if i == 1 {
        (n + 1) * 4
    } else if 3 <= i <= 5 {
        n * 2
    } else if i == 6 {
        n * 8
    } else if i == 7 {
        t * 2
    } else if i == 8 {
        t * 4
    } else if i == 9 {
        (t + 1) * 4
    } else {
        p
    }
}

/// Offset of section `i`: the end of the table, then each section rounded
/// up to a multiple of 8. `sec_off(.., 11)` is the total length.
#[verifier::opaque]
pub open spec fn sec_off(n: nat, t: nat, p: nat, i: nat) -> nat
    decreases i,
{
    if i == 0 {
        TABLE_END as nat
    } else {
        round8_spec(sec_off(n, t, p, (i - 1) as nat) + sec_len(n, t, p, i - 1))
    }
}

/// The total length of an index with these counts.
pub open spec fn total_len(n: nat, t: nat, p: nat) -> nat {
    sec_off(n, t, p, 11)
}

/// A section's place in the index.
#[derive(Clone, Copy, Debug, PartialEq, Eq)]
pub struct Section {
    /// Offset of its first byte.
    pub offset: u64,
    /// Length in bytes, without padding.
    pub len: u64,
}

/// `x` rounded up to a multiple of 8.
pub fn round8(x: u64) -> (r: u64)
    requires
        x <= 0xFFFF_FFFF_FFFF_FFF0,
    ensures
        r == round8_spec(x as nat),
{
    (x + 7) / 8 * 8
}

proof fn lemma_sec_bounds(n: nat, t: nat, p: nat, i: nat)
    requires
        n < 0x1_0000_0000,
        t < 0x1_0000_0000,
        p < 0x1_0000_0000,
        i <= 11,
    ensures
        sec_off(n, t, p, i) <= 328 + i * 0x8_0000_0010,
        i < 11 ==> sec_len(n, t, p, i as int) <= 0x8_0000_0008,
    decreases i,
{
    reveal(sec_off);
    if i > 0 {
        lemma_sec_bounds(n, t, p, (i - 1) as nat);
        let x = sec_off(n, t, p, (i - 1) as nat) + sec_len(n, t, p, i - 1);
        assert(round8_spec(x) <= x + 7);
    }
}

/// Length of section `i`, in bytes.
fn section_len(n: u32, t: u32, p: u32, i: usize) -> (r: u64)
    requires
        i < 11,
    ensures
        r == sec_len(n as nat, t as nat, p as nat, i as int),
{
    let (n, t, p) = (n as u64, t as u64, p as u64);
    if i == 0 || i == 2 {
        n * 4
    } else if i == 1 {
        (n + 1) * 4
    } else if i <= 5 {
        n * 2
    } else if i == 6 {
        n * 8
    } else if i == 7 {
        t * 2
    } else if i == 8 {
        t * 4
    } else if i == 9 {
        (t + 1) * 4
    } else {
        p
    }
}

/// The section places of the layout, for the first `i` sections.
pub open spec fn sections_spec(n: nat, t: nat, p: nat, i: nat) -> Seq<Section> {
    Seq::new(i, |j: int| Section { offset: sec_off(n, t, p, j as nat) as u64, len: sec_len(n, t, p, j) as u64 })
}

/// The sections and total length implied by `n` nodes, `t` terms and a pool
/// of `p` bytes.
pub fn layout(n: u32, t: u32, p: u32) -> (r: (Vec<Section>, u64))
    ensures
        r.0.len() == 11,
        forall|i: int| #![trigger r.0[i]] 0 <= i < 11 ==> r.0[i].offset == sec_off(n as nat, t as nat, p as nat, i as nat)
            && r.0[i].len == sec_len(n as nat, t as nat, p as nat, i),
        r.1 == total_len(n as nat, t as nat, p as nat),
        r.1 <= 0x100_0000_0000,
{
    let ghost (nn, tt, pp) = (n as nat, t as nat, p as nat);
    let mut out: Vec<Section> = Vec::new();
    let mut at: u64 = 328;
    let mut i: usize = 0;
    proof {
        reveal(sec_off);
        lemma_sec_bounds(nn, tt, pp, 11);
        assert(out@ =~= sections_spec(nn, tt, pp, 0));
    }
    while i < 11
        invariant
            i <= 11,
            nn == n && tt == t && pp == p,
            at == sec_off(nn, tt, pp, i as nat),
            out@ == sections_spec(nn, tt, pp, i as nat),
        decreases 11 - i,
    {
        proof {
            reveal(sec_off);
            lemma_sec_bounds(nn, tt, pp, i as nat);
        }
        let len = section_len(n, t, p, i);
        out.push(Section { offset: at, len });
        proof {
            assert(out@ =~= sections_spec(nn, tt, pp, (i + 1) as nat));
        }
        at = round8(at + len);
        i = i + 1;
    }
    proof {
        lemma_sec_bounds(nn, tt, pp, 11);
        assert forall|j: int| 0 <= j < 11 implies out[j].offset == sec_off(nn, tt, pp, j as nat)
            && out[j].len == sec_len(nn, tt, pp, j) by {
            lemma_sec_bounds(nn, tt, pp, j as nat);
        }
    }
    (out, at)
}

// ---------------------------------------------------------------------------
// The image of an index.

/// The bytes of a sequence of `u16` fields.
pub open spec fn f16s(s: Seq<u16>) -> Seq<u8>
    decreases s.len(),
{
    if s.len() == 0 { seq![] } else { f16s(s.drop_last()) + le_bytes(s.last() as nat, 2) }
}

/// The bytes of a sequence of `u32` fields.
pub open spec fn f32s(s: Seq<u32>) -> Seq<u8>
    decreases s.len(),
{
    if s.len() == 0 { seq![] } else { f32s(s.drop_last()) + le_bytes(s.last() as nat, 4) }
}

/// The bytes of a sequence of `u64` fields.
pub open spec fn f64s(s: Seq<u64>) -> Seq<u8>
    decreases s.len(),
{
    if s.len() == 0 { seq![] } else { f64s(s.drop_last()) + le_bytes(s.last() as nat, 8) }
}

/// `k` zero bytes.
pub open spec fn zeros(k: nat) -> Seq<u8> {
    Seq::new(k, |i: int| 0u8)
}

/// `s` followed by zeros up to a multiple of 8.
pub open spec fn padded(s: Seq<u8>) -> Seq<u8> {
    s + zeros((round8_spec(s.len()) - s.len()) as nat)
}

/// The UTF-8 texts of `texts[..i]`, one after the other.
pub open spec fn text_pool(texts: Seq<Seq<char>>, i: nat) -> Seq<u8>
    decreases i,
{
    if i == 0 || i > texts.len() { seq![] } else { text_pool(texts, (i - 1) as nat) + encode_utf8(texts[i - 1]) }
}

/// Where each text starts in the pool, and where the last one ends.
pub open spec fn text_offsets(texts: Seq<Seq<char>>) -> Seq<u32> {
    Seq::new(texts.len() + 1, |i: int| text_pool(texts, i as nat).len() as u32)
}

/// The normaliser mode byte: 1 for case folding, plus 2 for diacritic
/// folding.
pub open spec fn mode_byte(n: Normalizer) -> u8 {
    ((if n.case_spec() { 1u8 } else { 0u8 }) + (if n.diacritics_spec() { 2u8 } else { 0u8 })) as u8
}

/// The eight magic bytes.
pub open spec fn magic() -> Seq<u8> {
    seq![0x4Bu8, 0x48u8, 0x49u8, 0x4Eu8, 0x44u8, 0x45u8, 0x58u8, 0x00u8]
}

/// What an index holds, as plain values.
pub struct Contents {
    /// The symbol on the edge into each node.
    pub labels: Seq<u32>,
    /// The first child of each node, then the node count.
    pub children: Seq<u32>,
    /// The term that ends at each node, or `NO_TERM`.
    pub term_ids: Seq<u32>,
    /// The shortest term length at or below each node.
    pub len_min: Seq<u16>,
    /// The longest term length at or below each node.
    pub len_max: Seq<u16>,
    /// The largest weight at or below each node.
    pub max_weight: Seq<u16>,
    /// The symbol classes strictly below each node.
    pub below_mask: Seq<u64>,
    /// The weight of each term.
    pub weights: Seq<u16>,
    /// The input index of each term.
    pub inputs: Seq<u32>,
    /// Where each term starts in the pool, then the pool length.
    pub offsets: Seq<u32>,
    /// The UTF-8 text of the terms.
    pub pool: Seq<u8>,
    /// The normaliser mode byte, if a normaliser is recorded.
    pub modes: Option<u8>,
}

impl Contents {
    /// Number of nodes.
    pub open spec fn n(self) -> nat {
        self.labels.len()
    }

    /// Number of terms.
    pub open spec fn t(self) -> nat {
        self.weights.len()
    }

    /// Length of the pool.
    pub open spec fn p(self) -> nat {
        self.pool.len()
    }

    /// The sequences have the lengths that the counts imply.
    pub open spec fn sized(self) -> bool {
        &&& self.children.len() == self.n() + 1
        &&& self.term_ids.len() == self.n()
        &&& self.len_min.len() == self.n()
        &&& self.len_max.len() == self.n()
        &&& self.max_weight.len() == self.n()
        &&& self.below_mask.len() == self.n()
        &&& self.inputs.len() == self.t()
        &&& self.offsets.len() == self.t() + 1
        &&& self.n() < 0x1_0000_0000
        &&& self.t() < 0x1_0000_0000
        &&& self.p() < 0x1_0000_0000
    }

    /// The bytes of section `i`, without padding.
    pub open spec fn data(self, i: int) -> Seq<u8> {
        if i == 0 {
            f32s(self.labels)
        } else if i == 1 {
            f32s(self.children)
        } else if i == 2 {
            f32s(self.term_ids)
        } else if i == 3 {
            f16s(self.len_min)
        } else if i == 4 {
            f16s(self.len_max)
        } else if i == 5 {
            f16s(self.max_weight)
        } else if i == 6 {
            f64s(self.below_mask)
        } else if i == 7 {
            f16s(self.weights)
        } else if i == 8 {
            f32s(self.inputs)
        } else if i == 9 {
            f32s(self.offsets)
        } else {
            self.pool
        }
    }

    /// The first `i` sections, each padded.
    pub open spec fn body(self, i: nat) -> Seq<u8>
        decreases i,
    {
        if i == 0 { seq![] } else { self.body((i - 1) as nat) + padded(self.data(i - 1)) }
    }

    /// The header, with `crc` in its CRC field.
    pub open spec fn header(self, crc: u32) -> Seq<u8> {
        header_bytes(self.modes, self.n(), self.t(), self.p(), crc)
    }

    /// The image with a zero CRC field.
    pub open spec fn image0(self) -> Seq<u8> {
        self.header(0) + table(self.n(), self.t(), self.p(), 11) + self.body(11)
    }

    /// The bytes of the index that holds these contents.
    pub open spec fn image(self) -> Seq<u8> {
        self.header(crc32_spec(self.image0())) + table(self.n(), self.t(), self.p(), 11) + self.body(11)
    }
}

/// The normaliser record of the header.
pub open spec fn norm_record(modes: Option<u8>) -> Seq<u8> {
    match modes {
        Some(m) => seq![m, 0u8, 1u8, 0u8, 15u8, 0u8, 0u8, 0u8],
        None => zeros(8),
    }
}

/// The first 24 bytes of the header: magic, version, profile, flags and
/// total length.
pub open spec fn header_front(modes: Option<u8>, n: nat, t: nat, p: nat) -> Seq<u8> {
    magic() + le_bytes(1, 2) + le_bytes(1, 2) + le_bytes(if modes is Some { 1 } else { 0 }, 4)
        + le_bytes(total_len(n, t, p), 8)
}

/// The last 36 bytes of the header: section count, node, term and pool
/// counts, normaliser record and reserved zeros.
pub open spec fn header_back(modes: Option<u8>, n: nat, t: nat, p: nat) -> Seq<u8> {
    le_bytes(11, 4) + le_bytes(n, 4) + le_bytes(t, 4) + le_bytes(p, 4) + norm_record(modes) + zeros(12)
}

/// The header of an index with these counts and normaliser modes, with
/// `crc` in its CRC field.
pub open spec fn header_bytes(modes: Option<u8>, n: nat, t: nat, p: nat, crc: u32) -> Seq<u8> {
    header_front(modes, n, t, p) + le_bytes(crc as nat, 4) + header_back(modes, n, t, p)
}

proof fn lemma_header_len(modes: Option<u8>, n: nat, t: nat, p: nat)
    ensures
        header_front(modes, n, t, p).len() == 24,
        header_back(modes, n, t, p).len() == 36,
{
    lemma_le_bytes_len(1, 2);
    lemma_le_bytes_len(if modes is Some { 1 } else { 0 }, 4);
    lemma_le_bytes_len(total_len(n, t, p), 8);
    lemma_le_bytes_len(11, 4);
    lemma_le_bytes_len(n, 4);
    lemma_le_bytes_len(t, 4);
    lemma_le_bytes_len(p, 4);
}

/// The section table entry of section `i`.
pub open spec fn entry(n: nat, t: nat, p: nat, i: int) -> Seq<u8> {
    le_bytes((i + 1) as nat, 4) + le_bytes(elem_size(i), 4) + le_bytes(sec_off(n, t, p, i as nat), 8)
        + le_bytes(sec_len(n, t, p, i), 8)
}

/// The first `i` section table entries.
pub open spec fn table(n: nat, t: nat, p: nat, i: nat) -> Seq<u8>
    decreases i,
{
    if i == 0 { seq![] } else { table(n, t, p, (i - 1) as nat) + entry(n, t, p, i - 1) }
}

/// What a trie holds, as the contents of its index.
pub open spec fn contents_of(trie: Trie) -> Contents {
    let texts = trie.term_texts();
    Contents {
        labels: trie.labels_spec(),
        children: trie.starts_spec().push(trie.nodes() as u32),
        term_ids: trie.term_ids_spec(),
        len_min: trie.len_mins_spec(),
        len_max: trie.len_maxs_spec(),
        max_weight: trie.max_weights_spec(),
        below_mask: trie.masks_spec(),
        weights: trie.weights_spec(),
        inputs: trie.inputs_spec(),
        offsets: text_offsets(texts),
        pool: text_pool(texts, texts.len()),
        modes: match trie.normalizer_spec() {
            Some(nz) => Some(mode_byte(nz)),
            None => None,
        },
    }
}

/// The trie is too large for the format: more than `u32::MAX` nodes, at
/// least `u32::MAX` terms, a pool longer than `u32::MAX` bytes, or an index
/// longer than memory can hold.
pub open spec fn too_large(trie: Trie) -> bool {
    let texts = trie.term_texts();
    ||| trie.nodes() > 0xFFFF_FFFF
    ||| texts.len() >= 0xFFFF_FFFF
    ||| text_pool(texts, texts.len()).len() > 0xFFFF_FFFF
    ||| total_len(trie.nodes(), texts.len(), text_pool(texts, texts.len()).len()) > usize::MAX
}

proof fn lemma_f16s_len(s: Seq<u16>)
    ensures
        f16s(s).len() == 2 * s.len(),
    decreases s.len(),
{
    if s.len() > 0 {
        lemma_f16s_len(s.drop_last());
        lemma_le_bytes_len(s.last() as nat, 2);
    }
}

proof fn lemma_f32s_len(s: Seq<u32>)
    ensures
        f32s(s).len() == 4 * s.len(),
    decreases s.len(),
{
    if s.len() > 0 {
        lemma_f32s_len(s.drop_last());
        lemma_le_bytes_len(s.last() as nat, 4);
    }
}

proof fn lemma_f64s_len(s: Seq<u64>)
    ensures
        f64s(s).len() == 8 * s.len(),
    decreases s.len(),
{
    if s.len() > 0 {
        lemma_f64s_len(s.drop_last());
        lemma_le_bytes_len(s.last() as nat, 8);
    }
}

/// Each section's bytes have the length of the layout.
proof fn lemma_data_len(c: Contents, i: int)
    requires
        c.sized(),
        0 <= i < 11,
    ensures
        c.data(i).len() == sec_len(c.n(), c.t(), c.p(), i),
{
    lemma_f16s_len(c.len_min);
    lemma_f16s_len(c.len_max);
    lemma_f16s_len(c.max_weight);
    lemma_f16s_len(c.weights);
    lemma_f32s_len(c.labels);
    lemma_f32s_len(c.children);
    lemma_f32s_len(c.term_ids);
    lemma_f32s_len(c.inputs);
    lemma_f32s_len(c.offsets);
    lemma_f64s_len(c.below_mask);
}

/// The padded sections end where the layout says.
proof fn lemma_body_len(c: Contents, i: nat)
    requires
        c.sized(),
        i <= 11,
    ensures
        c.body(i).len() + TABLE_END == sec_off(c.n(), c.t(), c.p(), i),
    decreases i,
{
    reveal(sec_off);
    if i > 0 {
        lemma_body_len(c, (i - 1) as nat);
        lemma_data_len(c, i - 1);
        let d = c.data(i - 1);
        assert(round8_spec(d.len()) >= d.len());
        assert(padded(d).len() == round8_spec(d.len()));
        let x = sec_off(c.n(), c.t(), c.p(), (i - 1) as nat);
        assert(x % 8 == 0) by {
            lemma_sec_aligned(c.n(), c.t(), c.p(), (i - 1) as nat);
        }
        assert(round8_spec(x + d.len()) == x + round8_spec(d.len())) by {
            assert(x == (x / 8) * 8);
            assert((x + d.len() + 7) / 8 == x / 8 + (d.len() + 7) / 8) by (nonlinear_arith)
                requires
                    x % 8 == 0,
            ;
        }
    }
}

/// Every section starts at a multiple of 8.
proof fn lemma_sec_aligned(n: nat, t: nat, p: nat, i: nat)
    ensures
        sec_off(n, t, p, i) % 8 == 0,
    decreases i,
{
    reveal(sec_off);
    if i > 0 {
        let x = sec_off(n, t, p, (i - 1) as nat) + sec_len(n, t, p, i - 1);
        assert(((x + 7) / 8 * 8) % 8 == 0) by (nonlinear_arith);
    }
}

// ---------------------------------------------------------------------------
// Writer.

/// Appends the fields of `vals`.
fn put_all_u16(out: &mut Vec<u8>, vals: &Vec<u16>)
    ensures
        final(out)@ == old(out)@ + f16s(vals@),
{
    let ghost start = out@;
    let mut i: usize = 0;
    assert(vals@.take(0) =~= Seq::<u16>::empty());
    while i < vals.len()
        invariant
            i <= vals.len(),
            out@ == start + f16s(vals@.take(i as int)),
        decreases vals.len() - i,
    {
        put_u16(out, vals[i]);
        proof {
            assert(vals@.take(i + 1).drop_last() =~= vals@.take(i as int));
            assert(out@ =~= start + f16s(vals@.take(i + 1)));
        }
        i = i + 1;
    }
    assert(vals@.take(vals.len() as int) =~= vals@);
}

/// Appends the fields of `vals`.
fn put_all_u32(out: &mut Vec<u8>, vals: &Vec<u32>)
    ensures
        final(out)@ == old(out)@ + f32s(vals@),
{
    let ghost start = out@;
    let mut i: usize = 0;
    assert(vals@.take(0) =~= Seq::<u32>::empty());
    while i < vals.len()
        invariant
            i <= vals.len(),
            out@ == start + f32s(vals@.take(i as int)),
        decreases vals.len() - i,
    {
        put_u32(out, vals[i]);
        proof {
            assert(vals@.take(i + 1).drop_last() =~= vals@.take(i as int));
            assert(out@ =~= start + f32s(vals@.take(i + 1)));
        }
        i = i + 1;
    }
    assert(vals@.take(vals.len() as int) =~= vals@);
}

/// Appends the fields of `vals`.
fn put_all_u64(out: &mut Vec<u8>, vals: &Vec<u64>)
    ensures
        final(out)@ == old(out)@ + f64s(vals@),
{
    let ghost start = out@;
    let mut i: usize = 0;
    assert(vals@.take(0) =~= Seq::<u64>::empty());
    while i < vals.len()
        invariant
            i <= vals.len(),
            out@ == start + f64s(vals@.take(i as int)),
        decreases vals.len() - i,
    {
        put_u64(out, vals[i]);
        proof {
            assert(vals@.take(i + 1).drop_last() =~= vals@.take(i as int));
            assert(out@ =~= start + f64s(vals@.take(i + 1)));
        }
        i = i + 1;
    }
    assert(vals@.take(vals.len() as int) =~= vals@);
}

/// Appends the zeros that pad `len` bytes to a multiple of 8.
fn put_padding(out: &mut Vec<u8>, len: u64)
    requires
        len <= 0xFFFF_FFFF_FFFF_FFF0,
    ensures
        final(out)@ == old(out)@ + zeros((round8_spec(len as nat) - len) as nat),
{
    let k = round8(len) - len;
    let ghost start = out@;
    let mut i: u64 = 0;
    while i < k
        invariant
            i <= k,
            k == round8_spec(len as nat) - len,
            out@ == start + zeros(i as nat),
        decreases k - i,
    {
        out.push(0);
        assert(out@ =~= start + zeros((i + 1) as nat));
        i = i + 1;
    }
}

/// Element size of section `i`.
fn section_elem(i: usize) -> (r: u32)
    requires
        i < 11,
    ensures
        r == elem_size(i as int),
{
    if i == 6 {
        8
    } else if 3 <= i && i <= 5 || i == 7 {
        2
    } else if i == 10 {
        1
    } else {
        4
    }
}

/// The pool length of the trie's terms, if it is at most `u32::MAX`.
fn pool_len(trie: &Trie) -> (r: Option<u32>)
    requires
        trie.wf(),
    ensures
        match r {
            Some(p) => p == text_pool(trie.term_texts(), trie.term_texts().len()).len(),
            None => text_pool(trie.term_texts(), trie.term_texts().len()).len() > 0xFFFF_FFFF,
        },
{
    let ghost texts = trie.term_texts();
    let t = trie.len();
    proof {
        trie.lemma_texts();
        trie.lemma_wf();
    }
    let mut acc: u64 = 0;
    let mut id: usize = 0;
    while id < t
        invariant
            t == texts.len(),
            t <= 0xFFFF_FFFF,
            texts == trie.term_texts(),
            id <= t,
            acc == text_pool(texts, id as nat).len(),
            acc <= 0xFFFF_FFFF,
        decreases t - id,
    {
        let term = trie.term(id as u32);
        let len = term.as_bytes().len();
        proof {
            lemma_pool_grow(texts, id as nat);
        }
        if len as u64 > 0xFFFF_FFFF - acc {
            proof {
                lemma_pool_monotone(texts, (id + 1) as nat, texts.len());
            }
            return None;
        }
        acc = acc + len as u64;
        id = id + 1;
    }
    Some(acc as u32)
}

/// Adding a text adds its UTF-8 bytes.
proof fn lemma_pool_grow(texts: Seq<Seq<char>>, i: nat)
    requires
        i < texts.len(),
    ensures
        text_pool(texts, i + 1) == text_pool(texts, i) + encode_utf8(texts[i as int]),
{
}

/// The pool of a prefix is no longer than that of a longer prefix.
proof fn lemma_pool_monotone(texts: Seq<Seq<char>>, i: nat, j: nat)
    requires
        i <= j <= texts.len(),
    ensures
        text_pool(texts, i).len() <= text_pool(texts, j).len(),
    decreases j - i,
{
    if i < j {
        lemma_pool_monotone(texts, i, (j - 1) as nat);
    }
}

/// Appends the header, with a zero CRC field.
fn put_header(out: &mut Vec<u8>, modes: Option<u8>, n: u32, t: u32, p: u32, total: u64)
    requires
        total == total_len(n as nat, t as nat, p as nat),
    ensures
        final(out)@ == old(out)@ + header_bytes(modes, n as nat, t as nat, p as nat, 0),
{
    let ghost start = out@;
    out.push(0x4B);
    out.push(0x48);
    out.push(0x49);
    out.push(0x4E);
    out.push(0x44);
    out.push(0x45);
    out.push(0x58);
    out.push(0x00);
    assert(out@ =~= start + magic());
    put_u16(out, VERSION);
    put_u16(out, PROFILE);
    let flags: u32 = if modes.is_some() { FLAG_NORMALIZER } else { 0 };
    put_u32(out, flags);
    put_u64(out, total);
    let ghost front = out@;
    put_u32(out, 0);
    let ghost crc_end = out@;
    put_u32(out, 11);
    put_u32(out, n);
    put_u32(out, t);
    put_u32(out, p);
    let ghost mid = out@;
    match modes {
        Some(m) => {
            out.push(m);
            out.push(0);
            put_u16(out, crate::text::ALGORITHM_VERSION);
            out.push(15);
            out.push(0);
            out.push(0);
            out.push(0);
            proof {
                reveal_with_fuel(le_bytes, 3);
                assert(out@ =~= mid + norm_record(modes));
            }
        },
        None => {
            let mut k: usize = 0;
            while k < 8
                invariant
                    k <= 8,
                    out@ == mid + zeros(k as nat),
                decreases 8 - k,
            {
                out.push(0);
                assert(out@ =~= mid + zeros((k + 1) as nat));
                k = k + 1;
            }
        },
    }
    let ghost mid2 = out@;
    let mut k: usize = 0;
    while k < 12
        invariant
            k <= 12,
            out@ == mid2 + zeros(k as nat),
        decreases 12 - k,
    {
        out.push(0);
        assert(out@ =~= mid2 + zeros((k + 1) as nat));
        k = k + 1;
    }
    assert(front =~= start + header_front(modes, n as nat, t as nat, p as nat));
    assert(out@ =~= crc_end + header_back(modes, n as nat, t as nat, p as nat));
    assert(out@ =~= start + header_bytes(modes, n as nat, t as nat, p as nat, 0));
}

/// Appends the section table.
fn put_table(out: &mut Vec<u8>, n: u32, t: u32, p: u32)
    ensures
        final(out)@ == old(out)@ + table(n as nat, t as nat, p as nat, 11),
{
    let ghost start = out@;
    let (sections, _total) = layout(n, t, p);
    let mut i: usize = 0;
    while i < 11
        invariant
            i <= 11,
            sections.len() == 11,
            forall|j: int| #![trigger sections[j]] 0 <= j < 11 ==> sections[j].offset == sec_off(n as nat, t as nat, p as nat, j as nat)
                && sections[j].len == sec_len(n as nat, t as nat, p as nat, j),
            out@ == start + table(n as nat, t as nat, p as nat, i as nat),
        decreases 11 - i,
    {
        let ghost before = out@;
        put_u32(out, i as u32 + 1);
        put_u32(out, section_elem(i));
        put_u64(out, sections[i].offset);
        put_u64(out, sections[i].len);
        assert(out@ =~= before + entry(n as nat, t as nat, p as nat, i as int));
        assert(out@ =~= start + table(n as nat, t as nat, p as nat, (i + 1) as nat));
        i = i + 1;
    }
}

/// Appends the offsets of the terms in the pool: 0, then the end of each.
fn put_offsets(out: &mut Vec<u8>, trie: &Trie, p: u32)
    requires
        trie.wf(),
        p == text_pool(trie.term_texts(), trie.term_texts().len()).len(),
    ensures
        final(out)@ == old(out)@ + f32s(text_offsets(trie.term_texts())),
{
    let ghost texts = trie.term_texts();
    let ghost offs = text_offsets(texts);
    proof {
        trie.lemma_texts();
        trie.lemma_wf();
    }
    let t = trie.len();
    let ghost start = out@;
    put_u32(out, 0);
    proof {
        assert(text_pool(texts, 0) =~= Seq::<u8>::empty());
        assert(offs.take(1).drop_last() =~= Seq::<u32>::empty());
        assert(offs.take(1).last() == 0);
        assert(f32s(Seq::<u32>::empty()) =~= Seq::<u8>::empty());
        assert(f32s(offs.take(1)) =~= le_bytes(0, 4));
    }
    assert(out@ =~= start + f32s(offs.take(1)));
    let mut at: u32 = 0;
    let mut id: usize = 0;
    while id < t
        invariant
            t == texts.len(),
            t <= 0xFFFF_FFFF,
            texts == trie.term_texts(),
            offs == text_offsets(texts),
            p == text_pool(texts, texts.len()).len(),
            id <= t,
            at == text_pool(texts, id as nat).len(),
            out@ == start + f32s(offs.take(id + 1)),
        decreases t - id,
    {
        let len = trie.term(id as u32).as_bytes().len();
        proof {
            lemma_pool_grow(texts, id as nat);
            lemma_pool_monotone(texts, (id + 1) as nat, texts.len());
        }
        at = at + len as u32;
        put_u32(out, at);
        proof {
            assert(offs.take(id + 2).drop_last() =~= offs.take(id + 1));
            assert(offs.take(id + 2).last() == at);
            assert(out@ =~= start + f32s(offs.take(id + 2)));
        }
        id = id + 1;
    }
    assert(offs.take(t + 1) =~= offs);
}

/// Appends the UTF-8 text of the terms.
fn put_pool(out: &mut Vec<u8>, trie: &Trie)
    requires
        trie.wf(),
    ensures
        final(out)@ == old(out)@ + text_pool(trie.term_texts(), trie.term_texts().len()),
{
    let ghost texts = trie.term_texts();
    proof {
        trie.lemma_texts();
        trie.lemma_wf();
    }
    let t = trie.len();
    let ghost start = out@;
    let mut id: usize = 0;
    while id < t
        invariant
            t == texts.len(),
            t <= 0xFFFF_FFFF,
            texts == trie.term_texts(),
            id <= t,
            out@ == start + text_pool(texts, id as nat),
        decreases t - id,
    {
        let bytes = trie.term(id as u32).as_bytes();
        let ghost mid = out@;
        let mut j: usize = 0;
        while j < bytes.len()
            invariant
                j <= bytes.len(),
                out@ == mid + bytes@.take(j as int),
            decreases bytes.len() - j,
        {
            out.push(bytes[j]);
            assert(out@ =~= mid + bytes@.take(j + 1));
            j = j + 1;
        }
        proof {
            lemma_pool_grow(texts, id as nat);
            assert(bytes@.take(bytes.len() as int) =~= bytes@);
            assert(out@ =~= start + text_pool(texts, (id + 1) as nat));
        }
        id = id + 1;
    }
}

/// The contents of a trie that fits the format have the layout's sizes.
proof fn lemma_contents_sized(trie: Trie)
    requires
        trie.wf(),
        !too_large(trie),
    ensures
        contents_of(trie).sized(),
        contents_of(trie).n() == trie.nodes(),
        contents_of(trie).t() == trie.term_texts().len(),
        contents_of(trie).p() == text_pool(trie.term_texts(), trie.term_texts().len()).len(),
{
    trie.lemma_wf();
    trie.lemma_texts();
}

/// The image is the zero-CRC image with the CRC of that image filled in.
proof fn lemma_image_crc(c: Contents)
    requires
        c.sized(),
    ensures
        c.image0().len() >= 28,
        crc_zeroed(c.image0()) == c.image0(),
        c.image() == c.image0().subrange(0, 24) + le_bytes(crc32_spec(c.image0()) as nat, 4)
            + c.image0().subrange(28, c.image0().len() as int),
{
    let (m, n, t, p) = (c.modes, c.n(), c.t(), c.p());
    lemma_header_len(m, n, t, p);
    lemma_le_bytes_len(0, 4);
    let crc = crc32_spec(c.image0());
    lemma_le_bytes_len(crc as nat, 4);
    reveal_with_fuel(le_bytes, 5);
    let rest = header_back(m, n, t, p) + table(n, t, p, 11) + c.body(11);
    assert(c.image0() =~= header_front(m, n, t, p) + le_bytes(0, 4) + rest);
    assert(c.image() =~= header_front(m, n, t, p) + le_bytes(crc as nat, 4) + rest);
    assert(c.image0().subrange(0, 24) =~= header_front(m, n, t, p));
    assert(c.image0().subrange(28, c.image0().len() as int) =~= rest);
    assert(crc_zeroed(c.image0()) =~= c.image0());
    assert(c.image() =~= c.image0().subrange(0, 24) + le_bytes(crc as nat, 4)
        + c.image0().subrange(28, c.image0().len() as int));
}

/// The last four sections close the body.
proof fn lemma_body_split(c: Contents)
    ensures
        c.body(11) == c.body(7) + padded(c.data(7)) + padded(c.data(8)) + padded(c.data(9)) + padded(c.data(10)),
{
    assert(c.body(8) == c.body(7) + padded(c.data(7)));
    assert(c.body(9) == c.body(8) + padded(c.data(8)));
    assert(c.body(10) == c.body(9) + padded(c.data(9)));
    assert(c.body(11) == c.body(10) + padded(c.data(10)));
    assert(c.body(11) =~= c.body(7) + padded(c.data(7)) + padded(c.data(8)) + padded(c.data(9)) + padded(c.data(10)));
}

/// Writes `trie` in format version 1.
#[verifier::rlimit(40)]
pub(crate) fn write_index(trie: &Trie) -> (r: Result<Vec<u8>, FormatError>)
    requires
        trie.wf(),
    ensures
        match r {
            Ok(b) => !too_large(*trie) && b@ == contents_of(*trie).image(),
            Err(e) => too_large(*trie) && e == FormatError::TooLarge,
        },
{
    proof {
        trie.lemma_wf();
        trie.lemma_texts();
    }
    let n_nodes = trie.node_count();
    let n_terms = trie.len();
    if n_nodes > 0xFFFF_FFFF || n_terms >= 0xFFFF_FFFF {
        return Err(FormatError::TooLarge);
    }
    let p = match pool_len(trie) {
        Some(p) => p,
        None => {
            return Err(FormatError::TooLarge);
        },
    };
    let n = n_nodes as u32;
    let t = n_terms as u32;
    let (sections, total) = layout(n, t, p);
    if total > usize::MAX as u64 {
        return Err(FormatError::TooLarge);
    }
    let ghost c = contents_of(*trie);
    let modes: Option<u8> = match trie.normalizer() {
        Some(nz) => {
            let mut m: u8 = 0;
            if nz.folds_case() {
                m = 1;
            }
            if nz.folds_diacritics() {
                m = m + 2;
            }
            Some(m)
        },
        None => None,
    };
    proof {
        lemma_contents_sized(*trie);
        assert(c.modes == modes);
    }
    let mut out: Vec<u8> = Vec::new();
    put_header(&mut out, modes, n, t, p, total);
    put_table(&mut out, n, t, p);
    let ghost pre = out@;
    assert(pre =~= c.header(0) + table(n as nat, t as nat, p as nat, 11));
    put_node_sections(&mut out, trie, &sections);
    let ghost mid = out@;
    put_term_sections(&mut out, trie, &sections, p);
    proof {
        lemma_body_split(c);
        assert(out@ =~= pre + c.body(11));
        assert(out@ =~= c.image0());
        lemma_image_crc(c);
    }
    let tbl = crc_table();
    let crc = file_crc(&tbl, out.as_slice());
    fill_crc(&mut out, crc);
    Ok(out)
}

/// Appends the node sections (labels to class masks), each padded.
#[verifier::rlimit(40)]
fn put_node_sections(out: &mut Vec<u8>, trie: &Trie, sections: &Vec<Section>)
    requires
        trie.wf(),
        contents_of(*trie).sized(),
        sections.len() == 11,
        forall|j: int| #![trigger sections[j]] 0 <= j < 11 ==> sections[j].len == sec_len(contents_of(*trie).n(), contents_of(*trie).t(), contents_of(*trie).p(), j),
    ensures
        final(out)@ == old(out)@ + contents_of(*trie).body(7),
{
    let ghost c = contents_of(*trie);
    let ghost pre = out@;
    proof {
        trie.lemma_wf();
        lemma_sec_bounds(c.n(), c.t(), c.p(), 11);
        assert(c.body(0) =~= Seq::<u8>::empty());
    }
    put_all_u32(out, trie.labels_vec());
    proof { lemma_data_len(c, 0); }
    put_padding(out, sections[0].len);
    assert(out@ =~= pre + c.body(1));
    put_all_u32(out, trie.starts_vec());
    put_u32(out, trie.node_count() as u32);
    proof {
        lemma_data_len(c, 1);
        assert(c.children.drop_last() =~= trie.starts_spec());
    }
    put_padding(out, sections[1].len);
    assert(out@ =~= pre + c.body(2));
    put_all_u32(out, trie.term_ids_vec());
    proof { lemma_data_len(c, 2); }
    put_padding(out, sections[2].len);
    assert(out@ =~= pre + c.body(3));
    put_all_u16(out, trie.len_mins_vec());
    proof { lemma_data_len(c, 3); }
    put_padding(out, sections[3].len);
    assert(out@ =~= pre + c.body(4));
    put_all_u16(out, trie.len_maxs_vec());
    proof { lemma_data_len(c, 4); }
    put_padding(out, sections[4].len);
    assert(out@ =~= pre + c.body(5));
    put_all_u16(out, trie.max_weights_vec());
    proof { lemma_data_len(c, 5); }
    put_padding(out, sections[5].len);
    assert(out@ =~= pre + c.body(6));
    put_all_u64(out, trie.masks_vec());
    proof { lemma_data_len(c, 6); }
    put_padding(out, sections[6].len);
    assert(out@ =~= pre + c.body(7));
}

/// Appends the term sections (weights to pool), each padded.
fn put_term_sections(out: &mut Vec<u8>, trie: &Trie, sections: &Vec<Section>, p: u32)
    requires
        trie.wf(),
        contents_of(*trie).sized(),
        p == contents_of(*trie).p(),
        sections.len() == 11,
        forall|j: int| #![trigger sections[j]] 0 <= j < 11 ==> sections[j].len == sec_len(contents_of(*trie).n(), contents_of(*trie).t(), contents_of(*trie).p(), j),
    ensures
        final(out)@ == old(out)@ + padded(contents_of(*trie).data(7)) + padded(contents_of(*trie).data(8))
            + padded(contents_of(*trie).data(9)) + padded(contents_of(*trie).data(10)),
{
    let ghost c = contents_of(*trie);
    let ghost pre = out@;
    proof {
        trie.lemma_wf();
        lemma_sec_bounds(c.n(), c.t(), c.p(), 11);
    }
    put_all_u16(out, trie.weights_vec());
    proof { lemma_data_len(c, 7); }
    put_padding(out, sections[7].len);
    let ghost s7 = out@;
    assert(s7 =~= pre + padded(c.data(7)));
    put_all_u32(out, trie.inputs_vec());
    proof { lemma_data_len(c, 8); }
    put_padding(out, sections[8].len);
    let ghost s8 = out@;
    assert(s8 =~= s7 + padded(c.data(8)));
    put_offsets(out, trie, p);
    proof { lemma_data_len(c, 9); }
    put_padding(out, sections[9].len);
    let ghost s9 = out@;
    assert(s9 =~= s8 + padded(c.data(9)));
    put_pool(out, trie);
    proof { lemma_data_len(c, 10); }
    put_padding(out, sections[10].len);
    assert(out@ =~= s9 + padded(c.data(10)));
}

/// Writes `crc` into the CRC field.
fn fill_crc(out: &mut Vec<u8>, crc: u32)
    requires
        old(out).len() >= 28,
    ensures
        final(out)@ == old(out)@.subrange(0, 24) + le_bytes(crc as nat, 4) + old(out)@.subrange(28, old(out).len() as int),
{
    let mut tmp: Vec<u8> = Vec::new();
    put_u32(&mut tmp, crc);
    proof {
        lemma_le_bytes_len(crc as nat, 4);
    }
    out.set(24, tmp[0]);
    out.set(25, tmp[1]);
    out.set(26, tmp[2]);
    out.set(27, tmp[3]);
    assert(final(out)@ =~= old(out)@.subrange(0, 24) + le_bytes(crc as nat, 4) + old(out)@.subrange(28, old(out).len() as int));
}

// ---------------------------------------------------------------------------
// Reader: the header.

/// The first non-zero byte of `b[lo..hi]`.
pub open spec fn first_nonzero(b: Seq<u8>, lo: int, hi: int) -> Option<int>
    decreases hi - lo,
{
    if lo >= hi {
        None
    } else if b[lo] != 0 {
        Some(lo)
    } else {
        first_nonzero(b, lo + 1, hi)
    }
}

/// The error for a non-zero byte in `b[lo..hi]`, if there is one.
pub open spec fn reserved_fault(b: Seq<u8>, lo: int, hi: int) -> Option<FormatError> {
    match first_nonzero(b, lo, hi) {
        Some(o) => Some(FormatError::NonZeroReserved { offset: o as usize }),
        None => None,
    }
}

/// The node count in the header.
pub open spec fn hdr_n(b: Seq<u8>) -> nat {
    le(b, 32, 4)
}

/// The term count in the header.
pub open spec fn hdr_t(b: Seq<u8>) -> nat {
    le(b, 36, 4)
}

/// The pool length in the header.
pub open spec fn hdr_p(b: Seq<u8>) -> nat {
    le(b, 40, 4)
}

/// The `k`-byte field at `off`, or 0 if it lies beyond the end of `b`.
pub open spec fn rd(b: Seq<u8>, off: int, k: nat) -> nat {
    if off + k <= b.len() { le(b, off, k) } else { 0 }
}

/// Section table entry `i` holds what the layout says.
pub open spec fn entry_ok(b: Seq<u8>, n: nat, t: nat, p: nat, i: int) -> bool {
    let e = 64 + 24 * i;
    &&& rd(b, e, 4) == i + 1
    &&& rd(b, e + 4, 4) == elem_size(i)
    &&& rd(b, e + 8, 8) == sec_off(n, t, p, i as nat)
    &&& rd(b, e + 16, 8) == sec_len(n, t, p, i)
}

/// The error for the first wrong section table entry from `i` on.
pub open spec fn table_fault(b: Seq<u8>, n: nat, t: nat, p: nat, i: nat) -> Option<FormatError>
    decreases 11 - i,
{
    if i >= 11 {
        None
    } else if !entry_ok(b, n, t, p, i as int) {
        Some(FormatError::BadSectionTable { section: (i + 1) as u32 })
    } else {
        table_fault(b, n, t, p, i + 1)
    }
}

/// The error for the first non-zero padding byte after section `i` or a
/// later one.
pub open spec fn padding_fault(b: Seq<u8>, n: nat, t: nat, p: nat, i: nat) -> Option<FormatError>
    decreases 11 - i,
{
    if i >= 11 {
        None
    } else {
        match reserved_fault(b, (sec_off(n, t, p, i) + sec_len(n, t, p, i as int)) as int, sec_off(n, t, p, i + 1) as int) {
            Some(e) => Some(e),
            None => padding_fault(b, n, t, p, i + 1),
        }
    }
}

/// The first failed header check of `b`, in the order of the format: the
/// length, the magic, the version, the profile, the flags, the declared
/// length, the CRC, the reserved bytes, the normaliser record, the section
/// count, the counts, the section table, the total length and the padding.
pub open spec fn header_fault(b: Seq<u8>) -> Option<FormatError> {
    let len = b.len();
    let flags = le(b, 12, 4);
    let (n, t, p) = (hdr_n(b), hdr_t(b), hdr_p(b));
    if len < 64 {
        Some(FormatError::TooShort { len: len as usize })
    } else if b.subrange(0, 8) != magic() {
        Some(FormatError::BadMagic)
    } else if le(b, 8, 2) != 1 {
        Some(FormatError::UnsupportedVersion { found: le(b, 8, 2) as u16 })
    } else if le(b, 10, 2) != 1 {
        Some(FormatError::UnknownProfile { found: le(b, 10, 2) as u16 })
    } else if flags > 1 {
        Some(FormatError::UnknownFlags { flags: flags as u32 })
    } else if le(b, 16, 8) != len {
        Some(FormatError::LengthMismatch { declared: le(b, 16, 8) as u64, actual: len as usize })
    } else if le(b, 24, 4) != crc32_spec(crc_zeroed(b)) {
        Some(FormatError::ChecksumMismatch { stored: le(b, 24, 4) as u32, computed: crc32_spec(crc_zeroed(b)) })
    } else if reserved_fault(b, 45, 46) is Some {
        reserved_fault(b, 45, 46)
    } else if reserved_fault(b, 51, 64) is Some {
        reserved_fault(b, 51, 64)
    } else if flags == 1 && b[44] > 3 {
        Some(FormatError::BadNormalizer { modes: b[44] })
    } else if flags == 1 && (le(b, 46, 2) != 1 || b[48] != 15 || b[49] != 0 || b[50] != 0) {
        Some(FormatError::NormalizerMismatch { algorithm: le(b, 46, 2) as u16, unicode: [b[48], b[49], b[50]] })
    } else if flags == 0 && reserved_fault(b, 44, 51) is Some {
        reserved_fault(b, 44, 51)
    } else if le(b, 28, 4) != 11 {
        Some(FormatError::SectionCount { found: le(b, 28, 4) as u32 })
    } else if n < 2 || t == 0 || t > n - 1 || p < t {
        Some(FormatError::BadCounts)
    } else if table_fault(b, n, t, p, 0) is Some {
        table_fault(b, n, t, p, 0)
    } else if total_len(n, t, p) != len {
        Some(FormatError::BadCounts)
    } else {
        padding_fault(b, n, t, p, 0)
    }
}

/// The normaliser recorded in the header of `b`.
pub open spec fn hdr_normalizer(b: Seq<u8>) -> Option<Normalizer> {
    if le(b, 12, 4) == 1 {
        Some(Normalizer::of_modes(b[44] % 2 == 1, b[44] >= 2))
    } else {
        None
    }
}

/// What the header says, once checked.
struct Header {
    n: u32,
    t: u32,
    p: u32,
    normalizer: Option<Normalizer>,
    sections: Vec<Section>,
}

/// The error for a non-zero byte in `b[lo..hi]`, if there is one.
fn zero_at(b: &[u8], lo: usize, hi: usize) -> (r: Result<(), FormatError>)
    requires
        lo <= hi <= b.len(),
    ensures
        match r {
            Ok(()) => reserved_fault(b@, lo as int, hi as int) is None,
            Err(e) => reserved_fault(b@, lo as int, hi as int) == Some(e),
        },
{
    let mut i = lo;
    while i < hi
        invariant
            lo <= i <= hi <= b.len(),
            first_nonzero(b@, lo as int, hi as int) == first_nonzero(b@, i as int, hi as int),
        decreases hi - i,
    {
        if b[i] != 0 {
            return Err(FormatError::NonZeroReserved { offset: i });
        }
        i = i + 1;
    }
    Ok(())
}

/// The `u32` at byte offset `off`, or 0 if it lies beyond the end.
fn get_u32(s: &[u8], off: usize) -> (r: u32)
    ensures
        r == rd(s@, off as int, 4),
{
    if off <= s.len() && s.len() - off >= 4 { at_u32(s, off) } else { 0 }
}

/// The `u64` at byte offset `off`, or 0 if it lies beyond the end.
fn get_u64(s: &[u8], off: usize) -> (r: u64)
    ensures
        r == rd(s@, off as int, 8),
{
    if off <= s.len() && s.len() - off >= 8 { at_u64(s, off) } else { 0 }
}

/// Checks the section table against the layout.
fn check_table(bytes: &[u8], n: u32, t: u32, p: u32, sections: &Vec<Section>) -> (r: Result<(), FormatError>)
    requires
        sections.len() == 11,
        forall|j: int| #![trigger sections[j]] 0 <= j < 11 ==> sections[j].offset == sec_off(n as nat, t as nat, p as nat, j as nat)
            && sections[j].len == sec_len(n as nat, t as nat, p as nat, j),
    ensures
        match r {
            Ok(()) => table_fault(bytes@, n as nat, t as nat, p as nat, 0) is None,
            Err(e) => table_fault(bytes@, n as nat, t as nat, p as nat, 0) == Some(e),
        },
{
    let mut i: usize = 0;
    while i < 11
        invariant
            i <= 11,
            sections.len() == 11,
            forall|j: int| #![trigger sections[j]] 0 <= j < 11 ==> sections[j].offset == sec_off(n as nat, t as nat, p as nat, j as nat)
                && sections[j].len == sec_len(n as nat, t as nat, p as nat, j),
            table_fault(bytes@, n as nat, t as nat, p as nat, 0) == table_fault(bytes@, n as nat, t as nat, p as nat, i as nat),
        decreases 11 - i,
    {
        let e: usize = 64 + 24 * i;
        let f_id = get_u32(bytes, e);
        let f_size = get_u32(bytes, e + 4);
        let f_off = get_u64(bytes, e + 8);
        let f_len = get_u64(bytes, e + 16);
        let want_size = section_elem(i);
        let want_off = sections[i].offset;
        let want_len = sections[i].len;
        let ok = f_id as u64 == i as u64 + 1 && f_size == want_size && f_off == want_off && f_len == want_len;
        proof {
            assert(want_off == sec_off(n as nat, t as nat, p as nat, i as nat));
            assert(want_len == sec_len(n as nat, t as nat, p as nat, i as int));
            assert(ok == entry_ok(bytes@, n as nat, t as nat, p as nat, i as int));
        }
        if !ok {
            return Err(FormatError::BadSectionTable { section: i as u32 + 1 });
        }
        i = i + 1;
    }
    Ok(())
}

/// Checks the padding after each section.
fn check_padding(bytes: &[u8], n: u32, t: u32, p: u32, sections: &Vec<Section>) -> (r: Result<(), FormatError>)
    requires
        bytes.len() == total_len(n as nat, t as nat, p as nat),
        sections.len() == 11,
        forall|j: int| #![trigger sections[j]] 0 <= j < 11 ==> sections[j].offset == sec_off(n as nat, t as nat, p as nat, j as nat)
            && sections[j].len == sec_len(n as nat, t as nat, p as nat, j),
    ensures
        match r {
            Ok(()) => padding_fault(bytes@, n as nat, t as nat, p as nat, 0) is None,
            Err(e) => padding_fault(bytes@, n as nat, t as nat, p as nat, 0) == Some(e),
        },
{
    let ghost (nn, tt, pp) = (n as nat, t as nat, p as nat);
    proof {
        lemma_sec_bounds(nn, tt, pp, 11);
    }
    let mut i: usize = 0;
    while i < 11
        invariant
            i <= 11,
            nn == n && tt == t && pp == p,
            bytes.len() == total_len(nn, tt, pp),
            sections.len() == 11,
            forall|j: int| #![trigger sections[j]] 0 <= j < 11 ==> sections[j].offset == sec_off(nn, tt, pp, j as nat)
                && sections[j].len == sec_len(nn, tt, pp, j),
            padding_fault(bytes@, nn, tt, pp, 0) == padding_fault(bytes@, nn, tt, pp, i as nat),
        decreases 11 - i,
    {
        proof {
            reveal(sec_off);
            lemma_sec_bounds(nn, tt, pp, i as nat);
            lemma_sec_monotone(nn, tt, pp, (i + 1) as nat, 11);
        }
        let end = sections[i].offset + sections[i].len;
        let next = round8(end);
        assert(next == sec_off(nn, tt, pp, (i + 1) as nat));
        match zero_at(bytes, end as usize, next as usize) {
            Ok(()) => {},
            Err(e) => {
                return Err(e);
            },
        }
        i = i + 1;
    }
    Ok(())
}

/// Section offsets grow.
proof fn lemma_sec_monotone(n: nat, t: nat, p: nat, i: nat, j: nat)
    requires
        i <= j,
    ensures
        sec_off(n, t, p, i) <= sec_off(n, t, p, j),
    decreases j - i,
{
    reveal(sec_off);
    if i < j {
        lemma_sec_monotone(n, t, p, i, (j - 1) as nat);
        let x = sec_off(n, t, p, (j - 1) as nat) + sec_len(n, t, p, j - 1);
        assert(round8_spec(x) >= x);
    }
}

/// Checks the header of `bytes`, in the order of [`header_fault`].
fn header(bytes: &[u8]) -> (r: Result<Header, FormatError>)
    ensures
        match r {
            Ok(h) => {
                &&& header_fault(bytes@) is None
                &&& h.n == hdr_n(bytes@) && h.t == hdr_t(bytes@) && h.p == hdr_p(bytes@)
                &&& h.normalizer == hdr_normalizer(bytes@)
                &&& h.sections.len() == 11
                &&& forall|j: int| #![trigger h.sections[j]] 0 <= j < 11 ==> h.sections[j].offset == sec_off(h.n as nat, h.t as nat, h.p as nat, j as nat)
                        && h.sections[j].len == sec_len(h.n as nat, h.t as nat, h.p as nat, j)
            },
            Err(e) => header_fault(bytes@) == Some(e),
        },
{
    let len = bytes.len();
    if len < HEADER_LEN {
        return Err(FormatError::TooShort { len });
    }
    let magic_ok = bytes[0] == 0x4B && bytes[1] == 0x48 && bytes[2] == 0x49 && bytes[3] == 0x4E && bytes[4] == 0x44
        && bytes[5] == 0x45 && bytes[6] == 0x58 && bytes[7] == 0x00;
    proof {
        if magic_ok {
            assert(bytes@.subrange(0, 8) =~= magic());
        } else {
            assert(bytes@.subrange(0, 8) != magic()) by {
                if bytes@.subrange(0, 8) == magic() {
                    assert(bytes@.subrange(0, 8)[0] == bytes[0]);
                    assert(bytes@.subrange(0, 8)[1] == bytes[1]);
                    assert(bytes@.subrange(0, 8)[2] == bytes[2]);
                    assert(bytes@.subrange(0, 8)[3] == bytes[3]);
                    assert(bytes@.subrange(0, 8)[4] == bytes[4]);
                    assert(bytes@.subrange(0, 8)[5] == bytes[5]);
                    assert(bytes@.subrange(0, 8)[6] == bytes[6]);
                    assert(bytes@.subrange(0, 8)[7] == bytes[7]);
                }
            }
        }
    }
    if !magic_ok {
        return Err(FormatError::BadMagic);
    }
    let version = at_u16(bytes, 8);
    if version != VERSION {
        return Err(FormatError::UnsupportedVersion { found: version });
    }
    let profile = at_u16(bytes, 10);
    if profile != PROFILE {
        return Err(FormatError::UnknownProfile { found: profile });
    }
    let flags = at_u32(bytes, 12);
    if flags > 1 {
        return Err(FormatError::UnknownFlags { flags });
    }
    let declared = at_u64(bytes, 16);
    if declared != len as u64 {
        return Err(FormatError::LengthMismatch { declared, actual: len });
    }
    let stored = at_u32(bytes, CRC_AT);
    let tbl = crc_table();
    let computed = file_crc(&tbl, bytes);
    if stored != computed {
        return Err(FormatError::ChecksumMismatch { stored, computed });
    }
    match zero_at(bytes, 45, 46) {
        Ok(()) => {},
        Err(e) => {
            return Err(e);
        },
    }
    match zero_at(bytes, 51, HEADER_LEN) {
        Ok(()) => {},
        Err(e) => {
            return Err(e);
        },
    }
    let normalizer = if flags == 1 {
        let modes = bytes[44];
        if modes > 3 {
            return Err(FormatError::BadNormalizer { modes });
        }
        let algorithm = at_u16(bytes, 46);
        if algorithm != crate::text::ALGORITHM_VERSION || bytes[48] != 15 || bytes[49] != 0 || bytes[50] != 0 {
            return Err(FormatError::NormalizerMismatch { algorithm, unicode: [bytes[48], bytes[49], bytes[50]] });
        }
        let nz = Normalizer::new().with_case_folding(modes % 2 == 1).with_diacritic_folding(modes >= 2);
        proof {
            Normalizer::lemma_of_modes(nz, modes % 2 == 1, modes >= 2);
        }
        Some(nz)
    } else {
        match zero_at(bytes, 44, 51) {
            Ok(()) => {},
            Err(e) => {
                return Err(e);
            },
        }
        None
    };
    let count = at_u32(bytes, 28);
    if count != 11 {
        return Err(FormatError::SectionCount { found: count });
    }
    let n = at_u32(bytes, 32);
    let t = at_u32(bytes, 36);
    let p = at_u32(bytes, 40);
    if n < 2 || t == 0 || t > n - 1 || p < t {
        return Err(FormatError::BadCounts);
    }
    let (sections, total) = layout(n, t, p);
    match check_table(bytes, n, t, p, &sections) {
        Ok(()) => {},
        Err(e) => {
            return Err(e);
        },
    }
    if total != len as u64 {
        return Err(FormatError::BadCounts);
    }
    match check_padding(bytes, n, t, p, &sections) {
        Ok(()) => {},
        Err(e) => {
            return Err(e);
        },
    }
    Ok(Header { n, t, p, normalizer, sections })
}

// ---------------------------------------------------------------------------
// Reader: the sections.

/// What the sections of `b` hold, read with the counts of its header.
pub open spec fn decoded(b: Seq<u8>) -> Contents {
    let (n, t, p) = (hdr_n(b), hdr_t(b), hdr_p(b));
    Contents {
        labels: Seq::new(n, |v: int| le(b, sec_off(n, t, p, 0) + 4 * v, 4) as u32),
        children: Seq::new(n + 1, |v: int| le(b, sec_off(n, t, p, 1) + 4 * v, 4) as u32),
        term_ids: Seq::new(n, |v: int| le(b, sec_off(n, t, p, 2) + 4 * v, 4) as u32),
        len_min: Seq::new(n, |v: int| le(b, sec_off(n, t, p, 3) + 2 * v, 2) as u16),
        len_max: Seq::new(n, |v: int| le(b, sec_off(n, t, p, 4) + 2 * v, 2) as u16),
        max_weight: Seq::new(n, |v: int| le(b, sec_off(n, t, p, 5) + 2 * v, 2) as u16),
        below_mask: Seq::new(n, |v: int| le(b, sec_off(n, t, p, 6) + 8 * v, 8) as u64),
        weights: Seq::new(t, |v: int| le(b, sec_off(n, t, p, 7) + 2 * v, 2) as u16),
        inputs: Seq::new(t, |v: int| le(b, sec_off(n, t, p, 8) + 4 * v, 4) as u32),
        offsets: Seq::new(t + 1, |v: int| le(b, sec_off(n, t, p, 9) + 4 * v, 4) as u32),
        pool: b.subrange(sec_off(n, t, p, 10) as int, (sec_off(n, t, p, 10) + p) as int),
        modes: if le(b, 12, 4) == 1 { Some(b[44]) } else { None },
    }
}

/// `s[i]`, or 0 out of range.
pub open spec fn at32(s: Seq<u32>, i: int) -> u32 {
    if 0 <= i < s.len() { s[i] } else { 0 }
}

/// `s[i]`, or 0 out of range.
pub open spec fn at16(s: Seq<u16>, i: int) -> u16 {
    if 0 <= i < s.len() { s[i] } else { 0 }
}

/// `s[i]`, or 0 out of range.
pub open spec fn at64(s: Seq<u64>, i: int) -> u64 {
    if 0 <= i < s.len() { s[i] } else { 0 }
}

/// `v` is a Unicode scalar value.
pub open spec fn scalar(v: u32) -> bool {
    v < 0xD800 || (0xE000 <= v && v <= 0x10FFFF)
}

/// (depth, end of the current level) before node `v` is checked: level
/// `L + 1` ends where the children of the first node of level `L + 1`
/// start.
pub open spec fn level_state(c: Contents, v: nat) -> (nat, nat)
    decreases v,
{
    if v == 0 {
        (0, 1)
    } else {
        let (d, e) = level_state(c, (v - 1) as nat);
        if (v - 1) as nat == e { (d + 1, at32(c.children, v - 1) as nat) } else { (d, e) }
    }
}

/// The depth of node `v`, by levels.
pub open spec fn depth_at(c: Contents, v: nat) -> nat {
    level_state(c, v + 1).0
}

/// The first child `x` in `lo..hi` (children of a node starting at `a`)
/// whose label is not a scalar value or not above its left sibling's.
pub open spec fn label_fault(c: Contents, a: int, lo: int, hi: int) -> Option<int>
    decreases hi - lo,
{
    if lo >= hi {
        None
    } else if !scalar(at32(c.labels, lo)) || (lo > a && at32(c.labels, lo) <= at32(c.labels, lo - 1)) {
        Some(lo)
    } else {
        label_fault(c, a, lo + 1, hi)
    }
}

/// The minimum of `own` and `s[a..a + j]` (0 out of range).
pub open spec fn fold_min(own: u16, s: Seq<u16>, a: int, j: nat) -> u16
    decreases j,
{
    if j == 0 {
        own
    } else {
        let m = fold_min(own, s, a, (j - 1) as nat);
        let x = at16(s, a + j - 1);
        if x < m { x } else { m }
    }
}

/// The maximum of `own` and `s[a..a + j]` (0 out of range).
pub open spec fn fold_max(own: u16, s: Seq<u16>, a: int, j: nat) -> u16
    decreases j,
{
    if j == 0 {
        own
    } else {
        let m = fold_max(own, s, a, (j - 1) as nat);
        let x = at16(s, a + j - 1);
        if x > m { x } else { m }
    }
}

/// The union of the classes of the labels and of the masks of the
/// children `a..a + j`.
pub open spec fn fold_mask(labels: Seq<u32>, masks: Seq<u64>, a: int, j: nat) -> u64
    decreases j,
{
    if j == 0 {
        0
    } else {
        fold_mask(labels, masks, a, (j - 1) as nat) | crate::cost::sym_class(at32(labels, a + j - 1)) | at64(masks, a + j - 1)
    }
}

/// The first failed check of node `v`: its child range, its depth, its
/// children's labels, its term id, then its stored aggregates against the
/// ones recomputed from its children.
pub open spec fn node_fault(c: Contents, v: nat) -> Option<FormatError> {
    let a = c.children[v as int] as int;
    let b = c.children[v + 1 as int] as int;
    let d = depth_at(c, v);
    let tid = c.term_ids[v as int];
    let k = (b - a) as nat;
    let own_min: u16 = if tid != 0xFFFF_FFFFu32 { d as u16 } else { 0xFFFF };
    let own_max: u16 = if tid != 0xFFFF_FFFFu32 { d as u16 } else { 0 };
    let own_w: u16 = if tid != 0xFFFF_FFFFu32 { c.weights[tid as int] } else { 0 };
    if b < a || b - a > 65535 || a <= v {
        Some(FormatError::BadChildren { node: v as u32 })
    } else if d > 65535 {
        Some(FormatError::TooDeep { node: v as u32 })
    } else if label_fault(c, a, a, b) is Some {
        Some(FormatError::BadLabel { node: label_fault(c, a, a, b)->0 as u32 })
    } else if tid != 0xFFFF_FFFFu32 && tid >= c.t() {
        Some(FormatError::BadTermId { node: v as u32 })
    } else if tid == 0xFFFF_FFFFu32 && a == b {
        Some(FormatError::BadTermId { node: v as u32 })
    } else if c.len_min[v as int] != fold_min(own_min, c.len_min, a, k)
        || c.len_max[v as int] != fold_max(own_max, c.len_max, a, k) {
        Some(FormatError::BadLenBounds { node: v as u32 })
    } else if c.below_mask[v as int] != fold_mask(c.labels, c.below_mask, a, k) {
        Some(FormatError::BadBelowMask { node: v as u32 })
    } else if c.max_weight[v as int] != fold_max(own_w, c.max_weight, a, k) {
        Some(FormatError::BadMaxWeight { node: v as u32 })
    } else {
        None
    }
}

/// Number of nodes before `v` that carry a term.
pub open spec fn terminals(c: Contents, v: nat) -> nat
    decreases v,
{
    if v == 0 { 0 } else { terminals(c, (v - 1) as nat) + if c.term_ids[v - 1] != 0xFFFF_FFFFu32 { 1nat } else { 0nat } }
}

/// The first failed node check from `v` on, then the count of nodes that
/// carry a term.
pub open spec fn nodes_fault(c: Contents, v: nat) -> Option<FormatError>
    decreases c.n() - v,
{
    if v >= c.n() {
        if terminals(c, c.n()) != c.t() {
            Some(FormatError::TerminalCount { found: terminals(c, c.n()) as u32, expected: c.t() as u32 })
        } else {
            None
        }
    } else {
        match node_fault(c, v) {
            Some(e) => Some(e),
            None => nodes_fault(c, v + 1),
        }
    }
}

/// The first failed tree check: the root's child range, the end of the
/// child offsets, the root's label and term id, then each node in order.
pub open spec fn tree_fault(c: Contents) -> Option<FormatError> {
    if c.children[0] != 1 {
        Some(FormatError::BadChildren { node: 0 })
    } else if c.children[c.n() as int] != c.n() {
        Some(FormatError::BadChildren { node: c.n() as u32 })
    } else if c.labels[0] != 0 {
        Some(FormatError::BadLabel { node: 0 })
    } else if c.term_ids[0] != 0xFFFF_FFFFu32 {
        Some(FormatError::BadTermId { node: 0 })
    } else {
        nodes_fault(c, 0)
    }
}

fn get32(s: &Vec<u32>, i: usize) -> (r: u32)
    ensures
        r == at32(s@, i as int),
{
    if i < s.len() { s[i] } else { 0 }
}

fn get16(s: &Vec<u16>, i: usize) -> (r: u16)
    ensures
        r == at16(s@, i as int),
{
    if i < s.len() { s[i] } else { 0 }
}

fn get64(s: &Vec<u64>, i: usize) -> (r: u64)
    ensures
        r == at64(s@, i as int),
{
    if i < s.len() { s[i] } else { 0 }
}

/// The arrays of the node sections, read.
struct NodeArrays {
    labels: Vec<u32>,
    children: Vec<u32>,
    term_ids: Vec<u32>,
    len_min: Vec<u16>,
    len_max: Vec<u16>,
    max_weight: Vec<u16>,
    below_mask: Vec<u64>,
}

impl NodeArrays {
    /// The arrays are those of `c`.
    spec fn of(&self, c: Contents) -> bool {
        &&& self.labels@ == c.labels
        &&& self.children@ == c.children
        &&& self.term_ids@ == c.term_ids
        &&& self.len_min@ == c.len_min
        &&& self.len_max@ == c.len_max
        &&& self.max_weight@ == c.max_weight
        &&& self.below_mask@ == c.below_mask
    }
}

/// Checks the labels of the children `a..b` of a node.
fn check_labels(c: Ghost<Contents>, labels: &Vec<u32>, a: usize, b: usize) -> (r: Result<(), FormatError>)
    requires
        labels@ == c@.labels,
        a <= b,
        b <= 0xFFFF_FFFF,
    ensures
        match r {
            Ok(()) => label_fault(c@, a as int, a as int, b as int) is None,
            Err(e) => label_fault(c@, a as int, a as int, b as int) is Some
                && e == FormatError::BadLabel { node: label_fault(c@, a as int, a as int, b as int)->0 as u32 },
        },
{
    let mut x = a;
    while x < b
        invariant
            labels@ == c@.labels,
            a <= x <= b,
            b <= 0xFFFF_FFFF,
            label_fault(c@, a as int, a as int, b as int) == label_fault(c@, a as int, x as int, b as int),
        decreases b - x,
    {
        let sym = get32(labels, x);
        let bad = !(sym < 0xD800 || (0xE000 <= sym && sym <= 0x10FFFF)) || (x > a && sym <= get32(labels, x - 1));
        if bad {
            return Err(FormatError::BadLabel { node: x as u32 });
        }
        x = x + 1;
    }
    Ok(())
}

/// Recomputes the aggregates of a node from its children `a..b` and its own
/// term, and compares them with the stored ones.
fn check_aggregates(
    c: Ghost<Contents>,
    arr: &NodeArrays,
    weights: &Vec<u16>,
    v: usize,
    a: usize,
    b: usize,
    own_min: u16,
    own_max: u16,
    own_w: u16,
) -> (r: Result<(), FormatError>)
    requires
        arr.of(c@),
        c@.sized(),
        v < c@.n(),
        a <= b,
        b <= 0xFFFF_FFFF,
    ensures
        ({
            let k = (b - a) as nat;
            match r {
                Ok(()) => {
                    &&& c@.len_min[v as int] == fold_min(own_min, c@.len_min, a as int, k)
                    &&& c@.len_max[v as int] == fold_max(own_max, c@.len_max, a as int, k)
                    &&& c@.below_mask[v as int] == fold_mask(c@.labels, c@.below_mask, a as int, k)
                    &&& c@.max_weight[v as int] == fold_max(own_w, c@.max_weight, a as int, k)
                },
                Err(e) => {
                    if c@.len_min[v as int] != fold_min(own_min, c@.len_min, a as int, k)
                        || c@.len_max[v as int] != fold_max(own_max, c@.len_max, a as int, k) {
                        e == FormatError::BadLenBounds { node: v as u32 }
                    } else if c@.below_mask[v as int] != fold_mask(c@.labels, c@.below_mask, a as int, k) {
                        e == FormatError::BadBelowMask { node: v as u32 }
                    } else {
                        &&& c@.max_weight[v as int] != fold_max(own_w, c@.max_weight, a as int, k)
                        &&& e == FormatError::BadMaxWeight { node: v as u32 }
                    }
                },
            }
        }),
{
    let mut lmin = own_min;
    let mut lmax = own_max;
    let mut w = own_w;
    let mut mask: u64 = 0;
    let mut x = a;
    while x < b
        invariant
            arr.of(c@),
            a <= x <= b,
            b <= 0xFFFF_FFFF,
            lmin == fold_min(own_min, c@.len_min, a as int, (x - a) as nat),
            lmax == fold_max(own_max, c@.len_max, a as int, (x - a) as nat),
            w == fold_max(own_w, c@.max_weight, a as int, (x - a) as nat),
            mask == fold_mask(c@.labels, c@.below_mask, a as int, (x - a) as nat),
        decreases b - x,
    {
        let m = get16(&arr.len_min, x);
        if m < lmin {
            lmin = m;
        }
        let m = get16(&arr.len_max, x);
        if m > lmax {
            lmax = m;
        }
        let m = get16(&arr.max_weight, x);
        if m > w {
            w = m;
        }
        mask = mask | crate::cost::symbol_class(get32(&arr.labels, x)) | get64(&arr.below_mask, x);
        x = x + 1;
    }
    if arr.len_min[v] != lmin || arr.len_max[v] != lmax {
        return Err(FormatError::BadLenBounds { node: v as u32 });
    }
    if arr.below_mask[v] != mask {
        return Err(FormatError::BadBelowMask { node: v as u32 });
    }
    if arr.max_weight[v] != w {
        return Err(FormatError::BadMaxWeight { node: v as u32 });
    }
    Ok(())
}

/// Checks the tree, in the order of [`tree_fault`], in one pass.
fn check_tree(c: Ghost<Contents>, arr: &NodeArrays, weights: &Vec<u16>, n: u32, t: u32) -> (r: Result<(), FormatError>)
    requires
        arr.of(c@),
        weights@ == c@.weights,
        c@.sized(),
        n == c@.n(),
        t == c@.t(),
        n >= 1,
    ensures
        match r {
            Ok(()) => tree_fault(c@) is None,
            Err(e) => tree_fault(c@) == Some(e),
        },
{
    let nn = n as usize;
    if arr.children[0] != 1 {
        return Err(FormatError::BadChildren { node: 0 });
    }
    if arr.children[nn] != n {
        return Err(FormatError::BadChildren { node: n });
    }
    if arr.labels[0] != 0 {
        return Err(FormatError::BadLabel { node: 0 });
    }
    if arr.term_ids[0] != 0xFFFF_FFFF {
        return Err(FormatError::BadTermId { node: 0 });
    }
    let mut depth: u32 = 0;
    let mut level_end: usize = 1;
    let mut found: u32 = 0;
    let mut v: usize = 0;
    while v < nn
        invariant
            arr.of(c@),
            weights@ == c@.weights,
            c@.sized(),
            nn == n && n == c@.n() && t == c@.t(),
            v <= nn,
            level_state(c@, v as nat) == (depth as nat, level_end as nat),
            depth <= v,
            found == terminals(c@, v as nat),
            found <= v,
            tree_fault(c@) == nodes_fault(c@, v as nat),
        decreases nn - v,
    {
        let a = arr.children[v];
        let b = arr.children[v + 1];
        if b < a || b - a > 65535 || a as usize <= v {
            return Err(FormatError::BadChildren { node: v as u32 });
        }
        if v == level_end {
            depth = depth + 1;
            level_end = a as usize;
        }
        assert(depth_at(c@, v as nat) == depth);
        if depth > 65535 {
            return Err(FormatError::TooDeep { node: v as u32 });
        }
        match check_labels(c, &arr.labels, a as usize, b as usize) {
            Ok(()) => {},
            Err(e) => {
                return Err(e);
            },
        }
        let tid = arr.term_ids[v];
        let mut own_min: u16 = 0xFFFF;
        let mut own_max: u16 = 0;
        let mut own_w: u16 = 0;
        if tid != 0xFFFF_FFFF {
            if tid >= t {
                return Err(FormatError::BadTermId { node: v as u32 });
            }
            found = found + 1;
            own_min = depth as u16;
            own_max = depth as u16;
            own_w = weights[tid as usize];
        } else if a == b {
            return Err(FormatError::BadTermId { node: v as u32 });
        }
        match check_aggregates(c, arr, weights, v, a as usize, b as usize, own_min, own_max, own_w) {
            Ok(()) => {},
            Err(e) => {
                return Err(e);
            },
        }
        assert(node_fault(c@, v as nat) is None);
        v = v + 1;
    }
    if found != t {
        return Err(FormatError::TerminalCount { found, expected: t });
    }
    Ok(())
}

// ---------------------------------------------------------------------------
// Reader: the terms.

/// `a` sorts strictly before `b` in byte order.
pub open spec fn bytes_lt(a: Seq<u8>, b: Seq<u8>) -> bool
    decreases a.len(),
{
    if a.len() == 0 {
        b.len() > 0
    } else if b.len() == 0 {
        false
    } else if a[0] != b[0] {
        a[0] < b[0]
    } else {
        bytes_lt(a.drop_first(), b.drop_first())
    }
}

/// The first child in `lo..hi` labelled `sym`.
pub open spec fn find_label(c: Contents, sym: u32, lo: int, hi: int) -> Option<int>
    decreases hi - lo,
{
    if lo >= hi {
        None
    } else if at32(c.labels, lo) == sym {
        Some(lo)
    } else {
        find_label(c, sym, lo + 1, hi)
    }
}

/// The node reached from `v` by following the edges labelled `syms`.
pub open spec fn walk(c: Contents, v: int, syms: Seq<char>) -> Option<int>
    decreases syms.len(),
{
    if syms.len() == 0 {
        Some(v)
    } else {
        match find_label(c, syms[0] as u32, at32(c.children, v) as int, at32(c.children, v + 1) as int) {
            Some(w) => walk(c, w, syms.drop_first()),
            None => None,
        }
    }
}

/// The term id at node `v` (`NO_TERM` past the last node).
pub open spec fn tid_at(c: Contents, v: int) -> u32 {
    if 0 <= v < c.n() { c.term_ids[v] } else { 0xFFFF_FFFFu32 }
}

/// The bytes of term `term` in the pool.
pub open spec fn raw_term(c: Contents, term: int) -> Seq<u8> {
    c.pool.subrange(c.offsets[term] as int, c.offsets[term + 1] as int)
}

/// The first failed check of term `term`: its offsets, its UTF-8, its
/// order after the previous term, its path in the trie, its normal form
/// and its input index.
pub open spec fn term_fault(c: Contents, nz: Option<Normalizer>, term: nat) -> Option<FormatError> {
    let a = c.offsets[term as int] as int;
    let b = c.offsets[term + 1 as int] as int;
    let raw = raw_term(c, term as int);
    let chars = vstd::utf8::decode_utf8(raw);
    if b <= a || b - a > 65535 || b > c.pool.len() {
        Some(FormatError::BadTermOffsets { term: term as u32 })
    } else if !vstd::utf8::valid_utf8(raw) {
        Some(FormatError::InvalidUtf8 { term: term as u32 })
    } else if term > 0 && !bytes_lt(raw_term(c, term - 1), raw) {
        Some(FormatError::TermsNotSorted { term: term as u32 })
    } else if walk(c, 0, chars) is None || tid_at(c, walk(c, 0, chars)->0) != term {
        Some(FormatError::TermNotInTrie { term: term as u32 })
    } else if nz is Some && crate::text::norm_str(nz->0, chars) != chars {
        Some(FormatError::TermNotNormalized { term: term as u32 })
    } else if c.inputs[term as int] == 0xFFFF_FFFFu32 {
        Some(FormatError::BadInputIndex { term: term as u32 })
    } else {
        None
    }
}

/// The first failed term check from `term` on.
pub open spec fn terms_scan(c: Contents, nz: Option<Normalizer>, term: nat) -> Option<FormatError>
    decreases c.t() - term,
{
    if term >= c.t() {
        None
    } else {
        match term_fault(c, nz, term) {
            Some(e) => Some(e),
            None => terms_scan(c, nz, term + 1),
        }
    }
}

/// The first failed term check: the first and last offsets, then each term
/// in order.
pub open spec fn terms_fault(c: Contents, nz: Option<Normalizer>) -> Option<FormatError> {
    if c.offsets[0] != 0 {
        Some(FormatError::BadTermOffsets { term: 0 })
    } else if c.offsets[c.t() as int] != c.pool.len() {
        Some(FormatError::BadTermOffsets { term: c.t() as u32 })
    } else {
        terms_scan(c, nz, 0)
    }
}

/// A well-formed first scalar is a scalar value.
proof fn lemma_first_scalar_value(s: Seq<u8>)
    requires
        vstd::utf8::valid_first_scalar(s),
    ensures
        scalar(vstd::utf8::decode_first_scalar(s)),
{
    let b0 = s[0];
    if vstd::utf8::is_leading_byte_width_1(b0) {
        assert(vstd::utf8::codepoint_width_1(b0) <= 0x7F) by (bit_vector);
    } else if vstd::utf8::is_leading_byte_width_2(b0) {
        let b1 = s[1];
        assert(vstd::utf8::codepoint_width_2(b0, b1) <= 0x7FF) by (bit_vector);
    } else if vstd::utf8::is_leading_byte_width_3(b0) {
        let (b1, b2) = (s[1], s[2]);
        assert(vstd::utf8::codepoint_width_3(b0, b1, b2) <= 0xFFFF) by (bit_vector);
    }
}

/// The characters of `raw`, if it is valid UTF-8.
fn decode_text(raw: &[u8]) -> (r: Option<String>)
    ensures
        r is Some <==> vstd::utf8::valid_utf8(raw@),
        r matches Some(s) ==> s@ == vstd::utf8::decode_utf8(raw@),
{
    let mut out = String::new();
    let mut p: usize = 0;
    assert(raw@.skip(0) =~= raw@);
    while p < raw.len()
        invariant
            p <= raw.len(),
            vstd::utf8::valid_utf8(raw@) == vstd::utf8::valid_utf8(raw@.skip(p as int)),
            vstd::utf8::valid_utf8(raw@.skip(p as int)) ==> vstd::utf8::decode_utf8(raw@) == out@ + vstd::utf8::decode_utf8(raw@.skip(p as int)),
        decreases raw.len() - p,
    {
        let ghost s = raw@.skip(p as int);
        match crate::text::first_scalar(raw, p) {
            None => {
                return None;
            },
            Some((cp, len)) => {
                proof {
                    lemma_first_scalar_value(s);
                    assert(vstd::utf8::pop_first_scalar(s) =~= raw@.skip(p + len));
                }
                match crate::chars::char_from_u32(cp) {
                    Some(ch) => {
                        proof {
                            vstd::utf8::char_u32_cast(ch, cp);
                            if vstd::utf8::valid_utf8(s) {
                                assert(vstd::utf8::decode_utf8(s) == seq![ch] + vstd::utf8::decode_utf8(raw@.skip(p + len)));
                                assert(out@.push(ch) + vstd::utf8::decode_utf8(raw@.skip(p + len)) =~= out@ + vstd::utf8::decode_utf8(s));
                            }
                        }
                        crate::chars::push_char(&mut out, ch);
                        p = p + len;
                    },
                    None => {
                        return None;
                    },
                }
            },
        }
    }
    proof {
        assert(raw@.skip(p as int) =~= Seq::<u8>::empty());
        assert(vstd::utf8::decode_utf8(Seq::<u8>::empty()) =~= Seq::<char>::empty());
        assert(out@ + Seq::<char>::empty() =~= out@);
    }
    Some(out)
}

/// Whether `b[a0..a1]` sorts strictly before `b[b0..b1]`.
fn slice_lt(b: &[u8], a0: usize, a1: usize, b0: usize, b1: usize) -> (r: bool)
    requires
        a0 <= a1 <= b.len(),
        b0 <= b1 <= b.len(),
    ensures
        r == bytes_lt(b@.subrange(a0 as int, a1 as int), b@.subrange(b0 as int, b1 as int)),
{
    let mut i = a0;
    let mut j = b0;
    while i < a1 && j < b1
        invariant
            a0 <= i <= a1 <= b.len(),
            b0 <= j <= b1 <= b.len(),
            i - a0 == j - b0,
            bytes_lt(b@.subrange(a0 as int, a1 as int), b@.subrange(b0 as int, b1 as int))
                == bytes_lt(b@.subrange(i as int, a1 as int), b@.subrange(j as int, b1 as int)),
        decreases a1 - i,
    {
        if b[i] != b[j] {
            return b[i] < b[j];
        }
        proof {
            assert(b@.subrange(i as int, a1 as int).drop_first() =~= b@.subrange(i + 1, a1 as int));
            assert(b@.subrange(j as int, b1 as int).drop_first() =~= b@.subrange(j + 1, b1 as int));
        }
        i = i + 1;
        j = j + 1;
    }
    j < b1
}

/// The first child of `v` labelled `sym` (none past the last node).
fn find_child(c: Ghost<Contents>, arr: &NodeArrays, v: usize, sym: u32) -> (r: Option<usize>)
    requires
        arr.of(c@),
        c@.sized(),
    ensures
        r is None <==> find_label(c@, sym, at32(c@.children, v as int) as int, at32(c@.children, v + 1) as int) is None,
        r matches Some(x) ==> find_label(c@, sym, at32(c@.children, v as int) as int, at32(c@.children, v + 1) as int) == Some(x as int),
{
    let a = get32(&arr.children, v) as usize;
    let b = if v < usize::MAX { get32(&arr.children, v + 1) as usize } else { 0 };
    let mut x = a;
    while x < b
        invariant
            arr.of(c@),
            a <= x,
            a == at32(c@.children, v as int),
            b == at32(c@.children, v + 1),
            find_label(c@, sym, a as int, b as int) == find_label(c@, sym, x as int, b as int),
        decreases b - x,
    {
        if get32(&arr.labels, x) == sym {
            return Some(x);
        }
        x = x + 1;
    }
    None
}

/// The node reached from the root by the edges labelled `chars`.
fn walk_exec(c: Ghost<Contents>, arr: &NodeArrays, chars: &Vec<char>) -> (r: Option<usize>)
    requires
        arr.of(c@),
        c@.sized(),
    ensures
        r is None <==> walk(c@, 0, chars@) is None,
        r matches Some(v) ==> walk(c@, 0, chars@) == Some(v as int),
{
    let mut v: usize = 0;
    let mut i: usize = 0;
    assert(chars@.skip(0) =~= chars@);
    while i < chars.len()
        invariant
            arr.of(c@),
            c@.sized(),
            i <= chars.len(),
            walk(c@, 0, chars@) == walk(c@, v as int, chars@.skip(i as int)),
        decreases chars.len() - i,
    {
        let sym = chars[i] as u32;
        proof {
            assert(chars@.skip(i as int)[0] == chars[i as int]);
            assert(chars@.skip(i as int).drop_first() =~= chars@.skip(i + 1));
        }
        let ghost rest = chars@.skip(i as int);
        let ghost lo = at32(c@.children, v as int) as int;
        let ghost hi = at32(c@.children, v + 1) as int;
        assert(walk(c@, v as int, rest) == match find_label(c@, rest[0] as u32, lo, hi) {
            Some(w) => walk(c@, w, rest.drop_first()),
            None => None,
        });
        match find_child(c, arr, v, sym) {
            Some(w) => {
                v = w;
            },
            None => {
                return None;
            },
        }
        i = i + 1;
    }
    assert(chars@.skip(i as int) =~= Seq::<char>::empty());
    Some(v)
}

/// Checks the terms, in the order of [`terms_fault`], and returns their
/// texts.
fn check_terms(
    c: Ghost<Contents>,
    arr: &NodeArrays,
    bytes: &[u8],
    pool_at: usize,
    offsets: &Vec<u32>,
    inputs: &Vec<u32>,
    nz: Option<Normalizer>,
    t: u32,
    p: u32,
) -> (r: Result<Vec<String>, FormatError>)
    requires
        p == c@.p(),
        arr.of(c@),
        c@.sized(),
        pool_at + c@.p() <= bytes.len(),
        bytes@.subrange(pool_at as int, pool_at + c@.p()) == c@.pool,
        offsets@ == c@.offsets,
        inputs@ == c@.inputs,
        t == c@.t(),
    ensures
        match r {
            Ok(texts) => {
                &&& terms_fault(c@, nz) is None
                &&& texts.len() == t
                &&& forall|i: int| 0 <= i < t ==> #[trigger] texts[i]@ == vstd::utf8::decode_utf8(raw_term(c@, i))
            },
            Err(e) => terms_fault(c@, nz) == Some(e),
        },
{
    if offsets[0] != 0 {
        return Err(FormatError::BadTermOffsets { term: 0 });
    }
    let pl = p as usize;
    if offsets[t as usize] as usize != pl {
        return Err(FormatError::BadTermOffsets { term: t });
    }
    let mut texts: Vec<String> = Vec::new();
    let mut term: u32 = 0;
    while term < t
        invariant
            arr.of(c@),
            c@.sized(),
            pool_at + c@.p() <= bytes.len(),
            bytes@.subrange(pool_at as int, pool_at + c@.p()) == c@.pool,
            offsets@ == c@.offsets,
            inputs@ == c@.inputs,
            t == c@.t(),
            pl == c@.p(),
            term <= t,
            texts.len() == term,
            term > 0 ==> c@.offsets[term - 1] < c@.offsets[term as int] <= pl,
            forall|i: int| 0 <= i < term ==> #[trigger] texts[i]@ == vstd::utf8::decode_utf8(raw_term(c@, i)),
            terms_fault(c@, nz) == terms_scan(c@, nz, term as nat),
        decreases t - term,
    {
        let i = term as usize;
        let a = offsets[i] as usize;
        let b = offsets[i + 1] as usize;
        if b <= a || b - a > 65535 || b > pl {
            return Err(FormatError::BadTermOffsets { term });
        }
        let raw = vstd::slice::slice_subrange(bytes, pool_at + a, pool_at + b);
        proof {
            assert(raw@ =~= raw_term(c@, i as int));
        }
        let text = match decode_text(raw) {
            Some(s) => s,
            None => {
                return Err(FormatError::InvalidUtf8 { term });
            },
        };
        if term > 0 {
            let pa = offsets[i - 1] as usize;
            let pb = offsets[i] as usize;
            proof {
                assert(bytes@.subrange(pool_at + pa, pool_at + pb) =~= raw_term(c@, i - 1));
                assert(bytes@.subrange(pool_at + a, pool_at + b) =~= raw_term(c@, i as int));
            }
            if !slice_lt(bytes, pool_at + pa, pool_at + pb, pool_at + a, pool_at + b) {
                return Err(FormatError::TermsNotSorted { term });
            }
        }
        let chars = crate::chars::chars_of(text.as_str());
        let node = match walk_exec(c, arr, &chars) {
            Some(v) => v,
            None => {
                return Err(FormatError::TermNotInTrie { term });
            },
        };
        let tid = if node < arr.term_ids.len() { arr.term_ids[node] } else { 0xFFFF_FFFF };
        if tid != term {
            return Err(FormatError::TermNotInTrie { term });
        }
        match nz {
            Some(z) => {
                if !crate::text::is_normalized(&z, text.as_str()) {
                    return Err(FormatError::TermNotNormalized { term });
                }
            },
            None => {},
        }
        if inputs[i] == 0xFFFF_FFFF {
            return Err(FormatError::BadInputIndex { term });
        }
        texts.push(text);
        term = term + 1;
    }
    Ok(texts)
}

// ---------------------------------------------------------------------------
// Reader: loading.

/// Reads `count` little-endian `u16` fields from `off` on.
fn read_u16s(b: &[u8], off: usize, count: usize) -> (r: Vec<u16>)
    requires
        off + 2 * count <= b.len(),
    ensures
        r@ == Seq::new(count as nat, |v: int| le(b@, off + 2 * v, 2) as u16),
{
    let mut r: Vec<u16> = Vec::new();
    let mut v: usize = 0;
    while v < count
        invariant
            off + 2 * count <= b.len(),
            v <= count,
            r@ == Seq::new(v as nat, |w: int| le(b@, off + 2 * w, 2) as u16),
        decreases count - v,
    {
        r.push(at_u16(b, off + 2 * v));
        assert(r@ =~= Seq::new((v + 1) as nat, |w: int| le(b@, off + 2 * w, 2) as u16));
        v = v + 1;
    }
    r
}

/// Reads `count` little-endian `u32` fields from `off` on.
fn read_u32s(b: &[u8], off: usize, count: usize) -> (r: Vec<u32>)
    requires
        off + 4 * count <= b.len(),
    ensures
        r@ == Seq::new(count as nat, |v: int| le(b@, off + 4 * v, 4) as u32),
{
    let mut r: Vec<u32> = Vec::new();
    let mut v: usize = 0;
    while v < count
        invariant
            off + 4 * count <= b.len(),
            v <= count,
            r@ == Seq::new(v as nat, |w: int| le(b@, off + 4 * w, 4) as u32),
        decreases count - v,
    {
        r.push(at_u32(b, off + 4 * v));
        assert(r@ =~= Seq::new((v + 1) as nat, |w: int| le(b@, off + 4 * w, 4) as u32));
        v = v + 1;
    }
    r
}

/// Reads `count` little-endian `u64` fields from `off` on.
fn read_u64s(b: &[u8], off: usize, count: usize) -> (r: Vec<u64>)
    requires
        off + 8 * count <= b.len(),
    ensures
        r@ == Seq::new(count as nat, |v: int| le(b@, off + 8 * v, 8) as u64),
{
    let mut r: Vec<u64> = Vec::new();
    let mut v: usize = 0;
    while v < count
        invariant
            off + 8 * count <= b.len(),
            v <= count,
            r@ == Seq::new(v as nat, |w: int| le(b@, off + 8 * w, 8) as u64),
        decreases count - v,
    {
        r.push(at_u64(b, off + 8 * v));
        assert(r@ =~= Seq::new((v + 1) as nat, |w: int| le(b@, off + 8 * w, 8) as u64));
        v = v + 1;
    }
    r
}

/// Each section lies inside the index.
proof fn lemma_sec_within(n: nat, t: nat, p: nat, i: nat)
    requires
        i < 11,
    ensures
        sec_off(n, t, p, i) + sec_len(n, t, p, i as int) <= sec_off(n, t, p, 11),
{
    reveal(sec_off);
    let x = sec_off(n, t, p, i) + sec_len(n, t, p, i as int);
    assert(round8_spec(x) >= x);
    assert(sec_off(n, t, p, i + 1) == round8_spec(x));
    lemma_sec_monotone(n, t, p, i + 1, 11);
}

/// The first failed check of `b` as an index: the header, the tree, then
/// the terms.
pub open spec fn index_fault(b: Seq<u8>) -> Option<FormatError> {
    match header_fault(b) {
        Some(e) => Some(e),
        None => match tree_fault(decoded(b)) {
            Some(e) => Some(e),
            None => terms_fault(decoded(b), hdr_normalizer(b)),
        },
    }
}

/// `trie` holds the contents `c` with the normaliser `nz`: the node arrays
/// (first children and child counts from the child offsets), the term
/// weights, input indices and texts.
pub open spec fn holds_contents(trie: Trie, c: Contents, nz: Option<Normalizer>) -> bool {
    &&& trie.nodes() == c.n()
    &&& trie.labels_spec() == c.labels
    &&& trie.starts_spec() == c.children.take(c.n() as int)
    &&& trie.counts_spec() == Seq::new(c.n(), |v: int| (c.children[v + 1] - c.children[v]) as u16)
    &&& trie.term_ids_spec() == c.term_ids
    &&& trie.len_mins_spec() == c.len_min
    &&& trie.len_maxs_spec() == c.len_max
    &&& trie.max_weights_spec() == c.max_weight
    &&& trie.masks_spec() == c.below_mask
    &&& trie.weights_spec() == c.weights
    &&& trie.inputs_spec() == c.inputs
    &&& trie.term_texts() == Seq::new(c.t(), |i: int| vstd::utf8::decode_utf8(raw_term(c, i)))
    &&& trie.normalizer_spec() == nz
}

/// Every node after `v` passes its checks when the scan from `v` does.
proof fn lemma_nodes_ok(c: Contents, v: nat)
    requires
        nodes_fault(c, v) is None,
    ensures
        forall|u: nat| v <= u < c.n() ==> #[trigger] node_fault(c, u) is None,
        terminals(c, c.n()) == c.t(),
    decreases c.n() - v,
{
    if v < c.n() {
        lemma_nodes_ok(c, v + 1);
    }
}

/// What a node that passes its checks satisfies.
proof fn lemma_node_ok(c: Contents, v: nat)
    requires
        c.sized(),
        v < c.n(),
        node_fault(c, v) is None,
    ensures
        c.children[v as int] <= c.children[v + 1 as int],
        c.children[v as int] > v,
        c.children[v + 1 as int] - c.children[v as int] <= 65535,
        c.term_ids[v as int] == 0xFFFF_FFFFu32 || c.term_ids[v as int] < c.t(),
{
}

/// A valid tree has child offsets that grow from 1 to the node count, each
/// range after its node and at most 65535 long.
#[verifier::spinoff_prover]
#[verifier::rlimit(40)]
proof fn lemma_children(c: Contents)
    requires
        c.sized(),
        c.n() >= 1,
        tree_fault(c) is None,
    ensures
        forall|v: int| 0 <= v < c.n() ==> #[trigger] c.children[v] <= c.children[v + 1],
        forall|v: int| 0 <= v < c.n() ==> #[trigger] c.children[v] > v && c.children[v + 1] - c.children[v] <= 65535,
        forall|i: int, j: int| 0 <= i <= j <= c.n() ==> #[trigger] c.children[i] <= #[trigger] c.children[j],
        forall|v: int| 0 <= v < c.n() ==> (#[trigger] c.term_ids[v] == 0xFFFF_FFFFu32 || c.term_ids[v] < c.t()),
        c.children[c.n() as int] == c.n(),
{
    lemma_nodes_ok(c, 0);
    assert forall|v: int| 0 <= v < c.n() implies #[trigger] c.children[v] <= c.children[v + 1]
        && c.children[v] > v && c.children[v + 1] - c.children[v] <= 65535
        && (c.term_ids[v] == 0xFFFF_FFFFu32 || c.term_ids[v] < c.t()) by {
        lemma_node_ok(c, v as nat);
    }
    assert forall|v: int| 0 <= v < c.n() implies (#[trigger] c.term_ids[v] == 0xFFFF_FFFFu32 || c.term_ids[v] < c.t()) by {
        lemma_node_ok(c, v as nat);
    }
    assert forall|i: int, j: int| 0 <= i <= j <= c.n() implies #[trigger] c.children[i] <= #[trigger] c.children[j] by {
        lemma_children_mono(c, i, j);
    }
}

proof fn lemma_children_mono(c: Contents, i: int, j: int)
    requires
        c.sized(),
        0 <= i <= j <= c.n(),
        forall|v: int| 0 <= v < c.n() ==> #[trigger] c.children[v] <= c.children[v + 1],
    ensures
        c.children[i] <= c.children[j],
    decreases j - i,
{
    if i < j {
        lemma_children_mono(c, i, j - 1);
        assert(c.children[j - 1] <= c.children[j]);
    }
}

/// The parent of each node of a valid tree, from its child ranges.
fn parents(c: Ghost<Contents>, children: &Vec<u32>, n: usize) -> (r: Vec<u32>)
    requires
        c@.sized(),
        children@ == c@.children,
        n == c@.n(),
        n >= 1,
        forall|i: int, j: int| 0 <= i <= j <= c@.n() ==> #[trigger] c@.children[i] <= #[trigger] c@.children[j],
        c@.children[c@.n() as int] == c@.n(),
    ensures
        r.len() == n,
        forall|v: int, x: int| #![trigger c@.children[v], r[x]]
            0 <= v < n && c@.children[v] <= x < c@.children[v + 1] ==> r[x] == v,
{
    let mut r: Vec<u32> = Vec::new();
    let mut i: usize = 0;
    while i < n
        invariant
            i <= n,
            r.len() == i,
        decreases n - i,
    {
        r.push(0);
        i = i + 1;
    }
    let mut v: usize = 0;
    while v < n
        invariant
            c@.sized(),
            children@ == c@.children,
            n == c@.n(),
            forall|i: int, j: int| 0 <= i <= j <= c@.n() ==> #[trigger] c@.children[i] <= #[trigger] c@.children[j],
            c@.children[c@.n() as int] == c@.n(),
            v <= n,
            r.len() == n,
            forall|u: int, x: int| #![trigger c@.children[u], r[x]]
                0 <= u < v && c@.children[u] <= x < c@.children[u + 1] ==> r[x] == u,
        decreases n - v,
    {
        let a = children[v] as usize;
        let b = children[v + 1] as usize;
        proof {
            assert(c@.children[v + 1] <= c@.children[n as int]);
        }
        let mut x = a;
        while x < b
            invariant
                c@.sized(),
                children@ == c@.children,
                n == c@.n(),
                forall|i: int, j: int| 0 <= i <= j <= c@.n() ==> #[trigger] c@.children[i] <= #[trigger] c@.children[j],
                v < n,
                a == c@.children[v as int],
                b == c@.children[v + 1],
                b <= n,
                a <= x,
                r.len() == n,
                forall|u: int, y: int| #![trigger c@.children[u], r[y]]
                    0 <= u < v && c@.children[u] <= y < c@.children[u + 1] ==> r[y] == u,
                forall|y: int| a <= y < x ==> r[y] == v,
            decreases b - x,
        {
            proof {
                assert forall|u: int, y: int| #![trigger c@.children[u], r[y]]
                    0 <= u < v && c@.children[u] <= y < c@.children[u + 1] implies y != x by {
                    assert(c@.children[u + 1] <= c@.children[v as int]);
                }
            }
            r.set(x, v as u32);
            x = x + 1;
        }
        v = v + 1;
    }
    r
}

/// The first children and child counts of the nodes, from the offsets.
fn child_ranges(c: Ghost<Contents>, children: &Vec<u32>, n: usize) -> (r: (Vec<u32>, Vec<u16>))
    requires
        c@.sized(),
        children@ == c@.children,
        n == c@.n(),
        forall|v: int| 0 <= v < c@.n() ==> #[trigger] c@.children[v] <= c@.children[v + 1],
        forall|v: int| 0 <= v < c@.n() ==> #[trigger] c@.children[v] > v && c@.children[v + 1] - c@.children[v] <= 65535,
    ensures
        r.0@ == c@.children.take(n as int),
        r.1@ == Seq::new(n as nat, |v: int| (c@.children[v + 1] - c@.children[v]) as u16),
{
    let mut starts: Vec<u32> = Vec::new();
    let mut counts: Vec<u16> = Vec::new();
    let mut v: usize = 0;
    while v < n
        invariant
            c@.sized(),
            children@ == c@.children,
            n == c@.n(),
            forall|u: int| 0 <= u < c@.n() ==> #[trigger] c@.children[u] <= c@.children[u + 1],
            forall|u: int| 0 <= u < c@.n() ==> #[trigger] c@.children[u] > u && c@.children[u + 1] - c@.children[u] <= 65535,
            v <= n,
            starts@ == c@.children.take(v as int),
            counts@ == Seq::new(v as nat, |u: int| (c@.children[u + 1] - c@.children[u]) as u16),
        decreases n - v,
    {
        starts.push(children[v]);
        assert(c@.children[v as int] <= c@.children[v + 1]);
        counts.push((children[v + 1] - children[v]) as u16);
        assert(starts@ =~= c@.children.take(v + 1));
        assert(counts@ =~= Seq::new((v + 1) as nat, |u: int| (c@.children[u + 1] - c@.children[u]) as u16));
        v = v + 1;
    }
    (starts, counts)
}

// ---------------------------------------------------------------------------
// The view.

/// A validated index: the bytes it was read from, and the trie they hold.
///
/// Built by [`Index::from_bytes`], which checks everything once. Node ids,
/// term ids and every accessor mean what they mean on [`Trie`]; the
/// accessors return `0`, `'\0'`, `""`, an empty range or `NO_TERM` for an
/// out-of-range argument instead of failing. Searching it gives what the
/// same `Searcher` methods give on the trie it holds.
#[derive(Debug)]
pub struct Index<'a> {
    bytes: &'a [u8],
    trie: Trie,
}

impl<'a> Index<'a> {
    /// The trie held is well formed, spells its terms, and carries each
    /// term at one node only.
    #[verifier::type_invariant]
    spec fn inv(self) -> bool {
        &&& self.trie.wf()
        &&& self.trie.spells_terms()
        &&& self.trie.ends_once()
    }

    /// The trie the index holds.
    pub closed spec fn content(self) -> Trie {
        self.trie
    }

    /// The bytes the index was read from.
    pub closed spec fn source(self) -> Seq<u8> {
        self.bytes@
    }

    /// Validates `bytes` as an index and returns a view of them.
    ///
    /// Runs every check in order and returns the first failure: the header,
    /// the length and the CRC-32; the tree (child ranges breadth first, each
    /// after its parent, valid and sorted labels, term ids, every per-node
    /// bound recomputed and compared); the terms (offsets, UTF-8, order,
    /// each found in the trie at its id, normalised if a normaliser is
    /// recorded, input indices).
    pub fn from_bytes(bytes: &'a [u8]) -> (r: Result<Index<'a>, FormatError>)
        ensures
            match r {
                Ok(ix) => {
                    &&& index_fault(bytes@) is None
                    &&& ix.source() == bytes@
                    &&& ix.content().wf()
                    &&& ix.content().spells_terms()
                    &&& ix.content().ends_once()
                    &&& holds_contents(ix.content(), decoded(bytes@), hdr_normalizer(bytes@))
                },
                Err(e) => index_fault(bytes@) == Some(e),
            },
    {
        let h = match header(bytes) {
            Ok(h) => h,
            Err(e) => {
                return Err(e);
            },
        };
        let ghost c = decoded(bytes@);
        let n = h.n;
        let t = h.t;
        let p = h.p;
        let nn = n as usize;
        let tt = t as usize;
        proof {
            assert(n >= 2 && t >= 1 && total_len(n as nat, t as nat, p as nat) == bytes.len());
            lemma_sec_within(n as nat, t as nat, p as nat, 0);
            lemma_sec_within(n as nat, t as nat, p as nat, 1);
            lemma_sec_within(n as nat, t as nat, p as nat, 2);
            lemma_sec_within(n as nat, t as nat, p as nat, 3);
            lemma_sec_within(n as nat, t as nat, p as nat, 4);
            lemma_sec_within(n as nat, t as nat, p as nat, 5);
            lemma_sec_within(n as nat, t as nat, p as nat, 6);
            lemma_sec_within(n as nat, t as nat, p as nat, 7);
            lemma_sec_within(n as nat, t as nat, p as nat, 8);
            lemma_sec_within(n as nat, t as nat, p as nat, 9);
            lemma_sec_within(n as nat, t as nat, p as nat, 10);
        }
        let o0 = h.sections[0].offset as usize;
        let o1 = h.sections[1].offset as usize;
        let o2 = h.sections[2].offset as usize;
        let o3 = h.sections[3].offset as usize;
        let o4 = h.sections[4].offset as usize;
        let o5 = h.sections[5].offset as usize;
        let o6 = h.sections[6].offset as usize;
        let o7 = h.sections[7].offset as usize;
        let o8 = h.sections[8].offset as usize;
        let o9 = h.sections[9].offset as usize;
        let o10 = h.sections[10].offset as usize;
        let arr = NodeArrays {
            labels: read_u32s(bytes, o0, nn),
            children: read_u32s(bytes, o1, nn + 1),
            term_ids: read_u32s(bytes, o2, nn),
            len_min: read_u16s(bytes, o3, nn),
            len_max: read_u16s(bytes, o4, nn),
            max_weight: read_u16s(bytes, o5, nn),
            below_mask: read_u64s(bytes, o6, nn),
        };
        let weights = read_u16s(bytes, o7, tt);
        let inputs = read_u32s(bytes, o8, tt);
        let offsets = read_u32s(bytes, o9, tt + 1);
        proof {
            assert(arr.labels@ =~= c.labels);
            assert(arr.children@ =~= c.children);
            assert(arr.term_ids@ =~= c.term_ids);
            assert(arr.len_min@ =~= c.len_min);
            assert(arr.len_max@ =~= c.len_max);
            assert(arr.max_weight@ =~= c.max_weight);
            assert(arr.below_mask@ =~= c.below_mask);
            assert(weights@ =~= c.weights);
            assert(inputs@ =~= c.inputs);
            assert(offsets@ =~= c.offsets);
            assert(c.sized());
        }
        match check_tree(Ghost(c), &arr, &weights, n, t) {
            Ok(()) => {},
            Err(e) => {
                return Err(e);
            },
        }
        let texts = match check_terms(Ghost(c), &arr, bytes, o10, &offsets, &inputs, h.normalizer, t, p) {
            Ok(texts) => texts,
            Err(e) => {
                return Err(e);
            },
        };
        proof {
            lemma_children(c);
        }
        let parent = parents(Ghost(c), &arr.children, nn);
        let (starts, counts) = child_ranges(Ghost(c), &arr.children, nn);
        let ghost texts_view = Seq::new(texts.len() as nat, |i: int| texts[i]@);
        let trie = Trie::from_parts(
            texts,
            weights,
            inputs,
            arr.labels,
            starts,
            counts,
            arr.term_ids,
            arr.max_weight,
            arr.len_min,
            arr.len_max,
            arr.below_mask,
            parent,
            h.normalizer,
        );
        proof {
            assert(texts_view =~= Seq::new(c.t(), |i: int| vstd::utf8::decode_utf8(raw_term(c, i))));
            assert(structure_ok(trie.labels_spec(), trie.starts_spec(), trie.counts_spec(), trie.term_ids_spec(),
                trie.parents_spec(), texts_view.len()));
            assert(holds_contents(trie, decoded(bytes@), hdr_normalizer(bytes@)));
            lemma_loaded_spells(&trie, bytes@);
        }
        Ok(Index { bytes, trie })
    }

    /// The bytes the view was read from (the whole index).
    pub fn as_bytes(&self) -> (r: &'a [u8])
        ensures
            r@ == self.source(),
    {
        self.bytes
    }

    /// A copy of the trie the index holds.
    pub fn to_trie(&self) -> (r: Trie)
        ensures
            r.wf(),
            r.term_texts() == self.content().term_texts(),
            r.term_syms() == self.content().term_syms(),
            r.weights_spec() == self.content().weights_spec(),
            r.inputs_spec() == self.content().inputs_spec(),
            r.labels_spec() == self.content().labels_spec(),
            r.starts_spec() == self.content().starts_spec(),
            r.counts_spec() == self.content().counts_spec(),
            r.term_ids_spec() == self.content().term_ids_spec(),
            r.max_weights_spec() == self.content().max_weights_spec(),
            r.len_mins_spec() == self.content().len_mins_spec(),
            r.len_maxs_spec() == self.content().len_maxs_spec(),
            r.masks_spec() == self.content().masks_spec(),
            r.normalizer_spec() == self.content().normalizer_spec(),
            r.nodes() == self.content().nodes(),
    {
        proof {
            use_type_invariant(self);
        }
        self.trie.duplicate()
    }

    /// Number of distinct terms.
    pub fn len(&self) -> (r: usize)
        ensures
            r == self.content().term_syms().len(),
    {
        self.trie.len()
    }

    /// Whether the index holds no terms (never true for a valid index).
    pub fn is_empty(&self) -> (r: bool)
        ensures
            r == (self.content().term_syms().len() == 0),
    {
        self.trie.is_empty()
    }

    /// Number of trie nodes, root included.
    pub fn node_count(&self) -> (r: usize)
        ensures
            r == self.content().nodes(),
    {
        self.trie.node_count()
    }

    /// The normaliser recorded in the index.
    pub fn normalizer(&self) -> (r: Option<Normalizer>)
        ensures
            r == self.content().normalizer_spec(),
    {
        self.trie.normalizer()
    }

    /// The term with the given id (`""` for an unknown id).
    pub fn term(&self, id: u32) -> (r: &str)
        ensures
            (id as int) < self.content().term_texts().len() ==> r@ == self.content().term_texts()[id as int],
            (id as int) >= self.content().term_syms().len() ==> r@.len() == 0,
    {
        self.trie.term(id)
    }

    /// The weight of the term with the given id (0 for an unknown id).
    pub fn weight(&self, id: u32) -> (r: u16)
        ensures
            r == if (id as int) < self.content().weights_spec().len() { self.content().weights_spec()[id as int] } else { 0 },
    {
        proof {
            use_type_invariant(self);
        }
        self.trie.weight(id)
    }

    /// The input index of the term with the given id (`u32::MAX` for an
    /// unknown id).
    pub fn input_index(&self, id: u32) -> (r: u32)
        ensures
            r == if (id as int) < self.content().inputs_spec().len() { self.content().inputs_spec()[id as int] } else { 0xFFFF_FFFFu32 },
    {
        self.trie.input_index(id)
    }

    /// The symbol on the edge into node `v` (`'\0'` for the root, an
    /// unknown node or a label that is not a scalar value).
    pub fn label(&self, v: usize) -> (r: char)
        ensures
            (v as int) < self.content().nodes() && scalar(self.content().labels_spec()[v as int])
                ==> r as u32 == self.content().labels_spec()[v as int],
            !((v as int) < self.content().nodes() && scalar(self.content().labels_spec()[v as int])) ==> r == '\0',
    {
        proof {
            use_type_invariant(self);
            self.trie.lemma_wf();
        }
        if v < self.trie.node_count() {
            self.trie.label(v)
        } else {
            '\0'
        }
    }

    /// The node indices of the children of `v` (empty for an unknown node).
    pub fn children(&self, v: usize) -> (r: Range<usize>)
        ensures
            (v as int) < self.content().nodes() ==> r.start == self.content().starts_spec()[v as int]
                && r.end == self.content().starts_spec()[v as int] + self.content().counts_spec()[v as int],
            (v as int) >= self.content().nodes() ==> r.start == 0 && r.end == 0,
    {
        proof {
            use_type_invariant(self);
        }
        if v < self.trie.node_count() {
            self.trie.children(v)
        } else {
            0..0
        }
    }

    /// The id of the term that ends at `v`, or `NO_TERM`.
    pub fn term_id(&self, v: usize) -> (r: u32)
        ensures
            r == if (v as int) < self.content().nodes() { self.content().term_ids_spec()[v as int] } else { 0xFFFF_FFFFu32 },
    {
        proof {
            use_type_invariant(self);
        }
        if v < self.trie.node_count() {
            self.trie.term_id(v)
        } else {
            0xFFFF_FFFF
        }
    }

    /// The largest weight among the terms at or below `v` (0 for an
    /// unknown node).
    pub fn max_weight(&self, v: usize) -> (r: u16)
        ensures
            r == if (v as int) < self.content().nodes() { self.content().max_weights_spec()[v as int] } else { 0 },
    {
        proof {
            use_type_invariant(self);
        }
        if v < self.trie.node_count() {
            self.trie.max_weight(v)
        } else {
            0
        }
    }

    /// The length, in symbols, of the shortest term at or below `v` (0 for
    /// an unknown node).
    pub fn len_min(&self, v: usize) -> (r: u16)
        ensures
            r == if (v as int) < self.content().nodes() { self.content().len_mins_spec()[v as int] } else { 0 },
    {
        proof {
            use_type_invariant(self);
        }
        if v < self.trie.node_count() {
            self.trie.len_min(v)
        } else {
            0
        }
    }

    /// The length, in symbols, of the longest term at or below `v` (0 for an
    /// unknown node).
    pub fn len_max(&self, v: usize) -> (r: u16)
        ensures
            r == if (v as int) < self.content().nodes() { self.content().len_maxs_spec()[v as int] } else { 0 },
    {
        proof {
            use_type_invariant(self);
        }
        if v < self.trie.node_count() {
            self.trie.len_max(v)
        } else {
            0
        }
    }

    /// The symbol classes that appear on edges strictly below `v` (0 for an
    /// unknown node).
    pub fn below_mask(&self, v: usize) -> (r: u64)
        ensures
            r == if (v as int) < self.content().nodes() { self.content().masks_spec()[v as int] } else { 0 },
    {
        proof {
            use_type_invariant(self);
        }
        if v < self.trie.node_count() {
            self.trie.below_mask(v)
        } else {
            0
        }
    }

    /// [`Searcher::search`] on the trie the index holds.
    pub fn search(&self, searcher: &mut Searcher, cm: &CostModel, q: &[u8], cfg: &SearchConfig)
        -> (r: Result<Output, SearchError>)
        ensures
            search_outcome(decode_syms(q@), *cfg, r, |h: Hit| hit_ok(&self.content(), *cm, decode_syms(q@), cfg.budget, h)),
            self.content().spells_terms(),
            r matches Ok(out) ==> (holds_query(&self.content(), decode_syms(q@)) && !out.stats.truncated
                ==> out.hits.len() == cfg.k || finds_query(&self.content(), decode_syms(q@), out.hits@)),
            r matches Ok(out) ==> (!cfg.tsb && self.content().bfs_layout() && self.content().children_sorted()
                && !out.stats.truncated && out.hits.len() < cfg.k ==> forall|t: int|
                #[trigger] within_budget(&self.content(), *cm, decode_syms(q@), cfg.budget as int, t) ==> hits_term(out.hits@, t)),
    {
        proof {
            use_type_invariant(self);
        }
        searcher.search(&self.trie, cm, q, cfg)
    }

    /// [`Searcher::search_prefix`] on the trie the index holds.
    pub fn search_prefix(&self, searcher: &mut Searcher, cm: &CostModel, q: &[u8], cfg: &SearchConfig)
        -> (r: Result<Output, SearchError>)
        ensures
            search_outcome(decode_syms(q@), *cfg, r, |h: Hit| prefix_hit_ok(&self.content(), *cm, decode_syms(q@), cfg.budget, h)),
            self.content().spells_terms(),
            r matches Ok(out) ==> (holds_prefix(&self.content(), decode_syms(q@)) && !out.stats.truncated
                ==> out.hits.len() == cfg.k || finds_prefix(&self.content(), decode_syms(q@), out.hits@)),
    {
        proof {
            use_type_invariant(self);
        }
        searcher.search_prefix(&self.trie, cm, q, cfg)
    }

    /// [`Searcher::search_text`] on the trie the index holds: `q` is
    /// normalised with the recorded normaliser, if any.
    pub fn search_text(&self, searcher: &mut Searcher, cm: &CostModel, q: &str, cfg: &SearchConfig)
        -> (r: Result<Output, SearchError>)
        ensures
            search_outcome(text_syms(&self.content(), q@), *cfg, r,
                |h: Hit| hit_ok(&self.content(), *cm, text_syms(&self.content(), q@), cfg.budget, h)),
            self.content().spells_terms(),
    {
        proof {
            use_type_invariant(self);
        }
        searcher.search_text(&self.trie, cm, q, cfg)
    }

    /// [`Searcher::search_prefix_text`] on the trie the index holds.
    pub fn search_prefix_text(&self, searcher: &mut Searcher, cm: &CostModel, q: &str, cfg: &SearchConfig)
        -> (r: Result<Output, SearchError>)
        ensures
            search_outcome(text_syms(&self.content(), q@), *cfg, r,
                |h: Hit| prefix_hit_ok(&self.content(), *cm, text_syms(&self.content(), q@), cfg.budget, h)),
            self.content().spells_terms(),
    {
        proof {
            use_type_invariant(self);
        }
        searcher.search_prefix_text(&self.trie, cm, q, cfg)
    }
}

// ---------------------------------------------------------------------------
// Loading then writing gives back the bytes.

/// Writing fields read from `b` gives back their bytes.
proof fn lemma_fields32(b: Seq<u8>, off: int, count: nat)
    requires
        0 <= off,
        off + 4 * count <= b.len(),
    ensures
        f32s(Seq::new(count, |v: int| le(b, off + 4 * v, 4) as u32)) == b.subrange(off, off + 4 * count),
    decreases count,
{
    let s = Seq::new(count, |v: int| le(b, off + 4 * v, 4) as u32);
    if count == 0 {
        assert(b.subrange(off, off) =~= Seq::<u8>::empty());
    } else {
        let k = (count - 1) as nat;
        lemma_fields32(b, off, k);
        assert(s.drop_last() =~= Seq::new(k, |v: int| le(b, off + 4 * v, 4) as u32));
        lemma_le_bound(b, off + 4 * k, 4);
        assert(pow256(4) == 0x1_0000_0000) by {
            reveal_with_fuel(pow256, 5);
        }
        assert(s.last() as nat == le(b, off + 4 * k, 4));
        lemma_le_bytes_of_field(b, off + 4 * k, 4);
        assert(b.subrange(off, off + 4 * count) =~= b.subrange(off, off + 4 * k) + b.subrange(off + 4 * k, off + 4 * count));
    }
}

/// Writing fields read from `b` gives back their bytes.
proof fn lemma_fields16(b: Seq<u8>, off: int, count: nat)
    requires
        0 <= off,
        off + 2 * count <= b.len(),
    ensures
        f16s(Seq::new(count, |v: int| le(b, off + 2 * v, 2) as u16)) == b.subrange(off, off + 2 * count),
    decreases count,
{
    let s = Seq::new(count, |v: int| le(b, off + 2 * v, 2) as u16);
    if count == 0 {
        assert(b.subrange(off, off) =~= Seq::<u8>::empty());
    } else {
        let k = (count - 1) as nat;
        lemma_fields16(b, off, k);
        assert(s.drop_last() =~= Seq::new(k, |v: int| le(b, off + 2 * v, 2) as u16));
        lemma_le_bound(b, off + 2 * k, 2);
        assert(pow256(2) == 0x1_0000) by {
            reveal_with_fuel(pow256, 3);
        }
        assert(s.last() as nat == le(b, off + 2 * k, 2));
        lemma_le_bytes_of_field(b, off + 2 * k, 2);
        assert(b.subrange(off, off + 2 * count) =~= b.subrange(off, off + 2 * k) + b.subrange(off + 2 * k, off + 2 * count));
    }
}

/// Writing fields read from `b` gives back their bytes.
proof fn lemma_fields64(b: Seq<u8>, off: int, count: nat)
    requires
        0 <= off,
        off + 8 * count <= b.len(),
    ensures
        f64s(Seq::new(count, |v: int| le(b, off + 8 * v, 8) as u64)) == b.subrange(off, off + 8 * count),
    decreases count,
{
    let s = Seq::new(count, |v: int| le(b, off + 8 * v, 8) as u64);
    if count == 0 {
        assert(b.subrange(off, off) =~= Seq::<u8>::empty());
    } else {
        let k = (count - 1) as nat;
        lemma_fields64(b, off, k);
        assert(s.drop_last() =~= Seq::new(k, |v: int| le(b, off + 8 * v, 8) as u64));
        lemma_le_bound(b, off + 8 * k, 8);
        assert(pow256(8) == 0x1_0000_0000_0000_0000) by {
            reveal_with_fuel(pow256, 9);
        }
        assert(s.last() as nat == le(b, off + 8 * k, 8));
        lemma_le_bytes_of_field(b, off + 8 * k, 8);
        assert(b.subrange(off, off + 8 * count) =~= b.subrange(off, off + 8 * k) + b.subrange(off + 8 * k, off + 8 * count));
    }
}

/// A range with no non-zero byte is zeros.
proof fn lemma_zero_range(b: Seq<u8>, lo: int, hi: int)
    requires
        0 <= lo <= hi <= b.len(),
        first_nonzero(b, lo, hi) is None,
    ensures
        b.subrange(lo, hi) == zeros((hi - lo) as nat),
    decreases hi - lo,
{
    if lo < hi {
        lemma_zero_range(b, lo + 1, hi);
        assert(b.subrange(lo, hi) =~= seq![0u8] + b.subrange(lo + 1, hi));
        assert(zeros((hi - lo) as nat) =~= seq![0u8] + zeros((hi - lo - 1) as nat));
    } else {
        assert(b.subrange(lo, hi) =~= zeros(0));
    }
}

/// The table scan passes every entry from `i` on.
proof fn lemma_table_scan(b: Seq<u8>, n: nat, t: nat, p: nat, i: nat)
    requires
        table_fault(b, n, t, p, i) is None,
    ensures
        forall|j: int| i <= j < 11 ==> #[trigger] entry_ok(b, n, t, p, j),
    decreases 11 - i,
{
    if i < 11 {
        lemma_table_scan(b, n, t, p, i + 1);
    }
}

/// A checked table entry is the bytes the layout writes.
proof fn lemma_entry_bytes(b: Seq<u8>, n: nat, t: nat, p: nat, i: int)
    requires
        0 <= i < 11,
        b.len() >= 328,
        entry_ok(b, n, t, p, i),
    ensures
        entry(n, t, p, i) == b.subrange(64 + 24 * i, 88 + 24 * i),
{
    let e = 64 + 24 * i;
    lemma_le_bytes_of_field(b, e, 4);
    lemma_le_bytes_of_field(b, e + 4, 4);
    lemma_le_bytes_of_field(b, e + 8, 8);
    lemma_le_bytes_of_field(b, e + 16, 8);
    assert(b.subrange(e, e + 24) =~= b.subrange(e, e + 4) + b.subrange(e + 4, e + 8) + b.subrange(e + 8, e + 16)
        + b.subrange(e + 16, e + 24));
}

/// The checked table is the bytes the layout writes.
proof fn lemma_table_bytes(b: Seq<u8>, n: nat, t: nat, p: nat, i: nat)
    requires
        i <= 11,
        b.len() >= 328,
        forall|j: int| 0 <= j < 11 ==> #[trigger] entry_ok(b, n, t, p, j),
    ensures
        table(n, t, p, i) == b.subrange(64, 64 + 24 * (i as int)),
    decreases i,
{
    if i == 0 {
        assert(b.subrange(64, 64) =~= Seq::<u8>::empty());
    } else {
        lemma_table_bytes(b, n, t, p, (i - 1) as nat);
        lemma_entry_bytes(b, n, t, p, i - 1);
        let ii = i as int;
        assert(b.subrange(64, 64 + 24 * ii) =~= b.subrange(64, 64 + 24 * (ii - 1)) + b.subrange(64 + 24 * (ii - 1), 64 + 24 * ii));
    }
}

/// The padding scan passes every section from `i` on.
proof fn lemma_padding_scan(b: Seq<u8>, n: nat, t: nat, p: nat, i: nat)
    requires
        padding_fault(b, n, t, p, i) is None,
    ensures
        forall|j: nat| i <= j < 11 ==> #[trigger] first_nonzero(b, (sec_off(n, t, p, j) + sec_len(n, t, p, j as int)) as int,
            sec_off(n, t, p, j + 1) as int) is None,
    decreases 11 - i,
{
    if i < 11 {
        lemma_padding_scan(b, n, t, p, i + 1);
    }
}

/// The sections of an index whose header passes are the bytes of its
/// decoded contents.
proof fn lemma_data_bytes(b: Seq<u8>, i: int)
    requires
        header_fault(b) is None,
        0 <= i < 11,
    ensures
        ({
            let (n, t, p) = (hdr_n(b), hdr_t(b), hdr_p(b));
            let off = sec_off(n, t, p, i as nat) as int;
            &&& off + sec_len(n, t, p, i) <= b.len()
            &&& decoded(b).data(i) == b.subrange(off, off + sec_len(n, t, p, i))
        }),
{
    let (n, t, p) = (hdr_n(b), hdr_t(b), hdr_p(b));
    let d = decoded(b);
    lemma_sec_within(n, t, p, i as nat);
    let off = sec_off(n, t, p, i as nat) as int;
    if i == 0 {
        lemma_fields32(b, off, n);
    } else if i == 1 {
        lemma_fields32(b, off, n + 1);
    } else if i == 2 {
        lemma_fields32(b, off, n);
    } else if i == 3 || i == 4 || i == 5 {
        lemma_fields16(b, off, n);
    } else if i == 6 {
        lemma_fields64(b, off, n);
    } else if i == 7 {
        lemma_fields16(b, off, t);
    } else if i == 8 {
        lemma_fields32(b, off, t);
    } else if i == 9 {
        lemma_fields32(b, off, t + 1);
    }
}

/// A section followed by zero padding up to the next section is its
/// padded bytes.
proof fn lemma_padded_section(b: Seq<u8>, n: nat, t: nat, p: nat, j: nat, data: Seq<u8>)
    requires
        j < 11,
        sec_off(n, t, p, 11) <= b.len(),
        data == b.subrange(sec_off(n, t, p, j) as int, (sec_off(n, t, p, j) + sec_len(n, t, p, j as int)) as int),
        first_nonzero(b, (sec_off(n, t, p, j) + sec_len(n, t, p, j as int)) as int, sec_off(n, t, p, j + 1) as int) is None,
    ensures
        padded(data) == b.subrange(sec_off(n, t, p, j) as int, sec_off(n, t, p, j + 1) as int),
{
    let off = sec_off(n, t, p, j) as int;
    let len = sec_len(n, t, p, j as int) as int;
    let next = sec_off(n, t, p, j + 1) as int;
    lemma_sec_aligned(n, t, p, j);
    lemma_sec_monotone(n, t, p, j + 1, 11);
    assert(next == round8_spec((off + len) as nat)) by {
        reveal(sec_off);
    }
    assert(next == off + round8_spec(len as nat)) by {
        assert(off == (off / 8) * 8);
        assert((off + len + 7) / 8 == off / 8 + (len + 7) / 8) by (nonlinear_arith)
            requires
                off % 8 == 0,
                off >= 0,
                len >= 0,
        ;
    }
    lemma_zero_range(b, off + len, next);
    assert(padded(data) =~= b.subrange(off, next));
}

/// The padded sections of an index whose header passes are its bytes from
/// the end of the table on.
proof fn lemma_body_bytes(b: Seq<u8>, i: nat)
    requires
        header_fault(b) is None,
        i <= 11,
    ensures
        decoded(b).body(i) == b.subrange(328, sec_off(hdr_n(b), hdr_t(b), hdr_p(b), i) as int),
    decreases i,
{
    let (n, t, p) = (hdr_n(b), hdr_t(b), hdr_p(b));
    let d = decoded(b);
    if i == 0 {
        reveal(sec_off);
        assert(b.subrange(328, 328) =~= Seq::<u8>::empty());
    } else {
        let j = (i - 1) as nat;
        lemma_body_bytes(b, j);
        lemma_data_bytes(b, j as int);
        lemma_padding_scan(b, n, t, p, 0);
        assert(first_nonzero(b, (sec_off(n, t, p, j) + sec_len(n, t, p, j as int)) as int, sec_off(n, t, p, j + 1) as int) is None);
        lemma_padded_section(b, n, t, p, j, d.data(j as int));
        lemma_sec_monotone(n, t, p, 0, j);
        assert(sec_off(n, t, p, 0) == 328) by {
            reveal(sec_off);
        }
        let off = sec_off(n, t, p, j) as int;
        let next = sec_off(n, t, p, i) as int;
        lemma_sec_monotone(n, t, p, j, i);
        lemma_sec_monotone(n, t, p, i, 11);
        assert(total_len(n, t, p) == b.len());
        assert(328 <= off <= next <= b.len());
        assert(b.subrange(328, next) =~= b.subrange(328, off) + b.subrange(off, next));
    }
}

/// The header of an index that passes its checks is the header written for
/// its decoded contents, but for the CRC field.
proof fn lemma_header_bytes(b: Seq<u8>)
    requires
        header_fault(b) is None,
    ensures
        header_front(decoded(b).modes, hdr_n(b), hdr_t(b), hdr_p(b)) == b.subrange(0, 24),
        header_back(decoded(b).modes, hdr_n(b), hdr_t(b), hdr_p(b)) == b.subrange(28, 64),
        b.len() >= 64,
{
    let d = decoded(b);
    let (n, t, p) = (hdr_n(b), hdr_t(b), hdr_p(b));
    lemma_le_bytes_of_field(b, 8, 2);
    lemma_le_bytes_of_field(b, 10, 2);
    lemma_le_bytes_of_field(b, 12, 4);
    lemma_le_bytes_of_field(b, 16, 8);
    lemma_le_bytes_of_field(b, 28, 4);
    lemma_le_bytes_of_field(b, 32, 4);
    lemma_le_bytes_of_field(b, 36, 4);
    lemma_le_bytes_of_field(b, 40, 4);
    assert(first_nonzero(b, 45, 46) is None);
    assert(first_nonzero(b, 51, 64) is None);
    lemma_zero_range(b, 51, 64);
    lemma_zero_range(b, 45, 46);
    assert(b.subrange(0, 24) =~= b.subrange(0, 8) + b.subrange(8, 10) + b.subrange(10, 12) + b.subrange(12, 16)
        + b.subrange(16, 24));
    assert forall|i: int| 51 <= i < 64 implies #[trigger] b[i] == 0u8 by {
        assert(b.subrange(51, 64)[i - 51] == zeros(13)[i - 51]);
    }
    assert(b.subrange(45, 46)[0] == zeros(1)[0]);
    assert(b[45] == 0u8);
    if le(b, 12, 4) == 1 {
        lemma_le_bytes_of_field(b, 46, 2);
        assert(le_bytes(1, 2) =~= seq![1u8, 0u8]) by {
            reveal_with_fuel(le_bytes, 3);
        }
        assert(b.subrange(46, 48)[0] == b[46]);
        assert(b.subrange(46, 48)[1] == b[47]);
        assert(b[46] == 1u8 && b[47] == 0u8);
        assert(norm_record(d.modes) =~= b.subrange(44, 52));
    } else {
        assert(first_nonzero(b, 44, 51) is None);
        lemma_zero_range(b, 44, 51);
        assert forall|i: int| 44 <= i < 51 implies #[trigger] b[i] == 0u8 by {
            assert(b.subrange(44, 51)[i - 44] == zeros(7)[i - 44]);
        }
        assert(norm_record(d.modes) =~= b.subrange(44, 52));
    }
    assert(zeros(12) =~= b.subrange(52, 64));
    assert(b.subrange(28, 64) =~= b.subrange(28, 32) + b.subrange(32, 36) + b.subrange(36, 40) + b.subrange(40, 44)
        + b.subrange(44, 52) + b.subrange(52, 64));
}

/// An index whose header passes is the image of its decoded contents.
#[verifier::spinoff_prover]
proof fn lemma_image_of_decoded(b: Seq<u8>)
    requires
        header_fault(b) is None,
    ensures
        decoded(b).image() == b,
{
    let d = decoded(b);
    let (n, t, p) = (hdr_n(b), hdr_t(b), hdr_p(b));
    let len = b.len() as int;
    lemma_header_bytes(b);
    lemma_table_scan(b, n, t, p, 0);
    lemma_sec_monotone(n, t, p, 0, 11);
    lemma_sec_within(n, t, p, 10);
    assert(sec_off(n, t, p, 0) == 328) by {
        reveal(sec_off);
    }
    assert(total_len(n, t, p) == len);
    assert(d.n() == n && d.t() == t && d.p() == p);
    lemma_table_bytes(b, n, t, p, 11);
    lemma_body_bytes(b, 11);
    lemma_le_bytes_of_field(b, 24, 4);
    assert(le_bytes(0, 4) =~= seq![0u8, 0u8, 0u8, 0u8]) by {
        reveal_with_fuel(le_bytes, 5);
    }
    let front = header_front(d.modes, n, t, p);
    let back = header_back(d.modes, n, t, p);
    let tab = table(n, t, p, 11);
    let body = d.body(11);
    assert(tab == b.subrange(64, 328));
    assert(body == b.subrange(328, len));
    assert(b.subrange(28, len) =~= b.subrange(28, 64) + b.subrange(64, 328) + b.subrange(328, len));
    assert(d.image0() == front + le_bytes(0, 4) + back + tab + body);
    assert(crc_zeroed(b) == b.subrange(0, 24) + seq![0u8, 0u8, 0u8, 0u8] + b.subrange(28, len));
    assert(d.image0() =~= crc_zeroed(b));
    let crc = crc32_spec(d.image0());
    assert(crc as nat == le(b, 24, 4));
    assert(d.image() == front + le_bytes(crc as nat, 4) + back + tab + body);
    assert(b =~= b.subrange(0, 24) + b.subrange(24, 28) + b.subrange(28, len));
    assert(d.image() =~= b);
}

/// What the terms of an index that passes its term checks satisfy.
proof fn lemma_terms_scan(c: Contents, nz: Option<Normalizer>, term: nat)
    requires
        terms_scan(c, nz, term) is None,
    ensures
        forall|i: nat| term <= i < c.t() ==> #[trigger] term_fault(c, nz, i) is None,
    decreases c.t() - term,
{
    if term < c.t() {
        lemma_terms_scan(c, nz, term + 1);
    }
}

/// The UTF-8 of the first `i` decoded terms is the pool up to the end of
/// term `i - 1`.
proof fn lemma_pool_prefix(c: Contents, nz: Option<Normalizer>, i: nat)
    requires
        c.sized(),
        terms_fault(c, nz) is None,
        i <= c.t(),
    ensures
        text_pool(Seq::new(c.t(), |k: int| vstd::utf8::decode_utf8(raw_term(c, k))), i)
            == c.pool.subrange(0, c.offsets[i as int] as int),
        c.offsets[i as int] <= c.pool.len(),
    decreases i,
{
    let texts = Seq::new(c.t(), |k: int| vstd::utf8::decode_utf8(raw_term(c, k)));
    lemma_terms_scan(c, nz, 0);
    if i == 0 {
        assert(c.pool.subrange(0, 0) =~= Seq::<u8>::empty());
    } else {
        let j = (i - 1) as nat;
        lemma_pool_prefix(c, nz, j);
        assert(term_fault(c, nz, j) is None);
        let raw = raw_term(c, j as int);
        vstd::utf8::decode_utf8_encode_utf8(raw);
        assert(text_pool(texts, i) == text_pool(texts, j) + encode_utf8(texts[j as int]));
        assert(c.pool.subrange(0, c.offsets[i as int] as int) =~= c.pool.subrange(0, c.offsets[j as int] as int) + raw);
    }
}

/// The offsets and pool written for the decoded texts of an index whose
/// terms pass are the stored ones.
proof fn lemma_texts_written(c: Contents, nz: Option<Normalizer>)
    requires
        c.sized(),
        terms_fault(c, nz) is None,
    ensures
        text_offsets(Seq::new(c.t(), |k: int| vstd::utf8::decode_utf8(raw_term(c, k)))) == c.offsets,
        text_pool(Seq::new(c.t(), |k: int| vstd::utf8::decode_utf8(raw_term(c, k))), c.t()) == c.pool,
{
    let texts = Seq::new(c.t(), |k: int| vstd::utf8::decode_utf8(raw_term(c, k)));
    lemma_pool_prefix(c, nz, c.t());
    assert forall|i: int| 0 <= i <= c.t() implies #[trigger] text_offsets(texts)[i] == c.offsets[i] by {
        lemma_pool_prefix(c, nz, i as nat);
    }
    assert(text_offsets(texts) =~= c.offsets);
    assert(c.pool.subrange(0, c.pool.len() as int) =~= c.pool);
}

/// The decoded contents of an index whose header passes have the sizes of
/// its counts.
proof fn lemma_decoded_sized(b: Seq<u8>)
    requires
        header_fault(b) is None,
    ensures
        decoded(b).sized(),
        decoded(b).n() == hdr_n(b),
        decoded(b).t() == hdr_t(b),
        decoded(b).p() == hdr_p(b),
{
    lemma_le_bound(b, 32, 4);
    lemma_le_bound(b, 36, 4);
    lemma_le_bound(b, 40, 4);
    assert(pow256(4) == 0x1_0000_0000) by {
        reveal_with_fuel(pow256, 5);
    }
    lemma_sec_within(hdr_n(b), hdr_t(b), hdr_p(b), 10);
    assert(total_len(hdr_n(b), hdr_t(b), hdr_p(b)) == b.len());
}

/// The mode byte of the recorded normaliser is the stored one.
proof fn lemma_modes(b: Seq<u8>)
    requires
        header_fault(b) is None,
    ensures
        decoded(b).modes == match hdr_normalizer(b) {
            Some(nz) => Some(mode_byte(nz)),
            None => None,
        },
{
    if le(b, 12, 4) == 1 {
        let m = b[44];
        Normalizer::lemma_of_modes(hdr_normalizer(b)->0, m % 2 == 1, m >= 2);
        assert(mode_byte(hdr_normalizer(b)->0) == m);
    }
}

/// A trie holding the decoded contents of an accepted index has exactly
/// those contents.
#[verifier::spinoff_prover]
proof fn lemma_contents_of_loaded(b: Seq<u8>, trie: Trie)
    requires
        header_fault(b) is None,
        tree_fault(decoded(b)) is None,
        terms_fault(decoded(b), hdr_normalizer(b)) is None,
        holds_contents(trie, decoded(b), hdr_normalizer(b)),
    ensures
        contents_of(trie) == decoded(b),
{
    let d = decoded(b);
    lemma_decoded_sized(b);
    lemma_texts_written(d, hdr_normalizer(b));
    lemma_modes(b);
    let c = contents_of(trie);
    assert(d.children[d.n() as int] == d.n());
    assert(c.children =~= d.children);
    assert(c =~= d);
}

/// A trie holding the contents of an accepted index fits the format.
#[verifier::spinoff_prover]
proof fn lemma_loaded_fits(b: Seq<u8>, trie: Trie)
    requires
        header_fault(b) is None,
        terms_fault(decoded(b), hdr_normalizer(b)) is None,
        holds_contents(trie, decoded(b), hdr_normalizer(b)),
        b.len() <= usize::MAX,
    ensures
        !too_large(trie),
{
    let d = decoded(b);
    lemma_decoded_sized(b);
    lemma_texts_written(d, hdr_normalizer(b));
    assert(hdr_t(b) <= hdr_n(b) - 1);
    assert(trie.term_texts() == Seq::new(d.t(), |k: int| vstd::utf8::decode_utf8(raw_term(d, k))));
    assert(total_len(hdr_n(b), hdr_t(b), hdr_p(b)) == b.len());
}

/// Loading then writing is the identity: a trie that holds what an
/// accepted index holds is written back as exactly the index's bytes.
pub proof fn lemma_load_then_write(b: Seq<u8>, trie: Trie)
    requires
        index_fault(b) is None,
        holds_contents(trie, decoded(b), hdr_normalizer(b)),
        b.len() <= usize::MAX,
    ensures
        !too_large(trie),
        contents_of(trie).image() == b,
{
    assert(header_fault(b) is None);
    assert(tree_fault(decoded(b)) is None);
    assert(terms_fault(decoded(b), hdr_normalizer(b)) is None);
    lemma_contents_of_loaded(b, trie);
    lemma_image_of_decoded(b);
    lemma_loaded_fits(b, trie);
}

// ---------------------------------------------------------------------------
// Writing then loading.

/// Reading `u32` fields back from the bytes they were written as gives them.
proof fn lemma_read_fields32(b: Seq<u8>, off: int, s: Seq<u32>)
    requires
        0 <= off,
        off + 4 * s.len() <= b.len(),
        b.subrange(off, off + 4 * s.len()) == f32s(s),
    ensures
        Seq::new(s.len(), |v: int| le(b, off + 4 * v, 4) as u32) == s,
    decreases s.len(),
{
    if s.len() > 0 {
        let k = s.len() - 1;
        let last = s.last();
        lemma_f32s_len(s.drop_last());
        lemma_le_bytes_len(last as nat, 4);
        assert(f32s(s) == f32s(s.drop_last()) + le_bytes(last as nat, 4));
        assert(b.subrange(off, off + 4 * k) =~= f32s(s).subrange(0, 4 * k));
        assert(f32s(s).subrange(0, 4 * k) =~= f32s(s.drop_last()));
        lemma_read_fields32(b, off, s.drop_last());
        assert(b.subrange(off + 4 * k, off + 4 * k + 4) =~= b.subrange(off, off + 4 * s.len()).subrange(4 * k, 4 * k + 4));
        assert(f32s(s).subrange(4 * k, 4 * k + 4) =~= le_bytes(last as nat, 4));
        assert(le_bytes(last as nat, 4).subrange(0, 4) =~= le_bytes(last as nat, 4));
        lemma_le_frame(b, off + 4 * k, le_bytes(last as nat, 4), 0, 4);
        assert(pow256(4) == 0x1_0000_0000) by {
            reveal_with_fuel(pow256, 5);
        }
        lemma_le_round_trip(last as nat, 4);
        let r = Seq::new(s.len(), |v: int| le(b, off + 4 * v, 4) as u32);
        let r0 = Seq::new(s.drop_last().len(), |v: int| le(b, off + 4 * v, 4) as u32);
        assert forall|v: int| 0 <= v < s.len() implies r[v] == s[v] by {
            if v < k {
                assert(r[v] == r0[v]);
            }
        }
        assert(r =~= s);
    }
}

/// Reading `u16` fields back from the bytes they were written as gives them.
proof fn lemma_read_fields16(b: Seq<u8>, off: int, s: Seq<u16>)
    requires
        0 <= off,
        off + 2 * s.len() <= b.len(),
        b.subrange(off, off + 2 * s.len()) == f16s(s),
    ensures
        Seq::new(s.len(), |v: int| le(b, off + 2 * v, 2) as u16) == s,
    decreases s.len(),
{
    if s.len() > 0 {
        let k = s.len() - 1;
        let last = s.last();
        lemma_f16s_len(s.drop_last());
        lemma_le_bytes_len(last as nat, 2);
        assert(f16s(s) == f16s(s.drop_last()) + le_bytes(last as nat, 2));
        assert(b.subrange(off, off + 2 * k) =~= f16s(s).subrange(0, 2 * k));
        assert(f16s(s).subrange(0, 2 * k) =~= f16s(s.drop_last()));
        lemma_read_fields16(b, off, s.drop_last());
        assert(b.subrange(off + 2 * k, off + 2 * k + 2) =~= b.subrange(off, off + 2 * s.len()).subrange(2 * k, 2 * k + 2));
        assert(f16s(s).subrange(2 * k, 2 * k + 2) =~= le_bytes(last as nat, 2));
        assert(le_bytes(last as nat, 2).subrange(0, 2) =~= le_bytes(last as nat, 2));
        lemma_le_frame(b, off + 2 * k, le_bytes(last as nat, 2), 0, 2);
        assert(pow256(2) == 0x1_0000) by {
            reveal_with_fuel(pow256, 3);
        }
        lemma_le_round_trip(last as nat, 2);
        let r = Seq::new(s.len(), |v: int| le(b, off + 2 * v, 2) as u16);
        let r0 = Seq::new(s.drop_last().len(), |v: int| le(b, off + 2 * v, 2) as u16);
        assert forall|v: int| 0 <= v < s.len() implies r[v] == s[v] by {
            if v < k {
                assert(r[v] == r0[v]);
            }
        }
        assert(r =~= s);
    }
}

/// Reading `u64` fields back from the bytes they were written as gives them.
proof fn lemma_read_fields64(b: Seq<u8>, off: int, s: Seq<u64>)
    requires
        0 <= off,
        off + 8 * s.len() <= b.len(),
        b.subrange(off, off + 8 * s.len()) == f64s(s),
    ensures
        Seq::new(s.len(), |v: int| le(b, off + 8 * v, 8) as u64) == s,
    decreases s.len(),
{
    if s.len() > 0 {
        let k = s.len() - 1;
        let last = s.last();
        lemma_f64s_len(s.drop_last());
        lemma_le_bytes_len(last as nat, 8);
        assert(f64s(s) == f64s(s.drop_last()) + le_bytes(last as nat, 8));
        assert(b.subrange(off, off + 8 * k) =~= f64s(s).subrange(0, 8 * k));
        assert(f64s(s).subrange(0, 8 * k) =~= f64s(s.drop_last()));
        lemma_read_fields64(b, off, s.drop_last());
        assert(b.subrange(off + 8 * k, off + 8 * k + 8) =~= b.subrange(off, off + 8 * s.len()).subrange(8 * k, 8 * k + 8));
        assert(f64s(s).subrange(8 * k, 8 * k + 8) =~= le_bytes(last as nat, 8));
        assert(le_bytes(last as nat, 8).subrange(0, 8) =~= le_bytes(last as nat, 8));
        lemma_le_frame(b, off + 8 * k, le_bytes(last as nat, 8), 0, 8);
        assert(pow256(8) == 0x1_0000_0000_0000_0000) by {
            reveal_with_fuel(pow256, 9);
        }
        lemma_le_round_trip(last as nat, 8);
        let r = Seq::new(s.len(), |v: int| le(b, off + 8 * v, 8) as u64);
        let r0 = Seq::new(s.drop_last().len(), |v: int| le(b, off + 8 * v, 8) as u64);
        assert forall|v: int| 0 <= v < s.len() implies r[v] == s[v] by {
            if v < k {
                assert(r[v] == r0[v]);
            }
        }
        assert(r =~= s);
    }
}

/// The section table has 24 bytes per entry.
proof fn lemma_table_len(n: nat, t: nat, p: nat, i: nat)
    ensures
        table(n, t, p, i).len() == 24 * i,
    decreases i,
{
    if i > 0 {
        lemma_table_len(n, t, p, (i - 1) as nat);
        lemma_le_bytes_len(i as nat, 4);
        lemma_le_bytes_len(elem_size(i - 1), 4);
        lemma_le_bytes_len(sec_off(n, t, p, (i - 1) as nat), 8);
        lemma_le_bytes_len(sec_len(n, t, p, i - 1), 8);
    }
}

/// The first sections are a prefix of the later ones.
proof fn lemma_body_prefix(c: Contents, i: nat, j: nat)
    requires
        i <= j,
    ensures
        c.body(i).len() <= c.body(j).len(),
        c.body(j).subrange(0, c.body(i).len() as int) == c.body(i),
    decreases j - i,
{
    if i < j {
        lemma_body_prefix(c, i, (j - 1) as nat);
        assert(c.body(j) == c.body((j - 1) as nat) + padded(c.data(j - 1)));
        assert(c.body(j).subrange(0, c.body(i).len() as int) =~= c.body((j - 1) as nat).subrange(0, c.body(i).len() as int));
    } else {
        assert(c.body(j).subrange(0, c.body(i).len() as int) =~= c.body(i));
    }
}

/// Section `i` of the image holds its data at its layout offset.
proof fn lemma_image_section(c: Contents, i: int)
    requires
        c.sized(),
        0 <= i < 11,
    ensures
        sec_off(c.n(), c.t(), c.p(), i as nat) + c.data(i).len() <= c.image().len(),
        c.image().subrange(sec_off(c.n(), c.t(), c.p(), i as nat) as int,
            (sec_off(c.n(), c.t(), c.p(), i as nat) + c.data(i).len()) as int) == c.data(i),
{
    let (n, t, p) = (c.n(), c.t(), c.p());
    let b = c.image();
    let h = c.header(crc32_spec(c.image0()));
    lemma_header_len(c.modes, n, t, p);
    lemma_le_bytes_len(crc32_spec(c.image0()) as nat, 4);
    lemma_table_len(n, t, p, 11);
    lemma_body_len(c, i as nat);
    lemma_body_len(c, 11);
    lemma_body_prefix(c, (i + 1) as nat, 11);
    let d = c.data(i);
    let start = c.body(i as nat).len() as int;
    assert(c.body((i + 1) as nat) == c.body(i as nat) + padded(d));
    assert(h.len() == 64);
    assert(b == h + table(n, t, p, 11) + c.body(11));
    let off = sec_off(n, t, p, i as nat) as int;
    assert(off == 328 + start);
    assert(b.subrange(off, off + d.len()) =~= c.body(11).subrange(start, start + d.len()));
    assert(c.body(11).subrange(start, start + d.len()) =~= c.body((i + 1) as nat).subrange(start, start + d.len()));
    assert(c.body((i + 1) as nat).subrange(start, start + d.len()) =~= d);
}

/// The header of the image records the counts and the normaliser modes.
#[verifier::spinoff_prover]
proof fn lemma_image_header(c: Contents)
    requires
        c.sized(),
    ensures
        hdr_n(c.image()) == c.n(),
        hdr_t(c.image()) == c.t(),
        hdr_p(c.image()) == c.p(),
        le(c.image(), 12, 4) == (if c.modes is Some { 1nat } else { 0nat }),
        c.modes matches Some(m) ==> c.image()[44] == m,
{
    let (m, n, t, p) = (c.modes, c.n(), c.t(), c.p());
    let b = c.image();
    let crc = crc32_spec(c.image0());
    let front = header_front(m, n, t, p);
    let back = header_back(m, n, t, p);
    lemma_header_len(m, n, t, p);
    lemma_le_bytes_len(crc as nat, 4);
    lemma_table_len(n, t, p, 11);
    assert(b == c.header(crc) + table(n, t, p, 11) + c.body(11));
    assert(b.subrange(0, 24) =~= front);
    assert(b.subrange(28, 64) =~= back);
    assert(pow256(4) == 0x1_0000_0000) by {
        reveal_with_fuel(pow256, 5);
    }
    lemma_le_bytes_len(1, 2);
    let f: nat = if m is Some { 1 } else { 0 };
    lemma_le_bytes_len(f, 4);
    lemma_le_bytes_len(total_len(n, t, p), 8);
    lemma_le_bytes_len(11, 4);
    lemma_le_bytes_len(n, 4);
    lemma_le_bytes_len(t, 4);
    lemma_le_bytes_len(p, 4);
    assert(front.subrange(12, 16) =~= le_bytes(f, 4));
    assert(b.subrange(12, 16) =~= le_bytes(f, 4).subrange(0, 4));
    lemma_le_frame(b, 12, le_bytes(f, 4), 0, 4);
    lemma_le_round_trip(f, 4);
    assert(back.subrange(4, 8) =~= le_bytes(n, 4));
    assert(b.subrange(32, 36) =~= le_bytes(n, 4).subrange(0, 4));
    lemma_le_frame(b, 32, le_bytes(n, 4), 0, 4);
    lemma_le_round_trip(n, 4);
    assert(back.subrange(8, 12) =~= le_bytes(t, 4));
    assert(b.subrange(36, 40) =~= le_bytes(t, 4).subrange(0, 4));
    lemma_le_frame(b, 36, le_bytes(t, 4), 0, 4);
    lemma_le_round_trip(t, 4);
    assert(back.subrange(12, 16) =~= le_bytes(p, 4));
    assert(b.subrange(40, 44) =~= le_bytes(p, 4).subrange(0, 4));
    lemma_le_frame(b, 40, le_bytes(p, 4), 0, 4);
    lemma_le_round_trip(p, 4);
    assert(back.subrange(16, 24) =~= norm_record(m));
    assert(b[44] == back[16]);
}

/// The node sections of the image read back as the node fields.
#[verifier::spinoff_prover]
proof fn lemma_image_nodes(c: Contents)
    requires
        c.sized(),
    ensures
        decoded(c.image()).labels == c.labels,
        decoded(c.image()).children == c.children,
        decoded(c.image()).term_ids == c.term_ids,
        decoded(c.image()).len_min == c.len_min,
        decoded(c.image()).len_max == c.len_max,
        decoded(c.image()).max_weight == c.max_weight,
        decoded(c.image()).below_mask == c.below_mask,
{
    let (n, t, p) = (c.n(), c.t(), c.p());
    let b = c.image();
    lemma_image_header(c);
    lemma_data_len(c, 0);
    lemma_image_section(c, 0);
    lemma_read_fields32(b, sec_off(n, t, p, 0) as int, c.labels);
    lemma_data_len(c, 1);
    lemma_image_section(c, 1);
    lemma_read_fields32(b, sec_off(n, t, p, 1) as int, c.children);
    lemma_data_len(c, 2);
    lemma_image_section(c, 2);
    lemma_read_fields32(b, sec_off(n, t, p, 2) as int, c.term_ids);
    lemma_data_len(c, 3);
    lemma_image_section(c, 3);
    lemma_read_fields16(b, sec_off(n, t, p, 3) as int, c.len_min);
    lemma_data_len(c, 4);
    lemma_image_section(c, 4);
    lemma_read_fields16(b, sec_off(n, t, p, 4) as int, c.len_max);
    lemma_data_len(c, 5);
    lemma_image_section(c, 5);
    lemma_read_fields16(b, sec_off(n, t, p, 5) as int, c.max_weight);
    lemma_data_len(c, 6);
    lemma_image_section(c, 6);
    lemma_read_fields64(b, sec_off(n, t, p, 6) as int, c.below_mask);
}

/// The term sections of the image read back as the term fields.
#[verifier::spinoff_prover]
proof fn lemma_image_terms(c: Contents)
    requires
        c.sized(),
    ensures
        decoded(c.image()).weights == c.weights,
        decoded(c.image()).inputs == c.inputs,
        decoded(c.image()).offsets == c.offsets,
        decoded(c.image()).pool == c.pool,
{
    let (n, t, p) = (c.n(), c.t(), c.p());
    let b = c.image();
    lemma_image_header(c);
    lemma_data_len(c, 7);
    lemma_image_section(c, 7);
    lemma_read_fields16(b, sec_off(n, t, p, 7) as int, c.weights);
    lemma_data_len(c, 8);
    lemma_image_section(c, 8);
    lemma_read_fields32(b, sec_off(n, t, p, 8) as int, c.inputs);
    lemma_data_len(c, 9);
    lemma_image_section(c, 9);
    lemma_read_fields32(b, sec_off(n, t, p, 9) as int, c.offsets);
    lemma_data_len(c, 10);
    lemma_image_section(c, 10);
}

/// Reading the image of some contents gives the contents back.
proof fn lemma_decoded_of_image(c: Contents)
    requires
        c.sized(),
    ensures
        decoded(c.image()) == c,
{
    lemma_image_header(c);
    lemma_image_nodes(c);
    lemma_image_terms(c);
    assert(decoded(c.image()) =~= c);
}

/// The texts of the contents of a trie are read back from its pool.
proof fn lemma_texts_read_back(texts: Seq<Seq<char>>, i: int)
    requires
        0 <= i < texts.len(),
    ensures
        text_pool(texts, texts.len()).subrange(text_pool(texts, i as nat).len() as int,
            text_pool(texts, (i + 1) as nat).len() as int) == encode_utf8(texts[i]),
{
    lemma_pool_prefix_of(texts, (i + 1) as nat, texts.len());
    lemma_pool_grow(texts, i as nat);
    let a = text_pool(texts, i as nat);
    let b = text_pool(texts, (i + 1) as nat);
    let all = text_pool(texts, texts.len());
    assert(all.subrange(a.len() as int, b.len() as int) =~= b.subrange(a.len() as int, b.len() as int));
    assert(b.subrange(a.len() as int, b.len() as int) =~= encode_utf8(texts[i]));
}

/// The pool of a prefix of the texts is a prefix of the pool.
proof fn lemma_pool_prefix_of(texts: Seq<Seq<char>>, i: nat, j: nat)
    requires
        i <= j <= texts.len(),
    ensures
        text_pool(texts, i).len() <= text_pool(texts, j).len(),
        text_pool(texts, j).subrange(0, text_pool(texts, i).len() as int) == text_pool(texts, i),
    decreases j - i,
{
    if i < j {
        lemma_pool_prefix_of(texts, i, (j - 1) as nat);
        lemma_pool_grow(texts, (j - 1) as nat);
        assert(text_pool(texts, j).subrange(0, text_pool(texts, i).len() as int)
            =~= text_pool(texts, (j - 1) as nat).subrange(0, text_pool(texts, i).len() as int));
    } else {
        assert(text_pool(texts, j).subrange(0, text_pool(texts, i).len() as int) =~= text_pool(texts, i));
    }
}

/// Writing then loading gives back the trie: when the bytes written for a
/// trie are accepted, a trie holding what they hold has the written trie's
/// nodes, labels, first children, term ids, subtree signatures, weights,
/// input indexes, term texts and normaliser.
pub proof fn lemma_write_then_load(trie: Trie, loaded: Trie)
    requires
        trie.wf(),
        !too_large(trie),
        index_fault(contents_of(trie).image()) is None,
        holds_contents(loaded, decoded(contents_of(trie).image()), hdr_normalizer(contents_of(trie).image())),
    ensures
        loaded.nodes() == trie.nodes(),
        loaded.labels_spec() == trie.labels_spec(),
        loaded.starts_spec() == trie.starts_spec(),
        loaded.term_ids_spec() == trie.term_ids_spec(),
        loaded.len_mins_spec() == trie.len_mins_spec(),
        loaded.len_maxs_spec() == trie.len_maxs_spec(),
        loaded.max_weights_spec() == trie.max_weights_spec(),
        loaded.masks_spec() == trie.masks_spec(),
        loaded.weights_spec() == trie.weights_spec(),
        loaded.inputs_spec() == trie.inputs_spec(),
        loaded.term_texts() == trie.term_texts(),
        loaded.normalizer_spec() == trie.normalizer_spec(),
{
    let c = contents_of(trie);
    let b = c.image();
    lemma_contents_sized(trie);
    lemma_decoded_of_image(c);
    lemma_image_header(c);
    trie.lemma_wf();
    assert(loaded.starts_spec() =~= trie.starts_spec());
    lemma_texts_of_contents(trie);
    lemma_normalizer_of_image(trie);
}

/// The texts the contents of a trie record are its term texts.
#[verifier::spinoff_prover]
proof fn lemma_texts_of_contents(trie: Trie)
    requires
        trie.wf(),
        !too_large(trie),
    ensures
        Seq::new(contents_of(trie).t(), |i: int| vstd::utf8::decode_utf8(raw_term(contents_of(trie), i)))
            == trie.term_texts(),
{
    let c = contents_of(trie);
    lemma_contents_sized(trie);
    trie.lemma_texts();
    let texts = trie.term_texts();
    assert(c.t() == texts.len());
    assert forall|i: int| 0 <= i < c.t() implies #[trigger] vstd::utf8::decode_utf8(raw_term(c, i)) == texts[i] by {
        lemma_pool_monotone(texts, i as nat, texts.len());
        lemma_pool_monotone(texts, (i + 1) as nat, texts.len());
        assert(c.offsets[i] as int == text_pool(texts, i as nat).len());
        assert(c.offsets[i + 1] as int == text_pool(texts, (i + 1) as nat).len());
        lemma_texts_read_back(texts, i);
        vstd::utf8::encode_utf8_decode_utf8(texts[i]);
    }
    assert(Seq::new(c.t(), |i: int| vstd::utf8::decode_utf8(raw_term(c, i))) =~= texts);
}

/// The normaliser recorded in the image of a trie is the trie's.
#[verifier::spinoff_prover]
proof fn lemma_normalizer_of_image(trie: Trie)
    requires
        trie.wf(),
        !too_large(trie),
    ensures
        hdr_normalizer(contents_of(trie).image()) == trie.normalizer_spec(),
{
    let c = contents_of(trie);
    let b = c.image();
    lemma_contents_sized(trie);
    lemma_image_header(c);
    match trie.normalizer_spec() {
        Some(nz) => {
            let m = b[44];
            assert(m == mode_byte(nz));
            Normalizer::lemma_of_modes(nz, m % 2 == 1, m >= 2);
        },
        None => {},
    }
}


/// The label `find_label` reports lies in the range and carries the symbol.
proof fn lemma_find_label(c: Contents, sym: u32, lo: int, hi: int)
    ensures
        find_label(c, sym, lo, hi) matches Some(x) ==> lo <= x < hi && at32(c.labels, x) == sym,
    decreases hi - lo,
{
    if lo < hi && at32(c.labels, lo) != sym {
        lemma_find_label(c, sym, lo + 1, hi);
    }
}

/// Walking the edges labelled `s` from `v` reaches a node whose path is
/// that of `v` followed by `s`.
proof fn lemma_walk_path(trie: &Trie, c: Contents, nz: Option<Normalizer>, v: int, s: Seq<char>)
    requires
        trie.wf(),
        holds_contents(*trie, c, nz),
        c.children.len() == c.n() + 1,
        forall|u: nat| u < c.n() ==> #[trigger] node_fault(c, u) is None,
        0 <= v < c.n(),
        walk(c, v, s) is Some,
    ensures
        0 <= walk(c, v, s)->0 < c.n(),
        trie.path(walk(c, v, s)->0) == trie.path(v) + str_syms(s),
    decreases s.len(),
{
    trie.lemma_wf();
    if s.len() == 0 {
        assert(trie.path(v) + str_syms(s) =~= trie.path(v));
    } else {
        let a = at32(c.children, v) as int;
        let b = at32(c.children, v + 1) as int;
        lemma_find_label(c, s[0] as u32, a, b);
        let x = find_label(c, s[0] as u32, a, b)->0;
        assert(node_fault(c, v as nat) is None);
        assert(trie.starts_spec()[v] == c.children[v]);
        assert(trie.counts_spec()[v] == (c.children[v + 1] - c.children[v]) as u16);
        assert(trie.parents_spec()[x] == v);
        lemma_walk_path(trie, c, nz, x, s.drop_first());
        assert(trie.path(x) == trie.path(v).push(s[0] as u32));
        assert(str_syms(s) =~= seq![s[0] as u32] + str_syms(s.drop_first()));
        assert(trie.path(v) + str_syms(s) =~= trie.path(x) + str_syms(s.drop_first()));
    }
}

/// The nodes before `m` that carry a term.
spec fn carriers(c: Contents, m: int) -> Set<int> {
    Set::new(|u: int| 0 <= u < m && c.term_ids[u] != 0xFFFF_FFFFu32)
}

/// `terminals` counts the carriers.
proof fn lemma_carriers(c: Contents, m: nat)
    ensures
        carriers(c, m as int).finite(),
        carriers(c, m as int).len() == terminals(c, m),
    decreases m,
{
    if m == 0 {
        assert(carriers(c, 0) =~= Set::empty());
    } else {
        lemma_carriers(c, (m - 1) as nat);
        if c.term_ids[m - 1] != 0xFFFF_FFFFu32 {
            assert(carriers(c, m as int) =~= carriers(c, m - 1).insert(m - 1));
        } else {
            assert(carriers(c, m as int) =~= carriers(c, m - 1));
        }
    }
}

/// A trie read from bytes that pass every check spells its terms, and no
/// two of its nodes carry the same term: each term is found by walking its
/// symbols from the root, and there are as many terminal nodes as terms.
pub proof fn lemma_loaded_spells(trie: &Trie, b: Seq<u8>)
    requires
        trie.wf(),
        index_fault(b) is None,
        holds_contents(*trie, decoded(b), hdr_normalizer(b)),
    ensures
        trie.spells_terms(),
        trie.ends_once(),
{
    let c = decoded(b);
    let nz = hdr_normalizer(b);
    trie.lemma_wf();
    trie.lemma_texts();
    assert(tree_fault(c) is None);
    assert(terms_fault(c, nz) is None);
    lemma_nodes_ok(c, 0);
    lemma_terms_scan(c, nz, 0);
    let tn = c.t() as int;
    let n = c.n() as int;
    assert(c.children.len() == c.n() + 1);
    assert(trie.term_syms().len() == tn);
    let w = |t: int| walk(c, 0, vstd::utf8::decode_utf8(raw_term(c, t)))->0;
    assert forall|t: int| 0 <= t < tn implies 0 <= #[trigger] w(t) < n && c.term_ids[w(t)] == t
        && trie.path(w(t)) == trie.term_syms()[t] by {
        assert(term_fault(c, nz, t as nat) is None);
        let chars = vstd::utf8::decode_utf8(raw_term(c, t));
        lemma_walk_path(trie, c, nz, 0, chars);
        assert(trie.path(0) =~= Seq::<u32>::empty());
        assert(trie.term_texts()[t] == chars);
        assert(trie.path(0) + str_syms(chars) =~= str_syms(chars));
    }
    assert forall|t: int| 0 <= t < trie.term_syms().len() implies #[trigger] trie.ends_at_node(t) by {
        assert(0 <= w(t) < n && trie.term_ids_spec()[w(t)] == t);
    }
    let dom = set_int_range(0, tn);
    lemma_int_range(0, tn);
    let img = dom.map(w);
    assert(injective_on(w, dom)) by {
        assert forall|x: int, y: int| dom.contains(x) && dom.contains(y) && #[trigger] w(x) == #[trigger] w(y)
            implies x == y by {
            assert(c.term_ids[w(x)] == x);
            assert(c.term_ids[w(y)] == y);
        }
    }
    lemma_map_size(dom, img, w);
    lemma_carriers(c, c.n());
    let car = carriers(c, n);
    assert(img.subset_of(car)) by {
        assert forall|u: int| img.contains(u) implies car.contains(u) by {
            let t = choose|t: int| dom.contains(t) && w(t) == u;
            assert(0 <= w(t) < n && c.term_ids[w(t)] == t);
        }
    }
    assert forall|v: int| 0 <= v < n && c.term_ids[v] != 0xFFFF_FFFFu32 implies v == w(c.term_ids[v] as int) by {
        let x = c.term_ids[v] as int;
        assert(0 <= x < tn);
        if v != w(x) {
            assert(!img.contains(v)) by {
                if img.contains(v) {
                    let t = choose|t: int| dom.contains(t) && w(t) == v;
                    assert(c.term_ids[w(t)] == t);
                }
            }
            assert(img.insert(v).subset_of(car));
            lemma_len_subset(img.insert(v), car);
        }
    }
    assert forall|v: int| 0 <= v < trie.nodes() && trie.term_ids_spec()[v] != NO_TERM
        implies trie.path(v) == trie.term_syms()[trie.term_ids_spec()[v] as int] by {
        assert(v == w(c.term_ids[v] as int));
    }
    assert forall|v1: int, v2: int| 0 <= v1 < v2 < trie.nodes() && trie.term_ids_spec()[v1] != NO_TERM
        implies #[trigger] trie.term_ids_spec()[v1] != #[trigger] trie.term_ids_spec()[v2] by {
        assert(v1 == w(c.term_ids[v1] as int));
        if c.term_ids[v2] == c.term_ids[v1] {
            assert(v2 == w(c.term_ids[v2] as int));
        }
    }
}

} // verus!
