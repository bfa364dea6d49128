//! Letter-count fingerprints (one count per lowercase ASCII letter) for
//! deletion-free matching of single insertions and deletions.
use vstd::prelude::*;
use crate::legacy::fingerprint::{count_gap, lemma_gap_lev, occurrences, saturated};
use crate::cgl::edits::{lemma_levenshtein_len_gap, levenshtein};

verus! {

/// Slot `i` of a fingerprint counts letter `'a' + i`.
pub open spec fn is_letter_fingerprint_of(fp: Seq<u8>, word: Seq<u8>) -> bool {
    &&& fp.len() == 26
    &&& forall|i: int| 0 <= i < 26 ==> #[trigger] fp[i] == saturated(occurrences(word, (i + 97) as u8))
}

/// |a - b| of two counts.
pub open spec fn count_diff(a: u8, b: u8) -> int {
    if a >= b { a - b } else { b - a }
}

/// Sum of the count differences over the first `n` letters.
pub open spec fn total_diff(a: Seq<u8>, b: Seq<u8>, n: int) -> int
    decreases n,
{
    if n <= 0 { 0 } else { total_diff(a, b, n - 1) + count_diff(a[n - 1], b[n - 1]) }
}

/// Number of letters among the first `n` whose counts differ.
pub open spec fn differing(a: Seq<u8>, b: Seq<u8>, n: int) -> int
    decreases n,
{
    if n <= 0 { 0 } else { differing(a, b, n - 1) + if a[n - 1] != b[n - 1] { 1int } else { 0int } }
}

proof fn lemma_diff_bounds(a: Seq<u8>, b: Seq<u8>, n: int)
    requires 0 <= n,
    ensures 0 <= total_diff(a, b, n) <= 255 * n, 0 <= differing(a, b, n) <= n,
    decreases n,
{
    if n > 0 {
        lemma_diff_bounds(a, b, n - 1);
    }
}

/// Counts each lowercase ASCII letter of `word`.
pub fn compute(word: &[u8]) -> (fp: [u8; 26])
    ensures
        is_letter_fingerprint_of(fp@, word@),
{
    let mut fp = [0u8; 26];
    let mut k: usize = 0;
    while k < word.len()
        invariant
            k <= word@.len(),
            fp@.len() == 26,
            forall|i: int| 0 <= i < 26 ==> #[trigger] fp@[i] == saturated(occurrences(word@.take(k as int), (i + 97) as u8)),
        decreases word@.len() - k,
    {
        let b = word[k];
        assert(word@.take(k + 1).drop_last() == word@.take(k as int));
        if b >= 97 && b < 123 {
            let idx = (b - 97) as usize;
            let old = fp[idx];
            fp[idx] = if old == 255 { 255 } else { old + 1 };
        }
        k = k + 1;
    }
    assert(word@.take(word@.len() as int) == word@);
    fp
}

/// The total difference in letter counts and the number of letters whose
/// counts differ.
pub fn diff(a: &[u8; 26], b: &[u8; 26]) -> (r: (u16, u8))
    ensures
        r.0 == total_diff(a@, b@, 26),
        r.1 == differing(a@, b@, 26),
{
    let mut total: u16 = 0;
    let mut positions: u8 = 0;
    let mut i: usize = 0;
    while i < 26
        invariant
            i <= 26,
            a@.len() == 26,
            b@.len() == 26,
            total == total_diff(a@, b@, i as int),
            positions == differing(a@, b@, i as int),
        decreases 26 - i,
    {
        proof { lemma_diff_bounds(a@, b@, i as int); }
        let x = a[i];
        let y = b[i];
        let d = if x >= y { x - y } else { y - x };
        total = total + d as u16;
        if d > 0 {
            positions = positions + 1;
        }
        i = i + 1;
    }
    (total, positions)
}

/// Could the query be the term with one letter deleted?
pub fn could_be_deletion(query_fp: &[u8; 26], term_fp: &[u8; 26], query_len: usize, term_len: usize) -> (r: bool)
    ensures
        r == (term_len == query_len + 1 && total_diff(query_fp@, term_fp@, 26) == 1
            && differing(query_fp@, term_fp@, 26) == 1),
{
    if term_len as u128 != query_len as u128 + 1 {
        return false;
    }
    let (total, positions) = diff(query_fp, term_fp);
    total == 1 && positions == 1
}

/// Could the query be the term with one letter inserted?
pub fn could_be_insertion(query_fp: &[u8; 26], term_fp: &[u8; 26], query_len: usize, term_len: usize) -> (r: bool)
    ensures
        r == (query_len == term_len + 1 && total_diff(query_fp@, term_fp@, 26) == 1
            && differing(query_fp@, term_fp@, 26) == 1),
{
    if query_len as u128 != term_len as u128 + 1 {
        return false;
    }
    let (total, positions) = diff(query_fp, term_fp);
    total == 1 && positions == 1
}

/// Could the query be within edit distance 2 of the term? Each edit changes
/// the letter counts by at most 2 in all, so two edits change them by at most 4.
pub fn could_be_close(query_fp: &[u8; 26], term_fp: &[u8; 26], query_len: usize, term_len: usize) -> (r: bool)
    ensures
        r == ((if query_len >= term_len { query_len - term_len } else { term_len - query_len }) <= 2
            && total_diff(query_fp@, term_fp@, 26) <= 4),
{
    let len_diff = if query_len > term_len { query_len - term_len } else { term_len - query_len };
    if len_diff > 2 {
        return false;
    }
    let (total, _) = diff(query_fp, term_fp);
    total <= 4
}

/// Saturating the counts at 255 never widens a gap.
proof fn lemma_total_le_gap(fa: Seq<u8>, fb: Seq<u8>, a: Seq<u8>, b: Seq<u8>, n: int)
    requires
        is_letter_fingerprint_of(fa, a),
        is_letter_fingerprint_of(fb, b),
        0 <= n <= 26,
    ensures
        total_diff(fa, fb, n) <= count_gap(a, b, 97, n),
    decreases n,
{
    if n > 0 {
        lemma_total_le_gap(fa, fb, a, b, n - 1);
        assert(fa[n - 1] == saturated(occurrences(a, (n - 1 + 97) as u8)));
        assert(fb[n - 1] == saturated(occurrences(b, (n - 1 + 97) as u8)));
    }
}

/// Two words within Levenshtein distance 2 always pass [`could_be_close`]:
/// their lengths differ by at most 2 and their letter counts by at most 4
/// in all.
pub proof fn lemma_close_within_two(q: Seq<u8>, t: Seq<u8>, qfp: Seq<u8>, tfp: Seq<u8>)
    requires
        is_letter_fingerprint_of(qfp, q),
        is_letter_fingerprint_of(tfp, t),
        levenshtein(q, t) <= 2,
    ensures
        (if q.len() >= t.len() { q.len() - t.len() } else { t.len() - q.len() }) <= 2,
        total_diff(qfp, tfp, 26) <= 4,
{
    lemma_levenshtein_len_gap(q, t);
    lemma_gap_lev(q, t, q.len() as int, t.len() as int, 97, 26);
    assert(q.take(q.len() as int) =~= q);
    assert(t.take(t.len() as int) =~= t);
    lemma_total_le_gap(qfp, tfp, q, t, 26);
}

} // verus!
