//! Character frequency fingerprints over printable ASCII (bytes 32 to 127),
//! a cheap pre-filter for single insertions and deletions.
use vstd::prelude::*;
use crate::cgl::edits::{lev, levenshtein};

verus! {

/// How many times `b` occurs in `word`.
pub open spec fn occurrences(word: Seq<u8>, b: u8) -> nat
    decreases word.len(),
{
    if word.len() == 0 {
        0
    } else {
        occurrences(word.drop_last(), b) + if word.last() == b { 1nat } else { 0nat }
    }
}

/// The count kept in a fingerprint slot: occurrences saturated at 255.
pub open spec fn saturated(n: nat) -> u8 {
    if n > 255 { 255u8 } else { n as u8 }
}

/// Slot `i` of a fingerprint counts byte `i + 32`.
pub open spec fn is_fingerprint_of(fp: Seq<u8>, word: Seq<u8>) -> bool {
    &&& fp.len() == 96
    &&& forall|i: int| 0 <= i < 96 ==> #[trigger] fp[i] == saturated(occurrences(word, (i + 32) as u8))
}

/// Sum over the first `n` slots of the absolute differences.
pub open spec fn abs_diff_sum(a: Seq<u8>, b: Seq<u8>, n: int) -> int
    decreases n,
{
    if n <= 0 {
        0
    } else {
        abs_diff_sum(a, b, n - 1) + if a[n - 1] >= b[n - 1] { a[n - 1] - b[n - 1] } else { b[n - 1] - a[n - 1] }
    }
}

proof fn lemma_abs_diff_sum_bound(a: Seq<u8>, b: Seq<u8>, n: int)
    requires 0 <= n,
    ensures 0 <= abs_diff_sum(a, b, n) <= 255 * n,
    decreases n,
{
    if n > 0 {
        lemma_abs_diff_sum_bound(a, b, n - 1);
    }
}

/// Counts the occurrences of each printable ASCII byte of `word`.
pub fn compute(word: &[u8]) -> (fp: [u8; 96])
    ensures
        is_fingerprint_of(fp@, word@),
{
    let mut fp = [0u8; 96];
    let mut k: usize = 0;
    while k < word.len()
        invariant
            k <= word@.len(),
            fp@.len() == 96,
            forall|i: int| 0 <= i < 96 ==> #[trigger] fp@[i] == saturated(occurrences(word@.take(k as int), (i + 32) as u8)),
        decreases word@.len() - k,
    {
        let b = word[k];
        assert(word@.take(k + 1).drop_last() == word@.take(k as int));
        if b >= 32 && b < 128 {
            let idx = (b - 32) as usize;
            let old = fp[idx];
            fp[idx] = if old == 255 { 255 } else { old + 1 };
        }
        k = k + 1;
    }
    assert(word@.take(word@.len() as int) == word@);
    fp
}

/// Total absolute difference between two fingerprints.
pub fn diff(a: &[u8; 96], b: &[u8; 96]) -> (d: u16)
    ensures
        d == abs_diff_sum(a@, b@, 96),
{
    let mut total: u16 = 0;
    let mut i: usize = 0;
    while i < 96
        invariant
            i <= 96,
            a@.len() == 96,
            b@.len() == 96,
            total == abs_diff_sum(a@, b@, i as int),
        decreases 96 - i,
    {
        proof { lemma_abs_diff_sum_bound(a@, b@, i as int); }
        let x = a[i];
        let y = b[i];
        let d = if x >= y { x - y } else { y - x };
        total = total + d as u16;
        i = i + 1;
    }
    total
}

/// Could the query be the term with one character deleted?
pub fn could_be_deletion(query_fp: &[u8; 96], term_fp: &[u8; 96], query_len: usize, term_len: usize) -> (r: bool)
    ensures
        r == (term_len == query_len + 1 && abs_diff_sum(query_fp@, term_fp@, 96) == 1),
{
    term_len as u128 == query_len as u128 + 1 && diff(query_fp, term_fp) == 1
}

/// Could the query be the term with one character inserted?
pub fn could_be_insertion(query_fp: &[u8; 96], term_fp: &[u8; 96], query_len: usize, term_len: usize) -> (r: bool)
    ensures
        r == (query_len == term_len + 1 && abs_diff_sum(query_fp@, term_fp@, 96) == 1),
{
    query_len as u128 == term_len as u128 + 1 && diff(query_fp, term_fp) == 1
}

/// Could the query be within edit distance 2 of the term? Each edit changes
/// the counts by at most 2 in all, so two edits change them by at most 4.
pub fn could_be_close(query_fp: &[u8; 96], term_fp: &[u8; 96], query_len: usize, term_len: usize) -> (r: bool)
    ensures
        r == ((if query_len >= term_len { query_len - term_len } else { term_len - query_len }) <= 2
            && abs_diff_sum(query_fp@, term_fp@, 96) <= 4),
{
    let len_diff = if query_len >= term_len { query_len - term_len } else { term_len - query_len };
    len_diff <= 2 && diff(query_fp, term_fp) <= 4
}

/// Sum over the bytes `base .. base + n` of the differences of their
/// occurrence counts in `a` and `b`.
pub open spec fn count_gap(a: Seq<u8>, b: Seq<u8>, base: int, n: int) -> int
    decreases n,
{
    if n <= 0 {
        0
    } else {
        count_gap(a, b, base, n - 1) + {
            let x = occurrences(a, (base + n - 1) as u8) as int;
            let y = occurrences(b, (base + n - 1) as u8) as int;
            if x >= y { x - y } else { y - x }
        }
    }
}

proof fn lemma_occurrences_push(w: Seq<u8>, x: u8, c: u8)
    ensures
        occurrences(w.push(x), c) == occurrences(w, c) + if x == c { 1nat } else { 0nat },
{
    assert(w.push(x).drop_last() =~= w);
}

/// One more byte on either side moves the gap by at most one, and only
/// when the byte is among the counted ones.
pub(crate) proof fn lemma_gap_push(a: Seq<u8>, b: Seq<u8>, x: u8, base: int, n: int)
    requires
        0 <= base,
        0 <= n,
        base + n <= 256,
    ensures
        count_gap(a.push(x), b, base, n) <= count_gap(a, b, base, n) + 1,
        count_gap(a, b.push(x), base, n) <= count_gap(a, b, base, n) + 1,
        count_gap(a.push(x), b.push(x), base, n) == count_gap(a, b, base, n),
        !(base <= x < base + n) ==> count_gap(a.push(x), b, base, n) == count_gap(a, b, base, n),
        !(base <= x < base + n) ==> count_gap(a, b.push(x), base, n) == count_gap(a, b, base, n),
    decreases n,
{
    if n > 0 {
        lemma_gap_push(a, b, x, base, n - 1);
        let c = (base + n - 1) as u8;
        lemma_occurrences_push(a, x, c);
        lemma_occurrences_push(b, x, c);
        assert(c as int == base + n - 1);
    }
}

/// Each edit moves the gap by at most two, so it is at most twice the
/// Levenshtein distance of the prefixes.
pub(crate) proof fn lemma_gap_lev(a: Seq<u8>, b: Seq<u8>, i: int, j: int, base: int, n: int)
    requires
        0 <= i <= a.len(),
        0 <= j <= b.len(),
        0 <= base,
        0 <= n,
        base + n <= 256,
    ensures
        count_gap(a.take(i), b.take(j), base, n) <= 2 * lev(a, b, i, j),
    decreases i + j,
{
    if i == 0 && j == 0 {
        lemma_gap_zero(a.take(0), base, n);
        assert(a.take(0) =~= b.take(0));
    } else if i == 0 {
        lemma_gap_lev(a, b, i, j - 1, base, n);
        assert(b.take(j) =~= b.take(j - 1).push(b[j - 1]));
        lemma_gap_push(a.take(i), b.take(j - 1), b[j - 1], base, n);
    } else if j == 0 {
        lemma_gap_lev(a, b, i - 1, j, base, n);
        assert(a.take(i) =~= a.take(i - 1).push(a[i - 1]));
        lemma_gap_push(a.take(i - 1), b.take(j), a[i - 1], base, n);
    } else {
        assert(a.take(i) =~= a.take(i - 1).push(a[i - 1]));
        assert(b.take(j) =~= b.take(j - 1).push(b[j - 1]));
        lemma_gap_lev(a, b, i - 1, j, base, n);
        lemma_gap_lev(a, b, i, j - 1, base, n);
        lemma_gap_lev(a, b, i - 1, j - 1, base, n);
        lemma_gap_push(a.take(i - 1), b.take(j), a[i - 1], base, n);
        lemma_gap_push(a.take(i), b.take(j - 1), b[j - 1], base, n);
        lemma_gap_push(a.take(i - 1), b.take(j - 1), a[i - 1], base, n);
        lemma_gap_push(a.take(i - 1).push(a[i - 1]), b.take(j - 1), b[j - 1], base, n);
    }
}

proof fn lemma_gap_zero(w: Seq<u8>, base: int, n: int)
    requires
        0 <= n,
    ensures
        count_gap(w, w, base, n) == 0,
    decreases n,
{
    if n > 0 {
        lemma_gap_zero(w, base, n - 1);
    }
}

/// Saturating the counts at 255 never widens a gap.
proof fn lemma_abs_sum_le_gap(fa: Seq<u8>, fb: Seq<u8>, a: Seq<u8>, b: Seq<u8>, n: int)
    requires
        is_fingerprint_of(fa, a),
        is_fingerprint_of(fb, b),
        0 <= n <= 96,
    ensures
        abs_diff_sum(fa, fb, n) <= count_gap(a, b, 32, n),
    decreases n,
{
    if n > 0 {
        lemma_abs_sum_le_gap(fa, fb, a, b, n - 1);
        assert(fa[n - 1] == saturated(occurrences(a, (n - 1 + 32) as u8)));
        assert(fb[n - 1] == saturated(occurrences(b, (n - 1 + 32) as u8)));
    }
}

/// Two words within Levenshtein distance 2 always pass [`could_be_close`]:
/// their lengths differ by at most 2 and their counts by at most 4 in all.
pub proof fn lemma_close_within_two(q: Seq<u8>, t: Seq<u8>, qfp: Seq<u8>, tfp: Seq<u8>)
    requires
        is_fingerprint_of(qfp, q),
        is_fingerprint_of(tfp, t),
        levenshtein(q, t) <= 2,
    ensures
        (if q.len() >= t.len() { q.len() - t.len() } else { t.len() - q.len() }) <= 2,
        abs_diff_sum(qfp, tfp, 96) <= 4,
{
    crate::cgl::edits::lemma_levenshtein_len_gap(q, t);
    lemma_gap_lev(q, t, q.len() as int, t.len() as int, 32, 96);
    assert(q.take(q.len() as int) =~= q);
    assert(t.take(t.len() as int) =~= t);
    lemma_abs_sum_le_gap(qfp, tfp, q, t, 96);
}

} // verus!
