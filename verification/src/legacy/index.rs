//! The candidate stage of the earlier fuzzy index: lowercased terms with
//! their display forms, lengths and byte fingerprints, the columns and (from
//! [`TREE_THRESHOLD`] terms on) a CGL tree, both built on demand. A query
//! yields `(term index, distance)` candidates; ranking them is the caller's
//! part.
use vstd::prelude::*;
use vstd::string::StringSliceAdditionalSpecFns;
use vstd::utf8::encode_utf8;
use crate::cgl::altered::AlteredString;
use crate::cgl::edits::{fast_hamming, one_deletion, osa_distance, osa_within, verify_deletion, verify_insertion};
use crate::cgl::index::{bits_for, drops_to, sigma_of, tree_sigma};
use crate::cgl::tree::{all_wf, query_with_pruning, CglNode, PruneConfig};
use crate::legacy::columnar::{mismatches, scan_distance, scan_spec, ColumnarTerms};
use crate::legacy::error::Error;
use crate::legacy::fingerprint::{abs_diff_sum, compute, could_be_close, could_be_deletion, could_be_insertion,
    is_fingerprint_of, occurrences, saturated};

verus! {

/// Term count from which the index builds a CGL tree.
pub const TREE_THRESHOLD: usize = 5_000;

/// Largest accepted radius.
pub const MAX_K: usize = 4;

/// ASCII lowercase of one byte.
pub open spec fn lower_byte(b: u8) -> u8 {
    if 65 <= b <= 90 { (b + 32) as u8 } else { b }
}

/// ASCII lowercase of a byte string.
pub open spec fn lower(s: Seq<u8>) -> Seq<u8> {
    s.map_values(|b: u8| lower_byte(b))
}

/// ASCII lowercasing leaves no upper case letter: every byte in `A..=Z`
/// becomes the same letter in lower case (32 more), every other byte is
/// kept, and the lower case letters of the result are exactly the bytes that
/// were letters of either case.
pub proof fn lemma_lower(s: Seq<u8>)
    ensures
        lower(s).len() == s.len(),
        forall|i: int| 0 <= i < s.len() ==> !(65 <= #[trigger] lower(s)[i] <= 90),
        forall|i: int| 0 <= i < s.len() && 65 <= #[trigger] s[i] <= 90 ==> lower(s)[i] == s[i] + 32,
        forall|i: int| 0 <= i < s.len() && !(65 <= #[trigger] s[i] <= 90) ==> lower(s)[i] == s[i],
        forall|i: int| 0 <= i < s.len() ==> (97 <= #[trigger] lower(s)[i] <= 122
            <==> (65 <= s[i] <= 90 || 97 <= s[i] <= 122)),
{
}

/// The ASCII lowercase of `s`.
pub fn to_lower(s: &[u8]) -> (r: Vec<u8>)
    ensures
        r@ == lower(s@),
        r.len() == s.len(),
        forall|i: int| 0 <= i < r.len() ==> !(65 <= #[trigger] r@[i] <= 90),
        forall|i: int| 0 <= i < r.len() && 65 <= #[trigger] s@[i] <= 90 ==> r@[i] == s@[i] + 32,
        forall|i: int| 0 <= i < r.len() && !(65 <= #[trigger] s@[i] <= 90) ==> r@[i] == s@[i],
{
    let mut r: Vec<u8> = Vec::new();
    let mut i: usize = 0;
    while i < s.len()
        invariant
            i <= s.len(),
            r@ == lower(s@.take(i as int)),
        decreases s.len() - i,
    {
        let b = s[i];
        let l = if 65 <= b && b <= 90 { b + 32 } else { b };
        proof {
            assert(lower(s@.take(i + 1)) =~= lower(s@.take(i as int)).push(l));
        }
        r.push(l);
        i = i + 1;
    }
    proof {
        assert(s@.take(s.len() as int) =~= s@);
        lemma_lower(s@);
    }
    r
}

/// The byte fingerprint of `w`: slot `i` counts byte `32 + i`, capped at 255.
pub open spec fn counts(w: Seq<u8>) -> Seq<u8> {
    Seq::new(96, |i: int| saturated(occurrences(w, (i + 32) as u8)))
}

proof fn lemma_counts(fp: Seq<u8>, w: Seq<u8>)
    requires
        is_fingerprint_of(fp, w),
    ensures
        fp == counts(w),
{
    assert(fp =~= counts(w));
}

/// The distance at which the brute-force search reports term `t` for query
/// `q` at radius `k`, if it does: the scan distance when within `k`; else 1
/// for a deletion or an insertion that the fingerprints allow and a walk
/// confirms; else, from `k = 2` up, the optimal string alignment distance
/// when the fingerprints allow two edits and it is within `k`; else 1 when
/// dropping one query byte gives the term.
pub open spec fn brute_distance(q: Seq<u8>, t: Seq<u8>, k: nat) -> Option<nat> {
    let d = abs_diff_sum(counts(q), counts(t), 96);
    if scan_distance(q, t) <= k {
        Some(scan_distance(q, t))
    } else if t.len() == q.len() + 1 && d == 1 && one_deletion(q, t) {
        Some(1)
    } else if q.len() == t.len() + 1 && d == 1 && one_deletion(t, q) {
        Some(1)
    } else if k >= 2 && (if q.len() >= t.len() { q.len() - t.len() } else { t.len() - q.len() }) <= 2 && d <= 4
        && osa_distance(q, t) <= k {
        Some(osa_distance(q, t) as nat)
    } else if drops_to(q, t) {
        Some(1)
    } else {
        None
    }
}

/// One of the first four rules of [`brute_distance`] reports `t`.
spec fn first_rules(q: Seq<u8>, t: Seq<u8>, k: nat) -> bool {
    let d = abs_diff_sum(counts(q), counts(t), 96);
    ||| scan_distance(q, t) <= k
    ||| t.len() == q.len() + 1 && d == 1 && one_deletion(q, t)
    ||| q.len() == t.len() + 1 && d == 1 && one_deletion(t, q)
    ||| k >= 2 && (if q.len() >= t.len() { q.len() - t.len() } else { t.len() - q.len() }) <= 2 && d <= 4
        && osa_distance(q, t) <= k
}

/// Every candidate names a term once, at its brute-force distance, and every
/// term with a brute-force distance is a candidate.
pub open spec fn brute_ok(terms: Seq<Seq<u8>>, q: Seq<u8>, k: nat, out: Seq<(usize, usize)>) -> bool {
    &&& forall|p: int| 0 <= p < out.len() ==> (#[trigger] out[p]).0 < terms.len()
        && brute_distance(q, terms[out[p].0 as int], k) == Some(out[p].1 as nat)
    &&& forall|i: int| 0 <= i < terms.len() && (#[trigger] brute_distance(q, terms[i], k)) is Some
        ==> exists|p: int| 0 <= p < out.len() && out[p].0 == i
    &&& forall|p1: int, p2: int| 0 <= p1 < p2 < out.len() ==> (#[trigger] out[p1]).0 != (#[trigger] out[p2]).0
}

/// Each entry names a term at its brute-force distance.
spec fn entries_ok(tv: Seq<Seq<u8>>, q: Seq<u8>, k: nat, res: Seq<(usize, usize)>) -> bool {
    forall|p: int| 0 <= p < res.len() ==> (#[trigger] res[p]).0 < tv.len()
        && brute_distance(q, tv[res[p].0 as int], k) == Some(res[p].1 as nat)
}

/// `seen` marks exactly the terms named by an entry.
spec fn marks(seen: Seq<bool>, res: Seq<(usize, usize)>) -> bool {
    forall|i: int| 0 <= i < seen.len() ==> (#[trigger] seen[i] <==> exists|p: int| 0 <= p < res.len() && res[p].0 == i)
}

/// No term is named twice.
spec fn distinct(res: Seq<(usize, usize)>) -> bool {
    forall|p1: int, p2: int| 0 <= p1 < p2 < res.len() ==> (#[trigger] res[p1]).0 != (#[trigger] res[p2]).0
}

proof fn lemma_push_entry(seen: Seq<bool>, res: Seq<(usize, usize)>, i: usize, d: usize)
    requires
        marks(seen, res),
        distinct(res),
        i < seen.len(),
        !seen[i as int],
    ensures
        marks(seen.update(i as int, true), res.push((i, d))),
        distinct(res.push((i, d))),
{
    let s2 = seen.update(i as int, true);
    let r2 = res.push((i, d));
    assert forall|j: int| 0 <= j < s2.len() implies (#[trigger] s2[j] <==> exists|p: int| 0 <= p < r2.len() && r2[p].0 == j) by {
        if j == i {
            assert(r2[res.len() as int].0 == j);
        } else {
            if s2[j] {
                let p = choose|p: int| 0 <= p < res.len() && res[p].0 == j;
                assert(r2[p] == res[p]);
            }
            if exists|p: int| 0 <= p < r2.len() && r2[p].0 == j {
                let p = choose|p: int| 0 <= p < r2.len() && r2[p].0 == j;
                assert(p < res.len());
                assert(r2[p] == res[p]);
            }
        }
    }
    assert forall|p1: int, p2: int| 0 <= p1 < p2 < r2.len() implies (#[trigger] r2[p1]).0 != (#[trigger] r2[p2]).0 by {
        if p2 < res.len() {
            assert(r2[p1] == res[p1] && r2[p2] == res[p2]);
        } else {
            assert(r2[p1] == res[p1]);
            if res[p1].0 == i {
                assert(seen[i as int]);
            }
        }
    }
}

/// The entries of the scan over the first `n` terms: increasing indices,
/// each within `k` at its scan distance, and every such term present.
proof fn lemma_scan_spec(terms: Seq<Seq<u8>>, q: Seq<u8>, k: nat, n: int)
    requires
        0 <= n <= terms.len(),
        terms.len() <= usize::MAX,
        k <= usize::MAX,
    ensures
        forall|p: int| 0 <= p < scan_spec(terms, q, k, n).len() ==> {
            let e = #[trigger] scan_spec(terms, q, k, n)[p];
            &&& e.0 < n
            &&& scan_distance(q, terms[e.0 as int]) <= k
            &&& e.1 == scan_distance(q, terms[e.0 as int])
        },
        forall|i: int| 0 <= i < n && scan_distance(q, #[trigger] terms[i]) <= k
            ==> exists|p: int| 0 <= p < scan_spec(terms, q, k, n).len() && scan_spec(terms, q, k, n)[p].0 == i,
        forall|p1: int, p2: int| 0 <= p1 < p2 < scan_spec(terms, q, k, n).len()
            ==> (#[trigger] scan_spec(terms, q, k, n)[p1]).0 < (#[trigger] scan_spec(terms, q, k, n)[p2]).0,
    decreases n,
{
    crate::cgl::index::lemma_scan_spec(terms, q, k, n);
}

/// Whether two byte strings are equal.
fn same_bytes(a: &[u8], b: &[u8]) -> (r: bool)
    ensures
        r == (a@ == b@),
{
    crate::cgl::index::same_bytes(a, b)
}

/// The entries of `s` among the first `n` whose flag in `keep` is set, in order.
pub open spec fn kept<A>(s: Seq<A>, keep: Seq<bool>, n: int) -> Seq<A>
    decreases n,
{
    if n <= 0 {
        Seq::empty()
    } else if keep[n - 1] {
        kept(s, keep, n - 1).push(s[n - 1])
    } else {
        kept(s, keep, n - 1)
    }
}

/// Some string with the characters `d` was answered `b` by `f`.
pub open spec fn answered<F: Fn(&str) -> bool>(f: F, d: Seq<char>, b: bool) -> bool {
    exists|s: &str| s@ == d && #[trigger] f.ensures((s,), b)
}

/// Flags past `n` do not change what the first `n` keep.
proof fn lemma_kept_prefix<A>(s: Seq<A>, keep: Seq<bool>, keep2: Seq<bool>, n: int)
    requires
        0 <= n <= keep.len(),
        n <= keep2.len(),
        forall|x: int| 0 <= x < n ==> keep[x] == keep2[x],
    ensures
        kept(s, keep, n) == kept(s, keep2, n),
    decreases n,
{
    if n > 0 {
        lemma_kept_prefix(s, keep, keep2, n - 1);
    }
}

/// `runs` are the maximal runs, in order, of the positions below the shorter
/// length where `q` and `t` agree, as `(start, end)` pairs.
pub open spec fn agreeing_runs(q: Seq<u8>, t: Seq<u8>, runs: Seq<(usize, usize)>) -> bool {
    let len = if q.len() <= t.len() { q.len() as int } else { t.len() as int };
    &&& forall|p: int| 0 <= p < runs.len() ==> (#[trigger] runs[p]).0 < runs[p].1 <= len
    &&& forall|p: int, x: int| #![trigger runs[p], q[x]] 0 <= p < runs.len() && runs[p].0 <= x < runs[p].1 ==> q[x] == t[x]
    &&& forall|p: int| 0 <= p < runs.len() ==> (#[trigger] runs[p]).0 == 0 || q[runs[p].0 - 1] != t[runs[p].0 - 1]
    &&& forall|p: int| 0 <= p < runs.len() ==> (#[trigger] runs[p]).1 == len || q[runs[p].1 as int] != t[runs[p].1 as int]
    &&& forall|p1: int, p2: int| 0 <= p1 < p2 < runs.len() ==> (#[trigger] runs[p1]).1 < (#[trigger] runs[p2]).0
    &&& forall|x: int| 0 <= x < len && q[x] == t[x] ==> exists|p: int| 0 <= p < runs.len() && #[trigger] runs[p].0 <= x < runs[p].1
}

/// The maximal runs of positions where `query` and `term` agree, over their
/// shorter length, as `(start, end)` pairs in order.
pub fn match_ranges(query: &[u8], term: &[u8]) -> (r: Vec<(usize, usize)>)
    ensures
        agreeing_runs(query@, term@, r@),
{
    let len = if query.len() <= term.len() { query.len() } else { term.len() };
    let ghost q = query@;
    let ghost t = term@;
    let mut ranges: Vec<(usize, usize)> = Vec::new();
    let mut start: Option<usize> = None;
    let mut i: usize = 0;
    while i < len
        invariant
            q == query@,
            t == term@,
            len == (if q.len() <= t.len() { q.len() } else { t.len() }),
            i <= len,
            forall|p: int| 0 <= p < ranges.len() ==> (#[trigger] ranges@[p]).0 < ranges@[p].1 < i,
            forall|p: int, x: int| #![trigger ranges@[p], q[x]] 0 <= p < ranges.len() && ranges@[p].0 <= x < ranges@[p].1
                ==> q[x] == t[x],
            forall|p: int| 0 <= p < ranges.len() ==> (#[trigger] ranges@[p]).0 == 0 || q[ranges@[p].0 - 1] != t[ranges@[p].0 - 1],
            forall|p: int| 0 <= p < ranges.len() ==> q[(#[trigger] ranges@[p]).1 as int] != t[ranges@[p].1 as int],
            forall|p1: int, p2: int| 0 <= p1 < p2 < ranges.len() ==> (#[trigger] ranges@[p1]).1 < (#[trigger] ranges@[p2]).0,
            match start {
                Some(s) => {
                    &&& s < i
                    &&& (s == 0 || q[s - 1] != t[s - 1])
                    &&& forall|x: int| s <= x < i ==> q[x] == t[x]
                    &&& forall|p: int| 0 <= p < ranges.len() ==> (#[trigger] ranges@[p]).1 < s
                },
                None => i == 0 || q[i - 1] != t[i - 1],
            },
            forall|x: int| 0 <= x < i && q[x] == t[x] ==> (exists|p: int| 0 <= p < ranges.len() && #[trigger] ranges@[p].0 <= x
                < ranges@[p].1) || (start matches Some(s) && s <= x),
        decreases len - i,
    {
        if query[i] == term[i] {
            if start.is_none() {
                start = Some(i);
            }
        } else {
            match start {
                Some(s) => {
                    let ghost before = ranges@;
                    ranges.push((s, i));
                    start = None;
                    proof {
                        assert forall|x: int| 0 <= x < i + 1 && q[x] == t[x] implies (exists|p: int| 0 <= p < ranges.len()
                            && #[trigger] ranges@[p].0 <= x < ranges@[p].1) by {
                            assert(x < i) by {
                                if x == i {
                                    assert(q[i as int] != t[i as int]);
                                }
                            }
                            if s <= x {
                                assert(ranges@[before.len() as int] == (s, i));
                                assert(ranges@[before.len() as int].0 <= x < ranges@[before.len() as int].1);
                            } else {
                                assert(exists|p: int| 0 <= p < before.len() && #[trigger] before[p].0 <= x < before[p].1);
                                let p = choose|p: int| 0 <= p < before.len() && #[trigger] before[p].0 <= x < before[p].1;
                                assert(ranges@[p] == before[p]);
                                assert(ranges@[p].0 <= x < ranges@[p].1);
                            }
                        }
                        assert forall|p1: int, p2: int| 0 <= p1 < p2 < ranges.len() implies (#[trigger] ranges@[p1]).1
                            < (#[trigger] ranges@[p2]).0 by {
                            assert(ranges@[p1] == before[p1]);
                            if p2 < before.len() {
                                assert(ranges@[p2] == before[p2]);
                            }
                        }
                        assert forall|p: int, x: int| #![trigger ranges@[p], q[x]] 0 <= p < ranges.len() && ranges@[p].0 <= x < ranges@[p].1
                            implies q[x] == t[x] by {
                            if p < before.len() {
                                assert(ranges@[p] == before[p]);
                            }
                        }
                    }
                },
                None => {},
            }
        }
        i = i + 1;
    }
    match start {
        Some(s) => {
            let ghost before = ranges@;
            ranges.push((s, len));
            proof {
                assert forall|x: int| 0 <= x < len && q[x] == t[x] implies (exists|p: int| 0 <= p < ranges.len()
                    && #[trigger] ranges@[p].0 <= x < ranges@[p].1) by {
                    if s <= x {
                        assert(ranges@[before.len() as int] == (s, len));
                        assert(ranges@[before.len() as int].0 <= x < ranges@[before.len() as int].1);
                    } else {
                        assert(exists|p: int| 0 <= p < before.len() && #[trigger] before[p].0 <= x < before[p].1);
                        let p = choose|p: int| 0 <= p < before.len() && #[trigger] before[p].0 <= x < before[p].1;
                        assert(ranges@[p] == before[p]);
                        assert(ranges@[p].0 <= x < ranges@[p].1);
                    }
                }
                assert forall|p1: int, p2: int| 0 <= p1 < p2 < ranges.len() implies (#[trigger] ranges@[p1]).1
                    < (#[trigger] ranges@[p2]).0 by {
                    assert(ranges@[p1] == before[p1]);
                    if p2 < before.len() {
                        assert(ranges@[p2] == before[p2]);
                    }
                }
                assert forall|p: int, x: int| #![trigger ranges@[p], q[x]] 0 <= p < ranges.len() && ranges@[p].0 <= x < ranges@[p].1
                    implies q[x] == t[x] by {
                    if p < before.len() {
                        assert(ranges@[p] == before[p]);
                    }
                }
            }
        },
        None => {},
    }
    ranges
}

/// The pieces of `q` between spaces, empty ones included.
pub open spec fn pieces(q: Seq<u8>) -> Seq<Seq<u8>>
    decreases q.len(),
{
    if q.len() == 0 {
        seq![Seq::empty()]
    } else {
        let s = pieces(q.drop_last());
        if q.last() == 32 {
            s.push(Seq::empty())
        } else {
            s.update(s.len() - 1, s.last().push(q.last()))
        }
    }
}

proof fn lemma_pieces_len(q: Seq<u8>)
    ensures
        pieces(q).len() >= 1,
    decreases q.len(),
{
    if q.len() > 0 {
        lemma_pieces_len(q.drop_last());
    }
}

proof fn lemma_long_pieces(ps: Seq<Seq<u8>>)
    ensures
        forall|j: int| 0 <= j < long_pieces(ps).len() ==> (#[trigger] long_pieces(ps)[j]).len() >= 2,
    decreases ps.len(),
{
    if ps.len() > 0 {
        lemma_long_pieces(ps.drop_last());
        let r = long_pieces(ps.drop_last());
        if ps.last().len() >= 2 {
            assert forall|j: int| 0 <= j < r.push(ps.last()).len() implies (#[trigger] r.push(ps.last())[j]).len() >= 2 by {
                if j < r.len() {
                    assert(r.push(ps.last())[j] == r[j]);
                }
            }
        }
    }
}

/// The entries of the multi-word fallback over the first `n` terms, in
/// index order: each term not yet `seen` in which at least one of `toks`
/// occurs fuzzily, with the number of them that do.
pub open spec fn fallback_entries(terms: Seq<Seq<u8>>, seen: Seq<bool>, toks: Seq<Seq<u8>>, k: nat, n: int)
    -> Seq<(usize, usize)>
    decreases n,
{
    if n <= 0 {
        Seq::empty()
    } else {
        let prev = fallback_entries(terms, seen, toks, k, n - 1);
        let c = hit_count(terms[n - 1], toks, k);
        if !seen[n - 1] && c > 0 { prev.push(((n - 1) as usize, c as usize)) } else { prev }
    }
}

/// The pieces of at least two bytes, in order.
pub open spec fn long_pieces(ps: Seq<Seq<u8>>) -> Seq<Seq<u8>>
    decreases ps.len(),
{
    if ps.len() == 0 {
        Seq::empty()
    } else {
        let r = long_pieces(ps.drop_last());
        if ps.last().len() >= 2 { r.push(ps.last()) } else { r }
    }
}

/// The words of a query for the multi-word fallback: the pieces between
/// spaces that have at least two bytes.
pub fn tokens(q: &[u8]) -> (r: Vec<Vec<u8>>)
    ensures
        r@.map_values(|v: Vec<u8>| v@) == long_pieces(pieces(q@)),
{
    let mut out: Vec<Vec<u8>> = Vec::new();
    let mut cur: Vec<u8> = Vec::new();
    let mut i: usize = 0;
    while i < q.len()
        invariant
            i <= q.len(),
            pieces(q@.take(i as int)).len() >= 1,
            out@.map_values(|v: Vec<u8>| v@) == long_pieces(pieces(q@.take(i as int)).drop_last()),
            cur@ == pieces(q@.take(i as int)).last(),
        decreases q.len() - i,
    {
        let ghost pv = pieces(q@.take(i as int));
        proof {
            assert(q@.take(i + 1).drop_last() =~= q@.take(i as int));
            lemma_pieces_len(q@.take(i + 1));
        }
        if q[i] == 32 {
            if cur.len() >= 2 {
                let ghost ov = out@;
                let c = cur;
                out.push(c);
                proof {
                    assert(pv.drop_last().push(pv.last()) =~= pv);
                    assert(out@.map_values(|v: Vec<u8>| v@) =~= ov.map_values(|v: Vec<u8>| v@).push(c@));
                }
            } else {
                proof {
                    assert(pv.drop_last().push(pv.last()) =~= pv);
                }
            }
            cur = Vec::new();
            proof {
                assert(pieces(q@.take(i + 1)) == pv.push(Seq::<u8>::empty()));
                assert(pieces(q@.take(i + 1)).drop_last() =~= pv);
            }
        } else {
            cur.push(q[i]);
            proof {
                let p2 = pieces(q@.take(i + 1));
                assert(p2 == pv.update(pv.len() - 1, pv.last().push(q@[i as int])));
                assert(p2.drop_last() =~= pv.drop_last());
            }
        }
        i = i + 1;
    }
    proof {
        assert(q@.take(q.len() as int) =~= q@);
        let pv = pieces(q@);
        assert(pv.drop_last().push(pv.last()) =~= pv);
    }
    if cur.len() >= 2 {
        let ghost ov = out@;
        let c = cur;
        out.push(c);
        proof {
            assert(out@.map_values(|v: Vec<u8>| v@) =~= ov.map_values(|v: Vec<u8>| v@).push(c@));
        }
    }
    out
}

/// Some window of `term` as long as `tok` differs from it in at most `k`
/// positions.
pub open spec fn fuzzy_occurs(term: Seq<u8>, tok: Seq<u8>, k: nat) -> bool {
    exists|p: int| 0 <= p && p + tok.len() <= term.len()
        && #[trigger] mismatches(term.subrange(p, p + tok.len()), tok, tok.len() as int) <= k
}

/// How many of `toks` occur fuzzily in `term`.
pub open spec fn hit_count(term: Seq<u8>, toks: Seq<Seq<u8>>, k: nat) -> nat
    decreases toks.len(),
{
    if toks.len() == 0 {
        0
    } else {
        hit_count(term, toks.drop_last(), k) + if fuzzy_occurs(term, toks.last(), k) { 1nat } else { 0nat }
    }
}

/// The number of positions below `n` where `term[p..]` and `tok` differ.
fn window_mismatches(term: &[u8], p: usize, tok: &[u8]) -> (d: usize)
    requires
        p + tok.len() <= term.len(),
    ensures
        d == mismatches(term@.subrange(p as int, p + tok.len()), tok@, tok.len() as int),
{
    let ghost w = term@.subrange(p as int, p + tok.len());
    let mut d: usize = 0;
    let mut x: usize = 0;
    while x < tok.len()
        invariant
            p + tok.len() <= term.len(),
            w == term@.subrange(p as int, p + tok.len()),
            x <= tok.len(),
            d == mismatches(w, tok@, x as int),
            d <= x,
        decreases tok.len() - x,
    {
        if term[p + x] != tok[x] {
            d = d + 1;
        }
        x = x + 1;
    }
    d
}

/// How many of `toks` occur in `term` within `k` differing positions of
/// some window.
pub fn token_hits(term: &[u8], toks: &Vec<Vec<u8>>, k: usize) -> (r: usize)
    requires
        forall|j: int| 0 <= j < toks.len() ==> (#[trigger] toks[j]).len() > 0,
    ensures
        r == hit_count(term@, toks@.map_values(|v: Vec<u8>| v@), k as nat),
{
    let ghost tv = toks@.map_values(|v: Vec<u8>| v@);
    let mut count: usize = 0;
    let mut j: usize = 0;
    while j < toks.len()
        invariant
            tv == toks@.map_values(|v: Vec<u8>| v@),
            j <= toks.len(),
            count == hit_count(term@, tv.take(j as int), k as nat),
            count <= j,
        decreases toks.len() - j,
    {
        let tok = toks[j].as_slice();
        let tl = tok.len();
        let mut found = false;
        let mut p: usize = 0;
        while !found && tl <= term.len() && p <= term.len() - tl
            invariant
                j < tv.len(),
                tok@ == tv[j as int],
                tl == tok.len(),
                p <= term.len(),
                found ==> fuzzy_occurs(term@, tok@, k as nat),
                !found ==> forall|p2: int| 0 <= p2 < p && p2 + tl <= term.len()
                    ==> #[trigger] mismatches(term@.subrange(p2, p2 + tl), tok@, tl as int) > k,
            decreases term.len() + 1 - p + (if found { 0int } else { 1int }),
        {
            let d = window_mismatches(term, p, tok);
            if d <= k {
                found = true;
            } else {
                p = p + 1;
            }
        }
        proof {
            assert(tv.take(j + 1).drop_last() =~= tv.take(j as int));
            assert(tv.take(j + 1).last() == tv[j as int]);
            if !found {
                assert(!fuzzy_occurs(term@, tok@, k as nat));
            }
        }
        if found {
            count = count + 1;
        }
        j = j + 1;
    }
    proof {
        assert(tv.take(toks.len() as int) =~= tv);
    }
    count
}

/// What the earlier fuzzy index reports about itself.
#[derive(Debug)]
pub struct IndexStats {
    pub num_terms: usize,
    pub max_mismatches: usize,
    pub has_tree: bool,
}

/// The terms of the earlier fuzzy index with what its candidate search
/// reads: the lowercased terms with their display forms, lengths and byte
/// fingerprints, the radius `k`, and the columns and the tree, built on
/// demand by [`TermIndex::prepare`] and dropped whenever the terms change.
pub struct TermIndex {
    terms: Vec<Vec<u8>>,
    terms_display: Vec<String>,
    term_lengths: Vec<usize>,
    fingerprints: Vec<[u8; 96]>,
    k: usize,
    col_terms: Option<ColumnarTerms>,
    root: Option<Option<CglNode>>,
}

impl TermIndex {
    /// The lowercased terms, as bytes.
    pub closed spec fn terms_view(&self) -> Seq<Seq<u8>> {
        self.terms@.map_values(|t: Vec<u8>| t@)
    }

    /// The terms as given.
    pub closed spec fn displays(&self) -> Seq<Seq<char>> {
        self.terms_display@.map_values(|t: String| t@)
    }

    /// The radius.
    pub closed spec fn radius(&self) -> nat {
        self.k as nat
    }

    /// The columns and the tree are built.
    pub closed spec fn prepared(&self) -> bool {
        self.col_terms is Some && self.root is Some
    }

    /// A tree is built.
    pub closed spec fn has_tree_spec(&self) -> bool {
        self.root matches Some(Some(_))
    }

    /// The per-term vectors agree, the radius is at most [`MAX_K`], and the
    /// columns and the tree, when built, are those of the terms.
    pub closed spec fn wf(&self) -> bool {
        &&& self.terms_display.len() == self.terms.len()
        &&& self.term_lengths.len() == self.terms.len()
        &&& self.fingerprints.len() == self.terms.len()
        &&& forall|i: int| 0 <= i < self.terms.len() ==> #[trigger] self.term_lengths[i] == self.terms[i].len()
        &&& forall|i: int| 0 <= i < self.terms.len() ==> #[trigger] self.fingerprints[i]@ == counts(self.terms[i]@)
        &&& forall|i: int| 0 <= i < self.terms.len() ==> #[trigger] self.terms[i].len() < usize::MAX
        &&& self.k <= MAX_K
        &&& (self.col_terms matches Some(c) ==> c.wf() && c.terms() == self.terms_view())
        &&& (self.root matches Some(r) ==> (r is Some <==> self.terms.len() >= TREE_THRESHOLD))
    }

    /// Indexes `terms` (lowercased for matching, kept as given for display)
    /// for candidate search at radius `k`. An empty list is refused, and so
    /// is a radius above [`MAX_K`]. The columns and the tree are not built yet.
    pub fn build(terms: &[&str], k: usize) -> (r: Result<TermIndex, Error>)
        requires
            forall|i: int| 0 <= i < terms.len() ==> (#[trigger] terms[i]).spec_bytes().len() < usize::MAX,
        ensures
            terms.len() == 0 ==> r == Err::<TermIndex, Error>(Error::EmptyInput),
            terms.len() > 0 && k > MAX_K ==> r == Err::<TermIndex, Error>(Error::KTooLarge { k, max: MAX_K }),
            terms.len() > 0 && k <= MAX_K ==> (r matches Ok(ix) && {
                &&& ix.wf()
                &&& ix.terms_view() == terms@.map_values(|t: &str| lower(t.spec_bytes()))
                &&& ix.displays() == terms@.map_values(|t: &str| t@)
                &&& ix.radius() == k
                &&& !ix.prepared()
                &&& !ix.has_tree_spec()
            }),
    {
        if terms.len() == 0 {
            return Err(Error::EmptyInput);
        }
        if k > MAX_K {
            return Err(Error::KTooLarge { k, max: MAX_K });
        }
        let mut ix = TermIndex {
            terms: Vec::new(),
            terms_display: Vec::new(),
            term_lengths: Vec::new(),
            fingerprints: Vec::new(),
            k,
            col_terms: None,
            root: None,
        };
        let mut i: usize = 0;
        while i < terms.len()
            invariant
                i <= terms.len(),
                forall|j: int| 0 <= j < terms.len() ==> (#[trigger] terms[j]).spec_bytes().len() < usize::MAX,
                ix.wf(),
                ix.terms_view() == terms@.take(i as int).map_values(|t: &str| lower(t.spec_bytes())),
                ix.displays() == terms@.take(i as int).map_values(|t: &str| t@),
                ix.radius() == k,
                !ix.prepared(),
                !ix.has_tree_spec(),
            decreases terms.len() - i,
        {
            proof {
                assert(terms@.take(i + 1) =~= terms@.take(i as int).push(terms@[i as int]));
            }
            ix.add(terms[i]);
            i = i + 1;
        }
        proof {
            assert(terms@.take(terms.len() as int) =~= terms@);
        }
        Ok(ix)
    }

    /// Adds `term` at the end; the columns and the tree are dropped.
    pub fn add(&mut self, term: &str)
        requires
            old(self).wf(),
            term.spec_bytes().len() < usize::MAX,
        ensures
            final(self).wf(),
            final(self).terms_view() == old(self).terms_view().push(lower(term.spec_bytes())),
            final(self).displays() == old(self).displays().push(term@),
            final(self).radius() == old(self).radius(),
            !final(self).prepared(),
            !final(self).has_tree_spec(),
    {
        let lower_term = to_lower(term.as_bytes());
        let fp = compute(lower_term.as_slice());
        proof {
            lemma_counts(fp@, lower_term@);
        }
        let ghost tv = self.terms_view();
        let ghost dv = self.displays();
        self.term_lengths.push(lower_term.len());
        self.fingerprints.push(fp);
        self.terms.push(lower_term);
        self.terms_display.push(term.to_owned());
        self.col_terms = None;
        self.root = None;
        proof {
            assert(self.terms_view() =~= tv.push(lower(term.spec_bytes())));
            assert(self.displays() =~= dv.push(term@));
        }
    }

    /// Removes term `index`, if there is one; the columns and the tree are
    /// then dropped.
    pub fn remove(&mut self, index: usize)
        requires
            old(self).wf(),
        ensures
            final(self).wf(),
            final(self).radius() == old(self).radius(),
            index >= old(self).terms_view().len() ==> *final(self) == *old(self),
            index < old(self).terms_view().len() ==> {
                &&& final(self).terms_view() == old(self).terms_view().remove(index as int)
                &&& final(self).displays() == old(self).displays().remove(index as int)
                &&& !final(self).prepared()
                &&& !final(self).has_tree_spec()
            },
    {
        if index >= self.terms.len() {
            return;
        }
        let ghost tv = self.terms_view();
        let ghost dv = self.displays();
        self.terms.remove(index);
        self.terms_display.remove(index);
        self.term_lengths.remove(index);
        self.fingerprints.remove(index);
        self.col_terms = None;
        self.root = None;
        proof {
            assert(self.terms_view() =~= tv.remove(index as int));
            assert(self.displays() =~= dv.remove(index as int));
        }
    }

    /// Builds the columns and, from [`TREE_THRESHOLD`] terms on, the tree,
    /// where they are not built yet.
    pub fn prepare(&mut self)
        requires
            old(self).wf(),
        ensures
            final(self).wf(),
            final(self).prepared(),
            final(self).terms_view() == old(self).terms_view(),
            final(self).displays() == old(self).displays(),
            final(self).radius() == old(self).radius(),
            final(self).has_tree_spec() == (old(self).terms_view().len() >= TREE_THRESHOLD),
    {
        if self.col_terms.is_none() {
            let c = ColumnarTerms::build(self.terms.as_slice());
            proof {
                assert(self.terms@.map_values(|t: Vec<u8>| t@) == self.terms_view());
            }
            self.col_terms = Some(c);
        }
        if self.root.is_none() {
            let n = self.terms.len();
            if n < TREE_THRESHOLD {
                self.root = Some(None);
            } else {
                let sigma = tree_sigma(n, self.k);
                let mut altered: Vec<AlteredString> = Vec::new();
                let mut i: usize = 0;
                while i < n
                    invariant
                        n == self.terms.len(),
                        i <= n,
                        altered.len() == i,
                        all_wf(altered@),
                    decreases n - i,
                {
                    let a = AlteredString::new(self.terms[i].as_slice(), Some(i));
                    altered.push(a);
                    proof {
                        assert forall|j: int| 0 <= j < altered.len() implies #[trigger] altered@[j].wf() by {
                            if j < i {
                                assert(altered@[j] == altered@.drop_last()[j]);
                            }
                        }
                    }
                    i = i + 1;
                }
                let root = crate::cgl::tree::build(altered, self.k, sigma);
                self.root = Some(root);
            }
        }
    }

    /// The brute-force candidates of `q`: the columnar scan within the
    /// radius, then for each other term a fingerprint-screened and confirmed
    /// deletion or insertion, or (radius 2 and up) an optimal string
    /// alignment distance within the radius, then the terms equal to `q`
    /// without one byte.
    fn search_brute(&self, q: &[u8]) -> (out: Vec<(usize, usize)>)
        requires
            self.wf(),
            self.prepared(),
            q.len() < usize::MAX,
        ensures
            brute_ok(self.terms_view(), q@, self.radius(), out@),
    {
        let n = self.terms.len();
        let k = self.k;
        let qlen = q.len();
        let ghost tv = self.terms_view();
        let ghost kn = k as nat;
        let col = match &self.col_terms {
            Some(c) => c,
            None => {
                assert(false);
                return Vec::new();
            },
        };
        let q_fp = compute(q);
        proof {
            lemma_counts(q_fp@, q@);
        }
        let mut seen: Vec<bool> = Vec::new();
        let mut z: usize = 0;
        while z < n
            invariant
                z <= n,
                seen.len() == z,
                forall|j: int| 0 <= j < z ==> !(#[trigger] seen[j]),
            decreases n - z,
        {
            seen.push(false);
            z = z + 1;
        }
        let mut results: Vec<(usize, usize)> = Vec::new();
        let hits = col.scan(q, k);
        proof {
            lemma_scan_spec(tv, q@, kn, n as int);
            assert(marks(seen@, results@));
        }
        let mut h: usize = 0;
        while h < hits.len()
            invariant
                n == tv.len(),
                kn == k,
                hits@ == scan_spec(tv, q@, kn, n as int),
                forall|p: int| 0 <= p < hits@.len() ==> {
                    let e = #[trigger] hits@[p];
                    &&& e.0 < n
                    &&& scan_distance(q@, tv[e.0 as int]) <= kn
                    &&& e.1 == scan_distance(q@, tv[e.0 as int])
                },
                forall|p1: int, p2: int| 0 <= p1 < p2 < hits@.len() ==> (#[trigger] hits@[p1]).0 < (#[trigger] hits@[p2]).0,
                h <= hits.len(),
                seen.len() == n,
                results@ == hits@.take(h as int),
                entries_ok(tv, q@, kn, results@),
                marks(seen@, results@),
                distinct(results@),
            decreases hits.len() - h,
        {
            let e = hits[h];
            proof {
                if seen@[e.0 as int] {
                    let p = choose|p: int| 0 <= p < results@.len() && results@[p].0 == e.0;
                    assert(results@[p] == hits@[p]);
                }
                lemma_push_entry(seen@, results@, e.0, e.1);
                assert(hits@.take(h + 1) =~= hits@.take(h as int).push(e));
            }
            seen.set(e.0, true);
            results.push(e);
            h = h + 1;
        }
        proof {
            assert(hits@.take(hits.len() as int) =~= hits@);
            assert forall|j: int| 0 <= j < n implies (#[trigger] seen@[j] <==> scan_distance(q@, tv[j]) <= kn) by {
                if scan_distance(q@, tv[j]) <= kn {
                    let p = choose|p: int| 0 <= p < hits@.len() && hits@[p].0 == j;
                    assert(results@[p].0 == j);
                }
                if seen@[j] {
                    let p = choose|p: int| 0 <= p < results@.len() && results@[p].0 == j;
                    assert(hits@[p].0 == j);
                }
            }
        }
        let mut i: usize = 0;
        while i < n
            invariant
                self.wf(),
                n == tv.len(),
                n == self.terms.len(),
                tv == self.terms_view(),
                kn == k,
                k == self.k,
                qlen == q.len(),
                qlen < usize::MAX,
                q_fp@ == counts(q@),
                i <= n,
                seen.len() == n,
                entries_ok(tv, q@, kn, results@),
                marks(seen@, results@),
                distinct(results@),
                forall|j: int| i <= j < n ==> (#[trigger] seen@[j] <==> scan_distance(q@, tv[j]) <= kn),
                forall|j: int| 0 <= j < i ==> first_rules(q@, #[trigger] tv[j], kn) ==> seen@[j],
            decreases n - i,
        {
            proof {
                assert(tv[i as int] == self.terms[i as int]@);
            }
            if seen[i] {
                i = i + 1;
                continue;
            }
            let tlen = self.term_lengths[i];
            let tfp = &self.fingerprints[i];
            let term = self.terms[i].as_slice();
            let mut hit: Option<usize> = None;
            if could_be_deletion(&q_fp, tfp, qlen, tlen) {
                if verify_deletion(q, term) {
                    hit = Some(1);
                }
            }
            if hit.is_none() && could_be_insertion(&q_fp, tfp, qlen, tlen) {
                if verify_insertion(q, term) {
                    hit = Some(1);
                }
            }
            if hit.is_none() && k >= 2 && could_be_close(&q_fp, tfp, qlen, tlen) {
                let d = osa_within(q, term, k);
                if d <= k {
                    hit = Some(d);
                }
            }
            match hit {
                Some(d) => {
                    proof {
                        lemma_push_entry(seen@, results@, i, d);
                    }
                    seen.set(i, true);
                    results.push((i, d));
                },
                None => {},
            }
            i = i + 1;
        }
        let mut skip: usize = 0;
        while skip < qlen
            invariant
                self.wf(),
                n == tv.len(),
                n == self.terms.len(),
                tv == self.terms_view(),
                kn == k,
                qlen == q.len(),
                skip <= qlen,
                seen.len() == n,
                entries_ok(tv, q@, kn, results@),
                marks(seen@, results@),
                distinct(results@),
                forall|j: int| 0 <= j < n ==> first_rules(q@, #[trigger] tv[j], kn) ==> seen@[j],
                forall|s: int, j: int| #![trigger q@.remove(s), tv[j]] 0 <= s < skip && 0 <= j < n && q@.remove(s) == tv[j] ==> seen@[j],
            decreases qlen - skip,
        {
            let buf = crate::cgl::index::without(q, skip);
            let mut idx: usize = 0;
            while idx < n
                invariant
                    self.wf(),
                    n == tv.len(),
                    n == self.terms.len(),
                    tv == self.terms_view(),
                    kn == k,
                    qlen == q.len(),
                    skip < qlen,
                    buf@ == q@.remove(skip as int),
                    idx <= n,
                    seen.len() == n,
                    entries_ok(tv, q@, kn, results@),
                    marks(seen@, results@),
                    distinct(results@),
                    forall|j: int| 0 <= j < n ==> first_rules(q@, #[trigger] tv[j], kn) ==> seen@[j],
                    forall|s: int, j: int| #![trigger q@.remove(s), tv[j]] 0 <= s < skip && 0 <= j < n && q@.remove(s) == tv[j] ==> seen@[j],
                    forall|j: int| 0 <= j < idx && q@.remove(skip as int) == #[trigger] tv[j] ==> seen@[j],
                decreases n - idx,
            {
                proof {
                    assert(tv[idx as int] == self.terms[idx as int]@);
                }
                if same_bytes(self.terms[idx].as_slice(), buf.as_slice()) && !seen[idx] {
                    proof {
                        assert(drops_to(q@, tv[idx as int])) by {
                            assert(q@.remove(skip as int) == tv[idx as int]);
                        }
                        lemma_push_entry(seen@, results@, idx, 1);
                    }
                    seen.set(idx, true);
                    results.push((idx, 1));
                }
                idx = idx + 1;
            }
            skip = skip + 1;
        }
        proof {
            assert forall|i: int| 0 <= i < tv.len() && (#[trigger] brute_distance(q@, tv[i], kn)) is Some
                implies exists|p: int| 0 <= p < results@.len() && results@[p].0 == i by {
                if !first_rules(q@, tv[i], kn) {
                    let s = choose|s: int| 0 <= s < q@.len() && #[trigger] q@.remove(s) == tv[i];
                    assert(q@.remove(s) == tv[i]);
                }
                assert(seen@[i]);
            }
        }
        results
    }

    /// The terms the pruned tree query finds within the radius of `q`, at
    /// their scan distance.
    fn search_tree_node(&self, root: &CglNode, q: &[u8], config: &PruneConfig) -> (out: Vec<(usize, usize)>)
        requires
            self.wf(),
            config.sized(),
        ensures
            forall|p: int| 0 <= p < out.len() ==> (#[trigger] out[p]).0 < self.terms_view().len()
                && out[p].1 == scan_distance(q@, self.terms_view()[out[p].0 as int])
                && out[p].1 <= self.radius(),
    {
        let alt_query = AlteredString::new(q, None);
        let k = self.k;
        let raw = query_with_pruning(Some(root), &alt_query, k, config);
        let mut results: Vec<(usize, usize)> = Vec::new();
        let mut r: usize = 0;
        while r < raw.len()
            invariant
                self.wf(),
                k == self.k,
                r <= raw.len(),
                forall|p: int| 0 <= p < results.len() ==> (#[trigger] results[p]).0 < self.terms_view().len()
                    && results[p].1 == scan_distance(q@, self.terms_view()[results[p].0 as int])
                    && results[p].1 <= self.radius(),
            decreases raw.len() - r,
        {
            let o = raw[r].origin;
            if o < self.terms.len() {
                proof {
                    assert(self.terms_view()[o as int] == self.terms[o as int]@);
                }
                let d = fast_hamming(q, self.terms[o].as_slice(), k);
                if d <= k {
                    results.push((o, d));
                }
            }
            r = r + 1;
        }
        results
    }

    /// The candidates of `q` (already lowercased): the brute-force ones,
    /// then those the tree finds that brute force did not (it finds them
    /// all, so none are added).
    pub fn candidates(&self, q: &[u8], config: &PruneConfig) -> (out: Vec<(usize, usize)>)
        requires
            self.wf(),
            self.prepared(),
            q.len() < usize::MAX,
            config.sized(),
        ensures
            brute_ok(self.terms_view(), q@, self.radius(), out@),
    {
        let mut cands = self.search_brute(q);
        match &self.root {
            Some(Some(root)) => {
                let tree_matches = self.search_tree_node(root, q, config);
                let n = self.terms.len();
                let mut in_brute: Vec<bool> = Vec::new();
                let mut z: usize = 0;
                while z < n
                    invariant
                        z <= n,
                        in_brute.len() == z,
                    decreases n - z,
                {
                    in_brute.push(false);
                    z = z + 1;
                }
                let mut c: usize = 0;
                while c < cands.len()
                    invariant
                        n == self.terms_view().len(),
                        brute_ok(self.terms_view(), q@, self.radius(), cands@),
                        c <= cands.len(),
                        in_brute.len() == n,
                        forall|p: int| 0 <= p < c ==> in_brute@[#[trigger] cands@[p].0 as int],
                    decreases cands.len() - c,
                {
                    in_brute.set(cands[c].0, true);
                    c = c + 1;
                }
                let ghost before = cands@;
                let mut t: usize = 0;
                while t < tree_matches.len()
                    invariant
                        n == self.terms_view().len(),
                        brute_ok(self.terms_view(), q@, self.radius(), before),
                        cands@ == before,
                        in_brute.len() == n,
                        forall|p: int| 0 <= p < before.len() ==> in_brute@[#[trigger] before[p].0 as int],
                        forall|p: int| 0 <= p < tree_matches.len() ==> (#[trigger] tree_matches@[p]).0 < n
                            && tree_matches@[p].1 == scan_distance(q@, self.terms_view()[tree_matches@[p].0 as int])
                            && tree_matches@[p].1 <= self.radius(),
                        t <= tree_matches.len(),
                    decreases tree_matches.len() - t,
                {
                    let (i, d) = tree_matches[t];
                    proof {
                        let tvi = self.terms_view()[i as int];
                        assert(brute_distance(q@, tvi, self.radius()) is Some);
                        let p = choose|p: int| 0 <= p < before.len() && before[p].0 == i;
                        assert(in_brute@[before[p].0 as int]);
                    }
                    if !in_brute[i] {
                        cands.push((i, d));
                    }
                    t = t + 1;
                }
            },
            _ => {},
        }
        cands
    }

    /// The per-term vectors agree (the columns and the tree aside).
    closed spec fn vectors_ok(&self) -> bool {
        &&& self.terms_display.len() == self.terms.len()
        &&& self.term_lengths.len() == self.terms.len()
        &&& self.fingerprints.len() == self.terms.len()
        &&& forall|i: int| 0 <= i < self.terms.len() ==> #[trigger] self.term_lengths[i] == self.terms[i].len()
        &&& forall|i: int| 0 <= i < self.terms.len() ==> #[trigger] self.fingerprints[i]@ == counts(self.terms[i]@)
        &&& forall|i: int| 0 <= i < self.terms.len() ==> #[trigger] self.terms[i].len() < usize::MAX
        &&& self.k <= MAX_K
    }

    /// Removes every term whose display form `predicate` answers `true`
    /// for, keeping the others in order, and returns how many went; the
    /// columns and the tree are dropped when any did.
    pub fn remove_where<F: Fn(&str) -> bool>(&mut self, predicate: F) -> (r: usize)
        requires
            old(self).wf(),
            forall|s: &str| #[trigger] predicate.requires((s,)),
        ensures
            final(self).wf(),
            final(self).radius() == old(self).radius(),
            exists|keep: Seq<bool>| {
                &&& keep.len() == old(self).terms_view().len()
                &&& final(self).terms_view() == kept(old(self).terms_view(), keep, keep.len() as int)
                &&& final(self).displays() == kept(old(self).displays(), keep, keep.len() as int)
                &&& forall|j: int| 0 <= j < keep.len() ==> answered(predicate, old(self).displays()[j], !#[trigger] keep[j])
            },
            r == old(self).terms_view().len() - final(self).terms_view().len(),
            r == 0 ==> *final(self) == *old(self),
            r > 0 ==> !final(self).prepared() && !final(self).has_tree_spec(),
    {
        let ghost old_t = self.terms_view();
        let ghost old_d = self.displays();
        let ghost n0 = old_t.len() as int;
        let ghost old_self = *self;
        let ghost mut keep: Seq<bool> = Seq::empty();
        assert(n0 <= usize::MAX);
        let mut removed: usize = 0;
        let mut i: usize = 0;
        proof {
            assert(self.terms_view() =~= kept(old_t, keep, 0) + old_t.skip(0));
            assert(self.displays() =~= kept(old_d, keep, 0) + old_d.skip(0));
        }
        while i < self.terms_display.len()
            invariant
                self.vectors_ok(),
                self.k == old_self.k,
                n0 <= usize::MAX,
                old_t.len() == n0,
                old_d.len() == n0,
                keep.len() == i + removed,
                i + removed <= n0,
                kept(old_t, keep, keep.len() as int).len() == i,
                kept(old_d, keep, keep.len() as int).len() == i,
                self.terms_view() == kept(old_t, keep, keep.len() as int) + old_t.skip(keep.len() as int),
                self.displays() == kept(old_d, keep, keep.len() as int) + old_d.skip(keep.len() as int),
                forall|j: int| 0 <= j < keep.len() ==> answered(predicate, old_d[j], !#[trigger] keep[j]),
                forall|s: &str| #[trigger] predicate.requires((s,)),
                removed == 0 ==> *self == old_self,
            decreases self.terms_display.len() - i,
        {
            let ghost j = keep.len() as int;
            proof {
                assert(self.displays()[i as int] == old_d[j]);
                assert(self.terms_view()[i as int] == old_t[j]);
            }
            let d = self.terms_display[i].as_str();
            let hit = predicate(d);
            proof {
                assert(answered(predicate, old_d[j], hit));
            }
            if hit {
                let ghost tv = self.terms_view();
                let ghost dv = self.displays();
                self.terms.remove(i);
                self.terms_display.remove(i);
                self.term_lengths.remove(i);
                self.fingerprints.remove(i);
                proof {
                    let k2 = keep.push(false);
                    assert(kept(old_t, k2, j + 1) == kept(old_t, keep, j)) by {
                        assert(kept(old_t, keep, j) =~= kept(old_t, k2, j)) by {
                            lemma_kept_prefix(old_t, keep, k2, j);
                        }
                    }
                    assert(kept(old_d, k2, j + 1) == kept(old_d, keep, j)) by {
                        lemma_kept_prefix(old_d, keep, k2, j);
                    }
                    assert(self.terms_view() =~= tv.remove(i as int));
                    assert(self.displays() =~= dv.remove(i as int));
                    assert(self.terms_view() =~= kept(old_t, k2, j + 1) + old_t.skip(j + 1));
                    assert(self.displays() =~= kept(old_d, k2, j + 1) + old_d.skip(j + 1));
                    assert forall|x: int| 0 <= x < k2.len() implies answered(predicate, old_d[x], !#[trigger] k2[x]) by {
                        if x < j {
                            assert(k2[x] == keep[x]);
                        }
                    }
                    keep = k2;
                }
                removed = removed + 1;
            } else {
                proof {
                    let k2 = keep.push(true);
                    lemma_kept_prefix(old_t, keep, k2, j);
                    lemma_kept_prefix(old_d, keep, k2, j);
                    assert(kept(old_t, k2, j + 1) == kept(old_t, keep, j).push(old_t[j]));
                    assert(kept(old_d, k2, j + 1) == kept(old_d, keep, j).push(old_d[j]));
                    assert(self.terms_view() =~= kept(old_t, k2, j + 1) + old_t.skip(j + 1));
                    assert(self.displays() =~= kept(old_d, k2, j + 1) + old_d.skip(j + 1));
                    assert forall|x: int| 0 <= x < k2.len() implies answered(predicate, old_d[x], !#[trigger] k2[x]) by {
                        if x < j {
                            assert(k2[x] == keep[x]);
                        }
                    }
                    keep = k2;
                }
                i = i + 1;
            }
        }
        proof {
            assert(keep.len() == n0) by {
                assert(self.terms_view().len() == i + (n0 - keep.len()));
            }
            assert(old_t.skip(n0) =~= Seq::<Seq<u8>>::empty());
            assert(old_d.skip(n0) =~= Seq::<Seq<char>>::empty());
            assert(self.terms_view() =~= kept(old_t, keep, n0));
            assert(self.displays() =~= kept(old_d, keep, n0));
        }
        if removed > 0 {
            self.col_terms = None;
            self.root = None;
        }
        removed
    }

    /// The number of terms.
    pub fn len(&self) -> (r: usize)
        requires
            self.wf(),
        ensures
            r == self.terms_view().len(),
    {
        self.terms.len()
    }

    /// Whether there are no terms.
    pub fn is_empty(&self) -> (r: bool)
        requires
            self.wf(),
        ensures
            r == (self.terms_view().len() == 0),
    {
        self.terms.len() == 0
    }

    /// The lowercased bytes of term `i`.
    pub fn term(&self, i: usize) -> (r: &[u8])
        requires
            self.wf(),
            i < self.terms_view().len(),
        ensures
            r@ == self.terms_view()[i as int],
    {
        self.terms[i].as_slice()
    }

    /// The multi-word fallback of a query `q` with a space and at least two
    /// words of two bytes or more: each term not marked in `seen`, in index
    /// order, in which at least one word occurs within `k` mismatches, with
    /// the number of words that do. Nothing for any other query.
    pub fn token_fallback(&self, q: &[u8], seen: &Vec<bool>, k: usize) -> (out: Vec<(usize, usize)>)
        requires
            self.wf(),
            seen.len() == self.terms_view().len(),
        ensures
            ({
                let toks = long_pieces(pieces(q@));
                out@ == if q@.contains(32u8) && toks.len() > 1 {
                    fallback_entries(self.terms_view(), seen@, toks, k as nat, self.terms_view().len() as int)
                } else {
                    Seq::empty()
                }
            }),
    {
        let mut out: Vec<(usize, usize)> = Vec::new();
        let mut has_space = false;
        let mut j: usize = 0;
        while j < q.len()
            invariant
                j <= q.len(),
                has_space == q@.take(j as int).contains(32u8),
            decreases q.len() - j,
        {
            let ghost pre = q@.take(j as int);
            proof {
                assert(q@.take(j + 1) =~= pre.push(q@[j as int]));
                if pre.contains(32u8) {
                    let w = choose|w: int| 0 <= w < pre.len() && #[trigger] pre[w] == 32u8;
                    assert(q@.take(j + 1)[w] == 32u8);
                }
                if q@[j as int] == 32u8 {
                    assert(q@.take(j + 1)[j as int] == 32u8);
                }
                if q@.take(j + 1).contains(32u8) && q@[j as int] != 32u8 {
                    let w = choose|w: int| 0 <= w < j + 1 && #[trigger] q@.take(j + 1)[w] == 32u8;
                    assert(pre[w] == 32u8);
                }
            }
            if q[j] == 32 {
                has_space = true;
            }
            j = j + 1;
        }
        proof {
            assert(q@.take(q.len() as int) =~= q@);
        }
        if !has_space {
            return out;
        }
        let toks = tokens(q);
        let ghost tv = long_pieces(pieces(q@));
        proof {
            lemma_long_pieces(pieces(q@));
            assert(toks@.map_values(|v: Vec<u8>| v@).len() == toks.len());
        }
        if toks.len() <= 1 {
            return out;
        }
        proof {
            assert forall|j: int| 0 <= j < toks.len() implies (#[trigger] toks[j]).len() > 0 by {
                assert(toks@.map_values(|v: Vec<u8>| v@)[j] == toks[j]@);
            }
        }
        let n = self.terms.len();
        let ghost terms = self.terms_view();
        let mut idx: usize = 0;
        while idx < n
            invariant
                self.wf(),
                n == terms.len(),
                terms == self.terms_view(),
                seen.len() == n,
                idx <= n,
                forall|j: int| 0 <= j < toks.len() ==> (#[trigger] toks[j]).len() > 0,
                toks@.map_values(|v: Vec<u8>| v@) == tv,
                out@ == fallback_entries(terms, seen@, tv, k as nat, idx as int),
            decreases n - idx,
        {
            if !seen[idx] {
                let term = self.term(idx);
                let c = token_hits(term, &toks, k);
                if c > 0 {
                    out.push((idx, c));
                }
            }
            idx = idx + 1;
        }
        out
    }

    /// Term `i` as given.
    pub fn display(&self, i: usize) -> (r: &str)
        requires
            self.wf(),
            i < self.terms_view().len(),
        ensures
            r@ == self.displays()[i as int],
    {
        self.terms_display[i].as_str()
    }

    /// The terms as given, with the radius, from which [`TermIndex::import`]
    /// rebuilds the index.
    pub fn export(&self) -> (r: (Vec<String>, usize))
        requires
            self.wf(),
        ensures
            r.0@.map_values(|t: String| t@) == self.displays(),
            r.1 == self.radius(),
    {
        let mut out: Vec<String> = Vec::new();
        let mut i: usize = 0;
        while i < self.terms_display.len()
            invariant
                i <= self.terms_display.len(),
                out@.map_values(|t: String| t@) == self.displays().take(i as int),
            decreases self.terms_display.len() - i,
        {
            let s = self.terms_display[i].clone();
            proof {
                assert(self.displays()[i as int] == s@);
                assert(self.displays().take(i + 1) =~= self.displays().take(i as int).push(s@));
                assert(out@.push(s).map_values(|t: String| t@) =~= out@.map_values(|t: String| t@).push(s@));
            }
            out.push(s);
            i = i + 1;
        }
        proof {
            assert(self.displays().take(i as int) =~= self.displays());
        }
        (out, self.k)
    }

    /// Rebuilds an index from exported terms and radius.
    pub fn import(terms: &[String], k: usize) -> (r: Result<TermIndex, Error>)
        requires
            forall|i: int| 0 <= i < terms.len() ==> encode_utf8((#[trigger] terms[i])@).len() < usize::MAX,
        ensures
            terms.len() == 0 ==> r == Err::<TermIndex, Error>(Error::EmptyInput),
            terms.len() > 0 && k > MAX_K ==> r == Err::<TermIndex, Error>(Error::KTooLarge { k, max: MAX_K }),
            terms.len() > 0 && k <= MAX_K ==> (r matches Ok(ix) && {
                &&& ix.wf()
                &&& ix.terms_view() == terms@.map_values(|t: String| lower(encode_utf8(t@)))
                &&& ix.displays() == terms@.map_values(|t: String| t@)
                &&& ix.radius() == k
            }),
    {
        let mut refs: Vec<&str> = Vec::new();
        let mut i: usize = 0;
        while i < terms.len()
            invariant
                i <= terms.len(),
                refs.len() == i,
                forall|j: int| 0 <= j < i ==> (#[trigger] refs[j])@ == terms[j]@,
            decreases terms.len() - i,
        {
            refs.push(terms[i].as_str());
            i = i + 1;
        }
        proof {
            assert forall|j: int| 0 <= j < refs.len() implies (#[trigger] refs@[j]).spec_bytes().len() < usize::MAX by {
                assert(refs@[j]@ == terms@[j]@);
            }
        }
        let r = TermIndex::build(refs.as_slice(), k);
        proof {
            assert(refs@.map_values(|t: &str| lower(t.spec_bytes())) =~= terms@.map_values(|t: String| lower(encode_utf8(t@))));
            assert(refs@.map_values(|t: &str| t@) =~= terms@.map_values(|t: String| t@));
        }
        r
    }

    /// The number of terms, the radius, and whether a tree is built.
    pub fn stats(&self) -> (s: IndexStats)
        requires
            self.wf(),
        ensures
            s.num_terms == self.terms_view().len(),
            s.max_mismatches == self.radius(),
            s.has_tree == self.has_tree_spec(),
    {
        let has_tree = match &self.root {
            Some(Some(_)) => true,
            _ => false,
        };
        IndexStats { num_terms: self.terms.len(), max_mismatches: self.k, has_tree }
    }
}

} // verus!
