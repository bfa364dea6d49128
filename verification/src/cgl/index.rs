//! The candidate stage of the fuzzy index: the terms with their lengths,
//! letter fingerprints and columns, and, for large term lists, a CGL tree
//! with a function inverter over its leaves. A query yields
//! `(term index, distance)` candidates; ranking them is the caller's part.
use vstd::prelude::*;
use vstd::string::StringSliceAdditionalSpecFns;
use vstd::arithmetic::power2::{pow2, lemma_pow2_unfold, lemma_pow2_strictly_increases, lemma2_to64};
use crate::cgl::edits::{fast_hamming, levenshtein, levenshtein_within, one_deletion, verify_deletion, verify_insertion};
use crate::cgl::fingerprint::{compute, could_be_close, could_be_deletion, could_be_insertion, differing,
    is_letter_fingerprint_of, total_diff};
use crate::cgl::altered::AlteredString;
use crate::cgl::error::Error;
use crate::cgl::tree::{all_wf, build_leaf_map, node_count, query_with_pruning, tree_size, CglNode, PruneConfig, RawMatch};
use crate::legacy::columnar::{scan_distance, scan_spec, ColumnarTerms};
use crate::legacy::fingerprint::{occurrences, saturated};
use crate::legacy::inverter::FunctionInverter;
use std::collections::HashMap;

verus! {

/// Term count from which the index builds a CGL tree.
pub const TREE_THRESHOLD: usize = 100_000;

/// The letter fingerprint of `w`: slot `i` counts letter `'a' + i`, capped at 255.
pub open spec fn letters(w: Seq<u8>) -> Seq<u8> {
    Seq::new(26, |i: int| saturated(occurrences(w, (i + 97) as u8)))
}

proof fn lemma_letters(fp: Seq<u8>, w: Seq<u8>)
    requires
        is_letter_fingerprint_of(fp, w),
    ensures
        fp == letters(w),
{
    assert(fp =~= letters(w));
}

/// The fingerprints allow `q` to be `t` with one letter deleted.
pub open spec fn fp_deletion(q: Seq<u8>, t: Seq<u8>) -> bool {
    t.len() == q.len() + 1 && total_diff(letters(q), letters(t), 26) == 1 && differing(letters(q), letters(t), 26) == 1
}

/// The fingerprints allow `q` to be `t` with one letter inserted.
pub open spec fn fp_insertion(q: Seq<u8>, t: Seq<u8>) -> bool {
    q.len() == t.len() + 1 && total_diff(letters(q), letters(t), 26) == 1 && differing(letters(q), letters(t), 26) == 1
}

/// The fingerprints allow `q` and `t` to be within two edits.
pub open spec fn fp_close(q: Seq<u8>, t: Seq<u8>) -> bool {
    (if q.len() >= t.len() { q.len() - t.len() } else { t.len() - q.len() }) <= 2
        && total_diff(letters(q), letters(t), 26) <= 4
}

/// Removing one byte of `q` leaves `t`.
pub open spec fn drops_to(q: Seq<u8>, t: Seq<u8>) -> bool {
    exists|s: int| 0 <= s < q.len() && #[trigger] q.remove(s) == t
}

/// The distance at which the brute-force search reports term `t` for query
/// `q` at radius `k`, if it does: the scan distance when within `k`; else 1
/// for a deletion or an insertion that the fingerprints allow and a walk
/// confirms; else, from `k = 2` up, the Levenshtein distance when the
/// fingerprints allow two edits and it is within `k`; else 1 when dropping
/// one query byte gives the term.
pub open spec fn brute_distance(q: Seq<u8>, t: Seq<u8>, k: nat) -> Option<nat> {
    if scan_distance(q, t) <= k {
        Some(scan_distance(q, t))
    } else if fp_deletion(q, t) && one_deletion(q, t) {
        Some(1)
    } else if fp_insertion(q, t) && one_deletion(t, q) {
        Some(1)
    } else if k >= 2 && fp_close(q, t) && levenshtein(q, t) <= k {
        Some(levenshtein(q, t) as nat)
    } else if drops_to(q, t) {
        Some(1)
    } else {
        None
    }
}

/// Every candidate names a term once, at its brute-force distance, and every
/// term with a brute-force distance is a candidate.
pub open spec fn brute_ok(terms: Seq<Seq<u8>>, q: Seq<u8>, k: nat, out: Seq<(usize, usize)>) -> bool {
    &&& forall|p: int| 0 <= p < out.len() ==> (#[trigger] out[p]).0 < terms.len()
        && brute_distance(q, terms[out[p].0 as int], k) == Some(out[p].1 as nat)
    &&& forall|i: int| 0 <= i < terms.len() && (#[trigger] brute_distance(q, terms[i], k)) is Some
        ==> exists|p: int| 0 <= p < out.len() && out[p].0 == i
    &&& forall|p1: int, p2: int| 0 <= p1 < p2 < out.len() ==> (#[trigger] out[p1]).0 != (#[trigger] out[p2]).0
}

/// The entries of the scan over the first `n` terms: increasing indices,
/// each within `k` at its scan distance, and every such term present.
pub(crate) proof fn lemma_scan_spec(terms: Seq<Seq<u8>>, q: Seq<u8>, k: nat, n: int)
    requires
        0 <= n <= terms.len(),
        terms.len() <= usize::MAX,
        k <= usize::MAX,
    ensures
        forall|p: int| 0 <= p < scan_spec(terms, q, k, n).len() ==> {
            let e = #[trigger] scan_spec(terms, q, k, n)[p];
            &&& e.0 < n
            &&& scan_distance(q, terms[e.0 as int]) <= k
            &&& e.1 == scan_distance(q, terms[e.0 as int])
        },
        forall|i: int| 0 <= i < n && scan_distance(q, #[trigger] terms[i]) <= k
            ==> exists|p: int| 0 <= p < scan_spec(terms, q, k, n).len() && scan_spec(terms, q, k, n)[p].0 == i,
        forall|p1: int, p2: int| 0 <= p1 < p2 < scan_spec(terms, q, k, n).len()
            ==> (#[trigger] scan_spec(terms, q, k, n)[p1]).0 < (#[trigger] scan_spec(terms, q, k, n)[p2]).0,
    decreases n,
{
    if n > 0 {
        lemma_scan_spec(terms, q, k, n - 1);
        let prev = scan_spec(terms, q, k, n - 1);
        let cur = scan_spec(terms, q, k, n);
        if scan_distance(q, terms[n - 1]) <= k {
            let e = ((n - 1) as usize, scan_distance(q, terms[n - 1]) as usize);
            assert(cur == prev.push(e));
            assert(e.0 == n - 1);
            assert forall|p: int| 0 <= p < cur.len() implies {
                let e = #[trigger] cur[p];
                &&& e.0 < n
                &&& scan_distance(q, terms[e.0 as int]) <= k
                &&& e.1 == scan_distance(q, terms[e.0 as int])
            } by {
                if p < prev.len() {
                    assert(cur[p] == prev[p]);
                }
            }
            assert forall|i: int| 0 <= i < n && scan_distance(q, #[trigger] terms[i]) <= k
                implies exists|p: int| 0 <= p < cur.len() && cur[p].0 == i by {
                if i < n - 1 {
                    let p = choose|p: int| 0 <= p < prev.len() && prev[p].0 == i;
                    assert(cur[p] == prev[p]);
                } else {
                    assert(cur[prev.len() as int] == e);
                }
            }
            assert forall|p1: int, p2: int| 0 <= p1 < p2 < cur.len() implies (#[trigger] cur[p1]).0 < (#[trigger] cur[p2]).0 by {
                if p2 < prev.len() {
                    assert(cur[p1] == prev[p1] && cur[p2] == prev[p2]);
                } else {
                    assert(cur[p1] == prev[p1]);
                    assert(prev[p1].0 < n - 1);
                }
            }
        } else {
            assert(cur == prev);
        }
    }
}

/// Whether two byte strings are equal.
pub(crate) fn same_bytes(a: &[u8], b: &[u8]) -> (r: bool)
    ensures
        r == (a@ == b@),
{
    if a.len() != b.len() {
        return false;
    }
    let mut i: usize = 0;
    while i < a.len()
        invariant
            a.len() == b.len(),
            i <= a.len(),
            forall|j: int| 0 <= j < i ==> a@[j] == b@[j],
        decreases a.len() - i,
    {
        if a[i] != b[i] {
            return false;
        }
        i = i + 1;
    }
    assert(a@ =~= b@);
    true
}

/// `q` without its byte at `skip`.
pub(crate) fn without(q: &[u8], skip: usize) -> (r: Vec<u8>)
    requires
        skip < q.len(),
    ensures
        r@ == q@.remove(skip as int),
{
    let mut r: Vec<u8> = Vec::new();
    let mut i: usize = 0;
    while i < q.len()
        invariant
            skip < q.len(),
            i <= q.len(),
            r@ == (if i <= skip { q@.take(i as int) } else { q@.remove(skip as int).take(i - 1) }),
        decreases q.len() - i,
    {
        if i != skip {
            proof {
                if i < skip {
                    assert(q@.take(i + 1) =~= q@.take(i as int).push(q@[i as int]));
                } else if i == skip + 1 {
                    assert(q@.take(i as int - 1) =~= q@.remove(skip as int).take(i - 1));
                    assert(q@.remove(skip as int).take(i as int) =~= q@.remove(skip as int).take(i - 1).push(q@[i as int]));
                } else {
                    assert(q@.remove(skip as int).take(i as int) =~= q@.remove(skip as int).take(i - 1).push(q@[i as int]));
                }
            }
            r.push(q[i]);
        } else {
            proof {
                assert(q@.take(i as int) =~= q@.remove(skip as int).take(i as int));
            }
        }
        i = i + 1;
    }
    proof {
        assert(q@.remove(skip as int).take(q.len() - 1) =~= q@.remove(skip as int));
    }
    r
}

/// The smallest `b` with `2^b >= n + 1`.
pub open spec fn bits_for(n: nat, b: nat) -> bool {
    pow2(b) >= n + 1 && (b == 0 || pow2((b - 1) as nat) < n + 1)
}

/// `ceil(b / max(k, 1))`, at least 2.
pub open spec fn sigma_of(b: nat, k: nat) -> nat {
    let kk: nat = if k > 1 { k } else { 1 };
    let s: nat = if b == 0 { 0 } else { ((b - 1) as nat) / kk + 1 };
    if s >= 2 { s } else { 2 }
}

/// The chain length of the tree for `n` terms at radius `k`:
/// `ceil(log2(n + 1) / max(k, 1))`, at least 2.
pub fn tree_sigma(n: usize, k: usize) -> (s: usize)
    ensures
        exists|b: nat| #[trigger] bits_for(n as nat, b) && s == sigma_of(b, k as nat),
        2 <= s <= 64,
{
    let kk: usize = if k > 1 { k } else { 1 };
    let target: u128 = n as u128 + 1;
    let mut p: u128 = 1;
    let mut b: usize = 0;
    proof {
        lemma2_to64();
    }
    while p < target
        invariant
            target == n + 1,
            target <= 0x1_0000_0000_0000_0000,
            p == pow2(b as nat),
            b <= 64,
            b > 0 ==> pow2((b - 1) as nat) < target,
            pow2(64) == 0x1_0000_0000_0000_0000,
        decreases 64 - b,
    {
        proof {
            lemma_pow2_unfold((b + 1) as nat);
            if b >= 64 {
                if b > 64 {
                    lemma_pow2_strictly_increases(64, b as nat);
                }
                assert(false);
            }
        }
        p = p * 2;
        b = b + 1;
    }
    proof {
        assert(bits_for(n as nat, b as nat));
    }
    let s = if b == 0 { 0 } else { (b - 1) / kk + 1 };
    proof {
        if b > 0 {
            let x = (b - 1) as int;
            let d = kk as int;
            assert(x / d <= x) by (nonlinear_arith)
                requires
                    x >= 0,
                    d >= 1,
            ;
        }
    }
    if s >= 2 { s } else { 2 }
}

/// One of the first four rules of [`brute_distance`] reports `t`.
pub open spec fn first_rules(q: Seq<u8>, t: Seq<u8>, k: nat) -> bool {
    ||| scan_distance(q, t) <= k
    ||| fp_deletion(q, t) && one_deletion(q, t)
    ||| fp_insertion(q, t) && one_deletion(t, q)
    ||| k >= 2 && fp_close(q, t) && levenshtein(q, t) <= k
}

/// Each entry names a term at its brute-force distance.
spec fn entries_ok(tv: Seq<Seq<u8>>, q: Seq<u8>, k: nat, res: Seq<(usize, usize)>) -> bool {
    forall|p: int| 0 <= p < res.len() ==> (#[trigger] res[p]).0 < tv.len()
        && brute_distance(q, tv[res[p].0 as int], k) == Some(res[p].1 as nat)
}

/// `seen` marks exactly the terms named by an entry.
spec fn marks(seen: Seq<bool>, res: Seq<(usize, usize)>) -> bool {
    forall|i: int| 0 <= i < seen.len() ==> (#[trigger] seen[i] <==> exists|p: int| 0 <= p < res.len() && res[p].0 == i)
}

/// No term is named twice.
spec fn distinct(res: Seq<(usize, usize)>) -> bool {
    forall|p1: int, p2: int| 0 <= p1 < p2 < res.len() ==> (#[trigger] res[p1]).0 != (#[trigger] res[p2]).0
}

proof fn lemma_push_entry(seen: Seq<bool>, res: Seq<(usize, usize)>, i: usize, d: usize)
    requires
        marks(seen, res),
        distinct(res),
        i < seen.len(),
        !seen[i as int],
    ensures
        marks(seen.update(i as int, true), res.push((i, d))),
        distinct(res.push((i, d))),
{
    let s2 = seen.update(i as int, true);
    let r2 = res.push((i, d));
    assert forall|j: int| 0 <= j < s2.len() implies (#[trigger] s2[j] <==> exists|p: int| 0 <= p < r2.len() && r2[p].0 == j) by {
        if j == i {
            assert(r2[res.len() as int].0 == j);
        } else {
            if s2[j] {
                let p = choose|p: int| 0 <= p < res.len() && res[p].0 == j;
                assert(r2[p] == res[p]);
            }
            if exists|p: int| 0 <= p < r2.len() && r2[p].0 == j {
                let p = choose|p: int| 0 <= p < r2.len() && r2[p].0 == j;
                assert(p < res.len());
                assert(r2[p] == res[p]);
            }
        }
    }
    assert forall|p1: int, p2: int| 0 <= p1 < p2 < r2.len() implies (#[trigger] r2[p1]).0 != (#[trigger] r2[p2]).0 by {
        if p2 < res.len() {
            assert(r2[p1] == res[p1] && r2[p2] == res[p2]);
        } else {
            assert(r2[p1] == res[p1]);
            if res[p1].0 == i {
                assert(seen[i as int]);
            }
        }
    }
}

/// Why the tree search may report term `t` at distance `d`: its scan
/// distance within the radius, or 1 for a screened and confirmed deletion
/// or insertion, or for dropping one query byte.
pub open spec fn tree_reason(q: Seq<u8>, t: Seq<u8>, k: nat, d: nat) -> bool {
    ||| d == scan_distance(q, t) && d <= k
    ||| d == 1 && fp_deletion(q, t) && one_deletion(q, t)
    ||| d == 1 && fp_insertion(q, t) && one_deletion(t, q)
    ||| d == 1 && drops_to(q, t)
}

/// Every candidate names a term once, for a reason of [`tree_reason`].
pub open spec fn tree_ok(terms: Seq<Seq<u8>>, q: Seq<u8>, k: nat, out: Seq<(usize, usize)>) -> bool {
    &&& forall|p: int| 0 <= p < out.len() ==> (#[trigger] out[p]).0 < terms.len()
        && tree_reason(q, terms[out[p].0 as int], k, out[p].1 as nat)
    &&& forall|p1: int, p2: int| 0 <= p1 < p2 < out.len() ==> (#[trigger] out[p1]).0 != (#[trigger] out[p2]).0
}

/// The distance at which the tree search reports term `t` for query `q` at
/// radius `k`, given whether the tree stage reached it: a reached term at
/// its scan distance when within the radius; any other term at 1 when it is
/// a screened and confirmed deletion or insertion of `q`, or `q` without
/// one byte.
pub open spec fn tree_distance(q: Seq<u8>, t: Seq<u8>, k: nat, reached: bool) -> Option<nat> {
    if reached {
        if scan_distance(q, t) <= k { Some(scan_distance(q, t)) } else { None }
    } else if (fp_deletion(q, t) && one_deletion(q, t)) || (fp_insertion(q, t) && one_deletion(t, q))
        || drops_to(q, t) {
        Some(1)
    } else {
        None
    }
}

/// The terms the tree stage marks, given the walk's matches `raw` and the
/// leaf labels `lm`: every matched origin, and besides only terms that are
/// matched or share a leaf with a matched origin.
pub open spec fn reach_ok(n: nat, raw: Seq<RawMatch>, lm: Map<usize, usize>, reached: Seq<bool>) -> bool {
    &&& reached.len() == n
    &&& forall|p: int| 0 <= p < raw.len() && raw[p].origin < n ==> #[trigger] reached[raw[p].origin as int]
    &&& forall|i: int| 0 <= i < n && #[trigger] reached[i] ==> (exists|p: int| 0 <= p < raw.len() && raw[p].origin == i)
        || (exists|p: int| 0 <= p < raw.len() && leaf_of(lm, raw[p].origin) is Some
            && leaf_of(lm, i as usize) == leaf_of(lm, raw[p].origin))
}

/// Every term sharing a leaf label with one of the first `upto` matches of
/// `raw` is marked in `reached`.
pub open spec fn mates_reached(n: nat, raw: Seq<RawMatch>, lm: Map<usize, usize>, reached: Seq<bool>, upto: int) -> bool {
    forall|p: int, i: int| #![trigger raw[p], reached[i]]
        0 <= p < upto && 0 <= i < n && leaf_of(lm, raw[p].origin) is Some
            && leaf_of(lm, i as usize) == leaf_of(lm, raw[p].origin) ==> reached[i]
}

/// Whether an entry names term `i`.
pub open spec fn names(out: Seq<(usize, usize)>, i: int) -> bool {
    exists|p: int| 0 <= p < out.len() && out[p].0 == i
}

/// The candidates after the tree stage marked the terms `reached`: every
/// entry names a term at its [`tree_distance`], every term with one is
/// named, and no term twice.
pub open spec fn tree_exact(terms: Seq<Seq<u8>>, q: Seq<u8>, k: nat, reached: Seq<bool>,
    out: Seq<(usize, usize)>) -> bool {
    &&& forall|p: int| 0 <= p < out.len() ==> (#[trigger] out[p]).0 < terms.len()
        && tree_distance(q, terms[out[p].0 as int], k, reached[out[p].0 as int]) == Some(out[p].1 as nat)
    &&& forall|i: int| 0 <= i < terms.len() && (#[trigger] tree_distance(q, terms[i], k, reached[i])) is Some
        ==> names(out, i)
    &&& forall|p1: int, p2: int| 0 <= p1 < p2 < out.len() ==> (#[trigger] out[p1]).0 != (#[trigger] out[p2]).0
}

proof fn lemma_names_push(out: Seq<(usize, usize)>, e: (usize, usize), i: int)
    ensures
        names(out.push(e), i) <==> names(out, i) || e.0 == i,
{
    let o2 = out.push(e);
    if names(out, i) {
        let p = choose|p: int| 0 <= p < out.len() && out[p].0 == i;
        assert(o2[p] == out[p]);
    }
    if e.0 == i {
        assert(o2[out.len() as int] == e);
    }
    if names(o2, i) {
        let p = choose|p: int| 0 <= p < o2.len() && o2[p].0 == i;
        if p < out.len() {
            assert(o2[p] == out[p]);
        }
    }
}

/// Each entry is marked in `seen`.
spec fn within(seen: Seq<bool>, res: Seq<(usize, usize)>) -> bool {
    forall|p: int| 0 <= p < res.len() ==> (#[trigger] res[p]).0 < seen.len() && seen[res[p].0 as int]
}

/// The labels of the terms below `n` stored in a leaf.
pub open spec fn labels_below(map: Map<usize, usize>, n: nat) -> Set<usize> {
    Set::new(|l: usize| exists|i: usize| i < n && map.contains_key(i) && map[i] == l)
}

/// What a fuzzy index reports about itself.
#[derive(Debug)]
pub struct IndexStats {
    pub num_terms: usize,
    pub max_mismatches: usize,
    pub sigma: usize,
    pub tree_nodes: usize,
    pub leaf_count: usize,
    pub strategy: String,
}

proof fn lemma_push_within(seen: Seq<bool>, res: Seq<(usize, usize)>, tv: Seq<Seq<u8>>, q: Seq<u8>, k: nat, i: usize,
    d: usize)
    requires
        within(seen, res),
        tree_ok(tv, q, k, res),
        i < seen.len(),
        seen.len() == tv.len(),
        !seen[i as int],
        tree_reason(q, tv[i as int], k, d as nat),
    ensures
        within(seen.update(i as int, true), res.push((i, d))),
        tree_ok(tv, q, k, res.push((i, d))),
{
    let s2 = seen.update(i as int, true);
    let r2 = res.push((i, d));
    assert forall|p: int| 0 <= p < r2.len() implies (#[trigger] r2[p]).0 < s2.len() && s2[r2[p].0 as int] by {
        if p < res.len() {
            assert(r2[p] == res[p]);
        }
    }
    assert forall|p: int| 0 <= p < r2.len() implies (#[trigger] r2[p]).0 < tv.len()
        && tree_reason(q, tv[r2[p].0 as int], k, r2[p].1 as nat) by {
        if p < res.len() {
            assert(r2[p] == res[p]);
        }
    }
    assert forall|p1: int, p2: int| 0 <= p1 < p2 < r2.len() implies (#[trigger] r2[p1]).0 != (#[trigger] r2[p2]).0 by {
        if p2 < res.len() {
            assert(r2[p1] == res[p1] && r2[p2] == res[p2]);
        } else {
            assert(r2[p1] == res[p1]);
            assert(seen[res[p1].0 as int]);
        }
    }
}

/// The leaf label of origin `i`, if it has one.
pub open spec fn leaf_of(map: Map<usize, usize>, i: usize) -> Option<usize> {
    if map.contains_key(i) { Some(map[i]) } else { None }
}

/// The terms of a fuzzy index with what its candidate search reads: their
/// lengths, letter fingerprints and columns, the radius `k`, and from
/// [`TREE_THRESHOLD`] terms on a CGL tree of chain length `sigma`, its leaf
/// labels and an inverter of the labelling.
pub struct TermIndex {
    terms: Vec<Vec<u8>>,
    term_lengths: Vec<usize>,
    col_terms: ColumnarTerms,
    fingerprints: Vec<[u8; 26]>,
    root: Option<CglNode>,
    inverter: Option<FunctionInverter>,
    leaf_map: HashMap<usize, usize>,
    tree_nodes: usize,
    k: usize,
    sigma: usize,
    use_tree: bool,
}

impl TermIndex {
    /// The terms, as bytes.
    pub closed spec fn terms_view(&self) -> Seq<Seq<u8>> {
        self.terms@.map_values(|t: Vec<u8>| t@)
    }

    /// The radius.
    pub closed spec fn radius(&self) -> nat {
        self.k as nat
    }

    /// Whether candidates come from the tree.
    pub closed spec fn uses_tree(&self) -> bool {
        self.use_tree
    }

    /// The chain length of the tree (0 without one).
    pub closed spec fn sigma_view(&self) -> nat {
        self.sigma as nat
    }

    /// The number of tree nodes (0 without a tree), at most `usize::MAX`.
    pub closed spec fn tree_nodes_view(&self) -> nat {
        self.tree_nodes as nat
    }

    /// The leaf label of each term stored in a tree leaf.
    pub closed spec fn leaf_labels(&self) -> Map<usize, usize> {
        self.leaf_map@
    }

    #[verifier::type_invariant]
    spec fn fits(&self) -> bool {
        &&& self.terms.len() > 0
        &&& self.col_terms.wf()
        &&& self.col_terms.terms() == self.terms_view()
        &&& self.term_lengths.len() == self.terms.len()
        &&& self.fingerprints.len() == self.terms.len()
        &&& forall|i: int| 0 <= i < self.terms.len() ==> #[trigger] self.term_lengths[i] == self.terms[i].len()
        &&& forall|i: int| 0 <= i < self.terms.len() ==> #[trigger] self.fingerprints[i]@ == letters(self.terms[i]@)
        &&& forall|i: int| 0 <= i < self.terms.len() ==> #[trigger] self.terms[i].len() < usize::MAX
        &&& self.use_tree == (self.terms.len() >= TREE_THRESHOLD)
        &&& self.use_tree ==> (self.inverter matches Some(inv) && inv.domain() == self.terms.len())
        &&& self.inverter matches Some(inv) ==> inv.domain() == self.terms.len()
        &&& self.inverter matches Some(inv) ==> forall|j: usize, i: usize| #![trigger inv.stored()[j].contains(i)]
                inv.stored().contains_key(j) && inv.stored()[j].contains(i) ==> leaf_of(self.leaf_map@, i) == Some(j)
    }

    /// What the tree stage's walk of the CGL tree reports for `q` under the
    /// plausibility `table` (nothing without a tree).
    pub closed spec fn tree_walk(&self, q: Seq<u8>, table: Option<Seq<bool>>) -> Seq<RawMatch> {
        match self.root {
            Some(n) => n.matches(q, self.k as nat, table),
            None => Seq::empty(),
        }
    }

    /// Indexes `terms` (as bytes) for candidate search at radius `k`, with
    /// a tree when there are at least [`TREE_THRESHOLD`] of them. An empty
    /// list is refused.
    pub fn build(terms: &[&str], k: usize) -> (r: Result<TermIndex, Error>)
        requires
            forall|i: int| 0 <= i < terms.len() ==> (#[trigger] terms[i]).spec_bytes().len() < usize::MAX,
        ensures
            r is Err <==> terms.len() == 0,
            r is Err ==> r == Err::<TermIndex, Error>(Error::EmptyInput),
            r matches Ok(ix) ==> {
                &&& ix.terms_view() == terms@.map_values(|t: &str| t.spec_bytes())
                &&& ix.radius() == k
                &&& ix.uses_tree() == (terms.len() >= TREE_THRESHOLD)
                &&& ix.uses_tree() ==> exists|b: nat| #[trigger] bits_for(terms.len() as nat, b)
                    && ix.sigma_view() == sigma_of(b, k as nat)
                &&& !ix.uses_tree() ==> ix.sigma_view() == 0 && ix.tree_nodes_view() == 0
            },
    {
        if terms.len() == 0 {
            return Err(Error::EmptyInput);
        }
        let n = terms.len();
        let mut owned: Vec<Vec<u8>> = Vec::new();
        let mut lengths: Vec<usize> = Vec::new();
        let mut fps: Vec<[u8; 26]> = Vec::new();
        let mut i: usize = 0;
        while i < n
            invariant
                n == terms.len(),
                i <= n,
                owned.len() == i,
                lengths.len() == i,
                fps.len() == i,
                forall|j: int| 0 <= j < terms.len() ==> (#[trigger] terms[j]).spec_bytes().len() < usize::MAX,
                forall|j: int| 0 <= j < i ==> #[trigger] owned[j]@ == terms[j].spec_bytes(),
                forall|j: int| 0 <= j < i ==> #[trigger] lengths[j] == owned[j].len(),
                forall|j: int| 0 <= j < i ==> #[trigger] fps[j]@ == letters(owned[j]@),
            decreases n - i,
        {
            let bytes = terms[i].as_bytes();
            let mut t: Vec<u8> = Vec::new();
            let mut c: usize = 0;
            while c < bytes.len()
                invariant
                    c <= bytes.len(),
                    t@ == bytes@.take(c as int),
                decreases bytes.len() - c,
            {
                proof {
                    assert(bytes@.take(c + 1) =~= bytes@.take(c as int).push(bytes@[c as int]));
                }
                t.push(bytes[c]);
                c = c + 1;
            }
            proof {
                assert(bytes@.take(bytes.len() as int) =~= bytes@);
            }
            let fp = compute(t.as_slice());
            proof {
                lemma_letters(fp@, t@);
            }
            lengths.push(t.len());
            fps.push(fp);
            owned.push(t);
            i = i + 1;
        }
        let col_terms = ColumnarTerms::build(owned.as_slice());
        proof {
            assert(owned@.map_values(|t: Vec<u8>| t@) =~= terms@.map_values(|t: &str| t.spec_bytes()));
        }
        if n < TREE_THRESHOLD {
            let ix = TermIndex {
                terms: owned,
                term_lengths: lengths,
                col_terms,
                fingerprints: fps,
                root: None,
                inverter: None,
                leaf_map: HashMap::new(),
                tree_nodes: 0,
                k,
                sigma: 0,
                use_tree: false,
            };
            return Ok(ix);
        }
        let sigma = tree_sigma(n, k);
        let mut altered: Vec<AlteredString> = Vec::new();
        let mut i: usize = 0;
        while i < n
            invariant
                n == owned.len(),
                i <= n,
                altered.len() == i,
                all_wf(altered@),
            decreases n - i,
        {
            let a = AlteredString::new(owned[i].as_slice(), Some(i));
            altered.push(a);
            proof {
                assert forall|j: int| 0 <= j < altered.len() implies #[trigger] altered@[j].wf() by {
                    if j < i {
                        assert(altered@[j] == altered@.drop_last()[j]);
                    }
                }
            }
            i = i + 1;
        }
        let root = crate::cgl::tree::build(altered, k, sigma);
        let nodes = node_count(root.as_ref());
        let leaf_map = if nodes < usize::MAX { build_leaf_map(root.as_ref()) } else { HashMap::new() };
        let lm = &leaf_map;
        let f = |x: usize| -> (r: Option<usize>)
            ensures
                r == leaf_of(lm@, x),
        {
            match lm.get(&x) {
                Some(v) => Some(*v),
                None => None,
            }
        };
        proof {
            assert(sigma * sigma * sigma <= 64 * 64 * 64) by (nonlinear_arith)
                requires
                    sigma <= 64,
            ;
        }
        let inverter = FunctionInverter::build(n, sigma, &f);
        let ix = TermIndex {
            terms: owned,
            term_lengths: lengths,
            col_terms,
            fingerprints: fps,
            root,
            inverter: Some(inverter),
            leaf_map,
            tree_nodes: nodes,
            k,
            sigma,
            use_tree: true,
        };
        Ok(ix)
    }

    /// The brute-force candidates of `q`: the columnar scan within the
    /// radius, then for each other term a fingerprint-screened and confirmed
    /// deletion or insertion, or (radius 2 and up) a Levenshtein distance
    /// within the radius, then the terms equal to `q` without one byte.
    fn search_brute(&self, q: &[u8]) -> (out: Vec<(usize, usize)>)
        requires
            q.len() < usize::MAX,
        ensures
            brute_ok(self.terms_view(), q@, self.radius(), out@),
    {
        proof {
            use_type_invariant(self);
        }
        let n = self.terms.len();
        let k = self.k;
        let qlen = q.len();
        let ghost tv = self.terms_view();
        let ghost kn = k as nat;
        let q_fp = compute(q);
        proof {
            lemma_letters(q_fp@, q@);
        }
        let mut seen: Vec<bool> = Vec::new();
        let mut z: usize = 0;
        while z < n
            invariant
                z <= n,
                seen.len() == z,
                forall|j: int| 0 <= j < z ==> !(#[trigger] seen[j]),
            decreases n - z,
        {
            seen.push(false);
            z = z + 1;
        }
        let mut results: Vec<(usize, usize)> = Vec::new();
        let hits = self.col_terms.scan(q, k);
        proof {
            lemma_scan_spec(tv, q@, kn, n as int);
            assert(marks(seen@, results@));
        }
        let mut h: usize = 0;
        while h < hits.len()
            invariant
                n == tv.len(),
                tv == self.terms_view(),
                kn == k,
                hits@ == scan_spec(tv, q@, kn, n as int),
                forall|p: int| 0 <= p < hits@.len() ==> {
                    let e = #[trigger] hits@[p];
                    &&& e.0 < n
                    &&& scan_distance(q@, tv[e.0 as int]) <= kn
                    &&& e.1 == scan_distance(q@, tv[e.0 as int])
                },
                forall|p1: int, p2: int| 0 <= p1 < p2 < hits@.len() ==> (#[trigger] hits@[p1]).0 < (#[trigger] hits@[p2]).0,
                h <= hits.len(),
                seen.len() == n,
                results@ == hits@.take(h as int),
                entries_ok(tv, q@, kn, results@),
                marks(seen@, results@),
                distinct(results@),
            decreases hits.len() - h,
        {
            let e = hits[h];
            proof {
                if seen@[e.0 as int] {
                    let p = choose|p: int| 0 <= p < results@.len() && results@[p].0 == e.0;
                    assert(results@[p] == hits@[p]);
                }
                lemma_push_entry(seen@, results@, e.0, e.1);
                assert(hits@.take(h + 1) =~= hits@.take(h as int).push(e));
            }
            seen.set(e.0, true);
            results.push(e);
            h = h + 1;
        }
        proof {
            assert(hits@.take(hits.len() as int) =~= hits@);
            assert forall|j: int| 0 <= j < n implies (#[trigger] seen@[j] <==> scan_distance(q@, tv[j]) <= kn) by {
                if scan_distance(q@, tv[j]) <= kn {
                    let p = choose|p: int| 0 <= p < hits@.len() && hits@[p].0 == j;
                    assert(results@[p].0 == j);
                }
                if seen@[j] {
                    let p = choose|p: int| 0 <= p < results@.len() && results@[p].0 == j;
                    assert(hits@[p].0 == j);
                }
            }
        }
        let mut i: usize = 0;
        while i < n
            invariant
                n == tv.len(),
                n == self.terms.len(),
                tv == self.terms_view(),
                kn == k,
                k == self.k,
                qlen == q.len(),
                qlen < usize::MAX,
                q_fp@ == letters(q@),
                i <= n,
                seen.len() == n,
                entries_ok(tv, q@, kn, results@),
                marks(seen@, results@),
                distinct(results@),
                forall|j: int| i <= j < n ==> (#[trigger] seen@[j] <==> scan_distance(q@, tv[j]) <= kn),
                forall|j: int| 0 <= j < i ==> first_rules(q@, #[trigger] tv[j], kn) ==> seen@[j],
            decreases n - i,
        {
            proof {
                use_type_invariant(self);
                assert(tv[i as int] == self.terms[i as int]@);
            }
            if seen[i] {
                i = i + 1;
                continue;
            }
            let tlen = self.term_lengths[i];
            let tfp = &self.fingerprints[i];
            let term = self.terms[i].as_slice();
            let mut hit: Option<usize> = None;
            if could_be_deletion(&q_fp, tfp, qlen, tlen) {
                if verify_deletion(q, term) {
                    hit = Some(1);
                }
            }
            if hit.is_none() && could_be_insertion(&q_fp, tfp, qlen, tlen) {
                if verify_insertion(q, term) {
                    hit = Some(1);
                }
            }
            if hit.is_none() && k >= 2 && could_be_close(&q_fp, tfp, qlen, tlen) {
                let d = levenshtein_within(q, term, k);
                if d <= k {
                    hit = Some(d);
                }
            }
            match hit {
                Some(d) => {
                    proof {
                        lemma_push_entry(seen@, results@, i, d);
                    }
                    seen.set(i, true);
                    results.push((i, d));
                },
                None => {},
            }
            i = i + 1;
        }
        let mut skip: usize = 0;
        while skip < qlen
            invariant
                n == tv.len(),
                n == self.terms.len(),
                tv == self.terms_view(),
                kn == k,
                qlen == q.len(),
                skip <= qlen,
                seen.len() == n,
                entries_ok(tv, q@, kn, results@),
                marks(seen@, results@),
                distinct(results@),
                forall|j: int| 0 <= j < n ==> first_rules(q@, #[trigger] tv[j], kn) ==> seen@[j],
                forall|s: int, j: int| #![trigger q@.remove(s), tv[j]] 0 <= s < skip && 0 <= j < n && q@.remove(s) == tv[j] ==> seen@[j],
            decreases qlen - skip,
        {
            let buf = without(q, skip);
            let mut idx: usize = 0;
            while idx < n
                invariant
                    n == tv.len(),
                    n == self.terms.len(),
                    tv == self.terms_view(),
                    kn == k,
                    qlen == q.len(),
                    skip < qlen,
                    buf@ == q@.remove(skip as int),
                    idx <= n,
                    seen.len() == n,
                    entries_ok(tv, q@, kn, results@),
                    marks(seen@, results@),
                    distinct(results@),
                    forall|j: int| 0 <= j < n ==> first_rules(q@, #[trigger] tv[j], kn) ==> seen@[j],
                    forall|s: int, j: int| #![trigger q@.remove(s), tv[j]] 0 <= s < skip && 0 <= j < n && q@.remove(s) == tv[j] ==> seen@[j],
                    forall|j: int| 0 <= j < idx && q@.remove(skip as int) == #[trigger] tv[j] ==> seen@[j],
                decreases n - idx,
            {
                proof {
                    assert(tv[idx as int] == self.terms[idx as int]@);
                }
                if same_bytes(self.terms[idx].as_slice(), buf.as_slice()) && !seen[idx] {
                    proof {
                        assert(drops_to(q@, tv[idx as int])) by {
                            assert(q@.remove(skip as int) == tv[idx as int]);
                        }
                        lemma_push_entry(seen@, results@, idx, 1);
                    }
                    seen.set(idx, true);
                    results.push((idx, 1));
                }
                idx = idx + 1;
            }
            skip = skip + 1;
        }
        proof {
            assert forall|i: int| 0 <= i < tv.len() && (#[trigger] brute_distance(q@, tv[i], kn)) is Some
                implies exists|p: int| 0 <= p < results@.len() && results@[p].0 == i by {
                if !first_rules(q@, tv[i], kn) {
                    let s = choose|s: int| 0 <= s < q@.len() && #[trigger] q@.remove(s) == tv[i];
                    assert(q@.remove(s) == tv[i]);
                }
                assert(seen@[i]);
            }
        }
        results
    }

    /// The tree candidates of `q`: the terms the pruned tree query finds
    /// within the radius, with the terms sharing a leaf with them, kept when
    /// their scan distance is within the radius; then for each other term a
    /// fingerprint-screened and confirmed deletion or insertion; then the
    /// terms equal to `q` without one byte.
    fn search_tree(&self, q: &[u8], config: &PruneConfig) -> (out: Vec<(usize, usize)>)
        requires
            q.len() < usize::MAX,
            config.sized(),
        ensures
            tree_ok(self.terms_view(), q@, self.radius(), out@),
            exists|reached: Seq<bool>| reached.len() == self.terms_view().len()
                && reach_ok(self.terms_view().len(), self.tree_walk(q@, config.table()), self.leaf_labels(), reached)
                && (self.uses_tree() ==> mates_reached(self.terms_view().len(), self.tree_walk(q@, config.table()),
                    self.leaf_labels(), reached, self.tree_walk(q@, config.table()).len() as int))
                && #[trigger] tree_exact(self.terms_view(), q@, self.radius(), reached, out@),
    {
        proof {
            use_type_invariant(self);
        }
        let n = self.terms.len();
        let k = self.k;
        let qlen = q.len();
        let ghost tv = self.terms_view();
        let ghost kn = k as nat;
        let q_fp = compute(q);
        proof {
            lemma_letters(q_fp@, q@);
        }
        let alt_query = AlteredString::new(q, None);
        let raw = query_with_pruning(self.root.as_ref(), &alt_query, k, config);
        let ghost rv = raw@;
        let ghost lmv = self.leaf_map@;
        proof {
            assert(rv == self.tree_walk(q@, config.table()));
        }
        let mut seen: Vec<bool> = Vec::new();
        let mut z: usize = 0;
        while z < n
            invariant
                z <= n,
                seen.len() == z,
                forall|i: int| 0 <= i < z ==> !#[trigger] seen@[i],
            decreases n - z,
        {
            seen.push(false);
            z = z + 1;
        }
        let mut r: usize = 0;
        while r < raw.len()
            invariant
                r <= raw.len(),
                rv == raw@,
                seen.len() == n,
                forall|p: int| 0 <= p < r && rv[p].origin < n ==> #[trigger] seen@[rv[p].origin as int],
                forall|i: int| 0 <= i < n && #[trigger] seen@[i] ==> exists|p: int| 0 <= p < rv.len() && rv[p].origin == i,
            decreases raw.len() - r,
        {
            let o = raw[r].origin;
            if o < n {
                seen.set(o, true);
            }
            proof {
                assert(rv[r as int].origin == o);
            }
            r = r + 1;
        }
        match &self.inverter {
            Some(inv) => {
                let lm = &self.leaf_map;
                let f = |x: usize| -> (r: Option<usize>)
                    ensures
                        r == leaf_of(lm@, x),
                {
                    match lm.get(&x) {
                        Some(v) => Some(*v),
                        None => None,
                    }
                };
                proof {
                    assert forall|x: usize| x < inv.domain() implies #[trigger] f.requires((x,)) by {}
                    assert forall|x: usize, rr: Option<usize>| #[trigger] f.ensures((x,), rr) implies rr == leaf_of(lmv, x) by {}
                }
                let mut r: usize = 0;
                while r < raw.len()
                    invariant
                        r <= raw.len(),
                        rv == raw@,
                        lmv == lm@,
                        seen.len() == n,
                        forall|x: usize| x < inv.domain() ==> #[trigger] f.requires((x,)),
                        forall|x: usize, rr: Option<usize>| #[trigger] f.ensures((x,), rr) ==> rr == leaf_of(lmv, x),
                        forall|j: usize, i: usize| #![trigger inv.stored()[j].contains(i)]
                            inv.stored().contains_key(j) && inv.stored()[j].contains(i) ==> leaf_of(lmv, i) == Some(j),
                        forall|p: int| 0 <= p < rv.len() && rv[p].origin < n ==> #[trigger] seen@[rv[p].origin as int],
                        forall|i: int| 0 <= i < n && #[trigger] seen@[i] ==> (exists|p: int| 0 <= p < rv.len() && rv[p].origin == i)
                            || (exists|p: int| 0 <= p < rv.len() && leaf_of(lmv, rv[p].origin) is Some
                                && leaf_of(lmv, i as usize) == leaf_of(lmv, rv[p].origin)),
                        inv.domain() == n,
                        mates_reached(n as nat, rv, lmv, seen@, r as int),
                    decreases raw.len() - r,
                {
                    let ghost seen0 = seen@;
                    match lm.get(&raw[r].origin) {
                        Some(label) => {
                            let ghost o = rv[r as int].origin;
                            proof {
                                assert(leaf_of(lmv, o) == Some(*label));
                            }
                            let pre = inv.invert(*label, &f);
                            proof {
                                assert forall|y: int| 0 <= y < pre.len() implies leaf_of(lmv, #[trigger] pre@[y]) == Some(*label) by {
                                    let x = pre[y];
                                    assert((inv.stored().contains_key(*label) && inv.stored()[*label].contains(x))
                                        || f.ensures((x,), Some(*label)));
                                    if inv.stored().contains_key(*label) && inv.stored()[*label].contains(x) {
                                        assert(leaf_of(lmv, x) == Some(*label));
                                    } else {
                                        assert(f.ensures((x,), Some(*label)));
                                        assert(leaf_of(lmv, x) == Some(*label));
                                    }
                                }
                            }
                            let mut x: usize = 0;
                            while x < pre.len()
                                invariant
                                    x <= pre.len(),
                                    rv == raw@,
                                    seen.len() == n,
                                    0 <= r < rv.len(),
                                    o == rv[r as int].origin,
                                    leaf_of(lmv, o) == Some(*label),
                                    forall|y: int| 0 <= y < pre.len() ==> leaf_of(lmv, #[trigger] pre@[y]) == Some(*label),
                                    forall|p: int| 0 <= p < rv.len() && rv[p].origin < n ==> #[trigger] seen@[rv[p].origin as int],
                                    forall|i: int| 0 <= i < n && #[trigger] seen@[i] ==> (exists|p: int| 0 <= p < rv.len() && rv[p].origin == i)
                                        || (exists|p: int| 0 <= p < rv.len() && leaf_of(lmv, rv[p].origin) is Some
                                            && leaf_of(lmv, i as usize) == leaf_of(lmv, rv[p].origin)),
                                seen0.len() == n,
                                forall|i: int| 0 <= i < n && #[trigger] seen0[i] ==> seen@[i],
                                forall|y: int| 0 <= y < x && pre@[y] < n ==> #[trigger] seen@[pre@[y] as int],
                                decreases pre.len() - x,
                            {
                                let idx = pre[x];
                                if idx < n {
                                    seen.set(idx, true);
                                }
                                x = x + 1;
                            }
                            proof {
                                assert forall|i: int| 0 <= i < n && leaf_of(lmv, i as usize) == Some(*label)
                                    implies seen@[i] by {
                                    let iu = i as usize;
                                    assert forall|v: Option<usize>| #[trigger] f.ensures((iu,), v) implies v == Some(*label) by {}
                                    assert(pre@.contains(iu));
                                    let y = choose|y: int| 0 <= y < pre@.len() && pre@[y] == iu;
                                    assert(seen@[pre@[y] as int]);
                                }
                            }
                        },
                        None => {},
                    }
                    proof {
                        assert forall|p: int, i: int| #![trigger rv[p], seen@[i]]
                            0 <= p < r + 1 && 0 <= i < n && leaf_of(lmv, rv[p].origin) is Some
                                && leaf_of(lmv, i as usize) == leaf_of(lmv, rv[p].origin) implies seen@[i] by {
                            if p < r {
                                assert(seen0[i]);
                            } else {
                                assert(lmv.contains_key(rv[p].origin));
                            }
                        }
                    }
                    r = r + 1;
                }
            },
            None => {},
        }
        let out = self.resolve_candidates(q, &seen);
        proof {
            assert(tree_exact(tv, q@, kn, seen@, out@));
            assert(reach_ok(tv.len(), rv, lmv, seen@));
        }
        out
    }

    /// The candidates of `q` once the tree stage has marked the terms it
    /// reached in `reached`: the reached terms within the radius at their
    /// scan distance; then each other term that is a fingerprint-screened
    /// and confirmed deletion or insertion of `q`; then each remaining one
    /// equal to `q` without one byte; these two kinds at distance 1.
    pub fn resolve_candidates(&self, q: &[u8], reached: &Vec<bool>) -> (out: Vec<(usize, usize)>)
        requires
            q.len() < usize::MAX,
            reached.len() == self.terms_view().len(),
        ensures
            tree_exact(self.terms_view(), q@, self.radius(), reached@, out@),
            tree_ok(self.terms_view(), q@, self.radius(), out@),
    {
        proof {
            use_type_invariant(self);
        }
        let n = self.terms.len();
        let k = self.k;
        let qlen = q.len();
        let ghost tv = self.terms_view();
        let ghost kn = k as nat;
        let ghost h = reached@;
        let q_fp = compute(q);
        proof {
            lemma_letters(q_fp@, q@);
        }
        let mut seen: Vec<bool> = Vec::new();
        let mut z: usize = 0;
        while z < n
            invariant
                z <= n,
                n == reached.len(),
                h == reached@,
                seen.len() == z,
                forall|j: int| 0 <= j < z ==> seen@[j] == h[j],
            decreases n - z,
        {
            seen.push(reached[z]);
            z = z + 1;
        }
        proof {
            assert(seen@ =~= h);
        }
        let mut results: Vec<(usize, usize)> = Vec::new();
        let mut idx: usize = 0;
        while idx < n
            invariant
                n == tv.len(),
                n == self.terms.len(),
                tv == self.terms_view(),
                kn == k,
                idx <= n,
                seen.len() == n,
                tree_ok(tv, q@, kn, results@),
                within(seen@, results@),
                forall|p: int| 0 <= p < results.len() ==> (#[trigger] results@[p]).0 < idx,
                h.len() == n,
                seen@ == h,
                forall|p: int| 0 <= p < results.len() ==> tree_distance(q@, tv[(#[trigger] results@[p]).0 as int], kn,
                    h[results@[p].0 as int]) == Some(results@[p].1 as nat),
                forall|j: int| 0 <= j < idx && h[j] && scan_distance(q@, #[trigger] tv[j]) <= kn ==> names(results@, j),
            decreases n - idx,
        {
            if seen[idx] {
                proof {
                    assert(tv[idx as int] == self.terms[idx as int]@);
                }
                let d = fast_hamming(q, self.terms[idx].as_slice(), k);
                if d <= k {
                    let ghost before = results@;
                    proof {
                        assert(tv[idx as int] == tv[idx as int]);
                    }
                    results.push((idx, d));
                    proof {
                        assert forall|p1: int, p2: int| 0 <= p1 < p2 < results@.len()
                            implies (#[trigger] results@[p1]).0 != (#[trigger] results@[p2]).0 by {
                            if p2 < before.len() {
                                assert(results@[p1] == before[p1] && results@[p2] == before[p2]);
                            } else {
                                assert(results@[p1] == before[p1]);
                            }
                        }
                        assert forall|p: int| 0 <= p < results@.len() implies (#[trigger] results@[p]).0 < seen.len()
                            && seen@[results@[p].0 as int] by {
                            if p < before.len() {
                                assert(results@[p] == before[p]);
                            }
                        }
                        assert forall|p: int| 0 <= p < results.len() implies tree_distance(q@,
                            tv[(#[trigger] results@[p]).0 as int], kn, h[results@[p].0 as int])
                            == Some(results@[p].1 as nat) by {
                            if p < before.len() {
                                assert(results@[p] == before[p]);
                            }
                        }
                        assert forall|j: int| 0 <= j < idx + 1 && h[j] && scan_distance(q@, #[trigger] tv[j]) <= kn
                            implies names(results@, j) by {
                            lemma_names_push(before, (idx, d), j);
                        }
                    }
                }
            }
            idx = idx + 1;
        }
        proof {
            assert forall|j: int| 0 <= j < n implies (#[trigger] seen@[j] <==> (h[j] || names(results@, j))) by {
                if names(results@, j) {
                    let p = choose|p: int| 0 <= p < results@.len() && results@[p].0 == j;
                    assert(seen@[results@[p].0 as int]);
                }
            }
        }
        let mut i: usize = 0;
        while i < n
            invariant
                n == tv.len(),
                n == self.terms.len(),
                tv == self.terms_view(),
                kn == k,
                qlen == q.len(),
                q_fp@ == letters(q@),
                i <= n,
                seen.len() == n,
                tree_ok(tv, q@, kn, results@),
                within(seen@, results@),
                h.len() == n,
                forall|p: int| 0 <= p < results.len() ==> tree_distance(q@, tv[(#[trigger] results@[p]).0 as int], kn,
                    h[results@[p].0 as int]) == Some(results@[p].1 as nat),
                forall|j: int| 0 <= j < n ==> (#[trigger] seen@[j] <==> (h[j] || names(results@, j))),
                forall|j: int| 0 <= j < n && h[j] && scan_distance(q@, #[trigger] tv[j]) <= kn ==> names(results@, j),
                forall|j: int| 0 <= j < i && !h[j] && ((fp_deletion(q@, #[trigger] tv[j]) && one_deletion(q@, tv[j]))
                    || (fp_insertion(q@, tv[j]) && one_deletion(tv[j], q@))) ==> names(results@, j),
            decreases n - i,
        {
            proof {
                use_type_invariant(self);
                assert(tv[i as int] == self.terms[i as int]@);
            }
            if !seen[i] {
                let tlen = self.term_lengths[i];
                let tfp = &self.fingerprints[i];
                let term = self.terms[i].as_slice();
                let mut hit = false;
                if could_be_deletion(&q_fp, tfp, qlen, tlen) {
                    if verify_deletion(q, term) {
                        hit = true;
                    }
                }
                if !hit && could_be_insertion(&q_fp, tfp, qlen, tlen) {
                    if verify_insertion(q, term) {
                        hit = true;
                    }
                }
                if hit {
                    let ghost before = results@;
                    let ghost seen0 = seen@;
                    proof {
                        lemma_push_within(seen@, results@, tv, q@, kn, i, 1);
                    }
                    seen.set(i, true);
                    results.push((i, 1));
                    proof {
                        assert forall|j: int| 0 <= j < n implies (#[trigger] seen@[j] <==> (h[j] || names(results@, j))) by {
                            lemma_names_push(before, (i, 1), j);
                            assert(seen0[j] == seen0[j]);
                        }
                        assert forall|p: int| 0 <= p < results.len() implies tree_distance(q@,
                            tv[(#[trigger] results@[p]).0 as int], kn, h[results@[p].0 as int])
                            == Some(results@[p].1 as nat) by {
                            if p < before.len() {
                                assert(results@[p] == before[p]);
                            }
                        }
                        assert forall|j: int| 0 <= j < n && h[j] && scan_distance(q@, #[trigger] tv[j]) <= kn
                            implies names(results@, j) by {
                            lemma_names_push(before, (i, 1), j);
                        }
                        assert forall|j: int| 0 <= j < i + 1 && !h[j] && ((fp_deletion(q@, #[trigger] tv[j])
                            && one_deletion(q@, tv[j])) || (fp_insertion(q@, tv[j]) && one_deletion(tv[j], q@)))
                            implies names(results@, j) by {
                            lemma_names_push(before, (i, 1), j);
                        }
                    }
                }
            }
            proof {
                assert(seen@[i as int] == seen@[i as int]);
                assert(tv[i as int] == tv[i as int]);
            }
            i = i + 1;
        }
        let mut skip: usize = 0;
        while skip < qlen
            invariant
                n == tv.len(),
                n == self.terms.len(),
                tv == self.terms_view(),
                kn == k,
                qlen == q.len(),
                skip <= qlen,
                seen.len() == n,
                tree_ok(tv, q@, kn, results@),
                within(seen@, results@),
                h.len() == n,
                forall|p: int| 0 <= p < results.len() ==> tree_distance(q@, tv[(#[trigger] results@[p]).0 as int], kn,
                    h[results@[p].0 as int]) == Some(results@[p].1 as nat),
                forall|j: int| 0 <= j < n ==> (#[trigger] seen@[j] <==> (h[j] || names(results@, j))),
                forall|j: int| 0 <= j < n && h[j] && scan_distance(q@, #[trigger] tv[j]) <= kn ==> names(results@, j),
                forall|j: int| 0 <= j < n && !h[j] && ((fp_deletion(q@, #[trigger] tv[j]) && one_deletion(q@, tv[j]))
                    || (fp_insertion(q@, tv[j]) && one_deletion(tv[j], q@))) ==> names(results@, j),
                forall|j: int| 0 <= j < n && !h[j] && (exists|sk: int| 0 <= sk < skip && #[trigger] q@.remove(sk) == #[trigger] tv[j])
                    ==> names(results@, j),
            decreases qlen - skip,
        {
            let buf = without(q, skip);
            let mut idx: usize = 0;
            while idx < n
                invariant
                    n == tv.len(),
                    n == self.terms.len(),
                    tv == self.terms_view(),
                    kn == k,
                    skip < qlen,
                    qlen == q.len(),
                    buf@ == q@.remove(skip as int),
                    idx <= n,
                    seen.len() == n,
                    tree_ok(tv, q@, kn, results@),
                    within(seen@, results@),
                    h.len() == n,
                    forall|p: int| 0 <= p < results.len() ==> tree_distance(q@, tv[(#[trigger] results@[p]).0 as int], kn,
                        h[results@[p].0 as int]) == Some(results@[p].1 as nat),
                    forall|j: int| 0 <= j < n ==> (#[trigger] seen@[j] <==> (h[j] || names(results@, j))),
                    forall|j: int| 0 <= j < n && h[j] && scan_distance(q@, #[trigger] tv[j]) <= kn ==> names(results@, j),
                    forall|j: int| 0 <= j < n && !h[j] && ((fp_deletion(q@, #[trigger] tv[j]) && one_deletion(q@, tv[j]))
                        || (fp_insertion(q@, tv[j]) && one_deletion(tv[j], q@))) ==> names(results@, j),
                    forall|j: int| 0 <= j < n && !h[j] && (exists|sk: int| 0 <= sk < skip && #[trigger] q@.remove(sk) == #[trigger] tv[j])
                        ==> names(results@, j),
                    forall|j: int| 0 <= j < idx && !h[j] && q@.remove(skip as int) == #[trigger] tv[j] ==> names(results@, j),
                decreases n - idx,
            {
                proof {
                    assert(tv[idx as int] == self.terms[idx as int]@);
                }
                if same_bytes(self.terms[idx].as_slice(), buf.as_slice()) && !seen[idx] {
                    proof {
                        assert(drops_to(q@, tv[idx as int])) by {
                            assert(q@.remove(skip as int) == tv[idx as int]);
                        }
                        lemma_push_within(seen@, results@, tv, q@, kn, idx, 1);
                    }
                    let ghost before = results@;
                    let ghost seen0 = seen@;
                    seen.set(idx, true);
                    results.push((idx, 1));
                    proof {
                        assert forall|j: int| 0 <= j < n implies (#[trigger] seen@[j] <==> (h[j] || names(results@, j))) by {
                            lemma_names_push(before, (idx, 1), j);
                            assert(seen0[j] == seen0[j]);
                        }
                        assert forall|p: int| 0 <= p < results.len() implies tree_distance(q@,
                            tv[(#[trigger] results@[p]).0 as int], kn, h[results@[p].0 as int])
                            == Some(results@[p].1 as nat) by {
                            if p < before.len() {
                                assert(results@[p] == before[p]);
                            }
                        }
                        assert forall|j: int| 0 <= j < n && h[j] && scan_distance(q@, #[trigger] tv[j]) <= kn
                            implies names(results@, j) by {
                            lemma_names_push(before, (idx, 1), j);
                        }
                        assert forall|j: int| 0 <= j < n && !h[j] && ((fp_deletion(q@, #[trigger] tv[j])
                            && one_deletion(q@, tv[j])) || (fp_insertion(q@, tv[j]) && one_deletion(tv[j], q@)))
                            implies names(results@, j) by {
                            lemma_names_push(before, (idx, 1), j);
                        }
                        assert forall|j: int| 0 <= j < n && !h[j] && (exists|sk: int| 0 <= sk < skip
                            && #[trigger] q@.remove(sk) == #[trigger] tv[j]) implies names(results@, j) by {
                            lemma_names_push(before, (idx, 1), j);
                        }
                        assert forall|j: int| 0 <= j < idx + 1 && !h[j] && q@.remove(skip as int) == #[trigger] tv[j]
                            implies names(results@, j) by {
                            lemma_names_push(before, (idx, 1), j);
                        }
                    }
                }
                proof {
                    assert(seen@[idx as int] == seen@[idx as int]);
                    assert(tv[idx as int] == tv[idx as int]);
                }
                idx = idx + 1;
            }
            proof {
                assert forall|j: int| 0 <= j < n && !h[j] && (exists|sk: int| 0 <= sk < skip + 1
                    && #[trigger] q@.remove(sk) == #[trigger] tv[j]) implies names(results@, j) by {
                    let sk = choose|sk: int| 0 <= sk < skip + 1 && #[trigger] q@.remove(sk) == tv[j];
                    if sk < skip {
                        assert(q@.remove(sk) == tv[j]);
                    } else {
                        assert(tv[j] == tv[j]);
                    }
                }
            }
            skip = skip + 1;
        }
        proof {
            assert forall|j: int| 0 <= j < n && (#[trigger] tree_distance(q@, tv[j], kn, h[j])) is Some
                implies names(results@, j) by {
                assert(tv[j] == tv[j]);
                if !h[j] && drops_to(q@, tv[j]) {
                    let s0 = choose|s0: int| 0 <= s0 < q@.len() && #[trigger] q@.remove(s0) == tv[j];
                    assert(q@.remove(s0) == tv[j]);
                }
            }
        }
        results
    }

    /// The candidates of `q`: from the tree when the index has one, by brute
    /// force otherwise.
    pub fn candidates(&self, q: &[u8], config: &PruneConfig) -> (out: Vec<(usize, usize)>)
        requires
            q.len() < usize::MAX,
            config.sized(),
        ensures
            !self.uses_tree() ==> brute_ok(self.terms_view(), q@, self.radius(), out@),
            self.uses_tree() ==> tree_ok(self.terms_view(), q@, self.radius(), out@),
            self.uses_tree() ==> exists|reached: Seq<bool>| reached.len() == self.terms_view().len()
                && reach_ok(self.terms_view().len(), self.tree_walk(q@, config.table()), self.leaf_labels(), reached)
                && mates_reached(self.terms_view().len(), self.tree_walk(q@, config.table()), self.leaf_labels(), reached,
                    self.tree_walk(q@, config.table()).len() as int)
                && #[trigger] tree_exact(self.terms_view(), q@, self.radius(), reached, out@),
    {
        if self.use_tree {
            self.search_tree(q, config)
        } else {
            self.search_brute(q)
        }
    }

    /// The number of terms, the radius, the chain length, the number of
    /// tree nodes, the number of distinct leaf labels of the terms, and the
    /// strategy (`"tree"` or `"brute"`).
    pub fn stats(&self) -> (s: IndexStats)
        ensures
            s.num_terms == self.terms_view().len(),
            s.max_mismatches == self.radius(),
            s.sigma == self.sigma_view(),
            s.tree_nodes == self.tree_nodes_view(),
            s.leaf_count == labels_below(self.leaf_labels(), self.terms_view().len()).len(),
            s.strategy@ == (if self.uses_tree() { "tree"@ } else { "brute"@ }),
    {
        let n = self.terms.len();
        let mut marks: Vec<bool> = Vec::new();
        let mut count: usize = 0;
        let ghost mut found: Set<usize> = Set::empty();
        let mut i: usize = 0;
        while i < n
            invariant
                n == self.terms.len(),
                i <= n,
                found == labels_below(self.leaf_map@, i as nat),
                found.finite(),
                count == found.len(),
                count <= i,
                forall|l: usize| #[trigger] found.contains(l) ==> l < marks.len(),
                forall|l: int| 0 <= l < marks.len() ==> (#[trigger] marks@[l] <==> found.contains(l as usize)),
            decreases n - i,
        {
            match self.leaf_map.get(&i) {
                Some(label) => {
                    let l = *label;
                    while marks.len() <= l
                        invariant
                            forall|x: usize| #[trigger] found.contains(x) ==> x < marks.len(),
                            forall|x: int| 0 <= x < marks.len() ==> (#[trigger] marks@[x] <==> found.contains(x as usize)),
                        decreases l + 1 - marks.len(),
                    {
                        marks.push(false);
                    }
                    if !marks[l] {
                        marks.set(l, true);
                        proof {
                            assert(!found.contains(l));
                            found = found.insert(l);
                        }
                        count = count + 1;
                    }
                    proof {
                        assert(found =~= labels_below(self.leaf_map@, (i + 1) as nat)) by {
                            assert(found.contains(l));
                        }
                    }
                },
                None => {
                    proof {
                        assert(found =~= labels_below(self.leaf_map@, (i + 1) as nat));
                    }
                },
            }
            i = i + 1;
        }
        let strategy = if self.use_tree { "tree".to_owned() } else { "brute".to_owned() };
        IndexStats {
            num_terms: n,
            max_mismatches: self.k,
            sigma: self.sigma,
            tree_nodes: self.tree_nodes,
            leaf_count: count,
            strategy,
        }
    }

    /// The number of terms.
    pub fn len(&self) -> (r: usize)
        ensures
            r == self.terms_view().len(),
    {
        self.terms.len()
    }

    /// Whether there are no terms (never, for a built index).
    pub fn is_empty(&self) -> (r: bool)
        ensures
            r == (self.terms_view().len() == 0),
    {
        self.terms.len() == 0
    }

    /// The bytes of term `i`.
    pub fn term(&self, i: usize) -> (r: &[u8])
        requires
            i < self.terms_view().len(),
        ensures
            r@ == self.terms_view()[i as int],
    {
        self.terms[i].as_slice()
    }
}

} // verus!
