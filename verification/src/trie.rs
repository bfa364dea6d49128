//! A flat, breadth-first trie stored as parallel arrays.
//!
//! Children of a node are contiguous and always have larger indices than the
//! node, so the structure has no cycles by construction. Edges are labelled
//! with symbols: the Unicode scalar values of the terms, one per `char`.
use vstd::prelude::*;
use crate::index::{FormatError, Index, contents_of, decoded, hdr_normalizer, holds_contents, index_fault, too_large, write_index};
use core::ops::Range;
use crate::chars::{char_from_u32, chars_of};
use crate::cost::{sym_class, symbol_class};
use crate::order::{entry_lt, lemma_entry_asymmetric, lemma_lex_asymmetric, lemma_lex_at,
    lemma_lex_irreflexive, lemma_lex_transitive, lemma_lex_total, lex_compare, lex_lt, sort_entries};
use crate::text::Normalizer;
use vstd::string::StringSliceAdditionalSpecFns;

verus! {

/// Value of [`Trie::term_id`] for nodes where no term ends.
pub const NO_TERM: u32 = 0xFFFF_FFFF;

/// Why a trie could not be built.
#[derive(Clone, Copy, Debug, PartialEq, Eq)]
pub enum BuildError {
    /// No terms were given.
    Empty,
    /// A term was the empty string (for [`Trie::build_normalized`]: after
    /// normalisation, as for a term made only of combining marks).
    EmptyTerm,
    /// A term is longer than 65535 bytes (for [`Trie::build_normalized`]:
    /// after normalisation).
    TermTooLong,
    /// More than `u32::MAX` terms were given (term ids and input indices are
    /// `u32`, and `u32::MAX` itself is [`NO_TERM`]), or a node would have more
    /// than 65535 children (child counts are 16-bit).
    TooManyTerms,
}

impl BuildError {
    /// A human-readable description of the error.
    pub fn message(&self) -> (s: &'static str) {
        match self {
            BuildError::Empty => "cannot build an index from an empty term list",
            BuildError::EmptyTerm => "terms must not be empty",
            BuildError::TermTooLong => "terms must be at most 65535 bytes",
            BuildError::TooManyTerms => "an index holds at most 4294967295 terms",
        }
    }
}

/// Converts a term position or input index to `u32`, refusing values that
/// do not fit or that would equal [`NO_TERM`].
pub fn index_u32(i: usize) -> (r: Result<u32, BuildError>)
    ensures
        i < 0xFFFF_FFFF ==> r == Ok::<u32, BuildError>(i as u32),
        i >= 0xFFFF_FFFF ==> r == Err::<u32, BuildError>(BuildError::TooManyTerms),
{
    if (i as u64) < 0xFFFF_FFFFu64 {
        Ok(i as u32)
    } else {
        Err(BuildError::TooManyTerms)
    }
}

/// The symbols (scalar values) of a character sequence.
pub open spec fn str_syms(s: Seq<char>) -> Seq<u32> {
    s.map_values(|c: char| c as u32)
}

/// Why a term with characters `t` would be refused, if it would.
pub open spec fn term_problem(t: Seq<char>) -> Option<BuildError> {
    if t.len() == 0 {
        Some(BuildError::EmptyTerm)
    } else if crate::text::utf8_len(t) > 65535 {
        Some(BuildError::TermTooLong)
    } else {
        None
    }
}

/// The problem of the first refused term among `texts[i..]`.
pub open spec fn first_problem(texts: Seq<Seq<char>>, i: int) -> Option<BuildError>
    decreases texts.len() - i,
{
    if i < 0 || i >= texts.len() {
        None
    } else if term_problem(texts[i]) is Some {
        term_problem(texts[i])
    } else {
        first_problem(texts, i + 1)
    }
}

/// The error a trie of the terms `texts` is refused with before its shape
/// is looked at, if any.
pub open spec fn build_error(texts: Seq<Seq<char>>) -> Option<BuildError> {
    if texts.len() == 0 {
        Some(BuildError::Empty)
    } else if first_problem(texts, 0) is Some {
        first_problem(texts, 0)
    } else if texts.len() > 0xFFFF_FFFF {
        Some(BuildError::TooManyTerms)
    } else {
        None
    }
}

/// The texts of the entries.
pub open spec fn item_texts(items: Seq<(&str, u16)>) -> Seq<Seq<char>> {
    items.map_values(|p: (&str, u16)| p.0@)
}

/// The weights of the entries.
pub open spec fn item_weights(items: Seq<(&str, u16)>) -> Seq<u16> {
    items.map_values(|p: (&str, u16)| p.1)
}

/// The entry kept for the symbols `s` among entries with symbols `keys`
/// and weights `ws` is `i`: it has them, and every other entry with them
/// has a lower weight, or the same weight and a larger index.
pub open spec fn kept_entry(keys: Seq<Seq<u32>>, ws: Seq<u16>, s: Seq<u32>, i: int) -> bool {
    &&& 0 <= i < keys.len()
    &&& keys[i] == s
    &&& forall|j: int| 0 <= j < keys.len() && keys[j] == s ==>
            ws[j] < ws[i] || (ws[j] == ws[i] && i <= j)
}

/// The symbols of each text.
pub open spec fn text_keys(texts: Seq<Seq<char>>) -> Seq<Seq<u32>> {
    texts.map_values(|t: Seq<char>| str_syms(t))
}

/// The running maximum of `own` and `vals[start..start + j]`.
pub open spec fn agg_max(own: u16, vals: Seq<u16>, start: int, j: nat) -> u16
    decreases j,
{
    if j == 0 {
        own
    } else {
        let m = agg_max(own, vals, start, (j - 1) as nat);
        let x = vals[start + j - 1];
        if x > m { x } else { m }
    }
}

/// The running minimum of `own` and `vals[start..start + j]`.
pub open spec fn agg_min(own: u16, vals: Seq<u16>, start: int, j: nat) -> u16
    decreases j,
{
    if j == 0 {
        own
    } else {
        let m = agg_min(own, vals, start, (j - 1) as nat);
        let x = vals[start + j - 1];
        if x < m { x } else { m }
    }
}

/// The union of the classes of `labels[c]` and of `masks[c]` over
/// `c` in `start..start + j`.
pub open spec fn agg_mask(labels: Seq<u32>, masks: Seq<u64>, start: int, j: nat) -> u64
    decreases j,
{
    if j == 0 {
        0
    } else {
        agg_mask(labels, masks, start, (j - 1) as nat) | sym_class(labels[start + j - 1]) | masks[start + j - 1]
    }
}

proof fn lemma_agg_frame(own: u16, a: Seq<u16>, b: Seq<u16>, start: int, j: nat)
    requires
        0 <= start,
        start + j <= a.len(),
        start + j <= b.len(),
        forall|c: int| start <= c < start + j ==> a[c] == b[c],
    ensures
        agg_max(own, a, start, j) == agg_max(own, b, start, j),
        agg_min(own, a, start, j) == agg_min(own, b, start, j),
    decreases j,
{
    if j > 0 {
        lemma_agg_frame(own, a, b, start, (j - 1) as nat);
    }
}

proof fn lemma_mask_frame(labels: Seq<u32>, a: Seq<u64>, b: Seq<u64>, start: int, j: nat)
    requires
        0 <= start,
        start + j <= a.len(),
        start + j <= b.len(),
        forall|c: int| start <= c < start + j ==> a[c] == b[c],
    ensures
        agg_mask(labels, a, start, j) == agg_mask(labels, b, start, j),
    decreases j,
{
    if j > 0 {
        lemma_mask_frame(labels, a, b, start, (j - 1) as nat);
    }
}

/// A trie over strings, split into Unicode scalar values, with a weight per
/// term.
#[derive(Clone, Debug)]
pub struct Trie {
    terms: Vec<String>,
    weights: Vec<u16>,
    input_index: Vec<u32>,
    labels: Vec<u32>,
    child_start: Vec<u32>,
    child_count: Vec<u16>,
    term_id: Vec<u32>,
    max_weight: Vec<u16>,
    len_min: Vec<u16>,
    len_max: Vec<u16>,
    below_mask: Vec<u64>,
    parent: Vec<u32>,
    normalizer: Option<Normalizer>,
}

/// The arrays of a trie's node structure, before the aggregates.
pub struct Shape {
    pub labels: Vec<u32>,
    pub child_start: Vec<u32>,
    pub child_count: Vec<u16>,
    pub term_id: Vec<u32>,
    pub parent: Vec<u32>,
}

/// The node structure of `labels`, `child_start`, `child_count`, `term_id`
/// and `parent` is sound for `n_terms` terms: children are contiguous, come
/// after their parent, point back to it, and term ids are in range.
pub open spec fn structure_ok(
    labels: Seq<u32>,
    child_start: Seq<u32>,
    child_count: Seq<u16>,
    term_id: Seq<u32>,
    parent: Seq<u32>,
    n_terms: nat,
) -> bool {
    let n = labels.len();
    &&& n >= 1
    &&& child_start.len() == n
    &&& child_count.len() == n
    &&& term_id.len() == n
    &&& parent.len() == n
    &&& forall|v: int| 0 <= v < n && child_count[v] > 0 ==> v < child_start[v] && child_start[v] + child_count[v] <= n
    &&& forall|v: int, c: int| #![trigger child_start[v], parent[c]]
            0 <= v < n && child_start[v] <= c < child_start[v] + child_count[v] ==> parent[c] == v
    &&& forall|v: int| 0 <= v < n ==> (term_id[v] == NO_TERM || term_id[v] < n_terms)
}

/// The symbols on the path from the root to node `v`.
pub open spec fn path_of(labels: Seq<u32>, parent: Seq<u32>, v: int) -> Seq<u32>
    decreases v,
{
    if v <= 0 || v >= labels.len() || parent[v] >= v {
        Seq::empty()
    } else {
        path_of(labels, parent, parent[v] as int).push(labels[v])
    }
}

impl Trie {
    /// The arrays agree in length and form a sound node structure.
    pub closed spec fn wf(&self) -> bool {
        let n = self.labels.len();
        &&& structure_ok(self.labels@, self.child_start@, self.child_count@, self.term_id@, self.parent@, self.terms.len() as nat)
        &&& self.max_weight.len() == n
        &&& self.len_min.len() == n
        &&& self.len_max.len() == n
        &&& self.below_mask.len() == n
        &&& self.weights.len() == self.terms.len()
        &&& self.input_index.len() == self.terms.len()
        &&& self.terms.len() <= 0xFFFF_FFFF
    }

    /// The symbols of each term, by id.
    pub closed spec fn term_syms(&self) -> Seq<Seq<u32>> {
        Seq::new(self.terms.len() as nat, |t: int| str_syms(self.terms[t]@))
    }

    /// The weight of each term, by id.
    pub closed spec fn weights_spec(&self) -> Seq<u16> {
        self.weights@
    }

    /// The index in the input of the entry kept for each term, by id.
    pub closed spec fn inputs_spec(&self) -> Seq<u32> {
        self.input_index@
    }

    /// Number of nodes.
    pub closed spec fn nodes(&self) -> nat {
        self.labels.len() as nat
    }

    /// The symbol on the edge into each node.
    pub closed spec fn labels_spec(&self) -> Seq<u32> {
        self.labels@
    }

    /// The first child of each node.
    pub closed spec fn starts_spec(&self) -> Seq<u32> {
        self.child_start@
    }

    /// The number of children of each node.
    pub closed spec fn counts_spec(&self) -> Seq<u16> {
        self.child_count@
    }

    /// The term that ends at each node, or `NO_TERM`.
    pub closed spec fn term_ids_spec(&self) -> Seq<u32> {
        self.term_id@
    }

    /// The parent of each node (that of the root is meaningless).
    pub closed spec fn parents_spec(&self) -> Seq<u32> {
        self.parent@
    }

    /// The largest weight at or below each node.
    pub closed spec fn max_weights_spec(&self) -> Seq<u16> {
        self.max_weight@
    }

    /// The shortest term length at or below each node.
    pub closed spec fn len_mins_spec(&self) -> Seq<u16> {
        self.len_min@
    }

    /// The longest term length at or below each node.
    pub closed spec fn len_maxs_spec(&self) -> Seq<u16> {
        self.len_max@
    }

    /// The classes below each node.
    pub closed spec fn masks_spec(&self) -> Seq<u64> {
        self.below_mask@
    }

    /// The normaliser recorded with the trie.
    pub closed spec fn normalizer_spec(&self) -> Option<Normalizer> {
        self.normalizer
    }

    /// The symbols spelled from the root to node `v`.
    pub open spec fn path(&self, v: int) -> Seq<u32> {
        path_of(self.labels_spec(), self.parents_spec(), v)
    }

    /// The weight of the term that ends at `v` (0 if none).
    pub open spec fn own_weight(&self, v: int) -> u16 {
        let t = self.term_ids_spec()[v];
        if t == NO_TERM { 0 } else { self.weights_spec()[t as int] }
    }

    /// The length of the term that ends at `v` as a lower candidate
    /// (`u16::MAX` if none).
    pub open spec fn own_len_min(&self, v: int) -> u16 {
        if self.term_ids_spec()[v] == NO_TERM { 0xFFFF } else { self.path(v).len() as u16 }
    }

    /// The length of the term that ends at `v` as an upper candidate (0 if
    /// none).
    pub open spec fn own_len_max(&self, v: int) -> u16 {
        if self.term_ids_spec()[v] == NO_TERM { 0 } else { self.path(v).len() as u16 }
    }

    /// Every node's path spells the term that ends there, and every term
    /// ends at a node.
    pub open spec fn spells_terms(&self) -> bool {
        &&& forall|v: int| 0 <= v < self.nodes() && self.term_ids_spec()[v] != NO_TERM
                ==> self.path(v) == self.term_syms()[self.term_ids_spec()[v] as int]
        &&& forall|t: int| 0 <= t < self.term_syms().len() ==> #[trigger] self.ends_at_node(t)
    }

    /// The terms are those of entries with symbols `keys` and weights `ws`:
    /// sorted without repeats, each the entry kept for it (highest weight,
    /// then first), and every entry's symbols are a term.
    pub open spec fn built_from(&self, keys: Seq<Seq<u32>>, ws: Seq<u16>) -> bool {
        &&& forall|p: int, q: int| 0 <= p < q < self.term_syms().len()
                ==> lex_lt(self.term_syms()[p], self.term_syms()[q])
        &&& forall|t: int| 0 <= t < self.term_syms().len() ==> {
                &&& kept_entry(keys, ws, self.term_syms()[t], #[trigger] self.inputs_spec()[t] as int)
                &&& self.weights_spec()[t] == ws[self.inputs_spec()[t] as int]
            }
        &&& forall|i: int| 0 <= i < keys.len() ==> #[trigger] self.holds(keys[i])
    }

    /// Some term has the symbols `s`.
    pub open spec fn holds(&self, s: Seq<u32>) -> bool {
        exists|t: int| 0 <= t < self.term_syms().len() && self.term_syms()[t] == s
    }

    /// Some node is where term `t` ends.
    pub open spec fn ends_at_node(&self, t: int) -> bool {
        exists|v: int| 0 <= v < self.nodes() && self.term_ids_spec()[v] == t
    }

    /// The nodes are laid out breadth first: the root's children start at
    /// node 1, each node's children start where the previous node's end,
    /// and the last node's end at the node count.
    pub open spec fn bfs_layout(&self) -> bool {
        &&& self.starts_spec()[0] == 1
        &&& forall|v: int| 0 <= v < self.nodes() - 1
                ==> #[trigger] self.starts_spec()[v] + self.counts_spec()[v] == self.starts_spec()[v + 1]
        &&& self.starts_spec()[self.nodes() - 1] + self.counts_spec()[self.nodes() - 1] == self.nodes()
    }

    /// Every node without children ends a term.
    pub open spec fn leaves_carry_terms(&self) -> bool {
        forall|v: int| 0 <= v < self.nodes() && #[trigger] self.counts_spec()[v] == 0 ==> self.term_ids_spec()[v] != NO_TERM
    }

    /// The children of every node come in strictly increasing label order.
    pub open spec fn children_sorted(&self) -> bool {
        forall|v: int, c1: int, c2: int|
            #![trigger self.labels_spec()[c1], self.labels_spec()[c2], self.starts_spec()[v]]
            0 <= v < self.nodes() && self.starts_spec()[v] <= c1 < c2 < self.starts_spec()[v] + self.counts_spec()[v]
            ==> self.labels_spec()[c1] < self.labels_spec()[c2]
    }

    /// No two nodes end the same term.
    pub open spec fn ends_once(&self) -> bool {
        forall|v1: int, v2: int| 0 <= v1 < v2 < self.nodes() && self.term_ids_spec()[v1] != NO_TERM
            ==> #[trigger] self.term_ids_spec()[v1] != #[trigger] self.term_ids_spec()[v2]
    }

    /// The per-node aggregates are those of the terms at or below the node:
    /// the largest weight, the shortest and longest length, and the classes
    /// of the edges strictly below.
    pub open spec fn aggregates_ok(&self) -> bool {
        forall|v: int| 0 <= v < self.nodes() ==> {
            let s = self.starts_spec()[v] as int;
            let k = self.counts_spec()[v] as nat;
            &&& #[trigger] self.max_weights_spec()[v] == agg_max(self.own_weight(v), self.max_weights_spec(), s, k)
            &&& self.len_mins_spec()[v] == agg_min(self.own_len_min(v), self.len_mins_spec(), s, k)
            &&& self.len_maxs_spec()[v] == agg_max(self.own_len_max(v), self.len_maxs_spec(), s, k)
            &&& self.masks_spec()[v] == agg_mask(self.labels_spec(), self.masks_spec(), s, k)
        }
    }

    /// The structural facts of a well-formed trie.
    pub proof fn lemma_wf(&self)
        requires
            self.wf(),
        ensures
            structure_ok(self.labels_spec(), self.starts_spec(), self.counts_spec(), self.term_ids_spec(),
                self.parents_spec(), self.term_syms().len()),
            self.max_weights_spec().len() == self.nodes(),
            self.len_mins_spec().len() == self.nodes(),
            self.len_maxs_spec().len() == self.nodes(),
            self.masks_spec().len() == self.nodes(),
            self.labels_spec().len() == self.nodes(),
            self.starts_spec().len() == self.nodes(),
            self.counts_spec().len() == self.nodes(),
            self.term_ids_spec().len() == self.nodes(),
            self.parents_spec().len() == self.nodes(),
            self.nodes() >= 1,
            self.weights_spec().len() == self.term_syms().len(),
            self.inputs_spec().len() == self.term_syms().len(),
            self.term_syms().len() <= 0xFFFF_FFFF,
    {
    }
}


/// `p` starts one of `keys`.
pub open spec fn starts_key(p: Seq<u32>, keys: Seq<Seq<u32>>) -> bool {
    exists|t: int| 0 <= t < keys.len() && p.len() <= keys[t].len() && #[trigger] keys[t].take(p.len() as int) == p
}

/// `a` comes before `b` in breadth-first order: shorter, or as long and
/// lexicographically smaller.
pub open spec fn shortlex_lt(a: Seq<u32>, b: Seq<u32>) -> bool {
    a.len() < b.len() || (a.len() == b.len() && lex_lt(a, b))
}

/// `p` followed by each of the strictly increasing symbols `bs`, 65536 of
/// them, starts one of `keys`: the trie node for `p` would have 65536
/// children.
pub open spec fn wide_at(keys: Seq<Seq<u32>>, p: Seq<u32>, bs: Seq<u32>) -> bool {
    &&& bs.len() == 65536
    &&& forall|x: int, y: int| 0 <= x < y < bs.len() ==> bs[x] < bs[y]
    &&& forall|x: int| 0 <= x < bs.len() ==> #[trigger] starts_key(p.push(bs[x]), keys)
}

/// `ps` holds `0xFFFF_FFFD` distinct non-empty prefixes of `keys`, in
/// breadth-first order: with the root the trie would have `0xFFFF_FFFE`
/// nodes or more.
pub open spec fn many_at(keys: Seq<Seq<u32>>, ps: Seq<Seq<u32>>) -> bool {
    &&& ps.len() >= 0xFFFF_FFFD
    &&& forall|x: int, y: int| 0 <= x < y < ps.len() ==> #[trigger] shortlex_lt(ps[x], ps[y])
    &&& forall|x: int| 0 <= x < ps.len() ==> (#[trigger] ps[x]).len() >= 1 && starts_key(ps[x], keys)
}

/// The trie of `keys` would be too large for the format: a node with more
/// than 65535 children, or `0xFFFF_FFFE` nodes or more.
pub open spec fn oversized(keys: Seq<Seq<u32>>) -> bool {
    (exists|p: Seq<u32>, bs: Seq<u32>| #[trigger] wide_at(keys, p, bs))
        || (exists|ps: Seq<Seq<u32>>| #[trigger] many_at(keys, ps))
}

/// The nodes `lo..hi` lie one level below `d`, with parents before
/// `bound` at depth `d`.
#[verifier::opaque]
spec fn deeper(depth: Seq<u16>, parent: Seq<u32>, lo: int, hi: int, bound: int, d: int) -> bool {
    forall|v: int| lo <= v < hi ==> #[trigger] depth[v] == d + 1 && parent[v] < bound && depth[parent[v] as int] == d
}

proof fn lemma_deeper_frame(d1: Seq<u16>, p1: Seq<u32>, d2: Seq<u16>, p2: Seq<u32>, lo: int, hi: int, bound: int, d: int)
    requires
        deeper(d1, p1, lo, hi, bound, d),
        hi <= d1.len() <= d2.len(),
        hi <= p1.len() <= p2.len(),
        bound <= hi,
        forall|v: int| 0 <= v < d1.len() ==> d2[v] == d1[v],
        forall|v: int| 0 <= v < p1.len() ==> p2[v] == p1[v],
    ensures
        deeper(d2, p2, lo, hi, bound, d),
{
    reveal(deeper);
    assert forall|v: int| lo <= v < hi implies #[trigger] d2[v] == d + 1 && p2[v] < bound && d2[p2[v] as int] == d by {
        assert(lo <= v < hi);
        assert(d1[v] == d + 1);
        assert(p1[v] < bound);
        assert(d1[p1[v] as int] == d);
        assert(d2[v] == d1[v]);
        assert(p2[v] == p1[v]);
    }
}

proof fn lemma_deeper_extend(depth: Seq<u16>, parent: Seq<u32>, lo: int, mid: int, hi: int, node: int, d: int)
    requires
        deeper(depth, parent, lo, mid, node, d),
        lo <= mid <= hi <= depth.len(),
        hi <= parent.len(),
        0 <= node < depth.len(),
        depth[node] == d,
        forall|c: int| mid <= c < hi ==> #[trigger] parent[c] == node,
        forall|c: int| mid <= c < hi ==> #[trigger] depth[c] == d + 1,
    ensures
        deeper(depth, parent, lo, hi, node + 1, d),
{
    reveal(deeper);
    assert forall|v: int| lo <= v < hi implies #[trigger] depth[v] == d + 1 && parent[v] < node + 1
        && depth[parent[v] as int] == d by {
        assert(lo <= v < hi);
        if v < mid {
            assert(depth[v] == d + 1);
            assert(parent[v] < node);
            assert(depth[parent[v] as int] == d);
        } else {
            assert(parent[v] == node);
            assert(depth[v] == d + 1);
        }
    }
}

/// Every node's path starts one of `keys`.
#[verifier::opaque]
pub open spec fn paths_start_keys(labels: Seq<u32>, parent: Seq<u32>, keys: Seq<Seq<u32>>) -> bool {
    forall|v: int| 0 <= v < labels.len() ==> #[trigger] starts_key(path_of(labels, parent, v), keys)
}

/// The nodes' paths come in breadth-first order.
#[verifier::opaque]
pub open spec fn paths_sorted(labels: Seq<u32>, parent: Seq<u32>) -> bool {
    forall|v1: int, v2: int| 0 <= v1 < v2 < labels.len()
        ==> shortlex_lt(#[trigger] path_of(labels, parent, v1), #[trigger] path_of(labels, parent, v2))
}

proof fn lemma_lex_push_same_len(a: Seq<u32>, b: Seq<u32>, x: u32, y: u32)
    requires
        a.len() == b.len(),
        lex_lt(a, b),
    ensures
        lex_lt(a.push(x), b.push(y)),
    decreases a.len(),
{
    if a.len() > 0 && a[0] == b[0] {
        lemma_lex_push_same_len(a.drop_first(), b.drop_first(), x, y);
        assert(a.push(x).drop_first() =~= a.drop_first().push(x));
        assert(b.push(y).drop_first() =~= b.drop_first().push(y));
    }
}

/// A prefix of the kept keys is a prefix of some entry's key.
proof fn lemma_too_large_keys(ts: Seq<Seq<u32>>, keys: Seq<Seq<u32>>)
    requires
        forall|b: int| 0 <= b < ts.len() ==> exists|x: int| 0 <= x < keys.len() && #[trigger] keys[x] == #[trigger] ts[b],
        oversized(ts),
    ensures
        oversized(keys),
{
    assert forall|p: Seq<u32>| #[trigger] starts_key(p, ts) implies starts_key(p, keys) by {
        let t = choose|t: int| 0 <= t < ts.len() && p.len() <= ts[t].len() && #[trigger] ts[t].take(p.len() as int) == p;
        let x = choose|x: int| 0 <= x < keys.len() && #[trigger] keys[x] == ts[t];
        assert(keys[x].take(p.len() as int) == p);
    }
    if exists|p: Seq<u32>, bs: Seq<u32>| #[trigger] wide_at(ts, p, bs) {
        let (p, bs) = choose|p: Seq<u32>, bs: Seq<u32>| #[trigger] wide_at(ts, p, bs);
        assert forall|x: int| 0 <= x < bs.len() implies #[trigger] starts_key(p.push(bs[x]), keys) by {
            assert(starts_key(p.push(bs[x]), ts));
        }
        assert(wide_at(keys, p, bs));
    } else {
        let ps = choose|ps: Seq<Seq<u32>>| #[trigger] many_at(ts, ps);
        assert forall|x: int| 0 <= x < ps.len() implies (#[trigger] ps[x]).len() >= 1 && starts_key(ps[x], keys) by {
            assert(starts_key(ps[x], ts));
        }
        assert(many_at(keys, ps));
    }
}

proof fn lemma_path_frame(l1: Seq<u32>, p1: Seq<u32>, l2: Seq<u32>, p2: Seq<u32>, v: int)
    requires
        0 <= v < l1.len(),
        l1.len() <= l2.len(),
        v < p1.len(),
        p1.len() <= p2.len(),
        forall|i: int| 0 <= i < l1.len() ==> l1[i] == l2[i],
        forall|i: int| 0 <= i < p1.len() ==> p1[i] == p2[i],
    ensures
        path_of(l1, p1, v) == path_of(l2, p2, v),
    decreases v,
{
    if v > 0 && p1[v] < v {
        lemma_path_frame(l1, p1, l2, p2, p1[v] as int);
    }
}

/// The terms `ts[lo..hi]` all start with the path of `node`, which has
/// length `d`, and no child or term has been given to `node` yet.
pub open spec fn group_ok(
    ts: Seq<Seq<u32>>,
    labels: Seq<u32>,
    parent: Seq<u32>,
    child_count: Seq<u16>,
    term_id: Seq<u32>,
    g: (usize, usize, usize),
    d: int,
) -> bool {
    let (node, lo, hi) = g;
    &&& node < labels.len()
    &&& lo < hi <= ts.len()
    &&& child_count[node as int] == 0
    &&& term_id[node as int] == NO_TERM
    &&& path_of(labels, parent, node as int).len() == d
    &&& forall|t: int| lo <= t < hi ==> (#[trigger] ts[t]).len() >= d && ts[t].take(d) == path_of(labels, parent, node as int)
}

/// Term `t` is in the range of one of `groups`.
pub open spec fn in_groups(groups: Seq<(usize, usize, usize)>, from: int, t: int) -> bool {
    exists|g: int| from <= g < groups.len() && (#[trigger] groups[g]).1 <= t < groups[g].2
}

/// Some node is where term `t` ends.
pub open spec fn assigned(term_id: Seq<u32>, t: int) -> bool {
    exists|v: int| 0 <= v < term_id.len() && term_id[v] == t
}

/// The strictly sorted, non-empty symbol sequences `ts` as a trie, laid out
/// breadth first: returns the node structure and the depth of each node.
/// Fails when a node would have more than 65535 children or the trie
/// would have `u32::MAX` nodes or more.
#[verifier::rlimit(100)]
#[verifier::spinoff_prover]
fn shape(ts: &Vec<Vec<u32>>) -> (r: Result<(Shape, Vec<u16>), BuildError>)
    requires
        1 <= ts.len() <= 0xFFFF_FFFF,
        forall|t: int| 0 <= t < ts.len() ==> 1 <= (#[trigger] ts[t]).len() <= 65535,
        forall|p: int, q: int| 0 <= p < q < ts.len() ==> lex_lt(ts[p]@, ts[q]@),
    ensures
        r matches Ok((sh, depth)) ==> {
            &&& structure_ok(sh.labels@, sh.child_start@, sh.child_count@, sh.term_id@, sh.parent@, ts.len() as nat)
            &&& depth.len() == sh.labels.len()
            &&& forall|v: int| 0 <= v < sh.labels.len() ==> #[trigger] depth[v] == path_of(sh.labels@, sh.parent@, v).len()
            &&& forall|v: int| 0 <= v < sh.labels.len() && sh.term_id[v] != NO_TERM
                    ==> path_of(sh.labels@, sh.parent@, v) == ts.deep_view()[sh.term_id[v] as int]
            &&& forall|t: int| 0 <= t < ts.len() ==> #[trigger] assigned(sh.term_id@, t)
            &&& forall|v1: int, v2: int| 0 <= v1 < v2 < sh.labels.len() && sh.term_id[v1] != NO_TERM
                    ==> #[trigger] sh.term_id[v1] != #[trigger] sh.term_id[v2]
            &&& forall|v: int| 0 <= v < sh.labels.len() && #[trigger] sh.child_count[v] == 0 ==> sh.term_id[v] != NO_TERM
            &&& sh.child_start[0] == 1
            &&& forall|v: int| 0 <= v < sh.labels.len() - 1
                    ==> #[trigger] sh.child_start[v] + sh.child_count[v] == sh.child_start[v + 1]
            &&& sh.child_start[sh.labels.len() - 1] + sh.child_count[sh.labels.len() - 1] == sh.labels.len()
            &&& forall|v: int, c1: int, c2: int| #![trigger sh.labels[c1], sh.labels[c2], sh.child_start[v]]
                    0 <= v < sh.labels.len() && sh.child_start[v] <= c1 < c2 < sh.child_start[v] + sh.child_count[v]
                    ==> sh.labels[c1] < sh.labels[c2]
        },
        r matches Err(e) ==> e == BuildError::TooManyTerms,
        ts.len() <= 65535 ==> r is Ok,
        r is Err ==> oversized(ts.deep_view()),
{
    let ghost tv = ts.deep_view();
    let n_terms = ts.len();
    let mut labels: Vec<u32> = Vec::new();
    labels.push(0);
    let mut child_start: Vec<u32> = Vec::new();
    child_start.push(0);
    let mut child_count: Vec<u16> = Vec::new();
    child_count.push(0);
    let mut term_id: Vec<u32> = Vec::new();
    term_id.push(NO_TERM);
    let mut parent: Vec<u32> = Vec::new();
    parent.push(0);
    let mut depth_of: Vec<u16> = Vec::new();
    depth_of.push(0);
    let mut level: Vec<(usize, usize, usize)> = Vec::new();
    level.push((0, 0, n_terms));
    let mut d: usize = 0;
    proof {
        assert forall|p: int, q: int| 0 <= p < q < n_terms implies lex_lt(tv[p], tv[q]) by {
            assert(tv[p] == ts[p]@ && tv[q] == ts[q]@);
        }
        assert forall|t: int| 0 <= t < n_terms implies 1 <= (#[trigger] tv[t]).len() <= 65535 by {
            assert(tv[t] == ts[t]@);
        }
        assert(path_of(labels@, parent@, 0) =~= Seq::<u32>::empty());
        assert(tv[0].take(0) =~= Seq::<u32>::empty());
        assert(starts_key(path_of(labels@, parent@, 0), tv));
        reveal(paths_start_keys);
        reveal(paths_sorted);
        assert forall|t: int| 0 <= t < n_terms implies (#[trigger] tv[t]).len() >= 0 && tv[t].take(0) == path_of(labels@, parent@, 0) by {
            assert(tv[t].take(0) =~= Seq::<u32>::empty());
        }
        assert forall|t: int| 0 <= t < n_terms implies assigned(term_id@, t) || in_groups(level@, 0, t) by {
            assert(level@[0].1 <= t < level@[0].2);
        }
    }
    while level.len() > 0
        invariant
            tv == ts.deep_view(),
            n_terms == ts.len(),
            1 <= n_terms <= 0xFFFF_FFFF,
            forall|t: int| 0 <= t < n_terms ==> 1 <= (#[trigger] tv[t]).len() <= 65535,
            forall|p: int, q: int| 0 <= p < q < n_terms ==> lex_lt(tv[p], tv[q]),
            1 <= labels.len() < 0xFFFF_FFFF,
            child_start.len() == labels.len(),
            child_count.len() == labels.len(),
            term_id.len() == labels.len(),
            parent.len() == labels.len(),
            depth_of.len() == labels.len(),
            level.len() > 0 ==> d <= 65535,
            forall|v: int| 0 < v < labels.len() ==> #[trigger] parent[v] < v,
            forall|v: int| 0 <= v < labels.len() && child_count[v] > 0
                ==> v < child_start[v] && child_start[v] + child_count[v] <= labels.len(),
            forall|v: int, c: int| #![trigger child_start[v], parent[c]]
                0 <= v < labels.len() && child_start[v] <= c < child_start[v] + child_count[v] ==> parent[c] == v,
            forall|v: int| 0 <= v < labels.len() && #[trigger] term_id[v] != NO_TERM
                ==> term_id[v] < n_terms && path_of(labels@, parent@, v) == tv[term_id[v] as int],
            forall|v: int| 0 <= v < labels.len() ==> #[trigger] depth_of[v] == path_of(labels@, parent@, v).len(),
            forall|g: int| 0 <= g < level.len() ==> group_ok(tv, labels@, parent@, child_count@, term_id@, #[trigger] level[g], d as int),
            forall|g1: int, g2: int| 0 <= g1 < g2 < level.len() ==> level[g1].0 < level[g2].0,
            forall|t: int| 0 <= t < n_terms ==> #[trigger] assigned(term_id@, t) || in_groups(level@, 0, t),
            labels.len() <= 1 + d * n_terms,
            forall|g1: int, g2: int| 0 <= g1 < g2 < level.len() ==> level[g1].2 <= level[g2].1,
            forall|v1: int, v2: int| 0 <= v1 < v2 < labels.len() && term_id[v1] != NO_TERM
                ==> #[trigger] term_id[v1] != #[trigger] term_id[v2],
            forall|v: int| 0 <= v < labels.len() && #[trigger] term_id[v] != NO_TERM
                ==> !in_groups(level@, 0, term_id[v] as int),
            forall|v: int, c1: int, c2: int| #![trigger labels[c1], labels[c2], child_start[v]]
                0 <= v < labels.len() && child_start[v] <= c1 < c2 < child_start[v] + child_count[v]
                ==> labels[c1] < labels[c2],
            forall|h: int| 0 <= h < level.len() ==> (#[trigger] level[h]).0 + level.len() - h == labels.len(),
            level.len() <= labels.len(),
            forall|v: int| 0 <= v < labels.len() - level.len() - 1
                ==> #[trigger] child_start[v] + child_count[v] == child_start[v + 1],
            labels.len() - level.len() >= 1 ==> child_start[labels.len() - level.len() - 1]
                + child_count[labels.len() - level.len() - 1] == labels.len(),
            labels.len() - level.len() >= 1 ==> child_start[0] == 1,
            d == 0 ==> labels.len() == 1 && level.len() == 1,
            d > 0 ==> labels.len() - level.len() >= 1,
            paths_start_keys(labels@, parent@, tv),
            paths_sorted(labels@, parent@),
            forall|v: int| 0 <= v < labels.len() ==> #[trigger] depth_of[v] <= d,
            forall|v: int| 0 <= v < labels.len() - level.len() && #[trigger] child_count[v] == 0 ==> term_id[v] != NO_TERM,
        decreases 65536 - d,
    {
        let mut next: Vec<(usize, usize, usize)> = Vec::new();
        let level_start = labels.len();
        proof {
            assert(deeper(depth_of@, parent@, level_start as int, labels.len() as int, level_start - level.len(), d as int))
                by { reveal(deeper); }
        }
        let mut g: usize = 0;
        while g < level.len()
            invariant
                tv == ts.deep_view(),
                n_terms == ts.len(),
                1 <= n_terms <= 0xFFFF_FFFF,
                forall|t: int| 0 <= t < n_terms ==> 1 <= (#[trigger] tv[t]).len() <= 65535,
                forall|p: int, q: int| 0 <= p < q < n_terms ==> lex_lt(tv[p], tv[q]),
                1 <= level_start <= labels.len() < 0xFFFF_FFFF,
                child_start.len() == labels.len(),
                child_count.len() == labels.len(),
                term_id.len() == labels.len(),
                parent.len() == labels.len(),
                depth_of.len() == labels.len(),
                d <= 65535,
                g <= level.len(),
                forall|v: int| 0 < v < labels.len() ==> #[trigger] parent[v] < v,
                forall|v: int| 0 <= v < labels.len() && child_count[v] > 0
                    ==> v < child_start[v] && child_start[v] + child_count[v] <= labels.len(),
                forall|v: int, c: int| #![trigger child_start[v], parent[c]]
                    0 <= v < labels.len() && child_start[v] <= c < child_start[v] + child_count[v] ==> parent[c] == v,
                forall|v: int| 0 <= v < labels.len() && #[trigger] term_id[v] != NO_TERM
                    ==> term_id[v] < n_terms && path_of(labels@, parent@, v) == tv[term_id[v] as int],
                forall|v: int| 0 <= v < labels.len() ==> #[trigger] depth_of[v] == path_of(labels@, parent@, v).len(),
                forall|h: int| g <= h < level.len() ==> group_ok(tv, labels@, parent@, child_count@, term_id@, #[trigger] level[h], d as int),
                forall|h: int| 0 <= h < level.len() ==> (#[trigger] level[h]).0 < level_start,
                forall|g1: int, g2: int| 0 <= g1 < g2 < level.len() ==> level[g1].0 < level[g2].0,
                forall|h: int| 0 <= h < next.len() ==> group_ok(tv, labels@, parent@, child_count@, term_id@, #[trigger] next[h], d + 1),
                forall|h: int| 0 <= h < next.len() ==> level_start <= (#[trigger] next[h]).0,
                forall|g1: int, g2: int| 0 <= g1 < g2 < next.len() ==> next[g1].0 < next[g2].0,
                forall|t: int| 0 <= t < n_terms ==> #[trigger] assigned(term_id@, t) || in_groups(level@, g as int, t) || in_groups(next@, 0, t),
                level_start <= 1 + d * n_terms,
                labels.len() <= level_start + n_terms,
                g < level.len() ==> labels.len() <= level_start + level[g as int].1,
                forall|g1: int, g2: int| 0 <= g1 < g2 < level.len() ==> level[g1].2 <= level[g2].1,
                forall|h1: int, h2: int| 0 <= h1 < h2 < next.len() ==> next[h1].2 <= next[h2].1,
                g < level.len() ==> forall|h: int| 0 <= h < next.len() ==> (#[trigger] next[h]).2 <= level[g as int].1,
                forall|v1: int, v2: int| 0 <= v1 < v2 < labels.len() && term_id[v1] != NO_TERM
                    ==> #[trigger] term_id[v1] != #[trigger] term_id[v2],
                forall|v: int| 0 <= v < labels.len() && #[trigger] term_id[v] != NO_TERM
                    ==> !in_groups(level@, g as int, term_id[v] as int) && !in_groups(next@, 0, term_id[v] as int),
                forall|v: int, c1: int, c2: int| #![trigger labels[c1], labels[c2], child_start[v]]
                    0 <= v < labels.len() && child_start[v] <= c1 < c2 < child_start[v] + child_count[v]
                    ==> labels[c1] < labels[c2],
                level.len() <= level_start,
                forall|h: int| 0 <= h < level.len() ==> (#[trigger] level[h]).0 + level.len() - h == level_start,
                forall|h: int| 0 <= h < next.len() ==> (#[trigger] next[h]).0 == level_start + h,
                next.len() == labels.len() - level_start,
                forall|v: int| 0 <= v < level_start - level.len() + g - 1
                    ==> #[trigger] child_start[v] + child_count[v] == child_start[v + 1],
                level_start - level.len() + g >= 1 ==> child_start[level_start - level.len() + g - 1]
                    + child_count[level_start - level.len() + g - 1] == labels.len(),
                level_start - level.len() + g >= 1 ==> child_start[0] == 1,
                d == 0 ==> level_start == 1 && level.len() == 1,
                d > 0 ==> level_start - level.len() >= 1,
                g == 0 ==> labels.len() == level_start,
                paths_start_keys(labels@, parent@, tv),
                paths_sorted(labels@, parent@),
                forall|v: int| 0 <= v < level_start ==> #[trigger] depth_of[v] <= d,
                forall|v: int| 0 <= v < level_start - level.len() + g && #[trigger] child_count[v] == 0 ==> term_id[v] != NO_TERM,
                deeper(depth_of@, parent@, level_start as int, labels.len() as int, level_start - level.len() + g, d as int),
            decreases level.len() - g,
        {
            let (node, lo, hi) = level[g];
            proof {
                assert(group_ok(tv, labels@, parent@, child_count@, term_id@, level[g as int], d as int));
            }
            let ghost path = path_of(labels@, parent@, node as int);
            let ghost term_before = term_id@;
            let mut lo2 = lo;
            if ts[lo].len() == d {
                proof {
                    assert(tv[lo as int].take(d as int) =~= tv[lo as int]);
                }
                term_id.set(node, lo as u32);
                lo2 = lo + 1;
            }
            proof {
                // Only the first term of the group can end here.
                assert forall|t: int| lo2 <= t < hi implies (#[trigger] tv[t]).len() > d by {
                    assert(tv[t].take(d as int) == path);
                    assert(tv[lo as int].take(d as int) == path);
                    if tv[t].len() == d {
                        assert(tv[t] =~= tv[t].take(d as int));
                        lemma_lex_at(tv[t], tv[lo as int], d as int);
                        if lo < t {
                            assert(lex_lt(tv[lo as int], tv[t]));
                            lemma_lex_asymmetric(tv[lo as int], tv[t]);
                            if tv[lo as int].len() == d {
                                assert(tv[lo as int] =~= tv[lo as int].take(d as int));
                                lemma_lex_irreflexive(tv[t]);
                            }
                        }
                    }
                }
            }
            proof {
                assert forall|t: int| lo2 <= t < hi implies (#[trigger] ts[t]).len() > d by {
                    assert(tv[t] == ts[t]@);
                }
                assert forall|t: int| 0 <= t < n_terms implies #[trigger] assigned(term_id@, t) || (lo2 <= t < hi)
                    || in_groups(level@, g + 1, t) || in_groups(next@, 0, t) by {
                    if t < n_terms && !(lo2 <= t < hi) && !in_groups(level@, g + 1, t) && !in_groups(next@, 0, t) {
                        if lo2 == lo + 1 && t == lo {
                            assert(term_id@[node as int] == t);
                        } else if in_groups(level@, g as int, t) {
                            let h = choose|h: int| g <= h < level.len() && (#[trigger] level@[h]).1 <= t < level@[h].2;
                            assert(h == g);
                        } else {
                            assert(assigned(term_before, t));
                            let v = choose|v: int| 0 <= v < term_before.len() && term_before[v] == t;
                            assert(v != node);
                            assert(term_id@[v] == t);
                        }
                    }
                }
            }
            let first_child = labels.len();
            proof {
                assert(level[g as int].0 + level.len() - g == level_start);
                assert(node == level_start - level.len() + g);
                assert(deeper(depth_of@, parent@, level_start as int, first_child as int, node as int, d as int));
                assert(depth_of[node as int] == path_of(labels@, parent@, node as int).len());
                assert(path == path_of(labels@, parent@, node as int));
            }
            let mut count: u16 = 0;
            let mut i = lo2;
            while i < hi
                invariant
                    tv == ts.deep_view(),
                    n_terms == ts.len(),
                    1 <= n_terms <= 0xFFFF_FFFF,
                    forall|t: int| 0 <= t < n_terms ==> 1 <= (#[trigger] tv[t]).len() <= 65535,
                    forall|p: int, q: int| 0 <= p < q < n_terms ==> lex_lt(tv[p], tv[q]),
                    1 <= level_start <= first_child <= labels.len() < 0xFFFF_FFFF,
                    labels.len() == first_child + count,
                    child_start.len() == labels.len(),
                    child_count.len() == labels.len(),
                    term_id.len() == labels.len(),
                    parent.len() == labels.len(),
                    depth_of.len() == labels.len(),
                    d <= 65535,
                    g < level.len(),
                    level[g as int] == (node, lo, hi),
                    node < level_start,
                    lo <= lo2 <= i <= hi <= n_terms,
                    path == path_of(labels@, parent@, node as int),
                    path.len() == d,
                    forall|t: int| lo2 <= t < hi ==> (#[trigger] tv[t]).len() > d && tv[t].take(d as int) == path,
                    forall|t: int| lo2 <= t < hi ==> (#[trigger] ts[t]).len() > d,
                    child_count[node as int] == 0,
                    lo2 == lo + 1 || term_id[node as int] == NO_TERM,
                    lo2 == lo + 1 ==> term_id[node as int] == lo,
                    i < hi ==> (i == lo2 || tv[(i - 1) as int][d as int] != tv[i as int][d as int]),
                    forall|c: int| first_child <= c < labels.len() ==> #[trigger] parent[c] == node
                        && child_count[c] == 0 && term_id[c] == NO_TERM,
                    forall|v: int| 0 < v < labels.len() ==> #[trigger] parent[v] < v,
                    forall|v: int| 0 <= v < labels.len() && child_count[v] > 0
                        ==> v < child_start[v] && child_start[v] + child_count[v] <= first_child,
                    forall|v: int, c: int| #![trigger child_start[v], parent[c]]
                        0 <= v < labels.len() && child_start[v] <= c < child_start[v] + child_count[v] ==> parent[c] == v,
                    forall|v: int| 0 <= v < labels.len() && #[trigger] term_id[v] != NO_TERM
                        ==> term_id[v] < n_terms && path_of(labels@, parent@, v) == tv[term_id[v] as int],
                    forall|v: int| 0 <= v < labels.len() ==> #[trigger] depth_of[v] == path_of(labels@, parent@, v).len(),
                    forall|h: int| g < h < level.len() ==> group_ok(tv, labels@, parent@, child_count@, term_id@, #[trigger] level[h], d as int),
                    forall|h: int| 0 <= h < level.len() ==> (#[trigger] level[h]).0 < level_start,
                    forall|g1: int, g2: int| 0 <= g1 < g2 < level.len() ==> level[g1].0 < level[g2].0,
                    forall|h: int| 0 <= h < next.len() ==> group_ok(tv, labels@, parent@, child_count@, term_id@, #[trigger] next[h], d + 1),
                    forall|h: int| 0 <= h < next.len() ==> level_start <= (#[trigger] next[h]).0 < labels.len(),
                    forall|g1: int, g2: int| 0 <= g1 < g2 < next.len() ==> next[g1].0 < next[g2].0,
                    forall|t: int| 0 <= t < n_terms ==> #[trigger] assigned(term_id@, t) || (i <= t < hi)
                        || in_groups(level@, g + 1, t) || in_groups(next@, 0, t),
                    count <= i - lo2,
                    first_child <= level_start + lo,
                    level_start <= 1 + d * n_terms,
                    forall|g1: int, g2: int| 0 <= g1 < g2 < level.len() ==> level[g1].2 <= level[g2].1,
                    forall|h1: int, h2: int| 0 <= h1 < h2 < next.len() ==> next[h1].2 <= next[h2].1,
                    forall|h: int| 0 <= h < next.len() ==> (#[trigger] next[h]).2 <= i,
                    forall|v1: int, v2: int| 0 <= v1 < v2 < labels.len() && term_id[v1] != NO_TERM
                        ==> #[trigger] term_id[v1] != #[trigger] term_id[v2],
                    forall|v: int| 0 <= v < labels.len() && #[trigger] term_id[v] != NO_TERM
                        ==> !(i <= term_id[v] < hi) && !in_groups(level@, g + 1, term_id[v] as int)
                            && !in_groups(next@, 0, term_id[v] as int),
                    forall|v: int, c1: int, c2: int| #![trigger labels[c1], labels[c2], child_start[v]]
                        0 <= v < labels.len() && child_start[v] <= c1 < c2 < child_start[v] + child_count[v]
                        ==> labels[c1] < labels[c2],
                    forall|c1: int, c2: int| first_child <= c1 < c2 < labels.len() ==> #[trigger] labels[c1] < #[trigger] labels[c2],
                    labels.len() > first_child ==> (lo2 < i && labels[labels.len() - 1] == tv[i - 1][d as int]),
                    level.len() <= level_start,
                    forall|h: int| 0 <= h < level.len() ==> (#[trigger] level[h]).0 + level.len() - h == level_start,
                    forall|h: int| 0 <= h < next.len() ==> (#[trigger] next[h]).0 == level_start + h,
                    next.len() == labels.len() - level_start,
                    node == level_start - level.len() + g,
                    forall|v: int| 0 <= v < node - 1 ==> #[trigger] child_start[v] + child_count[v] == child_start[v + 1],
                    node >= 1 ==> child_start[node - 1] + child_count[node - 1] == first_child,
                    node >= 1 ==> child_start[0] == 1,
                    d == 0 ==> level_start == 1 && level.len() == 1,
                    d > 0 ==> level_start - level.len() >= 1,
                    g == 0 ==> first_child == level_start,
                    paths_start_keys(labels@, parent@, tv),
                    paths_sorted(labels@, parent@),
                    forall|v: int| 0 <= v < level_start ==> #[trigger] depth_of[v] <= d,
                    deeper(depth_of@, parent@, level_start as int, first_child as int, node as int, d as int),
                    forall|v: int| first_child <= v < labels.len() ==> #[trigger] depth_of[v] == d + 1,
                    depth_of[node as int] == d,
                    forall|v: int| 0 <= v < node && #[trigger] child_count[v] == 0 ==> term_id[v] != NO_TERM,
                    count == 0 ==> i == lo2,
                decreases hi - i,
            {
                let b = ts[i][d];
                let mut j = i + 1;
                while j < hi && ts[j][d] == b
                    invariant
                        tv == ts.deep_view(),
                        i < j <= hi <= ts.len(),
                        forall|t: int| lo2 <= t < hi ==> (#[trigger] tv[t]).len() > d,
                        forall|t: int| lo2 <= t < hi ==> (#[trigger] ts[t]).len() > d,
                        lo2 <= i,
                        b == tv[i as int][d as int],
                        forall|t: int| i <= t < j ==> (#[trigger] tv[t])[d as int] == b,
                    decreases hi - j,
                {
                    assert(tv[j as int].len() > d);
                    j = j + 1;
                }
                proof {
                    if n_terms <= 65535 {
                        assert(tv[i as int].len() > d);
                        assert((d + 1) * n_terms <= 65535 * 65535) by (nonlinear_arith)
                            requires d + 1 <= 65535, n_terms <= 65535;
                        assert(d * n_terms + n_terms == (d + 1) * n_terms) by (nonlinear_arith);
                    }
                }
                proof {
                    if labels.len() > first_child {
                        assert(tv[i - 1].take(d as int) == path);
                        assert(tv[i as int].take(d as int) == path);
                        assert(lex_lt(tv[i - 1], tv[i as int]));
                        lemma_lex_at(tv[i - 1], tv[i as int], d as int);
                        lemma_lex_asymmetric(tv[i - 1], tv[i as int]);
                        assert(tv[i - 1][d as int] != tv[i as int][d as int]);
                        assert(labels[labels.len() - 1] < b);
                    }
                    assert(tv[i as int].take(d + 1) =~= path.push(b)) by {
                        assert(tv[i as int].take(d as int) == path);
                    }
                    assert(starts_key(path.push(b), tv));
                }
                if count == 65535 || labels.len() >= 0xFFFF_FFFE {
                    proof {
                        lemma_refusal(tv, labels@, parent@, depth_of@, node as int, first_child as int, path, b,
                            count == 65535);
                    }
                    return Err(BuildError::TooManyTerms);
                }
                proof {
                    lemma_new_child_last(labels@, parent@, depth_of@, level_start as int, first_child as int, node as int,
                        path, b, d as int);
                }
                let child = labels.len();
                let ghost old_labels = labels@;
                let ghost old_parent = parent@;
                let ghost old_term = term_id@;
                let ghost old_depth = depth_of@;
                labels.push(b);
                child_start.push(0);
                child_count.push(0);
                term_id.push(NO_TERM);
                parent.push(node as u32);
                depth_of.push((d + 1) as u16);
                proof {
                    lemma_deeper_frame(old_depth, old_parent, depth_of@, parent@, level_start as int, first_child as int,
                        node as int, d as int);
                    assert forall|v: int| 0 <= v < level_start implies #[trigger] depth_of[v] <= d by {
                        assert(depth_of[v] == old_depth[v]);
                    }
                    assert forall|v: int| first_child <= v < labels.len() implies #[trigger] depth_of[v] == d + 1 by {
                        if v < old_depth.len() {
                            assert(depth_of[v] == old_depth[v]);
                        }
                    }
                    assert(depth_of[node as int] == old_depth[node as int]);
                }
                proof {
                    assert forall|v: int| 0 <= v < old_labels.len() implies path_of(old_labels, old_parent, v) == path_of(labels@, parent@, v) by {
                        lemma_path_frame(old_labels, old_parent, labels@, parent@, v);
                    }
                    assert(path_of(labels@, parent@, child as int) == path.push(b));
                    lemma_push_child(old_labels, old_parent, labels@, parent@, tv, path, b);
                }
                let ghost old_next = next@;
                next.push((child, i, j));
                proof {
                    assert forall|t: int| #[trigger] assigned(old_term, t) implies assigned(term_id@, t) by {
                        let v = choose|v: int| 0 <= v < old_term.len() && old_term[v] == t;
                        assert(term_id@[v] == t);
                    }
                }
                proof {
                    assert forall|t: int| i <= t < j implies (#[trigger] tv[t]).len() >= d + 1 && tv[t].take(d + 1) == path.push(b) by {
                        assert(tv[t].take(d as int) == path);
                        assert(tv[t].take(d + 1) =~= tv[t].take(d as int).push(tv[t][d as int]));
                    }
                    assert(group_ok(tv, labels@, parent@, child_count@, term_id@, next@[old_next.len() as int], d + 1));
                    assert forall|h1: int, h2: int| 0 <= h1 < h2 < next.len() implies next[h1].2 <= next[h2].1 by {
                        if h2 < old_next.len() {
                            assert(next@[h1] == old_next[h1] && next@[h2] == old_next[h2]);
                        } else {
                            assert(next@[h1] == old_next[h1]);
                        }
                    }
                    assert forall|h: int| 0 <= h < next.len() implies (#[trigger] next[h]).2 <= j by {
                        if h < old_next.len() {
                            assert(next@[h] == old_next[h]);
                        }
                    }
                    assert forall|h: int| 0 <= h < next.len() implies group_ok(tv, labels@, parent@, child_count@, term_id@, #[trigger] next[h], d + 1) by {
                        if h < old_next.len() {
                            assert(next@[h] == old_next[h]);
                        }
                    }
                    assert forall|h: int| g < h < level.len() implies group_ok(tv, labels@, parent@, child_count@, term_id@, #[trigger] level[h], d as int) by {
                        assert(level[h].0 < level_start);
                    }
                    assert forall|t: int| 0 <= t < n_terms && !(j <= t < hi) && !assigned(term_id@, t) && !in_groups(level@, g + 1, t)
                        implies #[trigger] in_groups(next@, 0, t) by {
                        if i <= t < j {
                            assert(next@[old_next.len() as int] == (child, i, j));
                        } else {
                            assert(!assigned(old_term, t));
                            assert(in_groups(old_next, 0, t));
                            let h = choose|h: int| 0 <= h < old_next.len() && (#[trigger] old_next[h]).1 <= t < old_next[h].2;
                            assert(next@[h] == old_next[h]);
                        }
                    }
                    assert forall|t: int| 0 <= t < n_terms implies #[trigger] assigned(term_id@, t) || (j <= t < hi)
                        || in_groups(level@, g + 1, t) || in_groups(next@, 0, t) by {
                        if !(j <= t < hi) && !assigned(term_id@, t) && !in_groups(level@, g + 1, t) {
                            assert(in_groups(next@, 0, t));
                        }
                    }
                    if j < hi {
                        assert(tv[j as int][d as int] != b);
                    }
                }
                count = count + 1;
                i = j;
            }
            child_start.set(node, first_child as u32);
            child_count.set(node, count);
            proof {
                assert forall|h: int| g + 1 <= h < level.len() implies group_ok(tv, labels@, parent@, child_count@, term_id@, #[trigger] level[h], d as int) by {
                    assert(level[g as int].0 < level[h].0);
                }
                assert forall|h: int| 0 <= h < next.len() implies group_ok(tv, labels@, parent@, child_count@, term_id@, #[trigger] next[h], d + 1) by {
                    assert(next[h].0 >= level_start);
                }
                assert forall|t: int| 0 <= t < n_terms implies #[trigger] assigned(term_id@, t)
                    || in_groups(level@, g + 1, t) || in_groups(next@, 0, t) by {
                    if lo2 == lo + 1 && t == lo {
                        assert(term_id@[node as int] == t);
                    }
                    if in_groups(level@, g as int, t) && !in_groups(level@, g + 1, t) {
                        let h = choose|h: int| g <= h < level.len() && (#[trigger] level@[h]).1 <= t < level@[h].2;
                        assert(h == g);
                    }
                }
                assert forall|v: int| 0 <= v < labels.len() && child_count[v] > 0 implies
                    v < child_start[v] && child_start[v] + child_count[v] <= labels.len() by {
                    if v == node {
                        assert(node < level_start);
                    }
                }
                assert forall|v: int, c: int| #![trigger child_start[v], parent[c]]
                    0 <= v < labels.len() && child_start[v] <= c < child_start[v] + child_count[v] implies parent[c] == v by {
                }
                if g + 1 < level.len() {
                    assert(level[g as int].2 <= level[g + 1].1);
                    assert forall|h: int| 0 <= h < next.len() implies (#[trigger] next[h]).2 <= level[g + 1].1 by {}
                }
            }
            proof {
                lemma_deeper_extend(depth_of@, parent@, level_start as int, first_child as int, labels.len() as int,
                    node as int, d as int);
                assert(node + 1 == level_start - level.len() + (g + 1));
            }
            g = g + 1;
        }
        proof {
            assert forall|t: int| 0 <= t < n_terms implies #[trigger] assigned(term_id@, t) || in_groups(next@, 0, t) by {
                if in_groups(level@, level.len() as int, t) {
                    let h = choose|h: int| level.len() <= h < level.len() && (#[trigger] level@[h]).1 <= t < level@[h].2;
                }
            }
            if next.len() > 0 {
                assert(group_ok(tv, labels@, parent@, child_count@, term_id@, next[0], d + 1));
                let (nd, nlo, nhi) = next[0];
                assert(tv[nlo as int].len() >= d + 1);
            }
        }
        proof {
            assert(d * n_terms + n_terms == (d + 1) * n_terms) by (nonlinear_arith);
            assert forall|v: int| 0 <= v < labels.len() implies #[trigger] depth_of[v] <= d + 1 by {
                reveal(deeper);
                if v >= level_start {
                    assert(depth_of[v] == d + 1);
                }
            }
        }
        level = next;
        d = d + 1;
    }
    proof {
        assert forall|t: int| 0 <= t < n_terms implies #[trigger] assigned(term_id@, t) by {
            if in_groups(level@, 0, t) {
                let h = choose|h: int| 0 <= h < level.len() && (#[trigger] level@[h]).1 <= t < level@[h].2;
            }
        }
    }
    Ok((Shape { labels, child_start, child_count, term_id, parent }, depth_of))
}

/// A new child of `node` with label `b` comes after every node so far in
/// breadth-first order.
proof fn lemma_new_child_last(labels: Seq<u32>, parent: Seq<u32>, depth: Seq<u16>, level_start: int, first_child: int,
    node: int, path: Seq<u32>, b: u32, d: int)
    requires
        0 <= node < level_start <= first_child <= labels.len(),
        labels.len() == parent.len(),
        labels.len() == depth.len(),
        path == path_of(labels, parent, node),
        path.len() == d,
        forall|v: int| 0 <= v < labels.len() ==> #[trigger] depth[v] == path_of(labels, parent, v).len(),
        paths_sorted(labels, parent),
        forall|v: int| 0 < v < labels.len() ==> #[trigger] parent[v] < v,
        forall|v: int| 0 <= v < level_start ==> #[trigger] depth[v] <= d,
        deeper(depth, parent, level_start, first_child, node, d),
        forall|c: int| first_child <= c < labels.len() ==> #[trigger] parent[c] == node,
        forall|c1: int, c2: int| first_child <= c1 < c2 < labels.len() ==> #[trigger] labels[c1] < #[trigger] labels[c2],
        labels.len() > first_child ==> labels[labels.len() - 1] < b,
    ensures
        forall|v: int| 0 <= v < labels.len() ==> #[trigger] shortlex_lt(path_of(labels, parent, v), path.push(b)),
{
    reveal(paths_sorted);
    reveal(deeper);
    assert forall|v: int| 0 <= v < labels.len() implies #[trigger] shortlex_lt(path_of(labels, parent, v), path.push(b)) by {
        assert(depth[v] == path_of(labels, parent, v).len());
        if v >= level_start {
            let u = parent[v] as int;
            assert(parent[v] < v);
            assert(path_of(labels, parent, v) == path_of(labels, parent, u).push(labels[v]));
            if v < first_child {
                assert(depth[u] == path_of(labels, parent, u).len());
                assert(u < node);
                assert(shortlex_lt(path_of(labels, parent, u), path_of(labels, parent, node)));
                lemma_lex_push_same_len(path_of(labels, parent, u), path, labels[v], b);
            } else {
                assert(u == node);
                if v < labels.len() - 1 {
                    assert(labels[v] < labels[labels.len() - 1]);
                }
                assert(path.push(labels[v]).take(d) =~= path.push(b).take(d));
                lemma_lex_at(path.push(labels[v]), path.push(b), d);
            }
        }
    }
}

/// Appending a node whose path starts a key and comes after every other
/// keeps the paths starting keys and in breadth-first order.
proof fn lemma_push_child(l1: Seq<u32>, p1: Seq<u32>, l2: Seq<u32>, p2: Seq<u32>, tv: Seq<Seq<u32>>, path: Seq<u32>, b: u32)
    requires
        l1.len() == p1.len(),
        l2.len() == l1.len() + 1,
        p2.len() == p1.len() + 1,
        forall|v: int| 0 <= v < l1.len() ==> path_of(l1, p1, v) == path_of(l2, p2, v),
        path_of(l2, p2, l1.len() as int) == path.push(b),
        starts_key(path.push(b), tv),
        forall|v: int| 0 <= v < l1.len() ==> #[trigger] shortlex_lt(path_of(l1, p1, v), path.push(b)),
        paths_start_keys(l1, p1, tv),
        paths_sorted(l1, p1),
    ensures
        paths_start_keys(l2, p2, tv),
        paths_sorted(l2, p2),
{
    reveal(paths_start_keys);
    reveal(paths_sorted);
    assert forall|v: int| 0 <= v < l2.len() implies #[trigger] starts_key(path_of(l2, p2, v), tv) by {
        if v < l1.len() {
            assert(starts_key(path_of(l1, p1, v), tv));
        }
    }
    assert forall|v1: int, v2: int| 0 <= v1 < v2 < l2.len()
        implies shortlex_lt(#[trigger] path_of(l2, p2, v1), #[trigger] path_of(l2, p2, v2)) by {
        assert(path_of(l1, p1, v1) == path_of(l2, p2, v1));
        if v2 < l1.len() {
            assert(path_of(l1, p1, v2) == path_of(l2, p2, v2));
            assert(shortlex_lt(path_of(l1, p1, v1), path_of(l1, p1, v2)));
        } else {
            assert(shortlex_lt(path_of(l1, p1, v1), path.push(b)));
        }
    }
}

/// Why the breadth-first construction refuses: the node it is filling
/// would get a 65536th child, or the trie would reach `0xFFFF_FFFE` nodes.
proof fn lemma_refusal(tv: Seq<Seq<u32>>, labels: Seq<u32>, parent: Seq<u32>, depth: Seq<u16>, node: int,
    first_child: int, path: Seq<u32>, b: u32, wide: bool)
    requires
        0 <= node < first_child <= labels.len(),
        labels.len() == parent.len(),
        path == path_of(labels, parent, node),
        starts_key(path.push(b), tv),
        paths_start_keys(labels, parent, tv),
        paths_sorted(labels, parent),
        forall|v: int| 0 < v < labels.len() ==> #[trigger] parent[v] < v,
        forall|c: int| first_child <= c < labels.len() ==> #[trigger] parent[c] == node,
        forall|c1: int, c2: int| first_child <= c1 < c2 < labels.len() ==> #[trigger] labels[c1] < #[trigger] labels[c2],
        labels.len() > first_child ==> labels[labels.len() - 1] < b,
        wide ==> labels.len() - first_child == 65535,
        !wide ==> labels.len() >= 0xFFFF_FFFE,
    ensures
        oversized(tv),
{
    reveal(paths_start_keys);
    reveal(paths_sorted);
    if wide {
        let bs = labels.subrange(first_child, labels.len() as int).push(b);
        assert forall|x: int, y: int| 0 <= x < y < bs.len() implies bs[x] < bs[y] by {
            if y < bs.len() - 1 {
                assert(labels[first_child + x] < labels[first_child + y]);
            } else if x < bs.len() - 2 {
                assert(labels[first_child + x] < labels[labels.len() - 1]);
            }
        }
        assert forall|x: int| 0 <= x < bs.len() implies #[trigger] starts_key(path.push(bs[x]), tv) by {
            if x < bs.len() - 1 {
                let c = first_child + x;
                assert(parent[c] == node);
                assert(path_of(labels, parent, c) == path.push(labels[c]));
                assert(starts_key(path_of(labels, parent, c), tv));
            }
        }
        assert(wide_at(tv, path, bs));
    } else {
        let ps = Seq::new((labels.len() - 1) as nat, |x: int| path_of(labels, parent, x + 1));
        assert forall|x: int, y: int| 0 <= x < y < ps.len() implies #[trigger] shortlex_lt(ps[x], ps[y]) by {
            assert(shortlex_lt(path_of(labels, parent, x + 1), path_of(labels, parent, y + 1)));
        }
        assert forall|x: int| 0 <= x < ps.len() implies (#[trigger] ps[x]).len() >= 1 && starts_key(ps[x], tv) by {
            assert(parent[x + 1] < x + 1);
            assert(starts_key(path_of(labels, parent, x + 1), tv));
        }
        assert(many_at(tv, ps));
    }
}

/// The symbols (scalar values) of `t`.
pub fn symbols_of(t: &str) -> (out: Vec<u32>)
    ensures
        out@ == str_syms(t@),
{
    let cs = chars_of(t);
    let mut out: Vec<u32> = Vec::new();
    let mut i: usize = 0;
    while i < cs.len()
        invariant
            i <= cs.len(),
            cs@ == t@,
            out@ == str_syms(t@.take(i as int)),
        decreases cs.len() - i,
    {
        out.push(cs[i] as u32);
        assert(str_syms(t@.take(i + 1)) =~= str_syms(t@.take(i as int)).push(cs[i as int] as u32));
        i = i + 1;
    }
    assert(t@.take(cs.len() as int) =~= t@);
    out
}

proof fn lemma_entry_le(s: Seq<Seq<u32>>, w: Seq<u16>, a: int, b: int)
    requires
        entry_lt(s, w, a, b),
    ensures
        lex_lt(s[a], s[b]) || s[a] == s[b],
        !lex_lt(s[b], s[a]),
{
    lemma_lex_asymmetric(s[a], s[b]);
    lemma_lex_irreflexive(s[a]);
}

/// Everything from the entries `ord[p..]` of a sorted order with symbols
/// equal to those at `ord[p]` at both ends has them throughout.
proof fn lemma_run_equal(s: Seq<Seq<u32>>, w: Seq<u16>, ord: Seq<usize>, p1: int, p2: int, p: int)
    requires
        0 <= p1 <= p <= p2 < ord.len(),
        forall|i: int| 0 <= i < ord.len() ==> (#[trigger] ord[i]) < s.len(),
        forall|x: int, y: int| 0 <= x < y < ord.len() ==> entry_lt(s, w, ord[x] as int, ord[y] as int),
        s[ord[p1] as int] == s[ord[p2] as int],
    ensures
        s[ord[p] as int] == s[ord[p1] as int],
{
    let a = ord[p1] as int;
    let b = ord[p] as int;
    let c = ord[p2] as int;
    if p1 < p {
        lemma_entry_le(s, w, a, b);
    }
    if p < p2 {
        lemma_entry_le(s, w, b, c);
    }
    if s[a] != s[b] {
        if p1 < p && p < p2 {
            lemma_lex_transitive(s[a], s[b], s[c]);
            lemma_lex_irreflexive(s[a]);
        }
    }
}

/// The weight of the term that ends at node `u`, 0 if none.
pub open spec fn own_weight_of(term_id: Seq<u32>, weights: Seq<u16>, u: int) -> u16 {
    if term_id[u] == NO_TERM { 0 } else { weights[term_id[u] as int] }
}

/// The length of the term that ends at node `u` (`u16::MAX` if none).
pub open spec fn own_lo_of(term_id: Seq<u32>, labels: Seq<u32>, parent: Seq<u32>, u: int) -> u16 {
    if term_id[u] == NO_TERM { 0xFFFF } else { path_of(labels, parent, u).len() as u16 }
}

/// The length of the term that ends at node `u` (0 if none).
pub open spec fn own_hi_of(term_id: Seq<u32>, labels: Seq<u32>, parent: Seq<u32>, u: int) -> u16 {
    if term_id[u] == NO_TERM { 0 } else { path_of(labels, parent, u).len() as u16 }
}

/// The aggregates of node `u` agree with its own term and its children.
pub open spec fn agg_ok_at(
    labels: Seq<u32>,
    child_start: Seq<u32>,
    child_count: Seq<u16>,
    term_id: Seq<u32>,
    parent: Seq<u32>,
    weights: Seq<u16>,
    max_weight: Seq<u16>,
    len_min: Seq<u16>,
    len_max: Seq<u16>,
    below_mask: Seq<u64>,
    u: int,
) -> bool {
    let s = child_start[u] as int;
    let k = child_count[u] as nat;
    &&& max_weight[u] == agg_max(own_weight_of(term_id, weights, u), max_weight, s, k)
    &&& len_min[u] == agg_min(own_lo_of(term_id, labels, parent, u), len_min, s, k)
    &&& len_max[u] == agg_max(own_hi_of(term_id, labels, parent, u), len_max, s, k)
    &&& below_mask[u] == agg_mask(labels, below_mask, s, k)
}

/// The first refused term, if any.
fn check_items(items: &[(&str, u16)]) -> (r: Option<BuildError>)
    ensures
        r == first_problem(item_texts(items@), 0),
{
    let ghost texts = item_texts(items@);
    let n = items.len();
    let mut i: usize = 0;
    while i < n
        invariant
            n == items.len(),
            i <= n,
            texts == item_texts(items@),
            first_problem(texts, 0) == first_problem(texts, i as int),
        decreases n - i,
    {
        let t = items[i].0;
        let nb = t.as_bytes().len();
        proof {
            assert(texts[i as int] == t@);
            crate::text::lemma_utf8_len(t@);
        }
        if t.is_empty() {
            return Some(BuildError::EmptyTerm);
        }
        if nb > 65535 {
            return Some(BuildError::TermTooLong);
        }
        i = i + 1;
    }
    None
}

/// The symbols and the weights of the entries.
fn entry_symbols(items: &[(&str, u16)]) -> (r: (Vec<Vec<u32>>, Vec<u16>))
    ensures
        r.0.len() == items.len(),
        r.1.len() == items.len(),
        forall|j: int| 0 <= j < items.len() ==> #[trigger] r.0.deep_view()[j] == str_syms(items@[j].0@),
        forall|j: int| 0 <= j < items.len() ==> #[trigger] r.1[j] == items@[j].1,
{
    let n = items.len();
    let mut sv: Vec<Vec<u32>> = Vec::new();
    let mut wv: Vec<u16> = Vec::new();
    let mut k: usize = 0;
    while k < n
        invariant
            n == items.len(),
            k <= n,
            sv.len() == k,
            wv.len() == k,
            forall|j: int| 0 <= j < k ==> (#[trigger] sv[j])@ == str_syms(items@[j].0@),
            forall|j: int| 0 <= j < k ==> #[trigger] wv[j] == items@[j].1,
        decreases n - k,
    {
        let (t, w) = items[k];
        sv.push(symbols_of(t));
        wv.push(w);
        k = k + 1;
    }
    proof {
        assert forall|j: int| 0 <= j < n implies #[trigger] sv.deep_view()[j] == str_syms(items@[j].0@) by {
            assert(sv.deep_view()[j] == sv[j]@);
        }
    }
    (sv, wv)
}

/// The first entry of each run of equal symbols in the sorted order `ord`:
/// one entry per distinct symbol sequence, in increasing order, each the
/// first of its run.
fn run_starts(sv: &Vec<Vec<u32>>, wv: &Vec<u16>, ord: &Vec<usize>) -> (r: (Vec<usize>, Ghost<Seq<int>>, Ghost<Seq<int>>))
    requires
        sv.len() == wv.len(),
        ord.len() == sv.len(),
        forall|x: int| 0 <= x < ord.len() ==> (#[trigger] ord[x]) < sv.len(),
        forall|x: int, y: int| 0 <= x < y < ord.len() ==> entry_lt(sv.deep_view(), wv@, ord[x] as int, ord[y] as int),
    ensures
        r.0.len() <= ord.len(),
        forall|a: int| 0 <= a < r.0.len() ==> (#[trigger] r.0[a]) < sv.len(),
        forall|a: int, b: int| 0 <= a < b < r.0.len() ==> lex_lt(sv.deep_view()[r.0[a] as int], sv.deep_view()[r.0[b] as int]),
        r.1@.len() == r.0.len(),
        r.2@.len() == ord.len(),
        forall|a: int| 0 <= a < r.0.len() ==> 0 <= #[trigger] r.1@[a] < ord.len() && ord[r.1@[a]] == r.0[a]
            && (r.1@[a] == 0 || sv.deep_view()[ord[r.1@[a] - 1] as int] != sv.deep_view()[ord[r.1@[a]] as int]),
        forall|x: int| 0 <= x < ord.len() ==> 0 <= #[trigger] r.2@[x] < r.0.len()
            && sv.deep_view()[r.0[r.2@[x]] as int] == sv.deep_view()[ord[x] as int],
{
    let ghost svv = sv.deep_view();
    let n = ord.len();
    let mut kept: Vec<usize> = Vec::new();
    let ghost mut pos: Seq<int> = Seq::empty();
    let ghost mut owner: Seq<int> = Seq::empty();
    let mut p: usize = 0;
    while p < n
        invariant
            sv.len() == n,
            wv.len() == n,
            svv == sv.deep_view(),
            ord.len() == n,
            p <= n,
            forall|x: int| 0 <= x < n ==> (#[trigger] ord[x]) < n,
            forall|x: int, y: int| 0 <= x < y < n ==> entry_lt(svv, wv@, ord[x] as int, ord[y] as int),
            kept.len() <= p,
            pos.len() == kept.len(),
            owner.len() == p,
            forall|a: int| 0 <= a < kept.len() ==> (#[trigger] kept[a]) < n,
            forall|a: int, b: int| 0 <= a < b < kept.len() ==> lex_lt(svv[kept[a] as int], svv[kept[b] as int]),
            forall|a: int| 0 <= a < kept.len() ==> 0 <= #[trigger] pos[a] < p && ord[pos[a]] == kept[a]
                && (pos[a] == 0 || svv[ord[pos[a] - 1] as int] != svv[ord[pos[a]] as int]),
            p > 0 ==> kept.len() > 0 && svv[kept[kept.len() - 1] as int] == svv[ord[p - 1] as int],
            forall|x: int| 0 <= x < p ==> 0 <= #[trigger] owner[x] < kept.len() && svv[kept[owner[x]] as int] == svv[ord[x] as int],
        decreases n - p,
    {
        let starts_run = if p == 0 {
            true
        } else {
            lex_compare(sv[ord[p - 1]].as_slice(), sv[ord[p]].as_slice()) != 0
        };
        proof {
            assert(svv[ord[p as int] as int] == sv[ord[p as int] as int]@);
            if p > 0 {
                assert(svv[ord[p - 1] as int] == sv[ord[p - 1] as int]@);
            }
        }
        if starts_run {
            proof {
                if p > 0 {
                    let a0 = ord[p - 1] as int;
                    let b0 = ord[p as int] as int;
                    lemma_entry_le(svv, wv@, a0, b0);
                    let last = kept[kept.len() - 1] as int;
                    assert forall|a: int| 0 <= a < kept.len() implies lex_lt(svv[kept[a] as int], svv[b0]) by {
                        if a < kept.len() - 1 {
                            lemma_lex_transitive(svv[kept[a] as int], svv[last], svv[b0]);
                        }
                    }
                }
                pos = pos.push(p as int);
                owner = owner.push(kept.len() as int);
            }
            kept.push(ord[p]);
        } else {
            proof {
                owner = owner.push(kept.len() - 1);
            }
        }
        p = p + 1;
    }
    (kept, Ghost(pos), Ghost(owner))
}

/// The per-node aggregates of a node structure, computed from the leaves up.
fn aggregates(
    labels: &Vec<u32>,
    child_start: &Vec<u32>,
    child_count: &Vec<u16>,
    term_id: &Vec<u32>,
    parent: &Vec<u32>,
    depth: &Vec<u16>,
    weights: &Vec<u16>,
) -> (r: (Vec<u16>, Vec<u16>, Vec<u16>, Vec<u64>))
    requires
        structure_ok(labels@, child_start@, child_count@, term_id@, parent@, weights.len() as nat),
        depth.len() == labels.len(),
        forall|u: int| 0 <= u < labels.len() ==> #[trigger] depth[u] == path_of(labels@, parent@, u).len(),
    ensures
        r.0.len() == labels.len(),
        r.1.len() == labels.len(),
        r.2.len() == labels.len(),
        r.3.len() == labels.len(),
        forall|u: int| 0 <= u < labels.len() ==> #[trigger] agg_ok_at(labels@, child_start@, child_count@, term_id@,
            parent@, weights@, r.0@, r.1@, r.2@, r.3@, u),
{
    let nodes = labels.len();
    let mut max_weight: Vec<u16> = Vec::new();
    let mut len_min: Vec<u16> = Vec::new();
    let mut len_max: Vec<u16> = Vec::new();
    let mut below_mask: Vec<u64> = Vec::new();
    let mut z: usize = 0;
    while z < nodes
        invariant
            z <= nodes,
            max_weight.len() == z,
            len_min.len() == z,
            len_max.len() == z,
            below_mask.len() == z,
        decreases nodes - z,
    {
        max_weight.push(0);
        len_min.push(0xFFFF);
        len_max.push(0);
        below_mask.push(0);
        z = z + 1;
    }
    let mut v = nodes;
    while v > 0
        invariant
            nodes == labels.len(),
            v <= nodes,
            structure_ok(labels@, child_start@, child_count@, term_id@, parent@, weights.len() as nat),
            depth.len() == nodes,
            forall|u: int| 0 <= u < nodes ==> #[trigger] depth[u] == path_of(labels@, parent@, u).len(),
            max_weight.len() == nodes,
            len_min.len() == nodes,
            len_max.len() == nodes,
            below_mask.len() == nodes,
            forall|u: int| v <= u < nodes ==> #[trigger] agg_ok_at(labels@, child_start@, child_count@, term_id@,
                parent@, weights@, max_weight@, len_min@, len_max@, below_mask@, u),
        decreases v,
    {
        v = v - 1;
        let tid = term_id[v];
        let mut mw: u16 = 0;
        let mut lo: u16 = 0xFFFF;
        let mut hi: u16 = 0;
        if tid != NO_TERM {
            mw = weights[tid as usize];
            lo = depth[v];
            hi = depth[v];
        }
        let mut mask: u64 = 0;
        let start = child_start[v] as usize;
        let cnt = child_count[v] as usize;
        let mut j: usize = 0;
        while j < cnt
            invariant
                nodes == labels.len(),
                v < nodes,
                structure_ok(labels@, child_start@, child_count@, term_id@, parent@, weights.len() as nat),
                start == child_start@[v as int],
                cnt == child_count@[v as int],
                j <= cnt,
                max_weight.len() == nodes,
                len_min.len() == nodes,
                len_max.len() == nodes,
                below_mask.len() == nodes,
                mw == agg_max(own_weight_of(term_id@, weights@, v as int), max_weight@, start as int, j as nat),
                lo == agg_min(own_lo_of(term_id@, labels@, parent@, v as int), len_min@, start as int, j as nat),
                hi == agg_max(own_hi_of(term_id@, labels@, parent@, v as int), len_max@, start as int, j as nat),
                mask == agg_mask(labels@, below_mask@, start as int, j as nat),
            decreases cnt - j,
        {
            let c = start + j;
            if max_weight[c] > mw {
                mw = max_weight[c];
            }
            if len_min[c] < lo {
                lo = len_min[c];
            }
            if len_max[c] > hi {
                hi = len_max[c];
            }
            mask = mask | symbol_class(labels[c]) | below_mask[c];
            j = j + 1;
        }
        let ghost mw_old = max_weight@;
        let ghost lmin_old = len_min@;
        let ghost lmax_old = len_max@;
        let ghost mask_old = below_mask@;
        max_weight.set(v, mw);
        len_min.set(v, lo);
        len_max.set(v, hi);
        below_mask.set(v, mask);
        proof {
            assert forall|u: int| v <= u < nodes implies #[trigger] agg_ok_at(labels@, child_start@, child_count@, term_id@,
                parent@, weights@, max_weight@, len_min@, len_max@, below_mask@, u) by {
                let s = child_start@[u] as int;
                let k = child_count@[u] as nat;
                if k > 0 {
                    assert(u < s);
                    lemma_agg_frame(own_weight_of(term_id@, weights@, u), mw_old, max_weight@, s, k);
                    lemma_agg_frame(own_lo_of(term_id@, labels@, parent@, u), lmin_old, len_min@, s, k);
                    lemma_agg_frame(own_hi_of(term_id@, labels@, parent@, u), lmax_old, len_max@, s, k);
                    lemma_mask_frame(labels@, mask_old, below_mask@, s, k);
                }
                if u > v {
                    assert(agg_ok_at(labels@, child_start@, child_count@, term_id@,
                        parent@, weights@, mw_old, lmin_old, lmax_old, mask_old, u));
                }
            }
        }
    }
    (max_weight, len_min, len_max, below_mask)
}

proof fn lemma_kept(
    keys: Seq<Seq<u32>>,
    ws: Seq<u16>,
    svv: Seq<Seq<u32>>,
    wv: Seq<u16>,
    ord: Seq<usize>,
    kept: Seq<usize>,
    pos: Seq<int>,
)
    requires
        svv == keys,
        wv == ws,
        ord.len() == keys.len(),
        keys.len() <= usize::MAX,
        forall|x: int| 0 <= x < ord.len() ==> (#[trigger] ord[x]) < keys.len(),
        forall|x: int, y: int| 0 <= x < y < ord.len() ==> entry_lt(svv, wv, ord[x] as int, ord[y] as int),
        forall|x: usize| x < keys.len() ==> ord.contains(x),
        pos.len() == kept.len(),
        forall|a: int| 0 <= a < kept.len() ==> 0 <= #[trigger] pos[a] < ord.len() && ord[pos[a]] == kept[a]
            && (pos[a] == 0 || svv[ord[pos[a] - 1] as int] != svv[ord[pos[a]] as int]),
    ensures
        forall|a: int| 0 <= a < kept.len() ==> #[trigger] kept_entry(keys, ws, svv[kept[a] as int], kept[a] as int),
{
    let n = keys.len();
    assert forall|a: int| 0 <= a < kept.len() implies #[trigger] kept_entry(keys, ws, svv[kept[a] as int], kept[a] as int) by {
        let x = pos[a];
        assert forall|j: int| 0 <= j < keys.len() && keys[j] == svv[kept[a] as int] implies
            ws[j] < ws[kept[a] as int] || (ws[j] == ws[kept[a] as int] && kept[a] <= j) by {
            assert(ord.contains(j as usize));
            let y = choose|y: int| 0 <= y < n && ord[y] == j as usize;
            assert(ord[y] as int == j);
            assert(ord[x] == kept[a]);
            assert(svv[ord[y] as int] == svv[ord[x] as int]);
            if y < x {
                lemma_run_equal(svv, wv, ord, y, x, x - 1);
            } else if y > x {
                assert(entry_lt(svv, wv, ord[x] as int, ord[y] as int));
                lemma_lex_irreflexive(svv[j]);
            }
        }
    }
}

/// The symbols, weights, input indices and texts of the kept entries.
fn collect_kept(items: &[(&str, u16)], sv: &Vec<Vec<u32>>, wv: &Vec<u16>, kept: &Vec<usize>)
    -> (r: (Vec<Vec<u32>>, Vec<u16>, Vec<u32>, Vec<String>))
    requires
        items.len() <= 0xFFFF_FFFF,
        sv.len() == items.len(),
        wv.len() == items.len(),
        forall|b: int| 0 <= b < kept.len() ==> (#[trigger] kept[b]) < items.len(),
    ensures
        r.0.len() == kept.len(),
        r.1.len() == kept.len(),
        r.2.len() == kept.len(),
        r.3.len() == kept.len(),
        forall|b: int| 0 <= b < kept.len() ==> #[trigger] r.0.deep_view()[b] == sv.deep_view()[kept[b] as int],
        forall|b: int| 0 <= b < kept.len() ==> #[trigger] r.2[b] == kept[b],
        forall|b: int| 0 <= b < kept.len() ==> #[trigger] r.1[b] == wv[kept[b] as int],
        forall|b: int| 0 <= b < kept.len() ==> (#[trigger] r.3[b])@ == items@[kept[b] as int].0@,
{
    let ghost svv = sv.deep_view();
    let m = kept.len();
    let mut ts: Vec<Vec<u32>> = Vec::new();
    let mut weights: Vec<u16> = Vec::new();
    let mut input_index: Vec<u32> = Vec::new();
    let mut terms: Vec<String> = Vec::new();
    let mut a: usize = 0;
    while a < m
        invariant
            m == kept.len(),
            items.len() <= 0xFFFF_FFFF,
            sv.len() == items.len(),
            wv.len() == items.len(),
            svv == sv.deep_view(),
            a <= m,
            forall|b: int| 0 <= b < m ==> (#[trigger] kept[b]) < items.len(),
            ts.len() == a,
            weights.len() == a,
            input_index.len() == a,
            terms.len() == a,
            forall|b: int| 0 <= b < a ==> (#[trigger] ts[b])@ == svv[kept[b] as int],
            forall|b: int| 0 <= b < a ==> #[trigger] input_index[b] == kept[b],
            forall|b: int| 0 <= b < a ==> #[trigger] weights[b] == wv[kept[b] as int],
            forall|b: int| 0 <= b < a ==> (#[trigger] terms[b])@ == items@[kept[b] as int].0@,
        decreases m - a,
    {
        let x = kept[a];
        ts.push(sv[x].clone());
        weights.push(wv[x]);
        input_index.push(x as u32);
        terms.push(items[x].0.to_owned());
        proof {
            assert(svv[x as int] == sv[x as int]@);
        }
        a = a + 1;
    }
    proof {
        assert forall|b: int| 0 <= b < m implies #[trigger] ts.deep_view()[b] == svv[kept[b] as int] by {
            assert(ts.deep_view()[b] == ts[b]@);
        }
    }
    (ts, weights, input_index, terms)
}

impl Trie {
    /// Builds a trie. Duplicate terms are merged, keeping the entry with the
    /// highest weight (the first one among equal weights).
    ///
    /// Term ids are positions in the sorted (by UTF-8 bytes, that is by
    /// scalar values), deduplicated list, not positions in `items`;
    /// [`Trie::input_index`] maps an id back to the index in `items` of the
    /// entry that was kept. Terms are stored as given, one symbol per code
    /// point, without any folding. Once the terms themselves are accepted,
    /// a trie is refused with [`BuildError::TooManyTerms`] only when a node
    /// would get more than 65535 children or the trie `0xFFFF_FFFE` nodes
    /// or more ([`oversized`]), which takes more than 65535 entries.
    #[verifier::rlimit(50)]
    pub fn build(items: &[(&str, u16)]) -> (r: Result<Trie, BuildError>)
        ensures
            match build_error(item_texts(items@)) {
                Some(e) => r == Err::<Trie, BuildError>(e),
                None => r is Ok || (r == Err::<Trie, BuildError>(BuildError::TooManyTerms) && items.len() > 65535
                    && oversized(text_keys(item_texts(items@)))),
            },
            r matches Ok(trie) ==> {
                &&& trie.wf()
                &&& trie.spells_terms()
                &&& trie.aggregates_ok()
                &&& trie.normalizer_spec() is None
                &&& trie.built_from(text_keys(item_texts(items@)), item_weights(items@))
                &&& trie.ends_once()
                &&& trie.children_sorted()
                &&& trie.bfs_layout()
                &&& trie.leaves_carry_terms()
            },
    {
        let n = items.len();
        if n == 0 {
            return Err(BuildError::Empty);
        }
        match check_items(items) {
            Some(e) => return Err(e),
            None => {},
        }
        if n as u64 > 0xFFFF_FFFFu64 {
            return Err(BuildError::TooManyTerms);
        }
        let (sv, wv) = entry_symbols(items);
        let ghost svv = sv.deep_view();
        let ghost keys = text_keys(item_texts(items@));
        let ghost ws = item_weights(items@);
        proof {
            assert(svv =~= keys);
            assert(wv@ =~= ws);
        }
        let ord = sort_entries(&sv, &wv, 0, n);
        let (kept, Ghost(pos), Ghost(owner)) = run_starts(&sv, &wv, &ord);
        proof {
            lemma_kept(keys, ws, svv, wv@, ord@, kept@, pos);
        }
        let (ts, weights, input_index, terms) = collect_kept(items, &sv, &wv, &kept);
        let ghost tsv = ts.deep_view();
        proof {
            assert(kept.len() >= 1) by {
                assert(0 <= owner[0] < kept.len());
            }
            assert forall|b: int| 0 <= b < kept.len() implies 1 <= (#[trigger] ts[b]).len() <= 65535 by {
                let x = kept[b] as int;
                assert(ts[b]@ == tsv[b]);
                assert(item_texts(items@)[x] == items@[x].0@);
                lemma_first_problem_none(item_texts(items@), x);
                crate::text::lemma_utf8_len(items@[x].0@);
                lemma_chars_le_bytes(items@[x].0@);
            }
            assert forall|p: int, q: int| 0 <= p < q < kept.len() implies lex_lt(ts[p]@, ts[q]@) by {
                assert(ts[p]@ == tsv[p] && ts[q]@ == tsv[q]);
            }
        }
        let (sh, depth) = match shape(&ts) {
            Ok(x) => x,
            Err(e) => {
                proof {
                    assert forall|b: int| 0 <= b < tsv.len() implies exists|x: int| 0 <= x < keys.len()
                        && #[trigger] keys[x] == #[trigger] tsv[b] by {
                        assert(keys[kept[b] as int] == tsv[b]);
                    }
                    lemma_too_large_keys(tsv, keys);
                }
                return Err(e);
            },
        };
        let ghost term_id_v = sh.term_id@;
        let ghost labels_v = sh.labels@;
        let ghost starts_v = sh.child_start@;
        let ghost counts_v = sh.child_count@;
        proof {
            assert forall|v1: int, v2: int| 0 <= v1 < v2 < sh.labels.len() && term_id_v[v1] != NO_TERM
                implies term_id_v[v1] != term_id_v[v2] by {
                assert(sh.term_id[v1] != sh.term_id[v2]);
            }
            assert(starts_v[0] == 1);
            assert(starts_v[labels_v.len() - 1] + counts_v[labels_v.len() - 1] == labels_v.len());
            assert forall|v: int| 0 <= v < labels_v.len() && #[trigger] counts_v[v] == 0 implies term_id_v[v] != NO_TERM by {
                assert(sh.child_count[v] == 0);
            }
            assert forall|v: int| 0 <= v < labels_v.len() - 1
                implies #[trigger] starts_v[v] + counts_v[v] == starts_v[v + 1] by {
                assert(sh.child_start[v] + sh.child_count[v] == sh.child_start[v + 1]);
            }
            assert forall|v: int, c1: int, c2: int| #![trigger labels_v[c1], labels_v[c2], starts_v[v]]
                0 <= v < labels_v.len() && starts_v[v] <= c1 < c2 < starts_v[v] + counts_v[v]
                implies labels_v[c1] < labels_v[c2] by {
                assert(sh.labels[c1] < sh.labels[c2] && sh.child_start[v] == starts_v[v]);
            }
        }
        let Shape { labels, child_start, child_count, term_id, parent } = sh;
        let (max_weight, len_min, len_max, below_mask) = aggregates(&labels, &child_start, &child_count,
            &term_id, &parent, &depth, &weights);
        let trie = Trie {
            terms,
            weights,
            input_index,
            labels,
            child_start,
            child_count,
            term_id,
            max_weight,
            len_min,
            len_max,
            below_mask,
            parent,
            normalizer: None,
        };
        proof {
            assert(trie.term_syms() =~= tsv);
            lemma_assembled(&trie, tsv);
            assert forall|b: int| 0 <= b < kept.len() implies #[trigger] trie.weights_spec()[b] == ws[kept[b] as int] by {}
            lemma_built(keys, ws, svv, ord@, kept@, owner, &trie);
            assert forall|v1: int, v2: int| 0 <= v1 < v2 < trie.nodes() && trie.term_ids_spec()[v1] != NO_TERM
                implies #[trigger] trie.term_ids_spec()[v1] != #[trigger] trie.term_ids_spec()[v2] by {
                assert(trie.term_ids_spec()[v1] == trie.term_id@[v1]);
                assert(trie.term_ids_spec()[v2] == trie.term_id@[v2]);
                assert(term_id_v[v1] != term_id_v[v2]);
            }
            assert forall|v: int, c1: int, c2: int|
                #![trigger trie.labels_spec()[c1], trie.labels_spec()[c2], trie.starts_spec()[v]]
                0 <= v < trie.nodes() && trie.starts_spec()[v] <= c1 < c2 < trie.starts_spec()[v] + trie.counts_spec()[v]
                implies trie.labels_spec()[c1] < trie.labels_spec()[c2] by {
                assert(trie.labels_spec() == labels_v);
                assert(trie.starts_spec() == starts_v);
                assert(trie.counts_spec() == counts_v);
                assert(labels_v[c1] < labels_v[c2]);
            }
            assert(trie.starts_spec() == starts_v);
            assert(trie.counts_spec() == counts_v);
            assert(trie.nodes() == labels_v.len());
            assert forall|v: int| 0 <= v < trie.nodes() && #[trigger] trie.counts_spec()[v] == 0
                implies trie.term_ids_spec()[v] != NO_TERM by {
                assert(counts_v[v] == 0);
                assert(term_id_v[v] != NO_TERM);
            }
            assert forall|v: int| 0 <= v < trie.nodes() - 1
                implies #[trigger] trie.starts_spec()[v] + trie.counts_spec()[v] == trie.starts_spec()[v + 1] by {
                assert(starts_v[v] + counts_v[v] == starts_v[v + 1]);
            }
        }
        Ok(trie)
    }
}

impl Trie {
    /// Builds a trie of the terms normalised by `normalizer`, and remembers
    /// it so that text searches normalise queries the same way.
    ///
    /// Terms that are equal after normalisation are merged as by
    /// [`Trie::build`] (highest weight, then first); [`Trie::term`] returns
    /// the normalised text and [`Trie::input_index`] the index in `items` of
    /// the entry kept, from which the caller recovers its original spelling.
    pub fn build_normalized(items: &[(&str, u16)], normalizer: &Normalizer) -> (r: Result<Trie, BuildError>)
        ensures
            match build_error(norm_texts(item_texts(items@), *normalizer)) {
                Some(e) => r == Err::<Trie, BuildError>(e),
                None => r is Ok || (r == Err::<Trie, BuildError>(BuildError::TooManyTerms) && items.len() > 65535
                    && oversized(text_keys(norm_texts(item_texts(items@), *normalizer)))),
            },
            r matches Ok(trie) ==> {
                &&& trie.wf()
                &&& trie.spells_terms()
                &&& trie.aggregates_ok()
                &&& trie.normalizer_spec() == Some(*normalizer)
                &&& trie.built_from(text_keys(norm_texts(item_texts(items@), *normalizer)), item_weights(items@))
                &&& trie.ends_once()
                &&& trie.children_sorted()
                &&& trie.bfs_layout()
                &&& trie.leaves_carry_terms()
            },
    {
        let n = items.len();
        let mut texts: Vec<String> = Vec::new();
        let mut i: usize = 0;
        while i < n
            invariant
                n == items.len(),
                i <= n,
                texts.len() == i,
                forall|j: int| 0 <= j < i ==> (#[trigger] texts[j])@ == crate::text::norm_str(*normalizer, items@[j].0@),
            decreases n - i,
        {
            texts.push(normalizer.normalize(items[i].0));
            i = i + 1;
        }
        let mut normalized: Vec<(&str, u16)> = Vec::new();
        let mut j: usize = 0;
        while j < n
            invariant
                n == items.len(),
                texts.len() == n,
                j <= n,
                normalized.len() == j,
                forall|k: int| 0 <= k < j ==> (#[trigger] normalized[k]).0@ == texts[k]@ && normalized[k].1 == items@[k].1,
            decreases n - j,
        {
            normalized.push((texts[j].as_str(), items[j].1));
            j = j + 1;
        }
        proof {
            assert(item_texts(normalized@) =~= norm_texts(item_texts(items@), *normalizer));
            assert(item_weights(normalized@) =~= item_weights(items@));
        }
        match Trie::build(normalized.as_slice()) {
            Ok(mut trie) => {
                let ghost before = trie;
                trie.normalizer = Some(*normalizer);
                proof {
                    assert(trie.term_syms() =~= before.term_syms());
                    assert(trie.labels_spec() == before.labels_spec());
                    assert(trie.parents_spec() == before.parents_spec());
                    assert(trie.term_ids_spec() == before.term_ids_spec());
                    assert(trie.weights_spec() == before.weights_spec());
                    assert(trie.inputs_spec() == before.inputs_spec());
                    assert(trie.starts_spec() == before.starts_spec());
                    assert(trie.counts_spec() == before.counts_spec());
                    assert(trie.max_weights_spec() == before.max_weights_spec());
                    assert(trie.len_mins_spec() == before.len_mins_spec());
                    assert(trie.len_maxs_spec() == before.len_maxs_spec());
                    assert(trie.masks_spec() == before.masks_spec());
                    assert(trie.nodes() == before.nodes());
                    assert forall|v: int| 0 <= v < trie.nodes() implies trie.path(v) == before.path(v) by {}
                    assert forall|v: int| 0 <= v < trie.nodes() implies #[trigger] trie.own_weight(v) == before.own_weight(v)
                        && trie.own_len_min(v) == before.own_len_min(v) && trie.own_len_max(v) == before.own_len_max(v) by {}
                    assert forall|t: int| 0 <= t < trie.term_syms().len() implies #[trigger] trie.ends_at_node(t) by {
                        assert(before.ends_at_node(t));
                    }
                    assert forall|v: int| 0 <= v < trie.nodes() implies {
                        let s = trie.starts_spec()[v] as int;
                        let k = trie.counts_spec()[v] as nat;
                        &&& #[trigger] trie.max_weights_spec()[v] == agg_max(trie.own_weight(v), trie.max_weights_spec(), s, k)
                        &&& trie.len_mins_spec()[v] == agg_min(trie.own_len_min(v), trie.len_mins_spec(), s, k)
                        &&& trie.len_maxs_spec()[v] == agg_max(trie.own_len_max(v), trie.len_maxs_spec(), s, k)
                        &&& trie.masks_spec()[v] == agg_mask(trie.labels_spec(), trie.masks_spec(), s, k)
                    } by {
                        let _ = before.max_weights_spec()[v];
                    }
                    assert(trie.wf());
                    assert(trie.spells_terms());
                    assert(trie.aggregates_ok());
                    let keys = text_keys(norm_texts(item_texts(items@), *normalizer));
                    assert(before.built_from(keys, item_weights(items@)));
                    assert forall|i: int| 0 <= i < keys.len() implies #[trigger] trie.holds(keys[i]) by {
                        assert(before.holds(keys[i]));
                    }
                    assert(trie.built_from(keys, item_weights(items@)));
                }
                Ok(trie)
            },
            Err(e) => Err(e),
        }
    }

    /// The normaliser the trie was built with ([`Trie::build_normalized`]),
    /// or `None` ([`Trie::build`]).
    pub fn normalizer(&self) -> (r: Option<Normalizer>)
        ensures
            r == self.normalizer_spec(),
    {
        self.normalizer
    }

    /// Number of distinct terms.
    pub fn len(&self) -> (r: usize)
        ensures
            r == self.term_syms().len(),
    {
        self.terms.len()
    }

    /// Whether the trie holds no terms (never true for a built trie).
    pub fn is_empty(&self) -> (r: bool)
        ensures
            r == (self.term_syms().len() == 0),
    {
        self.terms.len() == 0
    }

    /// Number of trie nodes, root included.
    pub fn node_count(&self) -> (r: usize)
        ensures
            r == self.nodes(),
    {
        self.labels.len()
    }

    /// The term with the given id (`""` for an unknown id).
    pub fn term(&self, id: u32) -> (r: &str)
        ensures
            (id as int) < self.term_texts().len() ==> r@ == self.term_texts()[id as int],
            (id as int) < self.term_syms().len() ==> str_syms(r@) == self.term_syms()[id as int],
            (id as int) >= self.term_syms().len() ==> r@.len() == 0,
    {
        if (id as usize) < self.terms.len() {
            self.terms[id as usize].as_str()
        } else {
            proof {
                reveal_strlit("");
            }
            ""
        }
    }

    /// The weight of the term with the given id (0 for an unknown id).
    pub fn weight(&self, id: u32) -> (r: u16)
        requires
            self.wf(),
        ensures
            r == if (id as int) < self.weights_spec().len() { self.weights_spec()[id as int] } else { 0 },
    {
        if (id as usize) < self.weights.len() { self.weights[id as usize] } else { 0 }
    }

    /// The index, in the slice given to [`Trie::build`], of the entry kept
    /// for the term with the given id: for duplicates, the entry with the
    /// highest weight, and the first one among equal weights. Returns
    /// `u32::MAX` for an out-of-range id.
    pub fn input_index(&self, id: u32) -> (r: u32)
        ensures
            r == if (id as int) < self.inputs_spec().len() { self.inputs_spec()[id as int] } else { 0xFFFF_FFFFu32 },
    {
        if (id as usize) < self.input_index.len() { self.input_index[id as usize] } else { 0xFFFF_FFFF }
    }

    /// The symbol on the edge leading into node `v`, as a `char` (`'\0'` for
    /// the root, and for a label that is not a scalar value).
    pub fn label(&self, v: usize) -> (r: char)
        requires
            self.wf(),
            v < self.nodes(),
        ensures
            vstd::utf8::is_scalar(self.labels_spec()[v as int]) ==> r as u32 == self.labels_spec()[v as int],
            !vstd::utf8::is_scalar(self.labels_spec()[v as int]) ==> r == '\0',
    {
        match char_from_u32(self.labels[v]) {
            Some(c) => c,
            None => '\0',
        }
    }

    /// The symbol on the edge into `v` as a `u32` (what the search compares).
    pub fn symbol(&self, v: usize) -> (r: u32)
        requires
            self.wf(),
            v < self.nodes(),
        ensures
            r == self.labels_spec()[v as int],
    {
        self.labels[v]
    }

    /// The node indices of the children of `v`.
    pub fn children(&self, v: usize) -> (r: Range<usize>)
        requires
            self.wf(),
            v < self.nodes(),
        ensures
            r.start == self.starts_spec()[v as int],
            r.end == self.starts_spec()[v as int] + self.counts_spec()[v as int],
    {
        let start = self.child_start[v] as usize;
        let count = self.child_count[v] as usize;
        if count == 0 {
            return start..start;
        }
        start..start + count
    }

    /// The id of the term that ends at `v`, or [`NO_TERM`].
    pub fn term_id(&self, v: usize) -> (r: u32)
        requires
            self.wf(),
            v < self.nodes(),
        ensures
            r == self.term_ids_spec()[v as int],
    {
        self.term_id[v]
    }

    /// The largest weight among the terms at or below `v`.
    pub fn max_weight(&self, v: usize) -> (r: u16)
        requires
            self.wf(),
            v < self.nodes(),
        ensures
            r == self.max_weights_spec()[v as int],
    {
        self.max_weight[v]
    }

    /// The length, in symbols, of the shortest term at or below `v`.
    pub fn len_min(&self, v: usize) -> (r: u16)
        requires
            self.wf(),
            v < self.nodes(),
        ensures
            r == self.len_mins_spec()[v as int],
    {
        self.len_min[v]
    }

    /// The length, in symbols, of the longest term at or below `v`.
    pub fn len_max(&self, v: usize) -> (r: u16)
        requires
            self.wf(),
            v < self.nodes(),
        ensures
            r == self.len_maxs_spec()[v as int],
    {
        self.len_max[v]
    }

    /// The symbol classes that appear on edges strictly below `v`.
    pub fn below_mask(&self, v: usize) -> (r: u64)
        requires
            self.wf(),
            v < self.nodes(),
        ensures
            r == self.masks_spec()[v as int],
    {
        self.below_mask[v]
    }
}

impl Trie {
    /// The text of each term, by id.
    pub closed spec fn term_texts(&self) -> Seq<Seq<char>> {
        Seq::new(self.terms.len() as nat, |t: int| self.terms[t]@)
    }

    /// The symbols of a term are those of its text.
    pub proof fn lemma_texts(&self)
        ensures
            self.term_texts().len() == self.term_syms().len(),
            forall|t: int| 0 <= t < self.term_syms().len() ==> #[trigger] self.term_syms()[t] == str_syms(self.term_texts()[t]),
    {
    }

    /// The node labels.
    pub(crate) fn labels_vec(&self) -> (r: &Vec<u32>)
        ensures
            r@ == self.labels_spec(),
    {
        &self.labels
    }

    /// The first child of each node.
    pub(crate) fn starts_vec(&self) -> (r: &Vec<u32>)
        ensures
            r@ == self.starts_spec(),
    {
        &self.child_start
    }

    /// The term that ends at each node.
    pub(crate) fn term_ids_vec(&self) -> (r: &Vec<u32>)
        ensures
            r@ == self.term_ids_spec(),
    {
        &self.term_id
    }

    /// The shortest term length at or below each node.
    pub(crate) fn len_mins_vec(&self) -> (r: &Vec<u16>)
        ensures
            r@ == self.len_mins_spec(),
    {
        &self.len_min
    }

    /// The longest term length at or below each node.
    pub(crate) fn len_maxs_vec(&self) -> (r: &Vec<u16>)
        ensures
            r@ == self.len_maxs_spec(),
    {
        &self.len_max
    }

    /// The largest weight at or below each node.
    pub(crate) fn max_weights_vec(&self) -> (r: &Vec<u16>)
        ensures
            r@ == self.max_weights_spec(),
    {
        &self.max_weight
    }

    /// The classes below each node.
    pub(crate) fn masks_vec(&self) -> (r: &Vec<u64>)
        ensures
            r@ == self.masks_spec(),
    {
        &self.below_mask
    }

    /// The weight of each term.
    pub(crate) fn weights_vec(&self) -> (r: &Vec<u16>)
        ensures
            r@ == self.weights_spec(),
    {
        &self.weights
    }

    /// The input index of each term.
    pub(crate) fn inputs_vec(&self) -> (r: &Vec<u32>)
        ensures
            r@ == self.inputs_spec(),
    {
        &self.input_index
    }

    /// Writes the trie as an index (see [`crate::index`]): the image of
    /// its contents, or [`FormatError::TooLarge`] when it exceeds the limits
    /// of the format. The same trie always gives the same bytes.
    pub fn to_bytes(&self) -> (r: Result<Vec<u8>, FormatError>)
        requires
            self.wf(),
        ensures
            match r {
                Ok(b) => !too_large(*self) && b@ == contents_of(*self).image(),
                Err(e) => too_large(*self) && e == FormatError::TooLarge,
            },
    {
        write_index(self)
    }

    /// A copy of the trie, with the same contents.
    pub(crate) fn duplicate(&self) -> (r: Trie)
        ensures
            r.term_texts() == self.term_texts(),
            r.term_syms() == self.term_syms(),
            r.weights_spec() == self.weights_spec(),
            r.inputs_spec() == self.inputs_spec(),
            r.labels_spec() == self.labels_spec(),
            r.starts_spec() == self.starts_spec(),
            r.counts_spec() == self.counts_spec(),
            r.term_ids_spec() == self.term_ids_spec(),
            r.max_weights_spec() == self.max_weights_spec(),
            r.len_mins_spec() == self.len_mins_spec(),
            r.len_maxs_spec() == self.len_maxs_spec(),
            r.masks_spec() == self.masks_spec(),
            r.parents_spec() == self.parents_spec(),
            r.normalizer_spec() == self.normalizer_spec(),
            r.nodes() == self.nodes(),
            self.wf() ==> r.wf(),
    {
        let mut terms: Vec<String> = Vec::new();
        let mut i: usize = 0;
        while i < self.terms.len()
            invariant
                i <= self.terms.len(),
                terms.len() == i,
                forall|j: int| 0 <= j < i ==> #[trigger] terms[j]@ == self.terms[j]@,
            decreases self.terms.len() - i,
        {
            terms.push(self.terms[i].clone());
            i = i + 1;
        }
        let r = Trie {
            terms,
            weights: copy_vec(&self.weights),
            input_index: copy_vec(&self.input_index),
            labels: copy_vec(&self.labels),
            child_start: copy_vec(&self.child_start),
            child_count: copy_vec(&self.child_count),
            term_id: copy_vec(&self.term_id),
            max_weight: copy_vec(&self.max_weight),
            len_min: copy_vec(&self.len_min),
            len_max: copy_vec(&self.len_max),
            below_mask: copy_vec(&self.below_mask),
            parent: copy_vec(&self.parent),
            normalizer: self.normalizer,
        };
        assert(r.term_texts() =~= self.term_texts());
        assert(r.term_syms() =~= self.term_syms());
        r
    }

    /// Loads a trie from an index (see [`Index::from_bytes`]): the trie the
    /// index holds, or the first check it fails.
    pub fn from_bytes(bytes: &[u8]) -> (r: Result<Trie, FormatError>)
        ensures
            match r {
                Ok(trie) => {
                    &&& index_fault(bytes@) is None
                    &&& trie.wf()
                    &&& holds_contents(trie, decoded(bytes@), hdr_normalizer(bytes@))
                },
                Err(e) => index_fault(bytes@) == Some(e),
            },
    {
        match Index::from_bytes(bytes) {
            Ok(ix) => Ok(ix.to_trie()),
            Err(e) => Err(e),
        }
    }

    /// A trie made of the given arrays.
    pub(crate) fn from_parts(
        terms: Vec<String>,
        weights: Vec<u16>,
        input_index: Vec<u32>,
        labels: Vec<u32>,
        child_start: Vec<u32>,
        child_count: Vec<u16>,
        term_id: Vec<u32>,
        max_weight: Vec<u16>,
        len_min: Vec<u16>,
        len_max: Vec<u16>,
        below_mask: Vec<u64>,
        parent: Vec<u32>,
        normalizer: Option<Normalizer>,
    ) -> (r: Trie)
        ensures
            r.term_texts() == Seq::new(terms.len() as nat, |t: int| terms[t]@),
            r.weights_spec() == weights@,
            r.inputs_spec() == input_index@,
            r.labels_spec() == labels@,
            r.starts_spec() == child_start@,
            r.counts_spec() == child_count@,
            r.term_ids_spec() == term_id@,
            r.max_weights_spec() == max_weight@,
            r.len_mins_spec() == len_min@,
            r.len_maxs_spec() == len_max@,
            r.masks_spec() == below_mask@,
            r.parents_spec() == parent@,
            r.normalizer_spec() == normalizer,
            r.nodes() == labels.len(),
            (structure_ok(labels@, child_start@, child_count@, term_id@, parent@, terms.len() as nat)
                && max_weight.len() == labels.len() && len_min.len() == labels.len()
                && len_max.len() == labels.len() && below_mask.len() == labels.len()
                && weights.len() == terms.len() && input_index.len() == terms.len()
                && terms.len() <= 0xFFFF_FFFF) ==> r.wf(),
    {
        Trie {
            terms,
            weights,
            input_index,
            labels,
            child_start,
            child_count,
            term_id,
            max_weight,
            len_min,
            len_max,
            below_mask,
            parent,
            normalizer,
        }
    }
}

/// A copy of `v`.
fn copy_vec<T: Copy>(v: &Vec<T>) -> (r: Vec<T>)
    ensures
        r@ == v@,
{
    let mut r: Vec<T> = Vec::new();
    let mut i: usize = 0;
    while i < v.len()
        invariant
            i <= v.len(),
            r@ == v@.take(i as int),
        decreases v.len() - i,
    {
        r.push(v[i]);
        assert(r@ =~= v@.take(i + 1));
        i = i + 1;
    }
    assert(v@.take(v.len() as int) =~= v@);
    r
}

/// The normalised form of each text.
pub open spec fn norm_texts(texts: Seq<Seq<char>>, n: Normalizer) -> Seq<Seq<char>> {
    texts.map_values(|t: Seq<char>| crate::text::norm_str(n, t))
}

proof fn lemma_assembled(trie: &Trie, tsv: Seq<Seq<u32>>)
    requires
        trie.term_syms() == tsv,
        structure_ok(trie.labels@, trie.child_start@, trie.child_count@, trie.term_id@, trie.parent@, tsv.len()),
        trie.max_weight.len() == trie.labels.len(),
        trie.len_min.len() == trie.labels.len(),
        trie.len_max.len() == trie.labels.len(),
        trie.below_mask.len() == trie.labels.len(),
        trie.weights.len() == trie.terms.len(),
        trie.input_index.len() == trie.terms.len(),
        trie.terms.len() <= 0xFFFF_FFFF,
        forall|v: int| 0 <= v < trie.labels.len() && trie.term_id[v] != NO_TERM
            ==> path_of(trie.labels@, trie.parent@, v) == tsv[trie.term_id[v] as int],
        forall|t: int| 0 <= t < tsv.len() ==> #[trigger] assigned(trie.term_id@, t),
        forall|u: int| 0 <= u < trie.labels.len() ==> #[trigger] agg_ok_at(trie.labels@, trie.child_start@,
            trie.child_count@, trie.term_id@, trie.parent@, trie.weights@, trie.max_weight@, trie.len_min@,
            trie.len_max@, trie.below_mask@, u),
    ensures
        trie.wf(),
        trie.spells_terms(),
        trie.aggregates_ok(),
{
    assert forall|t: int| 0 <= t < trie.term_syms().len() implies #[trigger] trie.ends_at_node(t) by {
        assert(assigned(trie.term_id@, t));
        let v = choose|v: int| 0 <= v < trie.term_id@.len() && trie.term_id@[v] == t;
        assert(trie.term_ids_spec()[v] == t);
    }
    assert forall|v: int| 0 <= v < trie.nodes() implies {
        let s = trie.starts_spec()[v] as int;
        let k = trie.counts_spec()[v] as nat;
        &&& #[trigger] trie.max_weights_spec()[v] == agg_max(trie.own_weight(v), trie.max_weights_spec(), s, k)
        &&& trie.len_mins_spec()[v] == agg_min(trie.own_len_min(v), trie.len_mins_spec(), s, k)
        &&& trie.len_maxs_spec()[v] == agg_max(trie.own_len_max(v), trie.len_maxs_spec(), s, k)
        &&& trie.masks_spec()[v] == agg_mask(trie.labels_spec(), trie.masks_spec(), s, k)
    } by {
        assert(agg_ok_at(trie.labels@, trie.child_start@, trie.child_count@, trie.term_id@, trie.parent@,
            trie.weights@, trie.max_weight@, trie.len_min@, trie.len_max@, trie.below_mask@, v));
    }
}

proof fn lemma_built(keys: Seq<Seq<u32>>, ws: Seq<u16>, svv: Seq<Seq<u32>>, ord: Seq<usize>, kept: Seq<usize>,
    owner: Seq<int>, trie: &Trie)
    requires
        keys.len() <= usize::MAX,
        svv == keys,
        ws.len() == keys.len(),
        ord.len() == keys.len(),
        forall|x: usize| x < keys.len() ==> ord.contains(x),
        forall|x: int| 0 <= x < ord.len() ==> (#[trigger] ord[x]) < keys.len(),
        forall|a: int| 0 <= a < kept.len() ==> (#[trigger] kept[a]) < keys.len(),
        owner.len() == ord.len(),
        forall|x: int| 0 <= x < ord.len() ==> 0 <= #[trigger] owner[x] < kept.len()
            && svv[kept[owner[x]] as int] == svv[ord[x] as int],
        forall|a: int| 0 <= a < kept.len() ==> #[trigger] kept_entry(keys, ws, svv[kept[a] as int], kept[a] as int),
        forall|a: int, b: int| 0 <= a < b < kept.len() ==> lex_lt(svv[kept[a] as int], svv[kept[b] as int]),
        trie.term_syms().len() == kept.len(),
        trie.inputs_spec().len() == kept.len(),
        trie.weights_spec().len() == kept.len(),
        forall|b: int| 0 <= b < kept.len() ==> #[trigger] trie.term_syms()[b] == svv[kept[b] as int],
        forall|b: int| 0 <= b < kept.len() ==> #[trigger] trie.inputs_spec()[b] == kept[b],
        forall|b: int| 0 <= b < kept.len() ==> #[trigger] trie.weights_spec()[b] == ws[kept[b] as int],
    ensures
        trie.built_from(keys, ws),
{
    assert forall|t: int| 0 <= t < trie.term_syms().len() implies {
        &&& kept_entry(keys, ws, trie.term_syms()[t], #[trigger] trie.inputs_spec()[t] as int)
        &&& trie.weights_spec()[t] == ws[trie.inputs_spec()[t] as int]
    } by {
        assert(kept_entry(keys, ws, svv[kept[t] as int], kept[t] as int));
    }
    assert forall|i: int| 0 <= i < keys.len() implies #[trigger] trie.holds(keys[i]) by {
        assert(ord.contains(i as usize));
        let y = choose|y: int| 0 <= y < ord.len() && ord[y] == i as usize;
        assert(ord[y] as int == i);
        let a = owner[y];
        assert(trie.term_syms()[a] == svv[kept[a] as int]);
        assert(trie.term_syms()[a] == keys[i]);
    }
}

proof fn lemma_first_problem_none(items: Seq<Seq<char>>, x: int)
    requires
        0 <= x < items.len(),
        first_problem(items, 0) is None,
    ensures
        term_problem(items[x]) is None,
{
    lemma_first_problem_prefix(items, 0, x);
}

proof fn lemma_first_problem_prefix(items: Seq<Seq<char>>, i: int, x: int)
    requires
        0 <= i <= x < items.len(),
        first_problem(items, i) is None,
    ensures
        term_problem(items[x]) is None,
    decreases x - i,
{
    if i < x {
        lemma_first_problem_prefix(items, i + 1, x);
    }
}

proof fn lemma_chars_le_bytes(cs: Seq<char>)
    ensures
        cs.len() <= crate::text::utf8_len(cs),
    decreases cs.len(),
{
    if cs.len() > 0 {
        lemma_chars_le_bytes(cs.drop_last());
    }
}

} // verus!
