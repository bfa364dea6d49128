//! The CGL tree: a recursive partition of strings around a median pivot, by
//! their longest common prefix with the pivot and by order, with extra
//! branches holding the strings altered to agree with the pivot at one more
//! position, for searches within a Hamming radius.
use vstd::prelude::*;
use crate::cgl::altered::{lcp, pivot_alter, text_less, AlteredString};
use crate::order::{entry_lt, lemma_lex_asymmetric, lemma_lex_irreflexive, lex_lt, sort_entries, sorted_by_entry};
use crate::legacy::columnar::mismatches;
use crate::cgl::altered::{common_prefix, lemma_common_prefix_unique, lex_less};

verus! {

/// A node of the tree: a pivot and, for a leaf, the strings it holds, or
/// for an inner node its eight children.
pub struct CglNode {
    pivot: AlteredString,
    is_leaf: bool,
    suffixes: Vec<AlteredString>,
    less_m: Option<Box<CglNode>>,
    greater_m: Option<Box<CglNode>>,
    less_lex: Option<Box<CglNode>>,
    greater_lex: Option<Box<CglNode>>,
    alt_less_m: Option<Box<CglNode>>,
    alt_greater_m: Option<Box<CglNode>>,
    alt_less_lex: Option<Box<CglNode>>,
    alt_greater_lex: Option<Box<CglNode>>,
}

/// A string found by a query: where it came from and its distance.
#[derive(Clone, Copy, Debug)]
pub struct RawMatch {
    /// The origin of the string.
    pub origin: usize,
    /// The Hamming distance it was found at.
    pub distance: usize,
}

/// The origins of the strings of `v`.
pub open spec fn origins(v: Seq<AlteredString>) -> Set<usize> {
    Set::new(|o: usize| exists|i: int| 0 <= i < v.len() && v[i].origin_view() == Some(o))
}

/// The origin of `s`, as a set of zero or one element.
pub open spec fn origin_set(s: AlteredString) -> Set<usize> {
    match s.origin_view() {
        Some(o) => set![o],
        None => Set::empty(),
    }
}

/// Every string of `v` caches its altered bytes.
pub open spec fn all_wf(v: Seq<AlteredString>) -> bool {
    forall|i: int| 0 <= i < v.len() ==> #[trigger] v[i].wf()
}

spec fn opt_ok(c: Option<Box<CglNode>>) -> bool
    decreases c,
{
    match c {
        Some(b) => b.ok(),
        None => true,
    }
}

spec fn opt_kept(c: Option<Box<CglNode>>) -> Set<usize>
    decreases c,
{
    match c {
        Some(b) => b.kept(),
        None => Set::empty(),
    }
}

spec fn opt_all(c: Option<Box<CglNode>>) -> Set<usize>
    decreases c,
{
    match c {
        Some(b) => b.all(),
        None => Set::empty(),
    }
}

/// The texts of the strings of `v`.
pub open spec fn texts(v: Seq<AlteredString>) -> Set<Seq<u8>> {
    Set::new(|t: Seq<u8>| exists|i: int| 0 <= i < v.len() && v[i].text() == t)
}

/// The length of the longest common prefix of `a` and `b`.
pub open spec fn lcp_len(a: Seq<u8>, b: Seq<u8>) -> nat {
    choose|n: nat| common_prefix(a, b, n)
}

/// The text `t` altered to agree with the pivot text `p` at their first
/// difference, when `p` goes on there (see [`pivot_alter`]).
pub open spec fn alter_text(t: Seq<u8>, p: Seq<u8>) -> Seq<u8> {
    let n = lcp_len(t, p);
    if n >= p.len() {
        t
    } else if n < t.len() {
        t.update(n as int, p[n as int])
    } else {
        t
    }
}

/// The texts at the sorted positions other than `pivot`.
pub open spec fn rest_texts(v: Seq<AlteredString>, order: Seq<usize>, pivot: int, upto: int) -> Set<Seq<u8>> {
    Set::new(|t: Seq<u8>| exists|q: int| 0 <= q < upto && q != pivot && v[order[q] as int].text() == t)
}

spec fn opt_kept_texts(c: Option<Box<CglNode>>) -> Set<Seq<u8>>
    decreases c,
{
    match c {
        Some(b) => b.kept_texts(),
        None => Set::empty(),
    }
}

spec fn opt_shaped(c: Option<Box<CglNode>>, k: nat, leaf_size: nat) -> bool
    decreases c,
{
    match c {
        Some(b) => b.shaped(k, leaf_size),
        None => true,
    }
}

spec fn opt_count(c: Option<Box<CglNode>>) -> nat
    decreases c,
{
    match c {
        Some(b) => b.count(),
        None => 0,
    }
}

impl CglNode {
    /// Every string stored in the tree caches its altered bytes.
    pub closed spec fn ok(self) -> bool
        decreases self,
    {
        &&& self.pivot.wf()
        &&& all_wf(self.suffixes@)
        &&& opt_ok(self.less_m)
        &&& opt_ok(self.greater_m)
        &&& opt_ok(self.less_lex)
        &&& opt_ok(self.greater_lex)
        &&& opt_ok(self.alt_less_m)
        &&& opt_ok(self.alt_greater_m)
        &&& opt_ok(self.alt_less_lex)
        &&& opt_ok(self.alt_greater_lex)
    }

    /// The origins reachable without alterations: the pivots and the leaf
    /// strings of the unaltered branches.
    pub closed spec fn kept(self) -> Set<usize>
        decreases self,
    {
        if self.is_leaf {
            origin_set(self.pivot) + origins(self.suffixes@)
        } else {
            origin_set(self.pivot) + opt_kept(self.less_m) + opt_kept(self.greater_m) + opt_kept(self.less_lex)
                + opt_kept(self.greater_lex)
        }
    }

    /// The origins of every string stored in the tree.
    pub closed spec fn all(self) -> Set<usize>
        decreases self,
    {
        origin_set(self.pivot) + origins(self.suffixes@) + opt_all(self.less_m) + opt_all(self.greater_m)
            + opt_all(self.less_lex) + opt_all(self.greater_lex) + opt_all(self.alt_less_m)
            + opt_all(self.alt_greater_m) + opt_all(self.alt_less_lex) + opt_all(self.alt_greater_lex)
    }

    /// The pivot's text.
    pub closed spec fn pivot_text(self) -> Seq<u8> {
        self.pivot.text()
    }

    /// The texts reachable without alterations: the pivots and the leaf
    /// strings of the unaltered branches.
    pub closed spec fn kept_texts(self) -> Set<Seq<u8>>
        decreases self,
    {
        if self.is_leaf {
            set![self.pivot.text()] + texts(self.suffixes@)
        } else {
            set![self.pivot.text()] + opt_kept_texts(self.less_m) + opt_kept_texts(self.greater_m)
                + opt_kept_texts(self.less_lex) + opt_kept_texts(self.greater_lex)
        }
    }

    /// The unaltered children split the strings by their common prefix
    /// length with the pivot against `m`, those at `m` by order against
    /// the pivot.
    pub closed spec fn split_at(self, m: nat) -> bool {
        let p = self.pivot.text();
        &&& forall|t: Seq<u8>| #[trigger] opt_kept_texts(self.less_m).contains(t) ==> lcp_len(t, p) < m
        &&& forall|t: Seq<u8>| #[trigger] opt_kept_texts(self.greater_m).contains(t) ==> lcp_len(t, p) > m
        &&& forall|t: Seq<u8>| #[trigger] opt_kept_texts(self.less_lex).contains(t) ==> lcp_len(t, p) == m && lex_less(t, p)
        &&& forall|t: Seq<u8>| #[trigger] opt_kept_texts(self.greater_lex).contains(t) ==> lcp_len(t, p) == m && !lex_less(t, p)
    }

    /// The shape of a tree built with up to `k` alterations and leaves of
    /// at most `leaf_size` strings: a leaf holds between one and
    /// `leaf_size` strings and has no children; an inner node holds no
    /// strings of its own, its four unaltered children have the same
    /// shape, and with `k > 0` each altered child has the shape for `k - 1`
    /// and holds the origins of its unaltered sibling, with `k == 0` none
    /// exists.
    pub closed spec fn shaped(self, k: nat, leaf_size: nat) -> bool
        decreases self,
    {
        if self.is_leaf {
            &&& 1 <= self.suffixes@.len() <= leaf_size
            &&& self.less_m is None && self.greater_m is None && self.less_lex is None && self.greater_lex is None
            &&& self.alt_less_m is None && self.alt_greater_m is None && self.alt_less_lex is None
            &&& self.alt_greater_lex is None
        } else {
            &&& self.suffixes@.len() == 0
            &&& exists|m: nat| self.split_at(m)
            &&& opt_shaped(self.less_m, k, leaf_size) && opt_shaped(self.greater_m, k, leaf_size)
            &&& opt_shaped(self.less_lex, k, leaf_size) && opt_shaped(self.greater_lex, k, leaf_size)
            &&& if k > 0 {
                &&& opt_shaped(self.alt_less_m, (k - 1) as nat, leaf_size)
                &&& opt_shaped(self.alt_greater_m, (k - 1) as nat, leaf_size)
                &&& opt_shaped(self.alt_less_lex, (k - 1) as nat, leaf_size)
                &&& opt_shaped(self.alt_greater_lex, (k - 1) as nat, leaf_size)
                &&& opt_all(self.alt_less_m) == opt_all(self.less_m)
                &&& opt_all(self.alt_greater_m) == opt_all(self.greater_m)
                &&& opt_all(self.alt_less_lex) == opt_all(self.less_lex)
                &&& opt_all(self.alt_greater_lex) == opt_all(self.greater_lex)
                &&& opt_kept_texts(self.alt_less_m) == opt_kept_texts(self.less_m).map(|t: Seq<u8>| alter_text(t, self.pivot.text()))
                &&& opt_kept_texts(self.alt_greater_m) == opt_kept_texts(self.greater_m).map(|t: Seq<u8>| alter_text(t, self.pivot.text()))
                &&& opt_kept_texts(self.alt_less_lex) == opt_kept_texts(self.less_lex).map(|t: Seq<u8>| alter_text(t, self.pivot.text()))
                &&& opt_kept_texts(self.alt_greater_lex) == opt_kept_texts(self.greater_lex).map(|t: Seq<u8>| alter_text(t, self.pivot.text()))
            } else {
                &&& self.alt_less_m is None && self.alt_greater_m is None
                &&& self.alt_less_lex is None && self.alt_greater_lex is None
            }
        }
    }

    /// Whether the node is a leaf holding its strings.
    pub closed spec fn leaf_spec(self) -> bool {
        self.is_leaf
    }

    /// The number of nodes of the tree.
    pub closed spec fn count(self) -> nat
        decreases self,
    {
        1 + opt_count(self.less_m) + opt_count(self.greater_m) + opt_count(self.less_lex)
            + opt_count(self.greater_lex) + opt_count(self.alt_less_m) + opt_count(self.alt_greater_m)
            + opt_count(self.alt_less_lex) + opt_count(self.alt_greater_lex)
    }
}

/// The number of nodes of the tree at `node` (0 for none).
pub open spec fn tree_size(node: Option<&CglNode>) -> nat {
    match node {
        Some(n) => n.count(),
        None => 0,
    }
}

/// The origins of the strings at the sorted positions other than `pivot`.
pub open spec fn rest_origins(v: Seq<AlteredString>, order: Seq<usize>, pivot: int, upto: int) -> Set<usize> {
    Set::new(|o: usize| exists|q: int| 0 <= q < upto && q != pivot && v[order[q] as int].origin_view() == Some(o))
}

proof fn lemma_origins_push(v: Seq<AlteredString>, s: AlteredString)
    ensures
        origins(v.push(s)) == origins(v) + origin_set(s),
{
    assert forall|o: usize| origins(v.push(s)).contains(o) implies (origins(v) + origin_set(s)).contains(o) by {
        let i = choose|i: int| 0 <= i < v.push(s).len() && v.push(s)[i].origin_view() == Some(o);
        if i < v.len() {
            assert(v[i] == v.push(s)[i]);
        }
    }
    assert forall|o: usize| (origins(v) + origin_set(s)).contains(o) implies origins(v.push(s)).contains(o) by {
        if origins(v).contains(o) {
            let i = choose|i: int| 0 <= i < v.len() && v[i].origin_view() == Some(o);
            assert(v.push(s)[i] == v[i]);
        } else {
            assert(v.push(s)[v.len() as int] == s);
        }
    }
    assert(origins(v.push(s)) =~= origins(v) + origin_set(s));
}

/// A copy of `v`, each string altered to agree with `pivot` one position
/// further.
fn alter_all(v: &Vec<AlteredString>, pivot: &AlteredString) -> (r: Vec<AlteredString>)
    requires
        all_wf(v@),
    ensures
        r.len() == v.len(),
        all_wf(r@),
        origins(r@) == origins(v@),
        texts(r@) == texts(v@).map(|t: Seq<u8>| alter_text(t, pivot.text())),
{
    let mut r: Vec<AlteredString> = Vec::new();
    let mut i: usize = 0;
    while i < v.len()
        invariant
            all_wf(v@),
            i <= v.len(),
            r.len() == i,
            all_wf(r@),
            forall|j: int| 0 <= j < i ==> #[trigger] r@[j].origin_view() == v@[j].origin_view(),
            forall|j: int| 0 <= j < i ==> #[trigger] r@[j].text() == alter_text(v@[j].text(), pivot.text()),
        decreases v.len() - i,
    {
        let a = pivot_alter(&v[i], pivot);
        r.push(a);
        i = i + 1;
    }
    let ghost f = |t: Seq<u8>| alter_text(t, pivot.text());
    assert forall|t: Seq<u8>| texts(r@).contains(t) <==> texts(v@).map(f).contains(t) by {
        if texts(r@).contains(t) {
            let j = choose|j: int| 0 <= j < r@.len() && r@[j].text() == t;
            assert(r@[j].text() == alter_text(v@[j].text(), pivot.text()));
            assert(texts(v@).contains(v@[j].text()));
        }
        if texts(v@).map(f).contains(t) {
            let u = choose|u: Seq<u8>| texts(v@).contains(u) && f(u) == t;
            let j = choose|j: int| 0 <= j < v@.len() && v@[j].text() == u;
            assert(r@[j].text() == alter_text(v@[j].text(), pivot.text()));
        }
    }
    assert(texts(r@) =~= texts(v@).map(f));
    assert forall|o: usize| origins(r@).contains(o) <==> origins(v@).contains(o) by {
        if origins(r@).contains(o) {
            let j = choose|j: int| 0 <= j < r@.len() && r@[j].origin_view() == Some(o);
            assert(v@[j].origin_view() == Some(o));
        }
        if origins(v@).contains(o) {
            let j = choose|j: int| 0 <= j < v@.len() && v@[j].origin_view() == Some(o);
            assert(r@[j].origin_view() == Some(o));
        }
    }
    assert(origins(r@) =~= origins(v@));
    r
}

/// The bytes of `t` as symbols.
pub open spec fn widen(t: Seq<u8>) -> Seq<u32> {
    t.map_values(|b: u8| b as u32)
}

proof fn lemma_widen_lex(a: Seq<u8>, b: Seq<u8>)
    ensures
        lex_lt(widen(a), widen(b)) == lex_less(a, b),
    decreases a.len(),
{
    if a.len() > 0 && b.len() > 0 && a[0] == b[0] {
        lemma_widen_lex(a.drop_first(), b.drop_first());
        assert(widen(a).drop_first() =~= widen(a.drop_first()));
        assert(widen(b).drop_first() =~= widen(b.drop_first()));
    }
}

/// The common prefix lengths with the pivot text `p` of the strings at the
/// sorted positions of `ord` other than `pi`, in that order.
pub open spec fn other_lcps(v: Seq<AlteredString>, ord: Seq<usize>, pi: int, p: Seq<u8>) -> Seq<usize> {
    Seq::new((v.len() - 1) as nat, |x: int| lcp_len(v[ord[if x < pi { x } else { x + 1 }] as int].text(), p) as usize)
}

/// `ord` lists every position of `v` once, in an order in which no string
/// sorts before an earlier one.
pub open spec fn sorted_arrangement(v: Seq<AlteredString>, ord: Seq<usize>) -> bool {
    &&& ord.len() == v.len()
    &&& forall|q: int| 0 <= q < ord.len() ==> #[trigger] ord[q] < v.len()
    &&& forall|i: usize| i < v.len() ==> ord.contains(i)
    &&& forall|p: int, q: int| #![trigger ord[p], ord[q]] 0 <= p < q < ord.len()
        ==> !lex_less(v[ord[q] as int].text(), v[ord[p] as int].text())
}

/// The positions of `v` sorted by bytes, equal strings in input order.
fn sorted_order(v: &Vec<AlteredString>) -> (order: Vec<usize>)
    ensures
        order.len() == v.len(),
        forall|q: int| 0 <= q < order.len() ==> #[trigger] order[q] < v.len(),
        forall|i: usize| i < v.len() ==> order@.contains(i),
        sorted_arrangement(v@, order@),
{
    let mut keys: Vec<Vec<u32>> = Vec::new();
    let mut zeros: Vec<u16> = Vec::new();
    let mut i: usize = 0;
    while i < v.len()
        invariant
            i <= v.len(),
            keys.len() == i,
            zeros.len() == i,
            forall|x: int| 0 <= x < i ==> #[trigger] keys@[x]@ == widen(v@[x].text()),
        decreases v.len() - i,
    {
        let b = v[i].as_bytes();
        let mut key: Vec<u32> = Vec::new();
        let mut j: usize = 0;
        while j < b.len()
            invariant
                j <= b.len(),
                key@ == widen(b@.take(j as int)),
            decreases b.len() - j,
        {
            proof {
                assert(widen(b@.take(j + 1)) =~= widen(b@.take(j as int)).push(b@[j as int] as u32));
            }
            key.push(b[j] as u32);
            j = j + 1;
        }
        proof {
            assert(b@.take(b.len() as int) =~= b@);
        }
        keys.push(key);
        zeros.push(0);
        i = i + 1;
    }
    let order = sort_entries(&keys, &zeros, 0, v.len());
    proof {
        let kv = keys.deep_view();
        assert forall|p: int, q: int| #![trigger order@[p], order@[q]] 0 <= p < q < order.len()
            implies !lex_less(v@[order@[q] as int].text(), v@[order@[p] as int].text()) by {
            let (x, y) = (order[p] as int, order[q] as int);
            assert(entry_lt(kv, zeros@, x, y));
            assert(kv[x] == widen(v@[x].text()));
            assert(kv[y] == widen(v@[y].text()));
            lemma_widen_lex(v@[y].text(), v@[x].text());
            lemma_lex_asymmetric(kv[x], kv[y]);
            lemma_lex_irreflexive(kv[x]);
        }
    }
    order
}

/// `m` is the value of rank `vals.len() / 2` among `vals` (0 for none).
pub open spec fn median_of(vals: Seq<usize>, m: usize) -> bool {
    if vals.len() == 0 {
        m == 0
    } else {
        exists|ord: Seq<usize>| {
            &&& ord.len() == vals.len()
            &&& forall|q: int| 0 <= q < ord.len() ==> #[trigger] ord[q] < vals.len()
            &&& forall|i: usize| i < vals.len() ==> ord.contains(i)
            &&& forall|p: int, q: int| #![trigger ord[p], ord[q]] 0 <= p < q < ord.len()
                ==> vals[ord[p] as int] <= vals[ord[q] as int]
            &&& m == vals[ord[(vals.len() / 2) as int] as int]
        }
    }
}

proof fn lemma_split_key(x: u64, y: u64)
    ensures
        lex_lt(seq![(x / 0x1_0000_0000) as u32, (x % 0x1_0000_0000) as u32],
            seq![(y / 0x1_0000_0000) as u32, (y % 0x1_0000_0000) as u32]) ==> x < y,
        seq![(x / 0x1_0000_0000) as u32, (x % 0x1_0000_0000) as u32]
            == seq![(y / 0x1_0000_0000) as u32, (y % 0x1_0000_0000) as u32] ==> x == y,
{
    let a = seq![(x / 0x1_0000_0000) as u32, (x % 0x1_0000_0000) as u32];
    let b = seq![(y / 0x1_0000_0000) as u32, (y % 0x1_0000_0000) as u32];
    assert(x == (x / 0x1_0000_0000) * 0x1_0000_0000 + x % 0x1_0000_0000) by (nonlinear_arith);
    assert(y == (y / 0x1_0000_0000) * 0x1_0000_0000 + y % 0x1_0000_0000) by (nonlinear_arith);
    assert(x / 0x1_0000_0000 < 0x1_0000_0000) by (nonlinear_arith);
    assert(y / 0x1_0000_0000 < 0x1_0000_0000) by (nonlinear_arith);
    if lex_lt(a, b) {
        if a[0] != b[0] {
            assert(x / 0x1_0000_0000 < y / 0x1_0000_0000);
            assert(x < y) by (nonlinear_arith)
                requires
                    x == (x / 0x1_0000_0000) * 0x1_0000_0000 + x % 0x1_0000_0000,
                    y == (y / 0x1_0000_0000) * 0x1_0000_0000 + y % 0x1_0000_0000,
                    x / 0x1_0000_0000 < y / 0x1_0000_0000,
                    x % 0x1_0000_0000 < 0x1_0000_0000;
        } else {
            assert(a.drop_first() =~= seq![(x % 0x1_0000_0000) as u32]);
            assert(b.drop_first() =~= seq![(y % 0x1_0000_0000) as u32]);
            assert(lex_lt(a.drop_first(), b.drop_first()));
            let (ax, by) = (a.drop_first(), b.drop_first());
            assert(ax[0] != by[0]) by {
                if ax[0] == by[0] {
                    assert(ax.drop_first() =~= Seq::<u32>::empty());
                    assert(by.drop_first() =~= Seq::<u32>::empty());
                    assert(!lex_lt(ax.drop_first(), by.drop_first()));
                    assert(ax.len() == 1 && by.len() == 1);
                    assert(lex_lt(ax, by) == lex_lt(ax.drop_first(), by.drop_first()));
                }
            }
            assert((x % 0x1_0000_0000) as u32 == x % 0x1_0000_0000);
            assert((y % 0x1_0000_0000) as u32 == y % 0x1_0000_0000);
            assert(x % 0x1_0000_0000 < y % 0x1_0000_0000);
            assert((x / 0x1_0000_0000) as u32 == x / 0x1_0000_0000);
            assert((y / 0x1_0000_0000) as u32 == y / 0x1_0000_0000);
            assert(x < y) by (nonlinear_arith)
                requires
                    x == (x / 0x1_0000_0000) * 0x1_0000_0000 + x % 0x1_0000_0000,
                    y == (y / 0x1_0000_0000) * 0x1_0000_0000 + y % 0x1_0000_0000,
                    x / 0x1_0000_0000 == y / 0x1_0000_0000,
                    x % 0x1_0000_0000 < y % 0x1_0000_0000;
        }
    }
    if a == b {
        assert(a[0] == b[0] && a[1] == b[1]);
    }
}

/// The value of rank `vals.len() / 2` among `vals` (0 for none).
fn median(vals: &Vec<usize>) -> (m: usize)
    ensures
        median_of(vals@, m),
{
    if vals.len() == 0 {
        return 0;
    }
    let mut keys: Vec<Vec<u32>> = Vec::new();
    let mut zeros: Vec<u16> = Vec::new();
    let mut i: usize = 0;
    while i < vals.len()
        invariant
            i <= vals.len(),
            keys.len() == i,
            zeros.len() == i,
            forall|z: int| 0 <= z < i ==> #[trigger] keys@[z]@ == seq![((vals@[z] as u64) / 0x1_0000_0000) as u32,
                ((vals@[z] as u64) % 0x1_0000_0000) as u32],
        decreases vals.len() - i,
    {
        let x = vals[i] as u64;
        let mut key: Vec<u32> = Vec::new();
        key.push((x / 0x1_0000_0000) as u32);
        key.push((x % 0x1_0000_0000) as u32);
        keys.push(key);
        zeros.push(0);
        i = i + 1;
    }
    let order = sort_entries(&keys, &zeros, 0, vals.len());
    proof {
        let kv = keys.deep_view();
        assert forall|p: int, q: int| #![trigger order@[p], order@[q]] 0 <= p < q < order.len()
            implies vals@[order@[p] as int] <= vals@[order@[q] as int] by {
            let (x, y) = (order@[p] as int, order@[q] as int);
            assert(entry_lt(kv, zeros@, x, y));
            assert(kv[x] == keys@[x]@);
            assert(kv[y] == keys@[y]@);
            lemma_split_key(vals@[x] as u64, vals@[y] as u64);
        }
        assert(forall|q: int| 0 <= q < order.len() ==> #[trigger] order@[q] < vals.len());
    }
    vals[order[vals.len() / 2]]
}

/// The strings at the sorted positions other than `pivot_idx`, split by
/// their common prefix length with the pivot against `m`, then by order.
fn partition(
    v: &Vec<AlteredString>,
    order: &Vec<usize>,
    pivot_idx: usize,
    pivot: &AlteredString,
    lcps: &Vec<usize>,
    m: usize,
) -> (r: (Vec<AlteredString>, Vec<AlteredString>, Vec<AlteredString>, Vec<AlteredString>))
    requires
        all_wf(v@),
        order.len() == v.len(),
        lcps.len() == v.len(),
        forall|q: int| 0 <= q < order.len() ==> #[trigger] order[q] < v.len(),
        pivot_idx < v.len(),
        forall|q: int| 0 <= q < order.len() ==> #[trigger] lcps[q] == lcp_len(v@[order[q] as int].text(), pivot.text()),
    ensures
        all_wf(r.0@) && all_wf(r.1@) && all_wf(r.2@) && all_wf(r.3@),
        texts(r.0@) + texts(r.1@) + texts(r.2@) + texts(r.3@) == rest_texts(v@, order@, pivot_idx as int, v.len() as int),
        forall|t: Seq<u8>| #[trigger] texts(r.0@).contains(t) ==> lcp_len(t, pivot.text()) < m,
        forall|t: Seq<u8>| #[trigger] texts(r.1@).contains(t) ==> lcp_len(t, pivot.text()) > m,
        forall|t: Seq<u8>| #[trigger] texts(r.2@).contains(t) ==> lcp_len(t, pivot.text()) == m && lex_less(t, pivot.text()),
        forall|t: Seq<u8>| #[trigger] texts(r.3@).contains(t) ==> lcp_len(t, pivot.text()) == m && !lex_less(t, pivot.text()),
        r.0.len() + r.1.len() + r.2.len() + r.3.len() == v.len() - 1,
        origins(r.0@) + origins(r.1@) + origins(r.2@) + origins(r.3@) == rest_origins(v@, order@, pivot_idx as int, v.len() as int),
{
    let mut lm: Vec<AlteredString> = Vec::new();
    let mut gm: Vec<AlteredString> = Vec::new();
    let mut ll: Vec<AlteredString> = Vec::new();
    let mut gl: Vec<AlteredString> = Vec::new();
    let n = v.len();
    let mut p: usize = 0;
    assert(origins(lm@) + origins(gm@) + origins(ll@) + origins(gl@) =~= rest_origins(v@, order@, pivot_idx as int, 0));
    while p < n
        invariant
            all_wf(v@),
            n == v.len(),
            order.len() == n,
            lcps.len() == n,
            forall|q: int| 0 <= q < order.len() ==> #[trigger] order[q] < v.len(),
            pivot_idx < n,
            p <= n,
            all_wf(lm@) && all_wf(gm@) && all_wf(ll@) && all_wf(gl@),
            lm.len() + gm.len() + ll.len() + gl.len() == if p > pivot_idx { p - 1 } else { p as int },
            origins(lm@) + origins(gm@) + origins(ll@) + origins(gl@) == rest_origins(v@, order@, pivot_idx as int, p as int),
            texts(lm@) + texts(gm@) + texts(ll@) + texts(gl@) == rest_texts(v@, order@, pivot_idx as int, p as int),
            forall|q: int| 0 <= q < order.len() ==> #[trigger] lcps[q] == lcp_len(v@[order[q] as int].text(), pivot.text()),
            forall|j: int| 0 <= j < lm.len() ==> lcp_len(#[trigger] lm@[j].text(), pivot.text()) < m,
            forall|j: int| 0 <= j < gm.len() ==> lcp_len(#[trigger] gm@[j].text(), pivot.text()) > m,
            forall|j: int| 0 <= j < ll.len() ==> lcp_len(#[trigger] ll@[j].text(), pivot.text()) == m
                && lex_less(ll@[j].text(), pivot.text()),
            forall|j: int| 0 <= j < gl.len() ==> lcp_len(#[trigger] gl@[j].text(), pivot.text()) == m
                && !lex_less(gl@[j].text(), pivot.text()),
        decreases n - p,
    {
        let ghost before = origins(lm@) + origins(gm@) + origins(ll@) + origins(gl@);
        let ghost tbefore = texts(lm@) + texts(gm@) + texts(ll@) + texts(gl@);
        let ghost (lm0, gm0, ll0, gl0) = (lm@, gm@, ll@, gl@);
        if p != pivot_idx {
            let s = v[order[p]].with_alteration_none();
            let l = lcps[p];
            let ghost os = origin_set(s);
            proof {
                lemma_origins_push(lm@, s);
                lemma_origins_push(gm@, s);
                lemma_origins_push(ll@, s);
                lemma_origins_push(gl@, s);
            }
            proof {
                assert(s.text() == v@[order@[p as int] as int].text());
                assert(l == lcp_len(s.text(), pivot.text()));
            }
            if l < m {
                lm.push(s);
                proof { assert forall|j: int| 0 <= j < lm.len() implies lcp_len(#[trigger] lm@[j].text(), pivot.text()) < m by {
                    if j < lm0.len() { assert(lm@[j] == lm0[j]); } } }
            } else if l > m {
                gm.push(s);
                proof { assert forall|j: int| 0 <= j < gm.len() implies lcp_len(#[trigger] gm@[j].text(), pivot.text()) > m by {
                    if j < gm0.len() { assert(gm@[j] == gm0[j]); } } }
            } else if text_less(&s, pivot) {
                ll.push(s);
                proof { assert forall|j: int| 0 <= j < ll.len() implies lcp_len(#[trigger] ll@[j].text(), pivot.text()) == m
                    && lex_less(ll@[j].text(), pivot.text()) by {
                    if j < ll0.len() { assert(ll@[j] == ll0[j]); } } }
            } else {
                gl.push(s);
                proof { assert forall|j: int| 0 <= j < gl.len() implies lcp_len(#[trigger] gl@[j].text(), pivot.text()) == m
                    && !lex_less(gl@[j].text(), pivot.text()) by {
                    if j < gl0.len() { assert(gl@[j] == gl0[j]); } } }
            }
            proof {
                let ts = set![s.text()];
                lemma_texts_push(lm0, s);
                lemma_texts_push(gm0, s);
                lemma_texts_push(ll0, s);
                lemma_texts_push(gl0, s);
                assert(texts(lm@) + texts(gm@) + texts(ll@) + texts(gl@) =~= tbefore + ts);
                assert(rest_texts(v@, order@, pivot_idx as int, p + 1) =~= rest_texts(v@, order@, pivot_idx as int, p as int) + ts) by {
                    assert forall|t: Seq<u8>| rest_texts(v@, order@, pivot_idx as int, p + 1).contains(t)
                        implies (rest_texts(v@, order@, pivot_idx as int, p as int) + ts).contains(t) by {
                        let q = choose|q: int| 0 <= q < p + 1 && q != pivot_idx && v@[order@[q] as int].text() == t;
                        if q == p {
                            assert(ts.contains(t));
                        }
                    }
                }
                assert(origins(lm@) + origins(gm@) + origins(ll@) + origins(gl@) =~= before + os);
                assert(rest_origins(v@, order@, pivot_idx as int, p + 1) =~= rest_origins(v@, order@, pivot_idx as int, p as int) + os) by {
                    assert forall|o: usize| rest_origins(v@, order@, pivot_idx as int, p + 1).contains(o)
                        implies (rest_origins(v@, order@, pivot_idx as int, p as int) + os).contains(o) by {
                        let q = choose|q: int| 0 <= q < p + 1 && q != pivot_idx && v@[order@[q] as int].origin_view() == Some(o);
                        if q == p {
                            assert(os.contains(o));
                        }
                    }
                }
            }
        } else {
            assert(rest_origins(v@, order@, pivot_idx as int, p + 1) =~= rest_origins(v@, order@, pivot_idx as int, p as int));
            assert(rest_texts(v@, order@, pivot_idx as int, p + 1) =~= rest_texts(v@, order@, pivot_idx as int, p as int));
        }
        p = p + 1;
    }
    proof {
        assert forall|t: Seq<u8>| #[trigger] texts(lm@).contains(t) implies lcp_len(t, pivot.text()) < m by {
            let j = choose|j: int| 0 <= j < lm@.len() && lm@[j].text() == t;
            assert(lcp_len(lm@[j].text(), pivot.text()) < m);
        }
        assert forall|t: Seq<u8>| #[trigger] texts(gm@).contains(t) implies lcp_len(t, pivot.text()) > m by {
            let j = choose|j: int| 0 <= j < gm@.len() && gm@[j].text() == t;
            assert(lcp_len(gm@[j].text(), pivot.text()) > m);
        }
        assert forall|t: Seq<u8>| #[trigger] texts(ll@).contains(t) implies lcp_len(t, pivot.text()) == m
            && lex_less(t, pivot.text()) by {
            let j = choose|j: int| 0 <= j < ll@.len() && ll@[j].text() == t;
            assert(lcp_len(ll@[j].text(), pivot.text()) == m);
        }
        assert forall|t: Seq<u8>| #[trigger] texts(gl@).contains(t) implies lcp_len(t, pivot.text()) == m
            && !lex_less(t, pivot.text()) by {
            let j = choose|j: int| 0 <= j < gl@.len() && gl@[j].text() == t;
            assert(lcp_len(gl@[j].text(), pivot.text()) == m);
        }
    }
    (lm, gm, ll, gl)
}

/// The child built from `v` (none when `v` is empty).
fn build_child(v: Vec<AlteredString>, k: usize, leaf_size: usize) -> (r: Option<Box<CglNode>>)
    requires
        all_wf(v@),
    ensures
        opt_ok(r),
        opt_kept(r) == origins(v@),
        opt_all(r) == origins(v@),
        opt_shaped(r, k as nat, leaf_size as nat),
        opt_kept_texts(r) == texts(v@),
    decreases v.len(), 1nat,
{
    if v.len() == 0 {
        assert(origins(v@) =~= Set::empty());
        assert(texts(v@) =~= Set::empty());
        None
    } else {
        match build(v, k, leaf_size) {
            Some(n) => Some(Box::new(n)),
            None => None,
        }
    }
}

/// Builds the tree of `strings` with up to `k` alterations along a path
/// and leaves of at most `leaf_size` strings. Every string is kept: the
/// pivots and leaf strings reachable without alterations hold all the
/// origins, and no other origin is stored.
pub fn build(strings: Vec<AlteredString>, k: usize, leaf_size: usize) -> (r: Option<CglNode>)
    requires
        all_wf(strings@),
    ensures
        r is None <==> strings.len() == 0,
        r matches Some(n) ==> n.ok() && n.kept() == origins(strings@) && n.all() == origins(strings@),
        r matches Some(n) ==> (n.leaf_spec() <==> strings.len() <= leaf_size),
        r matches Some(n) ==> n.shaped(k as nat, leaf_size as nat),
        r matches Some(n) ==> (n.leaf_spec() ==> n.count() == 1),
        r matches Some(n) ==> n.kept_texts() == texts(strings@),
        r matches Some(n) ==> (n.leaf_spec() ==> n.pivot_text() == strings@[0].text()),
        r matches Some(n) ==> (!n.leaf_spec() ==> exists|ord: Seq<usize>, m: usize| #[trigger] sorted_arrangement(strings@, ord)
            && n.pivot_text() == strings@[ord[(strings.len() / 2) as int] as int].text()
            && median_of(other_lcps(strings@, ord, (strings.len() / 2) as int, n.pivot_text()), m)
            && #[trigger] n.split_at(m as nat)),
    decreases strings.len(), 0nat,
{
    if strings.len() == 0 {
        return None;
    }
    if strings.len() <= leaf_size {
        let pivot = strings[0].with_alteration_none();
        let node = CglNode {
            pivot,
            is_leaf: true,
            suffixes: strings,
            less_m: None,
            greater_m: None,
            less_lex: None,
            greater_lex: None,
            alt_less_m: None,
            alt_greater_m: None,
            alt_less_lex: None,
            alt_greater_lex: None,
        };
        proof {
            assert(origin_set(node.pivot) + origins(node.suffixes@) =~= origins(node.suffixes@)) by {
                assert forall|o: usize| origin_set(node.pivot).contains(o) implies origins(node.suffixes@).contains(o) by {
                    assert(node.suffixes@[0].origin_view() == Some(o));
                }
            }
            assert(opt_all(node.less_m) =~= Set::empty());
            assert(node.count() == 1);
            assert(texts(node.suffixes@).contains(node.suffixes@[0].text()));
            assert(node.kept_texts() =~= texts(strings@));
        }
        return Some(node);
    }
    let n = strings.len();
    let order = sorted_order(&strings);
    let pivot_idx = n / 2;
    let pivot = strings[order[pivot_idx]].with_alteration_none();
    let mut lcps: Vec<usize> = Vec::new();
    let mut rest_lcps: Vec<usize> = Vec::new();
    let mut p: usize = 0;
    while p < n
        invariant
            n == strings.len(),
            order.len() == n,
            forall|q: int| 0 <= q < order.len() ==> #[trigger] order[q] < n,
            p <= n,
            lcps.len() == p,
            forall|q: int| 0 <= q < p ==> #[trigger] lcps[q] == lcp_len(strings@[order[q] as int].text(), pivot.text()),
            pivot_idx < n,
            rest_lcps.len() == if p > pivot_idx { p - 1 } else { p as int },
            forall|x: int| 0 <= x < rest_lcps.len() ==> #[trigger] rest_lcps[x] == lcps[if x < pivot_idx { x } else { x + 1 }],
        decreases n - p,
    {
        let l = lcp(&strings[order[p]], &pivot);
        proof {
            lemma_common_prefix_unique(strings@[order@[p as int] as int].text(), pivot.text(), l as nat);
        }
        lcps.push(l);
        if p != pivot_idx {
            rest_lcps.push(l);
        }
        p = p + 1;
    }
    proof {
        assert(rest_lcps@ =~= other_lcps(strings@, order@, pivot_idx as int, pivot.text()));
    }
    let m = median(&rest_lcps);
    let (s_less_m, s_greater_m, s_less_lex, s_greater_lex) = partition(&strings, &order, pivot_idx, &pivot, &lcps, m);
    let ghost ptext = pivot.text();
    let ghost f = |t: Seq<u8>| alter_text(t, ptext);
    let (alt_less_m, alt_greater_m, alt_less_lex, alt_greater_lex) = if k > 0 {
        (
            build_child(alter_all(&s_less_m, &pivot), k - 1, leaf_size),
            build_child(alter_all(&s_greater_m, &pivot), k - 1, leaf_size),
            build_child(alter_all(&s_less_lex, &pivot), k - 1, leaf_size),
            build_child(alter_all(&s_greater_lex, &pivot), k - 1, leaf_size),
        )
    } else {
        (None, None, None, None)
    };
    proof {
        if k > 0 {
            assert(opt_kept_texts(alt_less_m) == texts(s_less_m@).map(f));
            assert(opt_kept_texts(alt_greater_m) == texts(s_greater_m@).map(f));
            assert(opt_kept_texts(alt_less_lex) == texts(s_less_lex@).map(f));
            assert(opt_kept_texts(alt_greater_lex) == texts(s_greater_lex@).map(f));
        }
    }
    let ghost rest_t = texts(s_less_m@) + texts(s_greater_m@) + texts(s_less_lex@) + texts(s_greater_lex@);
    let ghost rest = origins(s_less_m@) + origins(s_greater_m@) + origins(s_less_lex@) + origins(s_greater_lex@);
    let node = CglNode {
        pivot,
        is_leaf: false,
        suffixes: Vec::new(),
        less_m: build_child(s_less_m, k, leaf_size),
        greater_m: build_child(s_greater_m, k, leaf_size),
        less_lex: build_child(s_less_lex, k, leaf_size),
        greater_lex: build_child(s_greater_lex, k, leaf_size),
        alt_less_m,
        alt_greater_m,
        alt_less_lex,
        alt_greater_lex,
    };
    proof {
        lemma_all_positions(strings@, order@, pivot_idx as int);
        assert(origins(node.suffixes@) =~= Set::empty());
        assert(node.kept() =~= origin_set(node.pivot) + rest);
        assert(node.all() =~= origin_set(node.pivot) + rest);
        lemma_all_texts(strings@, order@, pivot_idx as int);
        assert(node.kept_texts() =~= set![node.pivot.text()] + rest_t);
        assert(node.split_at(m as nat));
        assert(sorted_arrangement(strings@, order@));
        assert(node.pivot_text() == pivot.text());
        assert(median_of(other_lcps(strings@, order@, (strings.len() / 2) as int, node.pivot_text()), m));
        assert(node.shaped(k as nat, leaf_size as nat));
    }
    Some(node)
}

/// The pivot's text and the others' make up every text.
proof fn lemma_all_texts(v: Seq<AlteredString>, order: Seq<usize>, pivot: int)
    requires
        order.len() == v.len(),
        v.len() <= usize::MAX,
        0 <= pivot < v.len(),
        forall|q: int| 0 <= q < order.len() ==> #[trigger] order[q] < v.len(),
        forall|i: usize| i < v.len() ==> order.contains(i),
    ensures
        set![v[order[pivot] as int].text()] + rest_texts(v, order, pivot, v.len() as int) == texts(v),
{
    let lhs = set![v[order[pivot] as int].text()] + rest_texts(v, order, pivot, v.len() as int);
    assert forall|t: Seq<u8>| lhs.contains(t) implies texts(v).contains(t) by {
        if t == v[order[pivot] as int].text() {
            assert(v[order[pivot] as int].text() == t);
        } else {
            let q = choose|q: int| 0 <= q < v.len() && q != pivot && v[order[q] as int].text() == t;
            assert(v[order[q] as int].text() == t);
        }
    }
    assert forall|t: Seq<u8>| texts(v).contains(t) implies lhs.contains(t) by {
        let i = choose|i: int| 0 <= i < v.len() && v[i].text() == t;
        let iu = i as usize;
        assert(iu as int == i);
        assert(order.contains(iu));
        let q = choose|q: int| 0 <= q < order.len() && order[q] == iu;
        assert(v[order[q] as int].text() == t);
        if q != pivot {
            assert(rest_texts(v, order, pivot, v.len() as int).contains(t));
        }
    }
    assert(lhs =~= texts(v));
}

/// The pivot's origin and the others' make up every origin.
proof fn lemma_all_positions(v: Seq<AlteredString>, order: Seq<usize>, pivot: int)
    requires
        order.len() == v.len(),
        v.len() <= usize::MAX,
        0 <= pivot < v.len(),
        forall|q: int| 0 <= q < order.len() ==> #[trigger] order[q] < v.len(),
        forall|i: usize| i < v.len() ==> order.contains(i),
    ensures
        origin_set(v[order[pivot] as int]) + rest_origins(v, order, pivot, v.len() as int) == origins(v),
{
    let lhs = origin_set(v[order[pivot] as int]) + rest_origins(v, order, pivot, v.len() as int);
    assert forall|o: usize| lhs.contains(o) implies origins(v).contains(o) by {
        if origin_set(v[order[pivot] as int]).contains(o) {
            assert(v[order[pivot] as int].origin_view() == Some(o));
        } else {
            let q = choose|q: int| 0 <= q < v.len() && q != pivot && v[order[q] as int].origin_view() == Some(o);
            assert(v[order[q] as int].origin_view() == Some(o));
        }
    }
    assert forall|o: usize| origins(v).contains(o) implies lhs.contains(o) by {
        let i = choose|i: int| 0 <= i < v.len() && v[i].origin_view() == Some(o);
        let iu = i as usize;
        assert(iu as int == i);
        assert(order.contains(iu));
        let q = choose|q: int| 0 <= q < order.len() && order[q] == iu;
        assert(v[order[q] as int].origin_view() == Some(o));
        if q == pivot {
            assert(origin_set(v[order[pivot] as int]).contains(o));
        } else {
            assert(rest_origins(v, order, pivot, v.len() as int).contains(o));
        }
    }
    assert(lhs =~= origins(v));
}

// ---------------------------------------------------------------------------
// Counting and labelling.

/// The child at `c`, as a reference.
fn child(c: &Option<Box<CglNode>>) -> (r: Option<&CglNode>)
    ensures
        tree_size(r) == opt_count(*c),
        opt_all(*c) == match r { Some(n) => n.all(), None => Set::<usize>::empty() },
        opt_ok(*c) == match r { Some(n) => n.ok(), None => true },
        r matches Some(n) ==> c == Some(Box::new(*n)),
        r is None ==> c is None,
{
    match c {
        Some(b) => Some(&**b),
        None => None,
    }
}

/// `x` capped at `usize::MAX`.
pub open spec fn capped(x: nat) -> nat {
    if x <= usize::MAX { x } else { usize::MAX as nat }
}

/// `acc + x` capped at `usize::MAX`, where `acc` and `x` are capped counts.
fn add_capped(acc: usize, x: usize, Ghost(a): Ghost<nat>, Ghost(b): Ghost<nat>) -> (r: usize)
    requires
        acc == capped(a),
        x == capped(b),
    ensures
        r == capped(a + b),
{
    acc.saturating_add(x)
}

/// The number of nodes of the tree at `node`, or `usize::MAX` if it had
/// more.
pub fn node_count(node: Option<&CglNode>) -> (r: usize)
    ensures
        r == capped(tree_size(node)),
    decreases tree_size(node),
{
    match node {
        None => 0,
        Some(n) => {
            let ghost c1 = opt_count(n.less_m);
            let ghost c2 = opt_count(n.greater_m);
            let ghost c3 = opt_count(n.less_lex);
            let ghost c4 = opt_count(n.greater_lex);
            let ghost c5 = opt_count(n.alt_less_m);
            let ghost c6 = opt_count(n.alt_greater_m);
            let ghost c7 = opt_count(n.alt_less_lex);
            let ghost c8 = opt_count(n.alt_greater_lex);
            let mut t: usize = 1;
            t = add_capped(t, node_count(child(&n.less_m)), Ghost(1nat), Ghost(c1));
            t = add_capped(t, node_count(child(&n.greater_m)), Ghost(1 + c1), Ghost(c2));
            t = add_capped(t, node_count(child(&n.less_lex)), Ghost(1 + c1 + c2), Ghost(c3));
            t = add_capped(t, node_count(child(&n.greater_lex)), Ghost(1 + c1 + c2 + c3), Ghost(c4));
            t = add_capped(t, node_count(child(&n.alt_less_m)), Ghost(1 + c1 + c2 + c3 + c4), Ghost(c5));
            t = add_capped(t, node_count(child(&n.alt_greater_m)), Ghost(1 + c1 + c2 + c3 + c4 + c5), Ghost(c6));
            t = add_capped(t, node_count(child(&n.alt_less_lex)), Ghost(1 + c1 + c2 + c3 + c4 + c5 + c6), Ghost(c7));
            t = add_capped(t, node_count(child(&n.alt_greater_lex)), Ghost(1 + c1 + c2 + c3 + c4 + c5 + c6 + c7),
                Ghost(c8));
            t
        },
    }
}

/// Labels the strings of `v` with `label`, in order.
pub open spec fn label_all(map: Map<usize, usize>, v: Seq<AlteredString>, label: usize) -> Map<usize, usize>
    decreases v.len(),
{
    if v.len() == 0 {
        map
    } else {
        let m = label_all(map, v.drop_last(), label);
        match v.last().origin_view() {
            Some(o) => m.insert(o, label),
            None => m,
        }
    }
}

spec fn opt_labels(c: Option<Box<CglNode>>, map: Map<usize, usize>, counter: nat) -> (Map<usize, usize>, nat)
    decreases c,
{
    match c {
        Some(b) => b.labels(map, counter),
        None => (map, counter),
    }
}

impl CglNode {
    /// The map from origin to leaf label after visiting this tree depth
    /// first (the unaltered children, then the altered ones), numbering the
    /// leaves from `counter` on; each leaf string's origin gets its leaf's
    /// label, a later leaf overriding an earlier one. Also returns the next
    /// label.
    pub closed spec fn labels(self, map: Map<usize, usize>, counter: nat) -> (Map<usize, usize>, nat)
        decreases self,
    {
        if self.is_leaf {
            (label_all(map, self.suffixes@, counter as usize), counter + 1)
        } else {
            let s1 = opt_labels(self.less_m, map, counter);
            let s2 = opt_labels(self.greater_m, s1.0, s1.1);
            let s3 = opt_labels(self.less_lex, s2.0, s2.1);
            let s4 = opt_labels(self.greater_lex, s3.0, s3.1);
            let s5 = opt_labels(self.alt_less_m, s4.0, s4.1);
            let s6 = opt_labels(self.alt_greater_m, s5.0, s5.1);
            let s7 = opt_labels(self.alt_less_lex, s6.0, s6.1);
            opt_labels(self.alt_greater_lex, s7.0, s7.1)
        }
    }
}

/// The leaf labels of the tree at `node` (see [`CglNode::labels`]).
pub open spec fn leaf_labels(node: Option<&CglNode>) -> Map<usize, usize> {
    match node {
        Some(n) => n.labels(Map::empty(), 0).0,
        None => Map::empty(),
    }
}

proof fn lemma_labels_counter(n: CglNode, map: Map<usize, usize>, counter: nat)
    ensures
        counter <= n.labels(map, counter).1 <= counter + n.count(),
    decreases n,
{
    if !n.is_leaf {
        let s1 = opt_labels(n.less_m, map, counter);
        lemma_opt_labels_counter(n.less_m, map, counter);
        let s2 = opt_labels(n.greater_m, s1.0, s1.1);
        lemma_opt_labels_counter(n.greater_m, s1.0, s1.1);
        let s3 = opt_labels(n.less_lex, s2.0, s2.1);
        lemma_opt_labels_counter(n.less_lex, s2.0, s2.1);
        let s4 = opt_labels(n.greater_lex, s3.0, s3.1);
        lemma_opt_labels_counter(n.greater_lex, s3.0, s3.1);
        let s5 = opt_labels(n.alt_less_m, s4.0, s4.1);
        lemma_opt_labels_counter(n.alt_less_m, s4.0, s4.1);
        let s6 = opt_labels(n.alt_greater_m, s5.0, s5.1);
        lemma_opt_labels_counter(n.alt_greater_m, s5.0, s5.1);
        let s7 = opt_labels(n.alt_less_lex, s6.0, s6.1);
        lemma_opt_labels_counter(n.alt_less_lex, s6.0, s6.1);
        lemma_opt_labels_counter(n.alt_greater_lex, s7.0, s7.1);
    }
}

proof fn lemma_opt_labels_counter(c: Option<Box<CglNode>>, map: Map<usize, usize>, counter: nat)
    ensures
        counter <= opt_labels(c, map, counter).1 <= counter + opt_count(c),
    decreases c,
{
    match c {
        Some(b) => lemma_labels_counter(*b, map, counter),
        None => {},
    }
}

/// Labels the origins of `v` with `label`.
fn insert_all(map: &mut std::collections::HashMap<usize, usize>, v: &Vec<AlteredString>, label: usize)
    ensures
        final(map)@ == label_all(old(map)@, v@, label),
{
    let ghost start = old(map)@;
    let mut i: usize = 0;
    assert(v@.take(0) =~= Seq::<AlteredString>::empty());
    while i < v.len()
        invariant
            i <= v.len(),
            map@ == label_all(start, v@.take(i as int), label),
        decreases v.len() - i,
    {
        assert(v@.take(i + 1).drop_last() =~= v@.take(i as int));
        match v[i].origin_value() {
            Some(o) => {
                map.insert(o, label);
            },
            None => {},
        }
        i = i + 1;
    }
    assert(v@.take(v.len() as int) =~= v@);
}

fn traverse(node: Option<&CglNode>, map: &mut std::collections::HashMap<usize, usize>, counter: &mut usize)
    requires
        *old(counter) + tree_size(node) <= usize::MAX,
    ensures
        match node {
            Some(n) => final(map)@ == n.labels(old(map)@, *old(counter) as nat).0
                && *final(counter) == n.labels(old(map)@, *old(counter) as nat).1,
            None => final(map)@ == old(map)@ && *final(counter) == *old(counter),
        },
        *final(counter) <= *old(counter) + tree_size(node),
    decreases tree_size(node), 0nat,
{
    let n = match node {
        Some(n) => n,
        None => {
            return;
        },
    };
    if n.is_leaf {
        let label = *counter;
        *counter = *counter + 1;
        insert_all(map, &n.suffixes, label);
        return;
    }
    traverse_child(&n.less_m, map, counter);
    traverse_child(&n.greater_m, map, counter);
    traverse_child(&n.less_lex, map, counter);
    traverse_child(&n.greater_lex, map, counter);
    traverse_child(&n.alt_less_m, map, counter);
    traverse_child(&n.alt_greater_m, map, counter);
    traverse_child(&n.alt_less_lex, map, counter);
    traverse_child(&n.alt_greater_lex, map, counter);
}

fn traverse_child(c: &Option<Box<CglNode>>, map: &mut std::collections::HashMap<usize, usize>, counter: &mut usize)
    requires
        *old(counter) + opt_count(*c) <= usize::MAX,
    ensures
        final(map)@ == opt_labels(*c, old(map)@, *old(counter) as nat).0,
        *final(counter) == opt_labels(*c, old(map)@, *old(counter) as nat).1,
        *final(counter) <= *old(counter) + opt_count(*c),
    decreases opt_count(*c), 1nat,
{
    proof {
        lemma_opt_labels_counter(*c, map@, *counter as nat);
    }
    match c {
        Some(b) => traverse(Some(&**b), map, counter),
        None => {},
    }
}

/// The map from each origin stored in a leaf to the label of its leaf,
/// leaves numbered from 0 depth first.
pub fn build_leaf_map(node: Option<&CglNode>) -> (r: std::collections::HashMap<usize, usize>)
    requires
        tree_size(node) <= usize::MAX,
    ensures
        r@ == leaf_labels(node),
{
    let mut map = std::collections::HashMap::new();
    let mut counter: usize = 0;
    traverse(node, &mut map, &mut counter);
    map
}

// ---------------------------------------------------------------------------
// Queries.

/// Which mismatches a query may spend its radius on: for lowercase ASCII
/// letters `a` and `b`, entry `(a - 'a') * 26 + (b - 'a')` of a table, or
/// every mismatch when there is no table.
pub struct PruneConfig {
    plausible: Option<Vec<bool>>,
}

/// Whether the mismatch of `a` against `b` may be spent under `table`.
pub open spec fn plausible_spec(table: Option<Seq<bool>>, a: u8, b: u8) -> bool {
    match table {
        None => true,
        Some(t) => if a < 97 || a > 122 || b < 97 || b > 122 { true } else { t[(a - 97) * 26 + (b - 97)] },
    }
}

impl PruneConfig {
    /// The table, if any.
    pub closed spec fn table(&self) -> Option<Seq<bool>> {
        match self.plausible {
            Some(t) => Some(t@),
            None => None,
        }
    }

    /// A table of 676 entries, if there is one.
    pub closed spec fn sized(&self) -> bool {
        match self.plausible {
            Some(t) => t.len() == 676,
            None => true,
        }
    }

    /// No pruning: every branch is visited.
    pub fn none() -> (c: Self)
        ensures
            c.table() is None,
            c.sized(),
    {
        PruneConfig { plausible: None }
    }

    /// Pruning by a table of 676 entries: the mismatch of letters `a` and
    /// `b` is spent only where entry `(a - 'a') * 26 + (b - 'a')` is true.
    pub fn from_table(plausible: Vec<bool>) -> (c: Self)
        requires
            plausible.len() == 676,
        ensures
            c.table() == Some(plausible@),
            c.sized(),
    {
        PruneConfig { plausible: Some(plausible) }
    }

    /// Whether the mismatch of `a` against `b` may be spent.
    fn is_plausible(&self, a: u8, b: u8) -> (r: bool)
        requires
            self.sized(),
        ensures
            r == plausible_spec(self.table(), a, b),
    {
        match &self.plausible {
            None => true,
            Some(t) => {
                if a < 97 || a > 122 || b < 97 || b > 122 {
                    true
                } else {
                    t[((a - 97) as usize) * 26 + ((b - 97) as usize)]
                }
            },
        }
    }
}

proof fn lemma_texts_push(v: Seq<AlteredString>, s: AlteredString)
    ensures
        texts(v.push(s)) == texts(v) + set![s.text()],
{
    assert forall|t: Seq<u8>| texts(v.push(s)).contains(t) <==> (texts(v) + set![s.text()]).contains(t) by {
        if texts(v.push(s)).contains(t) {
            let j = choose|j: int| 0 <= j < v.push(s).len() && v.push(s)[j].text() == t;
            if j < v.len() {
                assert(v[j] == v.push(s)[j]);
            }
        }
        if texts(v).contains(t) {
            let j = choose|j: int| 0 <= j < v.len() && v[j].text() == t;
            assert(v.push(s)[j] == v[j]);
        }
        if t == s.text() {
            assert(v.push(s)[v.len() as int] == s);
        }
    }
    assert(texts(v.push(s)) =~= texts(v) + set![s.text()]);
}

/// The origins stored in the tree at `node`.
pub open spec fn tree_origins(node: Option<&CglNode>) -> Set<usize> {
    match node {
        Some(n) => n.all(),
        None => Set::empty(),
    }
}

/// Mismatches of `a` and `b` over their common length.
pub open spec fn hd(a: Seq<u8>, b: Seq<u8>) -> nat {
    mismatches(a, b, if a.len() <= b.len() { a.len() as int } else { b.len() as int })
}

/// The first position from `i` on where `a` and `b` differ or one ends.
pub open spec fn first_diff(a: Seq<u8>, b: Seq<u8>, i: int) -> int
    decreases a.len() - i,
{
    if 0 <= i < a.len() && i < b.len() && a[i] == b[i] {
        first_diff(a, b, i + 1)
    } else {
        i
    }
}

/// The match of string `s` for query `q` at radius `r`: its origin at
/// distance [`hd`], when within `r` and `s` has an origin.
pub open spec fn match_of(s: AlteredString, q: Seq<u8>, r: nat) -> Seq<RawMatch> {
    match s.origin_view() {
        Some(o) => if hd(q, s.text()) <= r {
            seq![RawMatch { origin: o, distance: hd(q, s.text()) as usize }]
        } else {
            Seq::empty()
        },
        None => Seq::empty(),
    }
}

/// The matches of the first `j` strings of a leaf with pivot `pivot`, the
/// strings with the pivot's origin left out.
pub open spec fn leaf_matches(pivot: AlteredString, v: Seq<AlteredString>, q: Seq<u8>, r: nat, j: int) -> Seq<RawMatch>
    decreases j,
{
    if j <= 0 {
        Seq::empty()
    } else {
        leaf_matches(pivot, v, q, r, j - 1) + if pivot.origin_view() != v[j - 1].origin_view() {
            match_of(v[j - 1], q, r)
        } else {
            Seq::empty()
        }
    }
}

spec fn opt_matches(c: Option<Box<CglNode>>, q: Seq<u8>, r: nat, table: Option<Seq<bool>>) -> Seq<RawMatch>
    decreases c,
{
    match c {
        Some(b) => b.matches(q, r, table),
        None => Seq::empty(),
    }
}

impl CglNode {
    /// What a query for `q` at radius `r` under the plausibility `table`
    /// reports from the tree at this node, in order: the pivot; for a leaf
    /// its other strings; for an inner node the branches on the side of the
    /// pivot `q` sorts to at the full radius and, when the first mismatch
    /// with the pivot is plausible, the other branches at one less with
    /// `q` taking the pivot's byte there where the branch's strings agree
    /// with the pivot; a query that is a prefix of the pivot visits all
    /// unaltered branches at the full radius and all altered ones at one
    /// less.
    pub closed spec fn matches(self, q: Seq<u8>, r: nat, table: Option<Seq<bool>>) -> Seq<RawMatch>
        decreases self,
    {
        let pm = match_of(self.pivot, q, r);
        if self.is_leaf {
            pm + leaf_matches(self.pivot, self.suffixes@, q, r, self.suffixes@.len() as int)
        } else {
            let pb = self.pivot.text();
            let i = first_diff(q, pb, 0);
            let r1 = (r - 1) as nat;
            if i >= q.len() {
                let base = pm + opt_matches(self.less_m, q, r, table) + opt_matches(self.greater_m, q, r, table)
                    + opt_matches(self.less_lex, q, r, table) + opt_matches(self.greater_lex, q, r, table);
                if r > 0 {
                    base + opt_matches(self.alt_less_m, q, r1, table) + opt_matches(self.alt_greater_m, q, r1, table)
                        + opt_matches(self.alt_less_lex, q, r1, table) + opt_matches(self.alt_greater_lex, q, r1, table)
                } else {
                    base
                }
            } else {
                let original = q[i];
                let pivot_ch = if i < pb.len() { pb[i] } else { original };
                let plausible = plausible_spec(table, original, pivot_ch);
                let qa = q.update(i, pivot_ch);
                if r > 0 {
                    if lex_less(q, pb) {
                        pm + (opt_matches(self.less_m, q, r, table) + opt_matches(self.less_lex, q, r, table) + if plausible {
                            opt_matches(self.greater_lex, qa, r1, table) + opt_matches(self.greater_m, qa, r1, table)
                                + opt_matches(self.alt_less_m, q, r1, table) + opt_matches(self.alt_less_lex, qa, r1, table)
                                + opt_matches(self.alt_greater_lex, qa, r1, table)
                        } else {
                            Seq::empty()
                        })
                    } else {
                        pm + (opt_matches(self.greater_m, q, r, table) + opt_matches(self.greater_lex, q, r, table) + if plausible {
                            opt_matches(self.less_m, qa, r1, table) + opt_matches(self.alt_greater_m, q, r1, table)
                                + opt_matches(self.alt_greater_lex, q, r1, table) + opt_matches(self.alt_less_lex, qa, r1, table)
                        } else {
                            Seq::empty()
                        })
                    }
                } else if lex_less(q, pb) {
                    pm + opt_matches(self.less_m, q, 0, table) + opt_matches(self.less_lex, q, 0, table)
                } else {
                    pm + opt_matches(self.greater_m, q, 0, table) + opt_matches(self.greater_lex, q, 0, table)
                }
            }
        }
    }
}

/// What a query for `q` at radius `r` under `table` reports from the tree
/// at `node` (see [`CglNode::matches`]).
pub open spec fn tree_matches(node: Option<&CglNode>, q: Seq<u8>, r: nat, table: Option<Seq<bool>>) -> Seq<RawMatch> {
    match node {
        Some(n) => n.matches(q, r, table),
        None => Seq::empty(),
    }
}

/// `after` is `before` with matches appended, each at distance at most `r`
/// and with an origin in `s`.
pub open spec fn appended(before: Seq<RawMatch>, after: Seq<RawMatch>, s: Set<usize>, r: usize) -> bool {
    &&& before.len() <= after.len()
    &&& forall|i: int| 0 <= i < before.len() ==> after[i] == before[i]
    &&& forall|i: int| before.len() <= i < after.len() ==> #[trigger] after[i].distance <= r && s.contains(after[i].origin)
}

proof fn lemma_appended_trans(a: Seq<RawMatch>, b: Seq<RawMatch>, c: Seq<RawMatch>, s1: Set<usize>, s2: Set<usize>,
    s: Set<usize>, r1: usize, r2: usize, r: usize)
    requires
        appended(a, b, s1, r1),
        appended(b, c, s2, r2),
        s1.subset_of(s),
        s2.subset_of(s),
        r1 <= r,
        r2 <= r,
    ensures
        appended(a, c, s, r),
{
    assert forall|i: int| a.len() <= i < c.len() implies #[trigger] c[i].distance <= r && s.contains(c[i].origin) by {
        if i < b.len() {
            assert(c[i] == b[i]);
            assert(b[i].distance <= r1);
            assert(s1.contains(b[i].origin));
        } else {
            assert(c[i].distance <= r2);
            assert(s2.contains(c[i].origin));
        }
    }
}

/// Mismatches over the common length of `a` and `b`.
fn hamming_bytes(a: &[u8], b: &[u8]) -> (d: usize)
    ensures
        d <= a.len(),
        d == hd(a@, b@),
{
    let len = if a.len() < b.len() { a.len() } else { b.len() };
    let mut d: usize = 0;
    let mut i: usize = 0;
    while i < len
        invariant
            i <= len,
            len <= a.len(),
            len <= b.len(),
            len == (if a.len() <= b.len() { a.len() } else { b.len() }),
            d <= i,
            d == mismatches(a@, b@, i as int),
        decreases len - i,
    {
        if a[i] != b[i] {
            d = d + 1;
        }
        i = i + 1;
    }
    d
}

/// Whether `a` sorts strictly before `b`.
fn bytes_less(a: &[u8], b: &[u8]) -> (r: bool)
    ensures
        r == crate::cgl::altered::lex_less(a@, b@),
{
    let mut i: usize = 0;
    assert(a@.skip(0) =~= a@);
    assert(b@.skip(0) =~= b@);
    while i < a.len() && i < b.len()
        invariant
            i <= a.len(),
            i <= b.len(),
            crate::cgl::altered::lex_less(a@, b@) == crate::cgl::altered::lex_less(a@.skip(i as int), b@.skip(i as int)),
        decreases a.len() - i,
    {
        if a[i] != b[i] {
            return a[i] < b[i];
        }
        proof {
            assert(a@.skip(i as int).drop_first() =~= a@.skip(i + 1));
            assert(b@.skip(i as int).drop_first() =~= b@.skip(i + 1));
        }
        i = i + 1;
    }
    i < b.len()
}

/// Queries the child `c` (see [`query_inner`]).
fn visit(c: &Option<Box<CglNode>>, q: &mut Vec<u8>, r: usize, results: &mut Vec<RawMatch>, config: &PruneConfig)
    requires
        config.sized(),
    ensures
        final(q)@ == old(q)@,
        appended(old(results)@, final(results)@, opt_all(*c), r),
        final(results)@ == old(results)@ + opt_matches(*c, old(q)@, r as nat, config.table()),
    decreases opt_count(*c), 3nat,
{
    query_inner(child(c), q, r, results, config);
}

proof fn lemma_assoc(a: Seq<RawMatch>, b: Seq<RawMatch>, c: Seq<RawMatch>)
    ensures
        (a + b) + c == a + (b + c),
{
    assert((a + b) + c =~= a + (b + c));
}

/// Appends to `results` the strings of the tree at `node` found within
/// radius `r` of `q`, spending the radius only on plausible mismatches.
#[verifier::rlimit(80)]
#[verifier::spinoff_prover]
fn query_inner(node: Option<&CglNode>, q: &mut Vec<u8>, r: usize, results: &mut Vec<RawMatch>, config: &PruneConfig)
    requires
        config.sized(),
    ensures
        final(q)@ == old(q)@,
        appended(old(results)@, final(results)@, tree_origins(node), r),
        final(results)@ == old(results)@ + tree_matches(node, old(q)@, r as nat, config.table()),
    decreases tree_size(node), 2nat,
{
    let ghost q0 = q@;
    let ghost r0 = results@;
    let ghost t = config.table();
    let ghost rn = r as nat;
    let n = match node {
        Some(n) => n,
        None => {
            proof {
                assert(results@ =~= r0 + Seq::<RawMatch>::empty());
            }
            return;
        },
    };
    let ghost all = n.all();
    let pb = n.pivot.as_bytes();
    let d = hamming_bytes(q.as_slice(), pb);
    if d <= r {
        match n.pivot.origin_value() {
            Some(origin) => {
                results.push(RawMatch { origin, distance: d });
            },
            None => {},
        }
    }
    let ghost pm = match_of(n.pivot, q0, rn);
    proof {
        assert(results@ =~= r0 + pm);
    }
    assert(appended(r0, results@, all, r));
    if n.is_leaf {
        let mut j: usize = 0;
        proof {
            assert(results@ =~= (r0 + pm) + leaf_matches(n.pivot, n.suffixes@, q0, rn, 0));
        }
        while j < n.suffixes.len()
            invariant
                j <= n.suffixes.len(),
                all == n.all(),
                appended(r0, results@, all, r),
                q@ == q0,
                rn == r,
                results@ == (r0 + pm) + leaf_matches(n.pivot, n.suffixes@, q0, rn, j as int),
            decreases n.suffixes.len() - j,
        {
            let ghost before = results@;
            let s = &n.suffixes[j];
            if n.pivot.origin_value() != s.origin_value() {
                let d = hamming_bytes(q.as_slice(), s.as_bytes());
                if d <= r {
                    match s.origin_value() {
                        Some(origin) => {
                            proof {
                                assert(origins(n.suffixes@).contains(origin));
                            }
                            results.push(RawMatch { origin, distance: d });
                        },
                        None => {},
                    }
                }
            }
            proof {
                let x = if n.pivot.origin_view() != n.suffixes@[j as int].origin_view() {
                    match_of(n.suffixes@[j as int], q0, rn)
                } else {
                    Seq::<RawMatch>::empty()
                };
                assert(results@ =~= before + x);
                lemma_assoc(r0 + pm, leaf_matches(n.pivot, n.suffixes@, q0, rn, j as int), x);
            }
            j = j + 1;
        }
        proof {
            lemma_assoc(r0, pm, leaf_matches(n.pivot, n.suffixes@, q0, rn, n.suffixes@.len() as int));
        }
        return;
    }
    let len = if q.len() < pb.len() { q.len() } else { pb.len() };
    let mut i: usize = 0;
    while i < len && q[i] == pb[i]
        invariant
            i <= len,
            len <= q.len(),
            len <= pb.len(),
            len == (if q.len() < pb.len() { q.len() } else { pb.len() }),
            q@ == q0,
            first_diff(q0, pb@, i as int) == first_diff(q0, pb@, 0),
        decreases len - i,
    {
        i = i + 1;
    }
    proof {
        assert(first_diff(q0, pb@, i as int) == i);
    }
    let ghost acc = pm;
    if i >= q.len() {
        let ghost a_less_m = results@;
        visit(&n.less_m, q, r, results, config);
        proof {
            lemma_appended_trans(r0, a_less_m, results@, all, opt_all(n.less_m), all, r, r, r);
            lemma_assoc(r0, acc, opt_matches(n.less_m, q0, rn, t));
            acc = acc + opt_matches(n.less_m, q0, rn, t);
        }
        let ghost a_greater_m = results@;
        visit(&n.greater_m, q, r, results, config);
        proof {
            lemma_appended_trans(r0, a_greater_m, results@, all, opt_all(n.greater_m), all, r, r, r);
            lemma_assoc(r0, acc, opt_matches(n.greater_m, q0, rn, t));
            acc = acc + opt_matches(n.greater_m, q0, rn, t);
        }
        let ghost a_less_lex = results@;
        visit(&n.less_lex, q, r, results, config);
        proof {
            lemma_appended_trans(r0, a_less_lex, results@, all, opt_all(n.less_lex), all, r, r, r);
            lemma_assoc(r0, acc, opt_matches(n.less_lex, q0, rn, t));
            acc = acc + opt_matches(n.less_lex, q0, rn, t);
        }
        let ghost a_greater_lex = results@;
        visit(&n.greater_lex, q, r, results, config);
        proof {
            lemma_appended_trans(r0, a_greater_lex, results@, all, opt_all(n.greater_lex), all, r, r, r);
            lemma_assoc(r0, acc, opt_matches(n.greater_lex, q0, rn, t));
            acc = acc + opt_matches(n.greater_lex, q0, rn, t);
        }
        if r > 0 {
            let ghost a_alt_less_m = results@;
            visit(&n.alt_less_m, q, r - 1, results, config);
            proof {
                lemma_appended_trans(r0, a_alt_less_m, results@, all, opt_all(n.alt_less_m), all, r, (r - 1) as usize, r);
                lemma_assoc(r0, acc, opt_matches(n.alt_less_m, q0, (rn - 1) as nat, t));
                acc = acc + opt_matches(n.alt_less_m, q0, (rn - 1) as nat, t);
            }
            let ghost a_alt_greater_m = results@;
            visit(&n.alt_greater_m, q, r - 1, results, config);
            proof {
                lemma_appended_trans(r0, a_alt_greater_m, results@, all, opt_all(n.alt_greater_m), all, r, (r - 1) as usize, r);
                lemma_assoc(r0, acc, opt_matches(n.alt_greater_m, q0, (rn - 1) as nat, t));
                acc = acc + opt_matches(n.alt_greater_m, q0, (rn - 1) as nat, t);
            }
            let ghost a_alt_less_lex = results@;
            visit(&n.alt_less_lex, q, r - 1, results, config);
            proof {
                lemma_appended_trans(r0, a_alt_less_lex, results@, all, opt_all(n.alt_less_lex), all, r, (r - 1) as usize, r);
                lemma_assoc(r0, acc, opt_matches(n.alt_less_lex, q0, (rn - 1) as nat, t));
                acc = acc + opt_matches(n.alt_less_lex, q0, (rn - 1) as nat, t);
            }
            let ghost a_alt_greater_lex = results@;
            visit(&n.alt_greater_lex, q, r - 1, results, config);
            proof {
                lemma_appended_trans(r0, a_alt_greater_lex, results@, all, opt_all(n.alt_greater_lex), all, r, (r - 1) as usize, r);
                lemma_assoc(r0, acc, opt_matches(n.alt_greater_lex, q0, (rn - 1) as nat, t));
                acc = acc + opt_matches(n.alt_greater_lex, q0, (rn - 1) as nat, t);
            }
        }
        proof {
            assert(!n.is_leaf);
            assert(first_diff(q0, n.pivot.text(), 0) == i);
            assert(acc == n.matches(q0, rn, t));
        }
        return;
    }
    let original = q[i];
    let pivot_ch = if i < pb.len() { pb[i] } else { original };
    let plausible = config.is_plausible(original, pivot_ch);
    let q_less = bytes_less(q.as_slice(), pb);
    if r > 0 {
        if q_less {
            query_less(n, q, r, results, config, i, original, pivot_ch, plausible);
        } else {
            query_greater(n, q, r, results, config, i, original, pivot_ch, plausible);
        }
        proof {
            assert(!n.is_leaf);
            assert(first_diff(q0, n.pivot.text(), 0) == i);
            assert(q_less == lex_less(q0, n.pivot.text()));
            let less = if q_less {
                opt_matches(n.less_m, q0, rn, t) + opt_matches(n.less_lex, q0, rn, t) + if plausible {
                    opt_matches(n.greater_lex, q0.update(i as int, pivot_ch), (rn - 1) as nat, t)
                        + opt_matches(n.greater_m, q0.update(i as int, pivot_ch), (rn - 1) as nat, t)
                        + opt_matches(n.alt_less_m, q0, (rn - 1) as nat, t)
                        + opt_matches(n.alt_less_lex, q0.update(i as int, pivot_ch), (rn - 1) as nat, t)
                        + opt_matches(n.alt_greater_lex, q0.update(i as int, pivot_ch), (rn - 1) as nat, t)
                } else {
                    Seq::empty()
                }
            } else {
                opt_matches(n.greater_m, q0, rn, t) + opt_matches(n.greater_lex, q0, rn, t) + if plausible {
                    opt_matches(n.less_m, q0.update(i as int, pivot_ch), (rn - 1) as nat, t)
                        + opt_matches(n.alt_greater_m, q0, (rn - 1) as nat, t)
                        + opt_matches(n.alt_greater_lex, q0, (rn - 1) as nat, t)
                        + opt_matches(n.alt_less_lex, q0.update(i as int, pivot_ch), (rn - 1) as nat, t)
                } else {
                    Seq::empty()
                }
            };
            lemma_assoc(r0, pm, less);
            assert(n.matches(q0, rn, t) == pm + less);
        }
    } else {
        if q_less {
            let ghost a_less_m = results@;
            visit(&n.less_m, q, 0, results, config);
            proof {
                lemma_appended_trans(r0, a_less_m, results@, all, opt_all(n.less_m), all, r, 0, r);
                lemma_assoc(r0, acc, opt_matches(n.less_m, q0, 0nat, t));
                acc = acc + opt_matches(n.less_m, q0, 0nat, t);
            }
            let ghost a_less_lex = results@;
            visit(&n.less_lex, q, 0, results, config);
            proof {
                lemma_appended_trans(r0, a_less_lex, results@, all, opt_all(n.less_lex), all, r, 0, r);
                lemma_assoc(r0, acc, opt_matches(n.less_lex, q0, 0nat, t));
                acc = acc + opt_matches(n.less_lex, q0, 0nat, t);
            }
        } else {
            let ghost a_greater_m = results@;
            visit(&n.greater_m, q, 0, results, config);
            proof {
                lemma_appended_trans(r0, a_greater_m, results@, all, opt_all(n.greater_m), all, r, 0, r);
                lemma_assoc(r0, acc, opt_matches(n.greater_m, q0, 0nat, t));
                acc = acc + opt_matches(n.greater_m, q0, 0nat, t);
            }
            let ghost a_greater_lex = results@;
            visit(&n.greater_lex, q, 0, results, config);
            proof {
                lemma_appended_trans(r0, a_greater_lex, results@, all, opt_all(n.greater_lex), all, r, 0, r);
                lemma_assoc(r0, acc, opt_matches(n.greater_lex, q0, 0nat, t));
                acc = acc + opt_matches(n.greater_lex, q0, 0nat, t);
            }
        }
        proof {
            assert(!n.is_leaf);
            assert(first_diff(q0, n.pivot.text(), 0) == i);
            assert(q_less == lex_less(q0, n.pivot.text()));
            assert(acc == n.matches(q0, rn, t));
        }
    }
}

/// The query step at an inner node when `q` sorts before the pivot and
/// the radius is positive: the lower branches with the radius, then, if the
/// mismatch at `i` is plausible, the others with one less, `q[i]` replaced
/// by the pivot's byte where the branch holds strings that agree with it.
#[verifier::rlimit(40)]
fn query_less(
    n: &CglNode,
    q: &mut Vec<u8>,
    r: usize,
    results: &mut Vec<RawMatch>,
    config: &PruneConfig,
    i: usize,
    original: u8,
    pivot_ch: u8,
    plausible: bool,
)
    requires
        config.sized(),
        r > 0,
        i < old(q).len(),
        old(q)@[i as int] == original,
    ensures
        final(q)@ == old(q)@,
        appended(old(results)@, final(results)@, n.all(), r),
        ({
            let (q0, t, rn, r1) = (old(q)@, config.table(), r as nat, (r - 1) as nat);
            let qa = old(q)@.update(i as int, pivot_ch);
            final(results)@ == old(results)@ + (opt_matches(n.less_m, q0, rn, t) + opt_matches(n.less_lex, q0, rn, t)
                + if plausible {
                    opt_matches(n.greater_lex, qa, r1, t) + opt_matches(n.greater_m, qa, r1, t)
                        + opt_matches(n.alt_less_m, q0, r1, t) + opt_matches(n.alt_less_lex, qa, r1, t)
                        + opt_matches(n.alt_greater_lex, qa, r1, t)
                } else {
                    Seq::empty()
                })
        }),
    decreases n.count(), 1nat,
{
    let ghost q0 = q@;
    let ghost r0 = results@;
    let ghost all = n.all();
    let ghost t = config.table();
    let ghost rn = r as nat;
    let ghost r1n = (r - 1) as nat;
    let ghost qa = q0.update(i as int, pivot_ch);
    let ghost a_less_m = results@;
    visit(&n.less_m, q, r, results, config);
    proof {
        lemma_appended_trans(r0, a_less_m, results@, all, opt_all(n.less_m), all, r, r, r);
    }
    let ghost ab = opt_matches(n.less_m, q0, rn, t);
    let ghost a_less_lex = results@;
    visit(&n.less_lex, q, r, results, config);
    proof {
        lemma_appended_trans(r0, a_less_lex, results@, all, opt_all(n.less_lex), all, r, r, r);
        lemma_assoc(r0, ab, opt_matches(n.less_lex, q0, rn, t));
        ab = ab + opt_matches(n.less_lex, q0, rn, t);
    }
    let ghost base = r0 + ab;
    let ghost mut pacc = Seq::<RawMatch>::empty();
    if plausible {
        let r1 = r - 1;
        q.set(i, pivot_ch);
        let ghost a_greater_lex = results@;
        visit(&n.greater_lex, q, r1, results, config);
        proof {
            lemma_appended_trans(r0, a_greater_lex, results@, all, opt_all(n.greater_lex), all, r, r1, r);
            pacc = opt_matches(n.greater_lex, qa, r1n, t);
        }
        let ghost a_greater_m = results@;
        visit(&n.greater_m, q, r1, results, config);
        proof {
            lemma_appended_trans(r0, a_greater_m, results@, all, opt_all(n.greater_m), all, r, r1, r);
            lemma_assoc(base, pacc, opt_matches(n.greater_m, qa, r1n, t));
            pacc = pacc + opt_matches(n.greater_m, qa, r1n, t);
        }
        q.set(i, original);
        assert(q@ =~= q0);
        let ghost a_alt_less_m = results@;
        visit(&n.alt_less_m, q, r1, results, config);
        proof {
            lemma_appended_trans(r0, a_alt_less_m, results@, all, opt_all(n.alt_less_m), all, r, r1, r);
            lemma_assoc(base, pacc, opt_matches(n.alt_less_m, q0, r1n, t));
            pacc = pacc + opt_matches(n.alt_less_m, q0, r1n, t);
        }
        q.set(i, pivot_ch);
        let ghost a_alt_less_lex = results@;
        visit(&n.alt_less_lex, q, r1, results, config);
        proof {
            lemma_appended_trans(r0, a_alt_less_lex, results@, all, opt_all(n.alt_less_lex), all, r, r1, r);
            lemma_assoc(base, pacc, opt_matches(n.alt_less_lex, qa, r1n, t));
            pacc = pacc + opt_matches(n.alt_less_lex, qa, r1n, t);
        }
        let ghost a_alt_greater_lex = results@;
        visit(&n.alt_greater_lex, q, r1, results, config);
        proof {
            lemma_appended_trans(r0, a_alt_greater_lex, results@, all, opt_all(n.alt_greater_lex), all, r, r1, r);
            lemma_assoc(base, pacc, opt_matches(n.alt_greater_lex, qa, r1n, t));
            pacc = pacc + opt_matches(n.alt_greater_lex, qa, r1n, t);
        }
        q.set(i, original);
        assert(q@ =~= q0);
    }
    proof {
        if !plausible {
            assert(r0 + (ab + pacc) =~= r0 + ab);
        }
        lemma_assoc(r0, ab, pacc);
    }

}

/// The query step at an inner node when `q` does not sort before the pivot
/// and the radius is positive (the mirror of [`query_less`]).
#[verifier::rlimit(40)]
fn query_greater(
    n: &CglNode,
    q: &mut Vec<u8>,
    r: usize,
    results: &mut Vec<RawMatch>,
    config: &PruneConfig,
    i: usize,
    original: u8,
    pivot_ch: u8,
    plausible: bool,
)
    requires
        config.sized(),
        r > 0,
        i < old(q).len(),
        old(q)@[i as int] == original,
    ensures
        final(q)@ == old(q)@,
        appended(old(results)@, final(results)@, n.all(), r),
        ({
            let (q0, t, rn, r1) = (old(q)@, config.table(), r as nat, (r - 1) as nat);
            let qa = old(q)@.update(i as int, pivot_ch);
            final(results)@ == old(results)@ + (opt_matches(n.greater_m, q0, rn, t) + opt_matches(n.greater_lex, q0, rn, t)
                + if plausible {
                    opt_matches(n.less_m, qa, r1, t) + opt_matches(n.alt_greater_m, q0, r1, t)
                        + opt_matches(n.alt_greater_lex, q0, r1, t) + opt_matches(n.alt_less_lex, qa, r1, t)
                } else {
                    Seq::empty()
                })
        }),
    decreases n.count(), 1nat,
{
    let ghost q0 = q@;
    let ghost r0 = results@;
    let ghost all = n.all();
    let ghost t = config.table();
    let ghost rn = r as nat;
    let ghost r1n = (r - 1) as nat;
    let ghost qa = q0.update(i as int, pivot_ch);
    let ghost a_greater_m = results@;
    visit(&n.greater_m, q, r, results, config);
    proof {
        lemma_appended_trans(r0, a_greater_m, results@, all, opt_all(n.greater_m), all, r, r, r);
    }
    let ghost ab = opt_matches(n.greater_m, q0, rn, t);
    let ghost a_greater_lex = results@;
    visit(&n.greater_lex, q, r, results, config);
    proof {
        lemma_appended_trans(r0, a_greater_lex, results@, all, opt_all(n.greater_lex), all, r, r, r);
        lemma_assoc(r0, ab, opt_matches(n.greater_lex, q0, rn, t));
        ab = ab + opt_matches(n.greater_lex, q0, rn, t);
    }
    let ghost base = r0 + ab;
    let ghost mut pacc = Seq::<RawMatch>::empty();
    if plausible {
        let r1 = r - 1;
        q.set(i, pivot_ch);
        let ghost a_less_m = results@;
        visit(&n.less_m, q, r1, results, config);
        proof {
            lemma_appended_trans(r0, a_less_m, results@, all, opt_all(n.less_m), all, r, r1, r);
            pacc = opt_matches(n.less_m, qa, r1n, t);
        }
        q.set(i, original);
        assert(q@ =~= q0);
        let ghost a_alt_greater_m = results@;
        visit(&n.alt_greater_m, q, r1, results, config);
        proof {
            lemma_appended_trans(r0, a_alt_greater_m, results@, all, opt_all(n.alt_greater_m), all, r, r1, r);
            lemma_assoc(base, pacc, opt_matches(n.alt_greater_m, q0, r1n, t));
            pacc = pacc + opt_matches(n.alt_greater_m, q0, r1n, t);
        }
        let ghost a_alt_greater_lex = results@;
        visit(&n.alt_greater_lex, q, r1, results, config);
        proof {
            lemma_appended_trans(r0, a_alt_greater_lex, results@, all, opt_all(n.alt_greater_lex), all, r, r1, r);
            lemma_assoc(base, pacc, opt_matches(n.alt_greater_lex, q0, r1n, t));
            pacc = pacc + opt_matches(n.alt_greater_lex, q0, r1n, t);
        }
        q.set(i, pivot_ch);
        let ghost a_alt_less_lex = results@;
        visit(&n.alt_less_lex, q, r1, results, config);
        proof {
            lemma_appended_trans(r0, a_alt_less_lex, results@, all, opt_all(n.alt_less_lex), all, r, r1, r);
            lemma_assoc(base, pacc, opt_matches(n.alt_less_lex, qa, r1n, t));
            pacc = pacc + opt_matches(n.alt_less_lex, qa, r1n, t);
        }
        q.set(i, original);
        assert(q@ =~= q0);
    }
    proof {
        if !plausible {
            assert(r0 + (ab + pacc) =~= r0 + ab);
        }
        lemma_assoc(r0, ab, pacc);
    }

}

/// The strings of the tree at `node` within Hamming distance `r` of `q`,
/// spending the radius only on the mismatches `config` deems plausible:
/// exactly [`tree_matches`], each match at most `r` from the query as it
/// stood when the string was reached and coming from a string stored in the
/// tree.
pub fn query_with_pruning(node: Option<&CglNode>, q: &AlteredString, r: usize, config: &PruneConfig)
    -> (out: Vec<RawMatch>)
    requires
        config.sized(),
    ensures
        forall|i: int| 0 <= i < out.len() ==> #[trigger] out[i].distance <= r && tree_origins(node).contains(out[i].origin),
        out@ == tree_matches(node, q.text(), r as nat, config.table()),
{
    let bytes = q.as_bytes();
    let mut buf: Vec<u8> = Vec::new();
    let mut j: usize = 0;
    while j < bytes.len()
        invariant
            j <= bytes.len(),
            buf@ == bytes@.take(j as int),
        decreases bytes.len() - j,
    {
        proof {
            assert(bytes@.take(j + 1) =~= bytes@.take(j as int).push(bytes@[j as int]));
        }
        buf.push(bytes[j]);
        j = j + 1;
    }
    proof {
        assert(bytes@.take(bytes.len() as int) =~= bytes@);
    }
    let mut results: Vec<RawMatch> = Vec::new();
    query_inner(node, &mut buf, r, &mut results, config);
    proof {
        assert(results@ =~= tree_matches(node, q.text(), r as nat, config.table()));
    }
    results
}

} // verus!
