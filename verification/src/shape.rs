//! The shape of a built trie: how its breadth-first children ranges tie
//! every node to one parent, and what its paths and aggregates say of the
//! subtree below each node.
use vstd::prelude::*;
use crate::trie::{Trie, NO_TERM, agg_max, agg_min, agg_mask, kept_entry};
use crate::cost::sym_class;
use crate::order::{lex_lt, lemma_lex_irreflexive, lemma_lex_asymmetric};

verus! {

/// Node `c` lies in the children range of node `v`.
pub open spec fn child_of(trie: &Trie, v: int, c: int) -> bool {
    &&& 0 <= v < trie.nodes()
    &&& trie.starts_spec()[v] <= c < trie.starts_spec()[v] + trie.counts_spec()[v]
}

/// Node `u` is `v` or lies below it: following parents from `u` reaches `v`.
pub open spec fn below(trie: &Trie, u: int, v: int) -> bool
    decreases u,
{
    if u == v {
        true
    } else if u <= 0 || u >= trie.nodes() || trie.parents_spec()[u] >= u {
        false
    } else {
        below(trie, trie.parents_spec()[u] as int, v)
    }
}

/// The children ranges of the nodes `0..=v` cover `1..end(v)`.
proof fn lemma_cover(trie: &Trie, v: int, c: int)
    requires
        trie.wf(),
        trie.bfs_layout(),
        0 <= v < trie.nodes(),
        1 <= c < trie.starts_spec()[v] + trie.counts_spec()[v],
    ensures
        exists|u: int| 0 <= u <= v && #[trigger] child_of(trie, u, c),
    decreases v,
{
    trie.lemma_wf();
    if c < trie.starts_spec()[v] {
        assert(trie.starts_spec()[v - 1] + trie.counts_spec()[v - 1] == trie.starts_spec()[v]);
        lemma_cover(trie, v - 1, c);
        let u = choose|u: int| 0 <= u <= v - 1 && #[trigger] child_of(trie, u, c);
        assert(child_of(trie, u, c));
    } else {
        assert(child_of(trie, v, c));
    }
}

/// The children ranges follow one another: an earlier node's range ends
/// where a later node's range starts, or before.
proof fn lemma_ends_grow(trie: &Trie, u: int, v: int)
    requires
        trie.wf(),
        trie.bfs_layout(),
        0 <= u < v < trie.nodes(),
    ensures
        trie.starts_spec()[u] + trie.counts_spec()[u] <= trie.starts_spec()[v],
    decreases v - u,
{
    trie.lemma_wf();
    assert(trie.starts_spec()[u] + trie.counts_spec()[u] == trie.starts_spec()[u + 1]);
    if u + 1 < v {
        lemma_ends_grow(trie, u + 1, v);
    }
}

/// Every node but the root is a child of exactly one node: its parent,
/// which comes before it.
pub proof fn lemma_one_parent(trie: &Trie, c: int)
    requires
        trie.wf(),
        trie.bfs_layout(),
        1 <= c < trie.nodes(),
    ensures
        child_of(trie, trie.parents_spec()[c] as int, c),
        (trie.parents_spec()[c] as int) < c,
        forall|v: int| #[trigger] child_of(trie, v, c) ==> v == trie.parents_spec()[c],
{
    trie.lemma_wf();
    let n = trie.nodes() as int;
    assert(trie.starts_spec()[n - 1] + trie.counts_spec()[n - 1] == n);
    lemma_cover(trie, n - 1, c);
    let u = choose|u: int| 0 <= u <= n - 1 && #[trigger] child_of(trie, u, c);
    assert(trie.parents_spec()[c] == u);
    assert forall|v: int| #[trigger] child_of(trie, v, c) implies v == trie.parents_spec()[c] by {
        assert(trie.starts_spec()[v] <= c);
    }
}

/// Each node's children come after it, and inside the trie.
pub proof fn lemma_children_after(trie: &Trie, v: int)
    requires
        trie.wf(),
        trie.bfs_layout(),
        0 <= v < trie.nodes(),
    ensures
        v < trie.starts_spec()[v],
        trie.starts_spec()[v] + trie.counts_spec()[v] <= trie.nodes(),
{
    trie.lemma_wf();
    let n = trie.nodes() as int;
    if v >= 1 {
        lemma_one_parent(trie, v);
        let p = trie.parents_spec()[v] as int;
        lemma_ends_grow(trie, p, v);
    }
    assert(trie.starts_spec()[n - 1] + trie.counts_spec()[n - 1] == n);
    if v < n - 1 {
        lemma_ends_grow(trie, v, n - 1);
    }
}

/// What a running maximum is: at least each value, and one of them.
proof fn lemma_agg_max(own: u16, vals: Seq<u16>, s: int, k: nat)
    ensures
        own <= agg_max(own, vals, s, k),
        forall|i: int| 0 <= i < k ==> #[trigger] vals[s + i] <= agg_max(own, vals, s, k),
        agg_max(own, vals, s, k) == own
            || exists|i: int| 0 <= i < k && agg_max(own, vals, s, k) == #[trigger] vals[s + i],
    decreases k,
{
    if k > 0 {
        lemma_agg_max(own, vals, s, (k - 1) as nat);
        let m = agg_max(own, vals, s, (k - 1) as nat);
        assert forall|i: int| 0 <= i < k implies #[trigger] vals[s + i] <= agg_max(own, vals, s, k) by {
            if i < k - 1 {
                assert(vals[s + i] <= m);
            }
        }
        if agg_max(own, vals, s, k) != own {
            if agg_max(own, vals, s, k) == vals[s + (k - 1)] {
                assert(0 <= k - 1 < k);
            } else {
                let i = choose|i: int| 0 <= i < k - 1 && m == #[trigger] vals[s + i];
                assert(agg_max(own, vals, s, k) == vals[s + i]);
            }
        }
    }
}

/// A node below a child of `v` is below `v`.
proof fn lemma_below_step(trie: &Trie, u: int, c: int, v: int)
    requires
        trie.wf(),
        trie.bfs_layout(),
        1 <= c < trie.nodes(),
        trie.parents_spec()[c] == v,
        below(trie, u, c),
    ensures
        below(trie, u, v),
    decreases u,
{
    lemma_one_parent(trie, c);
    if u == c {
        assert(below(trie, v, v));
    } else {
        lemma_below_step(trie, trie.parents_spec()[u] as int, c, v);
    }
}

/// The largest weight recorded for a node is at least that of every node
/// below it.
proof fn lemma_max_weight_below(trie: &Trie, u: int, v: int)
    requires
        trie.wf(),
        trie.bfs_layout(),
        weights_aggregated(trie),
        0 <= u < trie.nodes(),
        below(trie, u, v),
    ensures
        trie.own_weight(u) <= trie.max_weights_spec()[u] <= trie.max_weights_spec()[v],
    decreases u,
{
    trie.lemma_wf();
    reveal(weights_aggregated);
    let s = trie.starts_spec()[u] as int;
    let k = trie.counts_spec()[u] as nat;
    assert(trie.max_weights_spec()[u] == agg_max(trie.own_weight(u), trie.max_weights_spec(), s, k));
    lemma_agg_max(trie.own_weight(u), trie.max_weights_spec(), s, k);
    if u != v {
        let p = trie.parents_spec()[u] as int;
        lemma_one_parent(trie, u);
        let sp = trie.starts_spec()[p] as int;
        let kp = trie.counts_spec()[p] as nat;
        assert(trie.max_weights_spec()[p] == agg_max(trie.own_weight(p), trie.max_weights_spec(), sp, kp));
        lemma_agg_max(trie.own_weight(p), trie.max_weights_spec(), sp, kp);
        assert(trie.max_weights_spec()[sp + (u - sp)] <= trie.max_weights_spec()[p]);
        lemma_max_weight_below(trie, p, v);
    }
}

/// The largest weights are the running maxima over each node's children.
#[verifier::opaque]
spec fn weights_aggregated(trie: &Trie) -> bool {
    forall|v: int| 0 <= v < trie.nodes() ==> #[trigger] trie.max_weights_spec()[v] == agg_max(trie.own_weight(v),
        trie.max_weights_spec(), trie.starts_spec()[v] as int, trie.counts_spec()[v] as nat)
}

proof fn lemma_weights_aggregated(trie: &Trie)
    requires
        trie.aggregates_ok(),
    ensures
        weights_aggregated(trie),
{
    reveal(weights_aggregated);
}

/// Where the largest weight of `v` comes from: its own term (`None`), or
/// the largest weight of one of its children.
proof fn lemma_max_weight_source(trie: &Trie, v: int) -> (c: Option<int>)
    requires
        trie.wf(),
        trie.bfs_layout(),
        weights_aggregated(trie),
        0 <= v < trie.nodes(),
    ensures
        c is None ==> trie.max_weights_spec()[v] == trie.own_weight(v),
        c matches Some(c) ==> child_of(trie, v, c) && trie.max_weights_spec()[v] == trie.max_weights_spec()[c],
        trie.own_weight(v) <= trie.max_weights_spec()[v],
{
    trie.lemma_wf();
    reveal(weights_aggregated);
    let s = trie.starts_spec()[v] as int;
    let k = trie.counts_spec()[v] as nat;
    assert(trie.max_weights_spec()[v] == agg_max(trie.own_weight(v), trie.max_weights_spec(), s, k));
    lemma_agg_max(trie.own_weight(v), trie.max_weights_spec(), s, k);
    if trie.max_weights_spec()[v] == trie.own_weight(v) {
        None
    } else {
        let i = choose|i: int| 0 <= i < k && trie.max_weights_spec()[v] == #[trigger] trie.max_weights_spec()[s + i];
        Some(s + i)
    }
}

/// Some term at or below `v` weighs exactly `max_weight(v)`.
proof fn lemma_max_weight_reached(trie: &Trie, v: int) -> (u: int)
    requires
        trie.wf(),
        trie.bfs_layout(),
        weights_aggregated(trie),
        trie.leaves_carry_terms(),
        0 <= v < trie.nodes(),
    ensures
        0 <= u < trie.nodes(),
        below(trie, u, v),
        trie.term_ids_spec()[u] != NO_TERM,
        trie.weights_spec()[trie.term_ids_spec()[u] as int] == trie.max_weights_spec()[v],
    decreases trie.nodes() - v,
{
    trie.lemma_wf();
    lemma_children_after(trie, v);
    let src = lemma_max_weight_source(trie, v);
    if src is None && trie.term_ids_spec()[v] != NO_TERM {
        v
    } else {
        let c: int = match src {
            Some(c) => c,
            None => {
                assert(trie.counts_spec()[v] != 0);
                trie.starts_spec()[v] as int
            },
        };
        assert(child_of(trie, v, c));
        assert(trie.parents_spec()[c] == v);
        let u = lemma_max_weight_reached(trie, c);
        lemma_below_step(trie, u, c, v);
        assert(below(trie, v, v));
        assert(below(trie, c, v));
        lemma_max_weight_below(trie, c, v);
        u
    }
}

/// `max_weight(v)` is the largest weight of a term at or below `v`: no term
/// below `v` weighs more, and one of them weighs exactly that.
pub proof fn lemma_max_weight(trie: &Trie, v: int)
    requires
        trie.wf(),
        trie.bfs_layout(),
        trie.aggregates_ok(),
        trie.leaves_carry_terms(),
        0 <= v < trie.nodes(),
    ensures
        forall|u: int| 0 <= u < trie.nodes() && #[trigger] below(trie, u, v) && trie.term_ids_spec()[u] != NO_TERM
            ==> trie.weights_spec()[trie.term_ids_spec()[u] as int] <= trie.max_weights_spec()[v],
        exists|u: int| 0 <= u < trie.nodes() && #[trigger] below(trie, u, v) && trie.term_ids_spec()[u] != NO_TERM
            && trie.weights_spec()[trie.term_ids_spec()[u] as int] == trie.max_weights_spec()[v],
{
    lemma_weights_aggregated(trie);
    assert forall|u: int| 0 <= u < trie.nodes() && #[trigger] below(trie, u, v) && trie.term_ids_spec()[u] != NO_TERM
        implies trie.weights_spec()[trie.term_ids_spec()[u] as int] <= trie.max_weights_spec()[v] by {
        lemma_max_weight_below(trie, u, v);
    }
    let u = lemma_max_weight_reached(trie, v);
    assert(below(trie, u, v));
}

/// Distinct nodes have distinct paths.
pub proof fn lemma_paths_distinct(trie: &Trie, u: int, v: int)
    requires
        trie.wf(),
        trie.bfs_layout(),
        trie.children_sorted(),
        0 <= u < trie.nodes(),
        0 <= v < trie.nodes(),
        trie.path(u) == trie.path(v),
    ensures
        u == v,
    decreases u + v,
{
    trie.lemma_wf();
    if u >= 1 {
        lemma_one_parent(trie, u);
    }
    if v >= 1 {
        lemma_one_parent(trie, v);
    }
    if u >= 1 && v >= 1 {
        let pu = trie.parents_spec()[u] as int;
        let pv = trie.parents_spec()[v] as int;
        assert(trie.path(u) == trie.path(pu).push(trie.labels_spec()[u]));
        assert(trie.path(v) == trie.path(pv).push(trie.labels_spec()[v]));
        assert(trie.path(pu) == trie.path(u).drop_last());
        assert(trie.path(pv) == trie.path(v).drop_last());
        assert(trie.labels_spec()[u] == trie.path(u).last());
        lemma_paths_distinct(trie, pu, pv);
        if u < v {
            assert(trie.labels_spec()[u] < trie.labels_spec()[v]);
        } else if v < u {
            assert(trie.labels_spec()[v] < trie.labels_spec()[u]);
        }
    } else if u >= 1 {
        assert(trie.path(u).len() >= 1);
    } else if v >= 1 {
        assert(trie.path(v).len() >= 1);
    }
}

/// A node carries term `t` exactly when its path spells `t`; so every term
/// ends at exactly one node, the one whose path spells it.
pub proof fn lemma_term_at(trie: &Trie, v: int, t: int)
    requires
        trie.wf(),
        trie.bfs_layout(),
        trie.children_sorted(),
        trie.spells_terms(),
        0 <= v < trie.nodes(),
        0 <= t < trie.term_syms().len(),
    ensures
        trie.path(v) == trie.term_syms()[t] <==> trie.term_ids_spec()[v] == t,
{
    trie.lemma_wf();
    assert(trie.ends_at_node(t));
    let u = choose|u: int| 0 <= u < trie.nodes() && trie.term_ids_spec()[u] == t;
    assert(trie.path(u) == trie.term_syms()[t]);
    if trie.path(v) == trie.term_syms()[t] {
        lemma_paths_distinct(trie, u, v);
    }
}

/// Two strictly increasing sequences with the same elements are equal.
proof fn lemma_sorted_unique(x: Seq<Seq<u32>>, y: Seq<Seq<u32>>)
    requires
        forall|p: int, q: int| 0 <= p < q < x.len() ==> lex_lt(x[p], x[q]),
        forall|p: int, q: int| 0 <= p < q < y.len() ==> lex_lt(y[p], y[q]),
        forall|e: Seq<u32>| x.contains(e) <==> y.contains(e),
    ensures
        x == y,
    decreases x.len() + y.len(),
{
    if x.len() == 0 {
        if y.len() > 0 {
            assert(y.contains(y[0]));
        }
        assert(x =~= y);
    } else if y.len() == 0 {
        assert(x.contains(x[0]));
    } else {
        assert(y.contains(y[0]));
        assert(x.contains(x[0]));
        let i = choose|i: int| 0 <= i < x.len() && x[i] == y[0];
        let j = choose|j: int| 0 <= j < y.len() && y[j] == x[0];
        lemma_lex_irreflexive(x[0]);
        lemma_lex_asymmetric(x[0], y[0]);
        if j > 0 {
            assert(lex_lt(y[0], y[j]));
            if i > 0 {
                assert(lex_lt(x[0], x[i]));
            }
        }
        assert(x[0] == y[0]);
        let x1 = x.drop_first();
        let y1 = y.drop_first();
        assert forall|e: Seq<u32>| x1.contains(e) <==> y1.contains(e) by {
            if x1.contains(e) {
                let p = choose|p: int| 0 <= p < x1.len() && x1[p] == e;
                assert(lex_lt(x[0], x[p + 1]));
                lemma_lex_irreflexive(e);
                assert(y.contains(e));
                let q = choose|q: int| 0 <= q < y.len() && y[q] == e;
                assert(q != 0);
                assert(y1[q - 1] == e);
            }
            if y1.contains(e) {
                let q = choose|q: int| 0 <= q < y1.len() && y1[q] == e;
                assert(lex_lt(y[0], y[q + 1]));
                lemma_lex_irreflexive(e);
                assert(x.contains(e));
                let p = choose|p: int| 0 <= p < x.len() && x[p] == e;
                assert(p != 0);
                assert(x1[p - 1] == e);
            }
        }
        assert forall|p: int, q: int| 0 <= p < q < x1.len() implies lex_lt(x1[p], x1[q]) by {
            assert(lex_lt(x[p + 1], x[q + 1]));
        }
        assert forall|p: int, q: int| 0 <= p < q < y1.len() implies lex_lt(y1[p], y1[q]) by {
            assert(lex_lt(y[p + 1], y[q + 1]));
        }
        lemma_sorted_unique(x1, y1);
        assert(x =~= seq![x[0]] + x1);
        assert(y =~= seq![y[0]] + y1);
    }
}

/// A term has one kept entry.
proof fn lemma_kept_unique(keys: Seq<Seq<u32>>, ws: Seq<u16>, s: Seq<u32>, i: int, j: int)
    requires
        kept_entry(keys, ws, s, i),
        kept_entry(keys, ws, s, j),
    ensures
        i == j,
{
}

/// What a build keeps is determined by its input: two tries built from the
/// same keys and weights hold the same terms, with the same weights and the
/// same input indices.
pub proof fn lemma_built_from_unique(a: &Trie, b: &Trie, keys: Seq<Seq<u32>>, ws: Seq<u16>)
    requires
        a.wf(),
        b.wf(),
        a.built_from(keys, ws),
        b.built_from(keys, ws),
    ensures
        a.term_syms() == b.term_syms(),
        a.weights_spec() == b.weights_spec(),
        a.inputs_spec() == b.inputs_spec(),
{
    a.lemma_wf();
    b.lemma_wf();
    let x = a.term_syms();
    let y = b.term_syms();
    assert forall|e: Seq<u32>| x.contains(e) <==> y.contains(e) by {
        if x.contains(e) {
            let t = choose|t: int| 0 <= t < x.len() && x[t] == e;
            assert(kept_entry(keys, ws, x[t], a.inputs_spec()[t] as int));
            let k = a.inputs_spec()[t] as int;
            assert(b.holds(keys[k]));
            let u = choose|u: int| 0 <= u < y.len() && y[u] == keys[k];
            assert(y[u] == e);
        }
        if y.contains(e) {
            let t = choose|t: int| 0 <= t < y.len() && y[t] == e;
            assert(kept_entry(keys, ws, y[t], b.inputs_spec()[t] as int));
            let k = b.inputs_spec()[t] as int;
            assert(a.holds(keys[k]));
            let u = choose|u: int| 0 <= u < x.len() && x[u] == keys[k];
            assert(x[u] == e);
        }
    }
    lemma_sorted_unique(x, y);
    assert forall|t: int| 0 <= t < x.len() implies a.inputs_spec()[t] == b.inputs_spec()[t] by {
        assert(kept_entry(keys, ws, x[t], a.inputs_spec()[t] as int));
        assert(kept_entry(keys, ws, y[t], b.inputs_spec()[t] as int));
        lemma_kept_unique(keys, ws, x[t], a.inputs_spec()[t] as int, b.inputs_spec()[t] as int);
    }
    assert(a.inputs_spec() =~= b.inputs_spec());
    assert forall|t: int| 0 <= t < x.len() implies a.weights_spec()[t] == b.weights_spec()[t] by {
        assert(kept_entry(keys, ws, x[t], a.inputs_spec()[t] as int));
        assert(kept_entry(keys, ws, y[t], b.inputs_spec()[t] as int));
    }
    assert(a.weights_spec() =~= b.weights_spec());
}

/// Every prefix of a node's path is the path of a node.
pub(crate) proof fn lemma_ancestor(trie: &Trie, u: int, d: int) -> (a: int)
    requires
        trie.wf(),
        trie.bfs_layout(),
        0 <= u < trie.nodes(),
        0 <= d <= trie.path(u).len(),
    ensures
        0 <= a < trie.nodes(),
        trie.path(a) == trie.path(u).take(d),
    decreases u,
{
    trie.lemma_wf();
    if d == trie.path(u).len() {
        assert(trie.path(u).take(d) =~= trie.path(u));
        u
    } else {
        lemma_one_parent(trie, u);
        let p = trie.parents_spec()[u] as int;
        assert(trie.path(u) == trie.path(p).push(trie.labels_spec()[u]));
        assert(trie.path(u).take(d) =~= trie.path(p).take(d));
        lemma_ancestor(trie, p, d)
    }
}

/// Below a node whose path starts the path `s` of some node lies, one level
/// down, the child whose path is one symbol longer.
pub(crate) proof fn lemma_next_on_path(trie: &Trie, v: int, u: int) -> (a: int)
    requires
        trie.wf(),
        trie.bfs_layout(),
        trie.children_sorted(),
        0 <= v < trie.nodes(),
        0 <= u < trie.nodes(),
        trie.path(v).len() < trie.path(u).len(),
        trie.path(u).take(trie.path(v).len() as int) == trie.path(v),
    ensures
        child_of(trie, v, a),
        trie.path(a) == trie.path(u).take(trie.path(v).len() as int + 1),
{
    trie.lemma_wf();
    let d = trie.path(v).len() as int;
    let a = lemma_ancestor(trie, u, d + 1);
    if a == 0 {
        assert(trie.path(0).len() == 0);
    }
    lemma_one_parent(trie, a);
    let p = trie.parents_spec()[a] as int;
    assert(trie.path(a) == trie.path(p).push(trie.labels_spec()[a]));
    assert(trie.path(p) =~= trie.path(a).drop_last());
    assert(trie.path(u).take(d + 1).drop_last() =~= trie.path(u).take(d));
    lemma_paths_distinct(trie, p, v);
    a
}

/// The shortest and longest lengths and the classes below each node are
/// aggregated over its children.
#[verifier::opaque]
spec fn lengths_and_classes_aggregated(trie: &Trie) -> bool {
    forall|v: int| 0 <= v < trie.nodes() ==> {
        let s = trie.starts_spec()[v] as int;
        let k = trie.counts_spec()[v] as nat;
        &&& #[trigger] trie.len_mins_spec()[v] == agg_min(trie.own_len_min(v), trie.len_mins_spec(), s, k)
        &&& trie.len_maxs_spec()[v] == agg_max(trie.own_len_max(v), trie.len_maxs_spec(), s, k)
        &&& trie.masks_spec()[v] == agg_mask(trie.labels_spec(), trie.masks_spec(), s, k)
    }
}

proof fn lemma_lengths_and_classes_aggregated(trie: &Trie)
    requires
        trie.aggregates_ok(),
    ensures
        lengths_and_classes_aggregated(trie),
{
    reveal(lengths_and_classes_aggregated);
    assert forall|v: int| 0 <= v < trie.nodes() implies {
        let s = trie.starts_spec()[v] as int;
        let k = trie.counts_spec()[v] as nat;
        &&& #[trigger] trie.len_mins_spec()[v] == agg_min(trie.own_len_min(v), trie.len_mins_spec(), s, k)
        &&& trie.len_maxs_spec()[v] == agg_max(trie.own_len_max(v), trie.len_maxs_spec(), s, k)
        &&& trie.masks_spec()[v] == agg_mask(trie.labels_spec(), trie.masks_spec(), s, k)
    } by {
        let s = trie.starts_spec()[v] as int;
        let k = trie.counts_spec()[v] as nat;
        assert(trie.max_weights_spec()[v] == agg_max(trie.own_weight(v), trie.max_weights_spec(), s, k));
    }
}

/// What a running minimum is: at most each value.
proof fn lemma_agg_min(own: u16, vals: Seq<u16>, s: int, k: nat)
    ensures
        agg_min(own, vals, s, k) <= own,
        forall|i: int| 0 <= i < k ==> agg_min(own, vals, s, k) <= #[trigger] vals[s + i],
    decreases k,
{
    if k > 0 {
        lemma_agg_min(own, vals, s, (k - 1) as nat);
    }
}

/// Every child's class and classes lie in the union of a node's children.
proof fn lemma_agg_mask(labels: Seq<u32>, masks: Seq<u64>, s: int, k: nat)
    ensures
        forall|i: int| 0 <= i < k ==> (sym_class(#[trigger] labels[s + i]) | masks[s + i])
            & !agg_mask(labels, masks, s, k) == 0,
    decreases k,
{
    if k > 0 {
        lemma_agg_mask(labels, masks, s, (k - 1) as nat);
        let a = agg_mask(labels, masks, s, (k - 1) as nat);
        let c = sym_class(labels[s + k - 1]);
        let m = masks[s + k - 1];
        assert(agg_mask(labels, masks, s, k) == a | c | m);
        assert((c | m) & !(a | c | m) == 0) by (bit_vector);
        assert forall|i: int| 0 <= i < k implies (sym_class(#[trigger] labels[s + i]) | masks[s + i])
            & !agg_mask(labels, masks, s, k) == 0 by {
            if i < k - 1 {
                let t = sym_class(labels[s + i]) | masks[s + i];
                assert(t & !a == 0 ==> t & !(a | c | m) == 0) by (bit_vector);
            }
        }
    }
}

/// Along the parents from `u` up to `v`, the shortest length only shrinks,
/// the longest only grows and the classes only gather; the label of a node
/// strictly below `v` is among the classes of `v`.
proof fn lemma_below_aggregates(trie: &Trie, u: int, v: int)
    requires
        trie.wf(),
        trie.bfs_layout(),
        lengths_and_classes_aggregated(trie),
        0 <= u < trie.nodes(),
        below(trie, u, v),
    ensures
        trie.len_mins_spec()[v] <= trie.len_mins_spec()[u] <= trie.own_len_min(u),
        trie.own_len_max(u) <= trie.len_maxs_spec()[u] <= trie.len_maxs_spec()[v],
        trie.masks_spec()[u] & !trie.masks_spec()[v] == 0,
        u != v ==> sym_class(trie.labels_spec()[u]) & !trie.masks_spec()[v] == 0,
    decreases u,
{
    trie.lemma_wf();
    reveal(lengths_and_classes_aggregated);
    let s = trie.starts_spec()[u] as int;
    let k = trie.counts_spec()[u] as nat;
    assert(trie.len_mins_spec()[u] == agg_min(trie.own_len_min(u), trie.len_mins_spec(), s, k));
    lemma_agg_min(trie.own_len_min(u), trie.len_mins_spec(), s, k);
    lemma_agg_max(trie.own_len_max(u), trie.len_maxs_spec(), s, k);
    let mu = trie.masks_spec()[u];
    assert(mu & !mu == 0) by (bit_vector);
    if u != v {
        let p = trie.parents_spec()[u] as int;
        lemma_one_parent(trie, u);
        let sp = trie.starts_spec()[p] as int;
        let kp = trie.counts_spec()[p] as nat;
        assert(trie.len_mins_spec()[p] == agg_min(trie.own_len_min(p), trie.len_mins_spec(), sp, kp));
        lemma_agg_min(trie.own_len_min(p), trie.len_mins_spec(), sp, kp);
        lemma_agg_max(trie.own_len_max(p), trie.len_maxs_spec(), sp, kp);
        lemma_agg_mask(trie.labels_spec(), trie.masks_spec(), sp, kp);
        assert(trie.len_mins_spec()[p] <= trie.len_mins_spec()[sp + (u - sp)]);
        assert(trie.len_maxs_spec()[sp + (u - sp)] <= trie.len_maxs_spec()[p]);
        let cu = sym_class(trie.labels_spec()[sp + (u - sp)]);
        assert((cu | trie.masks_spec()[sp + (u - sp)]) & !trie.masks_spec()[p] == 0);
        lemma_below_aggregates(trie, p, v);
        let mp = trie.masks_spec()[p];
        let mv = trie.masks_spec()[v];
        assert((cu | mu) & !mp == 0 && mp & !mv == 0 ==> mu & !mv == 0 && cu & !mv == 0) by (bit_vector);
    }
}

/// A node whose path starts with the path of `v` lies below `v`.
pub(crate) proof fn lemma_prefix_below(trie: &Trie, a: int, v: int)
    requires
        trie.wf(),
        trie.bfs_layout(),
        trie.children_sorted(),
        0 <= a < trie.nodes(),
        0 <= v < trie.nodes(),
        trie.path(v).len() <= trie.path(a).len(),
        trie.path(a).take(trie.path(v).len() as int) == trie.path(v),
    ensures
        below(trie, a, v),
    decreases a,
{
    trie.lemma_wf();
    if trie.path(a).len() == trie.path(v).len() {
        assert(trie.path(a).take(trie.path(v).len() as int) =~= trie.path(a));
        lemma_paths_distinct(trie, a, v);
    } else {
        if a == 0 {
            assert(trie.path(0).len() == 0);
        }
        lemma_one_parent(trie, a);
        let p = trie.parents_spec()[a] as int;
        assert(trie.path(a) == trie.path(p).push(trie.labels_spec()[a]));
        assert(trie.path(p).take(trie.path(v).len() as int) =~= trie.path(a).take(trie.path(v).len() as int));
        lemma_prefix_below(trie, p, v);
    }
}

/// The classes of the query symbols from position `i` on lie among the
/// classes below `v`, when `v` is on the path of a node whose path starts
/// with the query and `i` is at least the depth of `v`.
proof fn lemma_suffix_classes(trie: &Trie, qs: Seq<u32>, un: int, v: int, i: int)
    requires
        trie.wf(),
        trie.bfs_layout(),
        trie.children_sorted(),
        lengths_and_classes_aggregated(trie),
        0 <= un < trie.nodes(),
        0 <= v < trie.nodes(),
        qs.len() <= trie.path(un).len(),
        trie.path(un).take(qs.len() as int) == qs,
        trie.path(v).len() <= i <= qs.len(),
        qs.take(trie.path(v).len() as int) == trie.path(v),
    ensures
        crate::search::suffix_mask(qs, i) & !trie.masks_spec()[v] == 0,
    decreases qs.len() - i,
{
    let mv = trie.masks_spec()[v];
    if i == qs.len() {
        assert(0u64 & !mv == 0) by (bit_vector);
    } else {
        lemma_suffix_classes(trie, qs, un, v, i + 1);
        let a = lemma_ancestor(trie, un, i + 1);
        if a == 0 {
            assert(trie.path(0).len() == 0);
        }
        lemma_one_parent(trie, a);
        let p = trie.parents_spec()[a] as int;
        assert(trie.path(a) == trie.path(p).push(trie.labels_spec()[a]));
        assert(trie.path(a) == trie.path(un).take(i + 1));
        assert(trie.path(a).len() == i + 1);
        assert(trie.path(a)[i] == trie.labels_spec()[a]);
        assert(trie.path(un).take(qs.len() as int)[i] == qs[i]);
        assert(trie.path(a)[i] == qs[i]);
        assert(trie.path(a).take(trie.path(v).len() as int) =~= qs.take(trie.path(v).len() as int));
        lemma_prefix_below(trie, a, v);
        lemma_below_aggregates(trie, a, v);
        let c = sym_class(qs[i]);
        let r = crate::search::suffix_mask(qs, i + 1);
        assert(c & !mv == 0 && r & !mv == 0 ==> (c | r) & !mv == 0) by (bit_vector);
    }
}

/// A node on the path of a node that carries a term starting with the
/// query `qs` bounds that term's length by its shortest and longest
/// lengths, and holds the classes of the rest of the query below it.
pub(crate) proof fn lemma_on_query_path(trie: &Trie, qs: Seq<u32>, un: int, v: int)
    requires
        trie.wf(),
        trie.bfs_layout(),
        trie.children_sorted(),
        trie.aggregates_ok(),
        0 <= un < trie.nodes(),
        0 <= v < trie.nodes(),
        trie.term_ids_spec()[un] != NO_TERM,
        qs.len() <= trie.path(un).len() <= 0xFFFF,
        trie.path(un).take(qs.len() as int) == qs,
        trie.path(v).len() <= qs.len(),
        qs.take(trie.path(v).len() as int) == trie.path(v),
    ensures
        trie.len_mins_spec()[v] <= trie.path(un).len() <= trie.len_maxs_spec()[v],
        crate::search::suffix_mask(qs, trie.path(v).len() as int) & !trie.masks_spec()[v] == 0,
{
    lemma_lengths_and_classes_aggregated(trie);
    assert(trie.path(un).take(trie.path(v).len() as int) =~= qs.take(trie.path(v).len() as int));
    lemma_prefix_below(trie, un, v);
    lemma_below_aggregates(trie, un, v);
    lemma_suffix_classes(trie, qs, un, v, trie.path(v).len() as int);
}

} // verus!
