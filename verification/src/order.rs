//! Lexicographic order of symbol sequences, and a merge sort of entry
//! indices by (symbols ascending, weight descending, index ascending).
use vstd::prelude::*;

verus! {

/// `a` sorts strictly before `b`: at the first position where they differ
/// `a` has the smaller symbol, or `a` is a proper prefix of `b`. This is the
/// order of the UTF-8 bytes of the corresponding strings.
pub open spec fn lex_lt(a: Seq<u32>, b: Seq<u32>) -> bool
    decreases a.len(),
{
    if a.len() == 0 {
        b.len() > 0
    } else if b.len() == 0 {
        false
    } else if a[0] != b[0] {
        a[0] < b[0]
    } else {
        lex_lt(a.drop_first(), b.drop_first())
    }
}

/// The order is irreflexive.
pub proof fn lemma_lex_irreflexive(a: Seq<u32>)
    ensures
        !lex_lt(a, a),
    decreases a.len(),
{
    if a.len() > 0 {
        lemma_lex_irreflexive(a.drop_first());
    }
}

/// The order is transitive.
pub proof fn lemma_lex_transitive(a: Seq<u32>, b: Seq<u32>, c: Seq<u32>)
    requires
        lex_lt(a, b),
        lex_lt(b, c),
    ensures
        lex_lt(a, c),
    decreases a.len(),
{
    if a.len() > 0 && b.len() > 0 && c.len() > 0 && a[0] == b[0] && b[0] == c[0] {
        lemma_lex_transitive(a.drop_first(), b.drop_first(), c.drop_first());
    }
}

/// Two different sequences are ordered one way or the other.
pub proof fn lemma_lex_total(a: Seq<u32>, b: Seq<u32>)
    ensures
        a == b || lex_lt(a, b) || lex_lt(b, a),
    decreases a.len(),
{
    if a.len() > 0 && b.len() > 0 && a[0] == b[0] {
        lemma_lex_total(a.drop_first(), b.drop_first());
        if a.drop_first() == b.drop_first() {
            assert(a =~= seq![a[0]] + a.drop_first());
            assert(b =~= seq![b[0]] + b.drop_first());
        }
    } else if a.len() == 0 && b.len() == 0 {
        assert(a =~= b);
    }
}

/// At most one of the two directions holds.
pub proof fn lemma_lex_asymmetric(a: Seq<u32>, b: Seq<u32>)
    ensures
        !(lex_lt(a, b) && lex_lt(b, a)),
{
    if lex_lt(a, b) && lex_lt(b, a) {
        lemma_lex_transitive(a, b, a);
        lemma_lex_irreflexive(a);
    }
}

/// A sequence sorts before any longer sequence it is a prefix of; and
/// sequences that share a prefix of length `d` and differ at `d` are ordered
/// by their symbols at `d`.
pub proof fn lemma_lex_at(a: Seq<u32>, b: Seq<u32>, d: int)
    requires
        0 <= d <= a.len(),
        d <= b.len(),
        a.take(d) == b.take(d),
    ensures
        (d == a.len() && d < b.len()) ==> lex_lt(a, b),
        (d < a.len() && d < b.len() && a[d] < b[d]) ==> lex_lt(a, b),
        (d < a.len() && d < b.len() && a[d] > b[d]) ==> lex_lt(b, a),
        (d < a.len() && d == b.len()) ==> lex_lt(b, a),
    decreases d,
{
    if d > 0 {
        assert(a[0] == a.take(d)[0]);
        assert(b[0] == b.take(d)[0]);
        assert(a.drop_first().take(d - 1) =~= a.take(d).drop_first());
        assert(b.drop_first().take(d - 1) =~= b.take(d).drop_first());
        lemma_lex_at(a.drop_first(), b.drop_first(), d - 1);
    }
}

/// Compares two symbol sequences: `-1`, `0` or `1` as `a` sorts before, is
/// equal to or sorts after `b`.
pub fn lex_compare(a: &[u32], b: &[u32]) -> (r: i8)
    ensures
        r == -1 <==> lex_lt(a@, b@),
        r == 0 <==> a@ == b@,
        r == 1 <==> lex_lt(b@, a@),
        r == -1 || r == 0 || r == 1,
{
    let mut i: usize = 0;
    while i < a.len() && i < b.len() && a[i] == b[i]
        invariant
            i <= a.len(),
            i <= b.len(),
            a@.take(i as int) == b@.take(i as int),
        decreases a.len() - i,
    {
        assert(a@.take(i + 1) =~= a@.take(i as int).push(a@[i as int]));
        assert(b@.take(i + 1) =~= b@.take(i as int).push(b@[i as int]));
        i = i + 1;
    }
    proof {
        lemma_lex_at(a@, b@, i as int);
        lemma_lex_asymmetric(a@, b@);
        lemma_lex_irreflexive(a@);
    }
    if i == a.len() && i == b.len() {
        assert(a@ =~= a@.take(i as int));
        assert(b@ =~= b@.take(i as int));
        0
    } else if i == a.len() {
        assert(a@ != b@);
        -1
    } else if i == b.len() {
        assert(a@ != b@);
        1
    } else if a[i] < b[i] {
        assert(a@[i as int] != b@[i as int]);
        -1
    } else {
        assert(a@[i as int] != b@[i as int]);
        1
    }
}

/// Entry `i` sorts before entry `j`: by symbols, then by higher weight, then
/// by lower index.
pub open spec fn entry_lt(s: Seq<Seq<u32>>, w: Seq<u16>, i: int, j: int) -> bool {
    lex_lt(s[i], s[j]) || (s[i] == s[j] && (w[i] > w[j] || (w[i] == w[j] && i < j)))
}

/// `entry_lt` is transitive.
pub proof fn lemma_entry_transitive(s: Seq<Seq<u32>>, w: Seq<u16>, i: int, j: int, k: int)
    requires
        entry_lt(s, w, i, j),
        entry_lt(s, w, j, k),
    ensures
        entry_lt(s, w, i, k),
{
    if lex_lt(s[i], s[j]) && lex_lt(s[j], s[k]) {
        lemma_lex_transitive(s[i], s[j], s[k]);
    }
}

/// Different entries are ordered one way or the other.
pub proof fn lemma_entry_total(s: Seq<Seq<u32>>, w: Seq<u16>, i: int, j: int)
    requires
        i != j,
    ensures
        entry_lt(s, w, i, j) || entry_lt(s, w, j, i),
{
    lemma_lex_total(s[i], s[j]);
}

/// `entry_lt` is irreflexive and asymmetric.
pub proof fn lemma_entry_asymmetric(s: Seq<Seq<u32>>, w: Seq<u16>, i: int, j: int)
    ensures
        !(entry_lt(s, w, i, j) && entry_lt(s, w, j, i)),
{
    lemma_lex_asymmetric(s[i], s[j]);
    lemma_lex_irreflexive(s[i]);
}

fn entry_before(s: &Vec<Vec<u32>>, w: &Vec<u16>, i: usize, j: usize) -> (r: bool)
    requires
        i < s.len(),
        j < s.len(),
        s.len() == w.len(),
    ensures
        r == entry_lt(s.deep_view(), w@, i as int, j as int),
{
    let c = lex_compare(s[i].as_slice(), s[j].as_slice());
    proof {
        assert(s.deep_view()[i as int] == s[i as int]@);
        assert(s.deep_view()[j as int] == s[j as int]@);
    }
    if c == -1 {
        true
    } else if c == 1 {
        false
    } else if w[i] != w[j] {
        w[i] > w[j]
    } else {
        i < j
    }
}

/// `v` lists indices in strictly increasing entry order.
pub open spec fn sorted_by_entry(s: Seq<Seq<u32>>, w: Seq<u16>, v: Seq<usize>) -> bool {
    forall|p: int, q: int| 0 <= p < q < v.len() ==> entry_lt(s, w, v[p] as int, v[q] as int)
}

fn merge(s: &Vec<Vec<u32>>, w: &Vec<u16>, a: Vec<usize>, b: Vec<usize>) -> (out: Vec<usize>)
    requires
        s.len() == w.len(),
        forall|p: int| 0 <= p < a.len() ==> a[p] < s.len(),
        forall|p: int| 0 <= p < b.len() ==> b[p] < s.len(),
        sorted_by_entry(s.deep_view(), w@, a@),
        sorted_by_entry(s.deep_view(), w@, b@),
        forall|p: int, q: int| 0 <= p < a.len() && 0 <= q < b.len() ==> a[p] != b[q],
    ensures
        out.len() == a.len() + b.len(),
        sorted_by_entry(s.deep_view(), w@, out@),
        forall|p: int| 0 <= p < out.len() ==> (a@.contains(out[p]) || b@.contains(out[p])),
        forall|p: int| 0 <= p < a.len() ==> out@.contains(a[p]),
        forall|p: int| 0 <= p < b.len() ==> out@.contains(b[p]),
{
    let ghost sv = s.deep_view();
    let mut out: Vec<usize> = Vec::new();
    let mut i: usize = 0;
    let mut j: usize = 0;
    while i < a.len() || j < b.len()
        invariant
            s.len() == w.len(),
            sv == s.deep_view(),
            i <= a.len(),
            j <= b.len(),
            out.len() == i + j,
            forall|p: int| 0 <= p < a.len() ==> a[p] < s.len(),
            forall|p: int| 0 <= p < b.len() ==> b[p] < s.len(),
            sorted_by_entry(sv, w@, a@),
            sorted_by_entry(sv, w@, b@),
            forall|p: int, q: int| 0 <= p < a.len() && 0 <= q < b.len() ==> a[p] != b[q],
            sorted_by_entry(sv, w@, out@),
            forall|p: int| 0 <= p < out.len() ==> (a@.contains(out[p]) || b@.contains(out[p])),
            forall|p: int| 0 <= p < i ==> out@.contains(a[p]),
            forall|p: int| 0 <= p < j ==> out@.contains(b[p]),
            forall|p: int, q: int| 0 <= p < out.len() && i <= q < a.len() ==> entry_lt(sv, w@, out[p] as int, a[q] as int),
            forall|p: int, q: int| 0 <= p < out.len() && j <= q < b.len() ==> entry_lt(sv, w@, out[p] as int, b[q] as int),
        decreases a.len() + b.len() - i - j,
    {
        let take_a = if i == a.len() {
            false
        } else if j == b.len() {
            true
        } else {
            entry_before(s, w, a[i], b[j])
        };
        let x = if take_a { a[i] } else { b[j] };
        proof {
            if i < a.len() && j < b.len() {
                lemma_entry_total(sv, w@, a[i as int] as int, b[j as int] as int);
            }
            assert forall|q: int| i <= q < a.len() && (!take_a || q > i) implies entry_lt(sv, w@, x as int, a[q] as int) by {
                if take_a {
                    assert(entry_lt(sv, w@, a[i as int] as int, a[q] as int));
                } else if i < a.len() {
                    assert(entry_lt(sv, w@, b[j as int] as int, a[i as int] as int));
                    if q > i {
                        lemma_entry_transitive(sv, w@, b[j as int] as int, a[i as int] as int, a[q] as int);
                    }
                }
            }
            assert forall|q: int| j <= q < b.len() && (take_a || q > j) implies entry_lt(sv, w@, x as int, b[q] as int) by {
                if !take_a {
                    assert(entry_lt(sv, w@, b[j as int] as int, b[q] as int));
                } else if j < b.len() {
                    assert(entry_lt(sv, w@, a[i as int] as int, b[j as int] as int));
                    if q > j {
                        lemma_entry_transitive(sv, w@, a[i as int] as int, b[j as int] as int, b[q] as int);
                    }
                }
            }
        }
        let ghost old_out = out@;
        out.push(x);
        proof {
            assert(out@.last() == x);
            assert forall|p: int| 0 <= p < old_out.len() implies #[trigger] out@[p] == old_out[p] by {}
            assert(out@[old_out.len() as int] == x);
        }
        if take_a {
            proof {
                assert(a@.contains(x)) by { assert(a@[i as int] == x); }
                assert forall|p: int| 0 <= p < i + 1 implies out@.contains(a[p]) by {
                    if p < i {
                        assert(old_out.contains(a[p]));
                        let r = choose|r: int| 0 <= r < old_out.len() && old_out[r] == a[p];
                        assert(out@[r] == a[p]);
                    } else {
                        assert(out@[old_out.len() as int] == a[p]);
                    }
                }
                assert forall|p: int| 0 <= p < j implies out@.contains(b[p]) by {
                    assert(old_out.contains(b[p]));
                    let r = choose|r: int| 0 <= r < old_out.len() && old_out[r] == b[p];
                    assert(out@[r] == b[p]);
                }
            }
            i = i + 1;
        } else {
            proof {
                assert(b@.contains(x)) by { assert(b@[j as int] == x); }
                assert forall|p: int| 0 <= p < j + 1 implies out@.contains(b[p]) by {
                    if p < j {
                        assert(old_out.contains(b[p]));
                        let r = choose|r: int| 0 <= r < old_out.len() && old_out[r] == b[p];
                        assert(out@[r] == b[p]);
                    } else {
                        assert(out@[old_out.len() as int] == b[p]);
                    }
                }
                assert forall|p: int| 0 <= p < i implies out@.contains(a[p]) by {
                    assert(old_out.contains(a[p]));
                    let r = choose|r: int| 0 <= r < old_out.len() && old_out[r] == a[p];
                    assert(out@[r] == a[p]);
                }
            }
            j = j + 1;
        }
        proof {
            assert forall|p: int, q: int| 0 <= p < q < out.len() implies entry_lt(sv, w@, out[p] as int, out[q] as int) by {
                if q < old_out.len() {
                    assert(out@[p] == old_out[p] && out@[q] == old_out[q]);
                } else {
                    assert(out@[p] == old_out[p]);
                    assert(out@[q] == x);
                    if take_a {
                        assert(entry_lt(sv, w@, old_out[p] as int, a[(i - 1) as int] as int));
                    } else {
                        assert(entry_lt(sv, w@, old_out[p] as int, b[(j - 1) as int] as int));
                    }
                }
            }
            assert forall|p: int| 0 <= p < out.len() implies (a@.contains(out[p]) || b@.contains(out[p])) by {
                if p < old_out.len() {
                    assert(out@[p] == old_out[p]);
                }
            }
            assert forall|p: int, q: int| 0 <= p < out.len() && i <= q < a.len() implies entry_lt(sv, w@, out[p] as int, a[q] as int) by {
                if p < old_out.len() {
                    assert(out@[p] == old_out[p]);
                    if take_a {
                        assert(entry_lt(sv, w@, old_out[p] as int, a[q] as int));
                    }
                }
            }
            assert forall|p: int, q: int| 0 <= p < out.len() && j <= q < b.len() implies entry_lt(sv, w@, out[p] as int, b[q] as int) by {
                if p < old_out.len() {
                    assert(out@[p] == old_out[p]);
                }
            }
        }
    }
    out
}

/// The indices `lo..hi` sorted by [`entry_lt`].
pub fn sort_entries(s: &Vec<Vec<u32>>, w: &Vec<u16>, lo: usize, hi: usize) -> (out: Vec<usize>)
    requires
        s.len() == w.len(),
        lo <= hi <= s.len(),
    ensures
        out.len() == hi - lo,
        sorted_by_entry(s.deep_view(), w@, out@),
        forall|p: int| 0 <= p < out.len() ==> lo <= #[trigger] out[p] < hi,
        forall|x: usize| lo <= x < hi ==> out@.contains(x),
    decreases hi - lo,
{
    if hi - lo <= 1 {
        let mut out: Vec<usize> = Vec::new();
        if hi > lo {
            out.push(lo);
            assert(out@[0] == lo);
        }
        return out;
    }
    let mid = lo + (hi - lo) / 2;
    let a = sort_entries(s, w, lo, mid);
    let b = sort_entries(s, w, mid, hi);
    let out = merge(s, w, a, b);
    proof {
        assert forall|p: int| 0 <= p < out.len() implies lo <= #[trigger] out[p] < hi by {
            if a@.contains(out[p]) {
                let r = choose|r: int| 0 <= r < a.len() && a@[r] == out[p];
                assert(lo <= a[r] < mid);
            } else {
                let r = choose|r: int| 0 <= r < b.len() && b@[r] == out[p];
                assert(mid <= b[r] < hi);
            }
        }
        assert forall|x: usize| lo <= x < hi implies out@.contains(x) by {
            if x < mid {
                assert(a@.contains(x));
                let r = choose|r: int| 0 <= r < a.len() && a@[r] == x;
                assert(out@.contains(a[r]));
            } else {
                assert(b@.contains(x));
                let r = choose|r: int| 0 <= r < b.len() && b@[r] == x;
                assert(out@.contains(b[r]));
            }
        }
    }
    out
}

} // verus!
