//! Exact best-first top-k search over a [`Trie`] with weighted edit costs.
//!
//! Each queued trie node carries one banded row of the edit-distance matrix.
//! A row cell `k` at trie depth `j` stands for query prefix length
//! `i = j + k - W`, where `W = budget / c_indel_min` is the band half-width.
//! A node is queued with a lower bound on the cost of every term below it, so
//! the first terminal popped is the best remaining one.
//!
//! The budget, the band and the candidates always use the weighted costs of
//! [`CostModel`]. The order of the results is set by [`Ranking`]: by default
//! ([`Ranking::Coarse`]) terms are ranked by the weighted cost rounded up to
//! whole units of 16, then by higher weight, then by lower term id;
//! [`Ranking::Exact`] ranks by the exact weighted cost instead. In both
//! modes [`Hit::cost`] is the exact weighted cost.
//!
//! Queries and terms are compared per Unicode scalar value (a symbol), not
//! per UTF-8 byte; for ASCII the two are the same.
use vstd::prelude::*;
use crate::cost::{CostModel, INF, sub_spec, del_spec, ins_spec, transpose_spec, syms, units, whole_units, symbol_class, sym_class};
use crate::text::{decode, decode_syms};
use crate::trie::{NO_TERM, Trie, path_of, str_syms, symbols_of};
use crate::shape::{child_of, lemma_next_on_path, lemma_on_query_path, lemma_paths_distinct, lemma_term_at};
use crate::text::norm_str;
use crate::highlight::{aligned_outcome, hl_normalizer, Highlight, HighlightError, HighlightMode, Scratch};

verus! {

/// Longest accepted query, in symbols (code points; bytes for ASCII).
pub const MAX_QUERY_LEN: usize = 128;
/// Largest band half-width: the budget is at most `MAX_W * c_indel_min`.
pub const MAX_W: usize = 8;
/// Number of cells of a banded row (`2 * MAX_W + 1`).
pub const ROW: usize = 17;

/// A cost larger than any alignment cost, for moves that do not exist.
pub open spec fn absent() -> int {
    0x40_0000_0000_0000_0000
}

/// The smaller of two integers.
pub open spec fn min2(a: int, b: int) -> int {
    if a <= b { a } else { b }
}

/// The weighted optimal-string-alignment cost `D[i][j]` of the query prefix
/// `q[..i]` and the term prefix `t[..j]`: substitutions (free for equal
/// symbols), insertions of term symbols, deletions of query symbols and
/// transpositions of two adjacent distinct symbols, each at the cost of the
/// model.
#[verifier::opaque]
pub open spec fn osa(cm: CostModel, q: Seq<u32>, t: Seq<u32>, i: int, j: int) -> int
    decreases i + j,
{
    if i < 0 || j < 0 {
        absent()
    } else if i == 0 && j == 0 {
        0
    } else {
        let sub = if i >= 1 && j >= 1 {
            osa(cm, q, t, i - 1, j - 1) + sub_spec(q[i - 1], t[j - 1], cm.adjacent(q[i - 1], t[j - 1]), i - 1)
        } else {
            absent()
        };
        let tr = if i >= 2 && j >= 2 && q[i - 1] == t[j - 2] && q[i - 2] == t[j - 1] && q[i - 1] != q[i - 2] {
            osa(cm, q, t, i - 2, j - 2) + transpose_spec(i - 2)
        } else {
            absent()
        };
        let ins = if j >= 1 {
            osa(cm, q, t, i, j - 1) + ins_spec(t[j - 1], if j >= 2 { Some(t[j - 2]) } else { None }, i)
        } else {
            absent()
        };
        let del = if i >= 1 {
            osa(cm, q, t, i - 1, j) + del_spec(q, i - 1)
        } else {
            absent()
        };
        min2(min2(sub, tr), min2(ins, del))
    }
}

/// The exact weighted cost of the query `q` against the whole term `t`.
pub open spec fn edit_cost(cm: CostModel, q: Seq<u32>, t: Seq<u32>) -> int {
    osa(cm, q, t, q.len() as int, t.len() as int)
}

/// The cell `D[i][j]` as the banded search holds it: the exact cost when
/// `i` is a query prefix length within `w` of `j` and the cost is within
/// the budget, `INF` otherwise.
pub open spec fn band(cm: CostModel, q: Seq<u32>, t: Seq<u32>, w: int, budget: int, i: int, j: int) -> int {
    if 0 <= i <= q.len() && 0 <= j && i - j <= w && j - i <= w && osa(cm, q, t, i, j) <= budget {
        osa(cm, q, t, i, j)
    } else {
        INF as int
    }
}

proof fn lemma_step_costs(cm: CostModel, q: Seq<u32>, t: Seq<u32>, i: int, j: int)
    ensures
        0 <= sub_spec(q[i - 1], t[j - 1], cm.adjacent(q[i - 1], t[j - 1]), i - 1) <= 24,
        8 <= ins_spec(t[j - 1], if j >= 2 { Some(t[j - 2]) } else { None }, i) <= 24,
        8 <= del_spec(q, i - 1) <= 24,
        12 <= transpose_spec(i - 2) <= 18,
{
}

/// Every alignment pays at least 8 per symbol of length difference.
pub proof fn lemma_osa_floor(cm: CostModel, q: Seq<u32>, t: Seq<u32>, i: int, j: int)
    requires
        0 <= i,
        0 <= j,
        i + j <= 0x4_0000_0000_0000_0000,
    ensures
        osa(cm, q, t, i, j) >= 8 * (if i >= j { i - j } else { j - i }),
        osa(cm, q, t, i, j) >= 0,
    decreases i + j,
{
    reveal(osa);
    lemma_step_costs(cm, q, t, i, j);
    lemma_step_costs(cm, q, t, i + 1, j);
    lemma_step_costs(cm, q, t, i, j + 1);
    if i == 0 && j == 0 {
    } else {
        if i >= 1 && j >= 1 {
            lemma_osa_floor(cm, q, t, i - 1, j - 1);
        }
        if i >= 2 && j >= 2 {
            lemma_osa_floor(cm, q, t, i - 2, j - 2);
        }
        if j >= 1 {
            lemma_osa_floor(cm, q, t, i, j - 1);
        }
        if i >= 1 {
            lemma_osa_floor(cm, q, t, i - 1, j);
        }
    }
}

/// Aligning two equal prefixes costs nothing.
pub proof fn lemma_osa_equal_prefix(cm: CostModel, q: Seq<u32>, t: Seq<u32>, i: int)
    requires
        0 <= i <= q.len(),
        i <= t.len(),
        i <= 0x1_0000_0000,
        q.take(i) == t.take(i),
    ensures
        osa(cm, q, t, i, i) == 0,
    decreases i,
{
    reveal(osa);
    if i > 0 {
        assert(q[i - 1] == q.take(i)[i - 1]);
        assert(t[i - 1] == t.take(i)[i - 1]);
        assert(q.take(i - 1) =~= q.take(i).take(i - 1));
        assert(t.take(i - 1) =~= t.take(i).take(i - 1));
        lemma_osa_equal_prefix(cm, q, t, i - 1);
        lemma_step_costs(cm, q, t, i, i);
        lemma_osa_floor(cm, q, t, i, i - 1);
        lemma_osa_floor(cm, q, t, i - 1, i);
        if i >= 2 {
            lemma_osa_floor(cm, q, t, i - 2, i - 2);
        }
    }
}

/// Every alignment costs at most 24 per symbol.
proof fn lemma_osa_ceiling(cm: CostModel, q: Seq<u32>, t: Seq<u32>, i: int, n: int)
    requires
        0 <= i,
        0 <= n,
    ensures
        osa(cm, q, t, i, n) <= 24 * (i + n),
    decreases i + n,
{
    reveal(osa);
    lemma_step_costs(cm, q, t, i, n);
    if n >= 1 {
        lemma_osa_ceiling(cm, q, t, i, n - 1);
    } else if i >= 1 {
        lemma_osa_ceiling(cm, q, t, i - 1, n);
    }
}

/// Every alignment of the query prefix `q[..i]` with a term prefix of
/// length `n >= j` passes through row `j` (some cell `D[x][j]` with
/// `x <= i` costs no more), or jumps over it with a transposition from row
/// `j - 1` (some `D[x][j - 1]` plus the cheapest transposition costs no
/// more).
pub proof fn lemma_osa_crosses(cm: CostModel, q: Seq<u32>, t: Seq<u32>, j: int, i: int, n: int)
    requires
        0 <= j <= n,
        0 <= i,
        i + n <= 0x1_0000_0000,
    ensures
        (exists|x: int| 0 <= x <= i && #[trigger] osa(cm, q, t, x, j) <= osa(cm, q, t, i, n))
            || (j >= 1 && exists|x: int| 0 <= x <= i && #[trigger] osa(cm, q, t, x, j - 1) + 12 <= osa(cm, q, t, i, n)),
    decreases i + n,
{
    reveal(osa);
    if n == j {
        assert(osa(cm, q, t, i, j) <= osa(cm, q, t, i, n));
    } else {
        lemma_step_costs(cm, q, t, i, n);
        lemma_osa_ceiling(cm, q, t, i, n - 1);
        lemma_osa_floor(cm, q, t, i, n - 1);
        let v = osa(cm, q, t, i, n);
        let sub = if i >= 1 && n >= 1 {
            osa(cm, q, t, i - 1, n - 1) + sub_spec(q[i - 1], t[n - 1], cm.adjacent(q[i - 1], t[n - 1]), i - 1)
        } else {
            absent()
        };
        let tr = if i >= 2 && n >= 2 && q[i - 1] == t[n - 2] && q[i - 2] == t[n - 1] && q[i - 1] != q[i - 2] {
            osa(cm, q, t, i - 2, n - 2) + transpose_spec(i - 2)
        } else {
            absent()
        };
        let ins = osa(cm, q, t, i, n - 1) + ins_spec(t[n - 1], if n >= 2 { Some(t[n - 2]) } else { None }, i);
        let del = if i >= 1 {
            osa(cm, q, t, i - 1, n) + del_spec(q, i - 1)
        } else {
            absent()
        };
        assert(v == min2(min2(sub, tr), min2(ins, del)));
        assert(v < absent());
        if v == sub && i >= 1 {
            lemma_osa_crosses(cm, q, t, j, i - 1, n - 1);
        } else if v == tr && i >= 2 && n >= 2 && q[i - 1] == t[n - 2] && q[i - 2] == t[n - 1] && q[i - 1] != q[i - 2] {
            if n - 2 >= j {
                lemma_osa_crosses(cm, q, t, j, i - 2, n - 2);
            } else {
                assert(osa(cm, q, t, i - 2, j - 1) + 12 <= v);
            }
        } else if v == ins {
            lemma_osa_crosses(cm, q, t, j, i, n - 1);
        } else {
            lemma_osa_crosses(cm, q, t, j, i - 1, n);
        }
    }
}

/// The plain bound of a row is admissible: when every cell of row `j` (the
/// cells of row `j - 1` plus the cheapest transposition, for `j >= 1`) that
/// lies in the band and within the budget is at least `lb`, then `lb` is at
/// most the cost of the term `t`, if that is within the budget.
pub proof fn lemma_row_bound_admissible(cm: CostModel, q: Seq<u32>, t: Seq<u32>, w: int, budget: int, j: int, lb: int,
    cur: Seq<u16>, prev: Seq<u16>)
    requires
        0 <= j <= t.len() <= 0xFFFF,
        q.len() <= 0xFFFF,
        0 <= w,
        0 <= budget < 8 * (w + 1),
        budget < INF,
        forall|k: int| 0 <= k <= 2 * w ==> #[trigger] cur[k] == band(cm, q, t, w, budget, j + k - w, j),
        j >= 1 ==> forall|k: int| 0 <= k <= 2 * w ==> #[trigger] prev[k] == band(cm, q, t, w, budget, j - 1 + k - w, j - 1),
        forall|k: int| 0 <= k <= 2 * w && #[trigger] cur[k] < INF && j <= q.len() + w && j + k >= w
            && j + k - w <= q.len() ==> lb <= cur[k],
        j >= 1 ==> forall|k: int| 0 <= k <= 2 * w && #[trigger] prev[k] < INF ==> lb <= prev[k] + 12,
        edit_cost(cm, q, t) <= budget,
    ensures
        lb <= edit_cost(cm, q, t),
{
    let m = q.len() as int;
    let c = edit_cost(cm, q, t);
    lemma_osa_crosses(cm, q, t, j, m, t.len() as int);
    if exists|x: int| 0 <= x <= m && #[trigger] osa(cm, q, t, x, j) <= c {
        let x = choose|x: int| 0 <= x <= m && #[trigger] osa(cm, q, t, x, j) <= c;
        lemma_osa_floor(cm, q, t, x, j);
        let k = x - j + w;
        assert(cur[k] == band(cm, q, t, w, budget, j + k - w, j));
        assert(j + k - w == x);
        assert(cur[k] == osa(cm, q, t, x, j));
    } else {
        let x = choose|x: int| 0 <= x <= m && #[trigger] osa(cm, q, t, x, j - 1) + 12 <= c;
        lemma_osa_floor(cm, q, t, x, j - 1);
        let k = x - (j - 1) + w;
        assert(prev[k] == band(cm, q, t, w, budget, j - 1 + k - w, j - 1));
        assert(j - 1 + k - w == x);
        assert(prev[k] == osa(cm, q, t, x, j - 1));
    }
}

/// `D[i][j]` depends only on the first `j` symbols of the term.
pub proof fn lemma_osa_prefix(cm: CostModel, q: Seq<u32>, t: Seq<u32>, u: Seq<u32>, i: int, j: int)
    requires
        0 <= j <= t.len(),
        j <= u.len(),
        t.take(j) == u.take(j),
    ensures
        osa(cm, q, t, i, j) == osa(cm, q, u, i, j),
    decreases i + j,
{
    reveal(osa);
    if i < 0 || j < 0 || (i == 0 && j == 0) {
    } else {
        if j >= 1 {
            assert(t[j - 1] == t.take(j)[j - 1]);
            assert(u[j - 1] == u.take(j)[j - 1]);
        }
        if j >= 2 {
            assert(t[j - 2] == t.take(j)[j - 2]);
            assert(u[j - 2] == u.take(j)[j - 2]);
        }
        if i >= 1 && j >= 1 {
            assert(t.take(j - 1) =~= t.take(j).take(j - 1));
            assert(u.take(j - 1) =~= u.take(j).take(j - 1));
            lemma_osa_prefix(cm, q, t, u, i - 1, j - 1);
        }
        if i >= 2 && j >= 2 {
            assert(t.take(j - 2) =~= t.take(j).take(j - 2));
            assert(u.take(j - 2) =~= u.take(j).take(j - 2));
            lemma_osa_prefix(cm, q, t, u, i - 2, j - 2);
        }
        if j >= 1 {
            assert(t.take(j - 1) =~= t.take(j).take(j - 1));
            assert(u.take(j - 1) =~= u.take(j).take(j - 1));
            lemma_osa_prefix(cm, q, t, u, i, j - 1);
        }
        if i >= 1 {
            lemma_osa_prefix(cm, q, t, u, i - 1, j);
        }
    }
}

/// The substitution (or match) candidate of a cell.
pub open spec fn cand_sub(cm: CostModel, q: Seq<u32>, i: int, ch: u32, diag: int) -> int {
    if i >= 1 && diag < INF {
        diag + sub_spec(q[i - 1], ch, cm.adjacent(q[i - 1], ch), i - 1)
    } else {
        INF as int
    }
}

/// The transposition candidate of a cell.
pub open spec fn cand_tr(q: Seq<u32>, i: int, ch: u32, parent: Option<u32>, skip2: int) -> int {
    if i >= 2 && parent == Some(q[i - 1]) && q[i - 2] == ch && q[i - 1] != q[i - 2] && skip2 < INF {
        skip2 + transpose_spec(i - 2)
    } else {
        INF as int
    }
}

/// The insertion candidate of a cell.
pub open spec fn cand_ins(i: int, ch: u32, parent: Option<u32>, up: int) -> int {
    if up < INF {
        up + ins_spec(ch, parent, i)
    } else {
        INF as int
    }
}

/// The deletion candidate of a cell.
pub open spec fn cand_del(q: Seq<u32>, i: int, left: int) -> int {
    if i >= 1 && left < INF {
        left + del_spec(q, i - 1)
    } else {
        INF as int
    }
}

/// The value of a cell from its neighbours, capped at the budget.
pub open spec fn cell_value(cm: CostModel, q: Seq<u32>, i: int, ch: u32, parent: Option<u32>,
    diag: int, up: int, left: int, skip2: int, budget: int) -> int {
    let b = min2(min2(cand_sub(cm, q, i, ch, diag), cand_tr(q, i, ch, parent, skip2)),
        min2(cand_ins(i, ch, parent, up), cand_del(q, i, left)));
    if b > budget { INF as int } else { b }
}

/// A banded cell computed from its banded neighbours is the banded cell.
pub proof fn lemma_cell(cm: CostModel, q: Seq<u32>, t: Seq<u32>, w: int, budget: int, i: int, j: int,
    ch: u32, parent: Option<u32>)
    requires
        0 <= i <= q.len(),
        0 <= j <= t.len(),
        i + j <= 0x4_0000_0000_0000_0000,
        i - j <= w,
        j - i <= w,
        0 <= w,
        budget < 8 * (w + 1),
        0 <= budget <= 64,
        j >= 1 ==> ch == t[j - 1],
        parent == (if j >= 2 { Some(t[j - 2]) } else { None::<u32> }),
    ensures
        cell_value(cm, q, i, ch, parent, band(cm, q, t, w, budget, i - 1, j - 1), band(cm, q, t, w, budget, i, j - 1),
            band(cm, q, t, w, budget, i - 1, j), band(cm, q, t, w, budget, i - 2, j - 2), budget)
            == band(cm, q, t, w, budget, i, j) || (i == 0 && j == 0),
{
    reveal(osa);
    if i == 0 && j == 0 {
        return;
    }
    let diag = band(cm, q, t, w, budget, i - 1, j - 1);
    let up = band(cm, q, t, w, budget, i, j - 1);
    let left = band(cm, q, t, w, budget, i - 1, j);
    let skip2 = band(cm, q, t, w, budget, i - 2, j - 2);
    let d = osa(cm, q, t, i, j);
    let es = cand_sub(cm, q, i, ch, diag);
    let et = cand_tr(q, i, ch, parent, skip2);
    let ei = cand_ins(i, ch, parent, up);
    let ed = cand_del(q, i, left);
    let fs = if i >= 1 && j >= 1 {
        osa(cm, q, t, i - 1, j - 1) + sub_spec(q[i - 1], t[j - 1], cm.adjacent(q[i - 1], t[j - 1]), i - 1)
    } else {
        absent()
    };
    let ft = if i >= 2 && j >= 2 && q[i - 1] == t[j - 2] && q[i - 2] == t[j - 1] && q[i - 1] != q[i - 2] {
        osa(cm, q, t, i - 2, j - 2) + transpose_spec(i - 2)
    } else {
        absent()
    };
    let fi = if j >= 1 {
        osa(cm, q, t, i, j - 1) + ins_spec(t[j - 1], if j >= 2 { Some(t[j - 2]) } else { None }, i)
    } else {
        absent()
    };
    let fd = if i >= 1 {
        osa(cm, q, t, i - 1, j) + del_spec(q, i - 1)
    } else {
        absent()
    };
    assert(d == min2(min2(fs, ft), min2(fi, fd)));
    // Each neighbour is either exact (within band and budget) or over budget.
    if i >= 1 && j >= 1 {
        lemma_osa_floor(cm, q, t, i - 1, j - 1);
        lemma_step_costs(cm, q, t, i, j);
    }
    if i >= 2 && j >= 2 {
        lemma_osa_floor(cm, q, t, i - 2, j - 2);
    }
    if j >= 1 {
        lemma_osa_floor(cm, q, t, i, j - 1);
        lemma_step_costs(cm, q, t, i + 1, j);
    }
    if i >= 1 {
        lemma_osa_floor(cm, q, t, i - 1, j);
        lemma_step_costs(cm, q, t, i, j + 1);
    }
    lemma_osa_floor(cm, q, t, i, j);
    // Every executable candidate is the full one, or absent while the full
    // one is over budget.
    assert(es == fs || (es == INF && fs > budget));
    assert(et == ft || (et == INF && ft > budget));
    assert(ei == fi || (ei == INF && fi > budget));
    assert(ed == fd || (ed == INF && fd > budget));
}


fn cap(v: u16, budget: u16) -> (r: u16)
    ensures
        r == if v > budget { INF } else { v },
{
    if v > budget { INF } else { v }
}

/// The four candidate values of the weighted OSA cell `D[i][j]` (query
/// prefix `q[..i]`, term prefix of length `j` ending in `ch`, whose
/// previous symbol is `parent`, `None` when `j <= 1`): substitution,
/// transposition, insertion and deletion, `INF` for a move that is not
/// available. `diag`, `up`, `left` and `skip2` are `D[i-1][j-1]`,
/// `D[i][j-1]`, `D[i-1][j]` and `D[i-2][j-2]` (`INF` when absent). This is
/// the only place where the cost model's step costs enter a cell: the rows
/// of the search and the traceback of the highlighting both use it.
pub fn moves(cm: &CostModel, q: &[u32], i: usize, ch: u32, parent: Option<u32>, diag: u16, up: u16,
    left: u16, skip2: u16) -> (out: [u16; 4])
    requires
        i <= q.len(),
        diag <= INF,
        up <= INF,
        left <= INF,
        skip2 <= INF,
    ensures
        out@[0] == cand_sub(*cm, q@, i as int, ch, diag as int),
        out@[1] == cand_tr(q@, i as int, ch, parent, skip2 as int),
        out@[2] == cand_ins(i as int, ch, parent, up as int),
        out@[3] == cand_del(q@, i as int, left as int),
{
    proof {
        assert(syms(q@) =~= q@);
    }
    let mut out: [u16; 4] = [INF; 4];
    if i >= 1 && diag < INF {
        out[0] = diag + cm.sub_cost(q[i - 1], ch, i - 1);
    }
    if i >= 2 && diag <= INF && skip2 < INF && q[i - 1] != q[i - 2] && q[i - 2] == ch {
        if let Some(p) = parent {
            if p == q[i - 1] {
                out[1] = skip2 + cm.transpose_cost(i - 2);
            }
        }
    }
    if up < INF {
        out[2] = up + cm.ins_cost(ch, parent, i);
    }
    if i >= 1 && left < INF {
        out[3] = left + cm.del_cost(q, i - 1);
    }
    out
}

/// The smallest of the four candidates of [`moves`].
pub fn best(c: [u16; 4]) -> (r: u16)
    ensures
        r == min2(min2(c@[0] as int, c@[1] as int), min2(c@[2] as int, c@[3] as int)),
{
    let a = if c[0] <= c[1] { c[0] } else { c[1] };
    let b = if c[2] <= c[3] { c[2] } else { c[3] };
    if a <= b { a } else { b }
}

/// The row of the root (term prefix of length 0): `D[i][0]` for the query
/// prefixes within the band.
fn root_row(q: &[u32], cm: &CostModel, w: usize, budget: u16) -> (row: [u16; 17])
    requires
        w <= MAX_W,
        q.len() <= MAX_QUERY_LEN,
        budget < 8 * (w + 1),
        budget <= 64,
    ensures
        forall|k: int| 0 <= k <= 2 * w ==> #[trigger] row@[k] == band(*cm, q@, Seq::empty(), w as int, budget as int, k - w, 0),
{
    let ghost t = Seq::<u32>::empty();
    let mut row: [u16; 17] = [INF; 17];
    row[w] = 0;
    let m = q.len();
    let top = if m < w { m } else { w };
    let mut i: usize = 1;
    assert(band(*cm, q@, t, w as int, budget as int, 0, 0) == 0) by {
        reveal(osa);
    }
    while i <= top
        invariant
            w <= MAX_W,
            m == q.len(),
            m <= MAX_QUERY_LEN,
            top <= m,
            top <= w,
            1 <= i <= top + 1,
            budget < 8 * (w + 1),
            budget <= 64,
            forall|k: int| 0 <= k <= 2 * w ==> #[trigger] row@[k] == if k - w < i {
                band(*cm, q@, t, w as int, budget as int, k - w, 0)
            } else {
                INF as int
            },
        decreases top + 1 - i,
    {
        let left = row[w + i - 1];
        proof {
            lemma_cell(*cm, q@, t, w as int, budget as int, i as int, 0, 0, None);
            assert(left == band(*cm, q@, t, w as int, budget as int, i - 1, 0));
        }
        let c = moves(cm, q, i, 0, None, INF, INF, left, INF);
        let v = cap(best(c), budget);
        row[w + i] = v;
        i = i + 1;
    }
    proof {
        assert forall|k: int| 0 <= k <= 2 * w implies #[trigger] row@[k] == band(*cm, q@, t, w as int, budget as int, k - w, 0) by {
            if k - w >= i {
                assert(k - w > m || k - w > w);
            }
        }
    }
    row
}

/// The row of child `ch` of a node at `depth` whose row is `cur` and whose
/// parent's row is `prev`; `parent_label` is the symbol into the node.
#[verifier::spinoff_prover]
#[verifier::rlimit(40)]
fn child_row(q: &[u32], cm: &CostModel, w: usize, budget: u16, depth: usize, parent_label: u32, ch: u32,
    cur: &[u16; 17], prev: &[u16; 17], Ghost(t): Ghost<Seq<u32>>) -> (out: [u16; 17])
    requires
        w <= MAX_W,
        q.len() <= MAX_QUERY_LEN,
        depth < usize::MAX,
        budget < 8 * (w + 1),
        budget <= 64,
        t.len() == depth + 1,
        ch == t[depth as int],
        depth >= 1 ==> parent_label == t[depth - 1],
        forall|k: int| 0 <= k <= 2 * w ==> #[trigger] cur@[k] == band(*cm, q@, t, w as int, budget as int, depth + k - w, depth as int),
        forall|k: int| 0 <= k <= 2 * w ==> #[trigger] prev@[k] == band(*cm, q@, t, w as int, budget as int, depth - 1 + k - w, depth - 1),
    ensures
        forall|k: int| 0 <= k <= 2 * w ==> #[trigger] out@[k] == band(*cm, q@, t, w as int, budget as int, depth + 1 + k - w, depth + 1),
{
    let m = q.len();
    let j = depth + 1;
    let parent = if depth >= 1 { Some(parent_label) } else { None };
    let mut out: [u16; 17] = [INF; 17];
    let mut k: usize = 0;
    while k <= 2 * w
        invariant
            w <= MAX_W,
            m == q.len(),
            m <= MAX_QUERY_LEN,
            depth < usize::MAX,
            j == depth + 1,
            budget < 8 * (w + 1),
            budget <= 64,
            t.len() == depth + 1,
            ch == t[depth as int],
            depth >= 1 ==> parent_label == t[depth - 1],
            parent == (if j >= 2 { Some(t[j - 2]) } else { None::<u32> }),
            k <= 2 * w + 1,
            forall|x: int| 0 <= x <= 2 * w ==> #[trigger] cur@[x] == band(*cm, q@, t, w as int, budget as int, depth + x - w, depth as int),
            forall|x: int| 0 <= x <= 2 * w ==> #[trigger] prev@[x] == band(*cm, q@, t, w as int, budget as int, depth - 1 + x - w, depth - 1),
            forall|x: int| 0 <= x <= 2 * w ==> #[trigger] out@[x] == if x < k {
                band(*cm, q@, t, w as int, budget as int, j + x - w, j as int)
            } else {
                INF as int
            },
        decreases 2 * w + 1 - k,
    {
        if j <= m + w && j + k >= w && j + k - w <= m {
            let i = j + k - w;
            let up = if k < 2 * w { cur[k + 1] } else { INF };
            let left = if k >= 1 { out[k - 1] } else { INF };
            let diag = cur[k];
            let skip2 = prev[k];
            proof {
                lemma_cell(*cm, q@, t, w as int, budget as int, i as int, j as int, ch, parent);
                assert(diag == band(*cm, q@, t, w as int, budget as int, i - 1, j - 1));
                assert(skip2 == band(*cm, q@, t, w as int, budget as int, i - 2, j - 2));
                if k < 2 * w {
                    assert(up == band(*cm, q@, t, w as int, budget as int, i as int, j - 1));
                }
                if k >= 1 {
                    assert(left == band(*cm, q@, t, w as int, budget as int, i - 1, j as int));
                }
            }
            let c = moves(cm, q, i, ch, parent, diag, up, left, skip2);
            let v = cap(best(c), budget);
            out[k] = v;
        }
        k = k + 1;
    }
    out
}


/// How results are ordered.
#[derive(Clone, Copy, Debug, PartialEq, Eq)]
pub enum Ranking {
    /// By the weighted cost rounded up to whole units of 16, then higher
    /// weight, then lower term id. Terms whose costs round to the same
    /// number of units are ordered by weight. This is not a count of edits:
    /// the x1.5 factor on the first symbol makes an ordinary edit there cost
    /// 24, i.e. two units, while two cheap edits (8 + 8) count as one.
    Coarse,
    /// By the exact weighted cost, then higher weight, then lower term id.
    Exact,
}

impl Default for Ranking {
    fn default() -> (r: Ranking)
        ensures
            r == Ranking::Coarse,
    {
        Ranking::Coarse
    }
}

/// The cost used for ordering under a ranking.
pub open spec fn rank_spec(r: Ranking, cost: u16) -> int {
    match r {
        Ranking::Coarse => units(cost as int),
        Ranking::Exact => cost as int,
    }
}

impl Ranking {
    /// The cost used for ordering.
    pub fn rank(self, cost: u16) -> (r: u16)
        ensures
            r == rank_spec(self, cost),
    {
        match self {
            Ranking::Coarse => whole_units(cost),
            Ranking::Exact => cost,
        }
    }
}

/// Search parameters. The defaults are `k = 10`, `budget = 32` (two
/// ordinary edits' worth of cost), `tsb = true`, `max_nodes = 100_000`,
/// `ranking = Ranking::Coarse`.
#[derive(Clone, Debug)]
pub struct SearchConfig {
    /// Number of results wanted.
    pub k: usize,
    /// Largest accepted edit cost (fixed point, 16 = one edit).
    pub budget: u16,
    /// Use the subtree-signature lower bound (on by default). It never
    /// changes the results of a search that finishes within `max_nodes`,
    /// only how much work is done.
    pub tsb: bool,
    /// Hard limit on expanded trie nodes.
    pub max_nodes: usize,
    /// How results are ordered.
    pub ranking: Ranking,
}

impl SearchConfig {
    /// An opt-in configuration that trades speed for recall: the default
    /// settings with `budget = 48` (three ordinary edits' worth of cost),
    /// and the subtree bound on.
    pub fn high_recall() -> (c: SearchConfig)
        ensures
            c.k == 10,
            c.budget == 48,
            c.tsb,
            c.max_nodes == 100_000,
            c.ranking == Ranking::Coarse,
    {
        SearchConfig { k: 10, budget: 48, tsb: true, max_nodes: 100_000, ranking: Ranking::Coarse }
    }
}

impl Default for SearchConfig {
    fn default() -> (c: SearchConfig)
        ensures
            c.k == 10,
            c.budget == 32,
            c.tsb,
            c.max_nodes == 100_000,
            c.ranking == Ranking::Coarse,
    {
        SearchConfig { k: 10, budget: 32, tsb: true, max_nodes: 100_000, ranking: Ranking::Coarse }
    }
}

/// One result.
#[derive(Clone, Copy, Debug, PartialEq, Eq)]
pub struct Hit {
    /// Term id (see [`Trie::term`]).
    pub id: u32,
    /// Exact weighted edit cost between the query and the term, whatever
    /// the [`Ranking`].
    pub cost: u16,
    /// The term's weight.
    pub weight: u16,
}

/// Work counters for one search.
#[derive(Clone, Debug, PartialEq, Eq)]
pub struct Stats {
    /// Trie nodes expanded.
    pub nodes_expanded: usize,
    /// Queue entries created (nodes and terminals).
    pub nodes_pushed: usize,
    /// Banded DP rows computed (the root row plus one per child
    /// considered).
    pub rows_computed: usize,
    /// The node limit stopped the search early.
    pub truncated: bool,
}

impl Default for Stats {
    fn default() -> (s: Stats)
        ensures
            s.nodes_expanded == 0,
            s.nodes_pushed == 0,
            s.rows_computed == 0,
            !s.truncated,
    {
        Stats { nodes_expanded: 0, nodes_pushed: 0, rows_computed: 0, truncated: false }
    }
}

/// Hits in ranking order plus work counters.
#[derive(Clone, Debug)]
pub struct Output {
    /// Best first.
    pub hits: Vec<Hit>,
    /// Work counters.
    pub stats: Stats,
}

/// Why a search was rejected.
#[derive(Clone, Copy, Debug, PartialEq, Eq)]
#[allow(inconsistent_fields)]
pub enum SearchError {
    /// The query is longer than [`MAX_QUERY_LEN`].
    QueryTooLong {
        /// Query length in code points.
        len: usize,
        /// The limit.
        max: usize,
    },
    /// The budget needs a wider band than the implementation supports.
    BudgetTooLarge {
        /// The requested budget.
        budget: u16,
        /// The largest supported budget for this cost model.
        max: u16,
    },
}

impl SearchError {
    /// A human-readable description of the error.
    pub fn message(&self) -> (s: String) {
        match self {
            SearchError::QueryTooLong { .. } => "query has too many code points".to_string(),
            SearchError::BudgetTooLarge { .. } => "budget exceeds the maximum".to_string(),
        }
    }
}

/// Queue key: ranking cost, then higher weight, then lower id.
pub open spec fn pack_spec(rank: u16, weight: u16, id: u32) -> u64 {
    ((rank as u64) << 48u64) | (((0xFFFFu16 - weight) as u64) << 32u64) | (id as u64)
}

pub fn pack(rank: u16, weight: u16, id: u32) -> (r: u64)
    ensures
        r == pack_spec(rank, weight, id),
{
    ((rank as u64) << 48u64) | (((0xFFFFu16 - weight) as u64) << 32u64) | (id as u64)
}

/// The number of set bits of `x`.
pub open spec fn popcount(x: u64) -> nat
    decreases x,
{
    if x == 0 {
        0
    } else {
        proof {
            assert(x >> 1u64 < x) by (bit_vector) requires x != 0u64;
        }
        (x & 1u64) as nat + popcount(x >> 1u64)
    }
}

pub(crate) proof fn lemma_popcount_bound(x: u64, k: u64)
    requires
        k <= 64,
        k == 64 || x >> k == 0,
    ensures
        popcount(x) <= k,
    decreases k,
{
    if x != 0 {
        if k == 0 {
            assert(x >> 0u64 == x) by (bit_vector);
        } else {
            let y = x >> 1u64;
            let k1 = (k - 1) as u64;
            if k == 64 {
                assert((x >> 1u64) >> 63u64 == 0) by (bit_vector);
            } else {
                assert((x >> 1u64) >> k1 == x >> k) by (bit_vector)
                    requires k1 + 1 == k, k < 64;
            }
            lemma_popcount_bound(y, k1);
            assert((x & 1u64) <= 1) by (bit_vector);
        }
    }
}

pub(crate) fn count_ones(x: u64) -> (r: u32)
    ensures
        r == popcount(x),
        r <= 64,
{
    proof {
        lemma_popcount_bound(x, 64);
    }
    let mut y = x;
    let mut c: u32 = 0;
    while y != 0
        invariant
            c + popcount(y) == popcount(x),
            popcount(x) <= 64,
        decreases y,
    {
        proof {
            assert(y >> 1u64 < y) by (bit_vector) requires y != 0u64;
            assert((y & 1u64) <= 1) by (bit_vector);
        }
        c = c + (y & 1) as u32;
        y = y >> 1;
    }
    c
}


/// The union of the classes of the query symbols `q[i..]`.
pub open spec fn suffix_mask(q: Seq<u32>, i: int) -> u64
    decreases q.len() - i,
{
    if i < 0 || i >= q.len() { 0 } else { sym_class(q[i]) | suffix_mask(q, i + 1) }
}

/// `qmask[i]` is the union of the classes of `q[i..]`, for `i <= q.len()`.
fn query_masks(q: &[u32]) -> (qmask: Vec<u64>)
    requires
        q.len() <= MAX_QUERY_LEN,
    ensures
        qmask.len() == q.len() + 1,
        forall|i: int| 0 <= i <= q.len() ==> #[trigger] qmask[i] == suffix_mask(q@, i),
{
    let m = q.len();
    let mut qmask: Vec<u64> = Vec::new();
    let mut z: usize = 0;
    while z <= m
        invariant
            m == q.len(),
            m <= MAX_QUERY_LEN,
            z <= m + 1,
            qmask.len() == z,
            forall|i: int| 0 <= i < z ==> qmask[i] == 0,
        decreases m + 1 - z,
    {
        qmask.push(0);
        z = z + 1;
    }
    let mut i = m;
    while i > 0
        invariant
            m == q.len(),
            i <= m,
            qmask.len() == m + 1,
            forall|x: int| i <= x <= m ==> #[trigger] qmask[x] == suffix_mask(q@, x),
        decreases i,
    {
        i = i - 1;
        let v = qmask[i + 1] | symbol_class(q[i]);
        qmask.set(i, v);
        proof {
            assert(qmask[i as int] == (sym_class(q@[i as int]) | suffix_mask(q@, i + 1))) by {
                let a = sym_class(q@[i as int]);
                let b = suffix_mask(q@, i + 1);
                assert(b | a == a | b) by (bit_vector);
            }
        }
    }
    qmask
}

/// Cell `k` of a row at `depth` gets no raise from the bounds on the rest
/// of the query: the rest's length is within the lengths below `node` (for
/// a prefix search, not above the longest), and its classes are among those
/// below `node`.
pub open spec fn zero_extra(trie: &Trie, node: int, qmask: Seq<u64>, prefix: bool, m: int, w: int, depth: int, k: int) -> bool {
    &&& !prefix ==> trie.len_mins_spec()[node] <= m + w - k
    &&& m + w - k <= trie.len_maxs_spec()[node]
    &&& qmask[depth + k - w] & !trie.masks_spec()[node] == 0
}

/// Lower bound on the cost of every term at or below `node` (at `depth`,
/// with row `cur` and its parent's row `prev`). Any alignment either
/// crosses trie row `depth` (bounded by the cells of `cur`) or skips it with
/// a transposition from row `depth - 1` (bounded by `prev` plus the
/// cheapest transposition). With `tsb`, the cells of `cur` are raised by
/// what the query suffix still has to pay given the letters and the lengths
/// present below the node.
fn lower_bound(trie: &Trie, node: usize, depth: usize, cur: &[u16; 17], prev: &[u16; 17], m: usize, w: usize,
    qmask: &[u64], cm: &CostModel, tsb: bool, prefix: bool) -> (lb: u16)
    requires
        trie.wf(),
        node < trie.nodes(),
        w <= MAX_W,
        m <= MAX_QUERY_LEN,
        qmask.len() == m + 1,
    ensures
        lb <= INF,
        forall|k: int| 0 <= k <= 2 * w && #[trigger] cur@[k] < INF && depth <= m + w && depth + k >= w
            && depth + k - w <= m && (tsb ==> zero_extra(trie, node as int, qmask@, prefix, m as int, w as int, depth as int, k))
            ==> lb <= cur@[k],
        depth >= 1 ==> forall|k: int| 0 <= k <= 2 * w && #[trigger] prev@[k] < INF ==> lb <= prev@[k] + 12,
{
    let mut lb: u16 = INF;
    let mut k: usize = 0;
    while k <= 2 * w
        invariant
            trie.wf(),
            node < trie.nodes(),
            w <= MAX_W,
            m <= MAX_QUERY_LEN,
            qmask.len() == m + 1,
            k <= 2 * w + 1,
            lb <= INF,
            forall|j: int| 0 <= j < k && #[trigger] cur@[j] < INF && depth <= m + w && depth + j >= w
                && depth + j - w <= m && (tsb ==> zero_extra(trie, node as int, qmask@, prefix, m as int, w as int, depth as int, j))
                ==> lb <= cur@[j],
        decreases 2 * w + 1 - k,
    {
        let d = cur[k];
        if d < INF && depth <= m + w && depth + k >= w && depth + k - w <= m {
            let mut extra: u16 = 0;
            if tsb {
                let i = depth + k - w;
                let r = m - i;
                let lmin = trie.len_min(node) as usize;
                let lmax = trie.len_max(node) as usize;
                let lo = if lmin >= depth { lmin - depth } else { 0 };
                let hi = if lmax >= depth { lmax - depth } else { 0 };
                let gap = if !prefix && r < lo { lo - r } else if r >= hi { r - hi } else { 0 };
                let g: u16 = if gap < INF as usize { gap as u16 } else { INF };
                let ci = cm.c_indel_min();
                let comp: u16 = if (g as u32) * (ci as u32) > 0xFFFF { 0xFFFF } else { g * ci };
                let missing: u16 = (count_ones(qmask[i] & !trie.below_mask(node)) as u16) * cm.c_min();
                extra = if comp >= missing { comp } else { missing };
                proof {
                    if zero_extra(trie, node as int, qmask@, prefix, m as int, w as int, depth as int, k as int) {
                        assert(gap == 0);
                        assert(popcount(0u64) == 0);
                        assert(extra == 0);
                    }
                }
            }
            let v = d.saturating_add(extra);
            if v < lb {
                lb = v;
            }
        }
        k = k + 1;
    }
    let ghost lb1 = lb;
    if depth >= 1 {
        let mut k: usize = 0;
        while k <= 2 * w
            invariant
                w <= MAX_W,
                k <= 2 * w + 1,
                lb <= INF,
                lb <= lb1,
                forall|j: int| 0 <= j < k && #[trigger] prev@[j] < INF ==> lb <= prev@[j] + 12,
            decreases 2 * w + 1 - k,
        {
            let p = prev[k];
            if p < INF {
                let v = p + cm.c_transpose_min();
                if v < lb {
                    lb = v;
                }
            }
            k = k + 1;
        }
    }
    lb
}

/// The per-query inputs of one node expansion: the query with its suffix
/// masks, the band half-width, the budget and the bound options. Each method
/// computes what the search computes for one node: its row, its lower bound
/// and the cost of the term that ends there.
pub struct Expander<'a> {
    pub trie: &'a Trie,
    pub cm: &'a CostModel,
    pub q: &'a [u32],
    pub qmask: &'a [u64],
    pub w: usize,
    pub budget: u16,
    pub tsb: bool,
    pub prefix: bool,
}

impl<'a> Expander<'a> {
    /// The inputs are within the ranges of the search: a well-formed trie, a
    /// band of at most [`MAX_W`] whose budget is below `8 * (w + 1)`, a query of
    /// at most [`MAX_QUERY_LEN`] symbols with one mask per query position and
    /// one more.
    pub open spec fn valid(&self) -> bool {
        &&& self.trie.wf()
        &&& self.w <= MAX_W
        &&& self.q.len() <= MAX_QUERY_LEN
        &&& self.budget <= 64
        &&& self.budget < 8 * (self.w + 1)
        &&& self.qmask.len() == self.q.len() + 1
    }

    /// The banded row of the term prefix `t` at depth `t.len()`.
    pub open spec fn row_of(&self, t: Seq<u32>, row: Seq<u16>) -> bool {
        forall|k: int| 0 <= k <= 2 * self.w ==> #[trigger] row[k]
            == band(*self.cm, self.q@, t, self.w as int, self.budget as int, t.len() + k - self.w, t.len() as int)
    }

    /// The banded row of `t` one depth above its end: `D[i][t.len() - 1]`.
    pub open spec fn parent_row_of(&self, t: Seq<u32>, row: Seq<u16>) -> bool {
        forall|k: int| 0 <= k <= 2 * self.w ==> #[trigger] row[k]
            == band(*self.cm, self.q@, t, self.w as int, self.budget as int, t.len() - 1 + k - self.w, t.len() - 1)
    }

    /// The cost of aligning the whole query with the term prefix that ends at
    /// a node at `depth` with row `cur`: its cell of the last query position,
    /// `INF` when that is outside the band.
    pub fn prefix_cell(&self, depth: usize, cur: &[u16; 17]) -> (r: u16)
        requires
            self.w <= MAX_W,
            self.q.len() <= MAX_QUERY_LEN,
        ensures
            (depth <= self.q.len() + self.w && self.q.len() + self.w - depth <= 2 * self.w)
                ==> r == cur@[(self.q.len() + self.w - depth) as int],
            !(depth <= self.q.len() + self.w && self.q.len() + self.w - depth <= 2 * self.w) ==> r == INF,
    {
        prefix_cell(self.q.len(), self.w, depth, cur)
    }

    /// The row of the root and its lower bound.
    pub fn root(&self) -> (r: ([u16; 17], u16))
        requires
            self.valid(),
        ensures
            self.row_of(Seq::empty(), r.0@),
            r.1 <= INF,
    {
        proof {
            self.trie.lemma_wf();
        }
        let cur = root_row(self.q, self.cm, self.w, self.budget);
        let none: [u16; 17] = [INF; 17];
        let lb = lower_bound(self.trie, 0, 0, &cur, &none, self.q.len(), self.w, self.qmask, self.cm, self.tsb,
            self.prefix);
        (cur, lb)
    }

    /// The id and exact cost of the term that ends at `v` (at `depth`, with
    /// row `cur`), when there is one and its cell is within the budget.
    pub fn terminal(&self, v: usize, depth: usize, cur: &[u16; 17]) -> (r: Option<(u32, u16)>)
        requires
            self.valid(),
            v < self.trie.nodes(),
        ensures
            r == (if self.trie.term_ids_spec()[v as int] != NO_TERM && depth <= self.q.len() + self.w
                && self.q.len() + self.w - depth <= 2 * self.w
                && cur@[(self.q.len() + self.w - depth) as int] <= self.budget {
                Some((self.trie.term_ids_spec()[v as int], cur@[(self.q.len() + self.w - depth) as int]))
            } else {
                None
            }),
    {
        let tid = self.trie.term_id(v);
        if tid == NO_TERM {
            return None;
        }
        let m = self.q.len();
        if depth > m + self.w {
            return None;
        }
        let k = m + self.w - depth;
        if k <= 2 * self.w && cur[k] <= self.budget {
            Some((tid, cur[k]))
        } else {
            None
        }
    }

    /// The row and the lower bound of child `c` of node `v`, where `v` is at
    /// `depth` with row `cur` and its parent's row `prev`.
    pub fn child(&self, v: usize, depth: usize, c: usize, cur: &[u16; 17], prev: &[u16; 17]) -> (r: ([u16; 17], u16))
        requires
            self.valid(),
            v < self.trie.nodes(),
            self.trie.starts_spec()[v as int] <= c < self.trie.starts_spec()[v as int] + self.trie.counts_spec()[v as int],
            depth == self.trie.path(v as int).len(),
            self.row_of(self.trie.path(v as int), cur@),
            self.parent_row_of(self.trie.path(v as int), prev@),
        ensures
            self.row_of(self.trie.path(c as int), r.0@),
            r.1 <= INF,
    {
        let ghost pv = self.trie.path(v as int);
        let ghost wi = self.w as int;
        let ghost bi = self.budget as int;
        proof {
            self.trie.lemma_wf();
            lemma_child_path(self.trie, v as int, c as int);
            lemma_path_len(self.trie.labels_spec(), self.trie.parents_spec(), v as int);
        }
        let ghost pc = self.trie.path(c as int);
        let parent_label = self.trie.symbol(v);
        let ch = self.trie.symbol(c);
        proof {
            assert(pc == pv.push(ch));
            assert(pc.take(depth as int) =~= pv);
            assert(pv.take(depth as int) =~= pv);
            if depth >= 1 {
                lemma_path_last(self.trie, v as int);
                assert(pc.take(depth - 1) =~= pv.take(depth - 1));
            }
            assert forall|k: int| 0 <= k <= 2 * wi implies #[trigger] cur@[k]
                == band(*self.cm, self.q@, pc, wi, bi, depth + k - wi, depth as int) by {
                lemma_band_prefix(*self.cm, self.q@, pv, pc, wi, bi, depth + k - wi, depth as int);
            }
            assert forall|k: int| 0 <= k <= 2 * wi implies #[trigger] prev@[k]
                == band(*self.cm, self.q@, pc, wi, bi, depth - 1 + k - wi, depth - 1) by {
                lemma_band_prefix(*self.cm, self.q@, pv, pc, wi, bi, depth - 1 + k - wi, depth - 1);
            }
        }
        let row = child_row(self.q, self.cm, self.w, self.budget, depth, parent_label, ch, cur, prev, Ghost(pc));
        let lb = lower_bound(self.trie, c, depth + 1, &row, cur, self.q.len(), self.w, self.qmask, self.cm, self.tsb,
            self.prefix);
        (row, lb)
    }
}

/// A queue entry: a trie node with its rows, or a terminal with its cost.
#[derive(Clone, Copy)]
struct Entry {
    key: u64,
    seq: u32,
    node: usize,
    term: u32,
    /// Exact weighted cost of a terminal entry; for a node entry of a prefix
    /// search, the best cost of a prefix ending at or above the node (`INF`
    /// if none).
    cost: u16,
    /// Prefix search only: every term at or below this node costs exactly
    /// `cost`, so no row is needed to expand it.
    settled: bool,
    depth: usize,
    cur: [u16; 17],
    prev: [u16; 17],
}

fn entry_before(a: &Entry, b: &Entry) -> (r: bool)
    ensures
        r == (a.key < b.key || (a.key == b.key && a.seq < b.seq)),
{
    a.key < b.key || (a.key == b.key && a.seq < b.seq)
}

/// Adds `e` to the binary min-heap `heap` (ordered by key, then sequence
/// number).
fn heap_push(heap: &mut Vec<Entry>, e: Entry, Ghost(ok): Ghost<spec_fn(Entry) -> bool>)
    requires
        ok(e),
        forall|i: int| 0 <= i < old(heap).len() ==> ok(#[trigger] old(heap)[i]),
    ensures
        final(heap).len() == old(heap).len() + 1,
        forall|i: int| 0 <= i < final(heap).len() ==> ok(#[trigger] final(heap)[i]),
        final(heap)@.contains(e),
        forall|x: Entry| old(heap)@.contains(x) ==> #[trigger] final(heap)@.contains(x),
{
    heap.push(e);
    let mut c = heap.len() - 1;
    proof {
        assert(heap@[c as int] == e);
        assert forall|x: Entry| old(heap)@.contains(x) implies #[trigger] heap@.contains(x) by {
            let j = choose|j: int| 0 <= j < old(heap)@.len() && old(heap)@[j] == x;
            assert(heap@[j] == x);
        }
    }
    while c > 0
        invariant
            c < heap.len(),
            heap.len() == old(heap).len() + 1,
            forall|i: int| 0 <= i < heap.len() ==> ok(#[trigger] heap[i]),
            heap@.contains(e),
            forall|x: Entry| old(heap)@.contains(x) ==> #[trigger] heap@.contains(x),
        decreases c,
    {
        let p = (c - 1) / 2;
        if entry_before(&heap[c], &heap[p]) {
            let x = heap[c];
            let y = heap[p];
            let ghost pre = heap@;
            heap.set(c, y);
            heap.set(p, x);
            proof {
                lemma_swap_keeps(pre, heap@, c as int, p as int);
            }
            c = p;
        } else {
            break;
        }
    }
}

/// Swapping two places keeps every value of a sequence.
proof fn lemma_swap_keeps(pre: Seq<Entry>, post: Seq<Entry>, a: int, b: int)
    requires
        0 <= a < pre.len(),
        0 <= b < pre.len(),
        post == pre.update(a, pre[b]).update(b, pre[a]),
    ensures
        forall|x: Entry| pre.contains(x) ==> #[trigger] post.contains(x),
{
    assert forall|x: Entry| pre.contains(x) implies #[trigger] post.contains(x) by {
        let j = choose|j: int| 0 <= j < pre.len() && pre[j] == x;
        if j == a {
            assert(post[b] == x);
        } else if j == b {
            if a == b {
                assert(post[b] == x);
            } else {
                assert(post[a] == x);
            }
        } else {
            assert(post[j] == x);
        }
    }
}

/// Removes and returns the smallest entry of the binary min-heap `heap`.
fn heap_pop(heap: &mut Vec<Entry>, Ghost(ok): Ghost<spec_fn(Entry) -> bool>) -> (r: Option<Entry>)
    requires
        forall|i: int| 0 <= i < old(heap).len() ==> ok(#[trigger] old(heap)[i]),
    ensures
        old(heap).len() == 0 ==> r is None && final(heap).len() == 0,
        old(heap).len() > 0 ==> r is Some && final(heap).len() == old(heap).len() - 1,
        r matches Some(e) ==> ok(e),
        forall|i: int| 0 <= i < final(heap).len() ==> ok(#[trigger] final(heap)[i]),
        r matches Some(e) ==> old(heap)@.contains(e)
            && forall|x: Entry| old(heap)@.contains(x) && x != e ==> #[trigger] final(heap)@.contains(x),
{
    let n = heap.len();
    if n == 0 {
        return None;
    }
    let ghost orig = heap@;
    let last = heap.pop().unwrap();
    if n == 1 {
        proof {
            assert(orig[0] == last);
        }
        return Some(last);
    }
    let top = heap[0];
    heap.set(0, last);
    proof {
        assert(orig[0] == top);
        assert(orig[n - 1] == last);
        assert forall|x: Entry| orig.contains(x) && x != top implies #[trigger] heap@.contains(x) by {
            let j = choose|j: int| 0 <= j < orig.len() && orig[j] == x;
            if j == n - 1 {
                assert(heap@[0] == x);
            } else {
                assert(heap@[j] == x);
            }
        }
    }
    let len = heap.len();
    let mut p: usize = 0;
    while p < len
        invariant
            len == heap.len(),
            len == n - 1,
            forall|i: int| 0 <= i < heap.len() ==> ok(#[trigger] heap[i]),
            forall|x: Entry| orig.contains(x) && x != top ==> #[trigger] heap@.contains(x),
        decreases len - p,
    {
        let l = if p <= (len - 1) / 2 { 2 * p + 1 } else { len };
        if l >= len {
            break;
        }
        let r = l + 1;
        let mut m = l;
        if r < len && entry_before(&heap[r], &heap[l]) {
            m = r;
        }
        if entry_before(&heap[m], &heap[p]) {
            let x = heap[m];
            let y = heap[p];
            let ghost pre = heap@;
            heap.set(m, y);
            heap.set(p, x);
            proof {
                lemma_swap_keeps(pre, heap@, m as int, p as int);
            }
            p = m;
        } else {
            break;
        }
    }
    proof {
        assert(orig.contains(top));
    }
    Some(top)
}


/// `band` at term prefix length `j` only depends on the first `j` symbols.
proof fn lemma_band_prefix(cm: CostModel, q: Seq<u32>, t: Seq<u32>, u: Seq<u32>, w: int, budget: int, i: int, j: int)
    requires
        j <= t.len(),
        j <= u.len(),
        j >= 0 ==> t.take(j) == u.take(j),
    ensures
        band(cm, q, t, w, budget, i, j) == band(cm, q, u, w, budget, i, j),
{
    if j >= 0 {
        lemma_osa_prefix(cm, q, t, u, i, j);
    }
}

/// The path of a child is the path of its parent and the child's label.
proof fn lemma_child_path(trie: &Trie, v: int, c: int)
    requires
        trie.wf(),
        0 <= v < trie.nodes(),
        trie.starts_spec()[v] <= c < trie.starts_spec()[v] + trie.counts_spec()[v],
    ensures
        0 < c < trie.nodes(),
        trie.path(c) == trie.path(v).push(trie.labels_spec()[c]),
{
    trie.lemma_wf();
    assert(trie.parents_spec()[c] == v);
}

/// A node at depth at least 1 is entered by its own label.
proof fn lemma_path_last(trie: &Trie, v: int)
    requires
        trie.wf(),
        0 <= v < trie.nodes(),
        trie.path(v).len() >= 1,
    ensures
        trie.path(v).last() == trie.labels_spec()[v],
{
}

/// A path is never longer than the index of its node.
proof fn lemma_path_len(labels: Seq<u32>, parent: Seq<u32>, v: int)
    ensures
        path_of(labels, parent, v).len() <= if v >= 0 { v } else { 0 },
    decreases v,
{
    if v > 0 && v < labels.len() && parent[v] < v {
        lemma_path_len(labels, parent, parent[v] as int);
    }
}

/// A hit of an exact search: a term within the budget, with its weight, at
/// its exact cost when the trie's paths spell its terms.
pub open spec fn hit_ok(trie: &Trie, cm: CostModel, qs: Seq<u32>, budget: u16, h: Hit) -> bool {
    &&& (h.id as int) < trie.term_syms().len()
    &&& h.weight == trie.weights_spec()[h.id as int]
    &&& h.cost <= budget
    &&& trie.spells_terms() ==> h.cost == edit_cost(cm, qs, trie.term_syms()[h.id as int])
}

/// What a search of the symbols `qs` returns: the length error, the budget
/// error, or at most `k` hits of which `ok` holds.
pub open spec fn search_outcome(qs: Seq<u32>, cfg: SearchConfig, r: Result<Output, SearchError>,
    ok: spec_fn(Hit) -> bool) -> bool {
    if qs.len() > MAX_QUERY_LEN {
        r == Err::<Output, SearchError>(SearchError::QueryTooLong { len: qs.len() as usize, max: MAX_QUERY_LEN })
    } else if cfg.budget > 64 {
        r == Err::<Output, SearchError>(SearchError::BudgetTooLarge { budget: cfg.budget, max: 64 })
    } else {
        r matches Ok(out) && out.hits.len() <= cfg.k
            && forall|i: int| 0 <= i < out.hits.len() ==> #[trigger] ok(out.hits[i])
    }
}

/// The trie has the shape and the aggregates a build gives it, and holds a
/// term equal to `qs`.
pub open spec fn holds_query(trie: &Trie, qs: Seq<u32>) -> bool {
    &&& trie.bfs_layout()
    &&& trie.aggregates_ok()
    &&& trie.children_sorted()
    &&& trie.spells_terms()
    &&& exists|t: int| 0 <= t < trie.term_syms().len() && trie.term_syms()[t] == qs
}

/// One of `hits` is the term equal to `qs`.
pub open spec fn finds_query(trie: &Trie, qs: Seq<u32>, hits: Seq<Hit>) -> bool {
    exists|i: int| 0 <= i < hits.len() && (hits[i].id as int) < trie.term_syms().len()
        && #[trigger] trie.term_syms()[hits[i].id as int] == qs
}

/// Queue entry `e` leads to the term equal to `qs`: it is that term's
/// terminal, or a node whose path starts `qs`.
spec fn leads_to_query(trie: &Trie, qs: Seq<u32>, e: Entry) -> bool {
    if e.term != NO_TERM {
        (e.term as int) < trie.term_syms().len() && trie.term_syms()[e.term as int] == qs
    } else {
        &&& trie.path(e.node as int).len() <= qs.len()
        &&& qs.take(trie.path(e.node as int).len() as int) == trie.path(e.node as int)
    }
}

/// Some entry of `heap` leads to the term equal to `qs`.
#[verifier::opaque]
spec fn heap_leads(trie: &Trie, qs: Seq<u32>, heap: Seq<Entry>) -> bool {
    exists|x: Entry| #[trigger] heap.contains(x) && leads_to_query(trie, qs, x)
}

/// A queue that keeps every entry of one that leads to the query leads to it.
proof fn lemma_leads_kept(trie: &Trie, qs: Seq<u32>, old_heap: Seq<Entry>, new_heap: Seq<Entry>)
    requires
        heap_leads(trie, qs, old_heap),
        forall|x: Entry| old_heap.contains(x) ==> #[trigger] new_heap.contains(x),
    ensures
        heap_leads(trie, qs, new_heap),
        new_heap.len() > 0,
{
    reveal(heap_leads);
    let x = choose|x: Entry| #[trigger] old_heap.contains(x) && leads_to_query(trie, qs, x);
    assert(new_heap.contains(x));
}

/// A queue holding an entry that leads to the query leads to it.
proof fn lemma_leads_add(trie: &Trie, qs: Seq<u32>, heap: Seq<Entry>, x: Entry)
    requires
        heap.contains(x),
        leads_to_query(trie, qs, x),
    ensures
        heap_leads(trie, qs, heap),
        heap.len() > 0,
{
    reveal(heap_leads);
}

/// A queue that leads to the query is not empty.
proof fn lemma_leads_nonempty(trie: &Trie, qs: Seq<u32>, heap: Seq<Entry>)
    requires
        heap_leads(trie, qs, heap),
    ensures
        heap.len() > 0,
{
    reveal(heap_leads);
}

/// Taking `e` out of a queue that leads to the query leaves one that still
/// does, unless `e` itself led there.
proof fn lemma_leads_pop(trie: &Trie, qs: Seq<u32>, old_heap: Seq<Entry>, new_heap: Seq<Entry>, e: Entry)
    requires
        heap_leads(trie, qs, old_heap),
        forall|x: Entry| old_heap.contains(x) && x != e ==> #[trigger] new_heap.contains(x),
    ensures
        heap_leads(trie, qs, new_heap) || leads_to_query(trie, qs, e),
{
    reveal(heap_leads);
    let x = choose|x: Entry| #[trigger] old_heap.contains(x) && leads_to_query(trie, qs, x);
    if x != e {
        assert(new_heap.contains(x));
    }
}

/// Adding a hit keeps the hits that were found.
proof fn lemma_finds_push(trie: &Trie, qs: Seq<u32>, hits: Seq<Hit>, h: Hit)
    ensures
        finds_query(trie, qs, hits) ==> finds_query(trie, qs, hits.push(h)),
        (h.id as int) < trie.term_syms().len() && trie.term_syms()[h.id as int] == qs ==> finds_query(trie, qs, hits.push(h)),
{
    if finds_query(trie, qs, hits) {
        let i = choose|i: int| 0 <= i < hits.len() && (hits[i].id as int) < trie.term_syms().len()
            && #[trigger] trie.term_syms()[hits[i].id as int] == qs;
        assert(hits.push(h)[i] == hits[i]);
    }
    assert(hits.push(h)[hits.len() as int] == h);
}

/// The trie has the shape and the aggregates a build gives it, and holds a
/// term of at most 65535 symbols that starts with `qs`.
pub open spec fn holds_prefix(trie: &Trie, qs: Seq<u32>) -> bool {
    &&& trie.bfs_layout()
    &&& trie.aggregates_ok()
    &&& trie.children_sorted()
    &&& trie.spells_terms()
    &&& exists|t: int| 0 <= t < trie.term_syms().len() && qs.len() <= trie.term_syms()[t].len() <= 0xFFFF
            && trie.term_syms()[t].take(qs.len() as int) == qs
}

/// One of `hits` is a term that starts with `qs`.
pub open spec fn finds_prefix(trie: &Trie, qs: Seq<u32>, hits: Seq<Hit>) -> bool {
    exists|i: int| 0 <= i < hits.len() && (hits[i].id as int) < trie.term_syms().len()
        && qs.len() <= trie.term_syms()[hits[i].id as int].len()
        && #[trigger] trie.term_syms()[hits[i].id as int].take(qs.len() as int) == qs
}

/// Queue entry `e` of a prefix search leads to a term that starts with
/// `qs`: it is such a term's terminal, or a node on the path `pt` of one
/// (which, unless settled, has cost 0 once as deep as the query).
spec fn leads_to_prefix(trie: &Trie, qs: Seq<u32>, pt: Seq<u32>, e: Entry) -> bool {
    if e.term != NO_TERM {
        &&& (e.term as int) < trie.term_syms().len()
        &&& qs.len() <= trie.term_syms()[e.term as int].len()
        &&& trie.term_syms()[e.term as int].take(qs.len() as int) == qs
    } else {
        &&& trie.path(e.node as int).len() <= pt.len()
        &&& pt.take(trie.path(e.node as int).len() as int) == trie.path(e.node as int)
        &&& (!e.settled && trie.path(e.node as int).len() >= qs.len() ==> e.cost == 0)
    }
}

/// Some entry of `heap` satisfies `p`.
#[verifier::opaque]
spec fn heap_has(heap: Seq<Entry>, p: spec_fn(Entry) -> bool) -> bool {
    exists|x: Entry| #[trigger] heap.contains(x) && p(x)
}

proof fn lemma_has_kept(old_heap: Seq<Entry>, new_heap: Seq<Entry>, p: spec_fn(Entry) -> bool)
    requires
        heap_has(old_heap, p),
        forall|x: Entry| old_heap.contains(x) ==> #[trigger] new_heap.contains(x),
    ensures
        heap_has(new_heap, p),
        new_heap.len() > 0,
{
    reveal(heap_has);
    let x = choose|x: Entry| #[trigger] old_heap.contains(x) && p(x);
    assert(new_heap.contains(x));
}

proof fn lemma_has_add(heap: Seq<Entry>, x: Entry, p: spec_fn(Entry) -> bool)
    requires
        heap.contains(x),
        p(x),
    ensures
        heap_has(heap, p),
        heap.len() > 0,
{
    reveal(heap_has);
}

proof fn lemma_has_nonempty(heap: Seq<Entry>, p: spec_fn(Entry) -> bool)
    requires
        heap_has(heap, p),
    ensures
        heap.len() > 0,
{
    reveal(heap_has);
}

proof fn lemma_has_pop(old_heap: Seq<Entry>, new_heap: Seq<Entry>, e: Entry, p: spec_fn(Entry) -> bool)
    requires
        heap_has(old_heap, p),
        forall|x: Entry| old_heap.contains(x) && x != e ==> #[trigger] new_heap.contains(x),
    ensures
        heap_has(new_heap, p) || p(e),
{
    reveal(heap_has);
    let x = choose|x: Entry| #[trigger] old_heap.contains(x) && p(x);
    if x != e {
        assert(new_heap.contains(x));
    }
}

/// Adding a hit keeps the hits that were found.
proof fn lemma_finds_prefix_push(trie: &Trie, qs: Seq<u32>, hits: Seq<Hit>, h: Hit)
    ensures
        finds_prefix(trie, qs, hits) ==> finds_prefix(trie, qs, hits.push(h)),
        (h.id as int) < trie.term_syms().len() && qs.len() <= trie.term_syms()[h.id as int].len()
            && trie.term_syms()[h.id as int].take(qs.len() as int) == qs ==> finds_prefix(trie, qs, hits.push(h)),
{
    if finds_prefix(trie, qs, hits) {
        let i = choose|i: int| 0 <= i < hits.len() && (hits[i].id as int) < trie.term_syms().len()
            && qs.len() <= trie.term_syms()[hits[i].id as int].len()
            && #[trigger] trie.term_syms()[hits[i].id as int].take(qs.len() as int) == qs;
        assert(hits.push(h)[i] == hits[i]);
    }
    assert(hits.push(h)[hits.len() as int] == h);
}

/// Term `t` (of at most 65535 symbols) is within `budget` of the query.
pub open spec fn within_budget(trie: &Trie, cm: CostModel, qs: Seq<u32>, budget: int, t: int) -> bool {
    &&& 0 <= t < trie.term_syms().len()
    &&& trie.term_syms()[t].len() <= 0xFFFF
    &&& edit_cost(cm, qs, trie.term_syms()[t]) <= budget
}

/// Term `t` is one of `hits`.
pub open spec fn hits_term(hits: Seq<Hit>, t: int) -> bool {
    exists|i: int| 0 <= i < hits.len() && #[trigger] hits[i].id as int == t
}

/// Queue entry `e` leads to term `t`: it is its terminal, or a node on its
/// path.
spec fn leads_to_term(trie: &Trie, t: int, e: Entry) -> bool {
    if e.term != NO_TERM {
        e.term as int == t
    } else {
        &&& trie.path(e.node as int).len() <= trie.term_syms()[t].len()
        &&& trie.term_syms()[t].take(trie.path(e.node as int).len() as int) == trie.path(e.node as int)
    }
}

spec fn leads_to(trie: &Trie, t: int) -> spec_fn(Entry) -> bool {
    |x: Entry| leads_to_term(trie, t, x)
}

/// The child of `v` on the path of term `t`.
spec fn next_on(trie: &Trie, v: int, t: int) -> int {
    choose|a: int| child_of(trie, v, a) && trie.path(a) == trie.term_syms()[t].take(trie.path(v).len() as int + 1)
}

/// The bound computed for a row at depth `j >= 1` of a prefix of term `t`
/// is within the budget when `t` is.
proof fn lemma_bound_on_path(cm: CostModel, qs: Seq<u32>, tt: Seq<u32>, w: int, budget: int, j: int, lb: int,
    cur: Seq<u16>, prev: Seq<u16>)
    requires
        0 <= j <= tt.len() <= 0xFFFF,
        qs.len() <= 0xFFFF,
        0 <= w,
        0 <= budget < 8 * (w + 1),
        budget < INF,
        forall|k: int| 0 <= k <= 2 * w ==> #[trigger] cur[k] == band(cm, qs, tt.take(j), w, budget, j + k - w, j),
        j >= 1 ==> forall|k: int| 0 <= k <= 2 * w ==> #[trigger] prev[k]
            == band(cm, qs, tt.take(j - 1), w, budget, j - 1 + k - w, j - 1),
        forall|k: int| 0 <= k <= 2 * w && #[trigger] cur[k] < INF && j <= qs.len() + w && j + k >= w
            && j + k - w <= qs.len() ==> lb <= cur[k],
        j >= 1 ==> forall|k: int| 0 <= k <= 2 * w && #[trigger] prev[k] < INF ==> lb <= prev[k] + 12,
        edit_cost(cm, qs, tt) <= budget,
    ensures
        lb <= budget,
{
    assert forall|k: int| 0 <= k <= 2 * w implies #[trigger] cur[k] == band(cm, qs, tt, w, budget, j + k - w, j) by {
        assert(tt.take(j).take(j) =~= tt.take(j));
        lemma_band_prefix(cm, qs, tt.take(j), tt, w, budget, j + k - w, j);
    }
    if j >= 1 {
        assert forall|k: int| 0 <= k <= 2 * w implies #[trigger] prev[k] == band(cm, qs, tt, w, budget, j - 1 + k - w, j - 1) by {
            assert(tt.take(j - 1).take(j - 1) =~= tt.take(j - 1));
            lemma_band_prefix(cm, qs, tt.take(j - 1), tt, w, budget, j - 1 + k - w, j - 1);
        }
    }
    lemma_row_bound_admissible(cm, qs, tt, w, budget, j, lb, cur, prev);
}

/// The invariant of a queue entry of an exact search.
spec fn entry_ok(trie: &Trie, cm: CostModel, qs: Seq<u32>, w: int, budget: int, e: Entry) -> bool {
    &&& e.node < trie.nodes()
    &&& e.depth == trie.path(e.node as int).len()
    &&& if e.term != NO_TERM {
            &&& (e.term as int) < trie.term_syms().len()
            &&& e.cost <= budget
            &&& (trie.spells_terms() ==> e.cost == edit_cost(cm, qs, trie.term_syms()[e.term as int]))
        } else {
            &&& forall|k: int| 0 <= k <= 2 * w ==> #[trigger] e.cur@[k]
                == band(cm, qs, trie.path(e.node as int), w, budget, e.depth + k - w, e.depth as int)
            &&& forall|k: int| 0 <= k <= 2 * w ==> #[trigger] e.prev@[k]
                == band(cm, qs, trie.path(e.node as int), w, budget, e.depth - 1 + k - w, e.depth - 1)
        }
}

/// A reusable search context. It keeps its priority queue across queries;
/// the returned [`Output`] is allocated per query.
pub struct Searcher {
    heap: Vec<Entry>,
    seq: u32,
    /// Buffers of the highlighting traceback.
    hl: Scratch,
}

impl Default for Searcher {
    fn default() -> (s: Searcher) {
        Searcher::new()
    }
}

impl Searcher {
    /// Creates an empty context.
    pub fn new() -> (s: Searcher) {
        Searcher { heap: Vec::new(), seq: 0, hl: Scratch::default() }
    }

    /// Validates the query length (in symbols) and the budget; returns the
    /// band half-width.
    fn check(len: usize, cm: &CostModel, cfg: &SearchConfig) -> (r: Result<usize, SearchError>)
        ensures
            len > MAX_QUERY_LEN ==> r == Err::<usize, SearchError>(SearchError::QueryTooLong { len, max: MAX_QUERY_LEN }),
            len <= MAX_QUERY_LEN && cfg.budget > 64 ==> r == Err::<usize, SearchError>(
                SearchError::BudgetTooLarge { budget: cfg.budget, max: 64 }),
            len <= MAX_QUERY_LEN && cfg.budget <= 64 ==> r == Ok::<usize, SearchError>((cfg.budget / 8) as usize),
    {
        if len > MAX_QUERY_LEN {
            return Err(SearchError::QueryTooLong { len, max: MAX_QUERY_LEN });
        }
        let max_budget = 8 * cm.c_indel_min();
        if cfg.budget > max_budget {
            return Err(SearchError::BudgetTooLarge { budget: cfg.budget, max: max_budget });
        }
        Ok((cfg.budget / cm.c_indel_min()) as usize)
    }

    /// Returns the `cfg.k` best terms within `cfg.budget`, best first, in
    /// the order set by `cfg.ranking`.
    ///
    /// `q` is UTF-8 and is compared per code point with the terms, as it
    /// is: it must already be in the form the terms are stored in. A byte
    /// that is not part of valid UTF-8 is a symbol of its own that matches
    /// no term.
    ///
    /// A query that is itself a term of a built trie is always among the
    /// hits, unless the node limit stopped the search or `cfg.k` hits came
    /// first. Without the length and class bounds (`cfg.tsb` off), every
    /// term within the budget is among the hits unless the search stopped
    /// early or returned `cfg.k` hits.
    pub fn search(&mut self, trie: &Trie, cm: &CostModel, q: &[u8], cfg: &SearchConfig)
        -> (r: Result<Output, SearchError>)
        requires
            trie.wf(),
        ensures
            search_outcome(decode_syms(q@), *cfg, r, |h: Hit| hit_ok(trie, *cm, decode_syms(q@), cfg.budget, h)),
            r matches Ok(out) ==> (holds_query(trie, decode_syms(q@)) && !out.stats.truncated
                ==> out.hits.len() == cfg.k || finds_query(trie, decode_syms(q@), out.hits@)),
            r matches Ok(out) ==> (!cfg.tsb && trie.bfs_layout() && trie.children_sorted() && trie.spells_terms()
                && !out.stats.truncated && out.hits.len() < cfg.k ==> forall|t: int|
                #[trigger] within_budget(trie, *cm, decode_syms(q@), cfg.budget as int, t) ==> hits_term(out.hits@, t)),
    {
        let qs = decode(q);
        let w = match Self::check(qs.len(), cm, cfg) {
            Ok(w) => w,
            Err(e) => return Err(e),
        };
        let out = self.run(trie, cm, &qs, w, cfg);
        Ok(out)
    }

    /// [`Searcher::search`] on the symbols `qs`, once they passed the checks.
    #[verifier::spinoff_prover]
    #[verifier::rlimit(100)]
    fn run(&mut self, trie: &Trie, cm: &CostModel, qs: &Vec<u32>, w: usize, cfg: &SearchConfig) -> (out: Output)
        requires
            trie.wf(),
            qs.len() <= MAX_QUERY_LEN,
            cfg.budget <= 64,
            w == cfg.budget / 8,
        ensures
            out.hits.len() <= cfg.k,
            forall|i: int| 0 <= i < out.hits.len() ==> #[trigger] hit_ok(trie, *cm, qs@, cfg.budget, out.hits[i]),
            holds_query(trie, qs@) && !out.stats.truncated
                ==> out.hits.len() == cfg.k || finds_query(trie, qs@, out.hits@),
            !cfg.tsb && trie.bfs_layout() && trie.children_sorted() && trie.spells_terms() && !out.stats.truncated
                && out.hits.len() < cfg.k ==> forall|t: int| #[trigger] within_budget(trie, *cm, qs@, cfg.budget as int, t)
                ==> hits_term(out.hits@, t),
    {
        let mut out = Output { hits: Vec::new(), stats: Stats::default() };
        if cfg.k == 0 {
            return out;
        }
        let ghost qv = qs@;
        let ghost wi = w as int;
        let ghost bi = cfg.budget as int;
        let ghost ok = |e: Entry| entry_ok(trie, *cm, qv, wi, bi, e);
        let budget = cfg.budget;
        let m = qs.len();
        let qmask = query_masks(qs.as_slice());
        self.heap.clear();
        self.seq = 0;
        proof {
            trie.lemma_wf();
        }
        let ghost target = holds_query(trie, qv);
        let ghost full = (!cfg.tsb && trie.bfs_layout() && trie.children_sorted() && trie.spells_terms());
        let ghost mut t0: int = 0;
        let ghost mut un: int = 0;
        proof {
            if target {
                t0 = choose|t: int| 0 <= t < trie.term_syms().len() && trie.term_syms()[t] == qv;
                assert(trie.ends_at_node(t0));
                un = choose|u: int| 0 <= u < trie.nodes() && trie.term_ids_spec()[u] == t0;
            }
        }
        let root_cur = root_row(qs.as_slice(), cm, w, budget);
        let none: [u16; 17] = [INF; 17];
        proof {
            if target {
                assert(trie.path(0) =~= Seq::<u32>::empty());
                assert(qv.take(0) =~= Seq::<u32>::empty());
                assert(trie.path(un).take(qv.len() as int) =~= qv);
                lemma_on_query_path(trie, qv, un, 0);
                assert(qmask@[0] == suffix_mask(qv, 0));
                assert(zero_extra(trie, 0, qmask@, false, m as int, wi, 0, wi));
            }
        }
        let lb = lower_bound(trie, 0, 0, &root_cur, &none, m, w, qmask.as_slice(), cm, cfg.tsb, false);
        out.stats.rows_computed = 1;
        let ghost mut root_e: Entry = arbitrary();
        if lb <= budget {
            self.seq = self.seq.wrapping_add(1);
            let key = pack(cfg.ranking.rank(lb), trie.max_weight(0), 0);
            let e = Entry { key, seq: self.seq, node: 0, term: NO_TERM, cost: 0, settled: false, depth: 0,
                cur: root_cur, prev: none };
            proof {
                assert(trie.path(0) =~= Seq::<u32>::empty());
                assert forall|k: int| 0 <= k <= 2 * wi implies #[trigger] e.prev@[k]
                    == band(*cm, qv, trie.path(0), wi, bi, k - 1 - wi, -1) by {}
                assert(ok(e));
                if target {
                    assert(qv.take(0) =~= Seq::<u32>::empty());
                    assert(trie.path(e.node as int).len() == 0);
                    assert(leads_to_query(trie, qv, e));
                }
            }
            heap_push(&mut self.heap, e, Ghost(ok));
            proof {
                if target {
                    lemma_leads_add(trie, qv, self.heap@, e);
                }
                root_e = e;
            }
        }
        proof {
            if full {
                assert forall|t: int| #[trigger] within_budget(trie, *cm, qv, bi, t) implies hits_term(out.hits@, t)
                    || (self.heap.len() > 0 && heap_has(self.heap@, leads_to(trie, t))) by {
                    let tt = trie.term_syms()[t];
                    assert(tt.take(0) =~= Seq::<u32>::empty());
                    lemma_bound_on_path(*cm, qv, tt, wi, bi, 0, lb as int, root_cur@, none@);
                    assert(trie.path(0) =~= Seq::<u32>::empty());
                    assert(leads_to_term(trie, t, root_e));
                    lemma_has_add(self.heap@, root_e, leads_to(trie, t));
                }
            }
        }
        proof {
            if target {
                assert(lb <= budget) by {
                    reveal(osa);
                    assert(root_cur@[wi] == 0);
                }
            }
        }
        while self.heap.len() > 0
            invariant_except_break
                out.hits.len() < cfg.k,
                target ==> finds_query(trie, qv, out.hits@) || (self.heap.len() > 0 && heap_leads(trie, qv, self.heap@)),
                full ==> forall|t: int| #[trigger] within_budget(trie, *cm, qv, bi, t) ==> hits_term(out.hits@, t) || (self.heap.len() > 0 && heap_has(self.heap@, leads_to(trie, t))),
            invariant
                trie.wf(),
                qv == qs@,
                m == qs.len(),
                m <= MAX_QUERY_LEN,
                wi == w,
                bi == budget,
                budget == cfg.budget,
                budget <= 64,
                w == budget / 8,
                qmask.len() == m + 1,
                forall|i: int| 0 <= i <= m ==> #[trigger] qmask@[i] == suffix_mask(qv, i),
                ok == (|e: Entry| entry_ok(trie, *cm, qv, wi, bi, e)),
                forall|i: int| 0 <= i < self.heap.len() ==> ok(#[trigger] self.heap[i]),
                out.hits.len() <= cfg.k,
                forall|i: int| 0 <= i < out.hits.len() ==> #[trigger] hit_ok(trie, *cm, qv, cfg.budget, out.hits[i]),
                out.stats.nodes_expanded <= cfg.max_nodes,
                target == holds_query(trie, qv),
                target ==> 0 <= t0 < trie.term_syms().len() && trie.term_syms()[t0] == qv && 0 <= un < trie.nodes()
                    && trie.term_ids_spec()[un] == t0 && trie.path(un) == qv,
                full == (!cfg.tsb && trie.bfs_layout() && trie.children_sorted() && trie.spells_terms()),
            ensures
                target ==> out.stats.truncated || out.hits.len() == cfg.k || finds_query(trie, qv, out.hits@),
                full ==> out.stats.truncated || out.hits.len() == cfg.k
                    || forall|t: int| #[trigger] within_budget(trie, *cm, qv, bi, t) ==> hits_term(out.hits@, t),
            decreases (cfg.max_nodes - out.stats.nodes_expanded) * 65538 + self.heap.len(),
        {
            let ghost before = self.heap@;
            let ghost hits0 = out.hits@;
            let e = heap_pop(&mut self.heap, Ghost(ok)).unwrap();
            proof {
                trie.lemma_wf();
            }
            let ghost need = target && !finds_query(trie, qv, hits0) && !heap_leads(trie, qv, self.heap@);
            let ghost after_pop = self.heap@;
            proof {
                if need {
                    lemma_leads_pop(trie, qv, before, self.heap@, e);
                }
                if target && heap_leads(trie, qv, self.heap@) {
                    lemma_leads_nonempty(trie, qv, self.heap@);
                }
            }
            if e.term != NO_TERM {
                let h = Hit { id: e.term, cost: e.cost, weight: trie.weight(e.term) };
                out.hits.push(h);
                proof {
                    lemma_finds_push(trie, qv, hits0, h);
                    assert(out.hits@ == hits0.push(h));
                    if full {
                        assert forall|t: int| #[trigger] within_budget(trie, *cm, qv, bi, t) implies hits_term(out.hits@, t)
                            || (self.heap.len() > 0 && heap_has(self.heap@, leads_to(trie, t))) by {
                            if hits_term(hits0, t) {
                                let k = choose|k: int| 0 <= k < hits0.len() && #[trigger] hits0[k].id as int == t;
                                assert(out.hits@[k] == hits0[k]);
                            } else if heap_has(self.heap@, leads_to(trie, t)) {
                                lemma_has_nonempty(self.heap@, leads_to(trie, t));
                            } else {
                                lemma_has_pop(before, self.heap@, e, leads_to(trie, t));
                                assert(out.hits@[out.hits.len() - 1] == h);
                            }
                        }
                    }
                    assert(hit_ok(trie, *cm, qv, cfg.budget, h));
                    assert forall|i: int| 0 <= i < out.hits.len() implies #[trigger] hit_ok(trie, *cm, qv, cfg.budget, out.hits[i]) by {
                        if i == out.hits.len() - 1 {
                            assert(out.hits[i] == h);
                        }
                    }
                }
                if out.hits.len() == cfg.k {
                    break;
                }
                continue;
            }
            if out.stats.nodes_expanded >= cfg.max_nodes {
                out.stats.truncated = true;
                break;
            }
            out.stats.nodes_expanded = out.stats.nodes_expanded + 1;
            let v = e.node;
            let depth = e.depth;
            let ghost pv = trie.path(v as int);
            let ghost heap_before = self.heap@.len();
            let ghost expanded_now = out.stats.nodes_expanded;
            proof {
                lemma_path_len(trie.labels_spec(), trie.parents_spec(), v as int);
                if need && depth == m {
                    assert(pv =~= qv);
                    lemma_paths_distinct(trie, v as int, un);
                    lemma_osa_equal_prefix(*cm, qv, pv, m as int);
                    assert(e.cur@[wi] == band(*cm, qv, pv, wi, bi, depth + wi - wi, depth as int));
                }
            }
            let tid = trie.term_id(v);
            let ghost mut te_pushed: Option<Entry> = None;
            if tid != NO_TERM && depth <= m + w {
                let kk = m + w - depth;
                if kk <= 2 * w && e.cur[kk] <= budget {
                    let cost = e.cur[kk];
                    self.seq = self.seq.wrapping_add(1);
                    let key = pack(cfg.ranking.rank(cost), trie.weight(tid), tid);
                    let te = Entry { key, seq: self.seq, node: v, term: tid, cost, settled: false, depth,
                        cur: [INF; 17], prev: [INF; 17] };
                    proof {
                        trie.lemma_wf();
                        assert(e.cur@[kk as int] == band(*cm, qv, pv, wi, bi, m as int, depth as int));
                        if trie.spells_terms() {
                            assert(pv == trie.term_syms()[tid as int]);
                        }
                        assert(ok(te));
                    }
                    heap_push(&mut self.heap, te, Ghost(ok));
                    proof {
                        if need && depth == m {
                            assert(leads_to_query(trie, qv, te));
                            lemma_leads_add(trie, qv, self.heap@, te);
                        }
                        if target && heap_leads(trie, qv, after_pop) {
                            lemma_leads_kept(trie, qv, after_pop, self.heap@);
                        }
                        te_pushed = Some(te);
                    }
                }
            }
            let ghost after_te = self.heap@;
            let range = trie.children(v);
            let mut c = range.start;
            let ghost mut a: int = 0;
            let ghost hits1 = out.hits@;
            proof {
                trie.lemma_wf();
                if need && depth < m {
                    a = lemma_next_on_path(trie, v as int, un);
                }
                if need && depth == m {
                    assert(heap_leads(trie, qv, self.heap@));
                }
                if full {
                    assert forall|t: int| #[trigger] within_budget(trie, *cm, qv, bi, t) implies hits_term(out.hits@, t)
                        || (self.heap.len() > 0 && heap_has(self.heap@, leads_to(trie, t)))
                        || (leads_to_term(trie, t, e) && depth < trie.term_syms()[t].len()
                            && c <= next_on(trie, v as int, t) && child_of(trie, v as int, next_on(trie, v as int, t))
                            && trie.path(next_on(trie, v as int, t)) == trie.term_syms()[t].take(depth + 1)) by {
                        let tt = trie.term_syms()[t];
                        if hits_term(hits0, t) {
                        } else if heap_has(after_pop, leads_to(trie, t)) {
                            if te_pushed is Some {
                                lemma_has_kept(after_pop, self.heap@, leads_to(trie, t));
                            } else {
                                lemma_has_nonempty(after_pop, leads_to(trie, t));
                            }
                        } else {
                            lemma_has_pop(before, after_pop, e, leads_to(trie, t));
                            assert(leads_to_term(trie, t, e));
                            if depth == tt.len() {
                                assert(tt.take(depth as int) =~= tt);
                                lemma_term_at(trie, v as int, t);
                                lemma_osa_floor(*cm, qv, tt, m as int, depth as int);
                                let kk = m + w - depth;
                                assert(e.cur@[kk as int] == band(*cm, qv, pv, wi, bi, depth + kk - wi, depth as int));
                                assert(te_pushed is Some);
                                lemma_has_add(self.heap@, te_pushed->0, leads_to(trie, t));
                            } else {
                                assert(trie.ends_at_node(t));
                                let u = choose|u: int| 0 <= u < trie.nodes() && trie.term_ids_spec()[u] == t;
                                assert(tt.take(depth as int) == pv);
                                let a2 = lemma_next_on_path(trie, v as int, u);
                                assert(child_of(trie, v as int, a2) && trie.path(a2) == tt.take(depth + 1));
                                assert(child_of(trie, v as int, next_on(trie, v as int, t)));
                            }
                        }
                    }
                }
            }
            while c < range.end
                invariant
                    trie.wf(),
                    qv == qs@,
                    m == qs.len(),
                    m <= MAX_QUERY_LEN,
                    wi == w,
                    bi == budget,
                    budget == cfg.budget,
                    budget <= 64,
                    w == budget / 8,
                    qmask.len() == m + 1,
                    forall|i: int| 0 <= i <= m ==> #[trigger] qmask@[i] == suffix_mask(qv, i),
                    ok == (|e: Entry| entry_ok(trie, *cm, qv, wi, bi, e)),
                    forall|i: int| 0 <= i < self.heap.len() ==> ok(#[trigger] self.heap[i]),
                    v < trie.nodes(),
                    ok(e),
                    e.node == v,
                    e.term == NO_TERM,
                    e.depth == depth,
                    pv == trie.path(v as int),
                    depth == pv.len(),
                    depth <= v,
                    range.start == trie.starts_spec()[v as int],
                    range.end == trie.starts_spec()[v as int] + trie.counts_spec()[v as int],
                    range.start <= c <= range.end,
                    self.heap.len() <= heap_before + 1 + (c - range.start),
                    range.end - range.start <= 65535,
                    out.hits.len() < cfg.k,
                    forall|i: int| 0 <= i < out.hits.len() ==> #[trigger] hit_ok(trie, *cm, qv, cfg.budget, out.hits[i]),
                    out.stats.nodes_expanded <= cfg.max_nodes,
                    out.stats.nodes_expanded == expanded_now,
                    out.hits@ == hits1,
                    hits1 == hits0,
                    target == holds_query(trie, qv),
                    target ==> 0 <= t0 < trie.term_syms().len() && trie.term_syms()[t0] == qv && 0 <= un < trie.nodes()
                        && trie.term_ids_spec()[un] == t0 && trie.path(un) == qv,
                    need ==> target && leads_to_query(trie, qv, e),
                    need && depth < m ==> child_of(trie, v as int, a) && trie.path(a) == qv.take(depth + 1),
                    target ==> finds_query(trie, qv, out.hits@) || (self.heap.len() > 0 && heap_leads(trie, qv, self.heap@))
                        || (need && depth < m && c <= a),
                    full == (!cfg.tsb && trie.bfs_layout() && trie.children_sorted() && trie.spells_terms()),
                    full ==> forall|t: int| #[trigger] within_budget(trie, *cm, qv, bi, t) ==> hits_term(out.hits@, t)
                        || (self.heap.len() > 0 && heap_has(self.heap@, leads_to(trie, t)))
                        || (leads_to_term(trie, t, e) && depth < trie.term_syms()[t].len()
                            && c <= next_on(trie, v as int, t) && child_of(trie, v as int, next_on(trie, v as int, t))
                            && trie.path(next_on(trie, v as int, t)) == trie.term_syms()[t].take(depth + 1)),
                decreases range.end - c,
            {
                proof {
                    lemma_child_path(trie, v as int, c as int);
                    lemma_path_len(trie.labels_spec(), trie.parents_spec(), c as int);
                }
                let ghost pc = trie.path(c as int);
                let parent_label = trie.symbol(v);
                let ch = trie.symbol(c);
                proof {
                    assert(pc == pv.push(ch));
                    assert(pc.take(depth as int) =~= pv);
                    assert(pv.take(depth as int) =~= pv);
                    if depth >= 1 {
                        lemma_path_last(trie, v as int);
                        assert(pc.take(depth - 1) =~= pv.take(depth - 1));
                    }
                    assert forall|k: int| 0 <= k <= 2 * wi implies #[trigger] e.cur@[k]
                        == band(*cm, qv, pc, wi, bi, depth + k - wi, depth as int) by {
                        lemma_band_prefix(*cm, qv, pv, pc, wi, bi, depth + k - wi, depth as int);
                    }
                    assert forall|k: int| 0 <= k <= 2 * wi implies #[trigger] e.prev@[k]
                        == band(*cm, qv, pc, wi, bi, depth - 1 + k - wi, depth - 1) by {
                        lemma_band_prefix(*cm, qv, pv, pc, wi, bi, depth - 1 + k - wi, depth - 1);
                    }
                }
                let ghost h_iter = self.heap@;
                let row = child_row(qs.as_slice(), cm, w, budget, depth, parent_label, ch, &e.cur, &e.prev, Ghost(pc));
                proof {
                    if need && depth < m && c == a {
                        trie.lemma_wf();
                        assert(trie.path(un).take(qv.len() as int) =~= qv);
                        lemma_on_query_path(trie, qv, un, c as int);
                        assert(qmask@[depth + 1] == suffix_mask(qv, depth + 1));
                        assert(zero_extra(trie, c as int, qmask@, false, m as int, wi, depth + 1, wi));
                        assert(pc.take(depth + 1) =~= pc);
                        assert(qv.take(depth + 1) =~= pc);
                        lemma_osa_equal_prefix(*cm, qv, pc, depth + 1);
                        assert(row@[wi] == band(*cm, qv, pc, wi, bi, depth + 1 + wi - wi, depth + 1));
                        assert(row@[wi] == 0);
                    }
                }
                let lb = lower_bound(trie, c, depth + 1, &row, &e.cur, m, w, qmask.as_slice(), cm, cfg.tsb, false);
                out.stats.rows_computed = out.stats.rows_computed.saturating_add(1);
                let ghost mut ce_pushed: Option<Entry> = None;
                if lb <= budget {
                    self.seq = self.seq.wrapping_add(1);
                    let key = pack(cfg.ranking.rank(lb), trie.max_weight(c), 0);
                    let ce = Entry { key, seq: self.seq, node: c, term: NO_TERM, cost: 0, settled: false,
                        depth: depth + 1, cur: row, prev: e.cur };
                    proof {
                        assert(ok(ce));
                    }
                    heap_push(&mut self.heap, ce, Ghost(ok));
                    proof {
                        if need && depth < m && c == a {
                            assert(leads_to_query(trie, qv, ce));
                            lemma_leads_add(trie, qv, self.heap@, ce);
                        }
                        if target && heap_leads(trie, qv, h_iter) {
                            lemma_leads_kept(trie, qv, h_iter, self.heap@);
                        }
                        ce_pushed = Some(ce);
                    }
                }
                proof {
                    if need && depth < m && c == a {
                        assert(lb <= budget);
                    }
                    if full {
                        assert forall|t: int| #[trigger] within_budget(trie, *cm, qv, bi, t) implies hits_term(out.hits@, t)
                            || (self.heap.len() > 0 && heap_has(self.heap@, leads_to(trie, t)))
                            || (leads_to_term(trie, t, e) && depth < trie.term_syms()[t].len()
                                && c + 1 <= next_on(trie, v as int, t) && child_of(trie, v as int, next_on(trie, v as int, t))
                                && trie.path(next_on(trie, v as int, t)) == trie.term_syms()[t].take(depth + 1)) by {
                            let tt = trie.term_syms()[t];
                            if hits_term(out.hits@, t) {
                            } else if self.heap.len() > 0 && heap_has(h_iter, leads_to(trie, t)) {
                                if ce_pushed is Some {
                                    lemma_has_kept(h_iter, self.heap@, leads_to(trie, t));
                                }
                            } else if c as int == next_on(trie, v as int, t) && leads_to_term(trie, t, e)
                                && depth < tt.len() {
                                assert(pc == tt.take(depth + 1));
                                assert(tt.take(depth as int) == pv);
                                lemma_bound_on_path(*cm, qv, tt, wi, bi, depth + 1, lb as int, row@, e.cur@);
                                assert(ce_pushed is Some);
                                assert(leads_to_term(trie, t, ce_pushed->0));
                                lemma_has_add(self.heap@, ce_pushed->0, leads_to(trie, t));
                            }
                        }
                    }
                }
                c = c + 1;
            }
        }
        out.stats.nodes_pushed = self.seq as usize;
        out
    }
}


/// The cost `c` is that of aligning the whole query `q` with some prefix
/// (the empty one included) of `t`.
pub open spec fn prefix_cost(cm: CostModel, q: Seq<u32>, t: Seq<u32>, c: int) -> bool {
    exists|j: int| 0 <= j <= t.len() && c == #[trigger] osa(cm, q, t, q.len() as int, j)
}

/// A hit of a prefix search: a term within the budget, with its weight,
/// whose cost is that of the query against one of its prefixes when the
/// trie's paths spell its terms.
pub open spec fn prefix_hit_ok(trie: &Trie, cm: CostModel, qs: Seq<u32>, budget: u16, h: Hit) -> bool {
    &&& (h.id as int) < trie.term_syms().len()
    &&& h.weight == trie.weights_spec()[h.id as int]
    &&& h.cost <= budget
    &&& trie.spells_terms() ==> prefix_cost(cm, qs, trie.term_syms()[h.id as int], h.cost as int)
}

/// The symbols a text query is searched with: normalised with the trie's
/// normaliser when it has one.
pub open spec fn text_syms(trie: &Trie, q: Seq<char>) -> Seq<u32> {
    match trie.normalizer_spec() {
        Some(n) => str_syms(norm_str(n, q)),
        None => str_syms(q),
    }
}

/// The invariant of a queue entry of a prefix search.
spec fn pentry_ok(trie: &Trie, cm: CostModel, qs: Seq<u32>, w: int, budget: int, e: Entry) -> bool {
    &&& e.node < trie.nodes()
    &&& e.depth == trie.path(e.node as int).len()
    &&& if e.term != NO_TERM {
            &&& (e.term as int) < trie.term_syms().len()
            &&& e.cost <= budget
            &&& (trie.spells_terms() ==> prefix_cost(cm, qs, trie.term_syms()[e.term as int], e.cost as int))
        } else if e.settled {
            &&& e.cost <= budget
            &&& prefix_cost(cm, qs, trie.path(e.node as int), e.cost as int)
        } else {
            &&& (e.cost == INF || (e.cost <= budget && prefix_cost(cm, qs, trie.path(e.node as int), e.cost as int)))
            &&& forall|k: int| 0 <= k <= 2 * w ==> #[trigger] e.cur@[k]
                == band(cm, qs, trie.path(e.node as int), w, budget, e.depth + k - w, e.depth as int)
            &&& forall|k: int| 0 <= k <= 2 * w ==> #[trigger] e.prev@[k]
                == band(cm, qs, trie.path(e.node as int), w, budget, e.depth - 1 + k - w, e.depth - 1)
        }
}

/// A prefix cost of a path is one of every longer path through it.
proof fn lemma_prefix_cost_extend(cm: CostModel, q: Seq<u32>, t: Seq<u32>, u: Seq<u32>, c: int)
    requires
        prefix_cost(cm, q, t, c),
        t.len() <= u.len(),
        u.take(t.len() as int) == t,
    ensures
        prefix_cost(cm, q, u, c),
{
    let j = choose|j: int| 0 <= j <= t.len() && c == #[trigger] osa(cm, q, t, q.len() as int, j);
    assert(t.take(j) =~= u.take(j)) by {
        assert(u.take(j) =~= u.take(t.len() as int).take(j));
    }
    lemma_osa_prefix(cm, q, t, u, q.len() as int, j);
    assert(c == osa(cm, q, u, q.len() as int, j));
}

/// The cell of a row at `depth` that aligns the whole query: the prefix of
/// length `depth` against the query, or `INF`.
fn prefix_cell(m: usize, w: usize, depth: usize, cur: &[u16; 17]) -> (r: u16)
    requires
        w <= MAX_W,
        m <= MAX_QUERY_LEN,
    ensures
        (depth <= m + w && m + w - depth <= 2 * w) ==> r == cur@[(m + w - depth) as int],
        !(depth <= m + w && m + w - depth <= 2 * w) ==> r == INF,
{
    if depth <= m + w && m + w - depth <= 2 * w {
        cur[m + w - depth]
    } else {
        INF
    }
}

proof fn lemma_prefix_cell(cm: CostModel, q: Seq<u32>, t: Seq<u32>, w: int, budget: int, depth: int, cur: Seq<u16>, r: u16)
    requires
        0 <= w,
        0 <= depth == t.len(),
        budget < INF,
        forall|k: int| 0 <= k <= 2 * w ==> #[trigger] cur[k] == band(cm, q, t, w, budget, depth + k - w, depth),
        (depth <= q.len() + w && q.len() + w - depth <= 2 * w) ==> r == cur[(q.len() + w - depth) as int],
        !(depth <= q.len() + w && q.len() + w - depth <= 2 * w) ==> r == INF,
    ensures
        r == INF || (r <= budget && prefix_cost(cm, q, t, r as int)),
{
    if r != INF {
        let k = q.len() + w - depth;
        assert(cur[k] == band(cm, q, t, w, budget, q.len() as int, depth));
        assert(r == osa(cm, q, t, q.len() as int, depth));
    }
}

impl Searcher {
    /// [`Searcher::search`] for text: `q` is normalised with the normaliser
    /// of `trie` ([`Trie::build_normalized`]) first, so terms and queries
    /// are folded identically. [`MAX_QUERY_LEN`] applies to the normalised
    /// query.
    pub fn search_text(&mut self, trie: &Trie, cm: &CostModel, q: &str, cfg: &SearchConfig)
        -> (r: Result<Output, SearchError>)
        requires
            trie.wf(),
        ensures
            search_outcome(text_syms(trie, q@), *cfg, r, |h: Hit| hit_ok(trie, *cm, text_syms(trie, q@), cfg.budget, h)),
            r matches Ok(out) ==> (holds_query(trie, text_syms(trie, q@)) && !out.stats.truncated
                ==> out.hits.len() == cfg.k || finds_query(trie, text_syms(trie, q@), out.hits@)),
            r matches Ok(out) ==> (!cfg.tsb && trie.bfs_layout() && trie.children_sorted() && trie.spells_terms()
                && !out.stats.truncated && out.hits.len() < cfg.k ==> forall|t: int|
                #[trigger] within_budget(trie, *cm, text_syms(trie, q@), cfg.budget as int, t) ==> hits_term(out.hits@, t)),
    {
        let qs = Self::load_text(trie, q);
        let w = match Self::check(qs.len(), cm, cfg) {
            Ok(w) => w,
            Err(e) => return Err(e),
        };
        Ok(self.run(trie, cm, &qs, w, cfg))
    }

    /// The symbols of a text query, normalised with the trie's normaliser
    /// if it has one.
    fn load_text(trie: &Trie, q: &str) -> (qs: Vec<u32>)
        ensures
            qs@ == text_syms(trie, q@),
    {
        match trie.normalizer() {
            Some(n) => {
                let t = n.normalize(q);
                symbols_of(t.as_str())
            },
            None => symbols_of(q),
        }
    }

    /// Prefix (autocomplete) search: returns the `cfg.k` best terms that
    /// start with something within `cfg.budget` of the query, best first.
    ///
    /// The cost of a term is the smallest weighted edit cost between the
    /// whole query and any prefix of the term (the empty prefix included),
    /// so the typed text may have typos while the rest of the term is free.
    /// The order is the one of [`Searcher::search`]. An empty query matches
    /// every term at cost 0, so the result is the `k` heaviest terms.
    ///
    /// When the query starts some term of a built trie, a term that starts
    /// with it is among the hits, unless the node limit stopped the search
    /// or `cfg.k` hits came first.
    pub fn search_prefix(&mut self, trie: &Trie, cm: &CostModel, q: &[u8], cfg: &SearchConfig)
        -> (r: Result<Output, SearchError>)
        requires
            trie.wf(),
        ensures
            search_outcome(decode_syms(q@), *cfg, r, |h: Hit| prefix_hit_ok(trie, *cm, decode_syms(q@), cfg.budget, h)),
            r matches Ok(out) ==> (holds_prefix(trie, decode_syms(q@)) && !out.stats.truncated
                ==> out.hits.len() == cfg.k || finds_prefix(trie, decode_syms(q@), out.hits@)),
    {
        let qs = decode(q);
        let w = match Self::check(qs.len(), cm, cfg) {
            Ok(w) => w,
            Err(e) => return Err(e),
        };
        Ok(self.run_prefix(trie, cm, &qs, w, cfg))
    }

    /// [`Searcher::search_prefix`] for text, with the query normalised as
    /// by [`Searcher::search_text`].
    pub fn search_prefix_text(&mut self, trie: &Trie, cm: &CostModel, q: &str, cfg: &SearchConfig)
        -> (r: Result<Output, SearchError>)
        requires
            trie.wf(),
        ensures
            search_outcome(text_syms(trie, q@), *cfg, r, |h: Hit| prefix_hit_ok(trie, *cm, text_syms(trie, q@), cfg.budget, h)),
            r matches Ok(out) ==> (holds_prefix(trie, text_syms(trie, q@)) && !out.stats.truncated
                ==> out.hits.len() == cfg.k || finds_prefix(trie, text_syms(trie, q@), out.hits@)),
    {
        let qs = Self::load_text(trie, q);
        let w = match Self::check(qs.len(), cm, cfg) {
            Ok(w) => w,
            Err(e) => return Err(e),
        };
        Ok(self.run_prefix(trie, cm, &qs, w, cfg))
    }

    /// [`Searcher::search_prefix`] on the symbols `qs`, once they passed the
    /// checks.
    #[verifier::spinoff_prover]
    #[verifier::rlimit(100)]
    fn run_prefix(&mut self, trie: &Trie, cm: &CostModel, qs: &Vec<u32>, w: usize, cfg: &SearchConfig) -> (out: Output)
        requires
            trie.wf(),
            qs.len() <= MAX_QUERY_LEN,
            cfg.budget <= 64,
            w == cfg.budget / 8,
        ensures
            out.hits.len() <= cfg.k,
            forall|i: int| 0 <= i < out.hits.len() ==> #[trigger] prefix_hit_ok(trie, *cm, qs@, cfg.budget, out.hits[i]),
            holds_prefix(trie, qs@) && !out.stats.truncated
                ==> out.hits.len() == cfg.k || finds_prefix(trie, qs@, out.hits@),
    {
        let mut out = Output { hits: Vec::new(), stats: Stats::default() };
        if cfg.k == 0 {
            return out;
        }
        let ghost qv = qs@;
        let ghost wi = w as int;
        let ghost bi = cfg.budget as int;
        let ghost ok = |e: Entry| pentry_ok(trie, *cm, qv, wi, bi, e);
        let budget = cfg.budget;
        let m = qs.len();
        let qmask = query_masks(qs.as_slice());
        self.heap.clear();
        self.seq = 0;
        proof {
            trie.lemma_wf();
        }
        let ghost target = holds_prefix(trie, qv);
        let ghost mut t0: int = 0;
        let ghost mut un: int = 0;
        proof {
            if target {
                t0 = choose|t: int| 0 <= t < trie.term_syms().len() && qv.len() <= trie.term_syms()[t].len() <= 0xFFFF
                    && trie.term_syms()[t].take(qv.len() as int) == qv;
                assert(trie.ends_at_node(t0));
                un = choose|u: int| 0 <= u < trie.nodes() && trie.term_ids_spec()[u] == t0;
            }
        }
        let ghost pt = trie.path(un);
        let ghost lp = |x: Entry| leads_to_prefix(trie, qv, pt, x);
        let root_cur = root_row(qs.as_slice(), cm, w, budget);
        let none: [u16; 17] = [INF; 17];
        proof {
            if target {
                assert(trie.path(0) =~= Seq::<u32>::empty());
                assert(qv.take(0) =~= Seq::<u32>::empty());
                lemma_on_query_path(trie, qv, un, 0);
                assert(qmask@[0] == suffix_mask(qv, 0));
                assert(zero_extra(trie, 0, qmask@, true, m as int, wi, 0, wi));
                assert(root_cur@[wi] == 0) by {
                    reveal(osa);
                }
            }
        }
        let lbd = lower_bound(trie, 0, 0, &root_cur, &none, m, w, qmask.as_slice(), cm, cfg.tsb, true);
        out.stats.rows_computed = 1;
        let acc = prefix_cell(m, w, 0, &root_cur);
        proof {
            assert(trie.path(0) =~= Seq::<u32>::empty());
            lemma_prefix_cell(*cm, qv, trie.path(0), wi, bi, 0, root_cur@, acc);
        }
        let lb = if acc < lbd { acc } else { lbd };
        if lb <= budget {
            self.seq = self.seq.wrapping_add(1);
            if acc < INF && lbd >= acc {
                let key = pack(cfg.ranking.rank(acc), trie.max_weight(0), 0);
                let e = Entry { key, seq: self.seq, node: 0, term: NO_TERM, cost: acc, settled: true, depth: 0,
                    cur: none, prev: none };
                proof {
                    assert(ok(e));
                }
                heap_push(&mut self.heap, e, Ghost(ok));
                proof {
                    if target {
                        assert(pt.take(0) =~= Seq::<u32>::empty());
                        assert(trie.path(e.node as int).len() == 0);
                        assert(lp(e));
                        lemma_has_add(self.heap@, e, lp);
                    }
                }
            } else {
                let key = pack(cfg.ranking.rank(lb), trie.max_weight(0), 0);
                let e = Entry { key, seq: self.seq, node: 0, term: NO_TERM, cost: acc, settled: false, depth: 0,
                    cur: root_cur, prev: none };
                proof {
                    assert forall|k: int| 0 <= k <= 2 * wi implies #[trigger] e.prev@[k]
                        == band(*cm, qv, trie.path(0), wi, bi, k - 1 - wi, -1) by {}
                    assert(ok(e));
                }
                heap_push(&mut self.heap, e, Ghost(ok));
                proof {
                    if target {
                        assert(pt.take(0) =~= Seq::<u32>::empty());
                        assert(trie.path(e.node as int).len() == 0);
                        assert(lp(e));
                        lemma_has_add(self.heap@, e, lp);
                    }
                }
            }
        }
        proof {
            if target {
                assert(lb <= budget);
            }
        }
        while self.heap.len() > 0
            invariant_except_break
                out.hits.len() < cfg.k,
                target ==> finds_prefix(trie, qv, out.hits@) || (self.heap.len() > 0 && heap_has(self.heap@, lp)),
            invariant
                trie.wf(),
                qv == qs@,
                m == qs.len(),
                m <= MAX_QUERY_LEN,
                wi == w,
                bi == budget,
                budget == cfg.budget,
                budget <= 64,
                w == budget / 8,
                qmask.len() == m + 1,
                ok == (|e: Entry| pentry_ok(trie, *cm, qv, wi, bi, e)),
                forall|i: int| 0 <= i < self.heap.len() ==> ok(#[trigger] self.heap[i]),
                out.hits.len() <= cfg.k,
                forall|i: int| 0 <= i < out.hits.len() ==> #[trigger] prefix_hit_ok(trie, *cm, qv, cfg.budget, out.hits[i]),
                out.stats.nodes_expanded <= cfg.max_nodes,
                forall|i: int| 0 <= i <= m ==> #[trigger] qmask@[i] == suffix_mask(qv, i),
                target == holds_prefix(trie, qv),
                pt == trie.path(un),
                lp == (|x: Entry| leads_to_prefix(trie, qv, pt, x)),
                target ==> 0 <= t0 < trie.term_syms().len() && 0 <= un < trie.nodes()
                    && trie.term_ids_spec()[un] == t0 && trie.term_syms()[t0] == pt
                    && qv.len() <= pt.len() <= 0xFFFF && pt.take(qv.len() as int) == qv,
            ensures
                target ==> out.stats.truncated || out.hits.len() == cfg.k || finds_prefix(trie, qv, out.hits@),
            decreases (cfg.max_nodes - out.stats.nodes_expanded) * 65538 + self.heap.len(),
        {
            let ghost before = self.heap@;
            let ghost hits0 = out.hits@;
            let e = heap_pop(&mut self.heap, Ghost(ok)).unwrap();
            proof {
                trie.lemma_wf();
            }
            let ghost need = target && !finds_prefix(trie, qv, hits0) && !heap_has(self.heap@, lp);
            let ghost after_pop = self.heap@;
            proof {
                if need {
                    lemma_has_pop(before, self.heap@, e, lp);
                }
                if target && heap_has(self.heap@, lp) {
                    lemma_has_nonempty(self.heap@, lp);
                }
            }
            if e.term != NO_TERM {
                let h = Hit { id: e.term, cost: e.cost, weight: trie.weight(e.term) };
                out.hits.push(h);
                proof {
                    lemma_finds_prefix_push(trie, qv, hits0, h);
                    assert(out.hits@ == hits0.push(h));
                    assert(prefix_hit_ok(trie, *cm, qv, cfg.budget, h));
                    assert forall|i: int| 0 <= i < out.hits.len() implies #[trigger] prefix_hit_ok(trie, *cm, qv, cfg.budget, out.hits[i]) by {
                        if i == out.hits.len() - 1 {
                            assert(out.hits[i] == h);
                        }
                    }
                }
                if out.hits.len() == cfg.k {
                    break;
                }
                continue;
            }
            if out.stats.nodes_expanded >= cfg.max_nodes {
                out.stats.truncated = true;
                break;
            }
            out.stats.nodes_expanded = out.stats.nodes_expanded + 1;
            let v = e.node;
            let depth = e.depth;
            let acc = e.cost;
            let ghost pv = trie.path(v as int);
            let ghost heap_before = self.heap@.len();
            let ghost expanded_now = out.stats.nodes_expanded;
            proof {
                lemma_path_len(trie.labels_spec(), trie.parents_spec(), v as int);
                if need && depth == pt.len() {
                    assert(pv =~= pt);
                    lemma_paths_distinct(trie, v as int, un);
                }
            }
            let tid = trie.term_id(v);
            if tid != NO_TERM && acc <= budget {
                self.seq = self.seq.wrapping_add(1);
                let key = pack(cfg.ranking.rank(acc), trie.weight(tid), tid);
                let te = Entry { key, seq: self.seq, node: v, term: tid, cost: acc, settled: true, depth,
                    cur: [INF; 17], prev: [INF; 17] };
                proof {
                    if trie.spells_terms() {
                        assert(pv == trie.term_syms()[tid as int]);
                    }
                    assert(ok(te));
                }
                heap_push(&mut self.heap, te, Ghost(ok));
                proof {
                    if need && depth == pt.len() {
                        assert(lp(te));
                        lemma_has_add(self.heap@, te, lp);
                    }
                    if target && heap_has(after_pop, lp) {
                        lemma_has_kept(after_pop, self.heap@, lp);
                    }
                }
            }
            let range = trie.children(v);
            let mut c = range.start;
            let ghost mut a: int = 0;
            let ghost hits1 = out.hits@;
            proof {
                trie.lemma_wf();
                if need && depth < pt.len() {
                    a = lemma_next_on_path(trie, v as int, un);
                }
                if need && depth == pt.len() {
                    assert(heap_has(self.heap@, lp));
                }
            }
            while c < range.end
                invariant
                    trie.wf(),
                    qv == qs@,
                    m == qs.len(),
                    m <= MAX_QUERY_LEN,
                    wi == w,
                    bi == budget,
                    budget == cfg.budget,
                    budget <= 64,
                    w == budget / 8,
                    qmask.len() == m + 1,
                    ok == (|e: Entry| pentry_ok(trie, *cm, qv, wi, bi, e)),
                    forall|i: int| 0 <= i < self.heap.len() ==> ok(#[trigger] self.heap[i]),
                    v < trie.nodes(),
                    ok(e),
                    e.node == v,
                    e.term == NO_TERM,
                    e.depth == depth,
                    e.cost == acc,
                    pv == trie.path(v as int),
                    depth == pv.len(),
                    depth <= v,
                    range.start == trie.starts_spec()[v as int],
                    range.end == trie.starts_spec()[v as int] + trie.counts_spec()[v as int],
                    range.start <= c <= range.end,
                    self.heap.len() <= heap_before + 1 + (c - range.start),
                    range.end - range.start <= 65535,
                    out.hits.len() < cfg.k,
                    forall|i: int| 0 <= i < out.hits.len() ==> #[trigger] prefix_hit_ok(trie, *cm, qv, cfg.budget, out.hits[i]),
                    out.stats.nodes_expanded <= cfg.max_nodes,
                    out.stats.nodes_expanded == expanded_now,
                    forall|i: int| 0 <= i <= m ==> #[trigger] qmask@[i] == suffix_mask(qv, i),
                    out.hits@ == hits1,
                    hits1 == hits0,
                    target == holds_prefix(trie, qv),
                    pt == trie.path(un),
                    lp == (|x: Entry| leads_to_prefix(trie, qv, pt, x)),
                    target ==> 0 <= t0 < trie.term_syms().len() && 0 <= un < trie.nodes()
                        && trie.term_ids_spec()[un] == t0 && trie.term_syms()[t0] == pt
                        && qv.len() <= pt.len() <= 0xFFFF && pt.take(qv.len() as int) == qv,
                    need ==> target && lp(e),
                    need && depth < pt.len() ==> child_of(trie, v as int, a) && trie.path(a) == pt.take(depth + 1),
                    target ==> finds_prefix(trie, qv, out.hits@) || (self.heap.len() > 0 && heap_has(self.heap@, lp))
                        || (need && depth < pt.len() && c <= a),
                decreases range.end - c,
            {
                proof {
                    trie.lemma_wf();
                    lemma_child_path(trie, v as int, c as int);
                    lemma_path_len(trie.labels_spec(), trie.parents_spec(), c as int);
                }
                let ghost pc = trie.path(c as int);
                let parent_label = trie.symbol(v);
                let ch = trie.symbol(c);
                let ghost h_iter = self.heap@;
                proof {
                    assert(pc == pv.push(ch));
                    assert(pc.take(depth as int) =~= pv);
                }
                if e.settled {
                    self.seq = self.seq.wrapping_add(1);
                    let key = pack(cfg.ranking.rank(acc), trie.max_weight(c), 0);
                    let ce = Entry { key, seq: self.seq, node: c, term: NO_TERM, cost: acc, settled: true,
                        depth: depth + 1, cur: [INF; 17], prev: [INF; 17] };
                    proof {
                        lemma_prefix_cost_extend(*cm, qv, pv, pc, acc as int);
                        assert(ok(ce));
                    }
                    heap_push(&mut self.heap, ce, Ghost(ok));
                    proof {
                        if need && depth < pt.len() && c == a {
                            assert(lp(ce));
                            lemma_has_add(self.heap@, ce, lp);
                        }
                        if target && heap_has(h_iter, lp) {
                            lemma_has_kept(h_iter, self.heap@, lp);
                        }
                    }
                } else {
                    proof {
                        assert(pv.take(depth as int) =~= pv);
                        if depth >= 1 {
                            lemma_path_last(trie, v as int);
                            assert(pc.take(depth - 1) =~= pv.take(depth - 1));
                        }
                        assert forall|k: int| 0 <= k <= 2 * wi implies #[trigger] e.cur@[k]
                            == band(*cm, qv, pc, wi, bi, depth + k - wi, depth as int) by {
                            lemma_band_prefix(*cm, qv, pv, pc, wi, bi, depth + k - wi, depth as int);
                        }
                        assert forall|k: int| 0 <= k <= 2 * wi implies #[trigger] e.prev@[k]
                            == band(*cm, qv, pc, wi, bi, depth - 1 + k - wi, depth - 1) by {
                            lemma_band_prefix(*cm, qv, pv, pc, wi, bi, depth - 1 + k - wi, depth - 1);
                        }
                    }
                    let row = child_row(qs.as_slice(), cm, w, budget, depth, parent_label, ch, &e.cur, &e.prev, Ghost(pc));
                    let lbd = lower_bound(trie, c, depth + 1, &row, &e.cur, m, w, qmask.as_slice(), cm, cfg.tsb, true);
                    out.stats.rows_computed = out.stats.rows_computed.saturating_add(1);
                    let here = prefix_cell(m, w, depth + 1, &row);
                    proof {
                        if need && depth < pt.len() && c == a && depth + 1 <= m {
                            assert(pc.take(depth + 1) =~= pc);
                            assert(qv.take(depth + 1) =~= pc);
                            lemma_on_query_path(trie, qv, un, c as int);
                            assert(qmask@[depth + 1] == suffix_mask(qv, depth + 1));
                            assert(zero_extra(trie, c as int, qmask@, true, m as int, wi, depth + 1, wi));
                            lemma_osa_equal_prefix(*cm, qv, pc, depth + 1);
                            assert(row@[wi] == band(*cm, qv, pc, wi, bi, depth + 1 + wi - wi, depth + 1));
                            assert(row@[wi] == 0);
                            assert(lbd == 0);
                        }
                        lemma_prefix_cell(*cm, qv, pc, wi, bi, depth + 1, row@, here);
                        if acc != INF {
                            lemma_prefix_cost_extend(*cm, qv, pv, pc, acc as int);
                        }
                    }
                    let acc_c = if here < acc { here } else { acc };
                    let lb = if acc_c < lbd { acc_c } else { lbd };
                    if lb <= budget {
                        self.seq = self.seq.wrapping_add(1);
                        if acc_c < INF && lbd >= acc_c {
                            let key = pack(cfg.ranking.rank(acc_c), trie.max_weight(c), 0);
                            let ce = Entry { key, seq: self.seq, node: c, term: NO_TERM, cost: acc_c, settled: true,
                                depth: depth + 1, cur: [INF; 17], prev: [INF; 17] };
                            proof {
                                assert(ok(ce));
                            }
                            heap_push(&mut self.heap, ce, Ghost(ok));
                            proof {
                                if need && depth < pt.len() && c == a {
                                    assert(lp(ce));
                                    lemma_has_add(self.heap@, ce, lp);
                                }
                                if target && heap_has(h_iter, lp) {
                                    lemma_has_kept(h_iter, self.heap@, lp);
                                }
                            }
                        } else {
                            let key = pack(cfg.ranking.rank(lb), trie.max_weight(c), 0);
                            let ce = Entry { key, seq: self.seq, node: c, term: NO_TERM, cost: acc_c, settled: false,
                                depth: depth + 1, cur: row, prev: e.cur };
                            proof {
                                assert(ok(ce));
                            }
                            heap_push(&mut self.heap, ce, Ghost(ok));
                            proof {
                                if need && depth < pt.len() && c == a {
                                    assert(lp(ce));
                                    lemma_has_add(self.heap@, ce, lp);
                                }
                                if target && heap_has(h_iter, lp) {
                                    lemma_has_kept(h_iter, self.heap@, lp);
                                }
                            }
                        }
                    }
                    proof {
                        if need && depth < pt.len() && c == a {
                            assert(lb <= budget);
                        }
                    }
                }
                c = c + 1;
            }
        }
        out.stats.nodes_pushed = self.seq as usize;
        out
    }
}


/// What highlighting a hit for the query symbols `qs` returns.
pub open spec fn highlight_outcome(trie: &Trie, cm: CostModel, qs: Seq<u32>, hit: Hit, source: Seq<char>,
    mode: HighlightMode, r: Result<Highlight, HighlightError>) -> bool {
    if qs.len() > MAX_QUERY_LEN {
        r == Err::<Highlight, HighlightError>(HighlightError::QueryTooLong { len: qs.len() as usize, max: MAX_QUERY_LEN })
    } else if (hit.id as int) >= trie.term_syms().len() {
        r == Err::<Highlight, HighlightError>(HighlightError::UnknownTerm { id: hit.id })
    } else if str_syms(norm_str(hl_normalizer(trie), source)) != trie.term_syms()[hit.id as int] {
        r == Err::<Highlight, HighlightError>(HighlightError::SourceMismatch)
    } else {
        aligned_outcome(cm, qs, trie.term_syms()[hit.id as int], hit, mode, source, r)
    }
}

impl Searcher {
    /// The characters of a hit that the query matched, as ranges of
    /// `source` in code points, UTF-8 bytes and UTF-16 units.
    ///
    /// `q` is the query exactly as given to [`Searcher::search`]
    /// ([`HighlightMode::Whole`]) or [`Searcher::search_prefix`]
    /// ([`HighlightMode::Prefix`]), and `hit` one of the hits that search
    /// returned. `source` is the string the caller inserted for the term; it
    /// must normalise, with the trie's normaliser if it has one, to the
    /// hit's term. The alignment is recomputed on the full matrix and
    /// walked back; its cost always equals `hit.cost`.
    pub fn highlight(&mut self, trie: &Trie, cm: &CostModel, q: &[u8], hit: &Hit, source: &str, mode: HighlightMode)
        -> (r: Result<Highlight, HighlightError>)
        requires
            trie.wf(),
        ensures
            highlight_outcome(trie, *cm, decode_syms(q@), *hit, source@, mode, r),
    {
        let qs = decode(q);
        if qs.len() > MAX_QUERY_LEN {
            return Err(HighlightError::QueryTooLong { len: qs.len(), max: MAX_QUERY_LEN });
        }
        crate::highlight::run(&mut self.hl, trie, cm, qs.as_slice(), hit, source, mode)
    }

    /// [`Searcher::highlight`] for a hit of [`Searcher::search_text`] or
    /// [`Searcher::search_prefix_text`]: `q` is normalised with the trie's
    /// normaliser first, as those searches do.
    pub fn highlight_text(&mut self, trie: &Trie, cm: &CostModel, q: &str, hit: &Hit, source: &str,
        mode: HighlightMode) -> (r: Result<Highlight, HighlightError>)
        requires
            trie.wf(),
        ensures
            highlight_outcome(trie, *cm, text_syms(trie, q@), *hit, source@, mode, r),
    {
        let qs = Self::load_text(trie, q);
        if qs.len() > MAX_QUERY_LEN {
            return Err(HighlightError::QueryTooLong { len: qs.len(), max: MAX_QUERY_LEN });
        }
        crate::highlight::run(&mut self.hl, trie, cm, qs.as_slice(), hit, source, mode)
    }
}

} // verus!
