//! Match highlighting: which characters of a hit the user typed.
//!
//! After a search, [`Searcher::highlight`](crate::search::Searcher::highlight)
//! re-runs the alignment of the query with one hit's term on the full
//! matrix and walks it back. It returns the parts of the caller's original
//! term string that the alignment matched, as sorted, disjoint, half-open
//! ranges in code points, UTF-8 bytes and UTF-16 units.
//!
//! A term character is highlighted when it is aligned with an equal query
//! character or is one of a transposed pair; substituted characters and
//! characters the user skipped are not. Among equal-cost alignments the
//! first move in the order substitution, transposition, insertion, deletion
//! wins at every cell, so edits go to the left.
use vstd::prelude::*;
use core::ops::Range;
use crate::cost::{CostModel, INF, sub_spec, del_spec, ins_spec, transpose_spec};
use crate::search::{best, cand_del, cand_ins, cand_sub, cand_tr, min2, moves, osa, Hit, MAX_W};
use crate::text::{Normalizer, SourceMap, utf8_len, utf16_len, lemma_utf8_len};
use crate::trie::{str_syms, symbols_of, Trie};
use crate::chars::chars_of;
use vstd::string::StringSliceAdditionalSpecFns;

verus! {

/// Index of the substitution (or match) among the candidates of a cell.
pub const SUB: usize = 0;
/// Index of the transposition among the candidates of a cell.
pub const TRANSPOSE: usize = 1;
/// Index of the insertion (a skipped term symbol) among the candidates.
pub const INSERT: usize = 2;
/// Index of the deletion (an extra query symbol) among the candidates.
pub const DELETE: usize = 3;

/// Which search produced the hit.
#[derive(Clone, Copy, Debug, PartialEq, Eq, Hash)]
pub enum HighlightMode {
    /// A hit of an exact search: the whole term is aligned with the query.
    Whole,
    /// A hit of a prefix search: the query is aligned with the shortest
    /// prefix of the term that attains the hit's cost, and the rest of the
    /// term is never highlighted.
    Prefix,
}

impl Default for HighlightMode {
    fn default() -> (m: HighlightMode)
        ensures
            m == HighlightMode::Whole,
    {
        HighlightMode::Whole
    }
}

/// One span of the caller's term string, in three units. All three ranges
/// are half-open and describe the same characters.
#[derive(Debug, PartialEq, Eq, Hash)]
pub struct MatchRange {
    /// Code points (`str::chars` positions).
    pub chars: Range<usize>,
    /// UTF-8 bytes: always on `char` boundaries.
    pub utf8: Range<usize>,
    /// UTF-16 code units; never splits a surrogate pair.
    pub utf16: Range<usize>,
}

impl Clone for MatchRange {
    fn clone(&self) -> (r: MatchRange)
        ensures
            r == *self,
    {
        MatchRange {
            chars: self.chars.start..self.chars.end,
            utf8: self.utf8.start..self.utf8.end,
            utf16: self.utf16.start..self.utf16.end,
        }
    }
}

/// The highlighting of one hit.
#[derive(Clone, Debug, PartialEq, Eq)]
pub struct Highlight {
    /// The highlighted spans of the source string: sorted, disjoint, never
    /// empty and never touching.
    pub ranges: Vec<MatchRange>,
    /// The span of the source string the query was aligned with: the whole
    /// term in [`HighlightMode::Whole`], the matched prefix in
    /// [`HighlightMode::Prefix`].
    pub aligned: MatchRange,
    /// The cost of the alignment behind the ranges: always equal to the
    /// hit's cost.
    pub cost: u16,
    /// Dynamic-programming cells computed (the deterministic work counter).
    pub cells: usize,
}

/// Why a hit could not be highlighted.
#[derive(Clone, Copy, Debug, PartialEq, Eq)]
#[allow(inconsistent_fields)]
pub enum HighlightError {
    /// The query is longer than the longest accepted query.
    QueryTooLong {
        /// Query length in code points.
        len: usize,
        /// The limit.
        max: usize,
    },
    /// The hit's id is not a term of this trie.
    UnknownTerm {
        /// The id.
        id: u32,
    },
    /// The source string does not normalise (with the trie's normaliser, if
    /// any) to the hit's term.
    SourceMismatch,
    /// The alignment of this query and term does not cost what the hit
    /// says: the hit comes from another query, cost model, trie or mode.
    CostMismatch {
        /// The hit's cost.
        expected: u16,
        /// The recomputed cost, or `None` when it was not computed because
        /// it certainly exceeds `expected`.
        found: Option<u16>,
    },
}

impl HighlightError {
    /// A human-readable description of the error.
    pub fn message(&self) -> (s: String) {
        match self {
            HighlightError::QueryTooLong { .. } => "the query has too many code points".to_string(),
            HighlightError::UnknownTerm { .. } => "no term with this id".to_string(),
            HighlightError::SourceMismatch => "the source string does not normalise to the hit's term".to_string(),
            HighlightError::CostMismatch { .. } => "no alignment costs what the hit says: not a hit of this query".to_string(),
        }
    }
}

/// What the traceback decided for one normalised term symbol.
#[derive(Clone, Copy, Debug, PartialEq, Eq)]
pub enum Status {
    /// After the aligned prefix (prefix mode).
    Unaligned,
    /// Aligned with an equal query symbol.
    Matched,
    /// Aligned with a different query symbol.
    Substituted,
    /// One of a transposed pair.
    Transposed,
    /// Skipped by the user (an insertion).
    Skipped,
}

/// Whether a status is highlighted.
pub open spec fn lit_status(s: Status) -> bool {
    s == Status::Matched || s == Status::Transposed
}

fn highlighted(s: Status) -> (r: bool)
    ensures
        r == lit_status(s),
{
    match s {
        Status::Matched => true,
        Status::Transposed => true,
        _ => false,
    }
}

/// Buffers of the traceback.
pub struct Scratch {
    /// The DP matrix, one row per term prefix length.
    pub d: Vec<Vec<u16>>,
    /// The term symbols.
    pub t: Vec<u32>,
    /// One status per term symbol.
    pub status: Vec<Status>,
    /// The walked path, end first: (move, i, j) of each cell left.
    pub path: Vec<(usize, usize, usize)>,
    /// The source map of the last normalisation.
    pub map: SourceMap,
}

impl Default for Scratch {
    fn default() -> (s: Scratch)
        ensures
            s.t@.len() == 0,
    {
        Scratch { d: Vec::new(), t: Vec::new(), status: Vec::new(), path: Vec::new(), map: SourceMap::new() }
    }
}

/// `D[i][j]` is never above 24 per symbol of either side.
proof fn lemma_osa_ceiling(cm: CostModel, q: Seq<u32>, t: Seq<u32>, i: int, j: int)
    requires
        0 <= i <= q.len(),
        0 <= j <= t.len(),
    ensures
        osa(cm, q, t, i, j) <= 24 * (i + j),
    decreases i + j,
{
    reveal(osa);
    if i > 0 {
        lemma_osa_ceiling(cm, q, t, i - 1, j);
    } else if j > 0 {
        lemma_osa_ceiling(cm, q, t, i, j - 1);
    }
}

/// The value of a full-matrix cell from its exact neighbours.
pub open spec fn full_cell(cm: CostModel, q: Seq<u32>, t: Seq<u32>, i: int, j: int) -> int {
    let ch = if j >= 1 { t[j - 1] } else { 0u32 };
    let parent = if j >= 2 { Some(t[j - 2]) } else { None::<u32> };
    let diag = if j >= 1 && i >= 1 { osa(cm, q, t, i - 1, j - 1) } else { INF as int };
    let up = if j >= 1 { osa(cm, q, t, i, j - 1) } else { INF as int };
    let left = if i >= 1 { osa(cm, q, t, i - 1, j) } else { INF as int };
    let skip2 = if j >= 2 && i >= 2 { osa(cm, q, t, i - 2, j - 2) } else { INF as int };
    min2(min2(cand_sub(cm, q, i, ch, diag), cand_tr(q, i, ch, parent, skip2)),
        min2(cand_ins(i, ch, parent, up), cand_del(q, i, left)))
}

/// A cell computed from its exact neighbours is exact.
pub proof fn lemma_full_cell(cm: CostModel, q: Seq<u32>, t: Seq<u32>, i: int, j: int)
    requires
        0 <= i <= q.len(),
        0 <= j <= t.len(),
        i + j > 0,
        i + j <= 1000,
    ensures
        full_cell(cm, q, t, i, j) == osa(cm, q, t, i, j),
{
    reveal(osa);
    if i >= 1 && j >= 1 {
        lemma_osa_ceiling(cm, q, t, i - 1, j - 1);
    }
    if i >= 2 && j >= 2 {
        lemma_osa_ceiling(cm, q, t, i - 2, j - 2);
    }
    if j >= 1 {
        lemma_osa_ceiling(cm, q, t, i, j - 1);
    }
    if i >= 1 {
        lemma_osa_ceiling(cm, q, t, i - 1, j);
    }
}

/// One step of a traceback: from cell `(i, j)` by move `mv`, which attains
/// the cell and is the first of the four in the order substitution,
/// transposition, insertion, deletion that does.
pub open spec fn first_move(cm: CostModel, q: Seq<u32>, t: Seq<u32>, i: int, j: int, mv: usize) -> bool {
    let ch = if j >= 1 { t[j - 1] } else { 0u32 };
    let parent = if j >= 2 { Some(t[j - 2]) } else { None::<u32> };
    let diag = if j >= 1 && i >= 1 { osa(cm, q, t, i - 1, j - 1) } else { INF as int };
    let up = if j >= 1 { osa(cm, q, t, i, j - 1) } else { INF as int };
    let left = if i >= 1 { osa(cm, q, t, i - 1, j) } else { INF as int };
    let skip2 = if j >= 2 && i >= 2 { osa(cm, q, t, i - 2, j - 2) } else { INF as int };
    let v = osa(cm, q, t, i, j);
    let c = seq![cand_sub(cm, q, i, ch, diag), cand_tr(q, i, ch, parent, skip2), cand_ins(i, ch, parent, up),
        cand_del(q, i, left)];
    &&& mv < 4
    &&& c[mv as int] == v
    &&& forall|k: int| 0 <= k < mv ==> c[k] != v
}

/// The cell reached from `(i, j)` by move `mv`.
pub open spec fn step_from(mv: usize, i: int, j: int) -> (int, int) {
    if mv == SUB {
        (i - 1, j - 1)
    } else if mv == TRANSPOSE {
        (i - 2, j - 2)
    } else if mv == INSERT {
        (i, j - 1)
    } else {
        (i - 1, j)
    }
}

/// The walk `path` (end first) goes from `(i, j)` to `(0, 0)` by first
/// moves.
pub open spec fn walk_ok(cm: CostModel, q: Seq<u32>, t: Seq<u32>, path: Seq<(usize, usize, usize)>, i: int, j: int) -> bool
    decreases path.len(),
{
    if path.len() == 0 {
        i == 0 && j == 0
    } else {
        let (mv, pi, pj) = path[0];
        &&& pi == i
        &&& pj == j
        &&& first_move(cm, q, t, i, j, mv)
        &&& walk_ok(cm, q, t, path.drop_first(), step_from(mv, i, j).0, step_from(mv, i, j).1)
    }
}

/// The largest cost a hit of any search can have.
pub open spec fn max_hit_cost() -> int {
    64
}

/// The number of term symbols the alignment may use: all of them for a
/// whole-term hit; for a prefix hit, as many as `expected` allows beyond
/// the query.
pub open spec fn row_limit(m: int, n: int, expected: int, mode: HighlightMode) -> int {
    match mode {
        HighlightMode::Prefix => if n < m + expected / 8 { n } else { m + expected / 8 },
        HighlightMode::Whole => n,
    }
}

/// The aligned prefix length: the whole term, or the shortest prefix of
/// minimal cost among the first `jmax` symbols.
pub open spec fn best_end(cm: CostModel, q: Seq<u32>, t: Seq<u32>, jmax: int, mode: HighlightMode, e: int) -> bool {
    match mode {
        HighlightMode::Whole => e == t.len(),
        HighlightMode::Prefix => {
            &&& 0 <= e <= jmax
            &&& forall|j: int| 0 <= j <= jmax ==> osa(cm, q, t, q.len() as int, e) <= #[trigger] osa(cm, q, t, q.len() as int, j)
            &&& forall|j: int| 0 <= j < e ==> osa(cm, q, t, q.len() as int, e) < #[trigger] osa(cm, q, t, q.len() as int, j)
        },
    }
}

/// The statuses after one step `(mv, i, j)` of a walk: a substitution marks
/// term symbol `j` Matched when it equals query symbol `i` and Substituted
/// otherwise, a transposition marks symbols `j - 1` and `j` Transposed, an
/// insertion marks symbol `j` Skipped, a deletion marks nothing.
pub open spec fn mark_step(st: Seq<Status>, q: Seq<u32>, t: Seq<u32>, step: (usize, usize, usize)) -> Seq<Status> {
    let (mv, i, j) = step;
    if mv == SUB {
        st.update(j - 1, if q[i - 1] == t[j - 1] { Status::Matched } else { Status::Substituted })
    } else if mv == TRANSPOSE {
        st.update(j - 1, Status::Transposed).update(j - 2, Status::Transposed)
    } else if mv == INSERT {
        st.update(j - 1, Status::Skipped)
    } else {
        st
    }
}

/// The statuses a walk leaves on `n` term symbols that start Unaligned.
pub open spec fn marked(n: int, q: Seq<u32>, t: Seq<u32>, path: Seq<(usize, usize, usize)>) -> Seq<Status>
    decreases path.len(),
{
    if path.len() == 0 {
        Seq::new(n as nat, |k: int| Status::Unaligned)
    } else {
        mark_step(marked(n, q, t, path.drop_last()), q, t, path.last())
    }
}

/// Computes the matrix of the query `q` and the term `s.t`, checks that the
/// alignment costs `expected` and walks the path back; fills `s.status`
/// and `s.path`. Returns the aligned prefix length and the cells computed.
pub fn align(s: &mut Scratch, cm: &CostModel, q: &[u32], mode: HighlightMode, expected: u16)
    -> (r: Result<(usize, usize), HighlightError>)
    requires
        q.len() <= 128,
    ensures
        final(s).t@ == old(s).t@,
        final(s).map == old(s).map,
        ({
            let t = old(s).t@;
            let (m, n) = (q.len() as int, t.len() as int);
            let reach = expected / 8;
            let too_far = expected > max_hit_cost() || (mode == HighlightMode::Whole && (n > m + reach || m > n + reach));
            match r {
                Ok((end, cells)) => {
                    &&& !too_far
                    &&& best_end(*cm, q@, t, row_limit(m, n, expected as int, mode), mode, end as int)
                    &&& osa(*cm, q@, t, m, end as int) == expected
                    &&& cells == (row_limit(m, n, expected as int, mode) + 1) * (m + 1)
                    &&& final(s).status@.len() == n
                    &&& walk_ok(*cm, q@, t, final(s).path@, m, end as int)
                    &&& final(s).status@ == marked(n, q@, t, final(s).path@)
                    &&& forall|k: int| end <= k < n ==> #[trigger] final(s).status@[k] == Status::Unaligned
                },
                Err(e) => {
                    ||| (too_far && e == HighlightError::CostMismatch { expected, found: None })
                    ||| (!too_far && exists|end: int| best_end(*cm, q@, t, row_limit(m, n, expected as int, mode), mode, end)
                            && osa(*cm, q@, t, m, end) != expected
                            && e == HighlightError::CostMismatch { expected, found: Some(osa(*cm, q@, t, m, end) as u16) })
                },
            }
        }),
{
    let ghost t = s.t@;
    let m = q.len();
    let n = s.t.len();
    if expected > 64 {
        return Err(HighlightError::CostMismatch { expected, found: None });
    }
    let reach = (expected / 8) as usize;
    let jmax = match mode {
        HighlightMode::Prefix => if n < m + reach { n } else { m + reach },
        HighlightMode::Whole => {
            if n > m + reach || m > n + reach {
                return Err(HighlightError::CostMismatch { expected, found: None });
            }
            n
        },
    };
    // The matrix, row by row.
    let mut d: Vec<Vec<u16>> = Vec::new();
    let mut j: usize = 0;
    while j <= jmax
        invariant
            t == s.t@,
            m == q.len(),
            m <= 128,
            n == t.len(),
            jmax <= n,
            jmax <= m + 8,
            j <= jmax + 1,
            d.len() == j,
            forall|a: int, b: int| 0 <= a < j && 0 <= b <= m ==> #[trigger] d[a]@[b] == osa(*cm, q@, t, b, a),
            forall|a: int| 0 <= a < j ==> (#[trigger] d[a]).len() == m + 1,
        decreases jmax + 1 - j,
    {
        let mut row: Vec<u16> = Vec::new();
        let mut i: usize = 0;
        while i <= m
            invariant
                t == s.t@,
                m == q.len(),
                m <= 128,
                n == t.len(),
                jmax <= n,
                jmax <= m + 8,
                j <= jmax,
                d.len() == j,
                forall|a: int, b: int| 0 <= a < j && 0 <= b <= m ==> #[trigger] d[a]@[b] == osa(*cm, q@, t, b, a),
                forall|a: int| 0 <= a < j ==> (#[trigger] d[a]).len() == m + 1,
                i <= m + 1,
                row.len() == i,
                forall|b: int| 0 <= b < i ==> #[trigger] row@[b] == osa(*cm, q@, t, b, j as int),
            decreases m + 1 - i,
        {
            if i == 0 && j == 0 {
                row.push(0);
                proof {
                    reveal(osa);
                }
            } else {
                let ch = if j >= 1 { s.t[j - 1] } else { 0 };
                let parent = if j >= 2 { Some(s.t[j - 2]) } else { None };
                proof {
                    if j >= 1 && i >= 1 { lemma_osa_ceiling(*cm, q@, t, i - 1, j - 1); }
                    if j >= 2 && i >= 2 { lemma_osa_ceiling(*cm, q@, t, i - 2, j - 2); }
                    if j >= 1 { lemma_osa_ceiling(*cm, q@, t, i as int, j - 1); }
                    if i >= 1 { lemma_osa_ceiling(*cm, q@, t, i - 1, j as int); }
                }
                let diag = if j >= 1 && i >= 1 { d[j - 1][i - 1] } else { INF };
                let up = if j >= 1 { d[j - 1][i] } else { INF };
                let left = if i >= 1 { row[i - 1] } else { INF };
                let skip2 = if j >= 2 && i >= 2 { d[j - 2][i - 2] } else { INF };
                let c = moves(cm, q, i, ch, parent, diag, up, left, skip2);
                let v = best(c);
                proof {
                    lemma_full_cell(*cm, q@, t, i as int, j as int);
                }
                row.push(v);
            }
            i = i + 1;
        }
        d.push(row);
        j = j + 1;
    }
    // Whole: the full term. Prefix: the shortest prefix of minimal cost.
    let mut end: usize = n;
    let prefix = match mode {
        HighlightMode::Prefix => true,
        HighlightMode::Whole => false,
    };
    if prefix {
        end = 0;
        let mut k: usize = 1;
        while k <= jmax
            invariant
                t == s.t@,
                m == q.len(),
                jmax <= n,
                d.len() == jmax + 1,
                forall|a: int, b: int| 0 <= a <= jmax && 0 <= b <= m ==> #[trigger] d[a]@[b] == osa(*cm, q@, t, b, a),
                forall|a: int| 0 <= a <= jmax ==> (#[trigger] d[a]).len() == m + 1,
                1 <= k <= jmax + 1,
                end < k,
                forall|a: int| 0 <= a < k ==> osa(*cm, q@, t, m as int, end as int) <= #[trigger] osa(*cm, q@, t, m as int, a),
                forall|a: int| 0 <= a < end ==> osa(*cm, q@, t, m as int, end as int) < #[trigger] osa(*cm, q@, t, m as int, a),
            decreases jmax + 1 - k,
        {
            if d[k][m] < d[end][m] {
                end = k;
            }
            k = k + 1;
        }
    }
    let cost = d[end][m];
    proof {
        lemma_osa_ceiling(*cm, q@, t, m as int, end as int);
    }
    if cost != expected {
        return Err(HighlightError::CostMismatch { expected, found: if cost < INF { Some(cost) } else { None } });
    }
    let mut status: Vec<Status> = Vec::new();
    let mut z: usize = 0;
    while z < n
        invariant
            z <= n,
            status.len() == z,
            forall|k: int| 0 <= k < z ==> status@[k] == Status::Unaligned,
        decreases n - z,
    {
        status.push(Status::Unaligned);
        z = z + 1;
    }
    proof {
        assert(status@ =~= marked(n as int, q@, t, Seq::empty()));
    }
    let mut path: Vec<(usize, usize, usize)> = Vec::new();
    let ghost mut rest: Seq<(usize, usize, usize)> = Seq::empty();
    let mut i = m;
    let mut j = end;
    // `path + rest` is a walk from (m, end) once `rest` is a walk from (i, j).
    while i + j > 0
        invariant
            t == s.t@,
            m == q.len(),
            m <= 128,
            n == t.len(),
            jmax <= n,
            jmax <= m + 8,
            end <= jmax,
            i <= m,
            j <= end,
            d.len() == jmax + 1,
            forall|a: int, b: int| 0 <= a <= jmax && 0 <= b <= m ==> #[trigger] d[a]@[b] == osa(*cm, q@, t, b, a),
            forall|a: int| 0 <= a <= jmax ==> (#[trigger] d[a]).len() == m + 1,
            status.len() == n,
            status@ == marked(n as int, q@, t, path@),
            forall|k: int| end <= k < n ==> #[trigger] status@[k] == Status::Unaligned,
            forall|p: Seq<(usize, usize, usize)>| walk_ok(*cm, q@, t, p, i as int, j as int)
                ==> #[trigger] walk_ok(*cm, q@, t, path@ + p, m as int, end as int),
        decreases i + j,
    {
        let ch = if j >= 1 { s.t[j - 1] } else { 0 };
        let parent = if j >= 2 { Some(s.t[j - 2]) } else { None };
        proof {
            if j >= 1 && i >= 1 { lemma_osa_ceiling(*cm, q@, t, i - 1, j - 1); }
            if j >= 2 && i >= 2 { lemma_osa_ceiling(*cm, q@, t, i - 2, j - 2); }
            if j >= 1 { lemma_osa_ceiling(*cm, q@, t, i as int, j - 1); }
            if i >= 1 { lemma_osa_ceiling(*cm, q@, t, i - 1, j as int); }
            lemma_osa_ceiling(*cm, q@, t, i as int, j as int);
            lemma_full_cell(*cm, q@, t, i as int, j as int);
        }
        let v = d[j][i];
        let diag = if j >= 1 && i >= 1 { d[j - 1][i - 1] } else { INF };
        let up = if j >= 1 { d[j - 1][i] } else { INF };
        let left = if i >= 1 { d[j][i - 1] } else { INF };
        let skip2 = if j >= 2 && i >= 2 { d[j - 2][i - 2] } else { INF };
        let c = moves(cm, q, i, ch, parent, diag, up, left, skip2);
        let mv = if c[0] == v {
            SUB
        } else if c[1] == v {
            TRANSPOSE
        } else if c[2] == v {
            INSERT
        } else {
            DELETE
        };
        proof {
            assert(first_move(*cm, q@, t, i as int, j as int, mv));
        }
        let ghost old_path = path@;
        path.push((mv, i, j));
        proof {
            let (ni, nj) = step_from(mv, i as int, j as int);
            assert forall|p: Seq<(usize, usize, usize)>| walk_ok(*cm, q@, t, p, ni, nj)
                implies #[trigger] walk_ok(*cm, q@, t, path@ + p, m as int, end as int) by {
                let p2 = seq![(mv, i, j)] + p;
                assert(p2.drop_first() =~= p);
                assert(walk_ok(*cm, q@, t, p2, i as int, j as int));
                assert(old_path + p2 =~= path@ + p);
            }
        }
        if mv == SUB {
            status.set(j - 1, if q[i - 1] == s.t[j - 1] { Status::Matched } else { Status::Substituted });
            i = i - 1;
            j = j - 1;
        } else if mv == TRANSPOSE {
            status.set(j - 1, Status::Transposed);
            status.set(j - 2, Status::Transposed);
            i = i - 2;
            j = j - 2;
        } else if mv == INSERT {
            status.set(j - 1, Status::Skipped);
            j = j - 1;
        } else {
            i = i - 1;
        }
        proof {
            assert(path@.drop_last() =~= old_path);
        }
    }
    proof {
        assert(walk_ok(*cm, q@, t, Seq::empty(), 0, 0));
        assert(path@ + Seq::<(usize, usize, usize)>::empty() =~= path@);
    }
    s.d = d;
    s.status = status;
    s.path = path;
    assert((jmax + 1) * (m + 1) <= 137 * 129) by (nonlinear_arith)
        requires jmax <= m + 8, m <= 128;
    Ok((end, (jmax + 1) * (m + 1)))
}


/// A position in a string in the three units: characters, UTF-8 bytes and
/// UTF-16 units, for a prefix of `src`.
pub open spec fn pos_ok(src: Seq<char>, p: (usize, usize, usize)) -> bool {
    &&& p.0 <= src.len()
    &&& p.1 == utf8_len(src.take(p.0 as int))
    &&& p.2 == utf16_len(src.take(p.0 as int))
}

/// A span whose three ranges describe the same characters of `src`.
pub open spec fn span_ok(src: Seq<char>, r: MatchRange) -> bool {
    &&& r.chars.start <= r.chars.end <= src.len()
    &&& pos_ok(src, (r.chars.start, r.utf8.start, r.utf16.start))
    &&& pos_ok(src, (r.chars.end, r.utf8.end, r.utf16.end))
}

/// The spans are well formed, non-empty, sorted and never touching.
pub open spec fn ranges_ok(src: Seq<char>, rs: Seq<MatchRange>) -> bool {
    &&& forall|k: int| 0 <= k < rs.len() ==> span_ok(src, #[trigger] rs[k]) && rs[k].chars.start < rs[k].chars.end
    &&& forall|k: int| 0 <= k < rs.len() - 1 ==> #[trigger] rs[k].chars.end < rs[k + 1].chars.start
}

fn span(a: (usize, usize, usize), b: (usize, usize, usize)) -> (r: MatchRange)
    ensures
        r.chars.start == a.0 && r.chars.end == b.0,
        r.utf8.start == a.1 && r.utf8.end == b.1,
        r.utf16.start == a.2 && r.utf16.end == b.2,
{
    MatchRange { chars: a.0..b.0, utf8: a.1..b.1, utf16: a.2..b.2 }
}

proof fn lemma_take_widths(cs: Seq<char>, k: int)
    requires
        0 <= k < cs.len(),
    ensures
        utf8_len(cs.take(k + 1)) == utf8_len(cs.take(k)) + crate::text::utf8_width(cs[k]),
        utf16_len(cs.take(k + 1)) == utf16_len(cs.take(k)) + crate::text::utf16_width(cs[k]),
{
    assert(cs.take(k + 1).drop_last() =~= cs.take(k));
}

proof fn lemma_widths_bounded(cs: Seq<char>, k: int)
    requires
        0 <= k <= cs.len(),
    ensures
        utf16_len(cs.take(k)) <= utf8_len(cs.take(k)) <= utf8_len(cs),
    decreases cs.len(),
{
    if k < cs.len() {
        assert(cs.drop_last().take(k) =~= cs.take(k));
        lemma_widths_bounded(cs.drop_last(), k);
    } else {
        assert(cs.take(k) =~= cs);
        lemma_u16_le_u8(cs);
    }
}

proof fn lemma_u16_le_u8(cs: Seq<char>)
    ensures
        utf16_len(cs) <= utf8_len(cs),
    decreases cs.len(),
{
    if cs.len() > 0 {
        lemma_u16_le_u8(cs.drop_last());
    }
}

/// The end of the run of normalised symbols from `p` on that came from
/// source character `k`.
pub open spec fn run_end(srcs: Seq<usize>, p: int, k: int) -> int
    decreases srcs.len() - p,
{
    if 0 <= p < srcs.len() && srcs[p] == k {
        run_end(srcs, p + 1, k)
    } else {
        p
    }
}

/// Where the symbols of source character `k` start, each character taking
/// the run of symbols that came from it.
pub open spec fn cursor(srcs: Seq<usize>, k: int) -> int
    decreases k,
{
    if k <= 0 {
        0
    } else {
        run_end(srcs, cursor(srcs, k - 1), k - 1)
    }
}

/// Whether source character `k` produced normalised symbols.
pub open spec fn has_symbols(srcs: Seq<usize>, k: int) -> bool {
    cursor(srcs, k + 1) > cursor(srcs, k)
}

/// Whether one of the symbols `a..b` is highlighted.
pub open spec fn some_lit(status: Seq<Status>, a: int, b: int) -> bool {
    exists|p: int| a <= p < b && p < status.len() && #[trigger] lit_status(status[p])
}

/// Whether source character `k` is highlighted: one of its symbols is; a
/// character without symbols follows the one before it.
pub open spec fn char_lit(srcs: Seq<usize>, status: Seq<Status>, k: int) -> bool
    decreases k,
{
    if has_symbols(srcs, k) {
        some_lit(status, cursor(srcs, k), cursor(srcs, k + 1))
    } else if k <= 0 {
        false
    } else {
        char_lit(srcs, status, k - 1)
    }
}

/// Whether source character `k` is aligned: its first symbol is among the
/// first `end`; a character without symbols follows the one before it.
pub open spec fn char_aligned(srcs: Seq<usize>, end: int, k: int) -> bool
    decreases k,
{
    if has_symbols(srcs, k) {
        cursor(srcs, k) < end
    } else if k <= 0 {
        false
    } else {
        char_aligned(srcs, end, k - 1)
    }
}

/// Whether a span is open and started at or before character `c`.
pub open spec fn open_at_or_before(open: Option<(usize, usize, usize)>, c: int) -> bool {
    match open {
        Some(o) => o.0 <= c,
        None => false,
    }
}

/// Whether one of the spans holds character `c`.
pub open spec fn covered(rs: Seq<MatchRange>, c: int) -> bool {
    exists|x: int| 0 <= x < rs.len() && (#[trigger] rs[x]).chars.start <= c < rs[x].chars.end
}

proof fn lemma_covered_push(rs: Seq<MatchRange>, r: MatchRange, c: int)
    ensures
        covered(rs.push(r), c) <==> covered(rs, c) || (r.chars.start <= c < r.chars.end),
{
    let rs2 = rs.push(r);
    if covered(rs2, c) {
        let x = choose|x: int| 0 <= x < rs2.len() && (#[trigger] rs2[x]).chars.start <= c < rs2[x].chars.end;
        if x < rs.len() {
            assert(rs2[x] == rs[x]);
        }
    }
    if covered(rs, c) {
        let x = choose|x: int| 0 <= x < rs.len() && (#[trigger] rs[x]).chars.start <= c < rs[x].chars.end;
        assert(rs2[x] == rs[x]);
    }
    if r.chars.start <= c < r.chars.end {
        assert(rs2[rs.len() as int] == r);
    }
}

proof fn lemma_run_end(srcs: Seq<usize>, p: int, k: int)
    requires
        0 <= p <= srcs.len(),
    ensures
        p <= run_end(srcs, p, k) <= srcs.len(),
    decreases srcs.len() - p,
{
    if 0 <= p < srcs.len() && srcs[p] == k {
        lemma_run_end(srcs, p + 1, k);
    }
}

proof fn lemma_lit_step(srcs: Seq<usize>, st: Seq<Status>, k: int, r0: Seq<MatchRange>, rs: Seq<MatchRange>,
    o0: Option<(usize, usize, usize)>, o1: Option<(usize, usize, usize)>, lit: bool, added: MatchRange, c: int)
    requires
        0 <= c <= k,
        c < k ==> (char_lit(srcs, st, c as int) <==> (covered(r0, c) || open_at_or_before(o0, c))),
        forall|x: int| 0 <= x < r0.len() ==> #[trigger] r0[x].chars.end <= k,
        lit == char_lit(srcs, st, k as int),
        o0 is Some ==> o0.unwrap().0 < k,
        lit ==> rs == r0,
        lit && o0 is Some ==> o1 == o0,
        lit && o0 is None ==> o1 is Some && o1.unwrap().0 == k,
        !lit ==> o1 is None,
        !lit && o0 is None ==> rs == r0,
        !lit && o0 is Some ==> rs == r0.push(added) && added.chars.start == o0.unwrap().0
            && added.chars.end == k,
    ensures
        char_lit(srcs, st, c as int) <==> (covered(rs, c) || open_at_or_before(o1, c)),
{
    if !lit && o0 is Some {
        lemma_covered_push(r0, added, c);
    }
    if c == k && covered(r0, c) {
        let x = choose|x: int| 0 <= x < r0.len() && (#[trigger] r0[x]).chars.start <= c < r0[x].chars.end;
        assert(r0[x].chars.end <= k);
    }
}

/// A highlighted character is aligned when no symbol from `e` on is
/// highlighted.
proof fn lemma_lit_aligned(srcs: Seq<usize>, st: Seq<Status>, e: int, c: int)
    requires
        forall|p: int| e <= p < st.len() ==> !#[trigger] lit_status(st[p]),
    ensures
        char_lit(srcs, st, c) ==> char_aligned(srcs, e, c),
    decreases c,
{
    if has_symbols(srcs, c) {
        if char_lit(srcs, st, c) {
            let p = choose|p: int| cursor(srcs, c) <= p < cursor(srcs, c + 1) && p < st.len()
                && #[trigger] lit_status(st[p]);
            assert(p < e);
        }
    } else if c > 0 {
        lemma_lit_aligned(srcs, st, e, c - 1);
    }
}

/// The highlighted spans of `source`, and the span of its first `end`
/// normalised symbols, from the status of each normalised symbol. A source
/// character that produced symbols is highlighted when at least one of them
/// is, and is aligned when at least one of them is among the first `end`;
/// one that produced none (a dropped combining mark) takes both states from
/// the character before it (none at the start of the string).
#[verifier::rlimit(60)]
pub fn source_ranges(source: &str, map: &SourceMap, status: &Vec<Status>, end: usize)
    -> (r: (Vec<MatchRange>, MatchRange))
    ensures
        ranges_ok(source@, r.0@),
        span_ok(source@, r.1),
        forall|c: int| 0 <= c < source@.len() ==>
            (char_lit(map.sources(), status@, c as int) <==> #[trigger] covered(r.0@, c)),
        forall|c: int| 0 <= c < source@.len() ==>
            (#[trigger] char_aligned(map.sources(), end as int, c as int)
                <==> r.1.chars.start <= c < r.1.chars.end),
        (forall|c: int| 0 <= c < source@.len() ==> !#[trigger] char_aligned(map.sources(), end as int, c as int))
            ==> (r.1.chars.start == r.1.chars.end
                && (r.1.chars.start < source@.len() ==> has_symbols(map.sources(), r.1.chars.start as int))
                && forall|c: int| 0 <= c < r.1.chars.start ==> !#[trigger] has_symbols(map.sources(), c as int)),
        (forall|p: int| end <= p < status@.len() ==> !#[trigger] lit_status(status@[p]))
            ==> forall|x: int| 0 <= x < r.0@.len() ==> r.1.chars.start <= (#[trigger] r.0@[x]).chars.start
                && r.0@[x].chars.end <= r.1.chars.end,
{
    let cs = chars_of(source);
    let bytes = source.as_bytes();
    let _nb = bytes.len();
    proof {
        lemma_utf8_len(source@);
    }
    let ghost src = source@;
    let ghost srcs = map.sources();
    let ghost st = status@;
    let ghost e = end as int;
    let mut at: (usize, usize, usize) = (0, 0, 0);
    let mut ranges: Vec<MatchRange> = Vec::new();
    let mut open: Option<(usize, usize, usize)> = None;
    let mut aligned: Option<((usize, usize, usize), (usize, usize, usize))> = None;
    let mut first: Option<(usize, usize, usize)> = None;
    let mut p: usize = 0;
    let mut lit = false;
    let mut inside = false;
    let mut k: usize = 0;
    proof {
        assert(src.take(0) =~= Seq::<char>::empty());
    }
    while k < cs.len()
        invariant
            cs@ == src,
            src == source@,
            srcs == map.sources(),
            st == status@,
            e == end,
            utf8_len(src) <= usize::MAX,
            k <= cs.len(),
            at.0 == k,
            pos_ok(src, at),
            ranges_ok(src, ranges@),
            forall|x: int| 0 <= x < ranges.len() ==> #[trigger] ranges[x].chars.end <= k,
            open matches Some(o) ==> pos_ok(src, o) && o.0 < k && lit
                && (ranges.len() > 0 ==> ranges[ranges.len() - 1].chars.end < o.0),
            open is None ==> (ranges.len() > 0 ==> ranges[ranges.len() - 1].chars.end < k),
            p <= map.sources().len(),
            p == cursor(srcs, k as int),
            lit == (k > 0 && char_lit(srcs, st, k - 1)),
            inside == (k > 0 && char_aligned(srcs, e, k - 1)),
            forall|c: int| 0 <= c < k ==> (#[trigger] char_lit(srcs, st, c as int)
                <==> (covered(ranges@, c) || open_at_or_before(open, c))),
            aligned matches Some(a) ==> pos_ok(src, a.0) && pos_ok(src, a.1) && a.0.0 < a.1.0 <= k
                && (forall|c: int| 0 <= c < k ==> (#[trigger] char_aligned(srcs, e, c as int)
                    <==> a.0.0 <= c < a.1.0)),
            aligned is None ==> forall|c: int| 0 <= c < k ==> !#[trigger] char_aligned(srcs, e, c as int),
            inside ==> (aligned matches Some(a) && a.1.0 == k),
            (aligned is Some && !inside) ==> p >= e,
            first matches Some(f) ==> pos_ok(src, f) && f.0 < k && has_symbols(srcs, f.0 as int)
                && forall|c: int| 0 <= c < f.0 ==> !#[trigger] has_symbols(srcs, c as int),
            first is None ==> forall|c: int| 0 <= c < k ==> !#[trigger] has_symbols(srcs, c as int),
        decreases cs.len() - k,
    {
        let ch = cs[k];
        let p0 = p;
        let mut any = false;
        proof {
            lemma_run_end(srcs, p as int, k as int);
        }
        while p < map.len() && map.source_of(p) == Some(k)
            invariant
                srcs == map.sources(),
                st == status@,
                p0 <= p <= map.sources().len(),
                run_end(srcs, p as int, k as int) == run_end(srcs, p0 as int, k as int),
                any == some_lit(st, p0 as int, p as int),
            decreases map.sources().len() - p,
        {
            if p < status.len() && highlighted(status[p]) {
                any = true;
            }
            proof {
                if some_lit(st, p0 as int, p + 1) && !some_lit(st, p0 as int, p as int) {
                    let w = choose|w: int| p0 <= w < p + 1 && w < st.len() && #[trigger] lit_status(st[w]);
                    assert(w == p);
                }
                if p < st.len() && lit_status(st[p as int]) {
                    assert(lit_status(st[p as int]));
                }
            }
            p = p + 1;
        }
        proof {
            assert(p == run_end(srcs, p as int, k as int));
            assert(p as int == cursor(srcs, k + 1));
        }
        let ghost old_aligned = aligned;
        let ghost old_inside = inside;
        if p > p0 {
            lit = any;
            inside = p0 < end;
            if first.is_none() {
                first = Some(at);
            }
        }
        proof {
            lemma_take_widths(src, k as int);
            lemma_widths_bounded(src, k + 1);
            assert(lit == char_lit(srcs, st, k as int));
            assert(inside == char_aligned(srcs, e, k as int));
        }
        let w8: usize = if (ch as u32) < 0x80 {
            1
        } else if (ch as u32) < 0x800 {
            2
        } else if (ch as u32) < 0x10000 {
            3
        } else {
            4
        };
        let w16: usize = if (ch as u32) < 0x10000 { 1 } else { 2 };
        let next = (at.0 + 1, at.1 + w8, at.2 + w16);
        if inside {
            let start = match aligned {
                Some(a) => a.0,
                None => at,
            };
            aligned = Some((start, next));
        }
        let ghost mid_open = open;
        let ghost r0 = ranges@;
        if lit {
            if open.is_none() {
                open = Some(at);
            }
        } else {
            match open {
                Some(o) => {
                    let ghost old_ranges = ranges@;
                    {
                        ranges.push(span(o, at));
                        proof {
                            assert forall|x: int| 0 <= x < ranges.len() implies span_ok(src, #[trigger] ranges@[x])
                                && ranges@[x].chars.start < ranges@[x].chars.end by {
                                if x < old_ranges.len() {
                                    assert(ranges@[x] == old_ranges[x]);
                                }
                            }
                            assert forall|x: int| 0 <= x < ranges.len() - 1 implies #[trigger] ranges@[x].chars.end
                                < ranges@[x + 1].chars.start by {
                                assert(ranges@[x] == old_ranges[x]);
                                if x + 1 < old_ranges.len() {
                                    assert(ranges@[x + 1] == old_ranges[x + 1]);
                                }
                            }
                            assert forall|c: int| #![trigger covered(ranges@, c)]
                                covered(ranges@, c) <==> covered(old_ranges, c) || (o.0 <= c < k) by {
                                lemma_covered_push(old_ranges, ranges@.last(), c);
                                assert(old_ranges.push(ranges@.last()) =~= ranges@);
                            }
                        }
                    }
                    open = None;
                },
                None => {},
            }
        }
        proof {
            if !lit && mid_open is Some {
                assert(r0.push(ranges@.last()) =~= ranges@);
            }
            assert forall|x: int| 0 <= x < ranges.len() implies #[trigger] ranges[x].chars.end <= k + 1 by {}
            if inside {
                assert forall|c: int| 0 <= c < k + 1 implies (#[trigger] char_aligned(srcs, e, c as int)
                    <==> aligned.unwrap().0.0 <= c < aligned.unwrap().1.0) by {
                    if old_aligned is Some && !old_inside {
                        assert(p0 >= e);
                    }
                }
            }
        }
        let ghost k0 = k as int;
        at = next;
        k = k + 1;
        proof {
            assert(k == k0 + 1);
            assert forall|c: int| 0 <= c < k implies (#[trigger] char_lit(srcs, st, c as int)
                <==> (covered(ranges@, c) || open_at_or_before(open, c))) by {
                lemma_lit_step(srcs, st, k0, r0, ranges@, mid_open, open, lit, ranges@.last(), c);
            }
        }
    }
    match open {
        Some(o) => {
            {
                let ghost old_ranges = ranges@;
                ranges.push(span(o, at));
                proof {
                    assert forall|x: int| 0 <= x < ranges.len() implies span_ok(src, #[trigger] ranges@[x])
                        && ranges@[x].chars.start < ranges@[x].chars.end by {
                        if x < old_ranges.len() {
                            assert(ranges@[x] == old_ranges[x]);
                        }
                    }
                    assert forall|x: int| 0 <= x < ranges.len() - 1 implies #[trigger] ranges@[x].chars.end
                        < ranges@[x + 1].chars.start by {
                        assert(ranges@[x] == old_ranges[x]);
                        if x + 1 < old_ranges.len() {
                            assert(ranges@[x + 1] == old_ranges[x + 1]);
                        }
                    }
                    assert forall|c: int| #![trigger covered(ranges@, c)]
                        covered(ranges@, c) <==> covered(old_ranges, c) || (o.0 <= c < k) by {
                        lemma_covered_push(old_ranges, ranges@.last(), c);
                                assert(old_ranges.push(ranges@.last()) =~= ranges@);
                    }
                }
            }
        },
        None => {},
    }
    proof {
        if aligned is Some {
            assert(char_aligned(srcs, e, aligned.unwrap().0.0 as int));
        }
    }
    let al = match aligned {
        Some((a, b)) => span(a, b),
        None => {
            let e = match first {
                Some(f) => f,
                None => at,
            };
            span(e, e)
        },
    };
    proof {
        if forall|p: int| end <= p < st.len() ==> !#[trigger] lit_status(st[p]) {
            assert forall|x: int| 0 <= x < ranges@.len() implies al.chars.start <= (#[trigger] ranges@[x]).chars.start
                && ranges@[x].chars.end <= al.chars.end by {
                let c1 = ranges@[x].chars.start as int;
                let c2 = ranges@[x].chars.end - 1;
                assert(span_ok(src, ranges@[x]) && ranges@[x].chars.start < ranges@[x].chars.end);
                assert(covered(ranges@, c1));
                assert(covered(ranges@, c2));
                assert(char_lit(srcs, st, c1));
                assert(char_lit(srcs, st, c2));
                lemma_lit_aligned(srcs, st, e, c1);
                lemma_lit_aligned(srcs, st, e, c2);
                assert(char_aligned(srcs, e, c1));
                assert(char_aligned(srcs, e, c2));
            }
        }
    }
    (ranges, al)
}


/// The normaliser a hit's source string is checked with: the trie's, or
/// the one that changes nothing.
pub open spec fn hl_normalizer(trie: &Trie) -> Normalizer {
    match trie.normalizer_spec() {
        Some(n) => n,
        None => Normalizer::plain_spec(),
    }
}

fn same_symbols(a: &Vec<u32>, b: &Vec<u32>) -> (r: bool)
    ensures
        r == (a@ == b@),
{
    if a.len() != b.len() {
        return false;
    }
    let mut i: usize = 0;
    while i < a.len()
        invariant
            a.len() == b.len(),
            i <= a.len(),
            a@.take(i as int) == b@.take(i as int),
        decreases a.len() - i,
    {
        if a[i] != b[i] {
            assert(a@[i as int] != b@[i as int]);
            return false;
        }
        assert(a@.take(i + 1) =~= a@.take(i as int).push(a@[i as int]));
        assert(b@.take(i + 1) =~= b@.take(i as int).push(b@[i as int]));
        i = i + 1;
    }
    assert(a@ =~= a@.take(i as int));
    assert(b@ =~= b@.take(i as int));
    true
}

/// What [`run`] returns for a hit whose term and source agree: the
/// alignment's cost is the hit's, or the cost mismatch.
pub open spec fn aligned_outcome(cm: CostModel, q: Seq<u32>, t: Seq<u32>, hit: Hit, mode: HighlightMode,
    source: Seq<char>, r: Result<Highlight, HighlightError>) -> bool {
    let (m, n) = (q.len() as int, t.len() as int);
    let expected = hit.cost;
    let reach = expected / 8;
    let too_far = expected > max_hit_cost() || (mode == HighlightMode::Whole && (n > m + reach || m > n + reach));
    match r {
        Ok(h) => {
            &&& !too_far
            &&& h.cost == hit.cost
            &&& exists|end: int| best_end(cm, q, t, row_limit(m, n, expected as int, mode), mode, end)
                    && osa(cm, q, t, m, end) == expected
            &&& ranges_ok(source, h.ranges@)
            &&& span_ok(source, h.aligned)
            &&& forall|x: int| 0 <= x < h.ranges@.len() ==> h.aligned.chars.start <= (#[trigger] h.ranges@[x]).chars.start
                && h.ranges@[x].chars.end <= h.aligned.chars.end
            &&& h.cells == (row_limit(m, n, expected as int, mode) + 1) * (m + 1)
        },
        Err(e) => {
            ||| (too_far && e == HighlightError::CostMismatch { expected, found: None })
            ||| (!too_far && exists|end: int| best_end(cm, q, t, row_limit(m, n, expected as int, mode), mode, end)
                    && osa(cm, q, t, m, end) != expected
                    && e == HighlightError::CostMismatch { expected, found: Some(osa(cm, q, t, m, end) as u16) })
        },
    }
}

/// Highlights `hit` for the query symbols `q`: checks the id and that
/// `source` normalises to the hit's term, aligns, and maps the statuses of
/// the term symbols back to spans of `source`.
pub fn run(s: &mut Scratch, trie: &Trie, cm: &CostModel, q: &[u32], hit: &Hit, source: &str, mode: HighlightMode)
    -> (r: Result<Highlight, HighlightError>)
    requires
        trie.wf(),
        q.len() <= 128,
    ensures
        (hit.id as int) >= trie.term_syms().len() ==> r == Err::<Highlight, HighlightError>(HighlightError::UnknownTerm { id: hit.id }),
        (hit.id as int) < trie.term_syms().len() ==> {
            let t = trie.term_syms()[hit.id as int];
            if str_syms(crate::text::norm_str(hl_normalizer(trie), source@)) != t {
                r == Err::<Highlight, HighlightError>(HighlightError::SourceMismatch)
            } else {
                aligned_outcome(*cm, q@, t, *hit, mode, source@, r)
            }
        },
{
    if (hit.id as usize) >= trie.len() {
        return Err(HighlightError::UnknownTerm { id: hit.id });
    }
    let n = match trie.normalizer() {
        Some(n) => n,
        None => Normalizer::plain(),
    };
    let term = n.normalize_mapped(source, &mut s.map);
    let a = symbols_of(term.as_str());
    let b = symbols_of(trie.term(hit.id));
    if !same_symbols(&a, &b) {
        return Err(HighlightError::SourceMismatch);
    }
    s.t = a;
    let (end, cells) = match align(s, cm, q, mode, hit.cost) {
        Ok(x) => x,
        Err(e) => return Err(e),
    };
    proof {
        assert forall|p: int| end <= p < s.status@.len() implies !#[trigger] lit_status(s.status@[p]) by {
            assert(s.status@[p] == Status::Unaligned);
        }
    }
    let (ranges, aligned) = source_ranges(source, &s.map, &s.status, end);
    Ok(Highlight { ranges, aligned, cost: hit.cost, cells })
}

} // verus!
