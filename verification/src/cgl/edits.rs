//! Exact checks of single edits and bounded edit distances between a query
//! and a term, used to confirm the candidates that the fingerprints let through.
use vstd::prelude::*;
use crate::legacy::columnar::{lemma_mismatches_bound, lemma_mismatches_mono, mismatches, scan_distance};

verus! {

/// `q` is `t` with exactly one byte removed.
pub open spec fn one_deletion(q: Seq<u8>, t: Seq<u8>) -> bool {
    t.len() == q.len() + 1 && exists|p: int| 0 <= p < t.len() && q == #[trigger] t.remove(p)
}

/// Whether `query` is `term` with one byte left out, checked by walking both
/// and skipping at most one byte of the term.
pub fn verify_deletion(query: &[u8], term: &[u8]) -> (r: bool)
    ensures
        r == one_deletion(query@, term@),
{
    if term.len() == 0 || term.len() - 1 != query.len() {
        return false;
    }
    let ghost q = query@;
    let ghost t = term@;
    let mut qi: usize = 0;
    let mut ti: usize = 0;
    let mut diffs: usize = 0;
    let ghost mut s: int = 0;
    proof {
        if one_deletion(q, t) {
            let p = choose|p: int| 0 <= p < t.len() && q == #[trigger] t.remove(p);
            assert(0 <= p < t.len() && q == t.remove(p));
        }
    }
    while qi < query.len() && ti < term.len()
        invariant
            q == query@,
            t == term@,
            t.len() == q.len() + 1,
            qi <= q.len(),
            ti <= t.len(),
            diffs <= 1,
            ti == qi + diffs,
            diffs == 0 ==> q.take(qi as int) == t.take(ti as int),
            diffs == 1 ==> 0 <= s < ti && q.take(qi as int) == t.take(ti as int).remove(s),
            one_deletion(q, t) && diffs == 0 ==> exists|p: int| ti <= p < t.len() && q == #[trigger] t.remove(p),
            one_deletion(q, t) && diffs == 1 ==> q.skip(qi as int) == t.skip(ti as int),
        decreases t.len() - ti,
    {
        if query[qi] == term[ti] {
            proof {
                assert(q.take(qi + 1) =~= q.take(qi as int).push(q[qi as int]));
                assert(t.take(ti + 1) =~= t.take(ti as int).push(t[ti as int]));
                if diffs == 1 {
                    assert(t.take(ti + 1).remove(s) =~= t.take(ti as int).remove(s).push(t[ti as int]));
                    if one_deletion(q, t) {
                        assert(q.skip(qi + 1) =~= q.skip(qi as int).skip(1));
                        assert(t.skip(ti + 1) =~= t.skip(ti as int).skip(1));
                    }
                }
                if one_deletion(q, t) && diffs == 0 {
                    let p = choose|p: int| ti <= p < t.len() && q == #[trigger] t.remove(p);
                    if p == ti {
                        assert(q[ti as int] == t[ti + 1]);
                        assert(t.remove(ti as int) =~= t.remove(ti + 1));
                        assert(ti + 1 <= ti + 1 < t.len() && q == t.remove(ti + 1));
                    } else {
                        assert(ti + 1 <= p < t.len() && q == t.remove(p));
                    }
                }
            }
            qi = qi + 1;
            ti = ti + 1;
        } else {
            if diffs >= 1 {
                proof {
                    if one_deletion(q, t) {
                        assert(q.skip(qi as int)[0] == t.skip(ti as int)[0]);
                    }
                }
                return false;
            }
            proof {
                s = ti as int;
                assert(t.take(ti + 1).remove(s) =~= t.take(ti as int));
                if one_deletion(q, t) {
                    let p = choose|p: int| ti <= p < t.len() && q == #[trigger] t.remove(p);
                    if p > ti {
                        assert(q[ti as int] == t.remove(p)[ti as int]);
                    }
                    assert(p == ti);
                    assert(q.skip(qi as int) =~= t.skip(ti + 1));
                }
            }
            diffs = diffs + 1;
            ti = ti + 1;
        }
    }
    proof {
        if diffs == 0 {
            assert(qi == q.len());
            assert(q =~= q.take(qi as int));
            assert(t.take(ti as int) =~= t.remove(t.len() - 1));
            assert(q == t.remove(t.len() - 1));
        } else {
            assert(qi == q.len());
            assert(q =~= q.take(qi as int));
            assert(t.take(ti as int) =~= t);
            assert(q == t.remove(s));
        }
    }
    true
}

/// Whether `query` is `term` with one byte added: the same walk as
/// [`verify_deletion`] with the roles exchanged.
pub fn verify_insertion(query: &[u8], term: &[u8]) -> (r: bool)
    ensures
        r == one_deletion(term@, query@),
{
    verify_deletion(term, query)
}

/// The Levenshtein distance of `a[..i]` and `b[..j]`: insertions, deletions
/// and substitutions, each costing 1.
pub open spec fn lev(a: Seq<u8>, b: Seq<u8>, i: int, j: int) -> int
    decreases (if i > 0 { i } else { 0 }) + (if j > 0 { j } else { 0 }),
{
    if i <= 0 {
        if j > 0 { j } else { 0 }
    } else if j <= 0 {
        i
    } else {
        let del = lev(a, b, i - 1, j) + 1;
        let ins = lev(a, b, i, j - 1) + 1;
        let sub = lev(a, b, i - 1, j - 1) + if a[i - 1] == b[j - 1] { 0int } else { 1int };
        if del <= ins && del <= sub { del } else if ins <= sub { ins } else { sub }
    }
}

/// The Levenshtein distance of `a` and `b`.
pub open spec fn levenshtein(a: Seq<u8>, b: Seq<u8>) -> int {
    lev(a, b, a.len() as int, b.len() as int)
}

/// The distance lies between the length difference and the longer length.
proof fn lemma_lev_bounds(a: Seq<u8>, b: Seq<u8>, i: int, j: int)
    requires
        0 <= i,
        0 <= j,
    ensures
        lev(a, b, i, j) >= (if i >= j { i - j } else { j - i }),
        lev(a, b, i, j) <= (if i >= j { i } else { j }),
    decreases i + j,
{
    if i > 0 && j > 0 {
        lemma_lev_bounds(a, b, i - 1, j);
        lemma_lev_bounds(a, b, i, j - 1);
        lemma_lev_bounds(a, b, i - 1, j - 1);
    }
}

/// The Levenshtein distance is at least the length difference.
pub proof fn lemma_levenshtein_len_gap(a: Seq<u8>, b: Seq<u8>)
    ensures
        levenshtein(a, b) >= (if a.len() >= b.len() { a.len() - b.len() } else { b.len() - a.len() }),
{
    lemma_lev_bounds(a, b, a.len() as int, b.len() as int);
}

/// When every cell of row `i` exceeds `k`, so does every cell of row `i + 1`.
proof fn lemma_lev_row_above(a: Seq<u8>, b: Seq<u8>, i: int, n: int, k: int)
    requires
        0 <= i,
        0 <= n,
        forall|j: int| 0 <= j <= n ==> #[trigger] lev(a, b, i, j) > k,
    ensures
        forall|j: int| 0 <= j <= n ==> #[trigger] lev(a, b, i + 1, j) > k,
    decreases n,
{
    if n > 0 {
        lemma_lev_row_above(a, b, i, n - 1, k);
        assert(lev(a, b, i, n) > k);
        assert(lev(a, b, i, n - 1) > k);
        assert(lev(a, b, i + 1, n - 1) > k);
    } else {
        assert(lev(a, b, i, 0) > k);
        assert(lev(a, b, i + 1, 0) == i + 1);
    }
}

/// When every cell of row `i` exceeds `k`, so does every cell of every later row.
proof fn lemma_lev_rows_above(a: Seq<u8>, b: Seq<u8>, i: int, m: int, n: int, k: int)
    requires
        0 <= i <= m,
        0 <= n,
        forall|j: int| 0 <= j <= n ==> #[trigger] lev(a, b, i, j) > k,
    ensures
        lev(a, b, m, n) > k,
    decreases m - i,
{
    if i < m {
        lemma_lev_row_above(a, b, i, n, k);
        lemma_lev_rows_above(a, b, i + 1, m, n, k);
    }
}

/// The Levenshtein distance of `a` and `b` when it is at most `max_k`;
/// otherwise some value above `max_k` (`max_k + 1` when the length
/// difference or a whole row of the matrix already exceeds it).
pub fn levenshtein_within(a: &[u8], b: &[u8], max_k: usize) -> (r: usize)
    requires
        a.len() < usize::MAX,
        b.len() < usize::MAX,
    ensures
        (r <= max_k) == (levenshtein(a@, b@) <= max_k),
        r <= max_k ==> r == levenshtein(a@, b@),
        r > max_k ==> r == max_k + 1 || r == levenshtein(a@, b@),
{
    let m = a.len();
    let n = b.len();
    proof {
        lemma_lev_bounds(a@, b@, m as int, n as int);
    }
    let gap = if m >= n { m - n } else { n - m };
    if gap > max_k {
        return max_k + 1;
    }
    let mut prev: Vec<usize> = Vec::new();
    let mut curr: Vec<usize> = Vec::new();
    let mut j: usize = 0;
    while j <= n
        invariant
            n == b.len(),
            n < usize::MAX,
            j <= n + 1,
            prev.len() == j,
            curr.len() == j,
            forall|x: int| 0 <= x < j ==> #[trigger] prev[x] == lev(a@, b@, 0, x),
        decreases n + 1 - j,
    {
        prev.push(j);
        curr.push(0);
        j = j + 1;
    }
    let mut i: usize = 1;
    while i <= m
        invariant
            m == a.len(),
            n == b.len(),
            m < usize::MAX,
            n < usize::MAX,
            1 <= i <= m + 1,
            prev.len() == n + 1,
            curr.len() == n + 1,
            forall|x: int| 0 <= x <= n ==> #[trigger] prev[x] == lev(a@, b@, i - 1, x),
        decreases m + 1 - i,
    {
        curr.set(0, i);
        let mut row_min = i;
        let mut j: usize = 1;
        while j <= n
            invariant
                m == a.len(),
                n == b.len(),
                m < usize::MAX,
                n < usize::MAX,
                1 <= i <= m,
                1 <= j <= n + 1,
                prev.len() == n + 1,
                curr.len() == n + 1,
                forall|x: int| 0 <= x <= n ==> #[trigger] prev[x] == lev(a@, b@, i - 1, x),
                forall|x: int| 0 <= x < j ==> #[trigger] curr[x] == lev(a@, b@, i as int, x),
                forall|x: int| 0 <= x < j ==> row_min <= #[trigger] curr[x],
            decreases n + 1 - j,
        {
            proof {
                lemma_lev_bounds(a@, b@, i - 1, j as int);
                lemma_lev_bounds(a@, b@, i as int, j - 1);
                lemma_lev_bounds(a@, b@, i - 1, j - 1);
            }
            let cost: usize = if a[i - 1] == b[j - 1] { 0 } else { 1 };
            let del = prev[j] + 1;
            let ins = curr[j - 1] + 1;
            let sub = prev[j - 1] + cost;
            let v = if del <= ins && del <= sub { del } else if ins <= sub { ins } else { sub };
            curr.set(j, v);
            if v < row_min {
                row_min = v;
            }
            j = j + 1;
        }
        if row_min > max_k {
            proof {
                assert forall|x: int| 0 <= x <= n implies #[trigger] lev(a@, b@, i as int, x) > max_k by {
                    assert(curr[x] == lev(a@, b@, i as int, x));
                }
                lemma_lev_rows_above(a@, b@, i as int, m as int, n as int, max_k as int);
            }
            return max_k + 1;
        }
        std::mem::swap(&mut prev, &mut curr);
        i = i + 1;
    }
    prev[n]
}

/// The scan distance of `q` and `term` (positions below the shorter length
/// where they differ, plus the length difference) when it is at most `max_k`;
/// otherwise some value above `max_k`. Bytes are compared eight at a time,
/// and the count is checked against `max_k` after each block of eight and
/// after each byte of the tail.
pub fn fast_hamming(q: &[u8], term: &[u8], max_k: usize) -> (r: usize)
    ensures
        (r <= max_k) == (scan_distance(q@, term@) <= max_k),
        r <= max_k ==> r == scan_distance(q@, term@),
{
    let qlen = q.len();
    let tlen = term.len();
    let len_diff = if qlen > tlen { qlen - tlen } else { tlen - qlen };
    if len_diff > max_k {
        return max_k + 1;
    }
    let len = if qlen < tlen { qlen } else { tlen };
    let mut d = len_diff;
    let chunks = len / 8;
    let mut i: usize = 0;
    let mut c: usize = 0;
    proof {
        lemma_mismatches_mono(q@, term@, 0, len as int);
    }
    while c < chunks
        invariant
            len == (if qlen < tlen { qlen } else { tlen }),
            qlen == q.len(),
            tlen == term.len(),
            len_diff == (if qlen >= tlen { qlen - tlen } else { tlen - qlen }),
            chunks == len / 8,
            c <= chunks,
            i == 8 * c,
            d == len_diff + mismatches(q@, term@, i as int),
            d <= max_k,
        decreases chunks - c,
    {
        let mut b: usize = 0;
        while b < 8
            invariant
                len == (if qlen < tlen { qlen } else { tlen }),
                qlen == q.len(),
                tlen == term.len(),
                len_diff == (if qlen >= tlen { qlen - tlen } else { tlen - qlen }),
                chunks == len / 8,
                c < chunks,
                i == 8 * c,
                b <= 8,
                d == len_diff + mismatches(q@, term@, i + b),
                d <= max_k + b,
            decreases 8 - b,
        {
            proof {
                lemma_mismatches_bound(q@, term@, i + b);
            }
            if q[i + b] != term[i + b] {
                d = d + 1;
            }
            b = b + 1;
        }
        if d > max_k {
            proof {
                lemma_mismatches_mono(q@, term@, i + 8, len as int);
            }
            return d;
        }
        i = i + 8;
        c = c + 1;
    }
    let mut j: usize = i;
    while j < len
        invariant
            len == (if qlen < tlen { qlen } else { tlen }),
            qlen == q.len(),
            tlen == term.len(),
            len_diff == (if qlen >= tlen { qlen - tlen } else { tlen - qlen }),
            i <= j <= len,
            d == len_diff + mismatches(q@, term@, j as int),
            d <= max_k,
        decreases len - j,
    {
        proof {
            lemma_mismatches_bound(q@, term@, j as int);
        }
        if q[j] != term[j] {
            d = d + 1;
            if d > max_k {
                proof {
                    lemma_mismatches_mono(q@, term@, j + 1, len as int);
                }
                return d;
            }
        }
        j = j + 1;
    }
    d
}

/// The restricted Damerau-Levenshtein (optimal string alignment) distance
/// of `a[..i]` and `b[..j]`: insertions, deletions, substitutions and
/// swaps of two adjacent bytes, each costing 1.
pub open spec fn osa(a: Seq<u8>, b: Seq<u8>, i: int, j: int) -> int
    decreases (if i > 0 { i } else { 0 }) + (if j > 0 { j } else { 0 }),
{
    if i <= 0 {
        if j > 0 { j } else { 0 }
    } else if j <= 0 {
        i
    } else {
        let del = osa(a, b, i - 1, j) + 1;
        let ins = osa(a, b, i, j - 1) + 1;
        let sub = osa(a, b, i - 1, j - 1) + if a[i - 1] == b[j - 1] { 0int } else { 1int };
        let best = if del <= ins && del <= sub { del } else if ins <= sub { ins } else { sub };
        if i > 1 && j > 1 && a[i - 1] == b[j - 2] && a[i - 2] == b[j - 1] {
            let swap = osa(a, b, i - 2, j - 2) + 1;
            if swap < best { swap } else { best }
        } else {
            best
        }
    }
}

/// The optimal string alignment distance of `a` and `b`.
pub open spec fn osa_distance(a: Seq<u8>, b: Seq<u8>) -> int {
    osa(a, b, a.len() as int, b.len() as int)
}

/// The distance lies between the length difference and the longer length,
/// and drops by at most one from one row to the next.
proof fn lemma_osa_bounds(a: Seq<u8>, b: Seq<u8>, i: int, j: int)
    requires
        0 <= i,
        0 <= j,
    ensures
        osa(a, b, i, j) >= (if i >= j { i - j } else { j - i }),
        osa(a, b, i, j) <= (if i >= j { i } else { j }),
        i >= 1 ==> osa(a, b, i, j) <= osa(a, b, i - 1, j) + 1,
    decreases i + j,
{
    if i > 0 && j > 0 {
        lemma_osa_bounds(a, b, i - 1, j);
        lemma_osa_bounds(a, b, i, j - 1);
        lemma_osa_bounds(a, b, i - 1, j - 1);
        if i > 1 && j > 1 {
            lemma_osa_bounds(a, b, i - 2, j - 2);
        }
    }
}

/// When every cell of row `i` exceeds `k` and every cell of row `i - 1` is
/// at least `k`, every cell of row `i + 1` exceeds `k`.
proof fn lemma_osa_row_above(a: Seq<u8>, b: Seq<u8>, i: int, n: int, k: int)
    requires
        0 <= i,
        0 <= n,
        forall|j: int| 0 <= j <= n ==> #[trigger] osa(a, b, i, j) > k,
        i >= 1 ==> forall|j: int| 0 <= j <= n ==> #[trigger] osa(a, b, i - 1, j) >= k,
    ensures
        forall|j: int| 0 <= j <= n ==> #[trigger] osa(a, b, i + 1, j) > k,
    decreases n,
{
    if n > 0 {
        lemma_osa_row_above(a, b, i, n - 1, k);
        assert(osa(a, b, i, n) > k);
        assert(osa(a, b, i, n - 1) > k);
        assert(osa(a, b, i + 1, n - 1) > k);
        if i >= 1 && n >= 2 {
            assert(osa(a, b, i - 1, n - 2) >= k);
        }
    } else {
        assert(osa(a, b, i, 0) > k);
        assert(osa(a, b, i + 1, 0) == i + 1);
    }
}

/// When every cell of row `i` exceeds `k`, so does every cell of every later row.
proof fn lemma_osa_rows_above(a: Seq<u8>, b: Seq<u8>, i: int, m: int, n: int, k: int)
    requires
        0 <= i <= m,
        0 <= n,
        forall|j: int| 0 <= j <= n ==> #[trigger] osa(a, b, i, j) > k,
    ensures
        osa(a, b, m, n) > k,
    decreases m - i,
{
    if i < m {
        if i >= 1 {
            assert forall|j: int| 0 <= j <= n implies #[trigger] osa(a, b, i - 1, j) >= k by {
                lemma_osa_bounds(a, b, i, j);
                assert(osa(a, b, i, j) > k);
            }
        }
        lemma_osa_row_above(a, b, i, n, k);
        lemma_osa_rows_above(a, b, i + 1, m, n, k);
    }
}

/// The optimal string alignment distance of `a` and `b` when it is at most
/// `max_k`; otherwise some value above `max_k` (`max_k + 1` when the length
/// difference or a whole row of the matrix already exceeds it).
pub fn osa_within(a: &[u8], b: &[u8], max_k: usize) -> (r: usize)
    requires
        a.len() < usize::MAX,
        b.len() < usize::MAX,
    ensures
        (r <= max_k) == (osa_distance(a@, b@) <= max_k),
        r <= max_k ==> r == osa_distance(a@, b@),
        r > max_k ==> r == max_k + 1 || r == osa_distance(a@, b@),
{
    let m = a.len();
    let n = b.len();
    proof {
        lemma_osa_bounds(a@, b@, m as int, n as int);
    }
    let gap = if m >= n { m - n } else { n - m };
    if gap > max_k {
        return max_k + 1;
    }
    let mut prev2: Vec<usize> = Vec::new();
    let mut prev: Vec<usize> = Vec::new();
    let mut curr: Vec<usize> = Vec::new();
    let mut j: usize = 0;
    while j <= n
        invariant
            n == b.len(),
            n < usize::MAX,
            j <= n + 1,
            prev2.len() == j,
            prev.len() == j,
            curr.len() == j,
            forall|x: int| 0 <= x < j ==> #[trigger] prev[x] == osa(a@, b@, 0, x),
        decreases n + 1 - j,
    {
        prev2.push(0);
        prev.push(j);
        curr.push(0);
        j = j + 1;
    }
    let mut i: usize = 1;
    while i <= m
        invariant
            m == a.len(),
            n == b.len(),
            m < usize::MAX,
            n < usize::MAX,
            1 <= i <= m + 1,
            prev2.len() == n + 1,
            prev.len() == n + 1,
            curr.len() == n + 1,
            forall|x: int| 0 <= x <= n ==> #[trigger] prev[x] == osa(a@, b@, i - 1, x),
            i >= 2 ==> forall|x: int| 0 <= x <= n ==> #[trigger] prev2[x] == osa(a@, b@, i - 2, x),
        decreases m + 1 - i,
    {
        curr.set(0, i);
        let mut row_min = i;
        let mut j: usize = 1;
        while j <= n
            invariant
                m == a.len(),
                n == b.len(),
                m < usize::MAX,
                n < usize::MAX,
                1 <= i <= m,
                1 <= j <= n + 1,
                prev2.len() == n + 1,
                prev.len() == n + 1,
                curr.len() == n + 1,
                forall|x: int| 0 <= x <= n ==> #[trigger] prev[x] == osa(a@, b@, i - 1, x),
                i >= 2 ==> forall|x: int| 0 <= x <= n ==> #[trigger] prev2[x] == osa(a@, b@, i - 2, x),
                curr[0] == i,
                forall|x: int| 0 <= x < j ==> #[trigger] curr[x] == osa(a@, b@, i as int, x),
                forall|x: int| 0 <= x < j ==> row_min <= #[trigger] curr[x],
            decreases n + 1 - j,
        {
            proof {
                lemma_osa_bounds(a@, b@, i - 1, j as int);
                lemma_osa_bounds(a@, b@, i as int, j - 1);
                lemma_osa_bounds(a@, b@, i - 1, j - 1);
            }
            let cost: usize = if a[i - 1] == b[j - 1] { 0 } else { 1 };
            let del = prev[j] + 1;
            let ins = curr[j - 1] + 1;
            let sub = prev[j - 1] + cost;
            let mut v = if del <= ins && del <= sub { del } else if ins <= sub { ins } else { sub };
            if i > 1 && j > 1 && a[i - 1] == b[j - 2] && a[i - 2] == b[j - 1] {
                proof {
                    lemma_osa_bounds(a@, b@, i - 2, j - 2);
                }
                let swap = prev2[j - 2] + 1;
                if swap < v {
                    v = swap;
                }
            }
            curr.set(j, v);
            if v < row_min {
                row_min = v;
            }
            j = j + 1;
        }
        if row_min > max_k {
            proof {
                assert forall|x: int| 0 <= x <= n implies #[trigger] osa(a@, b@, i as int, x) > max_k by {
                    assert(curr[x] == osa(a@, b@, i as int, x));
                }
                lemma_osa_rows_above(a@, b@, i as int, m as int, n as int, max_k as int);
            }
            return max_k + 1;
        }
        std::mem::swap(&mut prev2, &mut prev);
        std::mem::swap(&mut prev, &mut curr);
        i = i + 1;
    }
    prev[n]
}

} // verus!
