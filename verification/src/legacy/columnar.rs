//! Column-oriented term storage: `columns[c]` holds byte `c` of every term
//! (0 past a term's end), so a query byte is compared with all terms at that
//! position in one contiguous pass.
use vstd::prelude::*;

verus! {

/// Positions below `n` where the query and the term differ.
pub open spec fn mismatches(query: Seq<u8>, term: Seq<u8>, n: int) -> nat
    decreases n,
{
    if n <= 0 {
        0
    } else {
        mismatches(query, term, n - 1) + if query[n - 1] != term[n - 1] { 1nat } else { 0nat }
    }
}

/// The distance the scan reports: mismatches over the common length plus
/// the length difference.
pub open spec fn scan_distance(query: Seq<u8>, term: Seq<u8>) -> nat {
    let common = if query.len() <= term.len() { query.len() } else { term.len() };
    let len_diff = if query.len() >= term.len() { query.len() - term.len() } else { term.len() - query.len() };
    mismatches(query, term, common as int) + len_diff as nat
}

/// The scan result over the first `n` terms: `(index, distance)` for each term
/// within distance `k`, in index order.
pub open spec fn scan_spec(terms: Seq<Seq<u8>>, query: Seq<u8>, k: nat, n: int) -> Seq<(usize, usize)>
    decreases n,
{
    if n <= 0 {
        Seq::empty()
    } else if scan_distance(query, terms[n - 1]) <= k {
        scan_spec(terms, query, k, n - 1).push(((n - 1) as usize, scan_distance(query, terms[n - 1]) as usize))
    } else {
        scan_spec(terms, query, k, n - 1)
    }
}

pub(crate) proof fn lemma_mismatches_bound(query: Seq<u8>, term: Seq<u8>, n: int)
    requires 0 <= n,
    ensures mismatches(query, term, n) <= n,
    decreases n,
{
    if n > 0 {
        lemma_mismatches_bound(query, term, n - 1);
    }
}

/// Terms stored column by column.
pub struct ColumnarTerms {
    columns: Vec<Vec<u8>>,
    lengths: Vec<usize>,
    num_terms: usize,
    max_len: usize,
}

impl ColumnarTerms {
    /// The stored terms, read back from the columns.
    pub closed spec fn terms(&self) -> Seq<Seq<u8>> {
        Seq::new(self.num_terms as nat, |i: int| Seq::new(self.lengths@[i] as nat, |c: int| self.columns@[c]@[i]))
    }

    /// The columns have the shape the lengths imply.
    pub closed spec fn wf(&self) -> bool {
        &&& self.lengths@.len() == self.num_terms
        &&& self.columns@.len() == self.max_len
        &&& forall|c: int| 0 <= c < self.max_len ==> #[trigger] self.columns@[c]@.len() == self.num_terms
        &&& forall|i: int| 0 <= i < self.num_terms ==> #[trigger] self.lengths@[i] <= self.max_len
    }

    /// Transposes `terms` into columns.
    pub fn build(terms: &[Vec<u8>]) -> (out: Self)
        ensures
            out.wf(),
            out.terms() == terms@.map_values(|t: Vec<u8>| t@),
    {
        let num_terms = terms.len();
        let mut max_len: usize = 0;
        let mut lengths: Vec<usize> = Vec::new();
        let mut i: usize = 0;
        while i < num_terms
            invariant
                num_terms == terms@.len(),
                i <= num_terms,
                lengths@.len() == i,
                forall|j: int| 0 <= j < i ==> #[trigger] lengths@[j] == terms@[j]@.len(),
                forall|j: int| 0 <= j < i ==> #[trigger] terms@[j]@.len() <= max_len,
            decreases num_terms - i,
        {
            let l = terms[i].len();
            lengths.push(l);
            if l > max_len {
                max_len = l;
            }
            i = i + 1;
        }
        let mut columns: Vec<Vec<u8>> = Vec::new();
        let mut col: usize = 0;
        while col < max_len
            invariant
                num_terms == terms@.len(),
                col <= max_len,
                columns@.len() == col,
                forall|c: int| 0 <= c < col ==> #[trigger] columns@[c]@.len() == num_terms,
                forall|c: int, j: int| 0 <= c < col && 0 <= j < num_terms ==>
                    #[trigger] columns@[c]@[j] == if c < terms@[j]@.len() { terms@[j]@[c] } else { 0u8 },
            decreases max_len - col,
        {
            let mut column: Vec<u8> = Vec::new();
            let mut j: usize = 0;
            while j < num_terms
                invariant
                    num_terms == terms@.len(),
                    j <= num_terms,
                    column@.len() == j,
                    forall|jj: int| 0 <= jj < j ==>
                        #[trigger] column@[jj] == if col < terms@[jj]@.len() { terms@[jj]@[col as int] } else { 0u8 },
                decreases num_terms - j,
            {
                let b = if col < terms[j].len() { terms[j][col] } else { 0 };
                column.push(b);
                j = j + 1;
            }
            columns.push(column);
            col = col + 1;
        }
        let out = ColumnarTerms { columns, lengths, num_terms, max_len };
        assert(out.terms() =~= terms@.map_values(|t: Vec<u8>| t@)) by {
            assert forall|j: int| 0 <= j < num_terms implies #[trigger] out.terms()[j] =~= terms@[j]@ by {
                assert forall|c: int| 0 <= c < terms@[j]@.len() implies out.terms()[j][c] == terms@[j]@[c] by {
                    assert(out.columns@[c]@[j] == terms@[j]@[c]);
                }
            }
        }
        out
    }

    /// Every term within distance `k` of `query` (mismatches over the common
    /// length plus the length difference), as `(index, distance)` pairs in
    /// index order.
    pub fn scan(&self, query: &[u8], k: usize) -> (out: Vec<(usize, usize)>)
        requires
            self.wf(),
        ensures
            out@ == scan_spec(self.terms(), query@, k as nat, self.terms().len() as int),
    {
        let qlen = query.len();
        let n = self.num_terms;
        let mut dists: Vec<usize> = Vec::new();
        let mut i: usize = 0;
        while i < n
            invariant
                i <= n,
                dists@.len() == i,
                forall|j: int| 0 <= j < i ==> #[trigger] dists@[j] == 0,
            decreases n - i,
        {
            dists.push(0);
            i = i + 1;
        }
        let check_len = if qlen < self.max_len { qlen } else { self.max_len };
        let ghost terms = self.terms();
        let mut col: usize = 0;
        let mut all_over = false;
        while col < check_len && !all_over
            invariant
                self.wf(),
                n == self.num_terms,
                terms == self.terms(),
                qlen == query@.len(),
                check_len <= qlen,
                check_len <= self.max_len,
                col <= check_len,
                dists@.len() == n,
                forall|j: int| 0 <= j < n ==> #[trigger] dists@[j] == mismatches(query@, terms[j],
                    if col <= terms[j].len() { col as int } else { terms[j].len() as int }),
                all_over ==> forall|j: int| 0 <= j < n ==> #[trigger] dists@[j] > k,
            decreases check_len - col,
        {
            let q_byte = query[col];
            let column = &self.columns[col];
            let mut i: usize = 0;
            while i < n
                invariant
                    self.wf(),
                    n == self.num_terms,
                    terms == self.terms(),
                    qlen == query@.len(),
                    col < check_len,
                    check_len <= qlen,
                    check_len <= self.max_len,
                    column@ == self.columns@[col as int]@,
                    q_byte == query@[col as int],
                    i <= n,
                    dists@.len() == n,
                    forall|j: int| i <= j < n ==> #[trigger] dists@[j] == mismatches(query@, terms[j],
                        if col <= terms[j].len() { col as int } else { terms[j].len() as int }),
                    forall|j: int| 0 <= j < i ==> #[trigger] dists@[j] == mismatches(query@, terms[j],
                        if col + 1 <= terms[j].len() { col + 1 } else { terms[j].len() as int }),
                decreases n - i,
            {
                proof {
                    lemma_mismatches_bound(query@, terms[i as int], col as int);
                }
                if column[i] != q_byte && col < self.lengths[i] {
                    assert(terms[i as int][col as int] == column@[i as int]);
                    let d = dists[i];
                    dists.set(i, d + 1);
                } else {
                    proof {
                        if col < terms[i as int].len() {
                            assert(terms[i as int][col as int] == column@[i as int]);
                        }
                    }
                }
                i = i + 1;
            }
            if col % 4 == 3 {
                let mut alive: usize = 0;
                let mut j: usize = 0;
                while j < n
                    invariant
                        j <= n,
                        dists@.len() == n,
                        alive <= j,
                        alive == 0 ==> forall|jj: int| 0 <= jj < j ==> #[trigger] dists@[jj] > k,
                    decreases n - j,
                {
                    if dists[j] <= k {
                        alive = alive + 1;
                    }
                    j = j + 1;
                }
                all_over = alive == 0;
            }
            col = col + 1;
        }
        let mut results: Vec<(usize, usize)> = Vec::new();
        let mut i: usize = 0;
        while i < n
            invariant
                self.wf(),
                n == self.num_terms,
                terms == self.terms(),
                terms.len() == n,
                qlen == query@.len(),
                i <= n,
                dists@.len() == n,
                col <= check_len,
                check_len == if qlen < self.max_len { qlen } else { self.max_len },
                (col == check_len && !all_over) || all_over,
                forall|j: int| 0 <= j < n ==> #[trigger] dists@[j] == mismatches(query@, terms[j],
                    if col <= terms[j].len() { col as int } else { terms[j].len() as int }),
                all_over ==> forall|j: int| 0 <= j < n ==> #[trigger] dists@[j] > k,
                results@ == scan_spec(terms, query@, k as nat, i as int),
            decreases n - i,
        {
            let len_i = self.lengths[i];
            let len_diff = if qlen > len_i { qlen - len_i } else { len_i - qlen };
            proof {
                lemma_mismatches_bound(query@, terms[i as int], col as int);
            }
            let d = dists[i];
            if d <= k && len_diff <= k - d {
                let total = d + len_diff;
                proof {
                    assert(!all_over);
                    assert(terms[i as int].len() == len_i);
                }
                results.push((i, total));
            } else {
                proof {
                    if !all_over {
                        assert(terms[i as int].len() == len_i);
                    }
                    if all_over {
                        lemma_mismatches_mono(query@, terms[i as int],
                            if col <= terms[i as int].len() { col as int } else { terms[i as int].len() as int },
                            if qlen <= terms[i as int].len() { qlen as int } else { terms[i as int].len() as int });
                    }
                }
            }
            i = i + 1;
        }
        results
    }
}

pub(crate) proof fn lemma_mismatches_mono(query: Seq<u8>, term: Seq<u8>, a: int, b: int)
    requires 0 <= a <= b,
    ensures mismatches(query, term, a) <= mismatches(query, term, b),
    decreases b - a,
{
    if a < b {
        lemma_mismatches_mono(query, term, a, b - 1);
    }
}

} // verus!
