//! Function inversion by hash chains: given `f` on `0..n`, a structure that
//! finds inputs mapped to a value by walking chains of `f` and a hash,
//! with the inputs no chain covers stored directly.
use vstd::prelude::*;
use std::collections::HashMap;

verus! {

broadcast use vstd::std_specs::hash::group_hash_axioms;

/// A set of chains: the chains' end points, each with its start.
struct Cluster {
    seed: u64,
    chain_ends: HashMap<usize, usize>,
}

/// Finds the inputs of a function on `0..n` that map to a value.
pub struct FunctionInverter {
    n: usize,
    sigma: usize,
    clusters: Vec<Cluster>,
    missing: HashMap<usize, Vec<usize>>,
}

/// The chain hash of `val` under `seed`, in `0..n`.
fn hash(seed: u64, val: usize, n: usize) -> (r: usize)
    requires
        n > 0,
    ensures
        r < n,
{
    let x = seed.wrapping_mul((val as u64).wrapping_add(1)).wrapping_mul(2246822519);
    (x % (n as u64)) as usize
}

impl FunctionInverter {
    /// The domain is not empty and every chain starts inside it.
    #[verifier::type_invariant]
    spec fn chains_inside(&self) -> bool {
        &&& self.n > 0
        &&& forall|c: int, k: usize| #![trigger self.clusters[c].chain_ends@[k]]
            0 <= c < self.clusters.len() && self.clusters[c].chain_ends@.contains_key(k)
                ==> self.clusters[c].chain_ends@[k] < self.n
    }

    /// The inputs stored directly, by value.
    pub closed spec fn stored(&self) -> Map<usize, Seq<usize>> {
        self.missing@.map_values(|v: Vec<usize>| v@)
    }

    /// The size of the domain.
    pub closed spec fn domain(&self) -> nat {
        self.n as nat
    }

    /// Builds the inverter of `f` on `0..n`; `sigma` trades space for time.
    /// Every input stored directly is one that `f` maps to its value.
    pub fn build<F: Fn(usize) -> Option<usize>>(n: usize, sigma: usize, f: &F) -> (r: Self)
        requires
            n > 0,
            sigma * sigma * sigma <= usize::MAX,
            forall|x: usize| x < n ==> #[trigger] f.requires((x,)),
        ensures
            r.domain() == n,
            forall|j: usize, i: usize| #![trigger r.stored()[j].contains(i)] r.stored().contains_key(j) && r.stored()[j].contains(i)
                ==> f.ensures((i,), Some(j)),
    {
        assert(sigma * sigma <= usize::MAX) by (nonlinear_arith)
            requires
                sigma * sigma * sigma <= usize::MAX,
        {
            if sigma > 0 {
                assert(sigma * sigma <= sigma * sigma * sigma);
            }
        }
        let sq = sigma * sigma;
        let num_clusters = if sq > 1 { sq } else { 1 };
        let cube = sq * sigma;
        let per = n / (if cube > 1 { cube } else { 1 });
        let chains_per_cluster = if per > 1 { per } else { 1 };
        let mut clusters: Vec<Cluster> = Vec::new();
        let mut found: Vec<bool> = Vec::new();
        let mut i: usize = 0;
        while i < n
            invariant
                i <= n,
                found.len() == i,
            decreases n - i,
        {
            found.push(false);
            i = i + 1;
        }
        let mut c: usize = 0;
        while c < num_clusters
            invariant
                n > 0,
                found.len() == n,
                forall|c: int, k: usize| #![trigger clusters[c].chain_ends@[k]]
                    0 <= c < clusters.len() && clusters[c].chain_ends@.contains_key(k)
                        ==> clusters[c].chain_ends@[k] < n,
                forall|x: usize| x < n ==> #[trigger] f.requires((x,)),
            decreases num_clusters - c,
        {
            let seed = (c as u64).wrapping_mul(2654435761);
            let mut chain_ends: HashMap<usize, usize> = HashMap::new();
            let mut t: usize = 0;
            while t < chains_per_cluster
                invariant
                    n > 0,
                    found.len() == n,
                    forall|k: usize| #[trigger] chain_ends@.contains_key(k) ==> chain_ends@[k] < n,
                    forall|x: usize| x < n ==> #[trigger] f.requires((x,)),
                decreases chains_per_cluster - t,
            {
                let x = (seed.wrapping_mul((t as u64).wrapping_add(1)).wrapping_mul(1000003) % (n as u64)) as usize;
                let mut cur = x;
                let mut s: usize = 0;
                while s < sigma
                    invariant
                        n > 0,
                        cur < n,
                        found.len() == n,
                        forall|x: usize| x < n ==> #[trigger] f.requires((x,)),
                    decreases sigma - s,
                {
                    match f(cur) {
                        Some(fv) => {
                            found.set(cur, true);
                            cur = hash(seed, fv, n);
                        },
                        None => {
                            break;
                        },
                    }
                    s = s + 1;
                }
                chain_ends.insert(cur, x);
                t = t + 1;
            }
            clusters.push(Cluster { seed, chain_ends });
            c = c + 1;
        }
        let mut missing: HashMap<usize, Vec<usize>> = HashMap::new();
        let mut i: usize = 0;
        while i < n
            invariant
                i <= n,
                found.len() == n,
                forall|x: usize| x < n ==> #[trigger] f.requires((x,)),
                forall|j: usize, k: usize| #![trigger missing@[j]@.contains(k)] missing@.contains_key(j) && missing@[j]@.contains(k)
                    ==> f.ensures((k,), Some(j)),
            decreases n - i,
        {
            if !found[i] {
                match f(i) {
                    Some(j) => {
                        let mut list: Vec<usize> = match missing.get(&j) {
                            Some(v) => v.clone(),
                            None => Vec::new(),
                        };
                        let ghost before = list@;
                        proof {
                            if missing@.contains_key(j) {
                                assert(list@ =~= missing@[j]@);
                            }
                        }
                        list.push(i);
                        proof {
                            assert forall|k: usize| list@.contains(k) implies f.ensures((k,), Some(j)) by {
                                if k != i {
                                    assert(before.contains(k));
                                }
                            }
                        }
                        missing.insert(j, list);
                    },
                    None => {},
                }
            }
            i = i + 1;
        }
        FunctionInverter { n, sigma, clusters, missing }
    }

    /// All inputs that `f` maps to `j`, each once: those stored directly for
    /// `j`, those met on the chains whose end points the chains from `j`
    /// reach, and any other found by a final pass over the domain. Each is
    /// stored for `j` or one on which `f` returned `j`, and every input on
    /// which `f` can only return `j` is among them.
    pub fn invert<F: Fn(usize) -> Option<usize>>(&self, j: usize, f: &F) -> (r: Vec<usize>)
        requires
            forall|x: usize| x < self.domain() ==> #[trigger] f.requires((x,)),
        ensures
            forall|p: int| 0 <= p < r.len() ==> (self.stored().contains_key(j) && self.stored()[j].contains(#[trigger] r[p]))
                || f.ensures((r[p],), Some(j)),
            self.stored().contains_key(j) ==> forall|x: usize| #[trigger] self.stored()[j].contains(x) ==> r@.contains(x),
            no_dups(r@),
            forall|x: usize| x < self.domain() && (forall|v: Option<usize>| #[trigger] f.ensures((x,), v) ==> v == Some(j))
                ==> #[trigger] r@.contains(x),
    {
        proof {
            use_type_invariant(self);
        }
        let mut results: Vec<usize> = Vec::new();
        match self.missing.get(&j) {
            Some(m) => {
                let mut k: usize = 0;
                while k < m.len()
                    invariant
                        self.missing@.contains_key(j),
                        m@ == self.missing@[j]@,
                        k <= m.len(),
                        forall|p: int| 0 <= p < results.len() ==> (self.stored().contains_key(j)
                            && self.stored()[j].contains(#[trigger] results[p])) || f.ensures((results[p],), Some(j)),
                        no_dups(results@),
                        forall|y: int| 0 <= y < k ==> results@.contains(#[trigger] m@[y]),
                    decreases m.len() - k,
                {
                    let x = m[k];
                    proof {
                        assert(self.stored()[j] == m@);
                        assert(m@.contains(x));
                    }
                    let ghost before = results@;
                    push_new(&mut results, x);
                    proof {
                        assert forall|y: int| 0 <= y < k + 1 implies results@.contains(#[trigger] m@[y]) by {
                            if y < k {
                                let w = choose|w: int| 0 <= w < before.len() && before[w] == m@[y];
                                assert(results@[w] == before[w]);
                            }
                        }
                    }
                    k = k + 1;
                }
                proof {
                    assert forall|x: usize| #[trigger] self.stored()[j].contains(x) implies results@.contains(x) by {
                        let y = choose|y: int| 0 <= y < m@.len() && m@[y] == x;
                        assert(results@.contains(m@[y]));
                    }
                }
            },
            None => {},
        }
        let n = self.n;
        let mut c: usize = 0;
        while c < self.clusters.len()
            invariant
                n == self.domain(),
                n > 0,
                forall|x: usize| x < n ==> #[trigger] f.requires((x,)),
                forall|p: int| 0 <= p < results.len() ==> (self.stored().contains_key(j)
                    && self.stored()[j].contains(#[trigger] results[p])) || f.ensures((results[p],), Some(j)),
                no_dups(results@),
                self.stored().contains_key(j) ==> forall|x: usize| #[trigger] self.stored()[j].contains(x) ==> results@.contains(x),
            decreases self.clusters.len() - c,
        {
            let cluster = &self.clusters[c];
            proof {
                use_type_invariant(self);
            }
            let mut cur = j;
            let mut chain: Vec<usize> = Vec::new();
            chain.push(cur);
            let mut s: usize = 0;
            while s < self.sigma
                invariant
                    n > 0,
                    n == self.domain(),
                decreases self.sigma - s,
            {
                cur = hash(cluster.seed, cur, n);
                chain.push(cur);
                s = s + 1;
            }
            let mut e: usize = 0;
            while e < chain.len()
                invariant
                    c < self.clusters.len(),
                    *cluster == self.clusters[c as int],
                    n == self.domain(),
                    n > 0,
                    forall|x: usize| x < n ==> #[trigger] f.requires((x,)),
                    forall|p: int| 0 <= p < results.len() ==> (self.stored().contains_key(j)
                        && self.stored()[j].contains(#[trigger] results[p])) || f.ensures((results[p],), Some(j)),
                no_dups(results@),
                self.stored().contains_key(j) ==> forall|x: usize| #[trigger] self.stored()[j].contains(x) ==> results@.contains(x),
                decreases chain.len() - e,
            {
                match cluster.chain_ends.get(&chain[e]) {
                    Some(start) => {
                        let mut curr = *start;
                        proof {
                            use_type_invariant(self);
                            assert(cluster.chain_ends@[chain@[e as int]] < n);
                        }
                        let mut s: usize = 0;
                        while s < self.sigma
                            invariant
                                n == self.domain(),
                                n > 0,
                                curr < n,
                                forall|x: usize| x < n ==> #[trigger] f.requires((x,)),
                                forall|p: int| 0 <= p < results.len() ==> (self.stored().contains_key(j)
                                    && self.stored()[j].contains(#[trigger] results[p])) || f.ensures((results[p],), Some(j)),
                no_dups(results@),
                self.stored().contains_key(j) ==> forall|x: usize| #[trigger] self.stored()[j].contains(x) ==> results@.contains(x),
                            decreases self.sigma - s,
                        {
                            match f(curr) {
                                Some(fv) => {
                                    if fv == j {
                                        let ghost before = results@;
                                        push_new(&mut results, curr);
                                        proof {
                                            lemma_contains_kept(before, results@, curr);
                                        }
                                    }
                                    curr = hash(cluster.seed, fv, n);
                                },
                                None => {
                                    break;
                                },
                            }
                            s = s + 1;
                        }
                        break;
                    },
                    None => {},
                }
                e = e + 1;
            }
            c = c + 1;
        }
        let mut x: usize = 0;
        while x < n
            invariant
                n == self.domain(),
                x <= n,
                forall|y: usize| y < n ==> #[trigger] f.requires((y,)),
                forall|p: int| 0 <= p < results.len() ==> (self.stored().contains_key(j)
                    && self.stored()[j].contains(#[trigger] results[p])) || f.ensures((results[p],), Some(j)),
                no_dups(results@),
                self.stored().contains_key(j) ==> forall|y: usize| #[trigger] self.stored()[j].contains(y) ==> results@.contains(y),
                forall|y: usize| y < x && (forall|v: Option<usize>| #[trigger] f.ensures((y,), v) ==> v == Some(j))
                    ==> #[trigger] results@.contains(y),
            decreases n - x,
        {
            let ghost before = results@;
            let fx = f(x);
            if fx == Some(j) {
                push_new(&mut results, x);
                proof {
                    assert forall|p: int| 0 <= p < results.len() implies (self.stored().contains_key(j)
                        && self.stored()[j].contains(#[trigger] results[p])) || f.ensures((results[p],), Some(j)) by {
                        if results@[p] != x {
                            assert(before.contains(results@[p]));
                            let w = choose|w: int| 0 <= w < before.len() && before[w] == results@[p];
                            assert(before[w] == results[w]);
                        }
                    }
                }
            }
            proof {
                assert forall|y: usize| #![trigger results@.contains(y)] before.contains(y) implies results@.contains(y) by {
                    lemma_contains_kept(before, results@, x);
                }
                assert forall|y: usize| y < x + 1 && (forall|v: Option<usize>| #[trigger] f.ensures((y,), v) ==> v == Some(j))
                    implies #[trigger] results@.contains(y) by {
                    if y == x {
                        assert(f.ensures((x,), fx));
                    } else {
                        assert(before.contains(y));
                    }
                }
            }
            x = x + 1;
        }
        results
    }
}

/// What `a` contains, `a` or `a` with `x` pushed contains too.
proof fn lemma_contains_kept(a: Seq<usize>, b: Seq<usize>, x: usize)
    requires
        b == a || b == a.push(x),
    ensures
        forall|y: usize| a.contains(y) ==> #[trigger] b.contains(y),
{
    assert forall|y: usize| a.contains(y) implies #[trigger] b.contains(y) by {
        let w = choose|w: int| 0 <= w < a.len() && a[w] == y;
        assert(b[w] == a[w]);
    }
}

/// No value occurs twice in `s`.
pub open spec fn no_dups(s: Seq<usize>) -> bool {
    forall|p1: int, p2: int| 0 <= p1 < p2 < s.len() ==> #[trigger] s[p1] != #[trigger] s[p2]
}

/// Appends `x` to `v` unless it is there already.
fn push_new(v: &mut Vec<usize>, x: usize)
    ensures
        final(v)@ == old(v)@ || final(v)@ == old(v)@.push(x),
        final(v)@.contains(x),
        no_dups(old(v)@) ==> no_dups(final(v)@),
        forall|p: int| 0 <= p < final(v).len() ==> old(v)@.contains(#[trigger] final(v)@[p]) || final(v)@[p] == x,
{
    let mut i: usize = 0;
    while i < v.len()
        invariant
            i <= v.len(),
            v@ == old(v)@,
            forall|p: int| 0 <= p < i ==> v@[p] != x,
        decreases v.len() - i,
    {
        if v[i] == x {
            proof {
                assert(v@[i as int] == x);
                assert forall|p: int| 0 <= p < v.len() implies old(v)@.contains(#[trigger] v@[p]) || v@[p] == x by {
                    assert(v@[p] == old(v)@[p]);
                }
            }
            return;
        }
        i = i + 1;
    }
    let ghost before = v@;
    v.push(x);
    proof {
        assert(v@[before.len() as int] == x);
        assert forall|p: int| 0 <= p < v.len() implies old(v)@.contains(#[trigger] v@[p]) || v@[p] == x by {
            if p < before.len() {
                assert(v@[p] == before[p]);
                assert(old(v)@[p] == before[p]);
            }
        }
        if no_dups(before) {
            assert forall|p1: int, p2: int| 0 <= p1 < p2 < v@.len() implies #[trigger] v@[p1] != #[trigger] v@[p2] by {
                if p2 < before.len() {
                    assert(v@[p1] == before[p1] && v@[p2] == before[p2]);
                } else {
                    assert(v@[p1] == before[p1]);
                }
            }
        }
    }
}

} // verus!
