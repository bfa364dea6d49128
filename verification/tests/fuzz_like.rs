use lib::cost::{whole_units, CostModel, Layout};
use lib::search::{Ranking, SearchConfig, Searcher};
use lib::text::Normalizer;
use lib::trie::Trie;

type Cost = u16;

/// Small deterministic xorshift generator (no dependencies).
struct Rng(u64);

impl Rng {
    fn new(seed: u64) -> Self {
        Rng(seed.wrapping_mul(2_654_435_761).wrapping_add(1))
    }
    fn next(&mut self) -> u64 {
        self.0 ^= self.0 << 13;
        self.0 ^= self.0 >> 7;
        self.0 ^= self.0 << 17;
        self.0
    }
    fn below(&mut self, n: u64) -> u64 {
        self.next() % n
    }
}

/// Naive full-matrix weighted OSA distance, written independently of the trie search.
fn oracle_cost(cm: &CostModel, q: &[u8], t: &[u8]) -> u32 {
    const BIG: u32 = 1_000_000;
    let (m, n) = (q.len(), t.len());
    let mut d = vec![vec![BIG; m + 1]; n + 1];
    d[0][0] = 0;
    for j in 0..=n {
        for i in 0..=m {
            if j == 0 && i == 0 {
                continue;
            }
            let mut best = BIG;
            if j >= 1 && i >= 1 {
                let c = u32::from(cm.sub_cost(q[i - 1], t[j - 1], i - 1));
                best = best.min(d[j - 1][i - 1] + c);
            }
            if j >= 1 {
                let prev_t = if j >= 2 { Some(t[j - 2]) } else { None };
                best = best.min(d[j - 1][i] + u32::from(cm.ins_cost(t[j - 1], prev_t, i)));
            }
            if i >= 1 {
                best = best.min(d[j][i - 1] + u32::from(cm.del_cost(q, i - 1)));
            }
            if j >= 2
                && i >= 2
                && q[i - 1] == t[j - 2]
                && q[i - 2] == t[j - 1]
                && q[i - 1] != q[i - 2]
            {
                best = best.min(d[j - 2][i - 2] + u32::from(cm.transpose_cost(i - 2)));
            }
            d[j][i] = best;
        }
    }
    d[n][m]
}

/// Exact top-k by brute force: (id, true cost) ordered by
/// (rank cost, 65535 - weight, id), where the rank cost is the cost rounded
/// up to whole units of 16 for [`Ranking::Coarse`] and the cost itself for
/// [`Ranking::Exact`].
fn oracle_topk(
    trie: &Trie,
    cm: &CostModel,
    q: &[u8],
    budget: Cost,
    k: usize,
    ranking: Ranking,
) -> Vec<(u32, Cost)> {
    let mut all: Vec<(Cost, u32, u32, Cost)> = Vec::new();
    for id in 0..trie.len() as u32 {
        let c = oracle_cost(cm, q, trie.term(id).as_bytes());
        if c <= u32::from(budget) {
            let c = c as Cost;
            let rank_cost = match ranking {
                Ranking::Coarse => whole_units(c),
                Ranking::Exact => c,
                            };
            all.push((rank_cost, 65_535 - u32::from(trie.weight(id)), id, c));
        }
    }
    all.sort();
    all.into_iter()
        .take(k)
        .map(|(_, _, id, c)| (id, c))
        .collect()
}

/// Sequential reader over the fuzz input; reads past the end return 0.
struct Cursor<'a>(&'a [u8]);

impl Cursor<'_> {
    fn u8(&mut self) -> u8 {
        match self.0.split_first() {
            Some((&b, rest)) => {
                self.0 = rest;
                b
            }
            None => 0,
        }
    }
    fn u16(&mut self) -> u16 {
        u16::from_le_bytes([self.u8(), self.u8()])
    }
}

/// The layout picked by the top bits of the flags byte.
fn layout(b: u8) -> Layout {
    Layout::ALL[usize::from(b >> 5) % Layout::ALL.len()]
}

fn ranking(b: u8) -> Ranking {
    if b & 1 == 0 {
        Ranking::Coarse
    } else {
        Ranking::Exact
    }
}

/// Splits `data` at 0xFF into chunks; the first byte of a chunk is its weight
/// selector and the rest is the term. With `fold`, term bytes are mapped onto
/// `a..=h`, weights onto four values (so ties occur) and empty terms are
/// dropped; without it terms are lossily decoded UTF-8, weights span `u16` and
/// empty terms are kept, so `Trie::build` can return `Err`.
fn parse_terms(data: &[u8], max_terms: usize, fold: bool) -> Vec<(String, u16)> {
    data.split(|&b| b == 0xFF)
        .take(max_terms)
        .filter_map(|chunk| {
            let (&wb, t) = chunk.split_first().unwrap_or((&0, &[]));
            if fold {
                if t.is_empty() {
                    return None;
                }
                let term = t
                    .iter()
                    .take(10)
                    .map(|b| char::from(b'a' + b % 8))
                    .collect();
                Some((term, u16::from(wb % 4) * 100))
            } else {
                Some((String::from_utf8_lossy(t).into_owned(), u16::from(wb) * 257))
            }
        })
        .collect()
}

fn build(terms: &[(String, u16)]) -> Option<Trie> {
    let items: Vec<(&str, u16)> = terms.iter().map(|(t, w)| (t.as_str(), *w)).collect();
    Trie::build(&items).ok()
}

fn fold_query(q: &[u8]) -> Vec<u8> {
    q.iter().map(|b| b'a' + b % 8).collect()
}

/// Layout: `[k, budget(2), max_nodes(2), flags, qlen]`, then `qlen % 129`
/// query bytes, then chunks `[weight, term...]` separated by 0xFF. The budget
/// is unrestricted, so over-large budgets must come back as `Err`, never a
/// panic. The same terms are also built with `build_normalized` and searched
/// with `search_text` and `search_prefix_text` (query lossily decoded).
fn never_panics(data: &[u8]) {
    let mut c = Cursor(data);
    let k = usize::from(c.u8());
    let budget = c.u16();
    let max_nodes = usize::from(c.u16());
    let flags = c.u8();
    let qlen = (usize::from(c.u8()) % 129).min(c.0.len());
    let (q, rest) = c.0.split_at(qlen);
    let terms = parse_terms(rest, 64, false);
    let cfg = SearchConfig {
        k,
        budget,
        tsb: flags & 2 != 0,
        max_nodes,
        ranking: ranking(flags),
    };
    let cm = CostModel::for_layout(layout(flags));
    let items: Vec<(&str, u16)> = terms.iter().map(|(t, w)| (t.as_str(), *w)).collect();
    let modes = modes();
    let n = modes[usize::from(flags >> 2) % modes.len()];
    if let Ok(trie) = Trie::build_normalized(&items, &n) {
        let qt = String::from_utf8_lossy(q);
        let mut s = Searcher::new();
        for out in [
            s.search_text(&trie, &cm, &qt, &cfg),
            s.search_prefix_text(&trie, &cm, &qt, &cfg),
        ]
        .into_iter()
        .flatten()
        {
            assert!(out.hits.len() <= k);
            assert!(out.hits.iter().all(|h| h.cost <= budget));
        }
    }
    let Some(trie) = build(&terms) else {
        return;
    };
    if let Ok(out) = Searcher::new().search_prefix(&trie, &cm, q, &cfg) {
        assert!(out.hits.len() <= k);
        assert!(out.hits.iter().all(|h| h.cost <= budget));
    }
    if let Ok(out) = Searcher::new().search(&trie, &cm, q, &cfg) {
        assert!(out.hits.len() <= k);
        assert!(out.hits.iter().all(|h| h.cost <= budget));
    }
}

/// Layout: `[flags, k, budget, qlen]`, then `qlen % 17` query bytes, then
/// chunks `[weight, term...]` split at 0xFF. Bytes are folded onto `a..=h` so
/// that matches occur, sizes are capped for a fast oracle, and the search is
/// run exact (no node limit) and node-limited, tsb off and on, both rankings.
fn oracle_equality(data: &[u8]) {
    let mut c = Cursor(data);
    let flags = c.u8();
    let k = 1 + usize::from(c.u8() % 12);
    let budget = u16::from(c.u8() % 65);
    let qlen = (usize::from(c.u8()) % 17).min(c.0.len());
    let (qraw, rest) = c.0.split_at(qlen);
    let q = fold_query(qraw);
    let terms = parse_terms(rest, 24, true);
    let Some(trie) = build(&terms) else {
        return;
    };
    let cm = CostModel::for_layout(layout(flags));
    let mut s = Searcher::new();
    for rk in [Ranking::Coarse, Ranking::Exact] {
        let want = oracle_topk(&trie, &cm, &q, budget, k, rk);
        for tsb in [false, true] {
            let cfg = SearchConfig {
                k,
                budget,
                tsb,
                max_nodes: usize::MAX,
                ranking: rk,
            };
            let out = s.search(&trie, &cm, &q, &cfg).unwrap();
            let got: Vec<(u32, u16)> = out.hits.iter().map(|h| (h.id, h.cost)).collect();
            assert_eq!(
                got, want,
                "q={q:?} terms={terms:?} budget={budget} k={k} tsb={tsb} {rk:?}"
            );
            // A node limit may cut the search short; then whatever it returns
            // must still be true costs within the budget.
            let cfg = SearchConfig {
                max_nodes: 1 + usize::from(flags >> 2) % 40,
                ..cfg
            };
            let out = s.search(&trie, &cm, &q, &cfg).unwrap();
            let got: Vec<(u32, u16)> = out.hits.iter().map(|h| (h.id, h.cost)).collect();
            if out.stats.truncated {
                for h in &out.hits {
                    let t = trie.term(h.id).as_bytes();
                    assert_eq!(u32::from(h.cost), oracle_cost(&cm, &q, t));
                    assert!(h.cost <= budget);
                }
            } else {
                assert_eq!(
                    got, want,
                    "untruncated limited run, q={q:?} terms={terms:?}"
                );
            }
        }
    }
}

/// Layout as [`oracle_equality`] but with a `qlen % 17` query and up to 200
/// terms. Both searches (no node limit) must return identical hits.
fn tsb_equivalence(data: &[u8]) {
    let mut c = Cursor(data);
    let flags = c.u8();
    let k = usize::from(c.u8() % 33);
    let budget = u16::from(c.u8() % 65);
    let qlen = (usize::from(c.u8()) % 17).min(c.0.len());
    let (qraw, rest) = c.0.split_at(qlen);
    let q = fold_query(qraw);
    let terms = parse_terms(rest, 200, true);
    let Some(trie) = build(&terms) else {
        return;
    };
    let cm = CostModel::for_layout(layout(flags));
    let mut s = Searcher::new();
    let mut run = |tsb| {
        let cfg = SearchConfig {
            k,
            budget,
            tsb,
            max_nodes: usize::MAX,
            ranking: ranking(flags),
        };
        let out = s.search(&trie, &cm, &q, &cfg).unwrap();
        out.hits.iter().map(|h| (h.id, h.cost)).collect::<Vec<_>>()
    };
    let off = run(false);
    let on = run(true);
    assert_eq!(off, on, "q={q:?} terms={terms:?} budget={budget} k={k}");
}

/// The four normaliser modes.
fn modes() -> [Normalizer; 4] {
    [
        Normalizer::new(),
        Normalizer::new().with_diacritic_folding(false),
        Normalizer::new().with_case_folding(false),
        Normalizer::new()
            .with_case_folding(false)
            .with_diacritic_folding(false),
    ]
}

/// Random bytes, biased towards lowercase letters and 0xFF term separators so
/// the trie gets real, overlapping terms.
fn bytes(rng: &mut Rng, max_len: u64) -> Vec<u8> {
    let len = rng.below(max_len + 1) as usize;
    let mode = rng.below(3);
    (0..len)
        .map(|_| match (mode, rng.below(8)) {
            (0, _) => rng.next() as u8,
            (_, 0) => 0xFF,
            (1, _) => b'a' + rng.below(6) as u8,
            _ => b'a' + rng.below(26) as u8,
        })
        .collect()
}

fn run(seed: u64, iters: usize, max_len: u64, f: fn(&[u8])) {
    let mut rng = Rng::new(seed);
    for _ in 0..iters {
        let d = bytes(&mut rng, max_len);
        f(&d);
    }
}

#[test]
fn never_panics_on_arbitrary_bytes() {
    run(1, 20_000, 300, never_panics);
    // Header-shaped input: small budgets and node limits reach deeper code.
    let mut rng = Rng::new(11);
    for _ in 0..20_000 {
        let mut d = vec![
            rng.below(40) as u8,
            rng.below(80) as u8,
            0,
            rng.below(60) as u8,
            0,
            rng.below(2) as u8 * 2 + rng.below(2) as u8,
            rng.below(10) as u8,
            0,
        ];
        d.extend(bytes(&mut rng, 200));
        never_panics(&d);
    }
}

#[test]
fn matches_the_oracle_on_random_bytes() {
    run(2, 3_000, 200, oracle_equality);
}

#[test]
fn tsb_does_not_change_results() {
    run(3, 5_000, 400, tsb_equivalence);
}
