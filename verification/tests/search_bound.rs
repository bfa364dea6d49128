use lib::cost::{symbol_class, CostModel, Layout, INF};
use lib::search::{pack, Expander, Ranking, ROW};
use lib::trie::{Trie, NO_TERM};

type Cost = u16;

/// Small deterministic xorshift generator.
struct Rng(u64);

impl Rng {
    fn new(seed: u64) -> Self {
        Rng(seed.wrapping_mul(0x9E37_79B9_7F4A_7C15) | 1)
    }
    fn below(&mut self, n: usize) -> usize {
        self.0 ^= self.0 << 13;
        self.0 ^= self.0 >> 7;
        self.0 ^= self.0 << 17;
        (self.0 % n as u64) as usize
    }
}

/// The symbols of a term.
fn syms(s: &str) -> Vec<u32> {
    s.chars().map(u32::from).collect()
}

/// Naive full-matrix weighted OSA cost, independent of the banded rows.
/// `d[j][i]` aligns the term prefix `t[..j]` with the query prefix `q[..i]`.
fn oracle(cm: &CostModel, q: &[u32], t: &[u32]) -> u32 {
    oracle_matrix(cm, q, t)[t.len()][q.len()]
}

fn oracle_matrix(cm: &CostModel, q: &[u32], t: &[u32]) -> Vec<Vec<u32>> {
    const BIG: u32 = 1_000_000;
    let (m, n) = (q.len(), t.len());
    let mut d = vec![vec![BIG; m + 1]; n + 1];
    d[0][0] = 0;
    for j in 0..=n {
        for i in 0..=m {
            let mut best = d[j][i];
            if i >= 1 && j >= 1 {
                best = best
                    .min(d[j - 1][i - 1] + u32::from(cm.sub_cost(q[i - 1], t[j - 1], i - 1)));
            }
            if j >= 1 {
                let prev_t = if j >= 2 { Some(t[j - 2]) } else { None };
                best = best.min(d[j - 1][i] + u32::from(cm.ins_cost(t[j - 1], prev_t, i)));
            }
            if i >= 1 {
                best = best.min(d[j][i - 1] + u32::from(cm.del_cost(q, i - 1)));
            }
            if i >= 2
                && j >= 2
                && q[i - 1] == t[j - 2]
                && q[i - 2] == t[j - 1]
                && q[i - 1] != q[i - 2]
            {
                best = best.min(d[j - 2][i - 2] + u32::from(cm.transpose_cost(i - 2)));
            }
            d[j][i] = best;
        }
    }
    d
}

fn random_word(rng: &mut Rng, alpha: &[u32], max_len: usize) -> Vec<u32> {
    let len = 1 + rng.below(max_len);
    (0..len).map(|_| alpha[rng.below(alpha.len())]).collect()
}

/// Up to `ops` random substitutions, insertions, deletions and swaps.
fn mutate(rng: &mut Rng, word: &[u32], alpha: &[u32], ops: usize) -> Vec<u32> {
    let mut w = word.to_vec();
    for _ in 0..ops {
        let letter = alpha[rng.below(alpha.len())];
        match rng.below(4) {
            0 if !w.is_empty() => {
                let i = rng.below(w.len());
                w[i] = letter;
            }
            1 => {
                let i = rng.below(w.len() + 1);
                w.insert(i, letter);
            }
            2 if !w.is_empty() => {
                let i = rng.below(w.len());
                w.remove(i);
            }
            3 if w.len() > 1 => {
                let i = rng.below(w.len() - 1);
                w.swap(i, i + 1);
            }
            _ => {}
        }
    }
    w
}

/// A dictionary of 1 to 24 entries of length 1 to 9 with duplicates,
/// prefix chains and extensions of earlier entries.
fn random_dictionary(rng: &mut Rng, alpha: &[u32]) -> Vec<(String, u16)> {
    let size = 1 + rng.below(24);
    let mut words: Vec<Vec<u32>> = Vec::new();
    while words.len() < size {
        let w = match (rng.below(6), words.len()) {
            (0, n) if n > 0 => words[rng.below(n)].clone(),
            (1, n) if n > 0 => {
                let base = &words[rng.below(n)];
                base[..1 + rng.below(base.len())].to_vec()
            }
            (2, n) if n > 0 => {
                let mut w = words[rng.below(n)].clone();
                for _ in 0..1 + rng.below(3) {
                    if w.len() < 9 {
                        w.push(alpha[rng.below(alpha.len())]);
                    }
                }
                w
            }
            _ => random_word(rng, alpha, 9),
        };
        words.push(w);
    }
    words
        .into_iter()
        .map(|w| {
            let weight = if rng.below(3) == 0 {
                100
            } else {
                rng.below(65_536) as u16
            };
            let s = w.iter().filter_map(|&c| char::from_u32(c)).collect();
            (s, weight)
        })
        .collect()
}

#[derive(Default)]
struct Coverage {
    instances: usize,
    nodes: usize,
    considered: usize,
    bounded: usize,
    terminals: usize,
    terminals_within: usize,
    settled: usize,
}

/// Walks every node of `trie` for one query and checks the bound, the
/// keys and the terminal costs.
fn check_instance(
    trie: &Trie,
    cm: &CostModel,
    q: &[u32],
    budget: Cost,
    tsb: bool,
    cov: &mut Coverage,
) {
    let w = usize::from(budget / cm.c_indel_min());
    let m = q.len();
    let mut qmask = vec![0u64; m + 1];
    for i in (0..m).rev() {
        qmask[i] = qmask[i + 1] | symbol_class(q[i]);
    }
    let ex = Expander {
        trie,
        cm,
        q,
        qmask: &qmask,
        w,
        budget,
        tsb,
        prefix: false,
    };
    let rankings = [Ranking::Coarse, Ranking::Exact];

    // Exact cost of every term, and per node the smallest within-budget
    // cost and the smallest term key at or below it. Children always have
    // larger indices than their parent.
    let costs: Vec<u32> = (0..trie.len() as u32)
        .map(|id| oracle(cm, q, &syms(trie.term(id))))
        .collect();
    let n = trie.node_count();
    let mut best = vec![u32::MAX; n];
    let mut best_key = [vec![u64::MAX; n], vec![u64::MAX; n]];
    for v in (0..n).rev() {
        let tid = trie.term_id(v);
        if tid != NO_TERM && costs[tid as usize] <= u32::from(budget) {
            let c = costs[tid as usize] as Cost;
            best[v] = u32::from(c);
            for (r, keys) in rankings.iter().zip(best_key.iter_mut()) {
                keys[v] = pack(r.rank(c), trie.weight(tid), tid);
            }
        }
        for c in trie.children(v) {
            best[v] = best[v].min(best[c]);
            for keys in &mut best_key {
                keys[v] = keys[v].min(keys[c]);
            }
        }
    }

    let check_node = |v: usize, lb: Cost| {
        if best[v] != u32::MAX {
            assert!(
                u32::from(lb) <= best[v],
                "bound {lb} above the cost {} of a term below node {v} \
                 (query {q:?}, budget {budget}, tsb {tsb})",
                best[v],
            );
            for (r, keys) in rankings.iter().zip(best_key.iter()) {
                assert!(pack(r.rank(lb), trie.max_weight(v), 0) <= keys[v]);
            }
        }
    };

    cov.instances += 1;
    let (root, lb) = ex.root();
    check_node(0, lb);
    cov.nodes += 1;
    cov.considered += 1;
    cov.bounded += usize::from(best[0] != u32::MAX);
    // (node, depth, row, parent row, whether the search would push it)
    let mut stack = vec![(0usize, 0usize, root, [INF; ROW], lb <= budget)];
    while let Some((v, depth, cur, prev, pushed)) = stack.pop() {
        let tid = trie.term_id(v);
        if tid != NO_TERM {
            let c = costs[tid as usize];
            cov.terminals += 1;
            if c <= u32::from(budget) {
                cov.terminals_within += 1;
                let want = Some((tid, c as Cost));
                assert_eq!(ex.terminal(v, depth, &cur), want, "query {q:?}");
            } else {
                assert_eq!(ex.terminal(v, depth, &cur), None, "query {q:?}");
            }
        }
        for c in trie.children(v) {
            let (row, lb) = ex.child(v, depth, c, &cur, &prev);
            check_node(c, lb);
            cov.nodes += 1;
            cov.considered += usize::from(pushed);
            cov.bounded += usize::from(best[c] != u32::MAX);
            stack.push((c, depth + 1, row, cur, pushed && lb <= budget));
        }
    }
}

/// The alphabets of the property tests: ASCII ones (in the last, '!' and
/// '"' share the classes of 'a' and 'b').
const ASCII_ALPHABETS: [&str; 4] = ["aqw", "asdfqwer", "abcdefghijklmnopqrstuvwxyz", "ab!\""];

/// Non-ASCII alphabets: Latin-1 letters (narrow labels), `à` and `Ć`
/// (U+00E0 and U+0106, whose classes collide), letters of other scripts
/// and an emoji (wide labels), and ç with its ABNT2 neighbours.
const OTHER_ALPHABETS: [&str; 4] = ["aeéèçß", "aàĆc", "жзaЖ😀", "çlp.;"];

fn check_mode(tsb: bool) -> Coverage {
    check_mode_on(&ASCII_ALPHABETS, tsb)
}

fn check_mode_on(alphabets: &[&str], tsb: bool) -> Coverage {
    let mut cov = Coverage::default();
    for (a, alpha) in alphabets.iter().enumerate() {
        let alpha = &syms(alpha);
        for d in 0..150 {
            // Every layout in turn: the bound uses the model's minimum
            // costs, which must hold for any of them.
            let layouts = Layout::ALL;
            let cm = CostModel::for_layout(layouts[d as usize % layouts.len()]);
            let mut rng = Rng::new((a as u64 + 1) * 1000 + d);
            let dict = random_dictionary(&mut rng, alpha);
            let items: Vec<(&str, u16)> = dict.iter().map(|(s, w)| (s.as_str(), *w)).collect();
            let trie = Trie::build(&items).unwrap_or_else(|e| panic!("{}", e.message()));
            for _ in 0..8 {
                let q = if rng.below(4) == 0 {
                    let len = rng.below(11);
                    (0..len).map(|_| alpha[rng.below(alpha.len())]).collect()
                } else {
                    let base = &syms(&dict[rng.below(dict.len())].0);
                    let ops = rng.below(4);
                    mutate(&mut rng, base, alpha, ops)
                };
                // Band half-widths W = 0 to 6 and 8, with budgets that are not
                // multiples of 16.
                for budget in [7, 15, 16, 24, 31, 32, 40, 48, 64] {
                    check_instance(&trie, &cm, &q, budget, tsb, &mut cov);
                }
            }
        }
    }
    println!(
        "tsb {tsb}: {} instances, {} nodes checked ({} considered by the search, \
         {} with a within-budget term below), {} terminals ({} within budget)",
        cov.instances,
        cov.nodes,
        cov.considered,
        cov.bounded,
        cov.terminals,
        cov.terminals_within,
    );
    cov
}

#[test]
fn lower_bound_never_exceeds_the_oracle_without_tsb() {
    let cov = check_mode(false);
    assert!(cov.bounded > 10_000 && cov.terminals_within > 1_000);
}

#[test]
fn lower_bound_never_exceeds_the_oracle_with_tsb() {
    let cov = check_mode(true);
    assert!(cov.bounded > 10_000 && cov.terminals_within > 1_000);
}

#[test]
fn lower_bound_never_exceeds_the_oracle_on_non_ascii_alphabets() {
    for tsb in [false, true] {
        let cov = check_mode_on(&OTHER_ALPHABETS, tsb);
        assert!(cov.bounded > 10_000 && cov.terminals_within > 1_000);
    }
}

/// `D[m][j]` for every term prefix length `j` (the last column).
fn oracle_col(cm: &CostModel, q: &[u32], t: &[u32]) -> Vec<u32> {
    oracle_matrix(cm, q, t).iter().map(|r| r[q.len()]).collect()
}

/// Prefix-mode counterpart of `check_instance`. For every node it walks
/// the same way `search_prefix` does (carrying `acc`) and checks
///
/// - `lbd` (the bound on prefixes strictly longer than the node's) is at
///   most `D[m][j']` for every term below and every `j' > depth`, when
///   that is within the budget;
/// - `min(acc, lbd)` and its queue key are at most the prefix cost and key
///   of every within-budget term below;
/// - a settled node (`acc < INF && lbd >= acc`) has every term below at
///   exactly cost `acc`;
/// - at a terminal the cost `acc` equals the oracle prefix cost when that
///   is within budget, and no cost is reported otherwise.
fn check_prefix_instance(
    trie: &Trie,
    cm: &CostModel,
    q: &[u32],
    budget: Cost,
    tsb: bool,
    cov: &mut Coverage,
) {
    let w = usize::from(budget / cm.c_indel_min());
    let m = q.len();
    let mut qmask = vec![0u64; m + 1];
    for i in (0..m).rev() {
        qmask[i] = qmask[i + 1] | symbol_class(q[i]);
    }
    let ex = Expander {
        trie,
        cm,
        q,
        qmask: &qmask,
        w,
        budget,
        tsb,
        prefix: true,
    };
    let cols: Vec<Vec<u32>> = (0..trie.len() as u32)
        .map(|id| oracle_col(cm, q, &syms(trie.term(id))))
        .collect();
    let pcost: Vec<u32> = cols
        .iter()
        .map(|c| c.iter().copied().min().unwrap_or(u32::MAX))
        .collect();
    let n = trie.node_count();
    // Terms at or below each node.
    let mut below: Vec<Vec<u32>> = vec![Vec::new(); n];
    for v in (0..n).rev() {
        let tid = trie.term_id(v);
        if tid != NO_TERM {
            below[v].push(tid);
        }
        for c in trie.children(v) {
            let kids = below[c].clone();
            below[v].extend(kids);
        }
    }
    let rankings = [Ranking::Coarse, Ranking::Exact];
    let b32 = u32::from(budget);

    let mut check_node = |v: usize, depth: usize, acc: Cost, lbd: Cost| {
        let mut best = u32::MAX;
        let mut deeper = u32::MAX;
        for &t in &below[v] {
            let col = &cols[t as usize];
            let tail = &col[(depth + 1).min(col.len())..];
            deeper = deeper.min(tail.iter().copied().min().unwrap_or(u32::MAX));
            best = best.min(pcost[t as usize]);
            if pcost[t as usize] <= b32 {
                let c = pcost[t as usize] as Cost;
                for r in rankings {
                    let tk = pack(r.rank(c), trie.weight(t), t);
                    let nk = pack(r.rank(acc.min(lbd)), trie.max_weight(v), 0);
                    assert!(nk <= tk, "key above a term below node {v}, q {q:?}");
                }
            }
        }
        if deeper <= b32 {
            assert!(
                u32::from(lbd) <= deeper,
                "deeper bound {lbd} above {deeper} below node {v} at depth {depth} \
                 (query {q:?}, budget {budget}, tsb {tsb})",
            );
        }
        if best <= b32 {
            assert!(
                u32::from(acc.min(lbd)) <= best,
                "min(acc, lbd) above {best}"
            );
        }
        if acc < INF && lbd >= acc {
            cov.settled += 1;
            for &t in &below[v] {
                assert_eq!(
                    pcost[t as usize],
                    u32::from(acc),
                    "settled node {v} has a term of another cost (query {q:?}, budget {budget})"
                );
            }
        }
        best <= b32
    };

    cov.instances += 1;
    let (root, lbd) = ex.root();
    let acc = ex.prefix_cell(0, &root);
    let b = check_node(0, 0, acc, lbd);
    cov.nodes += 1;
    cov.bounded += usize::from(b);
    let mut stack = vec![(0usize, 0usize, root, [INF; ROW], acc)];
    while let Some((v, depth, cur, prev, acc)) = stack.pop() {
        let tid = trie.term_id(v);
        if tid != NO_TERM {
            cov.terminals += 1;
            let c = pcost[tid as usize];
            if c <= b32 {
                cov.terminals_within += 1;
                assert_eq!(u32::from(acc), c, "terminal cost, query {q:?}");
            } else {
                assert!(acc > budget, "terminal reported beyond the budget");
            }
        }
        for c in trie.children(v) {
            let (row, lbd) = ex.child(v, depth, c, &cur, &prev);
            let acc_c = acc.min(ex.prefix_cell(depth + 1, &row));
            let b = check_node(c, depth + 1, acc_c, lbd);
            cov.nodes += 1;
            cov.bounded += usize::from(b);
            stack.push((c, depth + 1, row, cur, acc_c));
        }
    }
}

fn check_prefix_mode(tsb: bool) -> Coverage {
    check_prefix_mode_on(&ASCII_ALPHABETS, tsb, false)
}

/// With `all_layouts`, dictionary `d` uses layout `d % 6` (the ASCII run
/// keeps QWERTY, so that the counts quoted in `prefix-mode.md` hold).
fn check_prefix_mode_on(alphabets: &[&str], tsb: bool, all_layouts: bool) -> Coverage {
    let mut cov = Coverage::default();
    for (a, alpha) in alphabets.iter().enumerate() {
        let alpha = &syms(alpha);
        for d in 0..150 {
            let cm = if all_layouts {
                CostModel::for_layout(Layout::ALL[d as usize % Layout::ALL.len()])
            } else {
                CostModel::qwerty()
            };
            let mut rng = Rng::new((a as u64 + 1) * 1000 + d);
            let dict = random_dictionary(&mut rng, alpha);
            let items: Vec<(&str, u16)> = dict.iter().map(|(s, w)| (s.as_str(), *w)).collect();
            let trie = Trie::build(&items).unwrap_or_else(|e| panic!("{}", e.message()));
            for _ in 0..8 {
                let q = if rng.below(4) == 0 {
                    let len = rng.below(11);
                    (0..len).map(|_| alpha[rng.below(alpha.len())]).collect()
                } else {
                    // A truncated dictionary entry with 0 to 3 edits.
                    let base = &syms(&dict[rng.below(dict.len())].0);
                    let cut = 1 + rng.below(base.len());
                    let ops = rng.below(4);
                    mutate(&mut rng, &base[..cut], alpha, ops)
                };
                for budget in [7, 15, 16, 24, 31, 32, 40, 48, 64] {
                    check_prefix_instance(&trie, &cm, &q, budget, tsb, &mut cov);
                }
            }
        }
    }
    println!(
        "prefix, tsb {tsb}: {} instances, {} nodes checked ({} with a within-budget \
         term below, {} settled), {} terminals ({} within budget)",
        cov.instances,
        cov.nodes,
        cov.bounded,
        cov.settled,
        cov.terminals,
        cov.terminals_within,
    );
    cov
}

#[test]
fn prefix_bound_never_exceeds_the_oracle_without_tsb() {
    let cov = check_prefix_mode(false);
    assert!(cov.bounded > 10_000 && cov.terminals_within > 1_000 && cov.settled > 1_000);
}

#[test]
fn prefix_bound_never_exceeds_the_oracle_with_tsb() {
    let cov = check_prefix_mode(true);
    assert!(cov.bounded > 10_000 && cov.terminals_within > 1_000 && cov.settled > 1_000);
}

#[test]
fn prefix_bound_never_exceeds_the_oracle_on_non_ascii_alphabets() {
    for tsb in [false, true] {
        let cov = check_prefix_mode_on(&OTHER_ALPHABETS, tsb, true);
        assert!(cov.bounded > 10_000 && cov.terminals_within > 1_000 && cov.settled > 1_000);
    }
}
