use lib::cgl::altered::AlteredString;
use lib::cgl::error::Error;
use lib::cgl::index::{tree_sigma, TermIndex};
use lib::cgl::tree::{build, build_leaf_map, node_count, query_with_pruning, PruneConfig};

fn make_strings(words: &[&str]) -> Vec<AlteredString> {
    words.iter().enumerate()
        .map(|(i, w)| AlteredString::new(w.as_bytes(), Some(i)))
        .collect()
}

#[test]
fn tree_exact_match() {
    let terms = make_strings(&["apple", "banana", "cherry", "date", "elderberry"]);
    let root = build(terms, 2, 2);
    let q = AlteredString::new(b"cherry", None);
    let matches = query_with_pruning(root.as_ref(), &q, 0, &PruneConfig::none());
    assert!(matches.iter().any(|m| m.origin == 2 && m.distance == 0));
}

#[test]
fn tree_one_mismatch() {
    let terms = make_strings(&["rust", "dust", "must", "gust", "bust"]);
    let root = build(terms, 2, 2);
    let q = AlteredString::new(b"rust", None);
    let matches = query_with_pruning(root.as_ref(), &q, 1, &PruneConfig::none());
    assert!(matches.iter().any(|m| m.origin == 0 && m.distance == 0));
}

#[test]
fn tree_no_match_beyond_radius() {
    let terms = make_strings(&["aaaa", "bbbb", "cccc"]);
    let root = build(terms, 2, 1);
    let q = AlteredString::new(b"zzzz", None);
    let matches = query_with_pruning(root.as_ref(), &q, 1, &PruneConfig::none());
    assert!(matches.is_empty(), "nothing within distance 1 of zzzz");
}

/// The plausibility table of a confusion matrix at a threshold.
fn table(confusion: &[[f32; 26]; 26], threshold: f32) -> Vec<bool> {
    let mut t = Vec::new();
    for a in 0..26 {
        for b in 0..26 {
            t.push(confusion[a][b] >= threshold);
        }
    }
    t
}

#[test]
fn tree_pruning_reduces_results() {
    // with a strict confusion matrix, implausible mismatches get pruned
    let terms = make_strings(&["abc", "axc", "azc", "apc"]);
    let root = build(terms, 2, 1);
    let q = AlteredString::new(b"abc", None);

    // without pruning
    let all = query_with_pruning(root.as_ref(), &q, 1, &PruneConfig::none());

    // with pruning: only adjacent-key mismatches are plausible
    let mut confusion = [[0.01f32; 26]; 26];
    for i in 0..26 { confusion[i][i] = 1.0; }
    // only b↔x is "plausible" (threshold 0.1)
    confusion[1][23] = 0.5; // b→x
    confusion[23][1] = 0.5; // x→b

    let config = PruneConfig::from_table(table(&confusion, 0.1));
    let pruned = query_with_pruning(root.as_ref(), &q, 1, &config);

    // pruned should have fewer or equal results
    assert!(pruned.len() <= all.len(),
        "pruned ({}) should have ≤ results than all ({})", pruned.len(), all.len());
}

#[test]
fn lazy_construction_works() {
    let words: Vec<String> = (0..100).map(|i| format!("word{:04}", i)).collect();
    let terms = make_strings(&words.iter().map(|s| s.as_str()).collect::<Vec<_>>());
    let root = build(terms, 2, 2);
    assert!(root.is_some());

    let q = AlteredString::new(b"word0050", None);
    let matches = query_with_pruning(root.as_ref(), &q, 1, &PruneConfig::none());
    assert!(matches.iter().any(|m| m.origin == 50));
}

#[test]
fn every_tree_match_is_within_the_radius() {
    let words: Vec<String> = (0..60).map(|i| format!("k{:03}", i * 7)).collect();
    let terms = make_strings(&words.iter().map(|s| s.as_str()).collect::<Vec<_>>());
    let root = build(terms, 2, 3);
    let q = AlteredString::new(b"k140", None);
    for m in query_with_pruning(root.as_ref(), &q, 1, &PruneConfig::none()) {
        let w = words[m.origin].as_bytes();
        let d = w.iter().zip(b"k140".iter()).filter(|(a, b)| a != b).count();
        assert!(m.distance <= 1 && d == m.distance, "{} at {}", words[m.origin], m.distance);
    }
}

#[test]
fn leaf_map_labels_only_stored_terms() {
    let terms = make_strings(&["aa", "ab", "ba", "bb", "ca"]);
    let root = build(terms, 1, 2);
    let map = build_leaf_map(root.as_ref());
    // pivots sit in inner nodes; the strings of the leaves get labels
    assert!(!map.is_empty());
    for (&origin, _) in &map {
        assert!(origin < 5, "unknown origin {origin}");
    }
    assert!(node_count(root.as_ref()) >= 1);
    assert_eq!(node_count(None), 0);
}

#[test]
fn tree_sigma_is_the_rounded_up_log() {
    // 2^17 > 100_001 > 2^16
    assert_eq!(tree_sigma(100_000, 2), 9);
    assert_eq!(tree_sigma(100_000, 4), 5);
    assert_eq!(tree_sigma(100_000, 0), 17);
    assert_eq!(tree_sigma(3, 5), 2);
    assert_eq!(tree_sigma(usize::MAX, 1), 64);
}

fn candidates(ix: &TermIndex, q: &str) -> Vec<(usize, usize)> {
    ix.candidates(q.as_bytes(), &PruneConfig::none())
}

#[test]
fn index_empty_input_errors() {
    let terms: Vec<&str> = vec![];
    let result = TermIndex::build(&terms, 2);
    assert!(matches!(result, Err(Error::EmptyInput)));
}

#[test]
fn index_small_dataset_uses_brute() {
    let terms = vec!["a", "b", "c"];
    let idx = TermIndex::build(&terms, 1).unwrap();
    assert_eq!(idx.stats().strategy, "brute");
    assert_eq!(idx.stats().num_terms, 3);
    assert_eq!(idx.stats().max_mismatches, 1);
    assert_eq!(idx.stats().sigma, 0);
    assert_eq!(idx.stats().tree_nodes, 0);
    assert_eq!(idx.stats().leaf_count, 0);
}

#[test]
fn index_finds_deletion_typo() {
    let terms = vec!["javascript", "typescript", "python"];
    let idx = TermIndex::build(&terms, 2).unwrap();
    let c = candidates(&idx, "javasript");
    assert!(c.contains(&(0, 1)), "got {c:?}");
}

#[test]
fn index_finds_transposition_typo() {
    let terms = vec!["javascript", "typescript", "python"];
    let idx = TermIndex::build(&terms, 2).unwrap();
    let c = candidates(&idx, "javsacript");
    assert!(c.contains(&(0, 2)), "got {c:?}");
}

#[test]
fn index_finds_insertion_typo() {
    let terms = vec!["javascript", "typescript", "python"];
    let idx = TermIndex::build(&terms, 2).unwrap();
    let c = candidates(&idx, "javasccript");
    assert!(c.iter().any(|&(i, d)| i == 0 && d == 1), "got {c:?}");
}

#[test]
fn brute_candidates_name_each_term_once() {
    let terms = vec!["hello", "hallo", "hullo", "jello", "hello", "help", "world"];
    let idx = TermIndex::build(&terms, 2).unwrap();
    let c = candidates(&idx, "hello");
    let mut ids: Vec<usize> = c.iter().map(|&(i, _)| i).collect();
    ids.sort();
    ids.dedup();
    assert_eq!(ids.len(), c.len());
    assert!(c.contains(&(0, 0)) && c.contains(&(4, 0)));
    assert!(c.contains(&(1, 1)) && c.contains(&(2, 1)) && c.contains(&(3, 1)));
    // "help" is at scan distance 2 (one substitution, one length)
    assert!(c.contains(&(5, 2)));
    assert!(!c.iter().any(|&(i, _)| i == 6));
}

#[test]
fn radius_one_skips_the_edit_distance_pass() {
    // "abcd" vs "bacde": scan distance 4, Levenshtein 3; neither within 1
    let idx = TermIndex::build(&["bacde", "abd"], 1).unwrap();
    let c = candidates(&idx, "abcd");
    // "abd" is "abcd" with one byte dropped
    assert_eq!(c, vec![(1, 1)]);
}

#[test]
fn large_lists_use_the_tree() {
    let words: Vec<String> = (0..100_000).map(|i| format!("t{:06}", i)).collect();
    let refs: Vec<&str> = words.iter().map(|s| s.as_str()).collect();
    let idx = TermIndex::build(&refs, 1).unwrap();
    let s = idx.stats();
    assert_eq!(s.strategy, "tree");
    assert_eq!(s.sigma, 17);
    assert!(s.tree_nodes > 0 && s.leaf_count > 0);
    let c = candidates(&idx, "t004242");
    assert!(c.contains(&(4242, 0)), "got {c:?}");
    for &(i, d) in &c {
        assert!(d <= 1, "{} at {}", words[i], d);
    }
}

#[test]
fn inverter_recovers_terms() {
    let terms: Vec<&str> = (0..50).map(|i| match i % 5 {
        0 => "apple",
        1 => "apply",
        2 => "ample",
        3 => "ankle",
        _ => "angle",
    }).collect();
    let idx = TermIndex::build(&terms, 2).unwrap();
    let c = candidates(&idx, "apple");
    assert!(!c.is_empty());
    // every "apple" is found exactly, every "apply" and "ample" one edit away
    for i in 0..50 {
        match i % 5 {
            0 => assert!(c.contains(&(i, 0))),
            1 | 2 => assert!(c.contains(&(i, 1))),
            _ => {}
        }
    }
}

#[test]
fn resolve_reports_reached_terms_and_one_edit_terms() {
    let terms = ["hello", "help", "world"];
    let ix = TermIndex::build(&terms, 1).unwrap();
    // "help" reached by the tree at scan distance 1; "hello" not reached but
    // one byte longer than the query; "world" neither.
    let out = ix.resolve_candidates(b"helo", &vec![false, true, false]);
    assert_eq!(out, vec![(1, 1), (0, 1)]);
    // Nothing reached: only the confirmed deletion is left.
    let out = ix.resolve_candidates(b"helo", &vec![false, false, false]);
    assert_eq!(out, vec![(0, 1)]);
    // A reached term beyond the radius is dropped.
    let out = ix.resolve_candidates(b"helo", &vec![false, false, true]);
    assert_eq!(out, vec![(0, 1)]);
}

#[test]
fn small_inputs_build_a_single_leaf() {
    assert_eq!(node_count(None), 0);
    let root = build(make_strings(&["apple", "apply", "ample"]), 2, 8);
    assert_eq!(node_count(root.as_ref()), 1);
    let root = build(make_strings(&["a", "b", "c", "d", "e", "f"]), 0, 2);
    // With no alterations allowed an inner node has at most its four
    // unaltered children.
    assert!(node_count(root.as_ref()) >= 2);
}
