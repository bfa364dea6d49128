use lib::cgl::tree::PruneConfig;
use lib::legacy::error::Error;
use lib::legacy::index::{match_ranges, to_lower, token_hits, tokens, TermIndex, MAX_K};

fn candidates(ix: &mut TermIndex, q: &str) -> Vec<(usize, usize)> {
    ix.prepare();
    let q = to_lower(q.as_bytes());
    ix.candidates(&q, &PruneConfig::none())
}

#[test]
fn legacy_empty_input_errors() {
    let terms: Vec<&str> = vec![];
    assert!(matches!(TermIndex::build(&terms, 2), Err(Error::EmptyInput)));
}

#[test]
fn k_too_large_errors() {
    let terms = vec!["hello", "world"];
    let result = TermIndex::build(&terms, 5);
    assert!(matches!(result, Err(Error::KTooLarge { k: 5, max: 4 })), "k=5 should be rejected");
    assert!(TermIndex::build(&terms, MAX_K).is_ok());
}

#[test]
fn legacy_small_dataset_uses_brute() {
    let terms = vec!["a", "b", "c"];
    let mut idx = TermIndex::build(&terms, 1).unwrap();
    assert!(!idx.stats().has_tree);
    idx.prepare();
    assert!(!idx.stats().has_tree);
    assert_eq!(idx.stats().num_terms, 3);
    assert_eq!(idx.stats().max_mismatches, 1);
}

#[test]
fn large_dataset_builds_tree() {
    let terms: Vec<String> = (0..6000).map(|i| format!("term{:05}", i)).collect();
    let refs: Vec<&str> = terms.iter().map(|s| s.as_str()).collect();
    let mut idx = TermIndex::build(&refs, 2).unwrap();
    // the tree is built on demand, not by `build`
    assert!(!idx.stats().has_tree);
    let results = candidates(&mut idx, "term03000");
    assert!(!results.is_empty());
    assert!(results.contains(&(3000, 0)));
    assert!(idx.stats().has_tree);
}

#[test]
fn legacy_finds_deletion_typo() {
    let mut idx = TermIndex::build(&["javascript", "typescript", "python"], 2).unwrap();
    assert!(candidates(&mut idx, "javasript").contains(&(0, 1)));
}

#[test]
fn legacy_finds_transposition_typo() {
    let mut idx = TermIndex::build(&["javascript", "typescript", "python"], 2).unwrap();
    assert!(candidates(&mut idx, "javsacript").contains(&(0, 2)));
}

#[test]
fn legacy_finds_insertion_typo() {
    let mut idx = TermIndex::build(&["javascript", "typescript", "python"], 2).unwrap();
    assert!(candidates(&mut idx, "javasccript").contains(&(0, 1)));
}

#[test]
fn matching_ignores_ascii_case() {
    let mut idx = TermIndex::build(&["JavaScript", "Rust"], 1).unwrap();
    assert_eq!(idx.term(0), b"javascript");
    assert_eq!(idx.display(0), "JavaScript");
    assert!(candidates(&mut idx, "RUST").contains(&(1, 0)));
}

#[test]
fn swaps_cost_one_in_the_close_pass() {
    // "ab" + "cd" swapped twice is two edits for the alignment distance;
    // the scan sees four differing positions
    let mut idx = TermIndex::build(&["abcdef"], 2).unwrap();
    let c = candidates(&mut idx, "bacdfe");
    assert_eq!(c, vec![(0, 2)]);
}

#[test]
fn add_remove_and_remove_where_keep_the_terms_in_order() {
    let mut idx = TermIndex::build(&["alpha", "beta", "gamma"], 1).unwrap();
    idx.prepare();
    idx.add("Delta");
    assert_eq!(idx.len(), 4);
    assert!(!idx.stats().has_tree);
    assert_eq!(idx.term(3), b"delta");
    idx.remove(1);
    assert_eq!(idx.export().0, vec!["alpha".to_string(), "gamma".to_string(), "Delta".to_string()]);
    idx.remove(10);
    assert_eq!(idx.len(), 3);
    let removed = idx.remove_where(|s: &str| s.starts_with('g') || s.starts_with('D'));
    assert_eq!(removed, 2);
    assert_eq!(idx.export(), (vec!["alpha".to_string()], 1));
    assert_eq!(idx.remove_where(|_s: &str| false), 0);
    assert!(candidates(&mut idx, "alpha").contains(&(0, 0)));
}

#[test]
fn import_rebuilds_an_exported_index() {
    let idx = TermIndex::build(&["One", "two"], 3).unwrap();
    let (terms, k) = idx.export();
    let back = TermIndex::import(&terms, k).unwrap();
    assert_eq!(back.export(), (vec!["One".to_string(), "two".to_string()], 3));
    assert!(matches!(TermIndex::import(&[], 1), Err(Error::EmptyInput)));
}

#[test]
fn match_ranges_are_the_agreeing_runs() {
    assert_eq!(match_ranges(b"hello", b"hallo"), vec![(0, 1), (2, 5)]);
    assert_eq!(match_ranges(b"abc", b"abcdef"), vec![(0, 3)]);
    assert_eq!(match_ranges(b"xyz", b"abc"), vec![]);
    assert_eq!(match_ranges(b"", b"abc"), vec![]);
    assert_eq!(match_ranges(b"axcx", b"bxdx"), vec![(1, 2), (3, 4)]);
}

#[test]
fn tokens_keep_words_of_two_bytes_or_more() {
    assert_eq!(tokens(b"new  york a city"), vec![b"new".to_vec(), b"york".to_vec(), b"city".to_vec()]);
    assert_eq!(tokens(b"ab"), vec![b"ab".to_vec()]);
    assert!(tokens(b"a b ").is_empty());
}

#[test]
fn token_hits_counts_fuzzy_occurrences() {
    let toks = tokens(b"york city");
    assert_eq!(token_hits(b"newyorkcity", &toks, 0), 2);
    assert_eq!(token_hits(b"newyarkcoty", &toks, 0), 0);
    assert_eq!(token_hits(b"newyarkcoty", &toks, 1), 2);
    assert_eq!(token_hits(b"yo", &toks, 4), 0);
}

#[test]
fn token_fallback_counts_words_in_unseen_terms() {
    let terms = vec!["new york city", "york", "boston", "new jersey"];
    let ix = TermIndex::build(&terms, 1).unwrap();
    let seen = vec![false, true, false, false];
    // "york" is seen already; "boston" matches neither word.
    assert_eq!(ix.token_fallback(b"new york", &seen, 1), vec![(0, 2), (3, 1)]);
    // One word, or no space: no fallback.
    assert_eq!(ix.token_fallback(b"newyork", &seen, 1), vec![]);
    assert_eq!(ix.token_fallback(b"new x", &seen, 1), vec![]);
}
