use lib::legacy::columnar::ColumnarTerms;
use lib::legacy::fingerprint::{compute, could_be_close, could_be_deletion, could_be_insertion, diff};
use lib::legacy::normalize::strip_diacritics;
use lib::legacy::query::{matches_op, parse, parse_logical, QueryOp};
use lib::legacy::variants::{deletion_variants, transposition_variants};
use lib::legacy::inverter::FunctionInverter;
use lib::legacy::scorer::count_transpositions;

#[test]
fn columnar_exact_match() {
    let col = ColumnarTerms::build(&[b"hello".to_vec(), b"world".to_vec()]);
    let r = col.scan(b"hello", 0);
    assert_eq!(r, vec![(0, 0)]);
}

#[test]
fn columnar_one_mismatch() {
    let col = ColumnarTerms::build(&[b"hello".to_vec(), b"hallo".to_vec(), b"hullo".to_vec()]);
    let r = col.scan(b"hello", 1);
    assert_eq!(r.len(), 3);
}

#[test]
fn columnar_respects_max_distance() {
    let col = ColumnarTerms::build(&[b"aaaa".to_vec(), b"bbbb".to_vec()]);
    assert_eq!(col.scan(b"aaaa", 1).len(), 1);
}

#[test]
fn different_lengths() {
    let col = ColumnarTerms::build(&[b"ab".to_vec(), b"abc".to_vec(), b"abcd".to_vec()]);
    assert_eq!(col.scan(b"abc", 1).len(), 3);
}

#[test]
fn columnar_empty_query() {
    let col = ColumnarTerms::build(&[b"a".to_vec(), b"bb".to_vec()]);
    assert_eq!(col.scan(b"", 1).len(), 1); // only "a" within distance 1
}

#[test]
fn fingerprint_identical() {
    assert_eq!(diff(&compute(b"hello"), &compute(b"hello")), 0);
}

#[test]
fn anagram() {
    assert_eq!(diff(&compute(b"listen"), &compute(b"silent")), 0);
}

#[test]
fn fingerprint_deletion() {
    assert!(could_be_deletion(&compute(b"javasript"), &compute(b"javascript"), 9, 10));
}

#[test]
fn insertion() {
    assert!(could_be_insertion(&compute(b"javasccript"), &compute(b"javascript"), 11, 10));
}

#[test]
fn fingerprint_substitution_not_deletion() {
    assert!(!could_be_deletion(&compute(b"javoscript"), &compute(b"javascript"), 10, 10));
}

#[test]
fn transposition_same_fp() {
    assert_eq!(diff(&compute(b"javsacript"), &compute(b"javascript")), 0);
}

#[test]
fn close_filter() {
    assert!(could_be_close(&compute(b"javasript"), &compute(b"javascript"), 9, 10));
    assert!(!could_be_close(&compute(b"javasript"), &compute(b"python"), 9, 6));
}

#[test]
fn close_filter_admits_two_substitutions() {
    assert!(could_be_close(&compute(b"ab"), &compute(b"cd"), 2, 2));
    assert!(!could_be_close(&compute(b"abc"), &compute(b"xyz"), 3, 3));
}

#[test]
fn numbers() {
    assert_eq!(diff(&compute(b"v1.0.0"), &compute(b"v1.0.1")), 2);
}

#[test]
fn symbols() {
    assert_eq!(diff(&compute(b"hello@world"), &compute(b"hello#world")), 2);
}

#[test]
fn spaces() {
    assert!(could_be_deletion(&compute(b"helloworld"), &compute(b"hello world"), 10, 11));
}

#[test]
fn basic_accents() {
    assert_eq!(strip_diacritics("café"), "cafe");
    assert_eq!(strip_diacritics("naïve"), "naive");
    assert_eq!(strip_diacritics("résumé"), "resume");
}

#[test]
fn german() {
    assert_eq!(strip_diacritics("über"), "uber");
    assert_eq!(strip_diacritics("straße"), "strasse");
    assert_eq!(strip_diacritics("Ärger"), "Arger");
}

#[test]
fn spanish() {
    assert_eq!(strip_diacritics("España"), "Espana");
    assert_eq!(strip_diacritics("niño"), "nino");
}

#[test]
fn no_accents_unchanged() {
    assert_eq!(strip_diacritics("hello world"), "hello world");
    assert_eq!(strip_diacritics("12345"), "12345");
}

#[test]
fn mixed() {
    assert_eq!(strip_diacritics("Łódź"), "Lodz");
    assert_eq!(strip_diacritics("Zürich"), "Zurich");
}

#[test]
fn parse_fuzzy() {
    assert_eq!(parse("hello"), vec![QueryOp::Fuzzy("hello".into())]);
}

#[test]
fn parse_exact() {
    assert_eq!(parse("=hello"), vec![QueryOp::Exact("hello".into())]);
}

#[test]
fn parse_prefix() {
    assert_eq!(parse("^java"), vec![QueryOp::Prefix("java".into())]);
}

#[test]
fn parse_suffix() {
    assert_eq!(parse("script$"), vec![QueryOp::Suffix("script".into())]);
}

#[test]
fn parse_not() {
    assert_eq!(parse("!python"), vec![QueryOp::Not("python".into())]);
}

#[test]
fn parse_not_prefix() {
    assert_eq!(parse("!^java"), vec![QueryOp::NotPrefix("java".into())]);
}

#[test]
fn parse_not_suffix() {
    assert_eq!(parse("!script$"), vec![QueryOp::NotSuffix("script".into())]);
}

#[test]
fn parse_multi() {
    let ops = parse("^java !python");
    assert_eq!(ops.len(), 2);
    assert_eq!(ops[0], QueryOp::Prefix("java".into()));
    assert_eq!(ops[1], QueryOp::Not("python".into()));
}

#[test]
fn matches_exact() {
    assert!(matches_op("hello", &QueryOp::Exact("hello".into())));
    assert!(!matches_op("hello", &QueryOp::Exact("world".into())));
}

#[test]
fn matches_prefix() {
    assert!(matches_op("javascript", &QueryOp::Prefix("java".into())));
    assert!(!matches_op("typescript", &QueryOp::Prefix("java".into())));
}

#[test]
fn matches_suffix() {
    assert!(matches_op("javascript", &QueryOp::Suffix("script".into())));
    assert!(!matches_op("python", &QueryOp::Suffix("script".into())));
}

#[test]
fn matches_not() {
    assert!(matches_op("rust", &QueryOp::Not("python".into())));
    assert!(!matches_op("python", &QueryOp::Not("python".into())));
}

#[test]
fn logical_or() {
    let expr = parse_logical("java | python");
    assert!(expr.matches("javascript"));
    assert!(expr.matches("python"));
    assert!(!expr.matches("rust"));
}

#[test]
fn logical_and() {
    let expr = parse_logical("^java script$");
    assert!(expr.matches("javascript"));
    assert!(!expr.matches("javafx"));
    assert!(!expr.matches("typescript"));
}

#[test]
fn logical_or_with_and() {
    let expr = parse_logical("^java | ^type");
    assert!(expr.matches("javascript"));
    assert!(expr.matches("typescript"));
    assert!(!expr.matches("python"));
}

#[test]
fn variants_deletion() {
    let v = deletion_variants(b"abc");
    assert_eq!(v, vec![b"bc".to_vec(), b"ac".to_vec(), b"ab".to_vec()]);
}

#[test]
fn transposition() {
    let v = transposition_variants(b"abc");
    assert_eq!(v, vec![b"bac".to_vec(), b"acb".to_vec()]);
}

#[test]
fn deletion_empty() {
    assert!(deletion_variants(b"").is_empty());
}

#[test]
fn transposition_single() {
    assert!(transposition_variants(b"a").is_empty());
}

#[test]
fn transposition_skips_repeated() {
    let v = transposition_variants(b"aab");
    assert_eq!(v, vec![b"aba".to_vec()]);
}

#[test]
fn simple_inversion() {
    // f(i) = i / 3 (groups of 3 map to same value)
    let n = 12;
    let f = |i: usize| -> Option<usize> { Some(i / 3) };
    let inv = FunctionInverter::build(n, 3, &f);

    let preimage = inv.invert(1, &f); // f⁻¹(1) should be {3, 4, 5}
    for i in 3..=5 {
        assert!(preimage.contains(&i), "expected {i} in preimage of 1");
    }
}

#[test]
fn inversion_finds_only_preimages_each_once() {
    let n = 40;
    let f = |i: usize| -> Option<usize> { if i % 5 == 0 { None } else { Some(i % 7) } };
    let inv = FunctionInverter::build(n, 2, &f);
    for j in 0..8 {
        let pre = inv.invert(j, &f);
        for &i in &pre {
            assert_eq!(f(i), Some(j));
        }
        let mut sorted = pre.clone();
        sorted.sort();
        sorted.dedup();
        assert_eq!(sorted.len(), pre.len());
    }
}

#[test]
fn inversion_with_no_chains_stores_every_input() {
    // sigma = 0: chains take no step, so every input is stored directly
    let f = |i: usize| -> Option<usize> { Some(i % 3) };
    let inv = FunctionInverter::build(9, 0, &f);
    let mut pre = inv.invert(2, &f);
    pre.sort();
    assert_eq!(pre, vec![2, 5, 8]);
}

#[test]
fn transpositions_are_counted_left_to_right() {
    assert_eq!(count_transpositions(b"teh", b"the"), 1);
    assert_eq!(count_transpositions(b"abab", b"baba"), 2);
    // "aab" against "aba": the swap at 1 is found, the scan skips past it
    assert_eq!(count_transpositions(b"aab", b"aba"), 1);
    assert_eq!(count_transpositions(b"aa", b"aa"), 0);
    assert_eq!(count_transpositions(b"a", b"b"), 0);
    assert_eq!(count_transpositions(b"bac", b"ab"), 1);
}

#[test]
fn inverter_finds_every_preimage() {
    let f = |i: usize| Some(i / 3);
    let inv = FunctionInverter::build(12, 3, &f);
    for j in 0..4 {
        let mut r = inv.invert(j, &f);
        r.sort();
        assert_eq!(r, vec![3 * j, 3 * j + 1, 3 * j + 2]);
    }
    assert!(inv.invert(7, &f).is_empty());
    let g = |i: usize| if i % 2 == 0 { Some(i % 5) } else { None };
    let inv = FunctionInverter::build(40, 4, &g);
    let mut r = inv.invert(3, &g);
    r.sort();
    assert_eq!(r, vec![8, 18, 28, 38]);
}
