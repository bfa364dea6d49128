use lib::cgl::altered::{hamming, lcp, pivot_alter, AlteredString};
use lib::cgl::columnar::ColumnarTerms;
use lib::cgl::fingerprint::{compute, could_be_close, could_be_deletion, could_be_insertion, diff};
use lib::cgl::variants::{deletion_variants, transposition_variants};
use lib::cgl::encoding::TypoEncoding;
use lib::cgl::KeyboardLayout;

#[test]
fn hamming_identical() {
    let a = AlteredString::new(b"hello", None);
    let b = AlteredString::new(b"hello", None);
    assert_eq!(hamming(&a, &b), 0);
}

#[test]
fn hamming_one_diff() {
    let a = AlteredString::new(b"hello", None);
    let b = AlteredString::new(b"hallo", None);
    assert_eq!(hamming(&a, &b), 1);
}

#[test]
fn pivot_alter_reduces_distance() {
    let s = AlteredString::new(b"abc", None);
    let pivot = AlteredString::new(b"axc", None);
    let query = AlteredString::new(b"axc", None);

    let before = hamming(&s, &query);
    let altered = pivot_alter(&s, &pivot);
    let after = hamming(&altered, &query);

    assert!(after < before, "pivot-alter should reduce distance");
}

#[test]
fn lcp_basic() {
    let a = AlteredString::new(b"javascript", None);
    let b = AlteredString::new(b"javelin", None);
    assert_eq!(lcp(&a, &b), 3);
}

#[test]
fn cached_stays_in_sync() {
    let s = AlteredString::new(b"hello", None);
    let altered = s.with_alteration(1, b'a');
    assert_eq!(altered.as_bytes(), b"hallo");
}

#[test]
fn handles_different_lengths() {
    let terms = vec![b"ab".to_vec(), b"abc".to_vec(), b"abcd".to_vec()];
    let col = ColumnarTerms::build(&terms);
    let results = col.scan(b"abc", 1);
    // "ab" = 1 (length diff), "abc" = 0 (exact), "abcd" = 1 (length diff)
    assert_eq!(results.len(), 3);
}

#[test]
fn columnar_reports_ids_and_distances() {
    let terms = vec![b"hello".to_vec(), b"hallo".to_vec(), b"hullo".to_vec()];
    let col = ColumnarTerms::build(&terms);
    let results = col.scan(b"hello", 1);
    assert!(results.iter().any(|&(i, d)| i == 0 && d == 0));
    assert!(results.iter().any(|&(i, d)| i == 1 && d == 1));
    assert!(results.iter().any(|&(i, d)| i == 2 && d == 1));
    let results = ColumnarTerms::build(&[b"a".to_vec(), b"bb".to_vec()]).scan(b"", 1);
    assert_eq!(results, vec![(0, 1)]);
}

#[test]
fn identical_fingerprints() {
    let a = compute(b"hello");
    let b = compute(b"hello");
    let (total, positions) = diff(&a, &b);
    assert_eq!(total, 0);
    assert_eq!(positions, 0);
}

#[test]
fn anagram_same_fingerprint() {
    let a = compute(b"listen");
    let b = compute(b"silent");
    let (total, _) = diff(&a, &b);
    assert_eq!(total, 0);
}

#[test]
fn deletion_detected() {
    let query = compute(b"javasript");
    let term = compute(b"javascript");
    assert!(could_be_deletion(&query, &term, 9, 10));
}

#[test]
fn insertion_detected() {
    let query = compute(b"javasccript");
    let term = compute(b"javascript");
    assert!(could_be_insertion(&query, &term, 11, 10));
}

#[test]
fn substitution_not_deletion() {
    let query = compute(b"javoscript");
    let term = compute(b"javascript");
    assert!(!could_be_deletion(&query, &term, 10, 10));
}

#[test]
fn two_substitutions_pass_the_close_filter() {
    assert!(could_be_close(&compute(b"ab"), &compute(b"cd"), 2, 2));
    assert!(!could_be_close(&compute(b"abc"), &compute(b"xyz"), 3, 3));
}

#[test]
fn transposition_same_fingerprint() {
    let query = compute(b"javsacript");
    let term = compute(b"javascript");
    let (total, _) = diff(&query, &term);
    assert_eq!(total, 0);
}

#[test]
fn close_filter_works() {
    let query = compute(b"javasript");
    let term = compute(b"javascript");
    assert!(could_be_close(&query, &term, 9, 10));

    let far = compute(b"python");
    assert!(!could_be_close(&query, &far, 9, 6));
}

#[test]
fn deletion_produces_correct_variants() {
    let v = deletion_variants(b"abc");
    assert_eq!(v.len(), 3);
    assert_eq!(v[0], b"bc");
    assert_eq!(v[1], b"ac");
    assert_eq!(v[2], b"ab");
}

#[test]
fn transposition_produces_correct_variants() {
    let v = transposition_variants(b"abc");
    assert_eq!(v.len(), 2);
    assert_eq!(v[0], b"bac");
    assert_eq!(v[1], b"acb");
}

#[test]
fn deletion_empty_word() {
    let v = deletion_variants(b"");
    assert!(v.is_empty());
}

#[test]
fn transposition_single_char() {
    let v = transposition_variants(b"a");
    assert!(v.is_empty());
}

#[test]
fn transposition_skips_repeated_chars() {
    let v = transposition_variants(b"aab");
    assert_eq!(v.len(), 1);
    assert_eq!(v[0], b"aba");
}

#[test]
fn vowels_close() {
    let enc = TypoEncoding::from_layout(KeyboardLayout::Qwerty);
    let ae = (enc.encode_byte(b'a') ^ enc.encode_byte(b'e')).count_ones();
    let az = (enc.encode_byte(b'a') ^ enc.encode_byte(b'z')).count_ones();
    assert!(ae < az);
}

#[test]
fn identical_zero() {
    let enc = TypoEncoding::from_layout(KeyboardLayout::Qwerty);
    let a = enc.encode_str(b"hello");
    assert_eq!(TypoEncoding::bit_distance(&a, &a), 0);
}

#[test]
fn case_insensitive() {
    let enc = TypoEncoding::from_layout(KeyboardLayout::Qwerty);
    assert_eq!(enc.encode_byte(b'a'), enc.encode_byte(b'A'));
}

#[test]
fn neighbors_closer() {
    let enc = TypoEncoding::from_layout(KeyboardLayout::Qwerty);
    let sd = (enc.encode_byte(b's') ^ enc.encode_byte(b'd')).count_ones();
    let sp = (enc.encode_byte(b's') ^ enc.encode_byte(b'p')).count_ones();
    assert!(sd <= sp);
}

#[test]
fn vowel_swap_closer_than_unlikely() {
    let enc = TypoEncoding::from_layout(KeyboardLayout::Qwerty);
    let js = enc.encode_str(b"javascript");
    let vo = enc.encode_str(b"javoscript");
    let zs = enc.encode_str(b"javzscript");
    assert!(TypoEncoding::bit_distance(&js, &vo) < TypoEncoding::bit_distance(&js, &zs));
}

#[test]
fn length_penalized() {
    let enc = TypoEncoding::from_layout(KeyboardLayout::Qwerty);
    let d = TypoEncoding::bit_distance(&enc.encode_str(b"hello"), &enc.encode_str(b"hell"));
    assert!(d >= 8);
}

#[test]
fn digits_grouped() {
    let enc = TypoEncoding::from_layout(KeyboardLayout::Qwerty);
    let d01 = (enc.encode_byte(b'0') ^ enc.encode_byte(b'1')).count_ones();
    let d0a = (enc.encode_byte(b'0') ^ enc.encode_byte(b'a')).count_ones();
    assert!(d01 < d0a);
}

#[test]
fn bit_distance_counts_differing_bits_and_length() {
    assert_eq!(TypoEncoding::bit_distance(&[0b1010, 0xFF], &[0b0110, 0xFF]), 2);
    assert_eq!(TypoEncoding::bit_distance(&[1, 2, 3], &[1]), 16);
    assert_eq!(TypoEncoding::bit_distance(&[], &[]), 0);
}

#[test]
fn encode_into_replaces_the_buffer() {
    let enc = TypoEncoding::from_layout(KeyboardLayout::Qwerty);
    let mut out = vec![7u8, 7, 7];
    enc.encode_into(b"ab", &mut out);
    assert_eq!(out, vec![enc.encode_byte(b'a'), enc.encode_byte(b'b')]);
    assert_eq!(enc.encode_str(b"ab"), out);
}

#[test]
fn exact_match() {
    let terms = vec![b"hello".to_vec(), b"world".to_vec(), b"help".to_vec()];
    let col = ColumnarTerms::build(&terms);
    let results = col.scan(b"hello", 0);
    assert_eq!(results.len(), 1);
    assert_eq!(results[0], (0, 0));
}

#[test]
fn respects_max_distance() {
    let terms = vec![b"aaaa".to_vec(), b"bbbb".to_vec(), b"cccc".to_vec()];
    let col = ColumnarTerms::build(&terms);
    let results = col.scan(b"aaaa", 1);
    assert_eq!(results.len(), 1);
}

#[test]
fn one_mismatch() {
    let terms = vec![b"hello".to_vec(), b"hallo".to_vec(), b"hullo".to_vec()];
    let col = ColumnarTerms::build(&terms);
    let results = col.scan(b"hello", 1);
    assert!(results.iter().any(|&(i, d)| i == 0 && d == 0));
    assert!(results.iter().any(|&(i, d)| i == 1 && d == 1));
    assert!(results.iter().any(|&(i, d)| i == 2 && d == 1));
}

#[test]
fn empty_query() {
    let terms = vec![b"a".to_vec(), b"bb".to_vec()];
    let col = ColumnarTerms::build(&terms);
    let results = col.scan(b"", 1);
    assert_eq!(results.len(), 1);
    assert_eq!(results[0], (0, 1));
}
