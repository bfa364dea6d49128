use lib::cost::class;
use lib::text::Normalizer;
use lib::trie::{index_u32, BuildError, Trie, NO_TERM};

fn sample() -> Trie {
    Trie::build(&[("cat", 5), ("car", 9), ("cart", 1), ("dog", 3), ("cat", 7)]).unwrap()
}

#[test]
fn terms_are_sorted_and_deduplicated_keeping_the_highest_weight() {
    let t = sample();
    assert_eq!(t.len(), 4);
    let terms: Vec<&str> = (0..t.len() as u32).map(|i| t.term(i)).collect();
    assert_eq!(terms, ["car", "cart", "cat", "dog"]);
    assert_eq!(t.weight(2), 7); // "cat": max(5, 7)
}

#[test]
fn structure_has_shared_prefixes() {
    let t = sample();
    // root, c, d, ca, do, car, cat, dog, cart
    assert_eq!(t.node_count(), 9);
    let labels: Vec<u8> = t.children(0).map(|c| t.label(c) as u8).collect();
    assert_eq!(labels, [b'c', b'd']);
}

#[test]
fn children_always_come_after_their_parent() {
    let t = sample();
    for v in 0..t.node_count() {
        for c in t.children(v) {
            assert!(c > v);
        }
    }
}

#[test]
fn aggregates_cover_the_whole_subtree() {
    let t = sample();
    assert_eq!(t.max_weight(0), 9);
    assert_eq!((t.len_min(0), t.len_max(0)), (3, 4));
    let mut all = 0u64;
    for b in b"cartdog" {
        all |= class(*b);
    }
    assert_eq!(t.below_mask(0), all);
    assert_eq!(t.term_id(0), NO_TERM);
}

#[test]
fn a_terminal_node_counts_its_own_length() {
    let t = sample();
    let car = t.children(t.children(t.children(0).start).start).start; // c -> a -> r
    assert_eq!(t.term_id(car), 0);
    assert_eq!((t.len_min(car), t.len_max(car)), (3, 4));
    assert_eq!(t.below_mask(car), class(b't')); // only "cart" continues below
}

#[test]
fn rejects_empty_input_and_empty_terms() {
    assert_eq!(Trie::build(&[]).unwrap_err(), BuildError::Empty);
    assert_eq!(
        Trie::build(&[("a", 1), ("", 2)]).unwrap_err(),
        BuildError::EmptyTerm
    );
}

#[test]
fn a_single_term_builds() {
    let t = Trie::build(&[("x", 0)]).unwrap();
    assert_eq!((t.len(), t.node_count()), (1, 2));
}

#[test]
fn non_ascii_bytes_are_kept_verbatim() {
    let t = Trie::build(&[("café", 1), ("cafe", 2)]).unwrap();
    assert_eq!(t.len(), 2);
    assert!((0..2u32).any(|i| t.term(i) == "café"));
}

#[test]
fn input_index_reports_the_kept_duplicate_with_the_highest_weight() {
    // sample(): ("cat", 5) at index 0 and ("cat", 7) at index 4.
    let t = sample();
    assert_eq!(t.term(2), "cat");
    assert_eq!(t.weight(2), 7);
    assert_eq!(t.input_index(2), 4);
}

#[test]
fn input_index_keeps_the_first_of_equal_weight_duplicates() {
    let t = Trie::build(&[("b", 1), ("a", 3), ("b", 3), ("a", 3), ("b", 3)]).unwrap();
    assert_eq!((t.term(0), t.term(1)), ("a", "b"));
    assert_eq!(t.input_index(0), 1);
    assert_eq!(t.input_index(1), 2);
}

#[test]
fn input_index_maps_sorted_positions_back_to_the_input() {
    let items = [("delta", 1), ("alpha", 2), ("charlie", 3), ("bravo", 4)];
    let t = Trie::build(&items).unwrap();
    let back: Vec<u32> = (0..t.len() as u32).map(|id| t.input_index(id)).collect();
    assert_eq!(back, [1, 3, 2, 0]);
    for id in 0..t.len() as u32 {
        let (term, weight) = items[t.input_index(id) as usize];
        assert_eq!((t.term(id), t.weight(id)), (term, weight));
    }
}

#[test]
fn input_index_of_an_out_of_range_id_is_u32_max() {
    let t = sample();
    assert_eq!(t.input_index(t.len() as u32), u32::MAX);
    assert_eq!(t.input_index(u32::MAX), u32::MAX);
}

#[test]
fn a_term_of_exactly_65535_bytes_builds() {
    let long = "a".repeat(usize::from(u16::MAX));
    let t = Trie::build(&[(long.as_str(), 1)]).unwrap();
    assert_eq!(t.len(), 1);
    assert_eq!(t.term(0).len(), usize::from(u16::MAX));
    assert_eq!(t.node_count(), usize::from(u16::MAX) + 1);
    assert_eq!((t.len_min(0), t.len_max(0)), (u16::MAX, u16::MAX));
}

#[test]
fn a_term_of_65536_bytes_is_too_long() {
    let long = "a".repeat(usize::from(u16::MAX) + 1);
    assert_eq!(
        Trie::build(&[(long.as_str(), 1)]).unwrap_err(),
        BuildError::TermTooLong
    );
    // Even when it is not the first term.
    assert_eq!(
        Trie::build(&[("ok", 1), (long.as_str(), 1)]).unwrap_err(),
        BuildError::TermTooLong
    );
}

#[test]
fn a_chain_of_prefix_terms_has_a_terminal_at_every_node() {
    let t = Trie::build(&[("abc", 1), ("a", 3), ("ab", 2)]).unwrap();
    // Ids follow the byte order: a, ab, abc.
    assert_eq!((t.term(0), t.term(1), t.term(2)), ("a", "ab", "abc"));
    assert_eq!(t.node_count(), 4); // root, a, ab, abc
    let a = t.children(0).start;
    let ab = t.children(a).start;
    let abc = t.children(ab).start;
    assert_eq!(t.children(0), 1..2);
    assert_eq!(t.children(abc).len(), 0);
    assert_eq!(
        [t.term_id(0), t.term_id(a), t.term_id(ab), t.term_id(abc)],
        [NO_TERM, 0, 1, 2]
    );
    assert_eq!((t.len_min(0), t.len_max(0)), (1, 3));
    assert_eq!((t.len_min(a), t.len_max(a)), (1, 3));
    assert_eq!((t.len_min(ab), t.len_max(ab)), (2, 3));
    assert_eq!((t.len_min(abc), t.len_max(abc)), (3, 3));
    // The weights differ, so the subtree maximum is the heaviest term below.
    assert_eq!(
        [t.max_weight(a), t.max_weight(ab), t.max_weight(abc)],
        [3, 2, 1]
    );
}

#[test]
fn index_conversion_refuses_what_does_not_fit_or_equals_no_term() {
    assert_eq!(index_u32(0), Ok(0));
    assert_eq!(index_u32(NO_TERM as usize - 1), Ok(NO_TERM - 1));
    assert_eq!(index_u32(NO_TERM as usize), Err(BuildError::TooManyTerms));
    if let Some(big) = (NO_TERM as usize).checked_add(1) {
        assert_eq!(index_u32(big), Err(BuildError::TooManyTerms));
    }
}

#[test]
fn labels_are_characters_and_paths_spell_the_terms() {
    let t = Trie::build(&[("car", 9), ("cat", 4)]).unwrap();
    assert_eq!(t.node_count(), 5);
    assert_eq!(t.label(0), '\0');
    assert_eq!(t.label(1), 'c');
    assert_eq!(t.label(4), 't');
    assert_eq!(t.children(2), 3..5);
    let t = Trie::build(&[("né", 1)]).unwrap();
    assert_eq!(t.node_count(), 3);
    assert_eq!(t.label(2), 'é');
    assert_eq!(t.term(7), "");
    assert_eq!(t.weight(7), 0);
}

#[test]
fn normalised_builds_merge_folded_duplicates() {
    let items = [("Café", 5), ("cafe", 9), ("São Paulo", 1)];
    let trie = Trie::build_normalized(&items, &Normalizer::new()).unwrap();
    assert_eq!(trie.len(), 2);
    assert_eq!(trie.term(0), "cafe");
    assert_eq!(trie.input_index(0), 1);
    assert_eq!(trie.term(1), "sao paulo");
    assert_eq!(trie.normalizer(), Some(Normalizer::new()));
    assert_eq!(Trie::build(&items).unwrap().normalizer(), None);
}

#[test]
fn built_tries_are_breadth_first_with_sorted_children() {
    let items = [("banana", 1u16), ("band", 2), ("apple", 3), ("bandana", 4), ("ban", 5), ("apply", 6)];
    let trie = Trie::build(&items).unwrap();
    let n = trie.node_count();
    assert_eq!(trie.children(0).start, 1);
    for v in 0..n {
        let r = trie.children(v);
        if v + 1 < n {
            assert_eq!(r.end, trie.children(v + 1).start);
        } else {
            assert_eq!(r.end, n);
        }
        for c in r.start + 1..r.end {
            assert!(trie.symbol(c - 1) < trie.symbol(c));
        }
        if r.start == r.end {
            assert_ne!(trie.term_id(v), NO_TERM);
        }
    }
    // Each term ends at exactly one node.
    let mut ends = vec![0usize; trie.len()];
    for v in 0..n {
        let t = trie.term_id(v);
        if t != NO_TERM {
            ends[t as usize] += 1;
        }
    }
    assert!(ends.iter().all(|&e| e == 1));
}

#[test]
fn up_to_65535_entries_always_build() {
    let words: Vec<String> = (0..3000).map(|i| format!("w{}", i)).collect();
    let items: Vec<(&str, u16)> = words.iter().map(|w| (w.as_str(), 1u16)).collect();
    assert!(Trie::build(&items).is_ok());
}

/// The path of a node: its labels from the root down.
fn path_of(t: &Trie, v: usize) -> String {
    let mut parent = vec![usize::MAX; t.node_count()];
    for u in 0..t.node_count() {
        for c in t.children(u) {
            assert_eq!(parent[c], usize::MAX, "node {c} has two parents");
            parent[c] = u;
        }
    }
    let mut labels = Vec::new();
    let mut u = v;
    while u != 0 {
        labels.push(t.label(u));
        u = parent[u];
    }
    labels.iter().rev().collect()
}

#[test]
fn max_weight_is_the_heaviest_term_of_the_subtree() {
    let t = Trie::build(&[("car", 9), ("cat", 4)]).unwrap();
    assert_eq!(t.max_weight(0), 9);
    assert_eq!(t.term(t.term_id(4)), "cat");
    assert_eq!(t.max_weight(4), 4);
    let s = sample();
    for v in 0..s.node_count() {
        let mut best = 0u16;
        for u in 0..s.node_count() {
            let p = path_of(&s, u);
            if s.term_id(u) != NO_TERM && p.starts_with(&path_of(&s, v)) {
                best = best.max(s.weight(s.term_id(u)));
            }
        }
        assert_eq!(s.max_weight(v), best, "node {v}");
    }
}

#[test]
fn every_node_but_the_root_has_exactly_one_parent_before_it() {
    let t = sample();
    let n = t.node_count();
    assert_eq!(t.children(0).start, 1);
    assert_eq!(t.children(n - 1).end, n);
    let mut seen = vec![0; n];
    for v in 0..n {
        let r = t.children(v);
        assert!(v < r.start && r.start <= r.end && r.end <= n);
        if v + 1 < n {
            assert_eq!(r.end, t.children(v + 1).start);
        }
        for c in r {
            seen[c] += 1;
        }
    }
    assert_eq!(seen[0], 0);
    assert!(seen[1..].iter().all(|&k| k == 1));
}

#[test]
fn a_node_carries_a_term_exactly_when_its_path_spells_it() {
    let t = sample();
    let mut carried = vec![0; t.len()];
    for v in 0..t.node_count() {
        let p = path_of(&t, v);
        let id = t.term_id(v);
        let spelled = (0..t.len() as u32).find(|&i| t.term(i) == p);
        match spelled {
            Some(i) => {
                assert_eq!(id, i);
                carried[i as usize] += 1;
            }
            None => assert_eq!(id, NO_TERM),
        }
    }
    assert!(carried.iter().all(|&k| k == 1));
}

#[test]
fn a_normalised_build_agrees_with_a_build_of_the_normalised_texts() {
    let n = Normalizer::new();
    let items = [("Café", 5), ("cafe", 9), ("São Paulo", 1)];
    let a = Trie::build_normalized(&items, &n).unwrap();
    let texts: Vec<String> = items.iter().map(|(t, _)| n.normalize(t)).collect();
    let norm_items: Vec<(&str, u16)> = texts.iter().zip(items.iter()).map(|(t, (_, w))| (t.as_str(), *w)).collect();
    let b = Trie::build(&norm_items).unwrap();
    assert_eq!(a.len(), 2);
    assert_eq!((a.term(0), a.term(1)), ("cafe", "sao paulo"));
    assert_eq!(a.input_index(0), 1);
    assert_eq!(a.normalizer(), Some(n));
    assert_eq!(a.len(), b.len());
    for id in 0..a.len() as u32 {
        assert_eq!(a.term(id), b.term(id));
        assert_eq!(a.weight(id), b.weight(id));
        assert_eq!(a.input_index(id), b.input_index(id));
    }
    assert_eq!(a.node_count(), b.node_count());
    for v in 0..a.node_count() {
        assert_eq!(a.children(v), b.children(v));
        assert_eq!((a.label(v), a.term_id(v), a.max_weight(v)), (b.label(v), b.term_id(v), b.max_weight(v)));
    }
}
