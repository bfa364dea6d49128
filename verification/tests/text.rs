use lib::text::{
    decode, is_normalized, utf16_offset, utf16_range, utf8_offset, utf8_range, Normalizer, SourceMap, FIRST,
    LAST,
};
use std::ops::Range;

fn modes() -> [Normalizer; 4] {
    [
        Normalizer::new(),
        Normalizer::new().with_diacritic_folding(false),
        Normalizer::new().with_case_folding(false),
        Normalizer::new()
            .with_case_folding(false)
            .with_diacritic_folding(false),
    ]
}

fn all_chars() -> impl Iterator<Item = char> {
    (0..=0x10_FFFFu32)
        .chain(0xB5..0x180)
        .filter_map(char::from_u32)
}

fn norm(n: Normalizer, c: char) -> String {
    n.normalize_char(c).into_iter().collect()
}

/// The expansions of the Latin ligatures U+FB00 to U+FB06.
fn ligature(cp: u32) -> Option<&'static str> {
    match cp {
        0xFB00 => Some("ff"),
        0xFB01 => Some("fi"),
        0xFB02 => Some("fl"),
        0xFB03 => Some("ffi"),
        0xFB04 => Some("ffl"),
        0xFB05 | 0xFB06 => Some("st"),
        _ => None,
    }
}

#[test]
fn every_mode_is_idempotent_on_every_scalar_value() {
    for n in modes() {
        for c in all_chars() {
            let once = norm(n, c);
            assert!(once.chars().count() <= 3, "{c:?}");
            assert_eq!(n.normalize(&once), once, "{n:?} {c:?} -> {once:?}");
        }
    }
}

#[test]
fn the_identity_mode_changes_nothing() {
    let n = modes()[3];
    for c in all_chars() {
        assert_eq!(norm(n, c), c.to_string());
    }
}

#[test]
fn case_folding_agrees_with_core_lowercase_except_full_foldings() {
    let n = Normalizer::new().with_diacritic_folding(false);
    for c in all_chars() {
        let cp = u32::from(c);
        let covered = cp < 0x80 || (FIRST..=LAST).contains(&cp);
        let got = norm(n, c);
        let want = match cp {
            0xB5 => "\u{3BC}".to_string(),
            0xDF => "ss".to_string(),
            0x149 => "\u{2BC}n".to_string(),
            0x17F => "s".to_string(),
            0xFB00..=0xFB06 => ligature(cp).unwrap_or_default().to_string(),
            _ if covered => c.to_lowercase().collect(),
            _ => c.to_string(),
        };
        assert_eq!(got, want, "{c:?} U+{cp:04X}");
    }
}

#[test]
fn diacritic_folding_leaves_only_ascii_for_the_latin_letters() {
    let n = Normalizer::new();
    for cp in FIRST..=LAST {
        let Some(c) = char::from_u32(cp) else {
            continue;
        };
        let out = norm(n, c);
        if cp == 0xD7 || cp == 0xF7 {
            assert_eq!(out, c.to_string(), "× and ÷ are not letters");
        } else {
            assert!(
                !out.is_empty() && out.is_ascii() && out == out.to_lowercase(),
                "U+{cp:04X} -> {out:?}"
            );
        }
    }
}

#[test]
fn the_documented_policies_hold() {
    let n = Normalizer::new();
    for (input, want) in [
        ("São Paulo", "sao paulo"),
        ("AÇÃO", "acao"),
        ("Ç", "c"),
        ("café", "cafe"),
        ("naïve", "naive"),
        ("Straße", "strasse"),
        ("MÜLLER", "muller"),
        ("Æsir", "aesir"),
        ("cœur", "coeur"),
        ("Œ", "oe"),
        ("ﬁ ﬂ ﬀ ﬃ ﬄ ﬅ ﬆ", "fi fl ff ffi ffl st st"),
        ("ĳ", "ij"),
        ("Þór", "thor"),
        ("ðø", "do"),
        ("Łódź", "lodz"),
        ("ŉ", "'n"),
        ("ĸ", "q"),
        ("ŋ", "n"),
        ("ſ", "s"),
        ("İstanbul", "istanbul"),
        ("ıI", "ii"),
        ("µ", "\u{3BC}"),
        ("e\u{301}\u{308}", "e"),
        ("a\u{200D}b\u{200F}\u{0}", "a\u{200D}b\u{200F}\u{0}"),
        ("😀ÉÀ", "😀ea"),
        ("ΑΩ", "ΑΩ"),
    ] {
        assert_eq!(n.normalize(input), want, "{input:?}");
    }
    let case = Normalizer::new().with_diacritic_folding(false);
    for (input, want) in [
        ("CAFÉ", "café"),
        ("Straße", "strasse"),
        ("İ", "i\u{307}"),
        ("I", "i"),
        ("ı", "ı"),
        ("Æ", "æ"),
        ("ﬁ", "fi"),
        ("ŉ", "\u{2BC}n"),
        ("e\u{301}", "e\u{301}"),
    ] {
        assert_eq!(case.normalize(input), want, "{input:?}");
    }
    let accents = Normalizer::new().with_case_folding(false);
    for (input, want) in [("CAFÉ", "CAFE"), ("Æ", "AE"), ("ß", "ss"), ("ﬁ", "fi")] {
        assert_eq!(accents.normalize(input), want, "{input:?}");
    }
}

#[test]
fn strings_normalise_as_their_characters() {
    let s = "Ação ß İ ŉ ﬃ e\u{301} ı Ω 😀 \u{0}";
    for n in modes() {
        let mut want = String::new();
        for c in s.chars() {
            want.push_str(&norm(n, c));
        }
        assert_eq!(n.normalize(s), want);
        let mut buf = String::from("stale");
        n.normalize_into(s, &mut buf);
        assert_eq!(buf, want);
        let mut map = SourceMap::new();
        assert_eq!(n.normalize_mapped(s, &mut map), want);
        assert_eq!(map.len(), want.chars().count());
        assert_eq!(map.source_len(), s.chars().count());
        assert_eq!(
            n.normalize("ABC xyz"),
            n.normalize_mapped("ABC xyz", &mut map)
        );
    }
}

#[test]
fn source_maps_cover_expansions_and_dropped_marks() {
    let n = Normalizer::new();
    let mut map = SourceMap::new();
    // Source: c a f e U+0301 ß ; output: c a f e s s
    let out = n.normalize_mapped("cafe\u{301}ß", &mut map);
    assert_eq!(out, "cafess");
    assert_eq!(map.source_of(4), Some(5));
    assert_eq!(map.source_of(6), None);
    assert_eq!(map.to_source(0..4), Some(0..5)); // "cafe" takes its accent
    assert_eq!(map.to_source(3..4), Some(3..5));
    assert_eq!(map.to_source(4..5), Some(5..6)); // half of "ss" is all of ß
    assert_eq!(map.to_source(5..6), Some(5..6));
    assert_eq!(map.to_source(0..6), Some(0..6));
    assert_eq!(map.to_source(2..2), Some(2..2));
    assert_eq!(map.to_source(6..6), Some(6..6));
    assert_eq!(map.to_source(0..7), None);
    assert_eq!(map.to_source(Range { start: 3, end: 2 }), None);
    // Nothing produced at all.
    let out = n.normalize_mapped("\u{301}\u{302}", &mut map);
    assert!(out.is_empty() && map.is_empty());
    assert_eq!(map.to_source(0..0), Some(2..2));
}

#[test]
fn source_maps_agree_with_brute_force() {
    let s = "ÀÉ ß\u{301}ﬃxĲ\u{300}ŉ😀";
    for n in modes() {
        let mut map = SourceMap::new();
        let out: Vec<char> = n.normalize_mapped(s, &mut map).chars().collect();
        let src: Vec<char> = s.chars().collect();
        for a in 0..=out.len() {
            for b in a..=out.len() {
                let r = map.to_source(a..b).unwrap_or(0..0);
                let part: String = src[r.clone()].iter().collect();
                let got: String = n.normalize(&part);
                let want: String = out[a..b].iter().collect();
                assert!(got.contains(&want), "{n:?} {a}..{b} -> {r:?}");
                if a < b {
                    assert_eq!(Some(r.start), map.source_of(a));
                }
            }
        }
    }
}

#[test]
fn offsets_in_bytes_and_utf16_units() {
    let s = "aé€😀b";
    let bytes = [0, 1, 3, 6, 10, 11];
    let units = [0, 1, 2, 3, 5, 6];
    for cp in 0..=5 {
        assert_eq!(utf8_offset(s, cp), Some(bytes[cp]));
        assert_eq!(utf16_offset(s, cp), Some(units[cp]));
    }
    assert_eq!(utf8_offset(s, 6), None);
    assert_eq!(utf16_offset(s, 6), None);
    assert_eq!(utf8_range(s, 1..4), Some(1..10));
    assert_eq!(utf16_range(s, 1..4), Some(1..5));
    assert_eq!(utf8_range(s, 4..9), None);
    assert_eq!(utf16_range(s, Range { start: 2, end: 1 }), None);
    assert_eq!(utf8_offset("", 0), Some(0));
    assert_eq!(utf16_offset("", 1), None);
    for cp in 0..=5 {
        let prefix: String = s.chars().take(cp).collect();
        assert_eq!(utf8_offset(s, cp), Some(prefix.len()));
        assert_eq!(utf16_offset(s, cp), Some(prefix.encode_utf16().count()));
    }
}

#[test]
fn decoding_keeps_scalars_and_gives_stray_bytes_their_own_symbols() {
    assert_eq!(decode("aé€😀".as_bytes()), vec![0x61, 0xE9, 0x20AC, 0x1F600]);
    assert_eq!(decode(b"\xff"), vec![0x110000 + 0xFF]);
    assert_eq!(decode(b"a\xff\xff"), vec![0x61, 0x1100FF, 0x1100FF]);
    // A truncated sequence is one symbol per byte; an overlong one too.
    assert_eq!(decode(b"\xe2\x82"), vec![0x1100E2, 0x110082]);
    assert_eq!(decode(b"\xc0\xaf"), vec![0x1100C0, 0x1100AF]);
    // A surrogate encoded in UTF-8 is not a scalar value.
    assert_eq!(decode(b"\xed\xa0\x80"), vec![0x1100ED, 0x1100A0, 0x110080]);
    assert!(decode(b"").is_empty());
}

#[test]
fn normal_forms_are_recognised() {
    let n = Normalizer::new();
    assert!(is_normalized(&n, "sao paulo"));
    assert!(!is_normalized(&n, "São Paulo"));
    assert!(!is_normalized(&n, "strasse\u{301}"));
    assert!(is_normalized(&n, ""));
    let id = modes()[3];
    assert!(is_normalized(&id, "São Paulo"));
}

#[test]
fn normalising_twice_changes_nothing() {
    let texts = ["İstanbul", "ŒUVRE ﬁnal", "Straße µ", "ʼN ſ Ÿ Ǆ", "e\u{301}te\u{301}", "Ação", "ﬀﬃﬆ"];
    for (case, diacritics) in [(false, false), (false, true), (true, false), (true, true)] {
        let n = Normalizer::plain().with_case_folding(case).with_diacritic_folding(diacritics);
        for t in texts {
            let once = n.normalize(t);
            assert_eq!(n.normalize(&once), once, "{t:?} case={case} diacritics={diacritics}");
        }
    }
    assert_eq!(Normalizer::new().normalize("İ"), "i");
}
