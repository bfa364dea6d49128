//! The normal form is a fixed point: normalising a normalised text changes
//! nothing. Each character's normal form is made of characters that
//! normalise to themselves; for the folding tables this is checked entry by
//! entry.
use vstd::prelude::*;
use crate::chars::{char_with, scalar};
use crate::text::{ascii_lower, fold_case, ligature, norm_char, norm_str, Normalizer, BASE, CASE_FOLD, FIRST, LAST};

verus! {

/// Entry `i` of the tables folds to stable characters: its base letters
/// are ASCII, and (unless its character is folded apart) its case folding
/// is below U+0300, not folded apart, not an upper-case ASCII letter, and
/// when inside the tables it folds to itself and keeps no base letters when
/// the entry has none.
spec fn entry_ok(i: int) -> bool {
    let y = CASE_FOLD[i] as u32;
    let cp = i + FIRST;
    &&& BASE[i][0] < 0x80
    &&& BASE[i][1] < 0x80
    &&& (cp == 0xDF || cp == 0x130 || cp == 0x149 || {
        &&& y < 0x300
        &&& y != 0xB5 && y != 0xDF && y != 0x130 && y != 0x149
        &&& !(0x41 <= y <= 0x5A)
        &&& (FIRST <= y <= LAST ==> CASE_FOLD[y - FIRST] == y && (BASE[i][0] == 0 ==> BASE[y - FIRST][0] == 0))
    })
}

proof fn lemma_entries_0()
    ensures
        forall|i: int| 0 <= i < 48 ==> #[trigger] entry_ok(i),
{
    assert forall|i: int| 0 <= i < 48 implies #[trigger] entry_ok(i) by {
        if i == 0 { assert(entry_ok(0)); } else if i == 1 { assert(entry_ok(1)); } else if i == 2 { assert(entry_ok(2)); } else if i == 3 { assert(entry_ok(3)); } else if i == 4 { assert(entry_ok(4)); } else if i == 5 { assert(entry_ok(5)); } else if i == 6 { assert(entry_ok(6)); } else if i == 7 { assert(entry_ok(7)); } else if i == 8 { assert(entry_ok(8)); } else if i == 9 { assert(entry_ok(9)); } else if i == 10 { assert(entry_ok(10)); } else if i == 11 { assert(entry_ok(11)); } else if i == 12 { assert(entry_ok(12)); } else if i == 13 { assert(entry_ok(13)); } else if i == 14 { assert(entry_ok(14)); } else if i == 15 { assert(entry_ok(15)); } else if i == 16 { assert(entry_ok(16)); } else if i == 17 { assert(entry_ok(17)); } else if i == 18 { assert(entry_ok(18)); } else if i == 19 { assert(entry_ok(19)); } else if i == 20 { assert(entry_ok(20)); } else if i == 21 { assert(entry_ok(21)); } else if i == 22 { assert(entry_ok(22)); } else if i == 23 { assert(entry_ok(23)); } else if i == 24 { assert(entry_ok(24)); } else if i == 25 { assert(entry_ok(25)); } else if i == 26 { assert(entry_ok(26)); } else if i == 27 { assert(entry_ok(27)); } else if i == 28 { assert(entry_ok(28)); } else if i == 29 { assert(entry_ok(29)); } else if i == 30 { assert(entry_ok(30)); } else if i == 31 { assert(entry_ok(31)); } else if i == 32 { assert(entry_ok(32)); } else if i == 33 { assert(entry_ok(33)); } else if i == 34 { assert(entry_ok(34)); } else if i == 35 { assert(entry_ok(35)); } else if i == 36 { assert(entry_ok(36)); } else if i == 37 { assert(entry_ok(37)); } else if i == 38 { assert(entry_ok(38)); } else if i == 39 { assert(entry_ok(39)); } else if i == 40 { assert(entry_ok(40)); } else if i == 41 { assert(entry_ok(41)); } else if i == 42 { assert(entry_ok(42)); } else if i == 43 { assert(entry_ok(43)); } else if i == 44 { assert(entry_ok(44)); } else if i == 45 { assert(entry_ok(45)); } else if i == 46 { assert(entry_ok(46)); } else if i == 47 { assert(entry_ok(47)); }
    }
}

proof fn lemma_entries_1()
    ensures
        forall|i: int| 48 <= i < 96 ==> #[trigger] entry_ok(i),
{
    assert forall|i: int| 48 <= i < 96 implies #[trigger] entry_ok(i) by {
        if i == 48 { assert(entry_ok(48)); } else if i == 49 { assert(entry_ok(49)); } else if i == 50 { assert(entry_ok(50)); } else if i == 51 { assert(entry_ok(51)); } else if i == 52 { assert(entry_ok(52)); } else if i == 53 { assert(entry_ok(53)); } else if i == 54 { assert(entry_ok(54)); } else if i == 55 { assert(entry_ok(55)); } else if i == 56 { assert(entry_ok(56)); } else if i == 57 { assert(entry_ok(57)); } else if i == 58 { assert(entry_ok(58)); } else if i == 59 { assert(entry_ok(59)); } else if i == 60 { assert(entry_ok(60)); } else if i == 61 { assert(entry_ok(61)); } else if i == 62 { assert(entry_ok(62)); } else if i == 63 { assert(entry_ok(63)); } else if i == 64 { assert(entry_ok(64)); } else if i == 65 { assert(entry_ok(65)); } else if i == 66 { assert(entry_ok(66)); } else if i == 67 { assert(entry_ok(67)); } else if i == 68 { assert(entry_ok(68)); } else if i == 69 { assert(entry_ok(69)); } else if i == 70 { assert(entry_ok(70)); } else if i == 71 { assert(entry_ok(71)); } else if i == 72 { assert(entry_ok(72)); } else if i == 73 { assert(entry_ok(73)); } else if i == 74 { assert(entry_ok(74)); } else if i == 75 { assert(entry_ok(75)); } else if i == 76 { assert(entry_ok(76)); } else if i == 77 { assert(entry_ok(77)); } else if i == 78 { assert(entry_ok(78)); } else if i == 79 { assert(entry_ok(79)); } else if i == 80 { assert(entry_ok(80)); } else if i == 81 { assert(entry_ok(81)); } else if i == 82 { assert(entry_ok(82)); } else if i == 83 { assert(entry_ok(83)); } else if i == 84 { assert(entry_ok(84)); } else if i == 85 { assert(entry_ok(85)); } else if i == 86 { assert(entry_ok(86)); } else if i == 87 { assert(entry_ok(87)); } else if i == 88 { assert(entry_ok(88)); } else if i == 89 { assert(entry_ok(89)); } else if i == 90 { assert(entry_ok(90)); } else if i == 91 { assert(entry_ok(91)); } else if i == 92 { assert(entry_ok(92)); } else if i == 93 { assert(entry_ok(93)); } else if i == 94 { assert(entry_ok(94)); } else if i == 95 { assert(entry_ok(95)); }
    }
}

proof fn lemma_entries_2()
    ensures
        forall|i: int| 96 <= i < 144 ==> #[trigger] entry_ok(i),
{
    assert forall|i: int| 96 <= i < 144 implies #[trigger] entry_ok(i) by {
        if i == 96 { assert(entry_ok(96)); } else if i == 97 { assert(entry_ok(97)); } else if i == 98 { assert(entry_ok(98)); } else if i == 99 { assert(entry_ok(99)); } else if i == 100 { assert(entry_ok(100)); } else if i == 101 { assert(entry_ok(101)); } else if i == 102 { assert(entry_ok(102)); } else if i == 103 { assert(entry_ok(103)); } else if i == 104 { assert(entry_ok(104)); } else if i == 105 { assert(entry_ok(105)); } else if i == 106 { assert(entry_ok(106)); } else if i == 107 { assert(entry_ok(107)); } else if i == 108 { assert(entry_ok(108)); } else if i == 109 { assert(entry_ok(109)); } else if i == 110 { assert(entry_ok(110)); } else if i == 111 { assert(entry_ok(111)); } else if i == 112 { assert(entry_ok(112)); } else if i == 113 { assert(entry_ok(113)); } else if i == 114 { assert(entry_ok(114)); } else if i == 115 { assert(entry_ok(115)); } else if i == 116 { assert(entry_ok(116)); } else if i == 117 { assert(entry_ok(117)); } else if i == 118 { assert(entry_ok(118)); } else if i == 119 { assert(entry_ok(119)); } else if i == 120 { assert(entry_ok(120)); } else if i == 121 { assert(entry_ok(121)); } else if i == 122 { assert(entry_ok(122)); } else if i == 123 { assert(entry_ok(123)); } else if i == 124 { assert(entry_ok(124)); } else if i == 125 { assert(entry_ok(125)); } else if i == 126 { assert(entry_ok(126)); } else if i == 127 { assert(entry_ok(127)); } else if i == 128 { assert(entry_ok(128)); } else if i == 129 { assert(entry_ok(129)); } else if i == 130 { assert(entry_ok(130)); } else if i == 131 { assert(entry_ok(131)); } else if i == 132 { assert(entry_ok(132)); } else if i == 133 { assert(entry_ok(133)); } else if i == 134 { assert(entry_ok(134)); } else if i == 135 { assert(entry_ok(135)); } else if i == 136 { assert(entry_ok(136)); } else if i == 137 { assert(entry_ok(137)); } else if i == 138 { assert(entry_ok(138)); } else if i == 139 { assert(entry_ok(139)); } else if i == 140 { assert(entry_ok(140)); } else if i == 141 { assert(entry_ok(141)); } else if i == 142 { assert(entry_ok(142)); } else if i == 143 { assert(entry_ok(143)); }
    }
}

proof fn lemma_entries_3()
    ensures
        forall|i: int| 144 <= i < 192 ==> #[trigger] entry_ok(i),
{
    assert forall|i: int| 144 <= i < 192 implies #[trigger] entry_ok(i) by {
        if i == 144 { assert(entry_ok(144)); } else if i == 145 { assert(entry_ok(145)); } else if i == 146 { assert(entry_ok(146)); } else if i == 147 { assert(entry_ok(147)); } else if i == 148 { assert(entry_ok(148)); } else if i == 149 { assert(entry_ok(149)); } else if i == 150 { assert(entry_ok(150)); } else if i == 151 { assert(entry_ok(151)); } else if i == 152 { assert(entry_ok(152)); } else if i == 153 { assert(entry_ok(153)); } else if i == 154 { assert(entry_ok(154)); } else if i == 155 { assert(entry_ok(155)); } else if i == 156 { assert(entry_ok(156)); } else if i == 157 { assert(entry_ok(157)); } else if i == 158 { assert(entry_ok(158)); } else if i == 159 { assert(entry_ok(159)); } else if i == 160 { assert(entry_ok(160)); } else if i == 161 { assert(entry_ok(161)); } else if i == 162 { assert(entry_ok(162)); } else if i == 163 { assert(entry_ok(163)); } else if i == 164 { assert(entry_ok(164)); } else if i == 165 { assert(entry_ok(165)); } else if i == 166 { assert(entry_ok(166)); } else if i == 167 { assert(entry_ok(167)); } else if i == 168 { assert(entry_ok(168)); } else if i == 169 { assert(entry_ok(169)); } else if i == 170 { assert(entry_ok(170)); } else if i == 171 { assert(entry_ok(171)); } else if i == 172 { assert(entry_ok(172)); } else if i == 173 { assert(entry_ok(173)); } else if i == 174 { assert(entry_ok(174)); } else if i == 175 { assert(entry_ok(175)); } else if i == 176 { assert(entry_ok(176)); } else if i == 177 { assert(entry_ok(177)); } else if i == 178 { assert(entry_ok(178)); } else if i == 179 { assert(entry_ok(179)); } else if i == 180 { assert(entry_ok(180)); } else if i == 181 { assert(entry_ok(181)); } else if i == 182 { assert(entry_ok(182)); } else if i == 183 { assert(entry_ok(183)); } else if i == 184 { assert(entry_ok(184)); } else if i == 185 { assert(entry_ok(185)); } else if i == 186 { assert(entry_ok(186)); } else if i == 187 { assert(entry_ok(187)); } else if i == 188 { assert(entry_ok(188)); } else if i == 189 { assert(entry_ok(189)); } else if i == 190 { assert(entry_ok(190)); } else if i == 191 { assert(entry_ok(191)); }
    }
}

proof fn lemma_entries()
    ensures
        forall|i: int| 0 <= i < 192 ==> #[trigger] entry_ok(i),
{
    lemma_entries_0();
    lemma_entries_1();
    lemma_entries_2();
    lemma_entries_3();
}


/// A character below U+D800 is the one with that scalar value.
proof fn lemma_char_with_small(v: u32)
    requires
        v < 0xD800,
    ensures
        char_with(v) as u32 == v,
{
    let c = v as char;
    assert(scalar(c) == v);
}

/// `c` normalises to itself.
spec fn stable(n: Normalizer, c: char) -> bool {
    norm_char(n, c) == seq![c]
}

/// A text whose characters all normalise to themselves is normal.
proof fn lemma_all_stable(n: Normalizer, s: Seq<char>)
    requires
        forall|k: int| 0 <= k < s.len() ==> stable(n, #[trigger] s[k]),
    ensures
        norm_str(n, s) == s,
    decreases s.len(),
{
    if s.len() > 0 {
        lemma_all_stable(n, s.drop_last());
        assert(stable(n, s[s.len() - 1]));
        assert(s.drop_last() + seq![s.last()] =~= s);
    }
}

/// An ASCII character normalises to itself, unless it is an upper-case
/// letter and case is folded.
proof fn lemma_ascii_stable(n: Normalizer, a: char)
    requires
        (a as u32) < 0x80,
        n.case_spec() ==> !('A' <= a <= 'Z'),
    ensures
        stable(n, a),
{
    assert(ligature(a as u32).len() == 0);
}

/// Case folding an ASCII character gives one character that normalises to
/// itself.
proof fn lemma_fold_ascii(n: Normalizer, b: u32)
    requires
        b < 0x80,
    ensures
        fold_case(n.case_spec(), char_with(b)).len() == 1,
        stable(n, fold_case(n.case_spec(), char_with(b))[0]),
{
    lemma_char_with_small(b);
    let a = char_with(b);
    if n.case_spec() {
        if 'A' <= a <= 'Z' {
            lemma_char_with_small((b + 32) as u32);
            lemma_ascii_stable(n, ascii_lower(a));
        } else {
            lemma_ascii_stable(n, a);
        }
    } else {
        lemma_ascii_stable(n, a);
    }
}

/// The normal form of a character is normal.
proof fn lemma_char_normal(n: Normalizer, c: char)
    ensures
        norm_str(n, norm_char(n, c)) == norm_char(n, c),
{
    lemma_entries();
    let cp = c as u32;
    let out = norm_char(n, c);
    let case = n.case_spec();
    if n.diacritics_spec() && 0x300 <= cp < 0x370 {
    } else if n.diacritics_spec() && FIRST <= cp <= LAST && BASE[(cp - FIRST) as int][0] != 0 {
        let i = (cp - FIRST) as int;
        assert(entry_ok(i));
        let b = BASE[i];
        lemma_fold_ascii(n, b[0] as u32);
        if b[1] != 0 {
            lemma_fold_ascii(n, b[1] as u32);
        }
        assert forall|k: int| 0 <= k < out.len() implies stable(n, #[trigger] out[k]) by {
            if k >= 1 {
                assert(out[k] == fold_case(case, char_with(b[1] as u32))[0]);
            }
        }
    } else if n.diacritics_spec() && ligature(cp).len() > 0 {
        lemma_ascii_stable(n, 'f');
        lemma_ascii_stable(n, 'i');
        lemma_ascii_stable(n, 'l');
        lemma_ascii_stable(n, 's');
        lemma_ascii_stable(n, 't');
    } else if !case {
    } else if cp < 0x80 {
        if 'A' <= c <= 'Z' {
            lemma_char_with_small((cp + 32) as u32);
            lemma_ascii_stable(n, ascii_lower(c));
        } else {
            lemma_ascii_stable(n, c);
        }
    } else if cp == 0xB5 {
        assert(ligature(0x3BC).len() == 0);
    } else if cp == 0xDF {
        lemma_ascii_stable(n, 's');
    } else if cp == 0x130 {
        assert(BASE[0x70][0] != 0);
        lemma_ascii_stable(n, 'i');
        assert(ligature(0x307).len() == 0);
    } else if cp == 0x149 {
        assert(BASE[0x89][0] != 0);
        lemma_ascii_stable(n, 'n');
        assert(ligature(0x2BC).len() == 0);
    } else if FIRST <= cp <= LAST {
        let i = (cp - FIRST) as int;
        assert(entry_ok(i));
        let y = CASE_FOLD[i] as u32;
        lemma_char_with_small(y);
        let yc = char_with(y);
        assert(ligature(y).len() == 0);
        if FIRST <= y <= LAST {
            lemma_char_with_small(CASE_FOLD[(y - FIRST) as int] as u32);
        }
        assert(stable(n, yc));
    } else if ligature(cp).len() > 0 {
        lemma_ascii_stable(n, 'f');
        lemma_ascii_stable(n, 'i');
        lemma_ascii_stable(n, 'l');
        lemma_ascii_stable(n, 's');
        lemma_ascii_stable(n, 't');
    } else {
    }
    if !(n.diacritics_spec() && 0x300 <= cp < 0x370) {
        assert forall|k: int| 0 <= k < out.len() implies stable(n, #[trigger] out[k]) by {
        }
    }
    lemma_all_stable(n, out);
}

/// Normalising a concatenation normalises each part.
proof fn lemma_norm_str_concat(n: Normalizer, a: Seq<char>, b: Seq<char>)
    ensures
        norm_str(n, a + b) == norm_str(n, a) + norm_str(n, b),
    decreases b.len(),
{
    if b.len() == 0 {
        assert(a + b =~= a);
        assert(norm_str(n, a) + norm_str(n, b) =~= norm_str(n, a));
    } else {
        assert((a + b).drop_last() =~= a + b.drop_last());
        assert((a + b).last() == b.last());
        lemma_norm_str_concat(n, a, b.drop_last());
        assert(norm_str(n, a) + norm_str(n, b) =~= norm_str(n, a) + norm_str(n, b.drop_last()) + norm_char(n, b.last()));
    }
}

/// Normalising a normalised text changes nothing.
pub proof fn lemma_normalize_idempotent(n: Normalizer, s: Seq<char>)
    ensures
        norm_str(n, norm_str(n, s)) == norm_str(n, s),
    decreases s.len(),
{
    if s.len() > 0 {
        lemma_normalize_idempotent(n, s.drop_last());
        lemma_norm_str_concat(n, norm_str(n, s.drop_last()), norm_char(n, s.last()));
        lemma_char_normal(n, s.last());
    }
}

} // verus!
