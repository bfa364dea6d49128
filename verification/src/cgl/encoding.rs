//! A byte encoding where commonly confused characters get codes with few
//! differing bits, so that comparing two encoded strings is an XOR and a
//! population count.
//!
//! The letters of a layout are split into groups of likely confusions;
//! each group gets consecutive codes starting at a multiple of 8 (the first
//! at 1), upper case letters sharing the codes of lower case ones; the
//! digits follow the last group. Every other byte encodes as 0.
use vstd::prelude::*;
use crate::legacy::scorer::KeyboardLayout;
use crate::search::{count_ones, lemma_popcount_bound, popcount};

verus! {

/// The confusion groups of a layout, in code order.
pub open spec fn layout_groups(layout: KeyboardLayout) -> Seq<Seq<u8>> {
    match layout {
        KeyboardLayout::Qwerty => seq![
            seq![97u8, 101u8, 105u8, 111u8, 117u8],
            seq![115u8, 100u8, 102u8],
            seq![106u8, 107u8, 108u8],
            seq![113u8, 119u8, 114u8, 116u8],
            seq![121u8, 112u8],
            seq![98u8, 118u8, 103u8],
            seq![99u8, 120u8, 122u8],
            seq![110u8, 109u8],
            seq![104u8],
        ],
        KeyboardLayout::Azerty => seq![
            seq![97u8, 101u8, 105u8, 111u8, 117u8],
            seq![113u8, 115u8, 100u8, 102u8],
            seq![106u8, 107u8, 108u8, 109u8],
            seq![97u8, 122u8, 114u8, 116u8],
            seq![121u8, 112u8],
            seq![98u8, 118u8, 103u8],
            seq![99u8, 120u8, 119u8],
            seq![110u8],
            seq![104u8],
        ],
        KeyboardLayout::Qwertz => seq![
            seq![97u8, 101u8, 105u8, 111u8, 117u8],
            seq![115u8, 100u8, 102u8],
            seq![106u8, 107u8, 108u8],
            seq![113u8, 119u8, 114u8, 116u8],
            seq![122u8, 112u8],
            seq![98u8, 118u8, 103u8],
            seq![99u8, 120u8, 121u8],
            seq![110u8, 109u8],
            seq![104u8],
        ],
    }
}

/// The upper case of an ASCII lower case letter (other bytes unchanged).
pub open spec fn upper(c: u8) -> u8 {
    if 97 <= c <= 122 { (c - 32) as u8 } else { c }
}

/// `a + b`, wrapped to a byte.
pub open spec fn wrap(a: int, b: int) -> u8 {
    ((a + b) % 256) as u8
}

/// The tables after giving the letters `g[i..]` the codes `base + i`, ...
pub open spec fn assign_group(t: Seq<u8>, d: Seq<u8>, g: Seq<u8>, base: u8, i: nat) -> (Seq<u8>, Seq<u8>)
    decreases g.len() - i,
{
    if i >= g.len() {
        (t, d)
    } else {
        let ch = g[i as int];
        let a = wrap(base as int, i as int);
        assign_group(t.update(ch as int, a).update(upper(ch) as int, a), d.update(a as int, ch), g, base, i + 1)
    }
}

/// The first code of the group after one of `len` letters starting at
/// `code`: the next multiple of 8.
pub open spec fn next_code(code: u8, len: nat) -> u8 {
    let c = wrap(code as int, len as int);
    ((wrap(c as int, 7) / 8) * 8) as u8
}

/// The tables and next code after assigning the groups `groups[k..]`.
pub open spec fn assign_groups(groups: Seq<Seq<u8>>, k: nat, t: Seq<u8>, d: Seq<u8>, code: u8) -> (Seq<u8>, Seq<u8>, u8)
    decreases groups.len() - k,
{
    if k >= groups.len() {
        (t, d, code)
    } else {
        let (t2, d2) = assign_group(t, d, groups[k as int], code, 0);
        assign_groups(groups, k + 1, t2, d2, next_code(code, groups[k as int].len()))
    }
}

/// The tables after giving the digits from `'0' + i` on the codes
/// `base + i`, ...
pub open spec fn assign_digits(t: Seq<u8>, d: Seq<u8>, base: u8, i: nat) -> (Seq<u8>, Seq<u8>)
    decreases 10 - i,
{
    if i >= 10 {
        (t, d)
    } else {
        let a = wrap(base as int, i as int);
        assign_digits(t.update(48 + i as int, a), d.update(a as int, (48 + i) as u8), base, i + 1)
    }
}

/// The encoding and decoding tables of the groups.
pub open spec fn group_tables(groups: Seq<Seq<u8>>) -> (Seq<u8>, Seq<u8>) {
    let z = Seq::new(256, |i: int| 0u8);
    let (t, d, code) = assign_groups(groups, 0, z, z, 1);
    assign_digits(t, d, code, 0)
}

/// The code of each byte under a layout.
pub open spec fn layout_table(layout: KeyboardLayout) -> Seq<u8> {
    group_tables(layout_groups(layout)).0
}

/// The population count of the XOR of `a[..n]` and `b[..n]`.
pub open spec fn xor_bits(a: Seq<u8>, b: Seq<u8>, n: int) -> nat
    decreases n,
{
    if n <= 0 {
        0
    } else {
        xor_bits(a, b, n - 1) + popcount((a[n - 1] ^ b[n - 1]) as u64)
    }
}

/// The bit distance of two encoded strings: the differing bits over their
/// common length, plus 8 per byte of length difference.
pub open spec fn bit_distance_spec(a: Seq<u8>, b: Seq<u8>) -> nat {
    if a.len() <= b.len() {
        (xor_bits(a, b, a.len() as int) + 8 * (b.len() - a.len())) as nat
    } else {
        (xor_bits(a, b, b.len() as int) + 8 * (a.len() - b.len())) as nat
    }
}

/// Every upper case letter has the code of its lower case letter.
pub open spec fn case_folded(t: Seq<u8>) -> bool {
    &&& t.len() == 256
    &&& forall|c: int| 97 <= c <= 122 ==> #[trigger] t[c] == t[c - 32]
}

/// Every byte of `g` is a lower case ASCII letter.
pub open spec fn all_lower(g: Seq<u8>) -> bool
    decreases g.len(),
{
    g.len() == 0 || (97 <= g.last() <= 122 && all_lower(g.drop_last()))
}

proof fn lemma_all_lower(g: Seq<u8>, i: int)
    requires
        all_lower(g),
        0 <= i < g.len(),
    ensures
        97 <= g[i] <= 122,
    decreases g.len(),
{
    if i < g.len() - 1 {
        lemma_all_lower(g.drop_last(), i);
    }
}

proof fn lemma_assign_group_folded(t: Seq<u8>, d: Seq<u8>, g: Seq<u8>, base: u8, i: nat)
    requires
        case_folded(t),
        all_lower(g),
    ensures
        case_folded(assign_group(t, d, g, base, i).0),
    decreases g.len() - i,
{
    if i < g.len() {
        let ch = g[i as int];
        lemma_all_lower(g, i as int);
        let a = wrap(base as int, i as int);
        let t2 = t.update(ch as int, a).update(upper(ch) as int, a);
        assert(case_folded(t2)) by {
            assert forall|c: int| 97 <= c <= 122 implies #[trigger] t2[c] == t2[c - 32] by {
                if c != ch {
                    assert(c - 32 != upper(ch));
                }
            }
        }
        lemma_assign_group_folded(t2, d.update(a as int, ch), g, base, i + 1);
    }
}

proof fn lemma_assign_groups_folded(groups: Seq<Seq<u8>>, k: nat, t: Seq<u8>, d: Seq<u8>, code: u8)
    requires
        case_folded(t),
        forall|j: int| 0 <= j < groups.len() ==> all_lower(#[trigger] groups[j]),
    ensures
        case_folded(assign_groups(groups, k, t, d, code).0),
    decreases groups.len() - k,
{
    if k < groups.len() {
        let (t2, d2) = assign_group(t, d, groups[k as int], code, 0);
        lemma_assign_group_folded(t, d, groups[k as int], code, 0);
        lemma_assign_groups_folded(groups, k + 1, t2, d2, next_code(code, groups[k as int].len()));
    }
}

proof fn lemma_assign_digits_folded(t: Seq<u8>, d: Seq<u8>, base: u8, i: nat)
    requires
        case_folded(t),
    ensures
        case_folded(assign_digits(t, d, base, i).0),
    decreases 10 - i,
{
    if i < 10 {
        let a = wrap(base as int, i as int);
        let t2 = t.update(48 + i as int, a);
        assert(case_folded(t2)) by {
            assert forall|c: int| 97 <= c <= 122 implies #[trigger] t2[c] == t2[c - 32] by {
                assert(t2[c] == t[c] && t2[c - 32] == t[c - 32]);
            }
        }
        lemma_assign_digits_folded(t2, d.update(a as int, (48 + i) as u8), base, i + 1);
    }
}

/// The confusion groups of every layout hold lower case letters only.
proof fn lemma_groups_lower(layout: KeyboardLayout)
    ensures
        forall|j: int| 0 <= j < layout_groups(layout).len() ==> all_lower(#[trigger] layout_groups(layout)[j]),
{
    reveal_with_fuel(all_lower, 6);
    let g = layout_groups(layout);
    assert forall|j: int| 0 <= j < g.len() implies all_lower(#[trigger] g[j]) by {
        assert(all_lower(g[0]));
        assert(all_lower(g[1]));
        assert(all_lower(g[2]));
        assert(all_lower(g[3]));
        assert(all_lower(g[4]));
        assert(all_lower(g[5]));
        assert(all_lower(g[6]));
        assert(all_lower(g[7]));
        assert(all_lower(g[8]));
        assert(g.len() == 9);
    }
}

/// Encoding ignores ASCII case: an upper case letter gets the code of its
/// lower case letter, under every layout.
pub proof fn lemma_case_insensitive(layout: KeyboardLayout, c: u8)
    requires
        65 <= c <= 90,
    ensures
        layout_table(layout)[c as int] == layout_table(layout)[c + 32],
{
    let z = Seq::new(256, |i: int| 0u8);
    assert(case_folded(z));
    lemma_groups_lower(layout);
    let (t, d, code) = assign_groups(layout_groups(layout), 0, z, z, 1);
    lemma_assign_groups_folded(layout_groups(layout), 0, z, z, 1);
    lemma_assign_digits_folded(t, d, code, 0);
    assert(layout_table(layout)[c + 32] == layout_table(layout)[c + 32 - 32]);
}

/// The first code after the groups `groups[k..]`, starting at `code`.
pub open spec fn code_after(groups: Seq<Seq<u8>>, k: nat, code: u8) -> u8
    decreases groups.len() - k,
{
    if k >= groups.len() {
        code
    } else {
        code_after(groups, k + 1, next_code(code, groups[k as int].len()))
    }
}

proof fn lemma_code_after(groups: Seq<Seq<u8>>, k: nat, t: Seq<u8>, d: Seq<u8>, code: u8)
    ensures
        assign_groups(groups, k, t, d, code).2 == code_after(groups, k, code),
    decreases groups.len() - k,
{
    if k < groups.len() {
        let (t2, d2) = assign_group(t, d, groups[k as int], code, 0);
        lemma_code_after(groups, k + 1, t2, d2, next_code(code, groups[k as int].len()));
    }
}

/// Assigning the digits from `'0' + i` on gives digit `j` the code
/// `base + j` and leaves every other byte alone.
proof fn lemma_assign_digits_codes(t: Seq<u8>, d: Seq<u8>, base: u8, i: nat)
    requires
        t.len() == 256,
        d.len() == 256,
        i <= 10,
    ensures
        assign_digits(t, d, base, i).0.len() == 256,
        forall|j: int| i <= j < 10 ==> #[trigger] assign_digits(t, d, base, i).0[48 + j] == wrap(base as int, j),
        forall|x: int| 0 <= x < 256 && !(48 + i <= x < 58) ==> #[trigger] assign_digits(t, d, base, i).0[x] == t[x],
    decreases 10 - i,
{
    if i < 10 {
        let a = wrap(base as int, i as int);
        let t2 = t.update(48 + i as int, a);
        let d2 = d.update(a as int, (48 + i) as u8);
        lemma_assign_digits_codes(t2, d2, base, i + 1);
        assert(assign_digits(t, d, base, i) == assign_digits(t2, d2, base, i + 1));
        assert(assign_digits(t2, d2, base, i + 1).0[48 + i as int] == t2[48 + i as int]);
    }
}

proof fn lemma_assign_group_len(t: Seq<u8>, d: Seq<u8>, g: Seq<u8>, base: u8, i: nat)
    requires
        t.len() == 256,
        d.len() == 256,
    ensures
        assign_group(t, d, g, base, i).0.len() == 256,
        assign_group(t, d, g, base, i).1.len() == 256,
    decreases g.len() - i,
{
    if i < g.len() {
        let ch = g[i as int];
        let a = wrap(base as int, i as int);
        lemma_assign_group_len(t.update(ch as int, a).update(upper(ch) as int, a), d.update(a as int, ch), g, base, i + 1);
    }
}

proof fn lemma_assign_groups_len(groups: Seq<Seq<u8>>, k: nat, t: Seq<u8>, d: Seq<u8>, code: u8)
    requires
        t.len() == 256,
        d.len() == 256,
    ensures
        assign_groups(groups, k, t, d, code).0.len() == 256,
        assign_groups(groups, k, t, d, code).1.len() == 256,
    decreases groups.len() - k,
{
    if k < groups.len() {
        let (t2, d2) = assign_group(t, d, groups[k as int], code, 0);
        lemma_assign_group_len(t, d, groups[k as int], code, 0);
        lemma_assign_groups_len(groups, k + 1, t2, d2, next_code(code, groups[k as int].len()));
    }
}

/// The letter groups of every layout end at code 72.
proof fn lemma_groups_end(layout: KeyboardLayout)
    ensures
        code_after(layout_groups(layout), 0, 1) == 72,
{
    let g = layout_groups(layout);
    match layout {
        KeyboardLayout::Qwerty => {
            assert(code_after(g, 9, 72u8) == 72);
            assert(next_code(64u8, 1) == 72u8);
            assert(code_after(g, 8, 64u8) == 72);
            assert(next_code(56u8, 2) == 64u8);
            assert(code_after(g, 7, 56u8) == 72);
            assert(next_code(48u8, 3) == 56u8);
            assert(code_after(g, 6, 48u8) == 72);
            assert(next_code(40u8, 3) == 48u8);
            assert(code_after(g, 5, 40u8) == 72);
            assert(next_code(32u8, 2) == 40u8);
            assert(code_after(g, 4, 32u8) == 72);
            assert(next_code(24u8, 4) == 32u8);
            assert(code_after(g, 3, 24u8) == 72);
            assert(next_code(16u8, 3) == 24u8);
            assert(code_after(g, 2, 16u8) == 72);
            assert(next_code(8u8, 3) == 16u8);
            assert(code_after(g, 1, 8u8) == 72);
            assert(next_code(1u8, 5) == 8u8);
            assert(code_after(g, 0, 1u8) == 72);
        },
        KeyboardLayout::Azerty => {
            assert(code_after(g, 9, 72u8) == 72);
            assert(next_code(64u8, 1) == 72u8);
            assert(code_after(g, 8, 64u8) == 72);
            assert(next_code(56u8, 1) == 64u8);
            assert(code_after(g, 7, 56u8) == 72);
            assert(next_code(48u8, 3) == 56u8);
            assert(code_after(g, 6, 48u8) == 72);
            assert(next_code(40u8, 3) == 48u8);
            assert(code_after(g, 5, 40u8) == 72);
            assert(next_code(32u8, 2) == 40u8);
            assert(code_after(g, 4, 32u8) == 72);
            assert(next_code(24u8, 4) == 32u8);
            assert(code_after(g, 3, 24u8) == 72);
            assert(next_code(16u8, 4) == 24u8);
            assert(code_after(g, 2, 16u8) == 72);
            assert(next_code(8u8, 4) == 16u8);
            assert(code_after(g, 1, 8u8) == 72);
            assert(next_code(1u8, 5) == 8u8);
            assert(code_after(g, 0, 1u8) == 72);
        },
        KeyboardLayout::Qwertz => {
            assert(code_after(g, 9, 72u8) == 72);
            assert(next_code(64u8, 1) == 72u8);
            assert(code_after(g, 8, 64u8) == 72);
            assert(next_code(56u8, 2) == 64u8);
            assert(code_after(g, 7, 56u8) == 72);
            assert(next_code(48u8, 3) == 56u8);
            assert(code_after(g, 6, 48u8) == 72);
            assert(next_code(40u8, 3) == 48u8);
            assert(code_after(g, 5, 40u8) == 72);
            assert(next_code(32u8, 2) == 40u8);
            assert(code_after(g, 4, 32u8) == 72);
            assert(next_code(24u8, 4) == 32u8);
            assert(code_after(g, 3, 24u8) == 72);
            assert(next_code(16u8, 3) == 24u8);
            assert(code_after(g, 2, 16u8) == 72);
            assert(next_code(8u8, 3) == 16u8);
            assert(code_after(g, 1, 8u8) == 72);
            assert(next_code(1u8, 5) == 8u8);
            assert(code_after(g, 0, 1u8) == 72);
        },
    }
}

/// The digits follow the letter groups: under every layout digit `'0' + d`
/// gets code `72 + d`, 72 being the first code after the last group. So
/// every digit has a non-zero code, and no two digits share one.
pub proof fn lemma_digit_codes(layout: KeyboardLayout, d1: int, d2: int)
    requires
        0 <= d1 < 10,
        0 <= d2 < 10,
    ensures
        layout_table(layout)[48 + d1] == 72 + d1,
        code_after(layout_groups(layout), 0, 1) == 72,
        layout_table(layout)[48 + d1] != 0,
        d1 != d2 ==> layout_table(layout)[48 + d1] != layout_table(layout)[48 + d2],
{
    let z = Seq::new(256, |i: int| 0u8);
    let (t, d, code) = assign_groups(layout_groups(layout), 0, z, z, 1);
    lemma_code_after(layout_groups(layout), 0, z, z, 1);
    lemma_groups_end(layout);
    lemma_assign_groups_len(layout_groups(layout), 0, z, z, 1);
    lemma_assign_digits_codes(t, d, code, 0);
    assert(layout_table(layout)[48 + d1] == wrap(72, d1));
    assert(layout_table(layout)[48 + d2] == wrap(72, d2));
}

/// A string is at bit distance 0 from itself.
pub proof fn lemma_bit_distance_self(a: Seq<u8>)
    ensures
        bit_distance_spec(a, a) == 0,
{
    lemma_xor_bits_self(a, a.len() as int);
}

proof fn lemma_xor_bits_self(a: Seq<u8>, n: int)
    ensures
        xor_bits(a, a, n) == 0,
    decreases n,
{
    if n > 0 {
        lemma_xor_bits_self(a, n - 1);
        let x = a[n - 1];
        assert(x ^ x == 0) by (bit_vector);
        assert(popcount(0u64) == 0);
    }
}

/// A byte encoding where likely typos flip few bits.
pub struct TypoEncoding {
    table: Vec<u8>,
    decode: Vec<u8>,
}

impl TypoEncoding {
    /// Both tables have an entry per byte.
    #[verifier::type_invariant]
    spec fn inv(self) -> bool {
        self.table.len() == 256 && self.decode.len() == 256
    }
}

/// The byte sequences of the vectors of `g`.
pub open spec fn views(g: Seq<Vec<u8>>) -> Seq<Seq<u8>> {
    Seq::new(g.len(), |k: int| g[k]@)
}

/// A copy of `a`.
fn bytes_of(a: &[u8]) -> (r: Vec<u8>)
    ensures
        r@ == a@,
{
    let mut r: Vec<u8> = Vec::new();
    let mut i: usize = 0;
    while i < a.len()
        invariant
            i <= a.len(),
            r@ == a@.take(i as int),
        decreases a.len() - i,
    {
        r.push(a[i]);
        assert(r@ =~= a@.take(i + 1));
        i = i + 1;
    }
    assert(a@.take(a.len() as int) =~= a@);
    r
}

fn qwerty_groups() -> (g: Vec<Vec<u8>>)
    ensures
        views(g@) == layout_groups(KeyboardLayout::Qwerty),
{
    let mut g: Vec<Vec<u8>> = Vec::new();
    let x = bytes_of(&[97u8, 101u8, 105u8, 111u8, 117u8]);
    assert(x@ =~= seq![97u8, 101u8, 105u8, 111u8, 117u8]);
    g.push(x);
    let x = bytes_of(&[115u8, 100u8, 102u8]);
    assert(x@ =~= seq![115u8, 100u8, 102u8]);
    g.push(x);
    let x = bytes_of(&[106u8, 107u8, 108u8]);
    assert(x@ =~= seq![106u8, 107u8, 108u8]);
    g.push(x);
    let x = bytes_of(&[113u8, 119u8, 114u8, 116u8]);
    assert(x@ =~= seq![113u8, 119u8, 114u8, 116u8]);
    g.push(x);
    let x = bytes_of(&[121u8, 112u8]);
    assert(x@ =~= seq![121u8, 112u8]);
    g.push(x);
    let x = bytes_of(&[98u8, 118u8, 103u8]);
    assert(x@ =~= seq![98u8, 118u8, 103u8]);
    g.push(x);
    let x = bytes_of(&[99u8, 120u8, 122u8]);
    assert(x@ =~= seq![99u8, 120u8, 122u8]);
    g.push(x);
    let x = bytes_of(&[110u8, 109u8]);
    assert(x@ =~= seq![110u8, 109u8]);
    g.push(x);
    let x = bytes_of(&[104u8]);
    assert(x@ =~= seq![104u8]);
    g.push(x);
    assert(views(g@) =~= layout_groups(KeyboardLayout::Qwerty));
    g
}

fn azerty_groups() -> (g: Vec<Vec<u8>>)
    ensures
        views(g@) == layout_groups(KeyboardLayout::Azerty),
{
    let mut g: Vec<Vec<u8>> = Vec::new();
    let x = bytes_of(&[97u8, 101u8, 105u8, 111u8, 117u8]);
    assert(x@ =~= seq![97u8, 101u8, 105u8, 111u8, 117u8]);
    g.push(x);
    let x = bytes_of(&[113u8, 115u8, 100u8, 102u8]);
    assert(x@ =~= seq![113u8, 115u8, 100u8, 102u8]);
    g.push(x);
    let x = bytes_of(&[106u8, 107u8, 108u8, 109u8]);
    assert(x@ =~= seq![106u8, 107u8, 108u8, 109u8]);
    g.push(x);
    let x = bytes_of(&[97u8, 122u8, 114u8, 116u8]);
    assert(x@ =~= seq![97u8, 122u8, 114u8, 116u8]);
    g.push(x);
    let x = bytes_of(&[121u8, 112u8]);
    assert(x@ =~= seq![121u8, 112u8]);
    g.push(x);
    let x = bytes_of(&[98u8, 118u8, 103u8]);
    assert(x@ =~= seq![98u8, 118u8, 103u8]);
    g.push(x);
    let x = bytes_of(&[99u8, 120u8, 119u8]);
    assert(x@ =~= seq![99u8, 120u8, 119u8]);
    g.push(x);
    let x = bytes_of(&[110u8]);
    assert(x@ =~= seq![110u8]);
    g.push(x);
    let x = bytes_of(&[104u8]);
    assert(x@ =~= seq![104u8]);
    g.push(x);
    assert(views(g@) =~= layout_groups(KeyboardLayout::Azerty));
    g
}

fn qwertz_groups() -> (g: Vec<Vec<u8>>)
    ensures
        views(g@) == layout_groups(KeyboardLayout::Qwertz),
{
    let mut g: Vec<Vec<u8>> = Vec::new();
    let x = bytes_of(&[97u8, 101u8, 105u8, 111u8, 117u8]);
    assert(x@ =~= seq![97u8, 101u8, 105u8, 111u8, 117u8]);
    g.push(x);
    let x = bytes_of(&[115u8, 100u8, 102u8]);
    assert(x@ =~= seq![115u8, 100u8, 102u8]);
    g.push(x);
    let x = bytes_of(&[106u8, 107u8, 108u8]);
    assert(x@ =~= seq![106u8, 107u8, 108u8]);
    g.push(x);
    let x = bytes_of(&[113u8, 119u8, 114u8, 116u8]);
    assert(x@ =~= seq![113u8, 119u8, 114u8, 116u8]);
    g.push(x);
    let x = bytes_of(&[122u8, 112u8]);
    assert(x@ =~= seq![122u8, 112u8]);
    g.push(x);
    let x = bytes_of(&[98u8, 118u8, 103u8]);
    assert(x@ =~= seq![98u8, 118u8, 103u8]);
    g.push(x);
    let x = bytes_of(&[99u8, 120u8, 121u8]);
    assert(x@ =~= seq![99u8, 120u8, 121u8]);
    g.push(x);
    let x = bytes_of(&[110u8, 109u8]);
    assert(x@ =~= seq![110u8, 109u8]);
    g.push(x);
    let x = bytes_of(&[104u8]);
    assert(x@ =~= seq![104u8]);
    g.push(x);
    assert(views(g@) =~= layout_groups(KeyboardLayout::Qwertz));
    g
}

/// The upper case of an ASCII lower case letter.
fn upper_exec(c: u8) -> (r: u8)
    ensures
        r == upper(c),
{
    if 97 <= c && c <= 122 { c - 32 } else { c }
}

impl TypoEncoding {
    /// The code of each byte.
    pub closed spec fn codes(&self) -> Seq<u8> {
        self.table@
    }

    /// The encoding of a layout.
    pub fn from_layout(layout: KeyboardLayout) -> (e: Self)
        ensures
            e.codes() == layout_table(layout),
    {
        let groups = match layout {
            KeyboardLayout::Qwerty => qwerty_groups(),
            KeyboardLayout::Azerty => azerty_groups(),
            KeyboardLayout::Qwertz => qwertz_groups(),
        };
        Self::from_groups(&groups)
    }

    /// The encoding of confusion groups.
    fn from_groups(groups: &Vec<Vec<u8>>) -> (e: Self)
        ensures
            e.codes() == group_tables(views(groups@)).0,
            e.codes().len() == 256,
    {
        let mut table: Vec<u8> = Vec::new();
        let mut decode: Vec<u8> = Vec::new();
        let mut i: usize = 0;
        while i < 256
            invariant
                i <= 256,
                table@ == Seq::new(i as nat, |j: int| 0u8),
                decode@ == Seq::new(i as nat, |j: int| 0u8),
            decreases 256 - i,
        {
            table.push(0);
            decode.push(0);
            assert(table@ =~= Seq::new((i + 1) as nat, |j: int| 0u8));
            assert(decode@ =~= Seq::new((i + 1) as nat, |j: int| 0u8));
            i = i + 1;
        }
        let ghost gs = views(groups@);
        let ghost z = Seq::new(256, |j: int| 0u8);
        let mut code: u8 = 1;
        let mut k: usize = 0;
        while k < groups.len()
            invariant
                gs == views(groups@),
                k <= groups.len(),
                table.len() == 256,
                decode.len() == 256,
                assign_groups(gs, 0, z, z, 1) == assign_groups(gs, k as nat, table@, decode@, code),
            decreases groups.len() - k,
        {
            let group = &groups[k];
            assert(group@ == gs[k as int]);
            let base = code;
            let ghost t_start = table@;
            let ghost d_start = decode@;
            let mut j: usize = 0;
            while j < group.len()
                invariant
                    gs == views(groups@),
                    k < groups.len(),
                    group@ == gs[k as int],
                    j <= group.len(),
                    table.len() == 256,
                    decode.len() == 256,
                    assign_group(table@, decode@, group@, base, j as nat) == assign_group(t_start, d_start, group@, base, 0),
                decreases group.len() - j,
            {
                let ch = group[j];
                let assigned = ((base as u16 + (j % 256) as u16) % 256) as u8;
                assert(assigned == wrap(base as int, j as int)) by {
                    assert((base + j % 256) % 256 == (base + j) % 256) by (nonlinear_arith);
                }
                table.set(ch as usize, assigned);
                table.set(upper_exec(ch) as usize, assigned);
                decode.set(assigned as usize, ch);
                j = j + 1;
            }
            let len_mod = (group.len() % 256) as u16;
            proof {
                let ln = group.len() as int;
                assert((code + ln % 256) % 256 == (code + ln) % 256) by (nonlinear_arith)
                    requires ln >= 0;
            }
            code = ((((code as u16 + len_mod) % 256 + 7) % 256) / 8 * 8) as u8;
            k = k + 1;
        }
        let digit_base = code;
        let mut d: u8 = 0;
        while d < 10
            invariant
                d <= 10,
                table.len() == 256,
                decode.len() == 256,
                assign_digits(assign_groups(gs, 0, z, z, 1).0, assign_groups(gs, 0, z, z, 1).1, digit_base, 0)
                    == assign_digits(table@, decode@, digit_base, d as nat),
            decreases 10 - d,
        {
            let assigned = ((digit_base as u16 + d as u16) % 256) as u8;
            table.set((48 + d) as usize, assigned);
            decode.set(assigned as usize, 48 + d);
            d = d + 1;
        }
        TypoEncoding { table, decode }
    }

    /// The code of byte `b`.
    pub fn encode_byte(&self, b: u8) -> (r: u8)
        ensures
            r == self.codes()[b as int],
    {
        proof {
            use_type_invariant(self);
        }
        self.table[b as usize]
    }

    /// The codes of the bytes of `s`.
    pub fn encode_str(&self, s: &[u8]) -> (r: Vec<u8>)
        ensures
            r@ == Seq::new(s@.len(), |i: int| self.codes()[s@[i] as int]),
    {
        let mut out: Vec<u8> = Vec::new();
        self.encode_into(s, &mut out);
        out
    }

    /// Writes the codes of the bytes of `s` into `out`, replacing what it
    /// held.
    pub fn encode_into(&self, s: &[u8], out: &mut Vec<u8>)
        ensures
            final(out)@ == Seq::new(s@.len(), |i: int| self.codes()[s@[i] as int]),
    {
        proof {
            use_type_invariant(self);
        }
        out.clear();
        let mut i: usize = 0;
        while i < s.len()
            invariant
                i <= s.len(),
                self.table.len() == 256,
                out@ == Seq::new(i as nat, |j: int| self.codes()[s@[j] as int]),
            decreases s.len() - i,
        {
            out.push(self.table[s[i] as usize]);
            assert(out@ =~= Seq::new((i + 1) as nat, |j: int| self.codes()[s@[j] as int]));
            i = i + 1;
        }
    }

    /// The bit distance of two encoded strings: the bits that differ over
    /// their common length, plus 8 for each byte of length difference.
    pub fn bit_distance(a: &[u8], b: &[u8]) -> (r: u32)
        requires
            bit_distance_spec(a@, b@) <= u32::MAX,
        ensures
            r == bit_distance_spec(a@, b@),
    {
        let len = if a.len() < b.len() { a.len() } else { b.len() };
        let ghost lenv = if a@.len() <= b@.len() { a@.len() } else { b@.len() };
        let mut total: u32 = 0;
        let mut j: usize = 0;
        while j < len
            invariant
                j <= len,
                len == lenv,
                lenv == if a@.len() <= b@.len() { a@.len() } else { b@.len() },
                len <= a.len(),
                len <= b.len(),
                total == xor_bits(a@, b@, j as int),
                xor_bits(a@, b@, j as int) <= xor_bits(a@, b@, len as int),
                bit_distance_spec(a@, b@) <= u32::MAX,
            decreases len - j,
        {
            let xb: u8 = a[j] ^ b[j];
            let x = xb as u64;
            proof {
                assert(x >> 8u64 == 0) by (bit_vector)
                    requires x == xb as u64;
                lemma_popcount_bound(x, 8);
                lemma_xor_bits_monotone(a@, b@, j + 1, len as int);
                assert(xor_bits(a@, b@, j + 1) == xor_bits(a@, b@, j as int) + popcount(x));
                assert(xor_bits(a@, b@, len as int) <= bit_distance_spec(a@, b@));
            }
            total = total + count_ones(x);
            j = j + 1;
        }
        let diff = if a.len() <= b.len() { b.len() - a.len() } else { a.len() - b.len() };
        proof {
            lemma_xor_bits_monotone(a@, b@, len as int, len as int);
        }
        total + (diff as u32) * 8
    }
}

/// The differing bits only grow with the length compared.
proof fn lemma_xor_bits_monotone(a: Seq<u8>, b: Seq<u8>, i: int, j: int)
    requires
        0 <= i <= j,
    ensures
        xor_bits(a, b, i) <= xor_bits(a, b, j),
    decreases j - i,
{
    if i < j {
        lemma_xor_bits_monotone(a, b, i, j - 1);
    }
}

} // verus!
