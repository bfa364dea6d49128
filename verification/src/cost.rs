//! Fixed-point edit costs (16 = one ordinary edit) and keyboard adjacency.
//!
//! Integer costs make the search bounds exact and the results identical on
//! every platform. Edits on the first query symbol cost 1.5x, a neighbouring
//! key or a doubled letter costs half, a transposition three quarters.
use vstd::prelude::*;

verus! {

/// A fixed-point edit cost (16 = one ordinary edit).
pub type Cost = u16;

/// The cost of one ordinary edit.
pub const COST_UNIT: u16 = 16;

/// Sentinel for "unreachable or over budget"; `INF` plus any single edit
/// cost still fits in a `u16`.
pub const INF: u16 = 30000;

/// The weighted cost rounded up to whole units of 16.
pub open spec fn units(cost: int) -> int {
    (cost + 15) / 16
}

/// `cost` rounded up to whole units of [`COST_UNIT`]: 0 stays 0, 1 to 16 is
/// one unit, 17 to 32 two units, and so on.
pub fn whole_units(cost: u16) -> (r: u16)
    ensures
        r == units(cost as int),
{
    let q = cost / 16;
    if cost % 16 == 0 { q } else { q + 1 }
}

/// The bit of a byte's class: only its low six bits count.
pub open spec fn byte_class(b: u8) -> u64 {
    1u64 << ((b & 63u8) as u64)
}

/// The bit that represents the class of byte `b` (used by subtree
/// signatures). Bytes that agree modulo 64 share a class.
pub fn class(b: u8) -> (r: u64)
    ensures
        r == byte_class(b),
{
    let k = b & 63;
    assert(k < 64) by (bit_vector)
        requires k == b & 63u8;
    1u64 << (k as u64)
}

/// The bit position of the class of a symbol: the low six bits of an ASCII
/// symbol, the symbol modulo 19 for every other scalar value.
pub open spec fn class_bit(s: u32) -> u64 {
    if s < 128 { (s % 64) as u64 } else { (s % 19) as u64 }
}

/// The class of a symbol, as a one-bit mask.
pub open spec fn sym_class(s: u32) -> u64 {
    1u64 << class_bit(s)
}

/// The class of a symbol (a Unicode scalar value): [`class`] for ASCII, a
/// fold of the value into 19 classes otherwise. A collision only weakens
/// the bounds that use the classes.
pub fn symbol_class(s: u32) -> (r: u64)
    ensures
        r == sym_class(s),
{
    if s < 128 {
        1u64 << ((s % 64) as u64)
    } else {
        1u64 << ((s % 19) as u64)
    }
}

/// A keyboard layout.
#[derive(Clone, Copy, Debug, PartialEq, Eq, Hash)]
pub enum Layout {
    Qwerty,
    Qwertz,
    Azerty,
    Dvorak,
    Colemak,
    Abnt2,
}

/// Row `r` (0 = top letter row) of a layout, left to right.
pub open spec fn layout_row(l: Layout, r: u8) -> Seq<char> {
    match (l, r) {
            (Layout::Qwerty, 0) => seq!['q', 'w', 'e', 'r', 't', 'y', 'u', 'i', 'o', 'p'],
            (Layout::Qwerty, 1) => seq!['a', 's', 'd', 'f', 'g', 'h', 'j', 'k', 'l'],
            (Layout::Qwerty, 2) => seq!['z', 'x', 'c', 'v', 'b', 'n', 'm'],
            (Layout::Qwertz, 0) => seq!['q', 'w', 'e', 'r', 't', 'z', 'u', 'i', 'o', 'p'],
            (Layout::Qwertz, 1) => seq!['a', 's', 'd', 'f', 'g', 'h', 'j', 'k', 'l'],
            (Layout::Qwertz, 2) => seq!['y', 'x', 'c', 'v', 'b', 'n', 'm'],
            (Layout::Azerty, 0) => seq!['a', 'z', 'e', 'r', 't', 'y', 'u', 'i', 'o', 'p'],
            (Layout::Azerty, 1) => seq!['q', 's', 'd', 'f', 'g', 'h', 'j', 'k', 'l', 'm'],
            (Layout::Azerty, 2) => seq!['w', 'x', 'c', 'v', 'b', 'n'],
            (Layout::Dvorak, 0) => seq!['\'', ',', '.', 'p', 'y', 'f', 'g', 'c', 'r', 'l'],
            (Layout::Dvorak, 1) => seq!['a', 'o', 'e', 'u', 'i', 'd', 'h', 't', 'n', 's'],
            (Layout::Dvorak, 2) => seq![';', 'q', 'j', 'k', 'x', 'b', 'm', 'w', 'v', 'z'],
            (Layout::Colemak, 0) => seq!['q', 'w', 'f', 'p', 'g', 'j', 'l', 'u', 'y', ';'],
            (Layout::Colemak, 1) => seq!['a', 'r', 's', 't', 'd', 'h', 'n', 'e', 'i', 'o'],
            (Layout::Colemak, 2) => seq!['z', 'x', 'c', 'v', 'b', 'k', 'm'],
            (Layout::Abnt2, 0) => seq!['q', 'w', 'e', 'r', 't', 'y', 'u', 'i', 'o', 'p'],
            (Layout::Abnt2, 1) => seq!['a', 's', 'd', 'f', 'g', 'h', 'j', 'k', 'l', '\u{E7}'],
            (Layout::Abnt2, 2) => seq!['z', 'x', 'c', 'v', 'b', 'n', 'm', ',', '.', ';'],
        _ => Seq::empty(),
    }
}

/// The first index of `c` in `row`, or -1.
pub open spec fn index_in(row: Seq<char>, c: char) -> int
    decreases row.len(),
{
    if row.len() == 0 {
        -1
    } else if row[0] == c {
        0
    } else {
        let k = index_in(row.drop_first(), c);
        if k < 0 { -1 } else { k + 1 }
    }
}

/// The row of key `c` (0 to 2), or -1 if the layout has no such key.
pub open spec fn key_row(l: Layout, c: char) -> int {
    if index_in(layout_row(l, 0), c) >= 0 {
        0
    } else if index_in(layout_row(l, 1), c) >= 0 {
        1
    } else if index_in(layout_row(l, 2), c) >= 0 {
        2
    } else {
        -1
    }
}

/// The column of key `c` in its row.
pub open spec fn key_col(l: Layout, c: char) -> int {
    index_in(layout_row(l, key_row(l, c) as u8), c)
}

/// Whether two distinct keys touch: side by side in a row, or in adjacent
/// rows where each row sits half a key to the right of the one above (the
/// key above `c` is at `c` and `c + 1`, the key below at `c - 1` and `c`).
pub open spec fn keys_adjacent(l: Layout, a: char, b: char) -> bool {
    let (ra, rb) = (key_row(l, a), key_row(l, b));
    let (ca, cb) = (key_col(l, a), key_col(l, b));
    &&& a != b
    &&& ra >= 0
    &&& rb >= 0
    &&& {
        ||| (ra == rb && (cb == ca + 1 || ca == cb + 1))
        ||| (rb == ra - 1 && (cb == ca || cb == ca + 1))
        ||| (rb == ra + 1 && (cb == ca - 1 || cb == ca))
    }
}

fn row_of(l: Layout, r: u8) -> (v: Vec<char>)
    ensures
        v@ == layout_row(l, r),
{
    match (l, r) {
            (Layout::Qwerty, 0) => vec!['q', 'w', 'e', 'r', 't', 'y', 'u', 'i', 'o', 'p'],
            (Layout::Qwerty, 1) => vec!['a', 's', 'd', 'f', 'g', 'h', 'j', 'k', 'l'],
            (Layout::Qwerty, 2) => vec!['z', 'x', 'c', 'v', 'b', 'n', 'm'],
            (Layout::Qwertz, 0) => vec!['q', 'w', 'e', 'r', 't', 'z', 'u', 'i', 'o', 'p'],
            (Layout::Qwertz, 1) => vec!['a', 's', 'd', 'f', 'g', 'h', 'j', 'k', 'l'],
            (Layout::Qwertz, 2) => vec!['y', 'x', 'c', 'v', 'b', 'n', 'm'],
            (Layout::Azerty, 0) => vec!['a', 'z', 'e', 'r', 't', 'y', 'u', 'i', 'o', 'p'],
            (Layout::Azerty, 1) => vec!['q', 's', 'd', 'f', 'g', 'h', 'j', 'k', 'l', 'm'],
            (Layout::Azerty, 2) => vec!['w', 'x', 'c', 'v', 'b', 'n'],
            (Layout::Dvorak, 0) => vec!['\'', ',', '.', 'p', 'y', 'f', 'g', 'c', 'r', 'l'],
            (Layout::Dvorak, 1) => vec!['a', 'o', 'e', 'u', 'i', 'd', 'h', 't', 'n', 's'],
            (Layout::Dvorak, 2) => vec![';', 'q', 'j', 'k', 'x', 'b', 'm', 'w', 'v', 'z'],
            (Layout::Colemak, 0) => vec!['q', 'w', 'f', 'p', 'g', 'j', 'l', 'u', 'y', ';'],
            (Layout::Colemak, 1) => vec!['a', 'r', 's', 't', 'd', 'h', 'n', 'e', 'i', 'o'],
            (Layout::Colemak, 2) => vec!['z', 'x', 'c', 'v', 'b', 'k', 'm'],
            (Layout::Abnt2, 0) => vec!['q', 'w', 'e', 'r', 't', 'y', 'u', 'i', 'o', 'p'],
            (Layout::Abnt2, 1) => vec!['a', 's', 'd', 'f', 'g', 'h', 'j', 'k', 'l', '\u{E7}'],
            (Layout::Abnt2, 2) => vec!['z', 'x', 'c', 'v', 'b', 'n', 'm', ',', '.', ';'],
        _ => Vec::new(),
    }
}

fn find_in(row: &Vec<char>, c: char) -> (k: i64)
    requires
        row@.len() < 100,
    ensures
        k == index_in(row@, c),
        -1 <= k < 100,
{
    let mut i: usize = 0;
    assert(row@.skip(0) =~= row@);
    while i < row.len()
        invariant
            i <= row@.len(),
            row@.len() < 100,
            forall|j: int| 0 <= j < i ==> row@[j] != c,
            index_in(row@, c) == if index_in(row@.skip(i as int), c) < 0 { -1 } else { index_in(row@.skip(i as int), c) + i },
        decreases row@.len() - i,
    {
        if row[i] == c {
            assert(row@.skip(i as int)[0] == c);
            return i as i64;
        }
        assert(row@.skip(i as int).drop_first() =~= row@.skip(i + 1));
        i = i + 1;
    }
    assert(row@.skip(i as int).len() == 0);
    -1
}

/// The position (row, column) of key `c`, or `None`.
fn key_pos(l: Layout, c: char) -> (p: Option<(i64, i64)>)
    ensures
        p is None <==> key_row(l, c) < 0,
        p matches Some((r, col)) ==> r == key_row(l, c) && col == key_col(l, c) && 0 <= col < 100,
{
    let mut r: u8 = 0;
    while r < 3
        invariant
            r <= 3,
            forall|k: u8| 0 <= k < r ==> index_in(#[trigger] layout_row(l, k), c) < 0,
        decreases 3 - r,
    {
        let row = row_of(l, r);
        proof { lemma_rows_short(l, r); }
        let k = find_in(&row, c);
        if k >= 0 {
            return Some((r as i64, k));
        }
        r = r + 1;
    }
    None
}

proof fn lemma_rows_short(l: Layout, r: u8)
    ensures
        layout_row(l, r).len() < 100,
{
}

impl Layout {
    /// Every supported layout.
    pub const ALL: [Layout; 6] = [Layout::Qwerty, Layout::Qwertz, Layout::Azerty, Layout::Abnt2, Layout::Dvorak, Layout::Colemak];

    /// The layout's name.
    pub fn name(self) -> (s: &'static str) {
        match self {
            Layout::Qwerty => "qwerty",
            Layout::Qwertz => "qwertz",
            Layout::Azerty => "azerty",
            Layout::Dvorak => "dvorak",
            Layout::Colemak => "colemak",
            Layout::Abnt2 => "abnt2",
        }
    }

    /// Whether keys `a` and `b` touch on this layout (symmetric; a key is
    /// not its own neighbour).
    pub fn are_neighbours(self, a: char, b: char) -> (r: bool)
        ensures
            r == keys_adjacent(self, a, b),
    {
        if a == b {
            return false;
        }
        match (key_pos(self, a), key_pos(self, b)) {
            (Some((ra, ca)), Some((rb, cb))) => {
                (ra == rb && (cb == ca + 1 || ca == cb + 1))
                    || (rb == ra - 1 && (cb == ca || cb == ca + 1))
                    || (rb == ra + 1 && (cb == ca - 1 || cb == ca))
            },
            _ => false,
        }
    }
}

/// Keyboard adjacency is symmetric.
pub proof fn lemma_keys_adjacent_symmetric(l: Layout, a: char, b: char)
    ensures
        keys_adjacent(l, a, b) == keys_adjacent(l, b, a),
{
}

/// The model of a layout charges the same for substituting `a` by `b` as
/// for `b` by `a`, at every query position.
pub proof fn lemma_sub_symmetric(layout: Layout, cm: CostModel, a: u32, b: u32, qpos: int)
    requires
        forall|x: u32, y: u32| #[trigger] cm.adjacent(x, y)
            == (97 <= x < 123 && 97 <= y < 123 && keys_adjacent(layout, x as char, y as char)),
    ensures
        cm.adjacent(a, b) == cm.adjacent(b, a),
        sub_spec(a, b, cm.adjacent(a, b), qpos) == sub_spec(b, a, cm.adjacent(b, a), qpos),
{
    lemma_keys_adjacent_symmetric(layout, a as char, b as char);
    assert(cm.adjacent(a, b) == cm.adjacent(b, a));
}

/// A value that the cost model compares as a symbol: a byte or a Unicode
/// scalar value.
pub trait Symbol: Copy {
    /// The symbol's value.
    spec fn sym(self) -> u32;

    /// The symbol's value.
    fn value(self) -> (r: u32)
        ensures
            r == self.sym();
}

impl Symbol for u8 {
    open spec fn sym(self) -> u32 {
        self as u32
    }

    fn value(self) -> (r: u32) {
        self as u32
    }
}

impl Symbol for u32 {
    open spec fn sym(self) -> u32 {
        self
    }

    fn value(self) -> (r: u32) {
        self
    }
}

/// Bit `k` of `x`.
pub open spec fn bit(x: u32, k: u32) -> bool {
    (x >> k) & 1u32 == 1u32
}

proof fn lemma_or_bit(x: u32, j: u32, k: u32)
    requires
        j < 32,
        k < 32,
    ensures
        bit(x | (1u32 << j), k) == (bit(x, k) || k == j),
{
    assert(((x | (1u32 << j)) >> k) & 1u32 == 1u32 <==> (((x >> k) & 1u32 == 1u32) || k == j)) by (bit_vector)
        requires j < 32, k < 32;
}

proof fn lemma_zero_bit(k: u32)
    requires
        k < 32,
    ensures
        !bit(0u32, k),
{
    assert((0u32 >> k) & 1u32 != 1u32) by (bit_vector);
}

/// A cost `c` with the 1.5x factor of the first query position.
pub open spec fn at_start(c: int, qpos: int) -> int {
    if qpos == 0 { c + c / 2 } else { c }
}

fn at_start_exec(cost: u16, qpos: usize) -> (r: u16)
    requires
        cost <= 16,
    ensures
        r == at_start(cost as int, qpos as int),
        r <= 24,
{
    if qpos == 0 { cost + cost / 2 } else { cost }
}

/// Substituting `t` (the term's symbol) by `q` (the query's) at query
/// position `qpos`, given whether the two keys touch.
pub open spec fn sub_spec(q: u32, t: u32, adjacent: bool, qpos: int) -> int {
    if q == t { 0 } else { at_start(if adjacent { 8 } else { 16 }, qpos) }
}

/// Deleting query symbol `qpos` of `q` (an extra symbol the user typed):
/// cheaper when it repeats the symbol before it.
pub open spec fn del_spec(q: Seq<u32>, qpos: int) -> int {
    let doubled = qpos > 0 && qpos < q.len() && q[qpos] == q[qpos - 1];
    at_start(if doubled { 8 } else { 16 }, qpos)
}

/// Inserting term symbol `t` (one the user skipped), after `qpos` query
/// symbols, cheaper when it repeats the term symbol before it.
pub open spec fn ins_spec(t: u32, prev: Option<u32>, qpos: int) -> int {
    at_start(if prev == Some(t) { 8 } else { 16 }, qpos)
}

/// Swapping two adjacent symbols, the first at query position `qpos`.
pub open spec fn transpose_spec(qpos: int) -> int {
    at_start(12, qpos)
}

/// The symbols of a sequence of bytes or scalar values.
pub open spec fn syms<S: Symbol>(q: Seq<S>) -> Seq<u32> {
    q.map_values(|s: S| s.sym())
}

/// Costs of the four edit operations and the keyboard adjacency of a-z.
#[derive(Debug, PartialEq, Eq)]
pub struct CostModel {
    sub: u16,
    sub_adjacent: u16,
    indel: u16,
    indel_double: u16,
    transpose: u16,
    adjacent: [u32; 26],
}

impl CostModel {
    #[verifier::type_invariant]
    spec fn costs_fixed(self) -> bool {
        &&& self.sub == 16
        &&& self.sub_adjacent == 8
        &&& self.indel == 16
        &&& self.indel_double == 8
        &&& self.transpose == 12
    }

    /// Whether the letters `a` and `b` (as scalar values) are neighbouring
    /// keys of the model's keyboard. Only a-z can be neighbours.
    pub closed spec fn adjacent(self, a: u32, b: u32) -> bool {
        97 <= a < 123 && 97 <= b < 123 && bit(self.adjacent[(a - 97) as int], (b - 97) as u32)
    }

    /// The model of a layout: every pair of touching a-z keys is adjacent.
    pub fn for_layout(layout: Layout) -> (cm: CostModel)
        ensures
            forall|a: u32, b: u32| #[trigger] cm.adjacent(a, b) ==
                (97 <= a < 123 && 97 <= b < 123 && keys_adjacent(layout, a as char, b as char)),
    {
        let mut adjacent = [0u32; 26];
        let mut i: u32 = 0;
        while i < 26
            invariant
                i <= 26,
                forall|x: int, k: u32| 0 <= x < i && k < 26 ==> #[trigger] bit(adjacent[x], k) ==
                    keys_adjacent(layout, (x + 97) as char, (k + 97) as char),
                forall|x: int| i <= x < 26 ==> adjacent[x] == 0,
            decreases 26 - i,
        {
            let mut row: u32 = 0;
            let mut j: u32 = 0;
            assert forall|k: u32| j <= k < 32 implies !#[trigger] bit(row, k) by {
                lemma_zero_bit(k);
            }
            while j < 26
                invariant
                    i < 26,
                    j <= 26,
                    forall|k: u32| k < j ==> #[trigger] bit(row, k) ==
                        keys_adjacent(layout, (i + 97) as char, (k + 97) as char),
                    forall|k: u32| j <= k < 32 ==> !#[trigger] bit(row, k),
                decreases 26 - j,
            {
                let a = ((97 + i) as u8) as char;
                let b = ((97 + j) as u8) as char;
                if layout.are_neighbours(a, b) {
                    proof {
                        assert forall|k: u32| k < 32 implies #[trigger] bit(row | (1u32 << j), k) == (bit(row, k) || k == j) by {
                            lemma_or_bit(row, j, k);
                        }
                    }
                    row = row | (1u32 << j);
                }
                j = j + 1;
            }
            adjacent[i as usize] = row;
            i = i + 1;
        }
        let cm = CostModel { sub: 16, sub_adjacent: 8, indel: 16, indel_double: 8, transpose: 12, adjacent };
        assert forall|a: u32, b: u32| #[trigger] cm.adjacent(a, b) ==
            (97 <= a < 123 && 97 <= b < 123 && keys_adjacent(layout, a as char, b as char)) by {
            if 97 <= a < 123 && 97 <= b < 123 {
                assert(bit(adjacent[(a - 97) as int], (b - 97) as u32) == keys_adjacent(layout, a as char, b as char));
            }
        }
        cm
    }

    /// The default model: a QWERTY keyboard.
    pub fn qwerty() -> (cm: CostModel)
        ensures
            forall|a: u32, b: u32| #[trigger] cm.adjacent(a, b) ==
                (97 <= a < 123 && 97 <= b < 123 && keys_adjacent(Layout::Qwerty, a as char, b as char)),
    {
        Self::for_layout(Layout::Qwerty)
    }

    fn is_adjacent(&self, a: u32, b: u32) -> (r: bool)
        ensures
            r == self.adjacent(a, b),
    {
        if a < 97 || a >= 123 || b < 97 || b >= 123 {
            return false;
        }
        let ia = (a - 97) as usize;
        let ib = b - 97;
        (self.adjacent[ia] >> ib) & 1 == 1
    }

    /// Cost of typing `q` where the term has `t`; `qpos` is the index of `q`
    /// in the query.
    pub fn sub_cost<S: Symbol>(&self, q: S, t: S, qpos: usize) -> (c: u16)
        ensures
            c == sub_spec(q.sym(), t.sym(), self.adjacent(q.sym(), t.sym()), qpos as int),
            c <= 24,
    {
        proof { use_type_invariant(self); }
        let (qv, tv) = (q.value(), t.value());
        if qv == tv {
            return 0;
        }
        let base = if self.is_adjacent(qv, tv) { self.sub_adjacent } else { self.sub };
        at_start_exec(base, qpos)
    }

    /// Cost of deleting the query symbol at `qpos` (the user typed an extra
    /// symbol); a repeat of the symbol before it is cheaper.
    pub fn del_cost<S: Symbol>(&self, q: &[S], qpos: usize) -> (c: u16)
        ensures
            c == del_spec(syms(q@), qpos as int),
            c <= 24,
    {
        proof { use_type_invariant(self); }
        let doubled = qpos > 0 && qpos < q.len() && q[qpos].value() == q[qpos - 1].value();
        at_start_exec(if doubled { self.indel_double } else { self.indel }, qpos)
    }

    /// Cost of inserting term symbol `t` (the user skipped it) when `qpos`
    /// query symbols are consumed; `prev_t` is the term symbol before it.
    pub fn ins_cost<S: Symbol>(&self, t: S, prev_t: Option<S>, qpos: usize) -> (c: u16)
        ensures
            c == ins_spec(t.sym(), match prev_t { Some(p) => Some(p.sym()), None => None }, qpos as int),
            c <= 24,
    {
        proof { use_type_invariant(self); }
        let doubled = match prev_t {
            Some(p) => p.value() == t.value(),
            None => false,
        };
        at_start_exec(if doubled { self.indel_double } else { self.indel }, qpos)
    }

    /// Cost of swapping two adjacent symbols, the first at `qpos` in the
    /// query.
    pub fn transpose_cost(&self, qpos: usize) -> (c: u16)
        ensures
            c == transpose_spec(qpos as int),
    {
        proof { use_type_invariant(self); }
        at_start_exec(self.transpose, qpos)
    }

    /// Smallest cost of any single edit.
    pub fn c_min(&self) -> (c: u16)
        ensures
            c == 8,
    {
        proof { use_type_invariant(self); }
        let mut m = self.sub;
        if self.sub_adjacent < m { m = self.sub_adjacent; }
        if self.indel < m { m = self.indel; }
        if self.indel_double < m { m = self.indel_double; }
        if self.transpose < m { m = self.transpose; }
        m
    }

    /// Smallest cost of an insertion or deletion.
    pub fn c_indel_min(&self) -> (c: u16)
        ensures
            c == 8,
    {
        proof { use_type_invariant(self); }
        if self.indel < self.indel_double { self.indel } else { self.indel_double }
    }

    /// Smallest cost of a transposition.
    pub fn c_transpose_min(&self) -> (c: u16)
        ensures
            c == 12,
    {
        proof { use_type_invariant(self); }
        self.transpose
    }
}

impl Clone for CostModel {
    fn clone(&self) -> (c: Self)
        ensures
            c == *self,
    {
        proof { use_type_invariant(self); }
        CostModel {
            sub: self.sub,
            sub_adjacent: self.sub_adjacent,
            indel: self.indel,
            indel_double: self.indel_double,
            transpose: self.transpose,
            adjacent: self.adjacent,
        }
    }
}

} // verus!
