//! Strings with substitutions stacked on top, and the comparisons the CGL
//! tree makes on them.
use vstd::prelude::*;
use core::cmp::Ordering;
use crate::legacy::columnar::mismatches;

verus! {

/// A byte substitution at a position.
#[derive(Clone, Copy, Debug)]
pub struct Alteration {
    pub index: usize,
    pub ch: u8,
}

/// `base` with the in-range alterations applied in order.
pub open spec fn applied(base: Seq<u8>, alts: Seq<Alteration>) -> Seq<u8>
    decreases alts.len(),
{
    if alts.len() == 0 {
        base
    } else {
        let prev = applied(base, alts.drop_last());
        let a = alts.last();
        if a.index < prev.len() { prev.update(a.index as int, a.ch) } else { prev }
    }
}

proof fn lemma_applied_len(base: Seq<u8>, alts: Seq<Alteration>)
    ensures applied(base, alts).len() == base.len(),
    decreases alts.len(),
{
    if alts.len() > 0 {
        lemma_applied_len(base, alts.drop_last());
    }
}

/// A string with lazy alterations, caching its materialised bytes.
#[derive(Debug)]
pub struct AlteredString {
    pub base: Vec<u8>,
    pub alterations: Vec<Alteration>,
    pub origin: Option<usize>,
    cached: Vec<u8>,
}

impl AlteredString {
    /// The materialised bytes.
    pub closed spec fn text(&self) -> Seq<u8> {
        self.cached@
    }

    /// The unaltered bytes.
    pub closed spec fn base_view(&self) -> Seq<u8> {
        self.base@
    }

    /// The alterations, oldest first.
    pub closed spec fn alterations_view(&self) -> Seq<Alteration> {
        self.alterations@
    }

    /// Where the string came from.
    pub closed spec fn origin_view(&self) -> Option<usize> {
        self.origin
    }

    /// The cache holds the base with the alterations applied.
    pub closed spec fn wf(&self) -> bool {
        self.cached@ == applied(self.base@, self.alterations@)
    }

    /// A string with no alterations.
    pub fn new(base: &[u8], origin: Option<usize>) -> (s: Self)
        ensures
            s.wf(),
            s.base_view() == base@,
            s.alterations_view().len() == 0,
            s.origin_view() == origin,
            s.text() == base@,
    {
        let mut b: Vec<u8> = Vec::new();
        let mut c: Vec<u8> = Vec::new();
        let mut i: usize = 0;
        while i < base.len()
            invariant
                i <= base@.len(),
                b@ == base@.take(i as int),
                c@ == base@.take(i as int),
            decreases base@.len() - i,
        {
            b.push(base[i]);
            c.push(base[i]);
            assert(base@.take(i + 1) == base@.take(i as int).push(base@[i as int]));
            i = i + 1;
        }
        assert(base@.take(base@.len() as int) == base@);
        AlteredString { base: b, alterations: Vec::new(), origin, cached: c }
    }

    /// Where the string came from.
    pub fn origin_value(&self) -> (r: Option<usize>)
        ensures
            r == self.origin_view(),
    {
        self.origin
    }

    /// The materialised bytes (the cache).
    pub fn as_bytes(&self) -> (r: &[u8])
        ensures
            r@ == self.text(),
    {
        self.cached.as_slice()
    }

    /// A copy with one more alteration: byte `index` becomes `ch` when it is
    /// within the string.
    pub fn with_alteration(&self, index: usize, ch: u8) -> (s: Self)
        requires
            self.wf(),
        ensures
            s.wf(),
            s.base_view() == self.base_view(),
            s.origin_view() == self.origin_view(),
            s.alterations_view() == self.alterations_view().push(Alteration { index, ch }),
            s.text() == if index < self.text().len() { self.text().update(index as int, ch) } else { self.text() },
    {
        let mut base: Vec<u8> = Vec::new();
        let mut i: usize = 0;
        while i < self.base.len()
            invariant
                i <= self.base@.len(),
                base@ == self.base@.take(i as int),
            decreases self.base@.len() - i,
        {
            base.push(self.base[i]);
            assert(self.base@.take(i + 1) == self.base@.take(i as int).push(self.base@[i as int]));
            i = i + 1;
        }
        assert(self.base@.take(self.base@.len() as int) == self.base@);
        let mut alts: Vec<Alteration> = Vec::new();
        let mut i: usize = 0;
        while i < self.alterations.len()
            invariant
                i <= self.alterations@.len(),
                alts@ == self.alterations@.take(i as int),
            decreases self.alterations@.len() - i,
        {
            let a = self.alterations[i];
            alts.push(Alteration { index: a.index, ch: a.ch });
            assert(self.alterations@.take(i + 1) == self.alterations@.take(i as int).push(a));
            i = i + 1;
        }
        assert(self.alterations@.take(self.alterations@.len() as int) == self.alterations@);
        alts.push(Alteration { index, ch });
        let mut cached: Vec<u8> = Vec::new();
        let mut i: usize = 0;
        while i < self.cached.len()
            invariant
                i <= self.cached@.len(),
                cached@ == self.cached@.take(i as int),
            decreases self.cached@.len() - i,
        {
            cached.push(self.cached[i]);
            assert(self.cached@.take(i + 1) == self.cached@.take(i as int).push(self.cached@[i as int]));
            i = i + 1;
        }
        assert(self.cached@.take(self.cached@.len() as int) == self.cached@);
        if index < cached.len() {
            cached.set(index, ch);
        }
        let s = AlteredString { base, alterations: alts, origin: self.origin, cached };
        assert(alts@.drop_last() == self.alterations@);
        s
    }
}

/// Hamming distance over the common length of two altered strings.
pub fn hamming(a: &AlteredString, b: &AlteredString) -> (d: usize)
    ensures
        d == mismatches(a.text(), b.text(), if a.text().len() <= b.text().len() { a.text().len() as int } else { b.text().len() as int }),
{
    let ab = a.as_bytes();
    let bb = b.as_bytes();
    let len = if ab.len() < bb.len() { ab.len() } else { bb.len() };
    let mut dist: usize = 0;
    let mut i: usize = 0;
    while i < len
        invariant
            i <= len,
            len <= ab@.len(),
            len <= bb@.len(),
            dist == mismatches(ab@, bb@, i as int),
            dist <= i,
        decreases len - i,
    {
        if ab[i] != bb[i] {
            dist = dist + 1;
        }
        i = i + 1;
    }
    dist
}

/// Length of the longest common prefix of `a` and `b`.
pub open spec fn common_prefix(a: Seq<u8>, b: Seq<u8>, n: nat) -> bool {
    &&& n <= a.len()
    &&& n <= b.len()
    &&& forall|i: int| 0 <= i < n ==> a[i] == b[i]
    &&& (n == a.len() || n == b.len() || a[n as int] != b[n as int])
}

/// The longest common prefix length of two altered strings.
pub fn lcp(a: &AlteredString, b: &AlteredString) -> (n: usize)
    ensures
        common_prefix(a.text(), b.text(), n as nat),
{
    let ab = a.as_bytes();
    let bb = b.as_bytes();
    let len = if ab.len() < bb.len() { ab.len() } else { bb.len() };
    let mut i: usize = 0;
    while i < len && ab[i] == bb[i]
        invariant
            i <= len,
            len <= ab@.len(),
            len <= bb@.len(),
            len == ab@.len() || len == bb@.len(),
            forall|j: int| 0 <= j < i ==> ab@[j] == bb@[j],
        decreases len - i,
    {
        i = i + 1;
    }
    i
}

/// Lexicographic order of byte sequences.
pub open spec fn lex_less(a: Seq<u8>, b: Seq<u8>) -> bool
    decreases a.len(),
{
    if a.len() == 0 {
        b.len() > 0
    } else if b.len() == 0 {
        false
    } else if a[0] != b[0] {
        a[0] < b[0]
    } else {
        lex_less(a.drop_first(), b.drop_first())
    }
}

/// Whether the materialised bytes of `a` sort strictly before those of `b`.
pub fn text_less(a: &AlteredString, b: &AlteredString) -> (r: bool)
    ensures
        r == lex_less(a.text(), b.text()),
{
    match lex_cmp(a, b) {
        Ordering::Less => true,
        _ => false,
    }
}

/// Compares the materialised bytes lexicographically.
pub fn lex_cmp(a: &AlteredString, b: &AlteredString) -> (o: Ordering)
    ensures
        (o == Ordering::Less) == lex_less(a.text(), b.text()),
        (o == Ordering::Equal) == (a.text() == b.text()),
        (o == Ordering::Greater) == lex_less(b.text(), a.text()),
{
    let ab = a.as_bytes();
    let bb = b.as_bytes();
    let len = if ab.len() < bb.len() { ab.len() } else { bb.len() };
    let mut i: usize = 0;
    while i < len
        invariant
            ab@ == a.text(),
            bb@ == b.text(),
            i <= len,
            len <= ab@.len(),
            len <= bb@.len(),
            len == ab@.len() || len == bb@.len(),
            forall|j: int| 0 <= j < i ==> ab@[j] == bb@[j],
        decreases len - i,
    {
        if ab[i] != bb[i] {
            proof { lemma_lex_at_usize(ab@, bb@, i); }
            if ab[i] < bb[i] {
                return Ordering::Less;
            } else {
                return Ordering::Greater;
            }
        }
        i = i + 1;
    }
    proof { lemma_lex_prefix_usize(ab@, bb@, len); }
    if ab.len() < bb.len() {
        Ordering::Less
    } else if ab.len() > bb.len() {
        Ordering::Greater
    } else {
        assert(ab@ =~= bb@);
        Ordering::Equal
    }
}

proof fn lemma_lex_at(a: Seq<u8>, b: Seq<u8>, i: int)
    requires
        0 <= i < a.len(),
        i < b.len(),
        forall|j: int| 0 <= j < i ==> a[j] == b[j],
        a[i] != b[i],
    ensures
        lex_less(a, b) == (a[i] < b[i]),
        lex_less(b, a) == (b[i] < a[i]),
        a != b,
    decreases i,
{
    if i > 0 {
        assert forall|j: int| 0 <= j < i - 1 implies a.drop_first()[j] == b.drop_first()[j] by {
            assert(a[j + 1] == b[j + 1]);
        }
        lemma_lex_at(a.drop_first(), b.drop_first(), i - 1);
        assert(a[0] == b[0]);
    }
    assert(a[i] != b[i]);
}

proof fn lemma_lex_at_usize(a: Seq<u8>, b: Seq<u8>, i: usize)
    requires
        i < a.len(),
        i < b.len(),
        forall|j: int| 0 <= j < i ==> a[j] == b[j],
        a[i as int] != b[i as int],
    ensures
        lex_less(a, b) == (a[i as int] < b[i as int]),
        lex_less(b, a) == (b[i as int] < a[i as int]),
        a != b,
{
    lemma_lex_at(a, b, i as int);
}

proof fn lemma_lex_prefix_usize(a: Seq<u8>, b: Seq<u8>, n: usize)
    requires
        n <= a.len(),
        n <= b.len(),
        n == a.len() || n == b.len(),
        forall|j: int| 0 <= j < n ==> a[j] == b[j],
    ensures
        lex_less(a, b) == (a.len() < b.len()),
        lex_less(b, a) == (b.len() < a.len()),
{
    lemma_lex_prefix(a, b, n as int);
}

proof fn lemma_lex_prefix(a: Seq<u8>, b: Seq<u8>, n: int)
    requires
        0 <= n <= a.len(),
        n <= b.len(),
        n == a.len() || n == b.len(),
        forall|j: int| 0 <= j < n ==> a[j] == b[j],
    ensures
        lex_less(a, b) == (a.len() < b.len()),
        lex_less(b, a) == (b.len() < a.len()),
    decreases n,
{
    if n > 0 {
        assert forall|j: int| 0 <= j < n - 1 implies a.drop_first()[j] == b.drop_first()[j] by {
            assert(a[j + 1] == b[j + 1]);
        }
        lemma_lex_prefix(a.drop_first(), b.drop_first(), n - 1);
        assert(a[0] == b[0]);
    }
}

/// Forces `s` to agree with `pivot` at one more position: the first position
/// where they differ takes the pivot's byte. `s` is returned unaltered when
/// the pivot is a prefix of it.
pub fn pivot_alter(s: &AlteredString, pivot: &AlteredString) -> (r: AlteredString)
    requires
        s.wf(),
    ensures
        r.wf(),
        r.base_view() == s.base_view(),
        r.origin_view() == s.origin_view(),
        ({
            let n = choose|n: nat| common_prefix(s.text(), pivot.text(), n);
            if n >= pivot.text().len() {
                r.text() == s.text() && r.alterations_view() == s.alterations_view()
            } else {
                r.alterations_view() == s.alterations_view().push(Alteration { index: n as usize, ch: pivot.text()[n as int] })
                    && r.text() == if n < s.text().len() { s.text().update(n as int, pivot.text()[n as int]) } else { s.text() }
            }
        }),
{
    let i = lcp(s, pivot);
    proof { lemma_common_prefix_unique(s.text(), pivot.text(), i as nat); }
    let pb = pivot.as_bytes();
    if i >= pb.len() {
        return s.with_alteration_none();
    }
    s.with_alteration(i, pb[i])
}

pub(crate) proof fn lemma_common_prefix_unique(a: Seq<u8>, b: Seq<u8>, n: nat)
    requires common_prefix(a, b, n),
    ensures (choose|m: nat| common_prefix(a, b, m)) == n,
{
    let m = choose|m: nat| common_prefix(a, b, m);
    assert(common_prefix(a, b, m));
    if m < n {
        assert(a[m as int] == b[m as int]);
    } else if n < m {
        assert(a[n as int] == b[n as int]);
    }
}

impl AlteredString {
    /// A copy of this string with the same alterations.
    pub(crate) fn with_alteration_none(&self) -> (s: Self)
        requires
            self.wf(),
        ensures
            s.wf(),
            s.base_view() == self.base_view(),
            s.origin_view() == self.origin_view(),
            s.alterations_view() == self.alterations_view(),
            s.text() == self.text(),
    {
        let mut base: Vec<u8> = Vec::new();
        let mut i: usize = 0;
        while i < self.base.len()
            invariant
                i <= self.base@.len(),
                base@ == self.base@.take(i as int),
            decreases self.base@.len() - i,
        {
            base.push(self.base[i]);
            assert(self.base@.take(i + 1) == self.base@.take(i as int).push(self.base@[i as int]));
            i = i + 1;
        }
        assert(self.base@.take(self.base@.len() as int) == self.base@);
        let mut alts: Vec<Alteration> = Vec::new();
        let mut i: usize = 0;
        while i < self.alterations.len()
            invariant
                i <= self.alterations@.len(),
                alts@ == self.alterations@.take(i as int),
            decreases self.alterations@.len() - i,
        {
            let a = self.alterations[i];
            alts.push(Alteration { index: a.index, ch: a.ch });
            assert(self.alterations@.take(i + 1) == self.alterations@.take(i as int).push(a));
            i = i + 1;
        }
        assert(self.alterations@.take(self.alterations@.len() as int) == self.alterations@);
        let mut cached: Vec<u8> = Vec::new();
        let mut i: usize = 0;
        while i < self.cached.len()
            invariant
                i <= self.cached@.len(),
                cached@ == self.cached@.take(i as int),
            decreases self.cached@.len() - i,
        {
            cached.push(self.cached[i]);
            assert(self.cached@.take(i + 1) == self.cached@.take(i as int).push(self.cached@[i as int]));
            i = i + 1;
        }
        assert(self.cached@.take(self.cached@.len() as int) == self.cached@);
        AlteredString { base, alterations: alts, origin: self.origin, cached }
    }
}

} // verus!
