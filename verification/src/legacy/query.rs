//! Extended query operators and logical queries.
//!
//! A token `=term` is an exact match, `^term` a prefix, `term$` a suffix,
//! `!term` must not contain, `!^term` must not start with, `!term$` must not
//! end with, and a bare `term` is a fuzzy match (a substring test when a
//! logical expression is evaluated). Tokens separated by whitespace are
//! ANDed, parts separated by `|` are ORed.
use vstd::prelude::*;
use crate::chars::chars_of;

verus! {

/// One query operator.
#[derive(Debug, Clone, PartialEq)]
pub enum QueryOp {
    Fuzzy(String),
    Exact(String),
    Prefix(String),
    Suffix(String),
    Not(String),
    NotPrefix(String),
    NotSuffix(String),
}

/// The abstract form of a [`QueryOp`]: its kind and its text.
pub enum OpSpec {
    Fuzzy(Seq<char>),
    Exact(Seq<char>),
    Prefix(Seq<char>),
    Suffix(Seq<char>),
    Not(Seq<char>),
    NotPrefix(Seq<char>),
    NotSuffix(Seq<char>),
}

impl View for QueryOp {
    type V = OpSpec;

    open spec fn view(&self) -> OpSpec {
        match self {
            QueryOp::Fuzzy(s) => OpSpec::Fuzzy(s@),
            QueryOp::Exact(s) => OpSpec::Exact(s@),
            QueryOp::Prefix(s) => OpSpec::Prefix(s@),
            QueryOp::Suffix(s) => OpSpec::Suffix(s@),
            QueryOp::Not(s) => OpSpec::Not(s@),
            QueryOp::NotPrefix(s) => OpSpec::NotPrefix(s@),
            QueryOp::NotSuffix(s) => OpSpec::NotSuffix(s@),
        }
    }
}

/// Unicode `White_Space`, as `char::is_whitespace` defines it.
pub open spec fn is_ws(c: char) -> bool {
    let u = c as u32;
    (0x9 <= u <= 0xD) || u == 0x20 || u == 0x85 || u == 0xA0 || u == 0x1680
        || (0x2000 <= u <= 0x200A) || u == 0x2028 || u == 0x2029 || u == 0x202F
        || u == 0x205F || u == 0x3000
}

fn is_whitespace(c: char) -> (r: bool)
    ensures
        r == is_ws(c),
{
    let u = c as u32;
    (0x9 <= u && u <= 0xD) || u == 0x20 || u == 0x85 || u == 0xA0 || u == 0x1680
        || (0x2000 <= u && u <= 0x200A) || u == 0x2028 || u == 0x2029 || u == 0x202F
        || u == 0x205F || u == 0x3000
}

/// Length of the run of non-whitespace characters at the start of `s`.
pub open spec fn word_len(s: Seq<char>) -> nat
    decreases s.len(),
{
    if s.len() == 0 || is_ws(s[0]) { 0 } else { 1 + word_len(s.drop_first()) }
}

/// The whitespace-separated words of `s`, in order (`str::split_whitespace`).
pub open spec fn words(s: Seq<char>) -> Seq<Seq<char>>
    decreases s.len(),
{
    if s.len() == 0 {
        Seq::empty()
    } else if is_ws(s[0]) {
        words(s.drop_first())
    } else {
        proof { lemma_word_len_bound(s); }
        seq![s.take(word_len(s) as int)] + words(s.skip(word_len(s) as int))
    }
}

pub proof fn lemma_word_len_bound(s: Seq<char>)
    ensures
        word_len(s) <= s.len(),
        s.len() > 0 && !is_ws(s[0]) ==> word_len(s) >= 1,
        forall|i: int| 0 <= i < word_len(s) ==> !is_ws(#[trigger] s[i]),
        word_len(s) < s.len() ==> is_ws(s[word_len(s) as int]),
    decreases s.len(),
{
    if s.len() > 0 && !is_ws(s[0]) {
        lemma_word_len_bound(s.drop_first());
        assert forall|i: int| 0 <= i < word_len(s) implies !is_ws(#[trigger] s[i]) by {
            if i > 0 {
                assert(s[i] == s.drop_first()[i - 1]);
            }
        }
    }
}

/// `word_len` of a run of `n` non-whitespace characters ended by whitespace
/// or by the end of the sequence.
proof fn lemma_word_len_exact(s: Seq<char>, n: int)
    requires
        0 <= n <= s.len(),
        forall|i: int| 0 <= i < n ==> !is_ws(#[trigger] s[i]),
        n < s.len() ==> is_ws(s[n]),
    ensures
        word_len(s) == n,
    decreases n,
{
    if n > 0 {
        assert forall|i: int| 0 <= i < n - 1 implies !is_ws(#[trigger] s.drop_first()[i]) by {
            assert(s.drop_first()[i] == s[i + 1]);
        }
        if n - 1 < s.drop_first().len() {
            assert(s.drop_first()[n - 1] == s[n]);
        }
        lemma_word_len_exact(s.drop_first(), n - 1);
    }
}

/// The operator a token parses to.
pub open spec fn token_op(t: Seq<char>) -> OpSpec {
    let n = t.len() as int;
    if n >= 2 && t[0] == '!' && t[1] == '^' {
        OpSpec::NotPrefix(t.subrange(2, n))
    } else if n > 2 && t[0] == '!' && t[n - 1] == '$' {
        OpSpec::NotSuffix(t.subrange(1, n - 1))
    } else if n >= 1 && t[0] == '!' {
        OpSpec::Not(t.subrange(1, n))
    } else if n >= 1 && t[0] == '=' {
        OpSpec::Exact(t.subrange(1, n))
    } else if n >= 1 && t[0] == '^' {
        OpSpec::Prefix(t.subrange(1, n))
    } else if n >= 1 && t[n - 1] == '$' {
        OpSpec::Suffix(t.subrange(0, n - 1))
    } else {
        OpSpec::Fuzzy(t)
    }
}

fn string_of(cs: &Vec<char>, a: usize, b: usize) -> (s: String)
    requires
        a <= b <= cs@.len(),
    ensures
        s@ == cs@.subrange(a as int, b as int),
{
    let mut s = String::new();
    let mut i = a;
    while i < b
        invariant
            a <= i <= b,
            b <= cs@.len(),
            s@ == cs@.subrange(a as int, i as int),
        decreases b - i,
    {
        crate::chars::push_char(&mut s, cs[i]);
        assert(s@ =~= cs@.subrange(a as int, i + 1));
        i = i + 1;
    }
    s
}

/// Parses the token `cs[a..b]`.
fn parse_token(cs: &Vec<char>, a: usize, b: usize) -> (op: QueryOp)
    requires
        a <= b <= cs@.len(),
    ensures
        op@ == token_op(cs@.subrange(a as int, b as int)),
{
    let ghost t = cs@.subrange(a as int, b as int);
    let n = b - a;
    if n >= 2 && cs[a] == '!' && cs[a + 1] == '^' {
        let s = string_of(cs, a + 2, b);
        assert(s@ =~= t.subrange(2, n as int));
        QueryOp::NotPrefix(s)
    } else if n > 2 && cs[a] == '!' && cs[b - 1] == '$' {
        let s = string_of(cs, a + 1, b - 1);
        assert(s@ =~= t.subrange(1, n - 1));
        QueryOp::NotSuffix(s)
    } else if n >= 1 && cs[a] == '!' {
        let s = string_of(cs, a + 1, b);
        assert(s@ =~= t.subrange(1, n as int));
        QueryOp::Not(s)
    } else if n >= 1 && cs[a] == '=' {
        let s = string_of(cs, a + 1, b);
        assert(s@ =~= t.subrange(1, n as int));
        QueryOp::Exact(s)
    } else if n >= 1 && cs[a] == '^' {
        let s = string_of(cs, a + 1, b);
        assert(s@ =~= t.subrange(1, n as int));
        QueryOp::Prefix(s)
    } else if n >= 1 && cs[b - 1] == '$' {
        let s = string_of(cs, a, b - 1);
        assert(s@ =~= t.subrange(0, n - 1));
        QueryOp::Suffix(s)
    } else {
        let s = string_of(cs, a, b);
        QueryOp::Fuzzy(s)
    }
}

/// Parses the words of `cs[a..b]`.
fn parse_range(cs: &Vec<char>, a: usize, b: usize) -> (ops: Vec<QueryOp>)
    requires
        a <= b <= cs@.len(),
    ensures
        ops@.map_values(|o: QueryOp| o@) == words(cs@.subrange(a as int, b as int)).map_values(|w: Seq<char>| token_op(w)),
{
    let ghost all = cs@.subrange(a as int, b as int);
    let mut ops: Vec<QueryOp> = Vec::new();
    let mut i = a;
    while i < b
        invariant
            a <= i <= b,
            b <= cs@.len(),
            all == cs@.subrange(a as int, b as int),
            ops@.map_values(|o: QueryOp| o@) + words(cs@.subrange(i as int, b as int)).map_values(|w: Seq<char>| token_op(w))
                == words(all).map_values(|w: Seq<char>| token_op(w)),
        decreases b - i,
    {
        let ghost rest = cs@.subrange(i as int, b as int);
        if is_whitespace(cs[i]) {
            assert(rest.drop_first() =~= cs@.subrange(i + 1, b as int));
            i = i + 1;
        } else {
            let mut j = i + 1;
            while j < b && !is_whitespace(cs[j])
                invariant
                    i < j <= b,
                    b <= cs@.len(),
                    rest == cs@.subrange(i as int, b as int),
                    forall|k: int| 0 <= k < j - i ==> !is_ws(#[trigger] rest[k]),
                decreases b - j,
            {
                j = j + 1;
            }
            proof {
                lemma_word_len_exact(rest, (j - i) as int);
                assert(rest.take((j - i) as int) =~= cs@.subrange(i as int, j as int));
                assert(rest.skip((j - i) as int) =~= cs@.subrange(j as int, b as int));
            }
            let op = parse_token(cs, i, j);
            let ghost before = ops@.map_values(|o: QueryOp| o@);
            ops.push(op);
            assert(ops@.map_values(|o: QueryOp| o@) =~= before.push(token_op(cs@.subrange(i as int, j as int))));
            proof {
                let w1 = words(rest).map_values(|w: Seq<char>| token_op(w));
                let w2 = words(cs@.subrange(j as int, b as int)).map_values(|w: Seq<char>| token_op(w));
                assert(w1 =~= seq![token_op(cs@.subrange(i as int, j as int))] + w2);
                assert(before.push(token_op(cs@.subrange(i as int, j as int))) + w2 =~= before + w1);
            }
            i = j;
        }
    }
    assert(words(cs@.subrange(b as int, b as int)) == Seq::<Seq<char>>::empty());
    assert(ops@.map_values(|o: QueryOp| o@) =~= ops@.map_values(|o: QueryOp| o@) + Seq::<OpSpec>::empty());
    ops
}

/// Parses a query into operators, one per whitespace-separated token.
pub fn parse(input: &str) -> (ops: Vec<QueryOp>)
    ensures
        ops@.map_values(|o: QueryOp| o@) == words(input@).map_values(|w: Seq<char>| token_op(w)),
{
    let cs = chars_of(input);
    let ops = parse_range(&cs, 0, cs.len());
    assert(cs@.subrange(0, cs@.len() as int) =~= input@);
    ops
}

/// The lowercase form of a string (`str::to_lowercase`, full Unicode case
/// mapping).
pub uninterp spec fn lowercase_of(s: Seq<char>) -> Seq<char>;

/// `str::to_lowercase`. Its result is named: it depends only on the text.
#[verifier::external_body]
fn to_lower(s: &str) -> (r: String)
    ensures
        r@ == lowercase_of(s@),
{
    s.to_lowercase()
}

/// Whether `p` starts `t`.
pub open spec fn has_prefix(t: Seq<char>, p: Seq<char>) -> bool {
    p.len() <= t.len() && t.take(p.len() as int) == p
}

/// Whether `p` ends `t`.
pub open spec fn has_suffix(t: Seq<char>, p: Seq<char>) -> bool {
    p.len() <= t.len() && t.skip(t.len() - p.len()) == p
}

/// Whether `p` occurs in `t`.
pub open spec fn has_infix(t: Seq<char>, p: Seq<char>) -> bool {
    exists|i: int| 0 <= i && i + p.len() <= t.len() && #[trigger] t.subrange(i, i + p.len()) == p
}

/// Whether the lowercased term `t` satisfies `op` (whose text is lowercased too).
pub open spec fn op_matches(t: Seq<char>, op: OpSpec) -> bool {
    match op {
        OpSpec::Exact(v) => t == lowercase_of(v),
        OpSpec::Prefix(v) => has_prefix(t, lowercase_of(v)),
        OpSpec::Suffix(v) => has_suffix(t, lowercase_of(v)),
        OpSpec::Not(v) => !has_infix(t, lowercase_of(v)),
        OpSpec::NotPrefix(v) => !has_prefix(t, lowercase_of(v)),
        OpSpec::NotSuffix(v) => !has_suffix(t, lowercase_of(v)),
        OpSpec::Fuzzy(v) => has_infix(t, lowercase_of(v)),
    }
}

/// `l` occurs in `t` starting at position `s`.
pub open spec fn found_at(t: Seq<char>, l: Seq<char>, s: int) -> bool {
    &&& 0 <= s
    &&& s + l.len() <= t.len()
    &&& forall|i: int| 0 <= i < l.len() ==> #[trigger] t[s + i] == l[i]
}

/// What each operator asks of a lowercased term `t`, symbol by symbol, with
/// `l` the lowercased text of the operator: `=` the same symbols, `^` the
/// first ones, `$` the last ones, a plain word some consecutive ones, and
/// `!`, `!^`, `!$` the negations of the last three. So `!v$` fails exactly
/// when `t` ends with `l`: a term that merely contains `l` still passes.
pub proof fn lemma_op_meaning(t: Seq<char>, v: Seq<char>)
    ensures
        op_matches(t, OpSpec::Exact(v)) <==> (t.len() == lowercase_of(v).len()
            && forall|i: int| 0 <= i < t.len() ==> t[i] == #[trigger] lowercase_of(v)[i]),
        op_matches(t, OpSpec::Prefix(v)) <==> (lowercase_of(v).len() <= t.len()
            && forall|i: int| 0 <= i < lowercase_of(v).len() ==> t[i] == #[trigger] lowercase_of(v)[i]),
        op_matches(t, OpSpec::Suffix(v)) <==> (lowercase_of(v).len() <= t.len()
            && forall|i: int| 0 <= i < lowercase_of(v).len()
                ==> t[t.len() - lowercase_of(v).len() + i] == #[trigger] lowercase_of(v)[i]),
        op_matches(t, OpSpec::Fuzzy(v)) <==> (exists|s: int| #[trigger] found_at(t, lowercase_of(v), s)),
        op_matches(t, OpSpec::NotSuffix(v)) <==> !(lowercase_of(v).len() <= t.len()
            && forall|i: int| 0 <= i < lowercase_of(v).len()
                ==> t[t.len() - lowercase_of(v).len() + i] == #[trigger] lowercase_of(v)[i]),
        op_matches(t, OpSpec::NotPrefix(v)) <==> !op_matches(t, OpSpec::Prefix(v)),
        op_matches(t, OpSpec::NotSuffix(v)) <==> !op_matches(t, OpSpec::Suffix(v)),
        op_matches(t, OpSpec::Not(v)) <==> !op_matches(t, OpSpec::Fuzzy(v)),
        op_matches(t, OpSpec::Exact(v)) ==> op_matches(t, OpSpec::Prefix(v)) && op_matches(t, OpSpec::Suffix(v)),
        t.len() != lowercase_of(v).len() ==> !op_matches(t, OpSpec::Exact(v)),
{
    let l = lowercase_of(v);
    let n = l.len() as int;
    // Exact
    if t.len() == l.len() && forall|i: int| 0 <= i < t.len() ==> t[i] == #[trigger] l[i] {
        assert(t =~= l);
    }
    // Prefix
    if n <= t.len() && forall|i: int| 0 <= i < n ==> t[i] == #[trigger] l[i] {
        assert(t.take(n) =~= l);
    }
    if n <= t.len() && t.take(n) == l {
        assert forall|i: int| 0 <= i < n implies t[i] == #[trigger] l[i] by {
            assert(t.take(n)[i] == t[i]);
        }
    }
    // Suffix
    if n <= t.len() && forall|i: int| 0 <= i < n ==> t[t.len() - n + i] == #[trigger] l[i] {
        assert(t.skip(t.len() - n) =~= l);
    }
    if n <= t.len() && t.skip(t.len() - n) == l {
        assert forall|i: int| 0 <= i < n implies t[t.len() - n + i] == #[trigger] l[i] by {
            assert(t.skip(t.len() - n)[i] == t[t.len() - n + i]);
        }
    }
    // Infix
    if exists|s: int| #[trigger] found_at(t, l, s) {
        let s0 = choose|s: int| #[trigger] found_at(t, l, s);
        assert forall|j: int| 0 <= j < n implies t.subrange(s0, s0 + n)[j] == l[j] by {
            assert(t[s0 + j] == l[j]);
        }
        assert(t.subrange(s0, s0 + n) =~= l);
        assert(has_infix(t, l));
    }
    if has_infix(t, l) {
        let s0 = choose|s: int| 0 <= s && s + n <= t.len() && #[trigger] t.subrange(s, s + n) == l;
        assert forall|i: int| 0 <= i < n implies #[trigger] t[s0 + i] == l[i] by {
            assert(t.subrange(s0, s0 + n)[i] == t[s0 + i]);
        }
        assert(found_at(t, l, s0));
    }
}

fn starts_with(t: &Vec<char>, p: &Vec<char>) -> (r: bool)
    ensures
        r == has_prefix(t@, p@),
{
    if p.len() > t.len() {
        return false;
    }
    let mut i: usize = 0;
    while i < p.len()
        invariant
            p@.len() <= t@.len(),
            i <= p@.len(),
            t@.take(i as int) == p@.take(i as int),
        decreases p@.len() - i,
    {
        if t[i] != p[i] {
            assert(t@.take(p@.len() as int)[i as int] != p@[i as int]);
            return false;
        }
        assert(t@.take(i + 1) =~= p@.take(i + 1));
        i = i + 1;
    }
    assert(p@.take(p@.len() as int) =~= p@);
    true
}

fn ends_with(t: &Vec<char>, p: &Vec<char>) -> (r: bool)
    ensures
        r == has_suffix(t@, p@),
{
    if p.len() > t.len() {
        return false;
    }
    let tl = t.len();
    let off = tl - p.len();
    let mut i: usize = 0;
    while i < p.len()
        invariant
            p@.len() <= t@.len(),
            off == t@.len() - p@.len(),
            t@.len() <= usize::MAX,
            i <= p@.len(),
            t@.subrange(off as int, off + i) == p@.take(i as int),
        decreases p@.len() - i,
    {
        if t[off + i] != p[i] {
            assert(t@.skip(off as int)[i as int] != p@[i as int]);
            return false;
        }
        assert(t@.subrange(off as int, off + i + 1) =~= p@.take(i + 1));
        i = i + 1;
    }
    assert(p@.take(p@.len() as int) =~= p@);
    assert(t@.skip(off as int) =~= t@.subrange(off as int, off + p@.len()));
    true
}

fn occurs_at(t: &Vec<char>, p: &Vec<char>, at: usize) -> (r: bool)
    requires
        at + p@.len() <= t@.len(),
    ensures
        r == (t@.subrange(at as int, at + p@.len()) == p@),
{
    let tl = t.len();
    let mut i: usize = 0;
    while i < p.len()
        invariant
            at + p@.len() <= t@.len(),
            t@.len() <= usize::MAX,
            i <= p@.len(),
            t@.subrange(at as int, at + i) == p@.take(i as int),
        decreases p@.len() - i,
    {
        if t[at + i] != p[i] {
            assert(t@.subrange(at as int, at + p@.len())[i as int] != p@[i as int]);
            return false;
        }
        assert(t@.subrange(at as int, at + i + 1) =~= p@.take(i + 1));
        i = i + 1;
    }
    assert(p@.take(p@.len() as int) =~= p@);
    true
}

fn contains(t: &Vec<char>, p: &Vec<char>) -> (r: bool)
    ensures
        r == has_infix(t@, p@),
{
    if p.len() > t.len() {
        return false;
    }
    let last = t.len() - p.len();
    let mut at: usize = 0;
    loop
        invariant
            last == t@.len() - p@.len(),
            at <= last,
            forall|i: int| 0 <= i < at ==> #[trigger] t@.subrange(i, i + p@.len()) != p@,
        decreases last - at,
    {
        if occurs_at(t, p, at) {
            return true;
        }
        if at == last {
            return false;
        }
        at = at + 1;
    }
}

/// Whether `term`, lowercased, satisfies `op`.
pub fn matches_op(term: &str, op: &QueryOp) -> (r: bool)
    ensures
        r == op_matches(lowercase_of(term@), op@),
{
    let t = to_lower(term);
    let tc = chars_of(t.as_str());
    match op {
        QueryOp::Exact(v) => {
            let l = to_lower(v.as_str());
            let lc = chars_of(l.as_str());
            let same = tc.len() == lc.len() && starts_with(&tc, &lc);
            proof {
                if tc@.len() == lc@.len() {
                    assert(tc@.take(lc@.len() as int) =~= tc@);
                }
            }
            same
        },
        QueryOp::Prefix(v) => {
            let l = to_lower(v.as_str());
            starts_with(&tc, &chars_of(l.as_str()))
        },
        QueryOp::Suffix(v) => {
            let l = to_lower(v.as_str());
            ends_with(&tc, &chars_of(l.as_str()))
        },
        QueryOp::Not(v) => {
            let l = to_lower(v.as_str());
            !contains(&tc, &chars_of(l.as_str()))
        },
        QueryOp::NotPrefix(v) => {
            let l = to_lower(v.as_str());
            !starts_with(&tc, &chars_of(l.as_str()))
        },
        QueryOp::NotSuffix(v) => {
            let l = to_lower(v.as_str());
            !ends_with(&tc, &chars_of(l.as_str()))
        },
        QueryOp::Fuzzy(v) => {
            let l = to_lower(v.as_str());
            contains(&tc, &chars_of(l.as_str()))
        },
    }
}

/// A logical query: AND and OR combinations of operators.
#[derive(Debug)]
pub enum LogicalExpr {
    And(Vec<LogicalExpr>),
    Or(Vec<LogicalExpr>),
    Op(QueryOp),
}

/// Whether `e` accepts a term whose lowercase form is `t`.
pub open spec fn expr_matches(e: LogicalExpr, t: Seq<char>) -> bool
    decreases e, 0int,
{
    match e {
        LogicalExpr::Op(op) => op_matches(t, op@),
        LogicalExpr::And(v) => {
            proof { broadcast use vstd::std_specs::vec::axiom_vec_decreases_to_view; }
            all_from(v@, 0, t)
        },
        LogicalExpr::Or(v) => {
            proof { broadcast use vstd::std_specs::vec::axiom_vec_decreases_to_view; }
            any_from(v@, 0, t)
        },
    }
}

/// Whether every expression of `s` from position `i` on accepts `t`.
pub open spec fn all_from(s: Seq<LogicalExpr>, i: int, t: Seq<char>) -> bool
    decreases s, s.len() - i,
{
    if 0 <= i < s.len() {
        expr_matches(s[i], t) && all_from(s, i + 1, t)
    } else {
        true
    }
}

/// Whether some expression of `s` from position `i` on accepts `t`.
pub open spec fn any_from(s: Seq<LogicalExpr>, i: int, t: Seq<char>) -> bool
    decreases s, s.len() - i,
{
    if 0 <= i < s.len() {
        expr_matches(s[i], t) || any_from(s, i + 1, t)
    } else {
        false
    }
}

proof fn lemma_all_from(s: Seq<LogicalExpr>, i: int, t: Seq<char>)
    requires 0 <= i <= s.len(),
    ensures all_from(s, i, t) == forall|j: int| i <= j < s.len() ==> #[trigger] expr_matches(s[j], t),
    decreases s.len() - i,
{
    if i < s.len() {
        lemma_all_from(s, i + 1, t);
        assert(all_from(s, i, t) == (expr_matches(s[i], t) && all_from(s, i + 1, t)));
        if all_from(s, i, t) {
            assert forall|j: int| i <= j < s.len() implies #[trigger] expr_matches(s[j], t) by {
                if j > i {
                    assert(all_from(s, i + 1, t));
                }
            }
        } else if expr_matches(s[i], t) {
            let j = choose|j: int| i + 1 <= j < s.len() && !#[trigger] expr_matches(s[j], t);
            assert(i <= j < s.len());
        }
    }
}

proof fn lemma_any_from(s: Seq<LogicalExpr>, i: int, t: Seq<char>)
    requires 0 <= i <= s.len(),
    ensures any_from(s, i, t) == exists|j: int| i <= j < s.len() && #[trigger] expr_matches(s[j], t),
    decreases s.len() - i,
{
    if i < s.len() {
        lemma_any_from(s, i + 1, t);
        assert(any_from(s, i, t) == (expr_matches(s[i], t) || any_from(s, i + 1, t)));
        if any_from(s, i + 1, t) {
            let j = choose|j: int| i + 1 <= j < s.len() && #[trigger] expr_matches(s[j], t);
            assert(i <= j < s.len() && expr_matches(s[j], t));
        }
    }
}

impl LogicalExpr {
    /// Evaluates the expression against `term`.
    pub fn matches(&self, term: &str) -> (r: bool)
        ensures
            r == expr_matches(*self, lowercase_of(term@)),
        decreases *self,
    {
        match *self {
            LogicalExpr::Op(ref op) => matches_op(term, op),
            LogicalExpr::And(ref exprs) => {
                let ghost t = lowercase_of(term@);
                let mut i: usize = 0;
                while i < exprs.len()
                    invariant
                        i <= exprs@.len(),
                        *self == LogicalExpr::And(*exprs),
                        t == lowercase_of(term@),
                        all_from(exprs@, 0, t) == all_from(exprs@, i as int, t),
                    decreases exprs@.len() - i,
                {
                    proof { assert(decreases_to!(*self => (*self)->And_0)); vstd::std_specs::vec::axiom_vec_index_decreases(*exprs, i as int); }
                    if !exprs[i].matches(term) {
                        return false;
                    }
                    i = i + 1;
                }
                true
            },
            LogicalExpr::Or(ref exprs) => {
                let ghost t = lowercase_of(term@);
                let mut i: usize = 0;
                while i < exprs.len()
                    invariant
                        i <= exprs@.len(),
                        *self == LogicalExpr::Or(*exprs),
                        t == lowercase_of(term@),
                        any_from(exprs@, 0, t) == any_from(exprs@, i as int, t),
                    decreases exprs@.len() - i,
                {
                    proof { assert(decreases_to!(*self => (*self)->Or_0)); vstd::std_specs::vec::axiom_vec_index_decreases(*exprs, i as int); }
                    if exprs[i].matches(term) {
                        return true;
                    }
                    i = i + 1;
                }
                false
            },
        }
    }
}

/// Length of the text before the first `|` of `s` (all of `s` without one).
pub open spec fn part_len(s: Seq<char>) -> nat
    decreases s.len(),
{
    if s.len() == 0 || s[0] == '|' { 0 } else { 1 + part_len(s.drop_first()) }
}

pub proof fn lemma_part_len(s: Seq<char>)
    ensures
        part_len(s) <= s.len(),
        forall|i: int| 0 <= i < part_len(s) ==> #[trigger] s[i] != '|',
        part_len(s) < s.len() ==> s[part_len(s) as int] == '|',
    decreases s.len(),
{
    if s.len() > 0 && s[0] != '|' {
        lemma_part_len(s.drop_first());
        assert forall|i: int| 0 <= i < part_len(s) implies #[trigger] s[i] != '|' by {
            if i > 0 {
                assert(s[i] == s.drop_first()[i - 1]);
            }
        }
    }
}

proof fn lemma_part_len_exact(s: Seq<char>, n: int)
    requires
        0 <= n <= s.len(),
        forall|i: int| 0 <= i < n ==> #[trigger] s[i] != '|',
        n < s.len() ==> s[n] == '|',
    ensures
        part_len(s) == n,
    decreases n,
{
    if n > 0 {
        assert forall|i: int| 0 <= i < n - 1 implies #[trigger] s.drop_first()[i] != '|' by {
            assert(s.drop_first()[i] == s[i + 1]);
        }
        if n - 1 < s.drop_first().len() {
            assert(s.drop_first()[n - 1] == s[n]);
        }
        lemma_part_len_exact(s.drop_first(), n - 1);
    }
}

/// The parts of `s` between `|` separators (`str::split('|')`).
pub open spec fn parts(s: Seq<char>) -> Seq<Seq<char>>
    decreases s.len(),
{
    proof { lemma_part_len(s); }
    if part_len(s) == s.len() {
        seq![s]
    } else {
        seq![s.take(part_len(s) as int)] + parts(s.skip(part_len(s) as int + 1))
    }
}

/// Whether every operator of the words of `p` accepts `t`.
pub open spec fn all_words_match(p: Seq<char>, t: Seq<char>) -> bool {
    forall|i: int| 0 <= i < words(p).len() ==> #[trigger] op_matches(t, token_op(words(p)[i]))
}

/// Whether the logical query `s` accepts the lowercased term `t`: some part
/// between `|` has all its operators satisfied.
pub open spec fn logical_matches(s: Seq<char>, t: Seq<char>) -> bool {
    exists|i: int| 0 <= i < parts(s).len() && #[trigger] all_words_match(parts(s)[i], t)
}

/// The conjunction of the operators of `cs[a..b]`: the single operator if
/// there is one, an AND of them otherwise.
/// The shape of the expression of one `|`-separated part `p`: the operator
/// of its only word, or the conjunction of the operators of its words.
pub open spec fn group_shape(e: LogicalExpr, p: Seq<char>) -> bool {
    let ws = words(p);
    if ws.len() == 1 {
        e matches LogicalExpr::Op(op) && op@ == token_op(ws[0])
    } else {
        e matches LogicalExpr::And(v) && v@.len() == ws.len()
            && forall|j: int| 0 <= j < ws.len() ==> (#[trigger] v@[j]) is Op && v@[j]->Op_0@ == token_op(ws[j])
    }
}

fn group(cs: &Vec<char>, a: usize, b: usize) -> (e: LogicalExpr)
    requires
        a <= b <= cs@.len(),
    ensures
        forall|t: Seq<char>| #[trigger] expr_matches(e, t) == all_words_match(cs@.subrange(a as int, b as int), t),
        group_shape(e, cs@.subrange(a as int, b as int)),
{
    let ops = parse_range(cs, a, b);
    let ghost p = cs@.subrange(a as int, b as int);
    let ghost specs = ops@.map_values(|o: QueryOp| o@);
    assert(specs.len() == words(p).len());
    if ops.len() == 1 {
        let mut ops = ops;
        let op = ops.pop().unwrap();
        assert(specs[0] == token_op(words(p)[0]));
        assert(op@ == token_op(words(p)[0]));
        let e = LogicalExpr::Op(op);
        assert forall|t: Seq<char>| #[trigger] expr_matches(e, t) == all_words_match(p, t) by {
            if expr_matches(e, t) {
                assert forall|i: int| 0 <= i < words(p).len() implies #[trigger] op_matches(t, token_op(words(p)[i])) by {
                    assert(i == 0);
                }
            }
        }
        e
    } else {
        let mut v: Vec<LogicalExpr> = Vec::new();
        let mut rest = ops;
        let n = rest.len();
        while rest.len() > 0
            invariant
                rest@.len() + v@.len() == n,
                n == specs.len(),
                forall|j: int| 0 <= j < v@.len() ==> (#[trigger] v@[j] is Op && v@[j]->Op_0@ == specs[j]),
                forall|j: int| 0 <= j < rest@.len() ==> #[trigger] rest@[j]@ == specs[v@.len() + j],
            decreases rest@.len(),
        {
            let ghost before = rest@;
            let op = rest.remove(0);
            v.push(LogicalExpr::Op(op));
            assert forall|j: int| 0 <= j < rest@.len() implies #[trigger] rest@[j]@ == specs[v@.len() + j] by {
                assert(rest@[j] == before[j + 1]);
            }
        }
        let ghost vs = v@;
        proof {
            assert forall|j: int| 0 <= j < words(p).len() implies (#[trigger] vs[j]) is Op
                && vs[j]->Op_0@ == token_op(words(p)[j]) by {
                assert(specs[j] == token_op(words(p)[j]));
            }
        }
        let e = LogicalExpr::And(v);
        assert forall|t: Seq<char>| #[trigger] expr_matches(e, t) == all_words_match(p, t) by {
            lemma_all_from(vs, 0, t);
            assert forall|j: int| 0 <= j < vs.len() implies #[trigger] expr_matches(vs[j], t) == op_matches(t, token_op(words(p)[j])) by {
                assert(specs[j] == token_op(words(p)[j]));
            }
            if expr_matches(e, t) {
                assert forall|i: int| 0 <= i < words(p).len() implies #[trigger] op_matches(t, token_op(words(p)[i])) by {
                    assert(expr_matches(vs[i], t));
                }
            } else {
                let j = choose|j: int| 0 <= j < vs.len() && !#[trigger] expr_matches(vs[j], t);
                assert(!op_matches(t, token_op(words(p)[j])));
            }
        }
        e
    }
}

/// Parses a query with `|` (OR) and whitespace (AND) into a logical
/// expression: "java | python" is `Or([Fuzzy("java"), Fuzzy("python")])`,
/// "^java script$" is `And([Prefix("java"), Suffix("script")])`.
pub fn parse_logical(input: &str) -> (e: LogicalExpr)
    ensures
        forall|t: Seq<char>| #[trigger] expr_matches(e, t) == logical_matches(input@, t),
        parts(input@).len() == 1 ==> group_shape(e, input@),
        parts(input@).len() > 1 ==> (e matches LogicalExpr::Or(v) && v@.len() == parts(input@).len()
            && forall|j: int| 0 <= j < v@.len() ==> #[trigger] group_shape(v@[j], parts(input@)[j])),
{
    let cs = chars_of(input);
    let n = cs.len();
    let ghost s = cs@;
    // The first bar, if any.
    let mut first: usize = 0;
    while first < n && cs[first] != '|'
        invariant
            first <= n,
            n == s.len(),
            s == cs@,
            forall|k: int| 0 <= k < first ==> #[trigger] s[k] != '|',
        decreases n - first,
    {
        first = first + 1;
    }
    proof { lemma_part_len_exact(s, first as int); }
    if first == n {
        let e = group(&cs, 0, n);
        assert(s.subrange(0, n as int) =~= s);
        assert(parts(s) =~= seq![s]);
        assert(input@ == s);
        assert forall|t: Seq<char>| #[trigger] expr_matches(e, t) == logical_matches(input@, t) by {
            if all_words_match(s, t) {
                assert(all_words_match(parts(s)[0], t));
            }
        }
        return e;
    }
    let mut v: Vec<LogicalExpr> = Vec::new();
    let ghost mut done: Seq<Seq<char>> = Seq::empty();
    let mut pos: usize = 0;
    assert(s.subrange(0, n as int) =~= s);
    loop
        invariant_except_break
            parts(s) == done + parts(s.subrange(pos as int, n as int)),
        invariant
            n == s.len(),
            s == cs@,
            pos <= n,
            v@.len() == done.len(),
            forall|j: int, t: Seq<char>| 0 <= j < done.len() ==>
                #[trigger] expr_matches(v@[j], t) == all_words_match(#[trigger] done[j], t),
            forall|j: int| 0 <= j < done.len() ==> #[trigger] group_shape(v@[j], done[j]),
        ensures
            parts(s) == done,
            v@.len() == done.len(),
            forall|j: int, t: Seq<char>| 0 <= j < done.len() ==>
                #[trigger] expr_matches(v@[j], t) == all_words_match(#[trigger] done[j], t),
            forall|j: int| 0 <= j < done.len() ==> #[trigger] group_shape(v@[j], done[j]),
        decreases n - pos + 1,
    {
        let ghost rest = s.subrange(pos as int, n as int);
        let mut j = pos;
        while j < n && cs[j] != '|'
            invariant
                pos <= j <= n,
                n == s.len(),
                s == cs@,
                rest == s.subrange(pos as int, n as int),
                forall|k: int| 0 <= k < j - pos ==> #[trigger] rest[k] != '|',
            decreases n - j,
        {
            j = j + 1;
        }
        proof { lemma_part_len_exact(rest, (j - pos) as int); }
        let g = group(&cs, pos, j);
        v.push(g);
        if j == n {
            proof {
                assert(rest.subrange(0, (j - pos) as int) =~= rest);
                assert(parts(rest) =~= seq![s.subrange(pos as int, j as int)]);
                done = done.push(s.subrange(pos as int, j as int));
                assert(parts(s) =~= done);
            }
            break;
        }
        proof {
            assert(rest.take((j - pos) as int) =~= s.subrange(pos as int, j as int));
            assert(rest.skip((j - pos) as int + 1) =~= s.subrange(j + 1, n as int));
            assert(parts(rest) =~= seq![s.subrange(pos as int, j as int)] + parts(s.subrange(j + 1, n as int)));
            done = done.push(s.subrange(pos as int, j as int));
            assert(parts(s) =~= done + parts(s.subrange(j + 1, n as int)));
        }
        pos = j + 1;
    }
    let ghost vs = v@;
    proof {
        let r1 = s.skip(first as int + 1);
        assert(s.take(first as int) =~= s.take(first as int));
        assert(parts(s).len() == 1 + parts(r1).len());
        assert(parts(r1).len() >= 1);
        assert(input@ == s);
    }
    let e = LogicalExpr::Or(v);
    assert forall|t: Seq<char>| #[trigger] expr_matches(e, t) == logical_matches(input@, t) by {
        lemma_any_from(vs, 0, t);
        if expr_matches(e, t) {
            let j = choose|j: int| 0 <= j < vs.len() && #[trigger] expr_matches(vs[j], t);
            assert(all_words_match(done[j], t));
            assert(all_words_match(parts(s)[j], t));
        }
        if logical_matches(input@, t) {
            let j = choose|j: int| 0 <= j < parts(s).len() && #[trigger] all_words_match(parts(s)[j], t);
            assert(expr_matches(vs[j], t));
        }
    }
    e
}

} // verus!
