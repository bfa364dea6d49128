//! Single-edit variants of a word: every deletion of one byte and every
//! adjacent transposition that changes the word.
use vstd::prelude::*;

verus! {

/// `word` with the two bytes at `i` and `i + 1` exchanged.
pub open spec fn swapped(word: Seq<u8>, i: int) -> Seq<u8> {
    word.update(i, word[i + 1]).update(i + 1, word[i])
}

/// The transposition variants among the first `n` swap positions, in order,
/// skipping the swaps of two equal bytes (which leave the word unchanged).
pub open spec fn transpositions(word: Seq<u8>, n: int) -> Seq<Seq<u8>>
    decreases n,
{
    if n <= 0 {
        Seq::empty()
    } else if word[n - 1] != word[n] {
        transpositions(word, n - 1).push(swapped(word, n - 1))
    } else {
        transpositions(word, n - 1)
    }
}

/// All single-byte deletions of `word`, in order: "abc" gives "bc", "ac", "ab".
pub fn deletion_variants(word: &[u8]) -> (out: Vec<Vec<u8>>)
    ensures
        out@.len() == word@.len(),
        forall|i: int| 0 <= i < word@.len() ==> #[trigger] out@[i]@ == word@.remove(i),
{
    let mut out: Vec<Vec<u8>> = Vec::new();
    let mut i: usize = 0;
    while i < word.len()
        invariant
            i <= word@.len(),
            out@.len() == i,
            forall|j: int| 0 <= j < i ==> #[trigger] out@[j]@ == word@.remove(j),
        decreases word@.len() - i,
    {
        let mut v: Vec<u8> = Vec::new();
        let mut p: usize = 0;
        while p < i
            invariant
                i < word@.len(),
                p <= i,
                v@ == word@.subrange(0, p as int),
            decreases i - p,
        {
            v.push(word[p]);
            p = p + 1;
        }
        p = i + 1;
        while p < word.len()
            invariant
                i < word@.len(),
                i + 1 <= p <= word@.len(),
                v@ == word@.subrange(0, i as int) + word@.subrange(i + 1, p as int),
            decreases word@.len() - p,
        {
            v.push(word[p]);
            p = p + 1;
        }
        assert(v@ == word@.remove(i as int));
        out.push(v);
        i = i + 1;
    }
    out
}

/// The adjacent transposition variants of `word` that differ from it, in
/// order: "abc" gives "bac", "acb"; "aab" gives only "aba".
pub fn transposition_variants(word: &[u8]) -> (out: Vec<Vec<u8>>)
    ensures
        out.deep_view() == transpositions(word@, word@.len() - 1),
{
    let mut out: Vec<Vec<u8>> = Vec::new();
    if word.len() == 0 {
        return out;
    }
    let n = word.len() - 1;
    let mut i: usize = 0;
    while i < n
        invariant
            n == word@.len() - 1,
            i <= n,
            out.deep_view() == transpositions(word@, i as int),
        decreases n - i,
    {
        if word[i] != word[i + 1] {
            let mut v: Vec<u8> = Vec::new();
            let mut p: usize = 0;
            while p < word.len()
                invariant
                    i < n,
                    n == word@.len() - 1,
                    p <= word@.len(),
                    v@ == swapped(word@, i as int).take(p as int),
                decreases word@.len() - p,
            {
                let b = if p == i { word[i + 1] } else if p == i + 1 { word[i] } else { word[p] };
                v.push(b);
                assert(swapped(word@, i as int).take(p + 1) == swapped(word@, i as int).take(p as int).push(b));
                p = p + 1;
            }
            assert(swapped(word@, i as int).take(word@.len() as int) == swapped(word@, i as int));
            let ghost before = out.deep_view();
            let ghost old_out = out@;
            assert(v.deep_view() =~= v@);
            out.push(v);
            assert(out@ == old_out.push(v));
            assert(out.deep_view() =~= before.push(swapped(word@, i as int)));
        }
        i = i + 1;
    }
    out
}

} // verus!
