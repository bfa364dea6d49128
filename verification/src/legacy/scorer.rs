//! Keyboard layouts of the earlier engines' scorers, and the swap count they reward.
use vstd::prelude::*;

verus! {

/// A keyboard layout.
#[derive(Clone, Copy, Debug, PartialEq, Eq)]
pub enum KeyboardLayout {
    Qwerty,
    Azerty,
    Qwertz,
}

/// The adjacent swaps found scanning `a` against `b` from position `i`
/// below `len`: where `a[i..i+2]` is `b[i..i+2]` reversed (and not equal),
/// one is counted and the scan skips both positions.
pub open spec fn swaps_from(a: Seq<u8>, b: Seq<u8>, len: int, i: int) -> nat
    decreases len - i,
{
    if i < 0 || i + 1 >= len {
        0
    } else if a[i] == b[i + 1] && a[i + 1] == b[i] && a[i] != b[i] {
        1 + swaps_from(a, b, len, i + 2)
    } else {
        swaps_from(a, b, len, i + 1)
    }
}

/// The adjacent swaps of `a` against `b` over their shorter length.
pub open spec fn transpositions(a: Seq<u8>, b: Seq<u8>) -> nat {
    swaps_from(a, b, if a.len() <= b.len() { a.len() as int } else { b.len() as int }, 0)
}

/// Counts the adjacent swaps that turn `a` into `b` position by position,
/// scanning left to right and skipping both bytes of each swap found.
pub fn count_transpositions(a: &[u8], b: &[u8]) -> (r: usize)
    ensures
        r == transpositions(a@, b@),
{
    let len = if a.len() <= b.len() { a.len() } else { b.len() };
    if len < 2 {
        return 0;
    }
    let mut count: usize = 0;
    let mut i: usize = 0;
    while i < len - 1
        invariant
            len == (if a.len() <= b.len() { a.len() } else { b.len() }),
            len >= 2,
            i <= len,
            count <= i,
            count + swaps_from(a@, b@, len as int, i as int) == transpositions(a@, b@),
        decreases len - i,
    {
        if a[i] == b[i + 1] && a[i + 1] == b[i] && a[i] != b[i] {
            count = count + 1;
            i = i + 2;
        } else {
            i = i + 1;
        }
    }
    count
}

} // verus!
