//! Orders on byte strings: lexicographic, and length-first as hashes are
//! ordered.

use vstd::prelude::*;

verus! {

/// Lexicographic order of byte strings as -1, 0 or 1.
pub open spec fn lex_order(a: Seq<u8>, b: Seq<u8>) -> int
    decreases a.len(),
{
    if a.len() == 0 {
        if b.len() == 0 {
            0
        } else {
            -1
        }
    } else if b.len() == 0 {
        1
    } else if a[0] < b[0] {
        -1
    } else if a[0] > b[0] {
        1
    } else {
        lex_order(a.drop_first(), b.drop_first())
    }
}

/// Order of hashes: the shorter first, equal lengths lexicographically.
pub open spec fn hash_order(a: Seq<u8>, b: Seq<u8>) -> int {
    if a.len() > b.len() {
        1
    } else if a.len() < b.len() {
        -1
    } else {
        lex_order(a, b)
    }
}

/// The lexicographic order of the two suffixes that start at `i`.
pub open spec fn suffix_order(a: Seq<u8>, b: Seq<u8>, i: usize) -> int {
    lex_order(a.subrange(i as int, a.len() as int), b.subrange(i as int, b.len() as int))
}

/// The order of the whole strings is that of their suffixes from 0.
pub proof fn lemma_suffix_zero(a: Seq<u8>, b: Seq<u8>)
    ensures
        suffix_order(a, b, 0) == lex_order(a, b),
{
    assert(a.subrange(0, a.len() as int) =~= a);
    assert(b.subrange(0, b.len() as int) =~= b);
}

/// Where both suffixes are non-empty, their order is decided by their first
/// bytes, or by the next suffixes where those are equal.
pub proof fn lemma_suffix_step(a: Seq<u8>, b: Seq<u8>, i: usize)
    requires
        i < a.len(),
        i < b.len(),
        a.len() <= usize::MAX,
    ensures
        a[i as int] < b[i as int] ==> suffix_order(a, b, i) == -1,
        a[i as int] > b[i as int] ==> suffix_order(a, b, i) == 1,
        a[i as int] == b[i as int] ==> suffix_order(a, b, i) == suffix_order(a, b, (i + 1) as usize),
{
    let x = a.subrange(i as int, a.len() as int);
    let y = b.subrange(i as int, b.len() as int);
    assert(x[0] == a[i as int]);
    assert(y[0] == b[i as int]);
    assert(x.drop_first() =~= a.subrange(i + 1, a.len() as int));
    assert(y.drop_first() =~= b.subrange(i + 1, b.len() as int));
}

/// Where one suffix is empty, the empty one is first.
pub proof fn lemma_suffix_end(a: Seq<u8>, b: Seq<u8>, i: usize)
    requires
        i <= a.len(),
        i <= b.len(),
        i == a.len() || i == b.len(),
    ensures
        i < a.len() ==> suffix_order(a, b, i) == 1,
        i < b.len() ==> suffix_order(a, b, i) == -1,
        i == a.len() && i == b.len() ==> suffix_order(a, b, i) == 0,
{
}

} // verus!
