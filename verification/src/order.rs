//! The order in which a sorted table holds its keys.
//!
//! Keys are compared byte by byte; a key that is the beginning of another
//! sorts before it. The bisection of a table relies on this order, and on one
//! consequence of it above all: what sorts between two sequences that begin
//! alike begins like them.

use vstd::prelude::*;
use crate::among::{match_extent, sorts_before};

verus! {

/// `a` and `b` both have `n` bytes or more, and their first `n` are the same.
pub open spec fn agree(a: Seq<u8>, b: Seq<u8>, n: int) -> bool {
    &&& 0 <= n <= a.len()
    &&& n <= b.len()
    &&& forall|t: int| 0 <= t < n ==> a[t] == b[t]
}

/// The number of leading bytes that `a` and `b` share.
pub open spec fn shared(a: Seq<u8>, b: Seq<u8>) -> int {
    match_extent(a, b, 0)
}

/// `a` sorts strictly before `b`.
pub open spec fn lex_before(a: Seq<u8>, b: Seq<u8>) -> bool {
    sorts_before(a, b, shared(a, b))
}

/// `a` is the beginning of `b`.
pub open spec fn begins(a: Seq<u8>, b: Seq<u8>) -> bool {
    agree(a, b, a.len() as int)
}

/// Continued from any number of bytes that agree, the comparison ends where
/// the two sequences first differ or one of them ends.
pub proof fn lemma_extent(a: Seq<u8>, b: Seq<u8>, from: int)
    requires
        agree(a, b, from),
    ensures
        match_extent(a, b, from) == shared(a, b),
        from <= shared(a, b),
        agree(a, b, shared(a, b)),
        shared(a, b) < a.len() && shared(a, b) < b.len() ==> a[shared(a, b)] != b[shared(a, b)],
    decreases b.len() - from,
{
    lemma_extent_ends(a, b, from);
    lemma_extent_ends(a, b, 0);
    let m = match_extent(a, b, from);
    let s = shared(a, b);
    if m < s {
    } else if s < m {
    }
}

/// Where the comparison ends, all bytes before agree and the next, if both
/// sequences have one, differ.
proof fn lemma_extent_ends(a: Seq<u8>, b: Seq<u8>, from: int)
    requires
        agree(a, b, from),
    ensures
        from <= match_extent(a, b, from),
        agree(a, b, match_extent(a, b, from)),
        match_extent(a, b, from) < a.len() && match_extent(a, b, from) < b.len() ==> a[match_extent(
            a,
            b,
            from,
        )] != b[match_extent(a, b, from)],
    decreases b.len() - from,
{
    if 0 <= from < b.len() && from < a.len() && a[from] == b[from] {
        lemma_extent_ends(a, b, from + 1);
    }
}

/// Any number of bytes on which two sequences agree is at most the number
/// that they share.
pub proof fn lemma_agree_shared(a: Seq<u8>, b: Seq<u8>, n: int)
    requires
        agree(a, b, n),
    ensures
        n <= shared(a, b),
{
    lemma_extent(a, b, n);
}

/// The number of shared bytes does not depend on the side.
pub proof fn lemma_shared_symmetric(a: Seq<u8>, b: Seq<u8>)
    ensures
        shared(a, b) == shared(b, a),
{
    lemma_extent(a, b, 0);
    lemma_extent(b, a, 0);
}

/// Of two different sequences one sorts before the other, and never both.
pub proof fn lemma_lex_total(a: Seq<u8>, b: Seq<u8>)
    ensures
        !(lex_before(a, b) && lex_before(b, a)),
        lex_before(a, b) || lex_before(b, a) || a == b,
{
    lemma_extent(a, b, 0);
    lemma_shared_symmetric(a, b);
    if !lex_before(a, b) && !lex_before(b, a) {
        assert(a =~= b);
    }
}

/// Sorting before is transitive.
pub proof fn lemma_lex_transitive(a: Seq<u8>, b: Seq<u8>, c: Seq<u8>)
    requires
        lex_before(a, b),
        lex_before(b, c),
    ensures
        lex_before(a, c),
{
    lemma_extent(a, b, 0);
    lemma_extent(b, c, 0);
    lemma_extent(a, c, 0);
    let x = shared(a, b);
    let y = shared(b, c);
    let m = if x < y {
        x
    } else {
        y
    };
    // a and c agree on the first m bytes, and differ as a and b or b and c do
    if m < a.len() {
        lemma_agree_shared(a, c, m);
    } else {
        lemma_agree_shared(a, c, a.len() as int);
    }
}

/// The beginning of a sequence does not sort after it.
pub proof fn lemma_begins_not_after(a: Seq<u8>, b: Seq<u8>)
    requires
        begins(a, b),
    ensures
        !lex_before(b, a),
{
    lemma_agree_shared(b, a, a.len() as int);
    lemma_extent(b, a, 0);
}

/// What lies, in sorting order, between two sequences that agree with `s`
/// on `n` bytes agrees with `s` on these bytes too.
pub proof fn lemma_between(s: Seq<u8>, a: Seq<u8>, b: Seq<u8>, c: Seq<u8>, n: int)
    requires
        agree(s, a, n),
        agree(s, c, n),
        !lex_before(b, a),
        !lex_before(c, b),
    ensures
        agree(s, b, n),
{
    lemma_extent(b, a, 0);
    lemma_extent(c, b, 0);
    lemma_shared_symmetric(b, a);
    lemma_shared_symmetric(c, b);
    // had b left a before n, it would hold a greater byte there than a and
    // so than c, and c would sort before b
}

} // verus!
