//! Positions in UTF-8 text.
//!
//! Offsets into the word are byte offsets. A position is a *boundary* when it
//! does not fall inside the encoding of a code point. The definitions here are
//! local to a byte (a continuation byte never starts a code point), which is
//! what makes them convenient to reason with; the lemmas tie them to the
//! recursive definitions of `vstd::utf8`.

use vstd::prelude::*;
use vstd::utf8::*;

verus! {

/// `i` is an offset of `text` that does not split a code point: the end of
/// the text, or the offset of a byte that is not a continuation byte.
pub open spec fn is_boundary(text: Seq<u8>, i: int) -> bool {
    0 <= i <= text.len() && (i == text.len() || !is_continuation_byte(text[i]))
}

/// The least offset above `i` that is a boundary (for `i` below the length
/// of the text).
pub open spec fn next_boundary(text: Seq<u8>, i: int) -> int
    decreases text.len() - i,
{
    if i + 1 >= text.len() || is_boundary(text, i + 1) {
        i + 1
    } else {
        next_boundary(text, i + 1)
    }
}

/// The greatest offset below `i` that is a boundary (for `i` above zero).
pub open spec fn prev_boundary(text: Seq<u8>, i: int) -> int
    decreases i,
{
    if i - 1 <= 0 || is_boundary(text, i - 1) {
        i - 1
    } else {
        prev_boundary(text, i - 1)
    }
}

/// The number of code points that begin at an offset in `[from, to)`.
pub open spec fn code_points(text: Seq<u8>, from: int, to: int) -> nat
    decreases to - from,
{
    if to <= from {
        0
    } else {
        code_points(text, from, to - 1) + if is_continuation_byte(text[to - 1]) {
            0nat
        } else {
            1nat
        }
    }
}

/// The code point whose encoding begins at offset `i`.
pub open spec fn code_point_at(text: Seq<u8>, i: int) -> u32 {
    decode_first_scalar(text.subrange(i, text.len() as int))
}

/// On valid UTF-8 the local definition of a boundary agrees with the
/// recursive one that the standard library's `is_char_boundary` is specified
/// by.
pub proof fn lemma_boundary_is_char_boundary(text: Seq<u8>, i: int)
    requires
        valid_utf8(text),
    ensures
        is_boundary(text, i) == is_char_boundary(text, i),
{
    if 0 < i < text.len() {
        is_char_boundary_iff_not_is_continuation_byte(text, i);
    } else if i == text.len() {
        is_char_boundary_start_end_of_seq(text);
    }
}

/// Valid UTF-8 does not begin with a continuation byte.
pub proof fn lemma_first_byte_leads(text: Seq<u8>)
    requires
        valid_utf8(text),
        text.len() > 0,
    ensures
        !is_continuation_byte(text[0]),
{
}

/// The encoding of a concatenation is the concatenation of the encodings.
pub proof fn lemma_encode_concat(a: Seq<char>, b: Seq<char>)
    ensures
        encode_utf8(a + b) == encode_utf8(a) + encode_utf8(b),
    decreases a.len(),
{
    if a.len() > 0 {
        lemma_encode_concat(a.drop_first(), b);
        assert((a + b).drop_first() =~= a.drop_first() + b);
        assert(encode_scalar(a[0] as u32) + (encode_utf8(a.drop_first()) + encode_utf8(b))
            =~= (encode_scalar(a[0] as u32) + encode_utf8(a.drop_first())) + encode_utf8(b));
    }
}

/// Where valid UTF-8 begins with valid UTF-8, the rest is valid too, so the
/// beginning ends on a boundary.
pub proof fn lemma_match_ends_on_boundary(text: Seq<u8>, at: int, s: Seq<u8>)
    requires
        valid_utf8(text),
        valid_utf8(s),
        is_boundary(text, at),
        at + s.len() <= text.len(),
        text.subrange(at, at + s.len()) == s,
    ensures
        is_boundary(text, at + s.len()),
{
    let rest = text.subrange(at, text.len() as int);
    lemma_boundary_is_char_boundary(text, at);
    valid_utf8_split(text, at);
    assert(rest.subrange(0, s.len() as int) =~= s);
    let after = rest.subrange(s.len() as int, rest.len() as int);
    if !valid_utf8(after) {
        partial_valid_partial_invalid_utf8(rest, s.len() as int);
    }
    if at + s.len() < text.len() {
        lemma_first_byte_leads(after);
    }
}

/// The code point at a boundary ends on the next boundary.
pub proof fn lemma_scalar_end(text: Seq<u8>, i: int)
    requires
        valid_utf8(text),
        0 <= i < text.len(),
        is_boundary(text, i),
    ensures
        next_boundary(text, i) == i + length_of_first_scalar(
            text.subrange(i, text.len() as int),
        ),
{
    let rest = text.subrange(i, text.len() as int);
    let width = length_of_first_scalar(rest);
    lemma_boundary_is_char_boundary(text, i);
    valid_utf8_split(text, i);
    let after = pop_first_scalar(rest);
    if after.len() > 0 {
        lemma_first_byte_leads(after);
    }
    // the bytes of the code point behind its first are continuation bytes
    assert(forall|k: int| i < k < i + width ==> !is_boundary(text, k));
    lemma_next_unique(text, i, i + width);
}

/// What `next_boundary` denotes: the first boundary after `i`.
pub proof fn lemma_next_boundary(text: Seq<u8>, i: int)
    requires
        0 <= i < text.len(),
    ensures
        i < next_boundary(text, i) <= text.len(),
        is_boundary(text, next_boundary(text, i)),
        forall|k: int| i < k < next_boundary(text, i) ==> !is_boundary(text, k),
    decreases text.len() - i,
{
    if !(i + 1 >= text.len() || is_boundary(text, i + 1)) {
        lemma_next_boundary(text, i + 1);
    }
}

/// What `prev_boundary` denotes: the last boundary before `i`.
pub proof fn lemma_prev_boundary(text: Seq<u8>, i: int)
    requires
        0 < i <= text.len(),
        is_boundary(text, 0),
    ensures
        0 <= prev_boundary(text, i) < i,
        is_boundary(text, prev_boundary(text, i)),
        forall|k: int| prev_boundary(text, i) < k < i ==> !is_boundary(text, k),
    decreases i,
{
    if !(i - 1 <= 0 || is_boundary(text, i - 1)) {
        lemma_prev_boundary(text, i - 1);
    }
}

/// Stepping forward from a boundary and then back returns to it.
pub proof fn lemma_prev_of_next(text: Seq<u8>, i: int)
    requires
        0 <= i < text.len(),
        is_boundary(text, i),
    ensures
        prev_boundary(text, next_boundary(text, i)) == i,
{
    lemma_next_boundary(text, i);
    lemma_prev_unique(text, next_boundary(text, i), i);
}

/// A boundary below `i` with no boundary in between is the previous one.
pub proof fn lemma_prev_unique(text: Seq<u8>, i: int, p: int)
    requires
        0 <= p < i <= text.len(),
        is_boundary(text, p),
        forall|k: int| p < k < i ==> !is_boundary(text, k),
    ensures
        prev_boundary(text, i) == p,
    decreases i,
{
    if !(i - 1 <= 0 || is_boundary(text, i - 1)) {
        lemma_prev_unique(text, i - 1, p);
    }
}

/// A boundary above `i` with no boundary in between is the next one.
pub proof fn lemma_next_unique(text: Seq<u8>, i: int, p: int)
    requires
        0 <= i < p <= text.len(),
        is_boundary(text, p),
        forall|k: int| i < k < p ==> !is_boundary(text, k),
    ensures
        next_boundary(text, i) == p,
    decreases p - i,
{
    if !(i + 1 >= text.len() || is_boundary(text, i + 1)) {
        lemma_next_unique(text, i + 1, p);
    }
}

/// Code points are counted additively over adjacent ranges.
pub proof fn lemma_code_points_split(text: Seq<u8>, from: int, mid: int, to: int)
    requires
        from <= mid <= to,
    ensures
        code_points(text, from, to) == code_points(text, from, mid) + code_points(text, mid, to),
    decreases to - mid,
{
    if mid < to {
        lemma_code_points_split(text, from, mid, to - 1);
    }
}

/// One code point begins between a boundary and the next one.
pub proof fn lemma_code_points_step(text: Seq<u8>, i: int)
    requires
        0 <= i < text.len(),
        is_boundary(text, i),
    ensures
        code_points(text, i, next_boundary(text, i)) == 1,
{
    lemma_next_boundary(text, i);
    lemma_code_points_run(text, i, next_boundary(text, i));
}

/// A boundary followed by offsets that are not boundaries: one code point.
proof fn lemma_code_points_run(text: Seq<u8>, i: int, to: int)
    requires
        0 <= i < to <= text.len(),
        is_boundary(text, i),
        forall|k: int| i < k < to ==> !is_boundary(text, k),
    ensures
        code_points(text, i, to) == 1,
    decreases to - i,
{
    if to == i + 1 {
        assert(code_points(text, i, i) == 0);
    } else {
        assert(!is_boundary(text, to - 1));
        lemma_code_points_run(text, i, to - 1);
    }
}

/// Between two boundaries of valid UTF-8, the code points counted are the
/// characters that the bytes between them decode to.
pub proof fn lemma_code_points_decoded(text: Seq<u8>, from: int, to: int)
    requires
        valid_utf8(text),
        from <= to,
        is_boundary(text, from),
        is_boundary(text, to),
    ensures
        valid_utf8(text.subrange(from, to)),
        code_points(text, from, to) == decode_utf8(text.subrange(from, to)).len(),
    decreases to - from,
{
    let part = text.subrange(from, to);
    lemma_boundary_is_char_boundary(text, from);
    lemma_boundary_is_char_boundary(text, to);
    valid_utf8_split(text, to);
    let head = text.subrange(0, to);
    lemma_boundary_is_char_boundary(head, from);
    valid_utf8_split(head, from);
    if from < to {
        let next = next_boundary(text, from);
        lemma_next_boundary(text, from);
        lemma_scalar_end(text, from);
        lemma_code_points_step(text, from);
        lemma_code_points_split(text, from, next, to);
        lemma_code_points_decoded(text, next, to);
        assert(pop_first_scalar(part) =~= text.subrange(next, to));
    }
}

} // verus!
