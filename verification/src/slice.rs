//! Editing the text through the bracket.
//!
//! An edit replaces a slice `[bra, ket)` of the text and keeps the offsets of
//! the environment meaningful: the limit follows the change of length, and a
//! cursor behind the slice follows it too, while a cursor inside the slice
//! falls back to its start.

use std::borrow::Cow;
use vstd::prelude::*;
use vstd::string::*;
use vstd::utf8::*;
use crate::env::{EnvState, SnowballEnv};
use crate::text::{
    is_boundary, lemma_boundary_is_char_boundary, lemma_encode_concat, lemma_first_byte_leads,
};

verus! {

impl EnvState {
    /// `[bra, ket)` is a slice of the text that an edit can replace.
    pub open spec fn can_edit(self, bra: int, ket: int) -> bool {
        &&& 0 <= bra <= ket <= self.text.len()
        &&& is_boundary(self.text, bra)
        &&& is_boundary(self.text, ket)
    }

    /// `[bra, ket)` lies in the region between the limits.
    pub open spec fn in_region(self, bra: int, ket: int) -> bool {
        self.limit_backward <= bra && ket <= self.limit
    }

    /// The cursor and the limit can be stored in the environment.
    pub open spec fn offsets_fit(self) -> bool {
        &&& i32::MIN <= self.cursor <= i32::MAX
        &&& i32::MIN <= self.limit <= i32::MAX
    }

    /// The bracket can be stored in the environment.
    pub open spec fn bracket_fits(self) -> bool {
        &&& i32::MIN <= self.bra <= i32::MAX
        &&& i32::MIN <= self.ket <= i32::MAX
    }

    /// The state after `[bra, ket)` has been replaced by `s`. With `delta`
    /// the change of length: the limit moves by `delta`; a cursor at or
    /// behind `ket` moves by `delta`, a cursor inside the slice moves to
    /// `bra`, a cursor at or before `bra` stays.
    pub open spec fn replaced(self, bra: int, ket: int, s: Seq<u8>) -> EnvState {
        let delta = s.len() - (ket - bra);
        EnvState {
            text: self.text.subrange(0, bra) + s + self.text.subrange(ket, self.text.len() as int),
            limit: self.limit + delta,
            cursor: if self.cursor >= ket {
                self.cursor + delta
            } else if self.cursor > bra {
                bra
            } else {
                self.cursor
            },
            ..self
        }
    }

    /// The state after `s` has been put in place of `[bra, ket)` by an
    /// insertion: as [`EnvState::replaced`], and the bracket moves too. Each
    /// end of the bracket that lies at or behind `bra` moves by the change of
    /// length.
    pub open spec fn inserted(self, bra: int, ket: int, s: Seq<u8>) -> EnvState {
        let delta = s.len() - (ket - bra);
        EnvState {
            bra: if bra <= self.bra {
                self.bra + delta
            } else {
                self.bra
            },
            ket: if bra <= self.ket {
                self.ket + delta
            } else {
                self.ket
            },
            ..self.replaced(bra, ket, s)
        }
    }

    /// An offset of the text is not disturbed by an edit of `[bra, ket)`: it
    /// does not lie strictly inside the slice, nor at the start of a slice
    /// that is not empty.
    pub open spec fn clear_of(offset: int, bra: int, ket: int) -> bool {
        offset < bra || offset >= ket
    }
}

/// Replacing a slice that lies in the region between the limits keeps the
/// region invariant: the limits and the cursor stay ordered, inside the text
/// and on boundaries.
pub proof fn lemma_replaced_wf(env: EnvState, bra: int, ket: int, s: Seq<u8>)
    requires
        env.wf(),
        env.can_edit(bra, ket),
        env.in_region(bra, ket),
        valid_utf8(s),
    ensures
        env.replaced(bra, ket, s).wf(),
{
    let head = env.text.subrange(0, bra);
    let tail = env.text.subrange(ket, env.text.len() as int);
    lemma_boundary_is_char_boundary(env.text, bra);
    lemma_boundary_is_char_boundary(env.text, ket);
    valid_utf8_split(env.text, bra);
    valid_utf8_split(env.text, ket);
    valid_utf8_concat(head, s);
    valid_utf8_concat(head + s, tail);
    lemma_spliced_boundaries(env.text, bra, ket, s);
}

/// Replacing a slice by what it holds changes nothing, unless the cursor
/// stands strictly inside the slice: the text, the limit and the cursor stay
/// as they are.
pub proof fn lemma_replace_by_itself(env: EnvState, bra: int, ket: int)
    requires
        0 <= bra <= ket <= env.text.len(),
        !(bra < env.cursor < ket),
    ensures
        env.replaced(bra, ket, env.text.subrange(bra, ket)) == env,
{
    let after = env.replaced(bra, ket, env.text.subrange(bra, ket));
    assert(after.text =~= env.text);
}

/// Which offsets are boundaries after a slice has been replaced: those at or
/// before the slice that were boundaries, and, moved by the change of
/// length, those at or behind it.
pub proof fn lemma_spliced_boundaries(text: Seq<u8>, bra: int, ket: int, s: Seq<u8>)
    requires
        valid_utf8(text),
        valid_utf8(s),
        0 <= bra <= ket <= text.len(),
        is_boundary(text, bra),
        is_boundary(text, ket),
    ensures
        forall|p: int|
            p <= bra && is_boundary(text, p) ==> #[trigger] is_boundary(
                text.subrange(0, bra) + s + text.subrange(ket, text.len() as int),
                p,
            ),
        forall|p: int|
            ket <= p && is_boundary(text, p) ==> is_boundary(
                text.subrange(0, bra) + s + text.subrange(ket, text.len() as int),
                #[trigger] (p + (s.len() - (ket - bra))),
            ),
{
    // an offset keeps the byte that it stood before, or stands before the
    // first byte of `s`, or at the end of the text
    if s.len() > 0 {
        lemma_first_byte_leads(s);
    }
}

impl<'a> SnowballEnv<'a> {
    /// Replaces the slice `[bra, ket)` of the text by `s` and returns the
    /// change of length.
    fn replace_s(&mut self, bra: i32, ket: i32, s: &str) -> (adjustment: i32)
        requires
            old(self)@.can_edit(bra as int, ket as int),
            s.spec_bytes().len() <= i32::MAX,
            old(self)@.replaced(bra as int, ket as int, s.spec_bytes()).offsets_fit(),
        ensures
            final(self)@ == old(self)@.replaced(bra as int, ket as int, s.spec_bytes()),
            adjustment == s.spec_bytes().len() - (ket - bra),
    {
        let adjustment = s.len() as i32 - (ket - bra);
        let mut result = String::new();
        proof {
            encode_utf8_valid_utf8(self.current@);
            lemma_boundary_is_char_boundary(self@.text, bra as int);
            lemma_boundary_is_char_boundary(self@.text, ket as int);
        }
        {
            let (lhs, _) = self.text().split_at(bra as usize);
            let (_, rhs) = self.text().split_at(ket as usize);
            result.append(lhs);
            result.append(s);
            result.append(rhs);
            proof {
                lemma_encode_concat(lhs@, s@);
                lemma_encode_concat(lhs@ + s@, rhs@);
            }
        }
        let new_lim = self.limit + adjustment;
        self.limit = new_lim;
        if self.cursor >= ket {
            let new_cur = self.cursor + adjustment;
            self.cursor = new_cur;
        } else if self.cursor > bra {
            self.cursor = bra
        }
        self.current = Cow::Owned(result);
        adjustment
    }

    /// Replaces the bracketed slice by `s`.
    ///
    /// The bracket itself is left as it was. Always returns `true`.
    pub fn slice_from(&mut self, s: &str) -> (r: bool)
        requires
            old(self)@.bracket_wf(),
            s.spec_bytes().len() <= i32::MAX,
            old(self)@.replaced(old(self)@.bra, old(self)@.ket, s.spec_bytes()).offsets_fit(),
        ensures
            r,
            final(self)@ == old(self)@.replaced(old(self)@.bra, old(self)@.ket, s.spec_bytes()),
            old(self).wf() && old(self)@.in_region(old(self)@.bra, old(self)@.ket) ==> final(
                self
            ).wf(),
    {
        let (bra, ket) = (self.bra, self.ket);
        proof {
            encode_utf8_valid_utf8(s@);
            if self.wf() && self@.in_region(bra as int, ket as int) {
                lemma_replaced_wf(self@, bra as int, ket as int, s.spec_bytes());
            }
        }
        self.replace_s(bra, ket, s);
        true
    }

    /// Removes the bracketed slice from the text.
    pub fn slice_del(&mut self) -> (r: bool)
        requires
            old(self)@.bracket_wf(),
            old(self)@.replaced(old(self)@.bra, old(self)@.ket, Seq::empty()).offsets_fit(),
        ensures
            r,
            final(self)@ == old(self)@.replaced(old(self)@.bra, old(self)@.ket, Seq::empty()),
            old(self).wf() && old(self)@.in_region(old(self)@.bra, old(self)@.ket) ==> final(
                self
            ).wf(),
    {
        proof {
            reveal_strlit("");
        }
        self.slice_from("")
    }

    /// Puts `s` in place of the slice `[bra, ket)` of the text, and moves the
    /// bracket of the environment along with the text that it marks.
    pub fn insert(&mut self, bra: i32, ket: i32, s: &str)
        requires
            old(self)@.can_edit(bra as int, ket as int),
            s.spec_bytes().len() <= i32::MAX,
            old(self)@.inserted(bra as int, ket as int, s.spec_bytes()).offsets_fit(),
            old(self)@.inserted(bra as int, ket as int, s.spec_bytes()).bracket_fits(),
        ensures
            final(self)@ == old(self)@.inserted(bra as int, ket as int, s.spec_bytes()),
            old(self).wf() && old(self)@.in_region(bra as int, ket as int) ==> final(self).wf(),
            old(self)@.bracket_wf() && (bra == ket || (EnvState::clear_of(
                old(self).bra as int,
                bra as int,
                ket as int,
            ) && EnvState::clear_of(old(self).ket as int, bra as int, ket as int)))
                ==> final(self)@.bracket_wf(),
    {
        proof {
            encode_utf8_valid_utf8(s@);
            encode_utf8_valid_utf8(self.current@);
            if self.wf() && self@.in_region(bra as int, ket as int) {
                lemma_replaced_wf(self@, bra as int, ket as int, s.spec_bytes());
            }
            lemma_spliced_boundaries(self@.text, bra as int, ket as int, s.spec_bytes());
        }
        let adjustment = self.replace_s(bra, ket, s);
        if bra <= self.bra {
            self.bra = self.bra + adjustment;
        }
        if bra <= self.ket {
            self.ket = self.ket + adjustment;
        }
    }

    /// The word as it stands: the text up to the limit.
    pub fn assign_to(&mut self) -> (word: String)
        requires
            0 <= old(self).limit <= old(self)@.text.len(),
            is_boundary(old(self)@.text, old(self).limit as int),
        ensures
            final(self)@ == old(self)@,
            encode_utf8(word@) == old(self)@.text.subrange(0, old(self).limit as int),
    {
        proof {
            encode_utf8_valid_utf8(self.current@);
            lemma_boundary_is_char_boundary(self@.text, self.limit as int);
        }
        let (head, _) = self.text().split_at(self.limit as usize);
        head.to_owned()
    }

    /// The bracketed slice of the text.
    pub fn slice_to(&mut self) -> (slice: String)
        requires
            old(self)@.bracket_wf(),
        ensures
            final(self)@ == old(self)@,
            encode_utf8(slice@) == old(self)@.text.subrange(
                old(self).bra as int,
                old(self).ket as int,
            ),
    {
        proof {
            encode_utf8_valid_utf8(self.current@);
            lemma_boundary_is_char_boundary(self@.text, self.ket as int);
        }
        let (head, _) = self.text().split_at(self.ket as usize);
        proof {
            encode_utf8_valid_utf8(head@);
            lemma_boundary_is_char_boundary(head.spec_bytes(), self.bra as int);
        }
        let (_, slice) = head.split_at(self.bra as usize);
        slice.to_owned()
    }
}

} // verus!
