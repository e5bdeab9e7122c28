//! Testing the code point at the cursor against a grouping.
//!
//! A grouping is a set of code points given by the least and the greatest
//! code point that it may hold and a bit set over that range: bit
//! `(c - min) % 8` of byte `(c - min) / 8` says whether `c` belongs to it.
//! The bytes hold their bits from the least significant up.

use vstd::prelude::*;
use vstd::string::*;
use vstd::utf8::*;
use crate::env::{EnvState, SnowballEnv};
use crate::text::{
    code_point_at, is_boundary, lemma_boundary_is_char_boundary, lemma_next_boundary,
    lemma_next_unique, lemma_prev_boundary, lemma_prev_of_next, next_boundary, prev_boundary,
};

verus! {

/// Bit `k` of `byte`, counted from the least significant, is set.
pub open spec fn bit_is_set(byte: u8, k: u32) -> bool {
    byte & (1u8 << k) != 0
}

/// The bit set covers the range of the grouping.
pub open spec fn grouping_ok(bits: Seq<u8>, min: u32, max: u32) -> bool {
    min <= max ==> (max - min) / 8 < bits.len()
}

/// The code point `c` belongs to the grouping: it lies in the range and its
/// bit is set.
pub open spec fn in_group(bits: Seq<u8>, min: u32, max: u32, c: u32) -> bool {
    min <= c <= max && bit_is_set(bits[(c - min) / 8], ((c - min) % 8) as u32)
}

impl EnvState {
    /// The code point at the cursor.
    pub open spec fn ahead(self) -> u32 {
        code_point_at(self.text, self.cursor)
    }

    /// The code point that ends at the cursor.
    pub open spec fn behind(self) -> u32 {
        code_point_at(self.text, prev_boundary(self.text, self.cursor))
    }

    /// This state with the cursor one code point further on.
    pub open spec fn stepped_forward(self) -> EnvState {
        self.with_cursor(next_boundary(self.text, self.cursor))
    }

    /// This state with the cursor one code point further back.
    pub open spec fn stepped_backward(self) -> EnvState {
        self.with_cursor(prev_boundary(self.text, self.cursor))
    }
}

/// A step forward over a code point of a grouping can be taken back: from
/// where the step ends, the same code point lies behind the cursor, inside
/// the region, and the step backward over it ends where the first began.
pub proof fn lemma_grouping_round_trip(env: EnvState, bits: Seq<u8>, min: u32, max: u32)
    requires
        env.wf(),
        env.cursor < env.limit,
        in_group(bits, min, max, env.ahead()),
    ensures
        env.stepped_forward().wf(),
        env.stepped_forward().limit_backward < env.stepped_forward().cursor,
        in_group(bits, min, max, env.stepped_forward().behind()),
        env.stepped_forward().stepped_backward() == env,
{
    lemma_next_boundary(env.text, env.cursor);
    lemma_prev_of_next(env.text, env.cursor);
}

impl<'a> SnowballEnv<'a> {
    /// The code point that begins at the cursor, if the text goes on there.
    fn char_at_cursor(&self) -> (c: Option<char>)
        requires
            is_boundary(self@.text, self.cursor as int),
        ensures
            self.cursor < self@.text.len() ==> (c matches Some(ch) && ch as u32 == self@.ahead()),
            self.cursor == self@.text.len() ==> c is None,
    {
        proof {
            encode_utf8_valid_utf8(self.current@);
            lemma_boundary_is_char_boundary(self@.text, self.cursor as int);
        }
        let (_, rest) = self.text().split_at(self.cursor as usize);
        let mut chars = rest.chars();
        let c = chars.next();
        proof {
            broadcast use vstd::string::group_string_axioms;

            if rest@.len() > 0 {
                encode_utf8_first_scalar(rest@);
            }
        }
        c
    }

    /// Checks whether the code point at the cursor is in the grouping. If
    /// so, moves the cursor past it.
    pub fn in_grouping(&mut self, chars: &[u8], min: u32, max: u32) -> (r: bool)
        requires
            old(self).wf(),
            grouping_ok(chars@, min, max),
        ensures
            r == (old(self).cursor < old(self).limit && in_group(
                chars@,
                min,
                max,
                old(self)@.ahead(),
            )),
            r ==> final(self)@ == old(self)@.stepped_forward(),
            !r ==> final(self)@ == old(self)@,
            final(self).wf(),
    {
        if self.cursor >= self.limit {
            return false;
        }
        if let Some(chr) = self.char_at_cursor() {
            let mut ch = chr as u32;  //codepoint as integer
            if ch > max || ch < min {
                return false;
            }
            ch -= min;
            proof {
                lemma_bit_index(ch);
            }
            if (chars[(ch >> 3) as usize] & (0x1 << (ch & 0x7))) == 0 {
                return false;
            }
            proof {
                lemma_next_boundary(self@.text, self.cursor as int);
            }
            self.next_char();
            return true;
        }
        return false;
    }

    /// Checks whether the code point that ends at the cursor is in the
    /// grouping. If so, moves the cursor before it.
    pub fn in_grouping_b(&mut self, chars: &[u8], min: u32, max: u32) -> (r: bool)
        requires
            old(self).wf(),
            grouping_ok(chars@, min, max),
        ensures
            r == (old(self).limit_backward < old(self).cursor && in_group(
                chars@,
                min,
                max,
                old(self)@.behind(),
            )),
            r ==> final(self)@ == old(self)@.stepped_backward(),
            !r ==> final(self)@ == old(self)@,
            final(self).wf(),
    {
        if self.cursor <= self.limit_backward {
            return false;
        }
        proof {
            lemma_prev_boundary(self@.text, self.cursor as int);
            lemma_next_unique(
                self@.text,
                prev_boundary(self@.text, self.cursor as int),
                self.cursor as int,
            );
        }
        self.previous_char();
        if let Some(chr) = self.char_at_cursor() {
            let mut ch = chr as u32;  //codepoint as integer
            self.next_char();
            if ch > max || ch < min {
                return false;
            }
            ch -= min;
            proof {
                lemma_bit_index(ch);
            }
            if (chars[(ch >> 3) as usize] & (0x1 << (ch & 0x7))) == 0 {
                return false;
            }
            self.previous_char();
            return true;
        }
        return false;
    }

    /// Checks whether the code point at the cursor is outside the grouping.
    /// If so, moves the cursor past it.
    pub fn out_grouping(&mut self, chars: &[u8], min: u32, max: u32) -> (r: bool)
        requires
            old(self).wf(),
            grouping_ok(chars@, min, max),
        ensures
            r == (old(self).cursor < old(self).limit && !in_group(
                chars@,
                min,
                max,
                old(self)@.ahead(),
            )),
            r ==> final(self)@ == old(self)@.stepped_forward(),
            !r ==> final(self)@ == old(self)@,
            final(self).wf(),
    {
        if self.cursor >= self.limit {
            return false;
        }
        proof {
            lemma_next_boundary(self@.text, self.cursor as int);
        }
        if let Some(chr) = self.char_at_cursor() {
            let mut ch = chr as u32;  //codepoint as integer
            if ch > max || ch < min {
                self.next_char();
                return true;
            }
            ch -= min;
            proof {
                lemma_bit_index(ch);
            }
            if (chars[(ch >> 3) as usize] & (0x1 << (ch & 0x7))) == 0 {
                self.next_char();
                return true;
            }
        }
        return false;
    }

    /// Checks whether the code point that ends at the cursor is outside the
    /// grouping. If so, moves the cursor before it.
    pub fn out_grouping_b(&mut self, chars: &[u8], min: u32, max: u32) -> (r: bool)
        requires
            old(self).wf(),
            grouping_ok(chars@, min, max),
        ensures
            r == (old(self).limit_backward < old(self).cursor && !in_group(
                chars@,
                min,
                max,
                old(self)@.behind(),
            )),
            r ==> final(self)@ == old(self)@.stepped_backward(),
            !r ==> final(self)@ == old(self)@,
            final(self).wf(),
    {
        if self.cursor <= self.limit_backward {
            return false;
        }
        proof {
            lemma_prev_boundary(self@.text, self.cursor as int);
            lemma_next_unique(
                self@.text,
                prev_boundary(self@.text, self.cursor as int),
                self.cursor as int,
            );
        }
        self.previous_char();
        if let Some(chr) = self.char_at_cursor() {
            let mut ch = chr as u32;  //codepoint as integer
            self.next_char();
            if ch > max || ch < min {
                self.previous_char();
                return true;
            }
            ch -= min;
            proof {
                lemma_bit_index(ch);
            }
            if (chars[(ch >> 3) as usize] & (0x1 << (ch & 0x7))) == 0 {
                self.previous_char();
                return true;
            }
        }
        return false;
    }
}

/// Shifting and masking an offset into a bit set select the byte and the bit
/// that division and remainder by eight name.
proof fn lemma_bit_index(offset: u32)
    ensures
        offset >> 3 == offset / 8,
        offset & 0x7 == offset % 8,
{
    assert(offset >> 3 == offset / 8) by (bit_vector);
    assert(offset & 0x7 == offset % 8) by (bit_vector);
}

} // verus!
