//! Moving the cursor: by one code point, by several, and over a given
//! string.
//!
//! None of these touch the limits, the bracket or the text.

use vstd::prelude::*;
use vstd::string::*;
use vstd::utf8::*;
use crate::env::{EnvState, SnowballEnv};
use crate::text::{
    code_points, is_boundary, lemma_boundary_is_char_boundary, lemma_code_points_split,
    lemma_code_points_step, lemma_first_byte_leads, lemma_match_ends_on_boundary,
    lemma_next_boundary, lemma_next_unique, lemma_prev_boundary, lemma_prev_unique, next_boundary,
    prev_boundary,
};

verus! {

impl EnvState {
    /// The text from the cursor on begins with `s`, within the limit.
    pub open spec fn matches_ahead(self, s: Seq<u8>) -> bool {
        self.cursor + s.len() <= self.limit && self.text.subrange(
            self.cursor,
            self.cursor + s.len(),
        ) == s
    }

    /// The text up to the cursor ends with `s`, within the backward limit.
    pub open spec fn matches_behind(self, s: Seq<u8>) -> bool {
        self.cursor - s.len() >= self.limit_backward && self.text.subrange(
            self.cursor - s.len(),
            self.cursor,
        ) == s
    }
}

/// Whether `pattern` stands in `text` at offset `at`.
pub(crate) fn bytes_match(text: &[u8], at: usize, pattern: &[u8]) -> (r: bool)
    requires
        at + pattern@.len() <= text@.len(),
    ensures
        r == (text@.subrange(at as int, at + pattern@.len()) == pattern@),
{
    let len = text.len();
    let mut k: usize = 0;
    while k < pattern.len()
        invariant
            at + pattern@.len() <= text@.len() == len,
            k <= pattern@.len(),
            forall|j: int| 0 <= j < k ==> text@[at + j] == pattern@[j],
        decreases pattern@.len() - k,
    {
        if text[at + k] != pattern[k] {
            return false;
        }
        k += 1;
    }
    assert(text@.subrange(at as int, at + pattern@.len()) =~= pattern@);
    true
}

impl<'a> SnowballEnv<'a> {
    /// Checks whether `s` follows the cursor, within the limit. If so, moves
    /// the cursor to the end of `s`.
    pub fn eq_s(&mut self, s: &str) -> (r: bool)
        requires
            old(self).wf(),
        ensures
            r == old(self)@.matches_ahead(s.spec_bytes()),
            r ==> final(self)@ == old(self)@.with_cursor(old(self).cursor + s.spec_bytes().len()),
            !r ==> final(self)@ == old(self)@,
            final(self).wf(),
    {
        let len = s.as_bytes().len();
        if ((self.limit - self.cursor) as usize) < len {
            return false;
        }
        if bytes_match(self.text().as_bytes(), self.cursor as usize, s.as_bytes()) {
            proof {
                encode_utf8_valid_utf8(s@);
                lemma_match_ends_on_boundary(self@.text, self.cursor as int, s.spec_bytes());
            }
            self.cursor += len as i32;
            true
        } else {
            false
        }
    }

    /// Checks whether `s` precedes the cursor, within the backward limit. If
    /// so, moves the cursor to the beginning of `s`.
    pub fn eq_s_b(&mut self, s: &str) -> (r: bool)
        requires
            old(self).wf(),
        ensures
            r == old(self)@.matches_behind(s.spec_bytes()),
            r ==> final(self)@ == old(self)@.with_cursor(old(self).cursor - s.spec_bytes().len()),
            !r ==> final(self)@ == old(self)@,
            final(self).wf(),
    {
        let len = s.as_bytes().len();
        if ((self.cursor - self.limit_backward) as usize) < len {
            return false;
        }
        let start = self.cursor as usize - len;
        proof {
            encode_utf8_valid_utf8(s@);
            lemma_boundary_is_char_boundary(self@.text, start as int);
            if len > 0 {
                lemma_first_byte_leads(s.spec_bytes());
                if self@.matches_behind(s.spec_bytes()) {
                    assert(self@.text[start as int] == self@.text.subrange(
                        start as int,
                        self.cursor as int,
                    )[0]);
                }
            }
        }
        if !self.text().is_char_boundary(start) || !bytes_match(
            self.text().as_bytes(),
            start,
            s.as_bytes(),
        ) {
            false
        } else {
            self.cursor -= len as i32;
            true
        }
    }

    /// Moves the cursor to the next boundary: forward by one code point when
    /// it stands on a boundary.
    ///
    /// The cursor has to stand before the end of the text, and the boundary
    /// has to fit the offset type: it does where the cursor stands before the
    /// limit of a well-formed environment, and where the text is short
    /// enough.
    pub fn next_char(&mut self)
        requires
            0 <= old(self).cursor < old(self)@.text.len(),
            old(self).wf() && old(self).cursor < old(self).limit || old(self)@.text.len()
                <= i32::MAX,
        ensures
            final(self)@ == old(self)@.with_cursor(
                next_boundary(old(self)@.text, old(self).cursor as int),
            ),
            old(self).wf() && old(self).cursor < old(self).limit ==> final(self).wf(),
    {
        let ghost text = self@.text;
        let ghost target = next_boundary(text, self.cursor as int);
        proof {
            encode_utf8_valid_utf8(self.current@);
            lemma_next_boundary(text, self.cursor as int);
        }
        self.cursor += 1;
        while !self.text().is_char_boundary(self.cursor as usize)
            invariant
                self@ == old(self)@.with_cursor(self.cursor as int),
                text == old(self)@.text,
                valid_utf8(text),
                old(self).cursor < self.cursor <= target <= text.len(),
                target <= i32::MAX,
                is_boundary(text, target),
                forall|k: int| old(self).cursor < k < target ==> !is_boundary(text, k),
            decreases target - self.cursor,
        {
            proof {
                lemma_boundary_is_char_boundary(text, self.cursor as int);
            }
            self.cursor += 1;
        }
        proof {
            lemma_boundary_is_char_boundary(text, self.cursor as int);
        }
    }

    /// Moves the cursor to the previous boundary: backward by one code
    /// point when it stands on a boundary.
    pub fn previous_char(&mut self)
        requires
            0 < old(self).cursor <= old(self)@.text.len(),
        ensures
            final(self)@ == old(self)@.with_cursor(
                prev_boundary(old(self)@.text, old(self).cursor as int),
            ),
            old(self).wf() && old(self).limit_backward < old(self).cursor ==> final(self).wf(),
    {
        let ghost text = self@.text;
        let ghost target = prev_boundary(text, self.cursor as int);
        proof {
            encode_utf8_valid_utf8(self.current@);
            if text.len() > 0 {
                lemma_first_byte_leads(text);
            }
            lemma_prev_boundary(text, self.cursor as int);
        }
        self.cursor -= 1;
        while !self.text().is_char_boundary(self.cursor as usize)
            invariant
                self@ == old(self)@.with_cursor(self.cursor as int),
                text == old(self)@.text,
                valid_utf8(text),
                0 <= target <= self.cursor < old(self).cursor <= text.len(),
                is_boundary(text, target),
                forall|k: int| target < k < old(self).cursor ==> !is_boundary(text, k),
            decreases self.cursor - target,
        {
            proof {
                lemma_boundary_is_char_boundary(text, self.cursor as int);
            }
            self.cursor -= 1;
        }
        proof {
            lemma_boundary_is_char_boundary(text, self.cursor as int);
        }
    }

    /// Moves the cursor forward by `delta` code points, if that many lie
    /// between the cursor and the limit; otherwise leaves it where it is.
    pub fn hop(&mut self, delta: i32) -> (r: bool)
        requires
            old(self).wf(),
        ensures
            r == (delta <= code_points(
                old(self)@.text,
                old(self).cursor as int,
                old(self).limit as int,
            )),
            final(self)@ == old(self)@.with_cursor(final(self).cursor as int),
            r ==> old(self).cursor <= final(self).cursor && code_points(
                old(self)@.text,
                old(self).cursor as int,
                final(self).cursor as int,
            ) == if delta > 0 {
                delta as int
            } else {
                0
            },
            !r ==> final(self).cursor == old(self).cursor,
            final(self).wf(),
    {
        let mut res = self.cursor;
        let mut left = delta;
        let ghost text = self@.text;
        while left > 0
            invariant
                self@ == old(self)@,
                self.wf(),
                text == self@.text,
                left <= delta,
                delta > 0 ==> left >= 0,
                self.cursor <= res <= self.limit,
                is_boundary(text, res as int),
                code_points(text, self.cursor as int, res as int) == if delta > 0 {
                    delta - left
                } else {
                    0
                },
            decreases left,
        {
            left -= 1;
            if res >= self.limit {
                return false;
            }
            let ghost from = res;
            proof {
                lemma_next_boundary(text, from as int);
                lemma_code_points_step(text, from as int);
                lemma_code_points_split(
                    text,
                    self.cursor as int,
                    from as int,
                    next_boundary(text, from as int),
                );
                lemma_code_points_split(
                    text,
                    self.cursor as int,
                    next_boundary(text, from as int),
                    self.limit as int,
                );
            }
            res += 1;
            while res < self.limit && !self.text().is_char_boundary(res as usize)
                invariant
                    self@ == old(self)@,
                    self.wf(),
                    text == self@.text,
                    0 <= from < res <= self.limit,
                    forall|k: int| from < k < res ==> !is_boundary(text, k),
                decreases self.limit - res,
            {
                proof {
                    lemma_boundary_is_char_boundary(text, res as int);
                }
                res += 1;
            }
            proof {
                lemma_boundary_is_char_boundary(text, res as int);
                lemma_next_unique(text, from as int, res as int);
            }
        }
        proof {
            lemma_code_points_split(text, self.cursor as int, res as int, self.limit as int);
        }
        self.cursor = res;
        return true;
    }

    /// As [`SnowballEnv::hop`], and fails for a negative `delta`.
    pub fn hop_checked(&mut self, delta: i32) -> (r: bool)
        requires
            old(self).wf(),
        ensures
            r == (0 <= delta <= code_points(
                old(self)@.text,
                old(self).cursor as int,
                old(self).limit as int,
            )),
            final(self)@ == old(self)@.with_cursor(final(self).cursor as int),
            r ==> old(self).cursor <= final(self).cursor && code_points(
                old(self)@.text,
                old(self).cursor as int,
                final(self).cursor as int,
            ) == delta,
            !r ==> final(self).cursor == old(self).cursor,
            final(self).wf(),
    {
        return delta >= 0 && self.hop(delta);
    }

    /// Moves the cursor backward by `delta` code points, if that many lie
    /// between the backward limit and the cursor; otherwise leaves it where
    /// it is.
    pub fn hop_back(&mut self, delta: i32) -> (r: bool)
        requires
            old(self).wf(),
        ensures
            r == (delta <= code_points(
                old(self)@.text,
                old(self).limit_backward as int,
                old(self).cursor as int,
            )),
            final(self)@ == old(self)@.with_cursor(final(self).cursor as int),
            r ==> final(self).cursor <= old(self).cursor && code_points(
                old(self)@.text,
                final(self).cursor as int,
                old(self).cursor as int,
            ) == if delta > 0 {
                delta as int
            } else {
                0
            },
            !r ==> final(self).cursor == old(self).cursor,
            final(self).wf(),
    {
        let mut res = self.cursor;
        let mut left = delta;
        let ghost text = self@.text;
        while left > 0
            invariant
                self@ == old(self)@,
                self.wf(),
                text == self@.text,
                left <= delta,
                delta > 0 ==> left >= 0,
                self.limit_backward <= res <= self.cursor,
                is_boundary(text, res as int),
                code_points(text, res as int, self.cursor as int) == if delta > 0 {
                    delta - left
                } else {
                    0
                },
            decreases left,
        {
            left -= 1;
            if res <= self.limit_backward {
                return false;
            }
            let ghost from = res;
            proof {
                lemma_prev_boundary(text, from as int);
            }
            res -= 1;
            while res > self.limit_backward && !self.text().is_char_boundary(res as usize)
                invariant
                    self@ == old(self)@,
                    self.wf(),
                    text == self@.text,
                    self.limit_backward <= res < from <= self.cursor,
                    forall|k: int| res < k < from ==> !is_boundary(text, k),
                decreases res - self.limit_backward,
            {
                proof {
                    lemma_boundary_is_char_boundary(text, res as int);
                }
                res -= 1;
            }
            proof {
                lemma_boundary_is_char_boundary(text, res as int);
                lemma_prev_unique(text, from as int, res as int);
                lemma_next_unique(text, res as int, from as int);
                lemma_code_points_step(text, res as int);
                lemma_code_points_split(text, res as int, from as int, self.cursor as int);
                lemma_code_points_split(
                    text,
                    self.limit_backward as int,
                    res as int,
                    self.cursor as int,
                );
            }
        }
        proof {
            lemma_code_points_split(
                text,
                self.limit_backward as int,
                res as int,
                self.cursor as int,
            );
        }
        self.cursor = res;
        return true;
    }

    /// As [`SnowballEnv::hop_back`], and fails for a negative `delta`.
    pub fn hop_back_checked(&mut self, delta: i32) -> (r: bool)
        requires
            old(self).wf(),
        ensures
            r == (0 <= delta <= code_points(
                old(self)@.text,
                old(self).limit_backward as int,
                old(self).cursor as int,
            )),
            final(self)@ == old(self)@.with_cursor(final(self).cursor as int),
            r ==> final(self).cursor <= old(self).cursor && code_points(
                old(self)@.text,
                final(self).cursor as int,
                old(self).cursor as int,
            ) == delta,
            !r ==> final(self).cursor == old(self).cursor,
            final(self).wf(),
    {
        return delta >= 0 && self.hop_back(delta);
    }
}

} // verus!
