//! The stemming environment: the word and its offsets.

use std::borrow::Cow;
use vstd::prelude::*;
use vstd::utf8::*;
use crate::text::is_boundary;

verus! {

/// The word under transformation, with the offsets that a stemming program
/// works with. All offsets are byte offsets into `current`.
#[derive(Debug)]
pub struct SnowballEnv<'a> {
    /// The text of the word.
    pub current: Cow<'a, str>,
    /// The scan position.
    pub cursor: i32,
    /// The end (exclusive) of the region that forward scans may read.
    pub limit: i32,
    /// The start of the region that backward scans may read.
    pub limit_backward: i32,
    /// The start of the bracketed slice.
    pub bra: i32,
    /// The end of the bracketed slice.
    pub ket: i32,
}

/// The mathematical content of a [`SnowballEnv`]: the UTF-8 bytes of the
/// text and the five offsets.
pub struct EnvState {
    pub text: Seq<u8>,
    pub cursor: int,
    pub limit: int,
    pub limit_backward: int,
    pub bra: int,
    pub ket: int,
}

impl EnvState {
    /// The state of a freshly created environment for a word with the given
    /// bytes.
    pub open spec fn initial(text: Seq<u8>) -> EnvState {
        EnvState {
            text,
            cursor: 0,
            limit: text.len() as int,
            limit_backward: 0,
            bra: 0,
            ket: text.len() as int,
        }
    }

    /// The region invariant: the text is valid UTF-8,
    /// `0 <= limit_backward <= cursor <= limit <= len`, and the three offsets
    /// are boundaries.
    pub open spec fn wf(self) -> bool {
        &&& valid_utf8(self.text)
        &&& 0 <= self.limit_backward <= self.cursor <= self.limit <= self.text.len()
        &&& is_boundary(self.text, self.limit_backward)
        &&& is_boundary(self.text, self.cursor)
        &&& is_boundary(self.text, self.limit)
    }

    /// The bracket denotes a slice of the text: `0 <= bra <= ket <= len`,
    /// both on boundaries.
    pub open spec fn bracket_wf(self) -> bool {
        &&& 0 <= self.bra <= self.ket <= self.text.len()
        &&& is_boundary(self.text, self.bra)
        &&& is_boundary(self.text, self.ket)
    }

    /// This state with the cursor moved to `cursor`.
    pub open spec fn with_cursor(self, cursor: int) -> EnvState {
        EnvState { cursor, ..self }
    }

    /// This state with its text replaced.
    pub open spec fn with_text(self, text: Seq<u8>) -> EnvState {
        EnvState { text, ..self }
    }
}

impl<'a> View for SnowballEnv<'a> {
    type V = EnvState;

    open spec fn view(&self) -> EnvState {
        EnvState {
            text: encode_utf8(self.current@),
            cursor: self.cursor as int,
            limit: self.limit as int,
            limit_backward: self.limit_backward as int,
            bra: self.bra as int,
            ket: self.ket as int,
        }
    }
}

impl<'a> Clone for SnowballEnv<'a> {
    /// A copy of the environment: the same text, the same offsets.
    fn clone(&self) -> (copy: Self)
        ensures
            copy == *self,
    {
        SnowballEnv {
            current: match &self.current {
                Cow::Borrowed(borrowed) => Cow::Borrowed(borrowed),
                Cow::Owned(owned) => Cow::Owned(owned.clone()),
            },
            cursor: self.cursor,
            limit: self.limit,
            limit_backward: self.limit_backward,
            bra: self.bra,
            ket: self.ket,
        }
    }
}

impl<'a> SnowballEnv<'a> {
    /// The region invariant of [`EnvState::wf`], on this environment.
    pub open spec fn wf(&self) -> bool {
        self@.wf()
    }

    /// The text of the word, borrowed.
    pub(crate) fn text(&self) -> (s: &str)
        ensures
            s@ == self.current@,
    {
        match &self.current {
            Cow::Borrowed(borrowed) => borrowed,
            Cow::Owned(owned) => owned.as_str(),
        }
    }

    /// An environment for `value`: the cursor at the start, the limits and
    /// the bracket around the whole word.
    pub fn create(value: &'a str) -> (env: Self)
        requires
            encode_utf8(value@).len() <= i32::MAX,
        ensures
            env@ == EnvState::initial(encode_utf8(value@)),
            env.current@ == value@,
            env.wf(),
            env@.bracket_wf(),
    {
        let len = value.len();
        proof {
            encode_utf8_valid_utf8(value@);
        }
        SnowballEnv {
            current: Cow::Borrowed(value),
            cursor: 0,
            limit: len as i32,
            limit_backward: 0,
            bra: 0,
            ket: len as i32,
        }
    }

    /// Gives up the environment for its text, the whole of it.
    pub fn get_current(self) -> (current: Cow<'a, str>)
        ensures
            current == self.current,
            encode_utf8(current@) == self@.text,
    {
        self.current
    }

    /// Replaces the text by `current`. The offsets stay as they are.
    pub fn set_current(&mut self, current: &'a str)
        ensures
            final(self)@ == old(self)@.with_text(encode_utf8(current@)),
            final(self).current@ == current@,
    {
        self.current = Cow::Borrowed(current);
    }

    /// Replaces the text by `current`, which the environment then owns. The
    /// offsets stay as they are.
    pub fn set_current_s(&mut self, current: String)
        ensures
            final(self)@ == old(self)@.with_text(encode_utf8(current@)),
            final(self).current@ == current@,
    {
        self.current = Cow::Owned(current);
    }
}

} // verus!
