//! A runtime for rule-based stemming algorithms.
//!
//! A stemming program drives a [`SnowballEnv`]: a word held as UTF-8 text
//! together with a cursor, the two limits of the region being scanned and a
//! bracketed slice that edits rewrite. Tables of affixes ([`Among`]) are
//! resolved against the text by [`SnowballEnv::find_among`] and
//! [`SnowballEnv::find_among_b`].
//!
//! Contracts are stated over [`EnvState`], the mathematical view of an
//! environment: the bytes of the text and its five offsets as integers.

pub mod text;
pub mod env;
pub mod among;
pub mod order;
pub mod scan;
pub mod slice;
pub mod cursor;
pub mod grouping;
pub mod stemmer;

pub use among::{Among, Condition};
pub use env::{EnvState, SnowballEnv};
pub use stemmer::{Algorithm, StemError, StemProgram, Stemmer};
