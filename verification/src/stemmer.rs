//! Choosing a stemming program by the name of its language, and running it
//! on a word.

use std::borrow::Cow;
use vstd::prelude::*;
use vstd::string::*;
use vstd::utf8::*;
use crate::cursor::bytes_match;
use crate::env::{EnvState, SnowballEnv};
use crate::text::{is_boundary, lemma_boundary_is_char_boundary};

verus! {

/// A stemming program: it rewrites the word held by an environment.
///
/// Programs are generated from descriptions of stemming algorithms and come
/// from outside this library. All that is asked of one is that what it
/// reports and leaves behind depends on nothing but the state of the
/// environment that it is given: `outcome` names that dependence, and says
/// nothing of what a program does. Of a program that is not itself verified,
/// the contract of `run` is taken on trust by what is proved of
/// [`Stemmer::stem`].
pub trait StemProgram {
    /// What a run reports and leaves behind, as a function of the state of
    /// the environment that it is given.
    spec fn outcome(&self, env: EnvState) -> (bool, EnvState);

    /// Runs the program.
    fn run(&self, env: &mut SnowballEnv) -> (done: bool)
        ensures
            (done, final(env)@) == self.outcome(old(env)@),
    ;
}

/// A stemming program under the name of its language.
#[derive(Clone, Copy)]
pub struct Algorithm {
    pub name: &'static str,
    pub program: &'static dyn StemProgram,
}

/// Why no stemmer could be made.
#[derive(Debug, Clone, PartialEq, Eq)]
pub enum StemError {
    /// No program is known under this name.
    UnknownAlgorithm(String),
}

impl StemError {
    /// The error in words.
    pub fn message(&self) -> (text: String)
        ensures
            match self {
                StemError::UnknownAlgorithm(name) => text@ == "Unknown algorithm '"@ + name@ + "'"@,
            },
    {
        match self {
            StemError::UnknownAlgorithm(name) => {
                let mut text = String::from_str("Unknown algorithm '");
                text.append(name.as_str());
                text.append("'");
                text
            },
        }
    }
}

/// The word that a program leaves in an environment: the text up to the
/// limit, or all of the text where the limit is no offset of it.
pub open spec fn stem_of(env: EnvState) -> Seq<u8> {
    if is_boundary(env.text, env.limit) {
        env.text.subrange(0, env.limit)
    } else {
        env.text
    }
}

/// Whether two strings hold the same text.
fn same_text(a: &str, b: &str) -> (r: bool)
    ensures
        r == (a@ == b@),
{
    let x = a.as_bytes();
    let y = b.as_bytes();
    proof {
        encode_utf8_decode_utf8(a@);
        encode_utf8_decode_utf8(b@);
    }
    proof {
        assert(x@.subrange(0, x@.len() as int) =~= x@);
    }
    x.len() == y.len() && bytes_match(x, 0, y)
}

/// Row `k` is the first of `algorithms` that bears the name `lang`.
pub open spec fn first_named(algorithms: Seq<Algorithm>, lang: Seq<char>, k: int) -> bool {
    &&& 0 <= k < algorithms.len()
    &&& algorithms[k].name@ == lang
    &&& forall|j: int| 0 <= j < k ==> (#[trigger] algorithms[j]).name@ != lang
}

/// Wraps a usable interface around a stemming program.
pub struct Stemmer {
    stemmer: Algorithm,
}

impl Stemmer {
    /// The algorithm that this stemmer runs.
    pub closed spec fn algorithm(&self) -> Algorithm {
        self.stemmer
    }

    /// A stemmer for the language `lang`: it runs the program of the first
    /// of `algorithms` that bears this name. Where there is none, the error
    /// names `lang`.
    pub fn create(lang: String, algorithms: &[Algorithm]) -> (r: Result<Stemmer, StemError>)
        ensures
            match r {
                Ok(stemmer) => exists|k: int|
                    #[trigger] first_named(algorithms@, lang@, k) && stemmer.algorithm()
                        == algorithms@[k],
                Err(StemError::UnknownAlgorithm(name)) => name == lang && forall|k: int|
                    0 <= k < algorithms@.len() ==> (#[trigger] algorithms@[k]).name@ != lang@,
            },
    {
        let mut k: usize = 0;
        while k < algorithms.len()
            invariant
                k <= algorithms@.len(),
                forall|j: int| 0 <= j < k ==> (#[trigger] algorithms@[j]).name@ != lang@,
            decreases algorithms@.len() - k,
        {
            if same_text(algorithms[k].name, lang.as_str()) {
                assert(first_named(algorithms@, lang@, k as int));
                return Ok(Stemmer { stemmer: algorithms[k] });
            }
            k += 1;
        }
        Err(StemError::UnknownAlgorithm(lang))
    }

    /// Stems a single word: runs the program on a fresh environment for
    /// `input` and returns the word that it leaves.
    ///
    /// The input is expected to be all lowercase, where that applies.
    pub fn stem<'a>(&self, input: &'a str) -> (stem: Cow<'a, str>)
        requires
            encode_utf8(input@).len() <= i32::MAX,
        ensures
            encode_utf8(stem@) == stem_of(
                self.algorithm().program.outcome(EnvState::initial(encode_utf8(input@))).1,
            ),
    {
        let mut env = SnowballEnv::create(input);
        self.stemmer.program.run(&mut env);
        proof {
            encode_utf8_valid_utf8(env.current@);
            lemma_boundary_is_char_boundary(env@.text, env.limit as int);
        }
        if env.limit >= 0 && (env.limit as usize) < env.text().as_bytes().len()
            && env.text().is_char_boundary(env.limit as usize) {
            Cow::Owned(env.assign_to())
        } else {
            env.get_current()
        }
    }
}

} // verus!
