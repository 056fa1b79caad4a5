//! The pair of sub-hashes from which a minimal perfect hash is built.

use vstd::prelude::*;
use crate::error::{Error, KindView};

verus! {

/// What a sub-hash returned, with the error taken by its view.
pub open spec fn outcome(r: Result<usize, Error>) -> Result<usize, KindView> {
    match r {
        Ok(index) => Ok(index),
        Err(e) => Err(e@),
    }
}

/// A text without a line break.
pub open spec fn is_line(text: Seq<char>) -> bool {
    forall|i: int| 0 <= i < text.len() ==> #[trigger] text[i] != '\n'
}

/// A trait for a hash algorithm: two sub-hashes of a word, and a rendering
/// of each as the right-hand side of an assignment in pseudo code.
///
/// Each sub-hash is a function of the algorithm and of the characters of
/// the word, and of nothing else: an implementation says by `spec_h1` and
/// `spec_h2` which function, and its `h1` and `h2` must return what these
/// say. What is proved of a hash that is built with an algorithm is proved
/// of these functions. Left as they are here, they say nothing, and no
/// `h1` or `h2` can be shown to return what they say.
pub trait HashAlgorithm {
    /// What `h1` returns for the characters of a word.
    open spec fn spec_h1(&self, word: Seq<char>) -> Result<usize, KindView> {
        arbitrary()
    }

    /// What `h2` returns for the characters of a word.
    open spec fn spec_h2(&self, word: Seq<char>) -> Result<usize, KindView> {
        arbitrary()
    }

    /// The text that `h1_as_text` returns.
    open spec fn spec_h1_text(&self) -> Seq<char> {
        arbitrary()
    }

    /// The text that `h2_as_text` returns.
    open spec fn spec_h2_text(&self) -> Seq<char> {
        arbitrary()
    }

    /// Hash function h1 that is used internally to generate row indices.
    ///
    /// Returns `Err` if `word` is not a word that the algorithm can hash.
    fn h1(&self, word: &str) -> (r: Result<usize, Error>)
        ensures
            outcome(r) == self.spec_h1(word@),
    ;

    /// Hash function h2 that is used internally to generate column indices.
    ///
    /// Returns `Err` if `word` is not a word that the algorithm can hash.
    fn h2(&self, word: &str) -> (r: Result<usize, Error>)
        ensures
            outcome(r) == self.spec_h2(word@),
    ;

    /// A representation of the hash function h1 as a string of pseudo code:
    /// the right-hand side of an assignment, on one line.
    fn h1_as_text(&self) -> (text: String)
        ensures
            text@ == self.spec_h1_text(),
            is_line(text@),
    ;

    /// A representation of the hash function h2 as a string of pseudo code:
    /// the right-hand side of an assignment, on one line.
    fn h2_as_text(&self) -> (text: String)
        ensures
            text@ == self.spec_h2_text(),
            is_line(text@),
    ;
}

} // verus!
