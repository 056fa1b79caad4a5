//! The error type shared by every stage of the construction.

use vstd::prelude::*;
use vstd::string::*;

verus! {

/// An error that can occur in this library.
#[derive(Debug)]
pub struct Error {
    kind: Kind,
}

/// The different kinds of errors that can occur, each with its message.
#[derive(Debug)]
pub enum Kind {
    /// The finished hash did not pass its final examination.
    HashError(String),
    /// The word list is not fit for hashing.
    WordListError(String),
    /// Two words fell on one cell of the two-dimensional array.
    TwoDArrayError(String),
    /// The rows could not be packed into the one-dimensional array.
    OneDPackedArrayError(String),
    /// A word cannot be hashed by the extremal letter algorithm.
    ElcAlgorithmError(String),
}

/// What a `Kind` is to a contract: the same variants over character sequences.
pub enum KindView {
    HashError(Seq<char>),
    WordListError(Seq<char>),
    TwoDArrayError(Seq<char>),
    OneDPackedArrayError(Seq<char>),
    ElcAlgorithmError(Seq<char>),
}

impl KindView {
    /// The message carried, whatever the variant.
    pub open spec fn message(self) -> Seq<char> {
        match self {
            KindView::HashError(s) => s,
            KindView::WordListError(s) => s,
            KindView::TwoDArrayError(s) => s,
            KindView::OneDPackedArrayError(s) => s,
            KindView::ElcAlgorithmError(s) => s,
        }
    }

    /// The words that precede the message when the error is shown.
    pub open spec fn label(self) -> Seq<char> {
        match self {
            KindView::HashError(_) => "Hash Error: "@,
            KindView::WordListError(_) => "Word List Error: "@,
            KindView::TwoDArrayError(_) => "2D Array Error: "@,
            KindView::OneDPackedArrayError(_) => "1D Packed Array Error: "@,
            KindView::ElcAlgorithmError(_) => "ELC Algorithm Error: "@,
        }
    }

    /// The full line shown for the error: label, then message.
    pub open spec fn text(self) -> Seq<char> {
        self.label() + self.message()
    }
}

impl View for Kind {
    type V = KindView;

    open spec fn view(&self) -> KindView {
        match self {
            Kind::HashError(s) => KindView::HashError(s@),
            Kind::WordListError(s) => KindView::WordListError(s@),
            Kind::TwoDArrayError(s) => KindView::TwoDArrayError(s@),
            Kind::OneDPackedArrayError(s) => KindView::OneDPackedArrayError(s@),
            Kind::ElcAlgorithmError(s) => KindView::ElcAlgorithmError(s@),
        }
    }
}

impl View for Error {
    type V = KindView;

    closed spec fn view(&self) -> KindView {
        self.kind@
    }
}

impl Error {
    /// Wraps a kind into an error.
    pub fn new(kind: Kind) -> (e: Error)
        ensures
            e@ == kind@,
    {
        Error { kind }
    }

    /// Convenience function for getting the kind of error.
    #[must_use]
    pub fn kind(&self) -> (k: &Kind)
        ensures
            k@ == self@,
    {
        &self.kind
    }

    /// The error as one line of text: the label of its kind, then its message.
    pub fn to_string(&self) -> (s: String)
        ensures
            s@ == self@.text(),
    {
        let (label, message) = match &self.kind {
            Kind::HashError(s) => ("Hash Error: ", s),
            Kind::WordListError(s) => ("Word List Error: ", s),
            Kind::TwoDArrayError(s) => ("2D Array Error: ", s),
            Kind::OneDPackedArrayError(s) => ("1D Packed Array Error: ", s),
            Kind::ElcAlgorithmError(s) => ("ELC Algorithm Error: ", s),
        };
        let mut out = String::from_str(label);
        out.append(message.as_str());
        out
    }
}

} // verus!
