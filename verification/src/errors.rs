//! The distinct failure conditions of the pipeline core.
//!
//! Every error surfaces to the top-level caller unchanged; the core never
//! retries or falls back.

use vstd::prelude::*;

verus! {

#[derive(Clone, Copy, Debug, PartialEq, Eq, Structural)]
pub enum Error {
    /// A stored vector's textual encoding is malformed.
    MalformedEncoding,
    /// The embedding batch does not pair up one-to-one with the passages.
    LengthMismatch,
    /// An embedding has a dimensionality other than the expected one.
    WrongDimension,
    /// A store entry's passage text is empty.
    EmptyPassage,
    /// The completion service returned no choices.
    NoCompletion,
    /// The completion service returned a choice without message content.
    NoCompletionMessage,
}

impl Error {
    /// A short description of the failed stage, for the caller's report;
    /// each condition keeps its own text, so no two failures read alike.
    pub fn describe(&self) -> (r: &'static str)
        ensures
            self is MalformedEncoding ==> r@ == "malformed stored vector encoding"@,
            self is LengthMismatch ==> r@ == "embedding count does not match passage count"@,
            self is WrongDimension ==> r@ == "embedding vector of wrong dimensionality"@,
            self is EmptyPassage ==> r@ == "empty passage text"@,
            self is NoCompletion ==> r@ == "No completion returned"@,
            self is NoCompletionMessage ==> r@ == "No completion message!"@,
    {
        match self {
            Error::MalformedEncoding => "malformed stored vector encoding",
            Error::LengthMismatch => "embedding count does not match passage count",
            Error::WrongDimension => "embedding vector of wrong dimensionality",
            Error::EmptyPassage => "empty passage text",
            Error::NoCompletion => "No completion returned",
            Error::NoCompletionMessage => "No completion message!",
        }
    }
}

} // verus!
