use vstd::prelude::*;

verus! {

/// The finite set of failure kinds reported by the library.
#[derive(Debug, Clone, Copy, PartialEq, Eq, Structural)]
pub enum ErrorKind {
    /// A privacy or mechanism argument lies outside its domain.
    InvalidParameter,
    /// A per-column argument disagrees in length with the data.
    ShapeMismatch,
    /// An element type is wrong for the requested operation.
    TypeMismatch,
    /// A required keyed input is absent.
    MissingArgument,
    /// The validator rejected the graph.
    PropertyViolation,
    /// A privacy usage is out of range.
    PrivacyBudgetInvalid,
    /// The random source reported a failure.
    SamplingFailure,
}

/// An error: its kind plus a human-readable context string.
#[derive(Debug)]
pub struct Error {
    pub kind: ErrorKind,
    pub message: String,
}

impl Error {
    pub fn new(kind: ErrorKind, message: &str) -> (r: Error)
        ensures
            r.kind == kind,
            r.message@ == message@,
    {
        Error { kind, message: message.to_owned() }
    }

    /// The error's kind.
    pub fn kind(&self) -> (r: ErrorKind)
        ensures
            r == self.kind,
    {
        self.kind
    }
}

} // verus!
