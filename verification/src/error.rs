use vstd::prelude::*;

verus! {

/// What went wrong.
#[derive(Clone, Copy, Debug, PartialEq, Eq, Structural)]
pub enum ErrorKind {
    /// The bytes are not a valid descriptor set.
    Decode,
    /// A file descriptor declares no package.
    MissingPackage,
    /// No generated fragment exists for a package.
    FragmentNotFound,
    /// A module was to be inserted at the empty path.
    InvalidPath,
    /// The formatter ran and reported failure.
    FormatterFailure,
}

/// A fatal error: its kind, and the text that makes it actionable (the
/// offending file name, or the message of whoever failed).
#[derive(Debug)]
pub struct TranspileError {
    pub kind: ErrorKind,
    pub detail: String,
}

impl View for TranspileError {
    type V = (ErrorKind, Seq<char>);

    open spec fn view(&self) -> (ErrorKind, Seq<char>) {
        (self.kind, self.detail@)
    }
}

impl TranspileError {
    /// The text that the error carries.
    pub fn message(&self) -> (r: String)
        ensures
            r@ == self.detail@,
    {
        self.detail.clone()
    }
}

} // verus!
