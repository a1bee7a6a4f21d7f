//! The pipeline's errors: a kind that callers can match on, and a message.
use vstd::prelude::*;
use vstd::string::*;

verus! {

/// What went wrong, by stage.
#[derive(Clone, Copy, Debug, PartialEq, Eq, Structural)]
pub enum ErrorKind {
    /// A failure with no more specific kind.
    General,
    /// Discovery found no regular file.
    NoInputFiles,
    /// An alias file was asked for and could not be read or parsed.
    AliasFileUnreadable,
    /// The job pool reported a failed sketch job.
    JobPoolFailure,
    /// Fewer or more sketch files than input files after sketching.
    IncompleteSketching,
    /// An external tool (comparison or rendering) failed.
    ExternalToolFailure,
}

/// An error of the pipeline, with its kind and a human-readable message.
#[derive(Debug)]
pub struct MyError {
    pub kind: ErrorKind,
    pub details: String,
}

impl MyError {
    /// An error of kind `General` with the given message.
    pub fn new(msg: &str) -> (r: MyError)
        ensures
            r.kind == ErrorKind::General,
            r.details@ == msg@,
    {
        MyError { kind: ErrorKind::General, details: String::from_str(msg) }
    }

    /// An error of the given kind with the given message.
    pub fn with_kind(kind: ErrorKind, msg: &str) -> (r: MyError)
        ensures
            r.kind == kind,
            r.details@ == msg@,
    {
        MyError { kind, details: String::from_str(msg) }
    }

    /// The message.
    pub fn description(&self) -> (r: &str)
        ensures
            r@ == self.details@,
    {
        self.details.as_str()
    }
}

} // verus!
