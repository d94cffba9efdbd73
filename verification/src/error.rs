//! Errors surfaced to callers of the parser.

use vstd::prelude::*;

verus! {

/// Error surface of the crate.
///
/// `Parse` is the only error the parser itself produces: it carries a
/// human-readable message and is raised when input validation fails.
/// `Io` is reserved for an input-loading collaborator outside this crate;
/// it carries the loader's error text and is never produced here.
#[derive(Debug)]
pub enum Error {
    Io(String),
    Parse(String),
}

impl Error {
    /// The human-readable text carried by this error.
    pub fn message(&self) -> (m: &String)
        ensures
            m@ == self.message_spec(),
    {
        match self {
            Error::Io(m) => m,
            Error::Parse(m) => m,
        }
    }

    pub open spec fn message_spec(&self) -> Seq<char> {
        match self {
            Error::Io(m) => m@,
            Error::Parse(m) => m@,
        }
    }
}

} // verus!
