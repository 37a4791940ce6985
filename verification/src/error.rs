//! The error domain shared by the codec, the log store and the cache.

use vstd::prelude::*;
use vstd::string::StringExecFns;

verus! {

/// Classified failures: malformed frames, internal log failures, bad
/// configuration, domain errors, and a cooperative cancellation marker.
#[derive(Clone, Debug)]
pub enum Error {
    Abort,
    Config(String),
    Internal(String),
    Parse(String),
    Value(String),
}

impl Error {
    /// The human-readable message the error carries.
    pub open spec fn spec_message(&self) -> Seq<char> {
        match self {
            Error::Abort => "Operation aborted"@,
            Error::Config(s) => s@,
            Error::Internal(s) => s@,
            Error::Parse(s) => s@,
            Error::Value(s) => s@,
        }
    }

    /// Returns the message, in place of a display implementation.
    pub fn message(&self) -> (r: String)
        ensures
            r@ == self.spec_message(),
    {
        match self {
            Error::Abort => String::from_str("Operation aborted"),
            Error::Config(s) => s.clone(),
            Error::Internal(s) => s.clone(),
            Error::Parse(s) => s.clone(),
            Error::Value(s) => s.clone(),
        }
    }
}

impl PartialEq for Error {
    fn eq(&self, other: &Error) -> (r: bool) {
        match (self, other) {
            (Error::Abort, Error::Abort) => true,
            (Error::Config(a), Error::Config(b)) => a.eq(b),
            (Error::Internal(a), Error::Internal(b)) => a.eq(b),
            (Error::Parse(a), Error::Parse(b)) => a.eq(b),
            (Error::Value(a), Error::Value(b)) => a.eq(b),
            _ => false,
        }
    }
}

impl vstd::std_specs::cmp::PartialEqSpecImpl for Error {
    open spec fn obeys_eq_spec() -> bool {
        true
    }

    open spec fn eq_spec(&self, other: &Error) -> bool {
        match (self, other) {
            (Error::Abort, Error::Abort) => true,
            (Error::Config(a), Error::Config(b)) => a@ == b@,
            (Error::Internal(a), Error::Internal(b)) => a@ == b@,
            (Error::Parse(a), Error::Parse(b)) => a@ == b@,
            (Error::Value(a), Error::Value(b)) => a@ == b@,
            _ => false,
        }
    }
}

} // verus!
