//! The single error kind surfaced by this library.

use vstd::prelude::*;
use vstd::string::StringExecFns;

verus! {

/// An invalid-parameter error carrying a human-readable message that
/// identifies the offending axis kind, name lists or selection.
///
/// Every validation failure in this library is reported through this type;
/// there are no fatal failures.
#[derive(Debug)]
pub enum Error {
    InvalidParameter(String),
}

impl Error {
    /// The raw message carried by this error, without the kind prefix.
    pub closed spec fn text(&self) -> Seq<char> {
        match self {
            Error::InvalidParameter(s) => s@,
        }
    }

    /// Build an invalid-parameter error from its message.
    pub fn invalid_parameter(message: String) -> (e: Error)
        ensures
            e.text() == message@,
    {
        Error::InvalidParameter(message)
    }

    /// The full message of this error, prefixed by its kind.
    pub fn message(&self) -> (r: String)
        ensures
            r@ == "invalid parameter: "@ + self.text(),
    {
        let mut r = String::from_str("invalid parameter: ");
        match self {
            Error::InvalidParameter(s) => {
                r.append(s.as_str());
            },
        }
        r
    }
}

} // verus!
