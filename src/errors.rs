//! Errors reported when parsing fails.
use vstd::prelude::*;
use vstd::string::StringExecFns;

verus! {

/// A failure of [`crate::Parser::finalize`], with the name of the flag at fault.
#[derive(Clone, Debug, PartialEq, Eq)]
pub enum Error {
    /// A required flag had no value once parsing was done.
    MissingArgument(String),
    /// A value flag was the last token, with nothing after it to be its value.
    MissingValue(String),
}

/// The text that describes an error on the flag named `key`.
pub open spec fn error_text(missing_value: bool, key: Seq<char>) -> Seq<char> {
    if missing_value {
        "argument '"@ + key + "' requires a value"@
    } else {
        "argument '"@ + key + "' is required"@
    }
}

impl Error {
    /// The name of the flag that the error is about.
    pub open spec fn key(&self) -> Seq<char> {
        match self {
            Error::MissingArgument(k) => k@,
            Error::MissingValue(k) => k@,
        }
    }

    /// A sentence describing the error, for the user of the program.
    pub fn message(&self) -> (r: String)
        ensures
            r@ == error_text(self is MissingValue, self.key()),
    {
        let mut r = String::from_str("argument '");
        match self {
            Error::MissingArgument(k) => {
                r.append(k.as_str());
                r.append("' is required");
            },
            Error::MissingValue(k) => {
                r.append(k.as_str());
                r.append("' requires a value");
            },
        }
        r
    }
}

} // verus!
