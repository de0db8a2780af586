//! Error type for OCSF proto generation.

use vstd::prelude::*;

use crate::text;

verus! {

/// Errors the generation core can report.
#[derive(Debug)]
pub enum Error {
    /// A requested event class was not found in the schema. `available`
    /// holds a hint listing known class names.
    ClassNotFound { name: String, available: String },
}

/// The rendered message of a class-not-found error.
pub open spec fn class_not_found_message(name: Seq<char>, available: Seq<char>) -> Seq<char> {
    "class '"@ + name + "' not found in schema (available: "@ + available + ")"@
}

impl Error {
    /// A human-readable description of the error.
    pub fn message(&self) -> (r: String)
        ensures
            (match self {
                Error::ClassNotFound { name, available } => r@ == class_not_found_message(
                    name@,
                    available@,
                ),
            }),
    {
        match self {
            Error::ClassNotFound { name, available } => {
                let mut out = String::new();
                out.append("class '");
                out.append(name.as_str());
                out.append("' not found in schema (available: ");
                out.append(available.as_str());
                out.append(")");
                proof {
                    assert(out@ =~= class_not_found_message(name@, available@));
                }
                out
            },
        }
    }
}

} // verus!
