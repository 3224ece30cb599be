//! The errors of the file and ID checks.
use vstd::prelude::*;

use crate::text::push_str;

verus! {

/// The errors of the file and ID checks.
#[derive(Debug)]
pub enum ValidatorError {
    FileNotExist { path: String },
    BinaryFile { path: String },
    MissingInputID { id: String },
    DuplicatedInputID { id: String },
}

/// The message that describes an error.
pub open spec fn validator_message(e: ValidatorError) -> Seq<char> {
    match e {
        ValidatorError::FileNotExist { path } => "file does not exist: "@ + path@,
        ValidatorError::BinaryFile { path } => "binary file detected: "@ + path@,
        ValidatorError::MissingInputID { id } => "missing input id `"@ + id@ + "`"@,
        ValidatorError::DuplicatedInputID { id } => "duplicated input id `"@ + id@ + "`"@,
    }
}

impl ValidatorError {
    /// The message that describes the error.
    pub fn message(&self) -> (r: String)
        ensures
            r@ == validator_message(*self),
    {
        let mut r = String::new();
        match self {
            ValidatorError::FileNotExist { path } => {
                push_str(&mut r, "file does not exist: ");
                push_str(&mut r, path.as_str());
            },
            ValidatorError::BinaryFile { path } => {
                push_str(&mut r, "binary file detected: ");
                push_str(&mut r, path.as_str());
            },
            ValidatorError::MissingInputID { id } => {
                push_str(&mut r, "missing input id `");
                push_str(&mut r, id.as_str());
                push_str(&mut r, "`");
            },
            ValidatorError::DuplicatedInputID { id } => {
                push_str(&mut r, "duplicated input id `");
                push_str(&mut r, id.as_str());
                push_str(&mut r, "`");
            },
        }
        proof {
            assert(Seq::<char>::empty() + validator_message(*self) =~= validator_message(*self));
        }
        r
    }
}

} // verus!
