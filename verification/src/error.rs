//! The one user-facing error of the conversion core.

use vstd::prelude::*;

verus! {

/// Raised when a unit code outside the fixed set of four recognized codes
/// is parsed. The payload is the offending token.
#[derive(Debug)]
pub enum ConvertError {
    UnknownUnit(String),
}

impl ConvertError {
    /// A human-readable description of the error.
    pub fn message(&self) -> (msg: String)
        ensures
            self matches ConvertError::UnknownUnit(t) ==> msg@ =~= "Cannot process unit '"@
                + t@ + "' use either 'lb', 'g', 'kg', or 'metric ton'"@,
    {
        match self {
            ConvertError::UnknownUnit(token) => {
                let head = "Cannot process unit '".to_owned();
                let head = head.concat(token.as_str());
                head.concat("' use either 'lb', 'g', 'kg', or 'metric ton'")
            },
        }
    }
}

} // verus!
