//! A tagged error enumeration, each variant carrying a fixed human-readable
//! message; exposed for display only, never matched on by the rest of the
//! library.

use vstd::prelude::*;

verus! {

/// The two tagged error kinds.
#[derive(Clone, Copy, Debug, PartialEq, Eq, Structural)]
pub enum MyError {
    AdditionError,
    SubtractionError,
}

impl MyError {
    /// The fixed human-readable message of this error kind.
    pub fn message(&self) -> (r: &'static str)
        ensures
            *self == MyError::AdditionError ==> r@ == "an addition error occurred"@,
            *self == MyError::SubtractionError ==> r@ == "a subtraction error occurred"@,
    {
        match *self {
            MyError::AdditionError => "an addition error occurred",
            MyError::SubtractionError => "a subtraction error occurred",
        }
    }
}

} // verus!
