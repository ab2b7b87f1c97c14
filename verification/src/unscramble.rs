//! The errors of the word-unscrambling tool.

use vstd::prelude::*;
use vstd::string::*;

verus! {

/// What can go wrong in the word-unscrambling tool. Errors of the system
/// and of number parsing are kept by their text.
#[derive(Debug)]
pub enum UQUnscrambleError {
    Useage,
    IoError(String),
    ParseIntError(String),
    InvalidExpression(String),
}

impl UQUnscrambleError {
    /// The error in words.
    pub fn message(&self) -> (text: String)
        ensures
            text@ == match self {
                UQUnscrambleError::Useage => "usage"@,
                UQUnscrambleError::IoError(detail) => "IO Error: "@ + detail@,
                UQUnscrambleError::ParseIntError(detail) => "Parse Int Error: "@ + detail@,
                UQUnscrambleError::InvalidExpression(detail) => "Invalid Expression: "@ + detail@,
            },
    {
        match self {
            UQUnscrambleError::Useage => String::from_str("usage"),
            UQUnscrambleError::IoError(detail) => String::from_str("IO Error: ").concat(
                detail.as_str(),
            ),
            UQUnscrambleError::ParseIntError(detail) => String::from_str(
                "Parse Int Error: ",
            ).concat(detail.as_str()),
            UQUnscrambleError::InvalidExpression(detail) => String::from_str(
                "Invalid Expression: ",
            ).concat(detail.as_str()),
        }
    }
}

} // verus!
