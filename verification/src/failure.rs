//! What can stop a run, and the line that tells the user of it.

use vstd::prelude::*;
use vstd::string::StringExecFns;

verus! {

/// Why a run ended without success.
#[derive(Debug, PartialEq, Eq)]
pub enum RunError {
    /// The keyword holds no byte, so there is no shift to draw.
    EmptyKeyword,
    /// Reading from the source failed; the field gives the cause.
    Read(String),
    /// Writing to the sink failed; the field gives the cause.
    Write(String),
}

impl RunError {
    /// The line that describes the failure: where it happened, then the cause.
    pub open spec fn text(&self) -> Seq<char> {
        match self {
            RunError::EmptyKeyword => "Ciphering keyword must not be empty"@,
            RunError::Read(cause) => "Failed to read lines from input file: "@ + cause@,
            RunError::Write(cause) => "Failed to write lines to output file: "@ + cause@,
        }
    }

    /// Renders the failure as one descriptive line.
    pub fn message(&self) -> (line: String)
        ensures
            line@ == self.text(),
    {
        match self {
            RunError::EmptyKeyword => String::from_str("Ciphering keyword must not be empty"),
            RunError::Read(cause) => String::from_str(
                "Failed to read lines from input file: ",
            ).concat(cause.as_str()),
            RunError::Write(cause) => String::from_str(
                "Failed to write lines to output file: ",
            ).concat(cause.as_str()),
        }
    }
}

} // verus!
