//! The ways in which realigning a file can fail.
use vstd::prelude::*;

verus! {

/// Why a file could not be realigned.
#[derive(Clone, Debug, PartialEq, Eq)]
pub enum AlignError {
    /// The path, given here, does not name a readable file.
    FileNotFound(String),
    /// The file's extension selects no comment style.
    UnsupportedStyle,
    /// The realigned text could not be written back; the field
    /// describes what went wrong.
    WriteFailure(String),
}

/// The text that reports an error to the user.
pub open spec fn message_text(error: AlignError) -> Seq<char> {
    match error {
        AlignError::FileNotFound(path) => "Cannot find '"@ + path@ + "'"@,
        AlignError::UnsupportedStyle => "Unsupported file type"@,
        AlignError::WriteFailure(description) => description@,
    }
}

impl AlignError {
    /// The text that reports this error to the user.
    pub fn message(&self) -> (text: String)
        ensures
            text@ == message_text(*self),
    {
        match self {
            AlignError::FileNotFound(path) => {
                let mut text = String::from_str("Cannot find '");
                text.append(path.as_str());
                text.append("'");
                text
            },
            AlignError::UnsupportedStyle => String::from_str("Unsupported file type"),
            AlignError::WriteFailure(description) => description.clone(),
        }
    }
}

} // verus!
