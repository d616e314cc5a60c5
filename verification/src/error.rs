//! The ways in which producing a document can fail.

use vstd::prelude::*;

verus! {

/// Why a document could not be produced.
#[derive(Debug, Clone, Copy, PartialEq, Eq, Structural)]
pub enum DocError {
    /// The template or the output could not be reached.
    NotFound,
    /// The template is not a valid container, or its markup is not text.
    CorruptArchive,
    /// The container holds no markup entry.
    EntryNotFound,
    /// The markup's start and end tags do not balance.
    MalformedMarkup,
    /// Writing the output failed.
    Io,
    /// A fragment holds a character that the page document's string
    /// encoding cannot represent.
    Encoding,
}

impl DocError {
    /// A short description of the error.
    pub fn message(&self) -> (s: String)
        ensures
            s@ == (match *self {
                DocError::NotFound => "file not found"@,
                DocError::CorruptArchive => "corrupt archive"@,
                DocError::EntryNotFound => "markup entry not found"@,
                DocError::MalformedMarkup => "malformed markup"@,
                DocError::Io => "write failed"@,
                DocError::Encoding => "text cannot be encoded"@,
            }),
    {
        match self {
            DocError::NotFound => String::from_str("file not found"),
            DocError::CorruptArchive => String::from_str("corrupt archive"),
            DocError::EntryNotFound => String::from_str("markup entry not found"),
            DocError::MalformedMarkup => String::from_str("malformed markup"),
            DocError::Io => String::from_str("write failed"),
            DocError::Encoding => String::from_str("text cannot be encoded"),
        }
    }
}

} // verus!
