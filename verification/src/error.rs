//! The failures that index operations report.

use vstd::prelude::*;

verus! {

/// Why an index operation failed.
#[derive(Clone, Copy, Debug, PartialEq, Eq, Structural)]
pub enum IndexError {
    /// Shard data could not be opened as an ordered map.
    Io,
    /// A line or a key holds a field that is not hexadecimal, or text that
    /// is not UTF-8.
    Encoding,
    /// The ordered map could not take an entry or could not be sealed.
    Build,
    /// No valid match pattern could be made from the query.
    Query,
}

impl IndexError {
    /// A short description for logs and responses.
    pub fn message(&self) -> (text: &'static str)
        ensures
            text@ == (match *self {
                IndexError::Io => "cannot open shard data"@,
                IndexError::Encoding => "malformed hexadecimal field or text"@,
                IndexError::Build => "cannot write or seal the index"@,
                IndexError::Query => "cannot make a match pattern from the query"@,
            }),
    {
        match self {
            IndexError::Io => "cannot open shard data",
            IndexError::Encoding => "malformed hexadecimal field or text",
            IndexError::Build => "cannot write or seal the index",
            IndexError::Query => "cannot make a match pattern from the query",
        }
    }
}

} // verus!
