//! The ways in which a table operation can fail.

use vstd::prelude::*;

verus! {

/// Why a table operation was refused. A refused operation leaves the table as it was.
#[derive(Debug, Clone, Copy, PartialEq, Eq, Structural)]
pub enum QueryError {
    /// Two distinct records would end up under one key.
    KeyCollision,
    /// The key that an update names is not in the table.
    KeyNotFound,
}

impl QueryError {
    /// The text that describes the error to a person.
    pub open spec fn spec_message(self) -> Seq<char> {
        match self {
            QueryError::KeyCollision => "key is busy"@,
            QueryError::KeyNotFound => "key not found"@,
        }
    }

    /// Describes the error in words.
    pub fn message(&self) -> (text: &'static str)
        ensures
            text@ == self.spec_message(),
    {
        match self {
            QueryError::KeyCollision => "key is busy",
            QueryError::KeyNotFound => "key not found",
        }
    }
}

} // verus!
