use vstd::prelude::*;

use crate::ids::{parse_uuid, uuid_from_text, uuid_hyphenated};

verus! {

/// Errors that the models report.
#[derive(Debug)]
pub enum DatabaseError {
    /// No row of the named model matched the query.
    ModelNotFound(&'static str),
    /// A request carried a value that the rules refuse.
    InvalidInput(&'static str),
    /// A text that should hold an identifier does not.
    UuidParseError(uuid::Error),
}

/// The result type of the models.
pub type ModelResult<T> = Result<T, DatabaseError>;

/// Parses the text of an identifier.
pub fn parse_id(text: &str) -> (res: ModelResult<u128>)
    ensures
        match res {
            Ok(v) => uuid_from_text(text@) == Some(v),
            Err(e) => uuid_from_text(text@) is None && e is UuidParseError,
        },
        forall|v: u128| #[trigger] uuid_hyphenated(v) == text@ ==> (res matches Ok(w) && w == v),
{
    match parse_uuid(text) {
        Ok(v) => Ok(v),
        Err(e) => Err(DatabaseError::UuidParseError(e)),
    }
}

/// Gives the row that a lookup found, or `ModelNotFound` naming the model.
pub fn require_found<T>(row: Option<T>, model: &'static str) -> (res: ModelResult<T>)
    ensures
        match row {
            Some(v) => res matches Ok(w) && w == v,
            None => res matches Err(DatabaseError::ModelNotFound(m)) && m == model,
        },
{
    match row {
        Some(v) => Ok(v),
        None => Err(DatabaseError::ModelNotFound(model)),
    }
}

} // verus!
