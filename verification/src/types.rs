//! The typed column values a caller of the engine may use above raw byte
//! keys and values: which datastore backs a database, which type a column
//! holds, and the values themselves.

use vstd::prelude::*;

verus! {

/// How a database's pages are kept.
#[derive(Clone, Copy, PartialEq, Eq, Structural, Debug)]
pub enum DatastoreVariants {
    InMemory,
    FileBased,
}

/// The type of one column.
#[derive(Clone, Copy, PartialEq, Eq, Structural, Debug)]
pub enum ColumnTypes {
    String,
    Int,
}

/// One typed value.
#[derive(Clone, Debug)]
pub enum ColumnData {
    String(String),
    Int(u64),
}

impl ColumnData {
    /// The value carries the type the column demands.
    pub fn validate(&self, data: ColumnTypes) -> (r: bool)
        ensures
            r == match data {
                ColumnTypes::String => self is String,
                ColumnTypes::Int => self is Int,
            },
    {
        match data {
            ColumnTypes::String => matches!(self, ColumnData::String(_)),
            ColumnTypes::Int => matches!(self, ColumnData::Int(_)),
        }
    }
}

} // verus!
