//! The request and response shapes of the storage service, and the
//! compaction policies an engine can be configured with.

use vstd::prelude::*;

verus! {

/// A client request: read a key, write a pair, or delete a key.
#[derive(Debug, Clone, PartialEq, Eq)]
pub enum Request {
    Read { key: String },
    Write { key: String, value: String },
    Delete { key: String },
}

/// A server response: success (with the value for a read hit, nothing for
/// writes, deletes and misses), or an error message.
#[derive(Debug, Clone, PartialEq, Eq)]
pub enum Response {
    Success(Option<String>),
    Error(String),
}

/// The compaction policy.  Only the leveled policy is implemented;
/// constructing an engine with the size-tiered one fails.
#[derive(Debug, Clone, Copy, PartialEq, Eq)]
pub enum CompactionStrategy {
    SizeTiered,
    LevelBased,
}

} // verus!
