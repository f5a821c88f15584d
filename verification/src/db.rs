//! The records the index stores.
use vstd::prelude::*;

verus! {

/// A chunk as the index stores it, with its row id and its file's row id.
#[derive(Debug, Clone)]
pub struct StoredChunk {
    pub id: i64,
    pub file_id: i64,
    pub file_path: String,
    pub start_line: i64,
    pub end_line: i64,
    pub kind: String,
    pub name: Option<String>,
    pub content: String,
    pub file_type: String,
}

} // verus!
