//! Choosing the chunker for a file by its type.
use vstd::prelude::*;
use crate::scanner::{FileType, file_type_name};
use crate::text_chunker::{TextChunk, ChunkSpec, cv, spec_chunk_text_file, chunk_text_file, spec_whole_file_chunk};
use crate::ts_chunker::{rust_syntax, nodes_fit, spec_chunk_syntax, chunk_rust};

verus! {

/// The chunks of a Rust file, as `chunk_rust` gives them.
pub open spec fn spec_chunk_rust(content: Seq<char>, path: Seq<char>) -> Seq<ChunkSpec> {
    match rust_syntax(content) {
        Some(ns) => if nodes_fit(content, ns) {
            spec_chunk_syntax(content, path, ns)
        } else {
            seq![spec_whole_file_chunk(content, path)]
        },
        None => seq![spec_whole_file_chunk(content, path)],
    }
}

/// The chunks of a file of the given type: Rust through its syntax tree, every
/// other type through the text chunker under the type's name.
pub open spec fn spec_chunk_file(content: Seq<char>, path: Seq<char>, file_type: FileType) -> Seq<ChunkSpec> {
    match file_type {
        FileType::Rust => spec_chunk_rust(content, path),
        _ => spec_chunk_text_file(content, path, file_type_name(file_type)),
    }
}

/// Splits a file into chunks with the chunker for its type.
pub fn chunk_file(content: &str, file_path: &str, file_type: &FileType) -> (r: Vec<TextChunk>)
    ensures
        cv(r@) == spec_chunk_file(content@, file_path@, *file_type),
{
    let type_str = file_type.to_string();
    match file_type {
        FileType::Rust => chunk_rust(content, file_path),
        _ => chunk_text_file(content, file_path, type_str.as_str()),
    }
}

/// Every file gives at least one chunk, whatever its type.
pub proof fn file_chunks_never_empty(content: Seq<char>, path: Seq<char>, file_type: FileType)
    ensures
        spec_chunk_file(content, path, file_type).len() >= 1,
{
    match file_type {
        FileType::Rust => {},
        _ => crate::text_chunker::text_file_chunks_never_empty(content, path, file_type_name(file_type)),
    }
}

} // verus!
