//! Embeddable code search: text chunking, query analysis and the integer core
//! of multi-signal ranking, each stated over mathematical models.

pub mod text;
pub mod util;
pub mod query_classifier;
pub mod metrics;
pub mod scanner;
pub mod text_chunker;
pub mod ts_chunker;
pub mod chunker;
pub mod db;
pub mod engine;
pub mod ranker;
pub mod format;
