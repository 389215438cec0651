//! Text preparation for retrieval pipelines: whitespace trimming with
//! lowercasing, and sentence-aware splitting of a document into overlapping,
//! word-bounded chunks.
pub mod chunker;
pub mod normalize;
pub mod text;

pub use chunker::{chunk_text_rust, ChunkError};
pub use normalize::{normalize_text, normalize_text_batch};
