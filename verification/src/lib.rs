//! Paragraph chunking of notes, discovery of note files, model inputs and ranking of search
//! results, for local semantic search over a directory of notes.

pub mod chunk;
pub mod chunk_laws;
pub mod collect;
pub mod discover;
pub mod embed_input;
pub mod rank;
pub mod text;

pub use chunk::chunk_text;
pub use collect::{collect_chunks, read_and_chunk, Chunk, CollectError, NoteFile};
pub use discover::{discover_files, WalkEntry};
