//! The ingestion front of the engine: validates extracted text and turns it
//! into chunks, and names every way the engine can fail.

use vstd::prelude::*;

use crate::chunk::{chunk_text, spec_chunk_text};
use crate::text::{all_space, is_blank};

verus! {

/// Everything that can go wrong in the engine, beyond parsing itself.
/// The host constructs the model, embedding and storage variants where its
/// I/O fails; the checks here construct the document ones.
#[derive(Debug)]
pub enum EngineError {
    /// The extracted text was empty or whitespace-only.
    EmptyDocument,
    /// Chunking the text produced no windows.
    NoChunksProduced,
    /// The embedding model could not be loaded.
    ModelLoadError(String),
    /// The embedding model failed on a batch.
    EmbeddingError(String),
    /// No model cache directory was configured before first use.
    CacheNotInitialized,
    /// The store could not be read or written.
    StoreIOError(String),
}

/// Default window of the production chunker, in words.
pub const DEFAULT_CHUNK_SIZE: usize = 500;

/// Default overlap of the production chunker, in words.
pub const DEFAULT_OVERLAP: usize = 50;

/// Validates extracted text and chunks it: blank text is an
/// `EmptyDocument`, a chunker that yields nothing is `NoChunksProduced`,
/// and otherwise the chunk windows come back in order.
pub fn prepare_chunks(content: &str, chunk_size: usize, overlap: usize) -> (r: Result<
    Vec<String>,
    EngineError,
>)
    ensures
        all_space(content@) <==> (r matches Err(e) && e is EmptyDocument),
        (r matches Err(e) && e is NoChunksProduced) ==> !all_space(content@) && spec_chunk_text(
            content@,
            chunk_size as nat,
            overlap as nat,
        ).len() == 0,
        r matches Ok(chunks) ==> {
            &&& chunks@.map_values(|s: String| s@) == spec_chunk_text(
                content@,
                chunk_size as nat,
                overlap as nat,
            )
            &&& chunks@.len() > 0
        },
        r matches Err(e) ==> (e is EmptyDocument || e is NoChunksProduced),
{
    if is_blank(content) {
        return Err(EngineError::EmptyDocument);
    }
    let chunks = chunk_text(content, chunk_size, overlap);
    if chunks.len() == 0 {
        return Err(EngineError::NoChunksProduced);
    }
    proof {
        assert(chunks@.map_values(|s: String| s@).len() == chunks@.len());
    }
    Ok(chunks)
}

} // verus!
