//! A hybrid memory and knowledge store: documents and free-text memories are
//! indexed across an inverted text index, dense vector embeddings, and a typed
//! property graph, and queried through a fused search with a short-lived
//! result cache.
//!
//! All state lives in an in-memory [`store::Store`] of namespaced trees;
//! callers that want durability persist the store's rows through whatever
//! backing they choose.

use vstd::prelude::*;

pub mod bytes;
pub mod digest;
pub mod docs;
pub mod entities;
pub mod fusion;
pub mod hits;
pub mod idgen;
pub mod kg;
pub mod lifecycle;
pub mod memory;
pub mod order;
pub mod store;
pub mod tools;
pub mod vecindex;

verus! {

/// Number of f32 lanes in every embedding vector.
pub const EMBED_DIM: usize = 384;

/// Number of bytes a packed embedding value must have: four bytes per lane.
pub const EMBED_BYTES: usize = 1536;

/// The two byte lengths agree: a packed vector stores four bytes per lane.
pub proof fn embed_bytes_is_four_per_lane()
    ensures
        EMBED_BYTES == 4 * EMBED_DIM,
{
}

} // verus!
