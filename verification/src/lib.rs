//! A deduplicating, content-addressed backup engine for directory trees
//! (Minecraft world saves): content hashing, compressed blob storage,
//! manifest-based incremental diffing, version chaining, and tree
//! reconstruction on recovery.

pub mod api;
pub mod assoc;
pub mod backup;
pub mod error;
pub mod settings;
pub mod tasks;
pub mod utils;

use vstd::prelude::*;

verus! {

/// Newest zstd compression effort level the store accepts.
pub const MAX_COMPRESSION_LEVEL: i32 = 22;

/// Clamp a configured compression effort to what the compressor supports.
pub fn effective_compression_level(configured: i32) -> (level: i32)
    ensures
        level == if configured < MAX_COMPRESSION_LEVEL {
            configured
        } else {
            MAX_COMPRESSION_LEVEL
        },
{
    if configured < MAX_COMPRESSION_LEVEL {
        configured
    } else {
        MAX_COMPRESSION_LEVEL
    }
}

} // verus!
