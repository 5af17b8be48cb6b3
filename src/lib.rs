//! An ordered key-value store contract over byte strings, an in-memory
//! implementation of it, and the request dispatch and framing that let remote
//! sessions share one store.
use vstd::prelude::*;

pub mod client;
pub mod csv;
pub mod database;
pub mod memory;
pub mod order;
pub mod server;
pub mod wire;

pub use client::VerseDbClient;
pub use database::Database;
pub use memory::MemoryDatabase;
pub use server::VerseDbServer;

verus! {

/// Sum of two integers; the caller keeps the sum within `u64`.
pub fn add(left: u64, right: u64) -> (r: u64)
    requires
        left + right <= u64::MAX,
    ensures
        r == left + right,
{
    left + right
}

} // verus!
