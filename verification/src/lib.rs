//! Growable, block-granular byte stores with diff-based journaling,
//! point-in-time restore, typed columnar views and a generational-index
//! entity table.

pub mod bytes;
pub mod column;
pub mod generation;
pub mod journal;
pub mod mapping;
pub mod record;
pub mod store;
pub mod table;
pub mod tick;

use vstd::prelude::*;

verus! {

/// Size in bytes of one dirty-tracking block.
pub const BLOCK_SIZE: usize = 1024 * 1024;

/// Upper bound, in bytes, on the address range one store may commit.
pub const MAP_SIZE: u64 = 8 * 1024 * 1024 * 1024;

} // verus!
