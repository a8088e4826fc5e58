//! Content-based provenance of cache units: digest the blocks of a source
//! device into a flat index, then find, for each unit of a cache device,
//! which source unit it most likely holds.
use vstd::prelude::*;

pub mod digest;
pub mod finder;
pub mod index;
pub mod store;

verus! {

/// Size in bytes of one block, the unit that is digested.
pub const BLOCK_SIZE: usize = 8192;

/// Length in bytes of one digest.
pub const DIGEST_LEN: usize = 20;

} // verus!
