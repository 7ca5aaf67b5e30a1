//! Core of a paged-KV-cache inference engine: a block allocator that vends
//! fixed-size cache blocks to token sequences, a block-table manager that
//! turns per-sequence block lists into the slot mappings and block tables the
//! attention kernel consumes, an index-level model of the KV cache, and a
//! deterministic token sampler (argmax / top-k / top-p / temperature /
//! repetition penalty) over fixed-point probabilities.

use vstd::prelude::*;

mod allocator;
pub mod block_table;
pub mod cache;
pub mod config;
pub mod mass;
pub mod penalty;
mod rng;
pub mod sampling;
pub mod sort;

pub use allocator::BlockAllocator;
pub use allocator::AllocError;

verus! {

/// Flat slot index of the `offset`-th token slot inside block `block_id`.
pub open spec fn spec_slot_index(block_id: int, block_size: int, offset: int) -> int {
    block_id * block_size + offset
}

} // verus!
