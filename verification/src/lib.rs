//! A growable first-in-first-out container that never moves an element once
//! it has been inserted. Storage is a sequence of fixed-capacity blocks of
//! geometrically increasing size; a pair of pure index-arithmetic functions
//! maps a logical position to the block that holds it and the slot within
//! that block.

pub mod index;
pub mod laws;
pub mod queue;

pub use index::{outer_index, split_index};
pub use queue::{Block, PinnedQueue};
