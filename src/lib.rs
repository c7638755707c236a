//! A segmented double-ended sequence: elements are stored in fixed-capacity
//! chunks linked into a chain.
//!
//! - `chunk`: one block of `CAP` slots whose live elements form a contiguous
//!   window, so that it can grow and shrink at either end in constant time.
//! - `list`: the chain of chunks, kept in an arena and linked by arena index,
//!   with push and pop at both ends and indexed access.
//! - `model`: the sequence-level laws that the list operations obey.
//!
//! Front chunks are filled in reverse (from their last slot towards the
//! first), so `push_front` and `pop_front` never shift elements.

pub mod chunk;
pub mod list;
pub mod model;
