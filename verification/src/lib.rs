//! A bit-packed boolean sequence.
//!
//! [`VecBool`] offers the interface of a growable vector of booleans while
//! storing each element as a single bit inside a vector of `u8` chunks, so it
//! needs roughly one eighth of the memory of a `Vec<bool>`.

use vstd::prelude::*;

pub mod bench;
pub mod bits;
pub mod vecbool;

pub use crate::vecbool::VecBool;
pub use crate::vecbool::round_trip;

verus! {

/// Number of boolean elements packed into one storage chunk.
pub const CHUNK_SIZE: usize = 8;

} // verus!
