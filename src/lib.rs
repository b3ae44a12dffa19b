//! External-memory suffix array support: a fixed-width offset codec, a
//! lexicographic suffix order with lower-bound search, partition planning
//! across partial suffix arrays, and the k-way merge that stitches
//! overlapping fragments into one global suffix array.

use vstd::prelude::*;

pub mod codec;
pub mod order;
pub mod partition;
pub mod merge;
pub mod construct;
pub mod layout;

verus! {

} // verus!
