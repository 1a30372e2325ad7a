//! A sorted dictionary of byte-string keys stored in front-coded blocks of a
//! fixed size, with lookup by a search over block ranges followed by a scan of
//! one decoded block.
use vstd::prelude::*;

pub mod block;
pub mod dict;
pub mod order;
pub mod varint;

pub use block::{Block, common_prefix_len};
pub use dict::Dict;

verus! {

} // verus!
