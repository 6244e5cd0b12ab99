//! A set of `usize` elements backed by a vector of 32-bit words, keeping an
//! exact cached element count. Small sets live in fixed inline storage and
//! are promoted to heap storage once the required word count crosses a
//! threshold. Set algebra (union, intersection, difference, symmetric
//! difference, complement) is expressed as composable word-stream
//! transformers that can be decoded into ascending element ids or
//! materialized into new sets, without building intermediate sets.

use vstd::prelude::*;

pub mod bits;
pub mod set;
pub mod store;
pub mod stream;

pub use set::IdSet;
pub use set::IntoIter;
pub use set::Iter;
pub use store::BlockStore;
pub use store::IntoIter as IntoBlocks;
pub use store::Iter as Blocks;
pub use store::SIZE;
pub use stream::BlockIter;
pub use stream::BlockStream;
pub use stream::Complement;
pub use stream::Difference;
pub use stream::IdIter;
pub use stream::Intersection;
pub use stream::IntoBlockIter;
pub use stream::SymmetricDifference;
pub use stream::Union;

verus! {

/// The element type of the set.
pub type Id = usize;

/// The word type of the underlying representation.
pub type Block = u32;

/// The number of bits in the word type.
pub const BITS: usize = 32;

} // verus!
