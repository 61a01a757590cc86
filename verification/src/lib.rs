//! A hash map whose keys keep a stable numeric index.
//!
//! Each key is paired with an index into a sparse slot array. The index
//! survives insertions and removals of other keys and changes only when the
//! caller explicitly compacts the map. This lets code iterate over the index
//! space while the map is mutated underneath, as a callback registry does.
//!
//! The crate is organised leaf to root:
//!
//! - [`pos_vec::PosVec`]: the sparse, generation-tagged slot array with
//!   in-place relocation (compaction).
//! - [`linear_storage::LinearStorage`]: the slot array plus a min-ordered
//!   free list that decides when to reuse, grow, or compact.
//! - [`map::StableMap`]: the key-to-handle hash index combined with the
//!   storage layer.

pub mod free_heap;
pub mod key_index;
pub mod linear_storage;
pub mod map;
pub mod occupied_error;
pub mod pos_vec;
pub mod tag;

pub use map::StableMap;
pub use occupied_error::OccupiedError;
pub use pos_vec::Pos;
