//! Ordered set and map containers backed by sorted vectors.
//!
//! The containers keep their elements in a single strictly ascending,
//! duplicate-free sequence (a pair of parallel sequences for the map), which
//! makes ordered iteration and merge-based set algebra (union, intersection,
//! difference, symmetric difference) cheap, at the price of linear-time
//! insertion and removal.

pub mod iter_ops;
pub mod laws;
pub mod map_entry;
pub mod order;
pub mod ordered_iterators;
pub mod ordered_map;
pub mod ordered_set;
pub mod position;

pub use iter_ops::MergeIter;
pub use iter_ops::SetOp;
pub use map_entry::Entry;
pub use map_entry::OccupiedEntry;
pub use map_entry::VacantEntry;
pub use order::Duplicable;
pub use order::TotalOrder;
pub use ordered_iterators::SetIter;
pub use ordered_iterators::SkipAheadIterator;
pub use ordered_iterators::ToList;
pub use ordered_iterators::ToSet;
pub use ordered_map::OrderedMap;
pub use ordered_set::OrderedSet;
