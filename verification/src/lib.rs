//! A treap keyed by `(key, id)` pairs, with a fixed-capacity array offering the
//! same three operations by linear scan, and the workload generator that feeds
//! both.

use vstd::prelude::*;

pub mod data_generator;
pub mod dynamic_array;
pub mod laws;
pub mod lemmas;
pub mod model;
pub mod order;
pub mod random;
pub mod treap;

verus! {

/// Identifier of an element; unique among the elements of one collection.
pub type ID = u64;

/// Search key of an element; several elements may share one.
pub type Key = u32;

/// An element is the pair of its identifier and its key.
pub type Element = (ID, Key);

/// Heap rank of a node: its priority, then its key, then its identifier.
pub type Rank = (u32, Key, ID);

} // verus!
