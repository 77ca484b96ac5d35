//! An in-process store of short text task records, partitioned into three
//! named ranks, with an explicit per-rank order that survives insertion,
//! editing, moving, deletion, bulk clearing and bulk swapping.
//!
//! The store keeps three structures in sync: a slot-addressable record
//! table (a `slab` arena), an identity index from record identifier to
//! slot (an `im` hash map), and one ordered slot sequence per rank (an
//! `im` vector). Every mutation touches all three as one unit; the
//! well-formedness invariant tying them together is stated and proved
//! here, as are the contracts of every operation.

mod arena;
pub mod codec;
pub mod event;
mod idgen;
mod index;
mod order;
pub mod rank;
pub mod store;
pub mod task;
pub mod view;
