//! A small log-structured-merge key-value engine.
//!
//! Writes land in a memtable. When the memtable reaches its threshold it is
//! flushed into level 0; a level that reaches its capacity is merged into the
//! next one. Reads look in the memtable first and then in the levels, newest
//! first. Deleting a key writes a tombstone under it.
//!
//! The modules `order`, `run` and `merge` hold the key order, sorted runs and
//! their merge. `model` states what a tree is and does in mathematical terms,
//! `laws` proves what follows from that, and `memtable` and `tree` hold the
//! executable engine, whose functions are proved to do what the model says.

pub mod laws;
pub mod memtable;
pub mod merge;
pub mod model;
pub mod order;
pub mod run;
pub mod tree;

pub use crate::merge::merge_sorted;
pub use crate::tree::{LSMLevel, LSMTree};
