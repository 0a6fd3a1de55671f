//! An in-memory B-tree over `u64` keys: an ordered, self-balancing multi-way
//! search tree supporting lookup and insertion with automatic node splitting.

pub mod btree;
pub mod node;
pub mod seq_facts;
