//! A deterministic, rollback-capable entity-component store.
//!
//! Components live in a three-level hierarchy of 128-slot bitmask blocks;
//! every mutation records a per-tick delta so that the store can be rolled
//! back to an earlier tick.

pub mod bits;
pub mod block;
pub mod component;
pub mod entity;
pub mod hierarchy;
pub mod history;
pub mod permutation;
pub mod query;
pub mod restore;
pub mod rollback;
pub mod safety;
pub mod scheduler;
pub mod snapshot;
pub mod storage;
pub mod system;
pub mod tick;
pub mod view;
pub mod wavefront;
pub mod world;
