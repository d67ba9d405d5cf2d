//! A persistent memory programming library: persistent pointers, transactional
//! cells and a failure-atomic buddy allocator over a persistent memory region.
//!
//! The persistent region of a pool is modelled as a byte image that the
//! allocator, the cells and the reference counts act on, with a log image of
//! per-zone redo records beside it from which an interrupted allocator
//! operation is completed when the pool is opened. The transaction journal
//! and the allocator's queued stores and drop records are held in memory;
//! the rollback, commit and recovery rules are stated over the image
//! together with them.

#![allow(unused_imports)]

pub mod utils;

pub mod pmem;
pub mod record;
pub mod buddy;
pub mod freelist;
pub mod pool;
pub mod open_flags;
pub mod stm;
pub mod cell;
pub mod boxed;
pub mod vweak;
pub mod prc;
pub mod parc;
pub mod ptr;
pub mod gen;
pub mod marker;
pub mod vec;
pub mod hashmap;
