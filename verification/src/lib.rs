//! Core of a hybrid disk-backed cache engine: entry framing, the region state
//! machine, the in-memory catalog, and the flush, reclaim and recovery logic.
//!
//! The core computes and decides; it does no I/O. A step that needs the
//! device says what is to be read or written, and a later step takes what
//! came of it. Every step has a contract over a model of the store, and the
//! properties that the engine rests on are stated and proved over that model.

pub mod bits;
pub mod catalog;
pub mod checksum;
pub mod code;
pub mod compress;
pub mod entry;
pub mod error;
pub mod flusher;
pub mod generic;
pub mod judge;
pub mod reclaimer;
pub mod recovery;
pub mod region;
pub mod region_manager;
pub mod reinsertion;
pub mod round_trip;
pub mod storage;
pub mod store;
pub mod writer;
