//! A verified engine for searching Base58Check-encoded strings.
//!
//! The crate provides a big-number Base58 codec with exact round-trip
//! guarantees, a checksum validator built on double SHA-256, a bijection
//! between suffix ranks and fixed-length Base58 text, a range partitioner
//! for splitting a search space across workers, and a cancellable search
//! worker that scans a rank range and reports events on a channel.

pub mod alphabet;
pub mod checksum;
pub mod codec;
pub mod digits;
pub mod engine;
pub mod events;
pub mod indexer;
pub mod partition;
pub mod worker;
