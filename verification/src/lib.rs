//! A versioned state storage engine for a blockchain sequencer node.
//!
//! The crate has two layers:
//!
//! * a binary codec that fixes the on-disk representation of every persisted
//!   value (fixed-width big-endian integers, variable-length length prefixes,
//!   tagged variants, and two compression tiers), and
//! * a multi-table engine that appends, queries, and reverts per-block state
//!   diffs while maintaining per-kind consistency markers.
//!
//! Every table row is versioned by the block number at which it became
//! effective; point-in-time queries find the closest predecessor row.
//! Appending a block and then reverting it restores the previous contents
//! exactly, and the proofs in the crate pin that down.

pub mod core_types;

pub mod bebytes;
pub mod varint;
pub mod compress;
pub mod codec;
pub mod pairs;
pub mod list;
pub mod maps;
pub mod diff;
pub mod classes;
pub mod tx;

pub mod vtable;
pub mod flat;
pub mod blob;
pub mod state;
pub mod laws;

pub mod session;
pub mod exec_objects;
