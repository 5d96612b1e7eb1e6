//! A minimal log-structured merge storage engine: a sorted in-memory buffer
//! of pending writes, immutable sorted segments, a newest-wins layered read
//! path, and a pairwise compactor that merges the two oldest segments.
//!
//! The engine itself is pure: it hands every durable effect (segment files to
//! write, rename or remove) back to its caller as plain values, so that a thin
//! I/O layer can mirror the in-memory catalog onto a data directory. To that
//! end it keeps each live segment's decoded records in memory beside the
//! catalog: reads are proved to answer exactly what the durable bytes decode
//! to, at the price of memory growing with the live data, and of edits made
//! to the segment files behind the engine's back going unseen until the next
//! recovery.

pub mod format;

pub mod lex;

pub mod lsm;

pub mod manager;

pub mod merge;

pub mod record;

pub mod segment;

pub use lsm::LSMTree;

pub use manager::SSTableManager;

pub use format::read_kv_line;
