//! Streaming tar archive reader and safe-extraction planner.
//!
//! The archive is a forward-only sequence of 512-byte blocks. This crate
//! parses the POSIX ustar format together with the common GNU and PAX
//! extensions, coalesces auxiliary records (GNU long names, GNU long links,
//! PAX extended attributes) into logical entries, reconstructs GNU sparse
//! files as a plan of data and zero segments, and computes a safe extraction
//! plan that never places a path outside the destination root.

pub mod archive;
pub mod entry;
pub mod error;
pub mod extract;
pub mod header;
pub mod num;
pub mod pax;
pub mod roundtrip;

use vstd::prelude::*;

verus! {

/// One 512-byte unit of a tar archive.
pub const BLOCK_SIZE: usize = 512;

} // verus!
