//! Download state and chunk-integrity engine for a peer-to-peer
//! file-distribution system.
//!
//! The crate decides which byte ranges of a torrent still need fetching,
//! maps global byte ranges onto the on-disk files, verifies piece integrity
//! by cryptographic hashing, and drives tracker announces with retry and
//! backoff. All bookkeeping is verified; file and network I/O live in the
//! surrounding application.

use vstd::prelude::*;

pub mod bencode;
pub mod chunk_tracker;
pub mod hashing;
pub mod init_check;
pub mod file_map;
pub mod lengths;
pub mod state;
pub mod tracker;

verus! {

/// Errors of the engine: bad geometry is fatal at startup, an
/// out-of-range resolution is a caller contract violation, and a decode
/// failure is recovered locally by the announce loop's retry policy.
#[derive(Clone, Copy, Debug, PartialEq, Eq, Structural)]
pub enum EngineError {
    /// The descriptor's arithmetic is unusable (zero sizes, oversized block).
    InvalidGeometry,
    /// A requested byte range does not fit in the torrent's total length.
    OutOfRange,
    /// A payload is not well-formed bencode, or not the expected shape.
    DecodeError,
}

} // verus!
