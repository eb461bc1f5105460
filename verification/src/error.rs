//! The error taxonomy of the archive reader and the extraction planner.

use vstd::prelude::*;

verus! {

/// Everything that can go wrong while parsing an archive or planning an
/// extraction. Transport errors do not appear here: the reader works on a
/// byte buffer that the caller has already obtained.
#[derive(Clone, Copy, Debug, PartialEq, Eq, Structural)]
pub enum Error {
    /// `entries` was called while the archive position is not at the start.
    NotAtStart,
    /// The byte stream ended before a position the parser had to reach.
    UnexpectedEof,
    /// The byte stream ended in the middle of a 512-byte block.
    TruncatedBlock,
    /// The stored header checksum disagrees with the sum of the header bytes.
    ChecksumMismatch,
    /// A numeric header field is neither valid octal nor valid base-256,
    /// or its value does not fit in 64 bits.
    BadNumericField,
    /// Advancing past an entry would overflow the archive position.
    SizeOverflow,
    /// An auxiliary record announced a member, but no member followed.
    DanglingAuxiliary,
    /// Two long-name records describe the same member.
    DuplicateLongName,
    /// Two long-link records describe the same member.
    DuplicateLongLink,
    /// Two extended-attribute records describe the same member.
    DuplicatePaxExtensions,
    /// A sparse entry type was listed, but the header is not a GNU header.
    SparseNotGnu,
    /// A sparse data block does not start on a 512-byte boundary.
    SparseUnaligned,
    /// Sparse descriptors are out of order or overlapping.
    SparseOutOfOrder,
    /// A sparse file lists more bytes than a 64-bit offset can hold.
    SparseTooLong,
    /// Sparse descriptors consume more data than the header listed.
    SparseTooMuchData,
    /// The sparse descriptors do not reach the declared real size.
    SparseRealSizeMismatch,
    /// The sparse descriptors leave part of the stored data unclaimed.
    SparseLeftoverData,
    /// The stream ended while a sparse extension block was expected.
    MissingSparseExtension,
    /// An entry path contains a NUL byte.
    PathHasNul,
}

} // verus!
