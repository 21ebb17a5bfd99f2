//! The failures that the workspace reports.

use vstd::prelude::*;

verus! {

/// Why a read from disk storage failed.
#[derive(Clone, Copy, Debug, PartialEq, Eq, Structural)]
pub enum DiskFault {
    /// The source was not there when it was read.
    Missing,
    /// The source may not be read.
    Denied,
    /// Any other failure of the disk.
    Other,
}

/// Every failure of a workspace operation.
///
/// A failed operation leaves the state it worked on as it was.
#[derive(Clone, Copy, Debug, PartialEq, Eq, Structural)]
pub enum StoreError {
    /// The text is no address: it has an empty segment, or one that is `.` or `..`.
    InvalidPath,
    /// Nothing is stored at the address.
    NotFound,
    /// The address holds a directory where a file was asked for.
    NotAFile,
    /// The address, or a segment on the way to it, holds a file where a
    /// directory was asked for.
    NotADirectory,
    /// The node to create would replace a node of the other kind.
    PathCollision,
    /// The coordinate lies outside the grid.
    OutOfBounds,
    /// The bytes are no grid artifact.
    CorruptArtifact,
    /// The bytes to import could not be read from disk.
    ImportIoError(DiskFault),
}

} // verus!
