use vstd::prelude::*;

verus! {

/// Outcomes that stop a filesystem operation.
#[derive(PartialEq, Eq, Structural, Debug, Clone, Copy)]
pub enum FsError {
    /// The boot sector is too short or describes a layout the medium cannot hold.
    Malformed,
    /// A lookup missed, or a sector or cluster lies outside the medium.
    NotFound,
    /// No free cluster is left in the allocation table.
    Exhausted,
    /// No free slot is left in the directory's cluster.
    Full,
    /// A name's bytes are not valid UTF-8.
    Decode,
    /// A cluster chain or a directory tree is longer than the volume can hold.
    Corrupt,
}

} // verus!
