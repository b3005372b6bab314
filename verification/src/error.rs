use vstd::prelude::*;

verus! {

/// The errors a mutating directory operation can report.
///
/// Absence of a name is not an error: lookups signal it with `None`.
#[derive(Debug, Clone, Copy, PartialEq, Eq, Structural)]
pub enum DirectoryError {
    /// A file name failed validation and was rejected before entering the tree.
    InvalidName,
    /// An insertion or merge tried to place a leaf where a directory stands,
    /// or a directory where a leaf stands. For an insertion, `depth` is the
    /// index of the path segment at which the conflict was found, so the
    /// conflicting path is the first `depth + 1` segments of the path the
    /// caller supplied; a merge reports the conflict without a position and
    /// leaves `depth` at zero.
    TypeConflict { depth: usize },
}

} // verus!
