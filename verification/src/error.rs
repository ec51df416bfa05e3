use vstd::prelude::*;

verus! {

/// The failures the library's pure computations can report.
///
/// I/O failures belong to the collaborator that reads and writes files, and a
/// path in this library is already text, so neither of those conditions can
/// arise inside the library itself.
#[derive(Debug, Clone, Copy, PartialEq, Eq, Structural)]
pub enum Error {
    /// The file's suffix is neither `ts` nor `tsx`, or it has no suffix at all.
    UnsupportedFileType,
    /// The grammar produced no tree, or a located span does not fit the text.
    ParseFailure,
    /// Resolving `..` components would climb above the start of the path.
    PathEscapesRoot,
    /// No relative path leads from one location to the other, because the
    /// starting directory is absolute and the target is not.
    NoRelativePath,
}

} // verus!
