use vstd::prelude::*;

verus! {

/// The kind of an I/O failure that the library can report. Only the kinds
/// that the library itself distinguishes are named; every other kind is `Other`.
#[derive(Debug, Clone, Copy, PartialEq, Eq, Structural)]
pub enum IoKind {
    UnexpectedEof,
    InvalidData,
    InvalidInput,
    NotFound,
    Other,
}

/// Everything that can go wrong while lexing, parsing or applying a patch.
#[derive(Debug, Clone, Copy, PartialEq, Eq, Structural)]
pub enum ErrorKind {
    UnexpectedLine,
    InvalidIndexHeader,
    InvalidPercentage,
    InvalidFileMode,
    MissingRange,
    InvalidHunkRange,
    HunkLineCountMismatch,
    ExpectedHunkHeader,
    UnexpectedEof,
    PatchHasContentButNoFileInfo,
    CouldNotApplyHunk,
    BinaryPatchSourceMismatch,
    InvalidBinaryPatch,
    InvalidBinaryFilesLine,
    UnsupportedBinaryPatch,
    AlreadyExists,
    Io(IoKind),
}

/// An error together with the (1-based) line of the patch text it refers to, if any.
#[derive(Debug, Clone, Copy, PartialEq, Eq, Structural)]
pub struct Error {
    pub line: Option<u32>,
    pub kind: ErrorKind,
}

impl Error {
    /// An error that refers to no particular line.
    pub fn new(kind: ErrorKind) -> (r: Error)
        ensures
            r == (Error { line: None, kind }),
    {
        Error { line: None, kind }
    }

    /// An error that refers to line `line` of the patch text.
    pub fn with_line(kind: ErrorKind, line: u32) -> (r: Error)
        ensures
            r == (Error { line: Some(line), kind }),
    {
        Error { line: Some(line), kind }
    }
}

} // verus!
