use vstd::prelude::*;

verus! {

/// Which packed dictionary file a problem was found in.
#[derive(Debug, Clone, Copy, PartialEq, Eq)]
pub enum PackKind {
    /// `connections.pack`
    Connections,
    /// `morpheme_index.pack`
    MorphemeIndex,
}

/// Why dictionary data was rejected.
#[derive(Debug, Clone)]
pub enum ValidationIssue {
    /// More character categories than a category mask can hold.
    TooManyCategories { count: usize, max: usize },
    /// A code range names a category that is not defined.
    UnknownCategory { name: String },
    /// The matrix dimensions do not fit in 32 bits.
    MatrixTooLarge { rows: usize, cols: usize },
    /// A matrix row differs in length from the first row.
    RowLengthMismatch { row: usize, len: usize, expected: usize },
    /// `rows * cols * 2` does not fit in a `usize`.
    InvalidMatrixDimensions { rows: u32, cols: u32 },
    /// A packed file is shorter than its fixed header.
    PackTooSmall { pack: PackKind, len: usize, expected: usize },
    /// A packed file does not start with its magic bytes.
    InvalidMagic { pack: PackKind },
    /// A packed file has a version this library does not read.
    UnsupportedVersion { pack: PackKind, version: u16, expected: u16 },
    /// A packed file's length differs from what its header announces.
    PackSizeMismatch { pack: PackKind, actual: usize, expected: usize },
    /// The offsets table size of a morpheme index pack overflows.
    OffsetsSizeOverflow,
    /// The values table size of a morpheme index pack overflows.
    ValuesSizeOverflow,
    /// The total size of a morpheme index pack overflows.
    TotalSizeOverflow,
    /// The tables of a morpheme index pack are not aligned for `u32`.
    MisalignedMorphemeIndex,
    /// There are no dictionary entries.
    EmptyEntries,
    /// The connection matrix holds no costs.
    EmptyConnectionMatrix,
    /// No character category is defined.
    EmptyCategories,
    /// No character code range is defined.
    EmptyCodeRanges,
    /// The connection matrix has no row.
    NoConnectionRows,
    /// An entry's left id is beyond the connection matrix.
    LeftIdOutOfBounds { entry: usize, id: u16, max: u16 },
    /// An entry's right id is beyond the connection matrix.
    RightIdOutOfBounds { entry: usize, id: u16, max: u16 },
    /// The dictionary path exists but is not a directory.
    NotADirectory { path: String },
    /// The dictionary file path exists but is not a file.
    NotAFile { path: String },
}

/// Errors of dictionary loading and tokenization.
#[derive(Debug, Clone)]
pub enum RunomeError {
    /// The dictionary directory does not exist.
    DictDirectoryNotFound { path: String },
    /// A required dictionary file is missing.
    DictFileMissing { filename: String },
    /// The dictionary data is inconsistent.
    DictValidationError { reason: ValidationIssue },
    /// A dictionary component could not be decoded.
    DictDeserializationError { component: String, message: String },
    /// A connection cost was asked for ids outside the matrix.
    InvalidConnectionId { left_id: u16, right_id: u16 },
    /// A file could not be read.
    Io { message: String },
    /// A lattice node has no node to connect to on its left.
    LatticeDisconnected { position: usize },
}

} // verus!
