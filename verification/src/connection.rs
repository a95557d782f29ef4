use vstd::prelude::*;

use crate::bytes::{has_magic, le_i16, le_u16, le_u32, read_i16_le, read_u16_le, read_u32_le};
use crate::error::{PackKind, RunomeError, ValidationIssue};
use std::sync::Arc;

verus! {

/// Bytes before the costs in a `connections.pack` file: magic, version, rows, cols.
pub const CONNECTIONS_PACK_HEADER_SIZE: usize = 14;

/// Version of the `connections.pack` layout that is read.
pub const CONNECTIONS_PACK_VERSION: u16 = 1;

/// Magic bytes at the start of `connections.pack`.
pub const CONNECTIONS_PACK_MAGIC: [u8; 4] = [82u8, 78u8, 67u8, 77u8];

proof fn lemma_index_in_bounds(l: int, r: int, rows: int, cols: int)
    requires
        0 <= l < rows,
        0 <= r < cols,
    ensures
        0 <= l * cols + r < rows * cols,
        l * cols + cols <= rows * cols,
        l * cols <= l * cols + r,
{
    assert(l * cols + r < rows * cols) by (nonlinear_arith)
        requires
            0 <= l < rows,
            0 <= r < cols,
    ;
    assert(l * cols + cols <= rows * cols) by (nonlinear_arith)
        requires
            0 <= l < rows,
            0 <= r < cols,
    ;
    assert(0 <= l * cols) by (nonlinear_arith)
        requires
            0 <= l,
            0 <= cols,
    ;
}

/// What flattening `rows` gives: an empty matrix, a matrix without columns, the
/// flattened costs, or the error for too large dimensions or for the first row whose
/// length differs from the first row's.
pub open spec fn built_from_rows(rows: Seq<Vec<i16>>, r: Result<PackedConnectionMatrix, RunomeError>) -> bool {
    &&& rows.len() == 0 ==> (r matches Ok(m) && m.rows == 0 && m.cols == 0 && m.data.len() == 0)
    &&& rows.len() > 0 && rows[0].len() == 0 ==> (r matches Ok(m) && m.rows == rows.len() as u32
        && m.cols == 0 && m.data.len() == 0)
    &&& rows.len() > 0 && rows[0].len() > 0 && (rows.len() > u32::MAX || rows[0].len() > u32::MAX)
        ==> r == Err::<PackedConnectionMatrix, _>(
        RunomeError::DictValidationError {
            reason: ValidationIssue::MatrixTooLarge {
                rows: rows.len() as usize,
                cols: rows[0].len() as usize,
            },
        },
    )
    &&& rows.len() > 0 && 0 < rows[0].len() <= u32::MAX && rows.len() <= u32::MAX ==> match r {
        Ok(m) => {
            &&& m.wf()
            &&& m.rows == rows.len()
            &&& m.cols == rows[0].len()
            &&& forall|i: int| 0 <= i < rows.len() ==> (#[trigger] rows[i]).len() == m.cols
            &&& forall|i: int, j: int|
                0 <= i < m.rows && 0 <= j < m.cols ==> m.cost(i, j) == rows[i]@[j]
        },
        Err(e) => exists|k: int|
            {
                &&& 0 < k < rows.len()
                &&& (#[trigger] rows[k]).len() != rows[0].len()
                &&& forall|k2: int| 0 <= k2 < k ==> (#[trigger] rows[k2]).len() == rows[0].len()
                &&& e == RunomeError::DictValidationError {
                    reason: ValidationIssue::RowLengthMismatch {
                        row: k as usize,
                        len: rows[k].len() as usize,
                        expected: rows[0].len() as usize,
                    },
                }
            },
    }
}

/// Connection costs, row after row: the cost from left id `l` to right id `r`
/// is at `l * cols + r`.
#[derive(Debug, Clone)]
pub struct PackedConnectionMatrix {
    pub rows: u32,
    pub cols: u32,
    pub data: Vec<i16>,
}

impl PackedConnectionMatrix {
    /// The data holds exactly `rows * cols` costs.
    pub open spec fn wf(&self) -> bool {
        self.data.len() == self.rows as int * self.cols as int
    }

    /// Same dimensions and costs.
    pub open spec fn same(&self, other: Self) -> bool {
        self.rows == other.rows && self.cols == other.cols && self.data@ == other.data@
    }

    /// Cost of connecting left id `l` to right id `r`.
    pub open spec fn cost(&self, l: int, r: int) -> i16 {
        self.data@[l * self.cols as int + r]
    }

    /// Flattens `rows` into one matrix. Fails when the dimensions do not fit in 32 bits
    /// or when a row is longer or shorter than the first; a first row of length zero
    /// gives a matrix without columns and no further row is looked at.
    pub fn from_rows(rows: &[Vec<i16>]) -> (r: Result<Self, RunomeError>)
        ensures
            built_from_rows(rows@, r),
    {
        if rows.len() == 0 {
            return Ok(PackedConnectionMatrix { rows: 0, cols: 0, data: Vec::new() });
        }
        let cols = rows[0].len();
        if cols == 0 {
            return Ok(
                PackedConnectionMatrix {
                    rows: #[verifier::truncate] (rows.len() as u32),
                    cols: 0,
                    data: Vec::new(),
                },
            );
        }
        if rows.len() > u32::MAX as usize || cols > u32::MAX as usize {
            return Err(
                RunomeError::DictValidationError {
                    reason: ValidationIssue::MatrixTooLarge { rows: rows.len(), cols },
                },
            );
        }
        let mut data: Vec<i16> = Vec::new();
        let mut i: usize = 0;
        while i < rows.len()
            invariant
                0 < cols <= u32::MAX,
                rows.len() <= u32::MAX,
                cols == rows@[0].len(),
                i <= rows.len(),
                data.len() == i * cols,
                forall|k: int| 0 <= k < i ==> (#[trigger] rows@[k]).len() == cols,
                forall|a: int, b: int|
                    0 <= a < i && 0 <= b < cols ==> data@[a * cols + b] == rows@[a]@[b],
            decreases rows.len() - i,
        {
            if rows[i].len() != cols {
                return Err(
                    RunomeError::DictValidationError {
                        reason: ValidationIssue::RowLengthMismatch {
                            row: i,
                            len: rows[i].len(),
                            expected: cols,
                        },
                    },
                );
            }
            let ghost before = data@;
            data.extend_from_slice(rows[i].as_slice());
            proof {
                assert(data@ == before + rows@[i as int]@);
                assert((i + 1) * cols == i * cols + cols) by (nonlinear_arith);
                assert forall|a: int, b: int| 0 <= a < i + 1 && 0 <= b < cols implies data@[a * cols
                    + b] == rows@[a]@[b] by {
                    lemma_index_in_bounds(a, b, (i + 1) as int, cols as int);
                    if a < i {
                        lemma_index_in_bounds(a, b, i as int, cols as int);
                    } else {
                        assert(a * cols == i * cols);
                    }
                }
            }
            i = i + 1;
        }
        Ok(PackedConnectionMatrix { rows: rows.len() as u32, cols: cols as u32, data })
    }

    /// `true` when the matrix holds no cost.
    pub fn is_empty(&self) -> (b: bool)
        ensures
            b == (self.data.len() == 0),
    {
        self.data.len() == 0
    }

    /// Number of rows (left ids).
    pub fn rows(&self) -> (n: usize)
        ensures
            n == self.rows,
    {
        self.rows as usize
    }

    /// Number of columns (right ids).
    pub fn cols(&self) -> (n: usize)
        ensures
            n == self.cols,
    {
        self.cols as usize
    }

    /// Cost from `left_id` to `right_id`, or `None` outside the matrix.
    pub fn get(&self, left_id: u16, right_id: u16) -> (r: Option<i16>)
        requires
            self.wf(),
        ensures
            r == if (left_id as int) < self.rows && (right_id as int) < self.cols {
                Some(self.cost(left_id as int, right_id as int))
            } else {
                None::<i16>
            },
    {
        let left = left_id as usize;
        let right = right_id as usize;
        let cols = self.cols();
        if left < self.rows() && right < cols {
            proof {
                lemma_index_in_bounds(left as int, right as int, self.rows as int, cols as int);
            }
            Some(self.data[left * cols + right])
        } else {
            None
        }
    }

    /// The costs of row `row`, or `None` past the last row.
    pub fn row_slice(&self, row: usize) -> (r: Option<&[i16]>)
        requires
            self.wf(),
        ensures
            row >= self.rows ==> r is None,
            row < self.rows ==> (r matches Some(s) && s@ == self.data@.subrange(
                row * self.cols,
                row * self.cols + self.cols,
            )),
    {
        if row >= self.rows() {
            return None;
        }
        let cols = self.cols();
        proof {
            if cols > 0 {
                lemma_index_in_bounds(row as int, 0, self.rows as int, cols as int);
            } else {
                assert(row * cols == 0) by (nonlinear_arith)
                    requires
                        cols == 0,
                ;
            }
        }
        let start = row * cols;
        let end = start + cols;
        Some(&self.data.as_slice()[start..end])
    }

    /// All costs, row after row.
    pub fn as_slice(&self) -> (s: &[i16])
        ensures
            s@ == self.data@,
    {
        self.data.as_slice()
    }
}

/// Decodes a `connections.pack` file: the magic `RNCM`, version 1 (little-endian
/// `u16`), rows and cols (little-endian `u32`), then `rows * cols` little-endian `i16`
/// costs, row after row.
pub fn parse_connections_pack(bytes: &[u8]) -> (r: Result<PackedConnectionMatrix, RunomeError>)
    ensures
        bytes.len() < CONNECTIONS_PACK_HEADER_SIZE ==> r == Err::<PackedConnectionMatrix, _>(
            RunomeError::DictValidationError {
                reason: ValidationIssue::PackTooSmall {
                    pack: PackKind::Connections,
                    len: bytes.len() as usize,
                    expected: CONNECTIONS_PACK_HEADER_SIZE,
                },
            },
        ),
        bytes.len() >= CONNECTIONS_PACK_HEADER_SIZE ==> {
            let version = le_u16(bytes@[4], bytes@[5]);
            let rows = le_u32(bytes@[6], bytes@[7], bytes@[8], bytes@[9]);
            let cols = le_u32(bytes@[10], bytes@[11], bytes@[12], bytes@[13]);
            let size = rows * cols * 2;
            if bytes@.subrange(0, 4) != CONNECTIONS_PACK_MAGIC@ {
                r == Err::<PackedConnectionMatrix, _>(
                    RunomeError::DictValidationError {
                        reason: ValidationIssue::InvalidMagic { pack: PackKind::Connections },
                    },
                )
            } else if version != CONNECTIONS_PACK_VERSION {
                r == Err::<PackedConnectionMatrix, _>(
                    RunomeError::DictValidationError {
                        reason: ValidationIssue::UnsupportedVersion {
                            pack: PackKind::Connections,
                            version: version as u16,
                            expected: CONNECTIONS_PACK_VERSION,
                        },
                    },
                )
            } else if size + CONNECTIONS_PACK_HEADER_SIZE > usize::MAX {
                r == Err::<PackedConnectionMatrix, _>(
                    RunomeError::DictValidationError {
                        reason: ValidationIssue::InvalidMatrixDimensions {
                            rows: rows as u32,
                            cols: cols as u32,
                        },
                    },
                )
            } else if bytes.len() != size + CONNECTIONS_PACK_HEADER_SIZE {
                r == Err::<PackedConnectionMatrix, _>(
                    RunomeError::DictValidationError {
                        reason: ValidationIssue::PackSizeMismatch {
                            pack: PackKind::Connections,
                            actual: bytes.len() as usize,
                            expected: (size + CONNECTIONS_PACK_HEADER_SIZE) as usize,
                        },
                    },
                )
            } else {
                r matches Ok(m) && m.wf() && m.rows == rows && m.cols == cols && forall|k: int|
                    0 <= k < m.data.len() ==> #[trigger] m.data@[k] as int == le_i16(
                        bytes@[CONNECTIONS_PACK_HEADER_SIZE + 2 * k],
                        bytes@[CONNECTIONS_PACK_HEADER_SIZE + 2 * k + 1],
                    )
            }
        },
{
    if bytes.len() < CONNECTIONS_PACK_HEADER_SIZE {
        return Err(
            RunomeError::DictValidationError {
                reason: ValidationIssue::PackTooSmall {
                    pack: PackKind::Connections,
                    len: bytes.len(),
                    expected: CONNECTIONS_PACK_HEADER_SIZE,
                },
            },
        );
    }
    if !has_magic(bytes, &CONNECTIONS_PACK_MAGIC) {
        return Err(
            RunomeError::DictValidationError {
                reason: ValidationIssue::InvalidMagic { pack: PackKind::Connections },
            },
        );
    }
    let version = read_u16_le(bytes, 4);
    if version != CONNECTIONS_PACK_VERSION {
        return Err(
            RunomeError::DictValidationError {
                reason: ValidationIssue::UnsupportedVersion {
                    pack: PackKind::Connections,
                    version,
                    expected: CONNECTIONS_PACK_VERSION,
                },
            },
        );
    }
    let rows = read_u32_le(bytes, 6);
    let cols = read_u32_le(bytes, 10);
    let expected = match (rows as usize).checked_mul(cols as usize) {
        Some(len) => match len.checked_mul(2) {
            Some(size) => size.checked_add(CONNECTIONS_PACK_HEADER_SIZE),
            None => None,
        },
        None => None,
    };
    let expected = match expected {
        Some(e) => e,
        None => {
            proof {
                assert(rows as int * cols as int * 2 + 14 > usize::MAX) by (nonlinear_arith)
                    requires
                        rows as int * cols as int > usize::MAX || rows as int * cols as int * 2
                            > usize::MAX || rows as int * cols as int * 2 + 14 > usize::MAX,
                ;
            }
            return Err(
                RunomeError::DictValidationError {
                    reason: ValidationIssue::InvalidMatrixDimensions { rows, cols },
                },
            );
        },
    };
    if bytes.len() != expected {
        return Err(
            RunomeError::DictValidationError {
                reason: ValidationIssue::PackSizeMismatch {
                    pack: PackKind::Connections,
                    actual: bytes.len(),
                    expected,
                },
            },
        );
    }
    let count = (rows as usize) * (cols as usize);
    let mut data: Vec<i16> = Vec::new();
    let mut k: usize = 0;
    while k < count
        invariant
            count == rows as int * cols as int,
            bytes.len() == count * 2 + CONNECTIONS_PACK_HEADER_SIZE,
            k <= count,
            data.len() == k,
            forall|j: int|
                0 <= j < k ==> #[trigger] data@[j] as int == le_i16(
                    bytes@[CONNECTIONS_PACK_HEADER_SIZE + 2 * j],
                    bytes@[CONNECTIONS_PACK_HEADER_SIZE + 2 * j + 1],
                ),
        decreases count - k,
    {
        let v = read_i16_le(bytes, CONNECTIONS_PACK_HEADER_SIZE + 2 * k);
        data.push(v);
        k = k + 1;
    }
    Ok(PackedConnectionMatrix { rows, cols, data })
}

/// A shared handle on a connection matrix.
#[derive(Clone, Debug)]
pub struct ConnectionMatrix {
    pub inner: Arc<PackedConnectionMatrix>,
}

impl ConnectionMatrix {
    /// The matrix behind the handle.
    pub open spec fn matrix(&self) -> PackedConnectionMatrix {
        *self.inner
    }

    /// A handle on a copy of `matrix`.
    pub fn from_packed(matrix: &PackedConnectionMatrix) -> (m: Self)
        ensures
            m.matrix().same(*matrix),
    {
        let copy = PackedConnectionMatrix {
            rows: matrix.rows,
            cols: matrix.cols,
            data: matrix.data.clone(),
        };
        proof {
            assert(copy.data@ =~= matrix.data@);
        }
        ConnectionMatrix { inner: Arc::new(copy) }
    }

    /// Builds a matrix from rows; see [`PackedConnectionMatrix::from_rows`].
    pub fn from_rows(rows: &[Vec<i16>]) -> (r: Result<Self, RunomeError>)
        ensures
            built_from_rows(
                rows@,
                match r {
                    Ok(m) => Ok(m.matrix()),
                    Err(e) => Err(e),
                },
            ),
    {
        let packed = PackedConnectionMatrix::from_rows(rows)?;
        Ok(ConnectionMatrix { inner: Arc::new(packed) })
    }
}

impl ConnectionMatrix {
    /// Number of rows (left ids).
    pub fn rows(&self) -> (n: usize)
        ensures
            n == self.matrix().rows,
    {
        self.inner.rows()
    }

    /// Number of columns (right ids).
    pub fn cols(&self) -> (n: usize)
        ensures
            n == self.matrix().cols,
    {
        self.inner.cols()
    }

    /// Cost from `left_id` to `right_id`, or `None` outside the matrix.
    pub fn get(&self, left_id: u16, right_id: u16) -> (r: Option<i16>)
        requires
            self.matrix().wf(),
        ensures
            r == if (left_id as int) < self.matrix().rows && (right_id as int) < self.matrix().cols {
                Some(self.matrix().cost(left_id as int, right_id as int))
            } else {
                None::<i16>
            },
    {
        self.inner.get(left_id, right_id)
    }

    /// The costs of row `row`, or `None` past the last row.
    pub fn row(&self, row: usize) -> (r: Option<&[i16]>)
        requires
            self.matrix().wf(),
        ensures
            row >= self.matrix().rows ==> r is None,
            row < self.matrix().rows ==> (r matches Some(s) && s@ == self.matrix().data@.subrange(
                row * self.matrix().cols,
                row * self.matrix().cols + self.matrix().cols,
            )),
    {
        self.inner.row_slice(row)
    }
}

/// A borrowed, read-only view of a connection matrix.
pub struct ConnectionMatrixView<'a> {
    pub matrix: &'a PackedConnectionMatrix,
}

impl<'a> ConnectionMatrixView<'a> {
    /// Number of rows (left ids).
    pub fn rows(&self) -> (n: usize)
        ensures
            n == self.matrix.rows,
    {
        self.matrix.rows()
    }

    /// Number of columns (right ids).
    pub fn cols(&self) -> (n: usize)
        ensures
            n == self.matrix.cols,
    {
        self.matrix.cols()
    }

    /// Cost from `left_id` to `right_id`, or `None` outside the matrix.
    pub fn get(&self, left_id: u16, right_id: u16) -> (r: Option<i16>)
        requires
            self.matrix.wf(),
        ensures
            r == if (left_id as int) < self.matrix.rows && (right_id as int) < self.matrix.cols {
                Some(self.matrix.cost(left_id as int, right_id as int))
            } else {
                None::<i16>
            },
    {
        self.matrix.get(left_id, right_id)
    }

    /// The costs of row `row`, or `None` past the last row.
    pub fn row(&self, row: usize) -> (r: Option<&'a [i16]>)
        requires
            self.matrix.wf(),
        ensures
            row >= self.matrix.rows ==> r is None,
            row < self.matrix.rows ==> (r matches Some(s) && s@ == self.matrix.data@.subrange(
                row * self.matrix.cols,
                row * self.matrix.cols + self.matrix.cols,
            )),
    {
        self.matrix.row_slice(row)
    }
}

} // verus!
