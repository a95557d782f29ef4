use vstd::prelude::*;

use crate::bytes::{has_magic, le_u16, le_u32, read_u16_le, read_u32_le};
use crate::error::{PackKind, RunomeError, ValidationIssue};

verus! {

/// Bytes of the fixed header of `morpheme_index.pack`: magic, version, entry count,
/// value count.
pub const MORPHEME_PACK_FIXED_HEADER: usize = 14;

/// Version of the `morpheme_index.pack` layout that is read.
pub const MORPHEME_PACK_VERSION: u16 = 1;

/// Magic bytes at the start of `morpheme_index.pack`.
pub const MORPHEME_PACK_MAGIC: [u8; 4] = [82u8, 78u8, 77u8, 73u8];

/// Total number of values in the vectors.
pub open spec fn total_len(s: Seq<Vec<u32>>) -> nat
    decreases s.len(),
{
    if s.len() == 0 {
        0
    } else {
        total_len(s.drop_last()) + s.last()@.len()
    }
}

proof fn lemma_total_len_prefix(s: Seq<Vec<u32>>, i: int)
    requires
        0 <= i <= s.len(),
    ensures
        total_len(s.take(i)) <= total_len(s),
    decreases s.len() - i,
{
    if i < s.len() {
        lemma_total_len_prefix(s, i + 1);
        assert(s.take(i + 1).drop_last() =~= s.take(i));
    } else {
        assert(s.take(i) =~= s);
    }
}

/// List `k` of `vecs` sits between offsets `k` and `k + 1`.
pub open spec fn segment_ok(offsets: Seq<u32>, values: Seq<u32>, vecs: Seq<Vec<u32>>, k: int) -> bool {
    offsets[k] <= offsets[k + 1] && values.subrange(offsets[k] as int, offsets[k + 1] as int)
        == vecs[k]@
}

/// Maps an index (a dictionary surface id) to a list of morpheme (entry) ids:
/// list `i` is `values[offsets[i]..offsets[i + 1]]`.
#[derive(Debug, Clone)]
pub struct MorphemeIndex {
    pub offsets: Vec<u32>,
    pub values: Vec<u32>,
}

impl MorphemeIndex {
    /// Number of lists.
    pub open spec fn len_spec(&self) -> int {
        if self.offsets.len() == 0 {
            0
        } else {
            self.offsets.len() - 1
        }
    }

    /// List `idx`; empty when `idx` is out of range or its bounds are inconsistent.
    pub open spec fn list(&self, idx: int) -> Seq<u32> {
        if idx < 0 || idx >= self.len_spec() {
            seq![]
        } else {
            let start = self.offsets@[idx] as int;
            let end = self.offsets@[idx + 1] as int;
            if start > end || end > self.values.len() {
                seq![]
            } else {
                self.values@.subrange(start, end)
            }
        }
    }

    /// Builds the index from one list per index. The total number of ids must fit in
    /// a `u32`.
    pub fn from_vectors(vecs: Vec<Vec<u32>>) -> (m: Self)
        requires
            total_len(vecs@) <= u32::MAX,
        ensures
            m.len_spec() == vecs.len(),
            forall|i: int| 0 <= i < vecs.len() ==> m.list(i) == (#[trigger] vecs@[i])@,
    {
        let mut offsets: Vec<u32> = Vec::new();
        let mut values: Vec<u32> = Vec::new();
        offsets.push(0);
        let mut i: usize = 0;
        while i < vecs.len()
            invariant
                total_len(vecs@) <= u32::MAX,
                i <= vecs.len(),
                offsets.len() == i + 1,
                values.len() == total_len(vecs@.take(i as int)),
                offsets@[i as int] == values.len(),
                forall|k: int| 0 <= k <= i ==> offsets@[k] <= values.len(),
                forall|k: int| 0 <= k < i ==> #[trigger] segment_ok(offsets@, values@, vecs@, k),
            decreases vecs.len() - i,
        {
            let ghost before = values@;
            let ghost before_off = offsets@;
            values.extend_from_slice(vecs[i].as_slice());
            proof {
                assert(values@ == before + vecs@[i as int]@);
                assert(vecs@.take(i + 1).drop_last() =~= vecs@.take(i as int));
                lemma_total_len_prefix(vecs@, i + 1);
            }
            let end = values.len() as u32;
            offsets.push(end);
            proof {
                assert forall|k: int| 0 <= k < i + 1 implies #[trigger] segment_ok(
                    offsets@,
                    values@,
                    vecs@,
                    k,
                ) by {
                    if k < i {
                        assert(segment_ok(before_off, before, vecs@, k));
                        assert(offsets@[k] == before_off[k]);
                        assert(offsets@[k + 1] == before_off[k + 1]);
                        assert(before_off[k + 1] <= before.len());
                        assert(values@.subrange(offsets@[k] as int, offsets@[k + 1] as int)
                            =~= before.subrange(offsets@[k] as int, offsets@[k + 1] as int));
                    } else {
                        assert(values@.subrange(offsets@[k] as int, offsets@[k + 1] as int)
                            =~= vecs@[i as int]@);
                    }
                }
            }
            i = i + 1;
        }
        let m = MorphemeIndex { offsets, values };
        proof {
            assert forall|k: int| 0 <= k < vecs.len() implies m.list(k) == (
            #[trigger] vecs@[k])@ by {
                assert(segment_ok(m.offsets@, m.values@, vecs@, k));
                assert(m.offsets@[k + 1] <= m.values.len());
            }
        }
        m
    }

    /// Number of lists.
    pub fn len(&self) -> (n: usize)
        ensures
            n == self.len_spec(),
    {
        if self.offsets.len() == 0 {
            0
        } else {
            self.offsets.len() - 1
        }
    }

    /// List `idx`; empty when out of range or inconsistent.
    pub fn get(&self, idx: usize) -> (s: &[u32])
        ensures
            s@ == self.list(idx as int),
    {
        if idx >= self.len() {
            return &[];
        }
        let start = self.offsets[idx] as usize;
        let end = self.offsets[idx + 1] as usize;
        if start > end || end > self.values.len() {
            return &[];
        }
        &self.values.as_slice()[start..end]
    }
}

/// A borrowed view of a morpheme index.
pub struct MorphemeIndexView<'a> {
    pub index: &'a MorphemeIndex,
}

impl<'a> MorphemeIndexView<'a> {
    /// Number of lists.
    pub fn len(&self) -> (n: usize)
        ensures
            n == self.index.len_spec(),
    {
        self.index.len()
    }

    /// List `idx`; empty when out of range or inconsistent.
    pub fn get(&self, idx: usize) -> (s: &'a [u32])
        ensures
            s@ == self.index.list(idx as int),
    {
        self.index.get(idx)
    }
}

/// Where the parts of a checked `morpheme_index.pack` lie: how many lists and values
/// it holds, and at which byte its offset table and its values start.
#[derive(Debug, Clone, Copy)]
pub struct MorphemePackHeader {
    pub entry_count: u32,
    pub value_count: u32,
    pub offsets_offset: usize,
    pub values_offset: usize,
}

/// The little-endian `u32` at byte `at` of `b`.
pub open spec fn pack_u32(b: Seq<u8>, at: int) -> int {
    le_u32(b[at], b[at + 1], b[at + 2], b[at + 3])
}

/// The offset table and the values that `h` locates lie inside `len` bytes.
pub open spec fn header_fits(h: MorphemePackHeader, len: int) -> bool {
    &&& h.offsets_offset + 4 * (h.entry_count + 1) <= len
    &&& h.values_offset + 4 * h.value_count <= len
}

/// Checks a `morpheme_index.pack` file: the magic `RNMI`, version 1, the entry and
/// value counts (little-endian `u32`) and that the file is exactly as long as the
/// offsets and values they announce; then gives where its parts lie: the offset table
/// right after the 14 header bytes, the values right after the table.
pub fn parse_morpheme_index_header(bytes: &[u8]) -> (r: Result<MorphemePackHeader, RunomeError>)
    ensures
        bytes.len() < MORPHEME_PACK_FIXED_HEADER ==> r == Err::<MorphemePackHeader, _>(
            RunomeError::DictValidationError {
                reason: ValidationIssue::PackTooSmall {
                    pack: PackKind::MorphemeIndex,
                    len: bytes.len() as usize,
                    expected: MORPHEME_PACK_FIXED_HEADER,
                },
            },
        ),
        bytes.len() >= MORPHEME_PACK_FIXED_HEADER ==> {
            let version = le_u16(bytes@[4], bytes@[5]);
            let entries = le_u32(bytes@[6], bytes@[7], bytes@[8], bytes@[9]);
            let values = le_u32(bytes@[10], bytes@[11], bytes@[12], bytes@[13]);
            let offsets_bytes = (entries + 1) * 4;
            let values_bytes = values * 4;
            let expected = MORPHEME_PACK_FIXED_HEADER + offsets_bytes + values_bytes;
            if bytes@.subrange(0, 4) != MORPHEME_PACK_MAGIC@ {
                r == Err::<MorphemePackHeader, _>(
                    RunomeError::DictValidationError {
                        reason: ValidationIssue::InvalidMagic { pack: PackKind::MorphemeIndex },
                    },
                )
            } else if version != MORPHEME_PACK_VERSION {
                r == Err::<MorphemePackHeader, _>(
                    RunomeError::DictValidationError {
                        reason: ValidationIssue::UnsupportedVersion {
                            pack: PackKind::MorphemeIndex,
                            version: version as u16,
                            expected: MORPHEME_PACK_VERSION,
                        },
                    },
                )
            } else if offsets_bytes > usize::MAX {
                r == Err::<MorphemePackHeader, _>(
                    RunomeError::DictValidationError { reason: ValidationIssue::OffsetsSizeOverflow },
                )
            } else if values_bytes > usize::MAX {
                r == Err::<MorphemePackHeader, _>(
                    RunomeError::DictValidationError { reason: ValidationIssue::ValuesSizeOverflow },
                )
            } else if expected > usize::MAX {
                r == Err::<MorphemePackHeader, _>(
                    RunomeError::DictValidationError { reason: ValidationIssue::TotalSizeOverflow },
                )
            } else if bytes.len() != expected {
                r == Err::<MorphemePackHeader, _>(
                    RunomeError::DictValidationError {
                        reason: ValidationIssue::PackSizeMismatch {
                            pack: PackKind::MorphemeIndex,
                            actual: bytes.len() as usize,
                            expected: expected as usize,
                        },
                    },
                )
            } else {
                r == Ok::<MorphemePackHeader, RunomeError>(
                    MorphemePackHeader {
                        entry_count: entries as u32,
                        value_count: values as u32,
                        offsets_offset: MORPHEME_PACK_FIXED_HEADER,
                        values_offset: (MORPHEME_PACK_FIXED_HEADER + offsets_bytes) as usize,
                    },
                )
            }
        },
{
    if bytes.len() < MORPHEME_PACK_FIXED_HEADER {
        return Err(
            RunomeError::DictValidationError {
                reason: ValidationIssue::PackTooSmall {
                    pack: PackKind::MorphemeIndex,
                    len: bytes.len(),
                    expected: MORPHEME_PACK_FIXED_HEADER,
                },
            },
        );
    }
    if !has_magic(bytes, &MORPHEME_PACK_MAGIC) {
        return Err(
            RunomeError::DictValidationError {
                reason: ValidationIssue::InvalidMagic { pack: PackKind::MorphemeIndex },
            },
        );
    }
    let version = read_u16_le(bytes, 4);
    if version != MORPHEME_PACK_VERSION {
        return Err(
            RunomeError::DictValidationError {
                reason: ValidationIssue::UnsupportedVersion {
                    pack: PackKind::MorphemeIndex,
                    version,
                    expected: MORPHEME_PACK_VERSION,
                },
            },
        );
    }
    let entry_count = read_u32_le(bytes, 6);
    let value_count = read_u32_le(bytes, 10);
    let offsets_len = match (entry_count as usize).checked_add(1) {
        Some(n) => n,
        None => {
            return Err(
                RunomeError::DictValidationError { reason: ValidationIssue::OffsetsSizeOverflow },
            );
        },
    };
    let offsets_bytes = match offsets_len.checked_mul(4) {
        Some(b) => b,
        None => {
            return Err(
                RunomeError::DictValidationError { reason: ValidationIssue::OffsetsSizeOverflow },
            );
        },
    };
    let values_bytes = match (value_count as usize).checked_mul(4) {
        Some(b) => b,
        None => {
            return Err(
                RunomeError::DictValidationError { reason: ValidationIssue::ValuesSizeOverflow },
            );
        },
    };
    let expected = match MORPHEME_PACK_FIXED_HEADER.checked_add(offsets_bytes) {
        Some(v) => v.checked_add(values_bytes),
        None => None,
    };
    let expected = match expected {
        Some(v) => v,
        None => {
            return Err(
                RunomeError::DictValidationError { reason: ValidationIssue::TotalSizeOverflow },
            );
        },
    };
    if bytes.len() != expected {
        return Err(
            RunomeError::DictValidationError {
                reason: ValidationIssue::PackSizeMismatch {
                    pack: PackKind::MorphemeIndex,
                    actual: bytes.len(),
                    expected,
                },
            },
        );
    }
    Ok(
        MorphemePackHeader {
            entry_count,
            value_count,
            offsets_offset: MORPHEME_PACK_FIXED_HEADER,
            values_offset: MORPHEME_PACK_FIXED_HEADER + offsets_bytes,
        },
    )
}

impl MorphemeIndex {
    /// The index that a checked pack holds. Refused when an offset in `h` is not a
    /// multiple of 4, as the lists could not be read in place; else list `k` is read
    /// from the offsets and values that `h` locates.
    pub fn from_pack_header(bytes: &[u8], h: MorphemePackHeader) -> (r: Result<MorphemeIndex, RunomeError>)
        requires
            header_fits(h, bytes.len() as int),
        ensures
            (h.offsets_offset % 4 != 0 || h.values_offset % 4 != 0) ==> r == Err::<MorphemeIndex, RunomeError>(
                RunomeError::DictValidationError { reason: ValidationIssue::MisalignedMorphemeIndex },
            ),
            (h.offsets_offset % 4 == 0 && h.values_offset % 4 == 0) ==> (r matches Ok(m) && {
                &&& m.offsets.len() == h.entry_count + 1
                &&& forall|k: int|
                    0 <= k < m.offsets.len() ==> #[trigger] m.offsets@[k] as int == pack_u32(
                        bytes@,
                        h.offsets_offset + 4 * k,
                    )
                &&& m.values.len() == h.value_count
                &&& forall|k: int|
                    0 <= k < m.values.len() ==> #[trigger] m.values@[k] as int == pack_u32(
                        bytes@,
                        h.values_offset + 4 * k,
                    )
            }),
    {
        if h.offsets_offset % 4 != 0 || h.values_offset % 4 != 0 {
            return Err(
                RunomeError::DictValidationError { reason: ValidationIssue::MisalignedMorphemeIndex },
            );
        }
        let offsets_len = h.entry_count as usize + 1;
        let mut offsets: Vec<u32> = Vec::new();
        let mut k: usize = 0;
        while k < offsets_len
            invariant
                k <= offsets_len,
                offsets_len == h.entry_count + 1,
                header_fits(h, bytes.len() as int),
                offsets.len() == k,
                forall|j: int| 0 <= j < k ==> #[trigger] offsets@[j] as int == pack_u32(bytes@, h.offsets_offset + 4 * j),
            decreases offsets_len - k,
        {
            offsets.push(read_u32_le(bytes, h.offsets_offset + 4 * k));
            k = k + 1;
        }
        let value_count = h.value_count as usize;
        let mut values: Vec<u32> = Vec::new();
        let mut v: usize = 0;
        while v < value_count
            invariant
                v <= value_count,
                value_count == h.value_count,
                header_fits(h, bytes.len() as int),
                values.len() == v,
                forall|j: int| 0 <= j < v ==> #[trigger] values@[j] as int == pack_u32(bytes@, h.values_offset + 4 * j),
            decreases value_count - v,
        {
            values.push(read_u32_le(bytes, h.values_offset + 4 * v));
            v = v + 1;
        }
        Ok(MorphemeIndex { offsets, values })
    }
}

} // verus!
