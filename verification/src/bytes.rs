use vstd::prelude::*;

verus! {

/// The unsigned 16-bit number whose little-endian bytes are `b0, b1`.
pub open spec fn le_u16(b0: u8, b1: u8) -> int {
    b0 as int + 256 * b1 as int
}

/// The unsigned 32-bit number whose little-endian bytes are `b0..b3`.
pub open spec fn le_u32(b0: u8, b1: u8, b2: u8, b3: u8) -> int {
    b0 as int + 256 * b1 as int + 65536 * b2 as int + 16777216 * b3 as int
}

/// The signed 16-bit number whose little-endian bytes are `b0, b1` (two's complement).
pub open spec fn le_i16(b0: u8, b1: u8) -> int {
    if le_u16(b0, b1) < 32768 {
        le_u16(b0, b1)
    } else {
        le_u16(b0, b1) - 65536
    }
}

/// Reads a little-endian `u16` at `at`.
pub fn read_u16_le(bytes: &[u8], at: usize) -> (v: u16)
    requires
        at + 2 <= bytes.len(),
    ensures
        v as int == le_u16(bytes@[at as int], bytes@[at + 1]),
{
    (bytes[at] as u16) + (bytes[at + 1] as u16) * 256
}

/// Reads a little-endian `u32` at `at`.
pub fn read_u32_le(bytes: &[u8], at: usize) -> (v: u32)
    requires
        at + 4 <= bytes.len(),
    ensures
        v as int == le_u32(bytes@[at as int], bytes@[at + 1], bytes@[at + 2], bytes@[at + 3]),
{
    (bytes[at] as u32) + (bytes[at + 1] as u32) * 256 + (bytes[at + 2] as u32) * 65536 + (bytes[at
        + 3] as u32) * 16777216
}

/// Reads a little-endian two's complement `i16` at `at`.
pub fn read_i16_le(bytes: &[u8], at: usize) -> (v: i16)
    requires
        at + 2 <= bytes.len(),
    ensures
        v as int == le_i16(bytes@[at as int], bytes@[at + 1]),
{
    let u = read_u16_le(bytes, at);
    if u < 32768 {
        u as i16
    } else {
        ((u as i32) - 65536) as i16
    }
}

/// `true` when `bytes[at..at + 4]` equals `magic`.
pub fn has_magic(bytes: &[u8], magic: &[u8; 4]) -> (r: bool)
    requires
        4 <= bytes.len(),
    ensures
        r == (bytes@.subrange(0, 4) == magic@),
{
    let r = bytes[0] == magic[0] && bytes[1] == magic[1] && bytes[2] == magic[2] && bytes[3]
        == magic[3];
    proof {
        if r {
            assert(bytes@.subrange(0, 4) =~= magic@);
        } else {
            if bytes@.subrange(0, 4) == magic@ {
                assert(bytes@.subrange(0, 4)[0] == magic@[0]);
                assert(bytes@.subrange(0, 4)[1] == magic@[1]);
                assert(bytes@.subrange(0, 4)[2] == magic@[2]);
                assert(bytes@.subrange(0, 4)[3] == magic@[3]);
            }
        }
    }
    r
}

} // verus!
