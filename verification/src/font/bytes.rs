//! Big-endian integer reads at byte offsets, as TrueType and PNG store them.

use vstd::prelude::*;

verus! {

/// The unsigned 16-bit big-endian value at `at`.
pub open spec fn read_u16(bytes: Seq<u8>, at: int) -> int {
    bytes[at] as int * 256 + bytes[at + 1] as int
}

/// The signed 16-bit big-endian (two's complement) value at `at`.
pub open spec fn read_i16(bytes: Seq<u8>, at: int) -> int {
    let raw = read_u16(bytes, at);
    if raw >= 0x8000 {
        raw - 0x10000
    } else {
        raw
    }
}

/// The unsigned 32-bit big-endian value at `at`.
pub open spec fn read_u32(bytes: Seq<u8>, at: int) -> int {
    bytes[at] as int * 0x1000000 + bytes[at + 1] as int * 0x10000 + bytes[at + 2] as int * 0x100
        + bytes[at + 3] as int
}

/// Whether `width` bytes starting at `at` lie inside `bytes`.
pub open spec fn fits(bytes: Seq<u8>, at: int, width: int) -> bool {
    0 <= at && at + width <= bytes.len()
}

/// The `u16` at `offset`, or `None` past the end.
pub fn u16_at(bytes: &[u8], offset: usize) -> (value: Option<u16>)
    ensures
        match value {
            Some(v) => fits(bytes@, offset as int, 2) && v as int == read_u16(bytes@, offset as int),
            None => !fits(bytes@, offset as int, 2),
        },
{
    if offset >= bytes.len() || bytes.len() - offset < 2 {
        return None;
    }
    Some(bytes[offset] as u16 * 256 + bytes[offset + 1] as u16)
}

/// The `i16` at `offset`, or `None` past the end.
pub fn i16_at(bytes: &[u8], offset: usize) -> (value: Option<i16>)
    ensures
        match value {
            Some(v) => fits(bytes@, offset as int, 2) && v as int == read_i16(bytes@, offset as int),
            None => !fits(bytes@, offset as int, 2),
        },
{
    match u16_at(bytes, offset) {
        None => None,
        Some(raw) => if raw >= 0x8000 {
            Some(((raw - 0x8000) as i16) - 0x4000 - 0x4000)
        } else {
            Some(raw as i16)
        },
    }
}

/// The `u32` at `offset`, or `None` past the end.
pub fn u32_at(bytes: &[u8], offset: usize) -> (value: Option<u32>)
    ensures
        match value {
            Some(v) => fits(bytes@, offset as int, 4) && v as int == read_u32(bytes@, offset as int),
            None => !fits(bytes@, offset as int, 4),
        },
{
    if offset >= bytes.len() || bytes.len() - offset < 4 {
        return None;
    }
    Some(bytes[offset] as u32 * 0x1000000 + bytes[offset + 1] as u32 * 0x10000 + bytes[offset
        + 2] as u32 * 0x100 + bytes[offset + 3] as u32)
}

} // verus!
