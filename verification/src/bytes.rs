//! Little-endian integers stored in a byte buffer.

use byteorder::{ByteOrder, LittleEndian};
use vstd::prelude::*;

verus! {

/// The unsigned 24-bit little-endian integer stored at `d[pos..pos + 3]`.
pub open spec fn le_u24(d: Seq<u8>, pos: int) -> int {
    d[pos] + 256 * d[pos + 1] + 65536 * d[pos + 2]
}

/// The unsigned 32-bit little-endian integer stored at `d[pos..pos + 4]`.
pub open spec fn le_u32(d: Seq<u8>, pos: int) -> int {
    le_u24(d, pos) + 16777216 * d[pos + 3]
}

/// The unsigned 64-bit little-endian integer stored at `d[pos..pos + 8]`.
pub open spec fn le_u64(d: Seq<u8>, pos: int) -> int {
    le_u32(d, pos) + 4294967296 * le_u32(d, pos + 4)
}

/// Reads the 24-bit little-endian integer at `d[pos..pos + 3]`.
pub fn read_le_u24(d: &[u8], pos: usize) -> (v: u32)
    requires
        pos + 3 <= d@.len(),
    ensures
        v as int == le_u24(d@, pos as int),
{
    let a = d[pos];
    let b = d[pos + 1];
    let c = d[pos + 2];
    let v = (a as u32) | ((b as u32) << 8) | ((c as u32) << 16);
    assert(v == a + 256 * b + 65536 * c) by (bit_vector)
        requires
            v == (a as u32) | ((b as u32) << 8) | ((c as u32) << 16),
    ;
    v
}

/// `byteorder`'s `LittleEndian::read_u32`: the first four bytes of `buf`
/// read as a little-endian `u32` (the call panics on a shorter buffer).
#[verifier::external_body]
pub(crate) fn read_le_u32(buf: &[u8]) -> (v: u32)
    requires
        buf@.len() >= 4,
    ensures
        v as int == le_u32(buf@, 0),
{
    LittleEndian::read_u32(buf)
}

/// `byteorder`'s `LittleEndian::read_u64`: the first eight bytes of `buf`
/// read as a little-endian `u64` (the call panics on a shorter buffer).
#[verifier::external_body]
pub(crate) fn read_le_u64(buf: &[u8]) -> (v: u64)
    requires
        buf@.len() >= 8,
    ensures
        v as int == le_u64(buf@, 0),
{
    LittleEndian::read_u64(buf)
}

/// `Vec::len` of a byte buffer.  Besides the length, the contract states
/// the bound that std documents for every allocation: a `Vec` never holds
/// more than `isize::MAX` bytes.
#[verifier::external_body]
pub(crate) fn byte_len(v: &Vec<u8>) -> (n: usize)
    ensures
        n == v@.len(),
        n <= isize::MAX,
{
    v.len()
}

/// Reads the little-endian `u32` at `d[pos..pos + 4]`.
pub fn read_le_u32_at(d: &[u8], pos: usize) -> (v: u32)
    requires
        pos + 4 <= d.len(),
    ensures
        v as int == le_u32(d@, pos as int),
{
    let s = &d[pos..pos + 4];
    let v = read_le_u32(s);
    assert(s@ == d@.subrange(pos as int, pos + 4));
    v
}

/// Reads the little-endian `u64` at `d[pos..pos + 8]`.
pub fn read_le_u64_at(d: &[u8], pos: usize) -> (v: u64)
    requires
        pos + 8 <= d.len(),
    ensures
        v as int == le_u64(d@, pos as int),
{
    let s = &d[pos..pos + 8];
    let v = read_le_u64(s);
    assert(s@ == d@.subrange(pos as int, pos + 8));
    v
}

} // verus!
