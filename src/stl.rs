//! The binary STL format: an 80-byte header, a little-endian `u32` triangle count,
//! then one 50-byte record per triangle: the face normal and the three vertices,
//! each three little-endian single-precision numbers, and a 16-bit attribute field
//! that is skipped. Each vector is stored in the file as `(x, z, y)`.
use vstd::prelude::*;
use crate::keys::RawVec3;

verus! {

/// Bytes before the triangle count.
pub const HEADER_LEN: usize = 80;

/// Bytes before the first record.
pub const RECORDS_START: usize = 84;

/// Bytes of one record.
pub const RECORD_LEN: usize = 50;

/// The little-endian integer in the four bytes at `at`.
pub open spec fn le_u32(b: Seq<u8>, at: int) -> u32 {
    (b[at] as int + 256 * (b[at + 1] as int) + 65536 * (b[at + 2] as int) + 16777216 * (
    b[at + 3] as int)) as u32
}

/// The triangle count of the file.
pub open spec fn triangle_count(b: Seq<u8>) -> nat {
    le_u32(b, HEADER_LEN as int) as nat
}

/// The length a file with `count` triangles needs at least.
pub open spec fn needed_len(count: nat) -> nat {
    RECORDS_START as nat + RECORD_LEN as nat * count
}

/// The vector stored at `at`: the file holds `x`, then `z`, then `y`.
pub open spec fn stl_vector(b: Seq<u8>, at: int) -> RawVec3 {
    RawVec3 { x: le_u32(b, at), y: le_u32(b, at + 8), z: le_u32(b, at + 4) }
}

/// Where the record of triangle `k` starts.
pub open spec fn record_start(k: int) -> int {
    RECORDS_START as int + RECORD_LEN as int * k
}

/// The face normal of triangle `k`.
pub open spec fn stl_normal(b: Seq<u8>, k: int) -> RawVec3 {
    stl_vector(b, record_start(k))
}

/// Vertex `v` of the file: vertex `v % 3` of triangle `v / 3`.
pub open spec fn stl_vertex(b: Seq<u8>, v: int) -> RawVec3 {
    stl_vector(b, record_start(v / 3) + 12 + 12 * (v % 3))
}

/// Relies on byteorder's `LittleEndian::read_u32` (through `ByteOrder`): the four
/// bytes at `pos` as a little-endian integer. It panics on fewer than four bytes,
/// which `requires` rules out.
#[verifier::external_body]
pub(crate) fn read_u32_le(buf: &[u8], pos: usize) -> (r: u32)
    requires
        pos + 4 <= buf@.len(),
    ensures
        r == le_u32(buf@, pos as int),
{
    <byteorder::LittleEndian as byteorder::ByteOrder>::read_u32(&buf[pos..])
}

} // verus!
