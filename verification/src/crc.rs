//! The checksum at the tail of every log record.

use vstd::prelude::*;

verus! {

/// The IEEE CRC-32 of a byte sequence.  The algorithm itself is not stated
/// here; the engine relies only on the checksum being a function of the
/// bytes alone.
pub uninterp spec fn crc32_of(bytes: Seq<u8>) -> u32;

/// Relies on crc32fast::hash: computes the IEEE CRC-32 of the slice, a
/// deterministic function of the bytes alone.
#[verifier::external_body]
pub fn crc32(data: &[u8]) -> (r: u32)
    ensures
        r == crc32_of(data@),
{
    crc32fast::hash(data)
}

} // verus!
