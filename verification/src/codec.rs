//! Fixed-layout binary decoding: little-endian integers at byte offsets, and
//! the archive's magic literal.

use vstd::prelude::*;

verus! {

/// The 18-byte magic literal that opens every archive: the ASCII bytes of
/// `Resource File V2.2`.
pub open spec fn spec_magic() -> Seq<u8> {
    seq![
        0x52u8, 0x65u8, 0x73u8, 0x6fu8, 0x75u8, 0x72u8, 0x63u8, 0x65u8, 0x20u8, 0x46u8, 0x69u8,
        0x6cu8, 0x65u8, 0x20u8, 0x56u8, 0x32u8, 0x2eu8, 0x32u8,
    ]
}

/// The unsigned 32-bit little-endian integer at byte offset `pos`.
pub open spec fn spec_le_u32(data: Seq<u8>, pos: int) -> u32
    recommends
        0 <= pos,
        pos + 4 <= data.len(),
{
    vstd::bytes::spec_u32_from_le_bytes(data.subrange(pos, pos + 4))
}

/// The signed 64-bit little-endian integer at byte offset `pos`, read as the
/// two's-complement reinterpretation of the unsigned value.
pub open spec fn spec_le_i64(data: Seq<u8>, pos: int) -> i64
    recommends
        0 <= pos,
        pos + 8 <= data.len(),
{
    vstd::bytes::spec_u64_from_le_bytes(data.subrange(pos, pos + 8)) as i64
}

/// Reads the unsigned 32-bit little-endian integer at `pos`.
pub fn read_le_u32(data: &[u8], pos: usize) -> (r: u32)
    requires
        pos + 4 <= data@.len(),
    ensures
        r == spec_le_u32(data@, pos as int),
{
    // Calling len pins the slice's length as a machine word, so the offset
    // sums below stay in range.
    let n = data.len();
    let sub = vstd::slice::slice_subrange(data, pos, pos + 4);
    vstd::bytes::u32_from_le_bytes(sub)
}

/// Reads the signed 64-bit little-endian integer at `pos`.
pub fn read_le_i64(data: &[u8], pos: usize) -> (r: i64)
    requires
        pos + 8 <= data@.len(),
    ensures
        r == spec_le_i64(data@, pos as int),
{
    // Calling len pins the slice's length as a machine word, so the offset
    // sums below stay in range.
    let n = data.len();
    let sub = vstd::slice::slice_subrange(data, pos, pos + 8);
    let u = vstd::bytes::u64_from_le_bytes(sub);
    let r = #[verifier::truncate] (u as i64);
    r
}

/// Whether `data` opens with the exact magic literal.
pub open spec fn magic_ok(data: Seq<u8>) -> bool {
    data.len() >= 18 && data.subrange(0, 18) == spec_magic()
}

/// Checks the first 18 bytes against the magic literal; any shorter input or
/// any differing byte is refused.
pub fn check_magic(data: &[u8]) -> (r: bool)
    ensures
        r == magic_ok(data@),
{
    let magic: [u8; 18] = [
        0x52u8, 0x65u8, 0x73u8, 0x6fu8, 0x75u8, 0x72u8, 0x63u8, 0x65u8, 0x20u8, 0x46u8, 0x69u8,
        0x6cu8, 0x65u8, 0x20u8, 0x56u8, 0x32u8, 0x2eu8, 0x32u8,
    ];
    assert(magic@ =~= spec_magic());
    if data.len() < 18 {
        return false;
    }
    for i in 0..18usize
        invariant
            data@.len() >= 18,
            magic@ == spec_magic(),
            forall|k: int| 0 <= k < i ==> data@[k] == spec_magic()[k],
    {
        if data[i] != magic[i] {
            assert(data@[i as int] != spec_magic()[i as int]);
            assert(!magic_ok(data@)) by {
                if data@.subrange(0, 18) == spec_magic() {
                    assert(data@.subrange(0, 18)[i as int] == data@[i as int]);
                }
            }
            return false;
        }
    }
    assert(data@.subrange(0, 18) =~= spec_magic());
    true
}

} // verus!
