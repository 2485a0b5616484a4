//! Fixed-width little-endian integers, the only number format of the container.

use crate::error::AssetError;
use crate::stream::{ByteCursor, Stream};
use vstd::prelude::*;

verus! {

/// The four bytes that hold `x`, least significant first.
pub open spec fn u32_le(x: u32) -> Seq<u8> {
    seq![
        (x % 256) as u8,
        (x / 256 % 256) as u8,
        (x / 65536 % 256) as u8,
        (x / 16777216) as u8,
    ]
}

/// The number held by the first four bytes of `b`, least significant first.
pub open spec fn u32_from_le(b: Seq<u8>) -> u32 {
    (b[0] + 256 * b[1] + 65536 * b[2] + 16777216 * b[3]) as u32
}

/// A 4-byte field holding `n`. A number that does not fit in 32 bits is stored
/// by its low 32 bits.
pub open spec fn field(n: int) -> Seq<u8> {
    u32_le((n % 0x1_0000_0000) as u32)
}

/// Reads a 4-byte field.
pub open spec fn parse_u32(s: Stream) -> Result<(u32, Stream), AssetError> {
    if s.available() < 4 {
        Err(AssetError::Truncated)
    } else {
        Ok((u32_from_le(s.peek(4)), s.skip(4)))
    }
}

/// Reading back what `u32_le` wrote gives the number that was written.
pub proof fn lemma_u32_le_roundtrip(x: u32)
    ensures
        u32_le(x).len() == 4,
        u32_from_le(u32_le(x)) == x,
{
}

/// Splits `x` into its four little-endian bytes.
pub fn u32_to_le_bytes(x: u32) -> (bytes: [u8; 4])
    ensures
        bytes@ == u32_le(x),
{
    let bytes: [u8; 4] = [
        (x % 256) as u8,
        (x / 256 % 256) as u8,
        (x / 65536 % 256) as u8,
        (x / 16777216) as u8,
    ];
    assert(bytes@ =~= u32_le(x));
    bytes
}

/// Joins four little-endian bytes into the number they hold.
pub fn u32_from_le_bytes(bytes: &[u8]) -> (x: u32)
    requires
        bytes@.len() == 4,
    ensures
        x == u32_from_le(bytes@),
{
    (bytes[0] as u32) + 256 * (bytes[1] as u32) + 65536 * (bytes[2] as u32) + 16777216 * (
    bytes[3] as u32)
}

/// The low 32 bits of `n`.
pub fn low_u32(n: usize) -> (x: u32)
    ensures
        x == (n as int) % 0x1_0000_0000,
{
    ((n as u64) % 0x1_0000_0000u64) as u32
}

/// Reads a 4-byte little-endian number and moves past it. Where fewer than
/// four bytes are left, the cursor stays as it was.
pub fn read_u32(r: &mut ByteCursor) -> (res: Result<u32, AssetError>)
    ensures
        match parse_u32(old(r)@) {
            Ok((x, s)) => res == Ok::<u32, AssetError>(x) && final(r)@ == s,
            Err(e) => res == Err::<u32, AssetError>(e) && final(r)@ == old(r)@,
        },
{
    let bytes = r.read_exact(4)?;
    Ok(u32_from_le_bytes(bytes.as_slice()))
}

/// Writes `x` as a 4-byte little-endian number and moves past it.
pub fn write_u32(w: &mut ByteCursor, x: u32)
    ensures
        final(w)@ == old(w)@.write(u32_le(x)),
{
    let bytes = u32_to_le_bytes(x);
    w.write_all(bytes.as_slice());
}

} // verus!
