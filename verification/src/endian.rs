//! Big-endian reads and writes of 16- and 32-bit integers, done by the
//! `byteorder` crate, with their byte-level meaning stated as contracts.

use byteorder::{BigEndian, ByteOrder};
use vstd::prelude::*;

verus! {

/// The two bytes of `v`, most significant first.
pub open spec fn be16(v: u16) -> Seq<u8> {
    seq![(v / 0x100) as u8, (v % 0x100) as u8]
}

/// The four bytes of `v`, most significant first.
pub open spec fn be32(v: u32) -> Seq<u8> {
    seq![
        (v / 0x100_0000) as u8,
        ((v / 0x1_0000) % 0x100) as u8,
        ((v / 0x100) % 0x100) as u8,
        (v % 0x100) as u8,
    ]
}

/// The big-endian number held by the two bytes of `b` at `pos`.
pub open spec fn be16_at(b: Seq<u8>, pos: int) -> int {
    b[pos] * 0x100 + b[pos + 1]
}

/// The big-endian number held by the four bytes of `b` at `pos`.
pub open spec fn be32_at(b: Seq<u8>, pos: int) -> int {
    b[pos] * 0x100_0000 + b[pos + 1] * 0x1_0000 + b[pos + 2] * 0x100 + b[pos + 3]
}

/// Reads a big-endian `u16` at `pos` with `BigEndian::read_u16`, which
/// decodes the first two bytes of the slice it is given (it panics on fewer,
/// which `requires` rules out).
#[verifier::external_body]
pub(crate) fn read_u16_at(buf: &[u8], pos: usize) -> (r: u16)
    requires
        pos + 2 <= buf@.len(),
    ensures
        r == be16_at(buf@, pos as int),
{
    BigEndian::read_u16(&buf[pos..])
}

/// Reads a big-endian `u32` at `pos` with `BigEndian::read_u32`, which
/// decodes the first four bytes of the slice it is given.
#[verifier::external_body]
pub(crate) fn read_u32_at(buf: &[u8], pos: usize) -> (r: u32)
    requires
        pos + 4 <= buf@.len(),
    ensures
        r == be32_at(buf@, pos as int),
{
    BigEndian::read_u32(&buf[pos..])
}

/// Writes `n` big-endian at `pos` with `BigEndian::write_u16`, which stores
/// the two bytes of `n` at the start of the slice it is given and leaves the
/// rest of it alone.
#[verifier::external_body]
pub(crate) fn write_u16_at(buf: &mut [u8], pos: usize, n: u16)
    requires
        pos + 2 <= old(buf)@.len(),
    ensures
        final(buf)@ == old(buf)@.update(pos as int, be16(n)[0]).update(pos + 1, be16(n)[1]),
{
    BigEndian::write_u16(&mut buf[pos..pos + 2], n)
}

/// Writes `n` big-endian at `pos` with `BigEndian::write_u32`, which stores
/// the four bytes of `n` at the start of the slice it is given.
#[verifier::external_body]
pub(crate) fn write_u32_at(buf: &mut [u8], pos: usize, n: u32)
    requires
        pos + 4 <= old(buf)@.len(),
    ensures
        final(buf)@ == old(buf)@.update(pos as int, be32(n)[0]).update(pos + 1, be32(n)[1]).update(
            pos + 2,
            be32(n)[2],
        ).update(pos + 3, be32(n)[3]),
{
    BigEndian::write_u32(&mut buf[pos..pos + 4], n)
}

} // verus!
