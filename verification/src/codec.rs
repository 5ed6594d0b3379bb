//! Little-endian packing and unpacking of 16- and 32-bit fields, and the
//! CRC-32 that guards every frame.

use byteorder::{ByteOrder, LittleEndian};
use vstd::prelude::*;

verus! {

/// The number that a byte string denotes when read least significant byte first.
pub open spec fn le_value(bytes: Seq<u8>) -> nat
    decreases bytes.len(),
{
    if bytes.len() == 0 {
        0
    } else {
        bytes[0] as nat + 256 * le_value(bytes.skip(1))
    }
}

/// The two bytes of a 16-bit field on the wire.
pub open spec fn le16(v: u16) -> Seq<u8> {
    seq![(v % 256) as u8, (v / 256) as u8]
}

/// The four bytes of a 32-bit field on the wire.
pub open spec fn le32(v: u32) -> Seq<u8> {
    seq![
        (v % 256) as u8,
        (v / 256 % 256) as u8,
        (v / 65536 % 256) as u8,
        (v / 16777216) as u8,
    ]
}

/// The 16-bit number with high byte `h` and low byte `l`.
pub open spec fn u16_le(h: u8, l: u8) -> u16 {
    (h * 256 + l) as u16
}

/// CRC-32 as IEEE 802.3 defines it (reflected, polynomial 0xEDB88320, initial
/// value and final xor 0xFFFFFFFF) of a byte string. The value is computed by
/// the `crc` crate; this name stands for its result.
pub uninterp spec fn crc32_ieee(bytes: Seq<u8>) -> u32;

/// `crc::crc32::checksum_ieee`: one table-driven pass over `bytes`, which
/// depends on the bytes alone. The contract gives that result its name.
#[verifier::external_body]
pub(crate) fn checksum_ieee(bytes: &[u8]) -> (sum: u32)
    ensures
        sum == crc32_ieee(bytes@),
{
    crc::crc32::checksum_ieee(bytes)
}

/// `byteorder::LittleEndian::read_u32`: the first four bytes of `bytes` as a
/// little-endian number. It panics on a shorter slice, which `requires` excludes.
#[verifier::external_body]
pub(crate) fn read_u32_le(bytes: &[u8]) -> (v: u32)
    requires
        bytes@.len() >= 4,
    ensures
        v == le_value(bytes@.subrange(0, 4)),
{
    LittleEndian::read_u32(bytes)
}

/// `byteorder::LittleEndian::read_uint`: the first `nbytes` bytes of `bytes`
/// as a little-endian number. It panics unless `1 <= nbytes <= 8` and the
/// slice holds that many bytes, which `requires` demands.
#[verifier::external_body]
pub(crate) fn read_uint_le(bytes: &[u8], nbytes: usize) -> (v: u64)
    requires
        1 <= nbytes <= 8,
        nbytes <= bytes@.len(),
    ensures
        v == le_value(bytes@.subrange(0, nbytes as int)),
{
    LittleEndian::read_uint(bytes, nbytes)
}

/// Joins a high and a low byte into a 16-bit number.
pub fn as_u16(h: u8, l: u8) -> (v: u16)
    ensures
        v == u16_le(h, l),
        le16(v) == seq![l, h],
{
    let v: u16 = ((h as u16) << 8) | (l as u16);
    assert(v == h * 256 + l) by (bit_vector)
        requires
            v == ((h as u16) << 8) | (l as u16),
    ;
    assert(le16(v) =~= seq![l, h]);
    v
}

/// Appends a 16-bit field, low byte first.
pub fn push_u16(buf: Vec<u8>, data: u16) -> (r: Vec<u8>)
    ensures
        r@ == buf@ + le16(data),
{
    let mut r = buf;
    let low: u8 = (0xFF & data) as u8;
    let rest: u16 = data / 256;
    let high: u8 = (0xFF & rest) as u8;
    assert(0xFF & data == data % 256) by (bit_vector);
    assert(0xFF & rest == rest % 256) by (bit_vector);
    r.push(low);
    r.push(high);
    assert(r@ =~= buf@ + le16(data));
    r
}

/// Appends a 32-bit field, low byte first.
pub fn push_u32(buf: Vec<u8>, data: u32) -> (r: Vec<u8>)
    ensures
        r@ == buf@ + le32(data),
{
    let mut r = buf;
    let b0: u8 = (0xFF & data) as u8;
    let d1: u32 = data / 256;
    let b1: u8 = (0xFF & d1) as u8;
    let d2: u32 = d1 / 256;
    let b2: u8 = (0xFF & d2) as u8;
    let d3: u32 = d2 / 256;
    let b3: u8 = (0xFF & d3) as u8;
    assert(0xFF & data == data % 256) by (bit_vector);
    assert(0xFF & d1 == d1 % 256) by (bit_vector);
    assert(0xFF & d2 == d2 % 256) by (bit_vector);
    assert(0xFF & d3 == d3 % 256) by (bit_vector);
    r.push(b0);
    r.push(b1);
    r.push(b2);
    r.push(b3);
    assert(r@ =~= buf@ + le32(data));
    r
}

/// Reading the four bytes of a 32-bit field gives the number back.
pub proof fn lemma_le32_value(v: u32)
    ensures
        le_value(le32(v)) == v,
{
    let s = le32(v);
    assert(s.skip(1).skip(1).skip(1).skip(1).len() == 0);
    reveal_with_fuel(le_value, 5);
    assert(le_value(s) == s[0] + 256 * (s[1] + 256 * (s[2] + 256 * (s[3] + 256 * 0))));
}

} // verus!
