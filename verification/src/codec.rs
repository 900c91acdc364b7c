//! Big-endian integers as they appear in the binary form of a trie.

use byteorder::{BigEndian, ByteOrder, WriteBytesExt};
use vstd::prelude::*;

verus! {

/// The four bytes of `u`, most significant first, for `0 <= u < 2^32`.
pub open spec fn be_bytes4(u: int) -> Seq<u8> {
    seq![
        (u / 0x1000000) as u8,
        (u / 0x10000 % 0x100) as u8,
        (u / 0x100 % 0x100) as u8,
        (u % 0x100) as u8,
    ]
}

/// The number that the first four bytes of `b` spell, most significant first.
pub open spec fn be_value4(b: Seq<u8>) -> int
    recommends
        b.len() >= 4,
{
    b[0] as int * 0x1000000 + b[1] as int * 0x10000 + b[2] as int * 0x100 + b[3] as int
}

/// The two bytes of `u`, most significant first, for `0 <= u < 2^16`.
pub open spec fn be_bytes2(u: int) -> Seq<u8> {
    seq![(u / 0x100) as u8, (u % 0x100) as u8]
}

/// The number that the first two bytes of `b` spell, most significant first.
pub open spec fn be_value2(b: Seq<u8>) -> int
    recommends
        b.len() >= 2,
{
    b[0] as int * 0x100 + b[1] as int
}

/// Big-endian encoding of an unsigned 32-bit integer.
pub open spec fn u32_bytes(v: u32) -> Seq<u8> {
    be_bytes4(v as int)
}

/// Big-endian encoding of a signed 32-bit integer (two's complement).
pub open spec fn i32_bytes(v: i32) -> Seq<u8> {
    be_bytes4(
        if v < 0 {
            v + 0x1_0000_0000
        } else {
            v as int
        },
    )
}

/// Big-endian encoding of a signed 16-bit integer (two's complement).
pub open spec fn i16_bytes(v: i16) -> Seq<u8> {
    be_bytes2(
        if v < 0 {
            v + 0x1_0000
        } else {
            v as int
        },
    )
}

/// The unsigned 32-bit integer at the front of `b`.
pub open spec fn u32_value(b: Seq<u8>) -> u32
    recommends
        b.len() >= 4,
{
    be_value4(b) as u32
}

/// The signed 32-bit integer at the front of `b`.
pub open spec fn i32_value(b: Seq<u8>) -> i32
    recommends
        b.len() >= 4,
{
    let u = be_value4(b);
    if u >= 0x8000_0000 {
        (u - 0x1_0000_0000) as i32
    } else {
        u as i32
    }
}

/// The signed 16-bit integer at the front of `b`.
pub open spec fn i16_value(b: Seq<u8>) -> i16
    recommends
        b.len() >= 2,
{
    let u = be_value2(b);
    if u >= 0x8000 {
        (u - 0x1_0000) as i16
    } else {
        u as i16
    }
}

/// Decoding undoes encoding, whatever follows the encoded integer.
pub proof fn lemma_u32_round_trip(v: u32, rest: Seq<u8>)
    ensures
        u32_bytes(v).len() == 4,
        u32_value(u32_bytes(v) + rest) == v,
{
    let b = u32_bytes(v) + rest;
    assert(b[0] == u32_bytes(v)[0] && b[1] == u32_bytes(v)[1] && b[2] == u32_bytes(v)[2] && b[3]
        == u32_bytes(v)[3]);
}

/// Decoding undoes encoding, whatever follows the encoded integer.
pub proof fn lemma_i32_round_trip(v: i32, rest: Seq<u8>)
    ensures
        i32_bytes(v).len() == 4,
        i32_value(i32_bytes(v) + rest) == v,
{
    let b = i32_bytes(v) + rest;
    assert(b[0] == i32_bytes(v)[0] && b[1] == i32_bytes(v)[1] && b[2] == i32_bytes(v)[2] && b[3]
        == i32_bytes(v)[3]);
}

/// Decoding undoes encoding, whatever follows the encoded integer.
pub proof fn lemma_i16_round_trip(v: i16, rest: Seq<u8>)
    ensures
        i16_bytes(v).len() == 2,
        i16_value(i16_bytes(v) + rest) == v,
{
    let b = i16_bytes(v) + rest;
    assert(b[0] == i16_bytes(v)[0] && b[1] == i16_bytes(v)[1]);
}

/// Reads an unsigned 32-bit integer with `byteorder`'s
/// `<BigEndian as ByteOrder>::read_u32`. The contract claims that the result
/// is the number that the first four bytes spell, most significant first; the
/// call panics on fewer than four bytes, which the precondition leaves out.
#[verifier::external_body]
pub(crate) fn read_u32_be(chunk: &[u8]) -> (v: u32)
    requires
        chunk@.len() >= 4,
    ensures
        v == u32_value(chunk@),
{
    BigEndian::read_u32(chunk)
}

/// Reads a signed 32-bit integer with `byteorder`'s
/// `<BigEndian as ByteOrder>::read_i32`. The contract claims that the result
/// is the two's-complement number that the first four bytes spell, most
/// significant first; the call panics on fewer than four bytes.
#[verifier::external_body]
pub(crate) fn read_i32_be(chunk: &[u8]) -> (v: i32)
    requires
        chunk@.len() >= 4,
    ensures
        v == i32_value(chunk@),
{
    BigEndian::read_i32(chunk)
}

/// Reads a signed 16-bit integer with `byteorder`'s
/// `<BigEndian as ByteOrder>::read_i16`. The contract claims that the result
/// is the two's-complement number that the first two bytes spell, most
/// significant first; the call panics on fewer than two bytes.
#[verifier::external_body]
pub(crate) fn read_i16_be(chunk: &[u8]) -> (v: i16)
    requires
        chunk@.len() >= 2,
    ensures
        v == i16_value(chunk@),
{
    BigEndian::read_i16(chunk)
}

/// Appends an unsigned 32-bit integer with `byteorder`'s
/// `WriteBytesExt::write_u32::<BigEndian>` on a `Vec<u8>`. The contract
/// claims that exactly the four big-endian bytes are appended; writing to a
/// vector cannot fail, so the call's `Result` is dropped.
#[verifier::external_body]
pub(crate) fn write_u32_be(buf: &mut Vec<u8>, v: u32)
    ensures
        final(buf)@ == old(buf)@ + u32_bytes(v),
{
    let _ = buf.write_u32::<BigEndian>(v);
}

/// Appends a signed 32-bit integer with `byteorder`'s
/// `WriteBytesExt::write_i32::<BigEndian>` on a `Vec<u8>`. The contract
/// claims that exactly the four big-endian two's-complement bytes are
/// appended.
#[verifier::external_body]
pub(crate) fn write_i32_be(buf: &mut Vec<u8>, v: i32)
    ensures
        final(buf)@ == old(buf)@ + i32_bytes(v),
{
    let _ = buf.write_i32::<BigEndian>(v);
}

/// Appends a signed 16-bit integer with `byteorder`'s
/// `WriteBytesExt::write_i16::<BigEndian>` on a `Vec<u8>`. The contract
/// claims that exactly the two big-endian two's-complement bytes are
/// appended.
#[verifier::external_body]
pub(crate) fn write_i16_be(buf: &mut Vec<u8>, v: i16)
    ensures
        final(buf)@ == old(buf)@ + i16_bytes(v),
{
    let _ = buf.write_i16::<BigEndian>(v);
}

} // verus!
