//! Numbers of one to eight bytes in either byte order, read and written by
//! the `byteorder` crate. Nothing in this file is proved: each contract
//! states what the crate's source shows.

use vstd::prelude::*;

verus! {

/// The number that bytes stand for when the first byte counts least.
pub open spec fn le_value(bytes: Seq<u8>) -> nat
    decreases bytes.len(),
{
    if bytes.len() == 0 {
        0
    } else {
        bytes[0] as nat + 256 * le_value(bytes.skip(1))
    }
}

/// The number that bytes stand for when the first byte counts most.
pub open spec fn be_value(bytes: Seq<u8>) -> nat
    decreases bytes.len(),
{
    if bytes.len() == 0 {
        0
    } else {
        256 * be_value(bytes.drop_last()) + bytes.last() as nat
    }
}

/// The number that bytes stand for in the byte order asked for.
pub open spec fn uint_value(bytes: Seq<u8>, big_endian: bool) -> nat {
    if big_endian {
        be_value(bytes)
    } else {
        le_value(bytes)
    }
}

/// One more than the largest number that `nbytes` bytes can hold.
pub open spec fn uint_limit(nbytes: int) -> int {
    if nbytes <= 0 {
        1
    } else if nbytes == 1 {
        0x100
    } else if nbytes == 2 {
        0x1_0000
    } else if nbytes == 3 {
        0x100_0000
    } else if nbytes == 4 {
        0x1_0000_0000
    } else if nbytes == 5 {
        0x100_0000_0000
    } else if nbytes == 6 {
        0x1_0000_0000_0000
    } else if nbytes == 7 {
        0x100_0000_0000_0000
    } else {
        0x1_0000_0000_0000_0000
    }
}

/// `LittleEndian::read_uint`: the first `nbytes` bytes of `buf` as a number,
/// the first byte counting least. The crate panics unless `nbytes` is
/// between 1 and 8 and `buf` holds that many bytes.
#[verifier::external_body]
pub(crate) fn read_uint_le(buf: &[u8], nbytes: usize) -> (value: u64)
    requires
        1 <= nbytes <= 8,
        nbytes <= buf@.len(),
    ensures
        value == le_value(buf@.subrange(0, nbytes as int)),
{
    <byteorder::LittleEndian as byteorder::ByteOrder>::read_uint(buf, nbytes)
}

/// `BigEndian::read_uint`: the first `nbytes` bytes of `buf` as a number,
/// the first byte counting most. The crate panics unless `nbytes` is between
/// 1 and 8 and `buf` holds that many bytes.
#[verifier::external_body]
pub(crate) fn read_uint_be(buf: &[u8], nbytes: usize) -> (value: u64)
    requires
        1 <= nbytes <= 8,
        nbytes <= buf@.len(),
    ensures
        value == be_value(buf@.subrange(0, nbytes as int)),
{
    <byteorder::BigEndian as byteorder::ByteOrder>::read_uint(buf, nbytes)
}

/// `LittleEndian::write_uint`: `value` in the first `nbytes` bytes of a
/// buffer of eight, the first byte counting least. The crate panics unless
/// `nbytes` is between 1 and 8 and holds the value.
#[verifier::external_body]
pub(crate) fn write_uint_le(value: u64, nbytes: usize) -> (buf: [u8; 8])
    requires
        1 <= nbytes <= 8,
        value < uint_limit(nbytes as int),
    ensures
        le_value(buf@.subrange(0, nbytes as int)) == value,
{
    let mut buf = [0u8; 8];
    <byteorder::LittleEndian as byteorder::ByteOrder>::write_uint(&mut buf, value, nbytes);
    buf
}

/// `BigEndian::write_uint`: `value` in the first `nbytes` bytes of a buffer
/// of eight, the first byte counting most. The crate panics unless `nbytes`
/// is between 1 and 8 and holds the value.
#[verifier::external_body]
pub(crate) fn write_uint_be(value: u64, nbytes: usize) -> (buf: [u8; 8])
    requires
        1 <= nbytes <= 8,
        value < uint_limit(nbytes as int),
    ensures
        be_value(buf@.subrange(0, nbytes as int)) == value,
{
    let mut buf = [0u8; 8];
    <byteorder::BigEndian as byteorder::ByteOrder>::write_uint(&mut buf, value, nbytes);
    buf
}

} // verus!
