//! The wire codec: big-endian integers, byte strings with a length in
//! front, and the two ways they move, out of a byte slice and onto the end of
//! a byte vector.

use crate::error::{Error, IoError};
use vstd::prelude::*;
use vstd::slice::{slice_subrange, slice_to_vec};

verus! {

/// What reading a value from the wire gives: the value, and the offset of
/// the first byte behind it.
pub type Parsed<T> = Result<(T, int), Error>;

/// The error of every short read.
pub open spec fn eof<T>() -> Result<T, Error> {
    Err(Error::Io(IoError::UnexpectedEof))
}

/// Whether `count` bytes stand at offset `at`.
pub open spec fn has_bytes(data: Seq<u8>, at: int, count: int) -> bool {
    0 <= at && 0 <= count && at + count <= data.len()
}

/// The bytes of `data` from `at` on hold `bytes` first.
pub open spec fn holds_at(data: Seq<u8>, at: int, bytes: Seq<u8>) -> bool {
    has_bytes(data, at, bytes.len() as int) && data.subrange(at, at + bytes.len()) == bytes
}

/// Two bytes, the high one first.
pub open spec fn u16_bytes(value: u16) -> Seq<u8> {
    seq![(value / 256) as u8, (value % 256) as u8]
}

/// Four bytes, the highest first.
pub open spec fn u32_bytes(value: u32) -> Seq<u8> {
    seq![
        (value / 0x100_0000) as u8,
        ((value / 0x1_0000) % 256) as u8,
        ((value / 256) % 256) as u8,
        (value % 256) as u8,
    ]
}

/// The unsigned number with the same four bytes, in two's complement.
pub open spec fn i32_bits(value: i32) -> u32 {
    if value < 0 {
        (value + 0x1_0000_0000) as u32
    } else {
        value as u32
    }
}

/// The signed number with the same four bytes, in two's complement.
pub open spec fn i32_of_bits(bits: u32) -> i32 {
    if bits >= 0x8000_0000 {
        (bits - 0x1_0000_0000) as i32
    } else {
        bits as i32
    }
}

/// Four bytes in two's complement, the highest first.
pub open spec fn i32_bytes(value: i32) -> Seq<u8> {
    u32_bytes(i32_bits(value))
}

/// A byte string: its length in four bytes, then its bytes.
pub open spec fn string_bytes(text: Seq<u8>) -> Seq<u8> {
    u32_bytes(text.len() as u32) + text
}

/// The number that the two bytes at `at` stand for.
pub open spec fn u16_at(data: Seq<u8>, at: int) -> u16 {
    (data[at] * 256 + data[at + 1]) as u16
}

/// The number that the four bytes at `at` stand for.
pub open spec fn u32_at(data: Seq<u8>, at: int) -> u32 {
    (data[at] * 0x100_0000 + data[at + 1] * 0x1_0000 + data[at + 2] * 256 + data[at + 3]) as u32
}

/// Reading one byte at `at`.
pub open spec fn parse_u8(data: Seq<u8>, at: int) -> Parsed<u8> {
    if has_bytes(data, at, 1) {
        Ok((data[at], at + 1))
    } else {
        eof()
    }
}

/// Reading two bytes at `at` as a number.
pub open spec fn parse_u16(data: Seq<u8>, at: int) -> Parsed<u16> {
    if has_bytes(data, at, 2) {
        Ok((u16_at(data, at), at + 2))
    } else {
        eof()
    }
}

/// Reading four bytes at `at` as a number.
pub open spec fn parse_u32(data: Seq<u8>, at: int) -> Parsed<u32> {
    if has_bytes(data, at, 4) {
        Ok((u32_at(data, at), at + 4))
    } else {
        eof()
    }
}

/// Reading four bytes at `at` as a signed number.
pub open spec fn parse_i32(data: Seq<u8>, at: int) -> Parsed<i32> {
    if has_bytes(data, at, 4) {
        Ok((i32_of_bits(u32_at(data, at)), at + 4))
    } else {
        eof()
    }
}

/// Reading `count` bytes at `at`.
pub open spec fn parse_bytes(data: Seq<u8>, at: int, count: int) -> Parsed<Seq<u8>> {
    if has_bytes(data, at, count) {
        Ok((data.subrange(at, at + count), at + count))
    } else {
        eof()
    }
}

/// Reading a byte string at `at`: a length in four bytes, then that many
/// bytes.
pub open spec fn parse_string(data: Seq<u8>, at: int) -> Parsed<Seq<u8>> {
    match parse_u32(data, at) {
        Ok((length, next)) => parse_bytes(data, next, length as int),
        Err(e) => Err(e),
    }
}

/// The two bytes of a number read back as that number.
pub proof fn lemma_u16_round_trip(value: u16, data: Seq<u8>, at: int)
    requires
        holds_at(data, at, u16_bytes(value)),
    ensures
        parse_u16(data, at) == Ok::<(u16, int), Error>((value, at + 2)),
{
    let bytes = u16_bytes(value);
    assert(data[at] == bytes[0] && data[at + 1] == bytes[1]);
}

/// The four bytes of a number read back as that number.
pub proof fn lemma_u32_round_trip(value: u32, data: Seq<u8>, at: int)
    requires
        holds_at(data, at, u32_bytes(value)),
    ensures
        parse_u32(data, at) == Ok::<(u32, int), Error>((value, at + 4)),
{
    let bytes = u32_bytes(value);
    assert(data[at] == bytes[0] && data[at + 1] == bytes[1] && data[at + 2] == bytes[2] && data[at
        + 3] == bytes[3]);
}

/// The four bytes of a signed number read back as that number.
pub proof fn lemma_i32_round_trip(value: i32, data: Seq<u8>, at: int)
    requires
        holds_at(data, at, i32_bytes(value)),
    ensures
        parse_i32(data, at) == Ok::<(i32, int), Error>((value, at + 4)),
{
    lemma_u32_round_trip(i32_bits(value), data, at);
}

/// A byte string whose length fits in four bytes reads back as itself.
pub proof fn lemma_string_round_trip(text: Seq<u8>, data: Seq<u8>, at: int)
    requires
        text.len() <= u32::MAX,
        holds_at(data, at, string_bytes(text)),
    ensures
        parse_string(data, at) == Ok::<(Seq<u8>, int), Error>((text, at + 4 + text.len())),
{
    let bytes = string_bytes(text);
    assert(data.subrange(at, at + 4) == u32_bytes(text.len() as u32)) by {
        assert(data.subrange(at, at + 4) =~= bytes.subrange(0, 4));
        assert(bytes.subrange(0, 4) =~= u32_bytes(text.len() as u32));
    }
    lemma_u32_round_trip(text.len() as u32, data, at);
    assert(data.subrange(at + 4, at + 4 + text.len()) =~= bytes.subrange(4, 4 + text.len() as int));
    assert(bytes.subrange(4, 4 + text.len() as int) =~= text);
}

/// Bytes that stand at `at` inside a longer stretch that stands there too.
pub proof fn lemma_holds_part(data: Seq<u8>, at: int, whole: Seq<u8>, from: int, part: Seq<u8>)
    requires
        holds_at(data, at, whole),
        0 <= from,
        from + part.len() <= whole.len(),
        whole.subrange(from, from + part.len()) == part,
    ensures
        holds_at(data, at + from, part),
{
    assert(data.subrange(at + from, at + from + part.len()) =~= data.subrange(
        at,
        at + whole.len(),
    ).subrange(from, from + part.len()));
}

/// A byte of a stretch that stands at `at`.
pub proof fn lemma_byte_at(data: Seq<u8>, at: int, bytes: Seq<u8>, i: int)
    requires
        holds_at(data, at, bytes),
        0 <= i < bytes.len(),
    ensures
        data[at + i] == bytes[i],
{
    assert(data.subrange(at, at + bytes.len())[i] == data[at + i]);
}

/// Whether `count` bytes stand at offset `at`.
pub fn available(data: &[u8], at: usize, count: usize) -> (r: bool)
    ensures
        r == has_bytes(data@, at as int, count as int),
        data@.len() <= usize::MAX,
{
    at <= data.len() && count <= data.len() - at
}

/// Reads one byte.
pub fn read_u8(data: &[u8], at: usize) -> (res: Result<(u8, usize), Error>)
    ensures
        match parse_u8(data@, at as int) {
            Ok((value, next)) => res is Ok && res->Ok_0.0 == value && res->Ok_0.1 == next,
            Err(e) => res == Err::<(u8, usize), Error>(e),
        },
{
    if !available(data, at, 1) {
        return Err(Error::Io(IoError::UnexpectedEof));
    }
    Ok((data[at], at + 1))
}

/// Reads a number of two bytes, the high one first.
pub fn read_u16(data: &[u8], at: usize) -> (res: Result<(u16, usize), Error>)
    ensures
        match parse_u16(data@, at as int) {
            Ok((value, next)) => res is Ok && res->Ok_0.0 == value && res->Ok_0.1 == next,
            Err(e) => res == Err::<(u16, usize), Error>(e),
        },
{
    if !available(data, at, 2) {
        return Err(Error::Io(IoError::UnexpectedEof));
    }
    Ok((data[at] as u16 * 256 + data[at + 1] as u16, at + 2))
}

/// Reads a number of four bytes, the highest first.
pub fn read_u32(data: &[u8], at: usize) -> (res: Result<(u32, usize), Error>)
    ensures
        match parse_u32(data@, at as int) {
            Ok((value, next)) => res is Ok && res->Ok_0.0 == value && res->Ok_0.1 == next,
            Err(e) => res == Err::<(u32, usize), Error>(e),
        },
{
    if !available(data, at, 4) {
        return Err(Error::Io(IoError::UnexpectedEof));
    }
    Ok(
        (
            data[at] as u32 * 0x100_0000 + data[at + 1] as u32 * 0x1_0000 + data[at + 2] as u32
                * 256 + data[at + 3] as u32,
            at + 4,
        ),
    )
}

/// Reads a signed number of four bytes in two's complement.
pub fn read_i32(data: &[u8], at: usize) -> (res: Result<(i32, usize), Error>)
    ensures
        match parse_i32(data@, at as int) {
            Ok((value, next)) => res is Ok && res->Ok_0.0 == value && res->Ok_0.1 == next,
            Err(e) => res == Err::<(i32, usize), Error>(e),
        },
{
    let (bits, next) = match read_u32(data, at) {
        Ok(read) => read,
        Err(e) => { return Err(e); },
    };
    let value: i32 = if bits >= 0x8000_0000 {
        (bits - 0x8000_0000) as i32 - 0x7fff_ffff - 1
    } else {
        bits as i32
    };
    Ok((value, next))
}

/// Reads `count` bytes.
pub fn read_bytes<'a>(data: &'a [u8], at: usize, count: usize) -> (res: Result<
    (&'a [u8], usize),
    Error,
>)
    ensures
        match parse_bytes(data@, at as int, count as int) {
            Ok((bytes, next)) => res is Ok && res->Ok_0.0@ == bytes && res->Ok_0.1 == next,
            Err(e) => res == Err::<(&[u8], usize), Error>(e),
        },
{
    if !available(data, at, count) {
        return Err(Error::Io(IoError::UnexpectedEof));
    }
    Ok((slice_subrange(data, at, at + count), at + count))
}

/// Reads a byte string: a length in four bytes, then that many bytes.
pub fn read_string(data: &[u8], at: usize) -> (res: Result<(Vec<u8>, usize), Error>)
    ensures
        match parse_string(data@, at as int) {
            Ok((text, next)) => res is Ok && res->Ok_0.0@ == text && res->Ok_0.1 == next,
            Err(e) => res == Err::<(Vec<u8>, usize), Error>(e),
        },
{
    let (length, next) = match read_u32(data, at) {
        Ok(read) => read,
        Err(e) => { return Err(e); },
    };
    if length as u64 > data.len() as u64 {
        return Err(Error::Io(IoError::UnexpectedEof));
    }
    match read_bytes(data, next, length as usize) {
        Ok((bytes, end)) => Ok((slice_to_vec(bytes), end)),
        Err(e) => Err(e),
    }
}

/// Appends one byte.
pub fn write_u8(out: &mut Vec<u8>, value: u8)
    ensures
        final(out)@ == old(out)@ + seq![value],
{
    out.push(value);
    assert(out@ =~= old(out)@ + seq![value]);
}

/// Appends a number as two bytes, the high one first.
pub fn write_u16(out: &mut Vec<u8>, value: u16)
    ensures
        final(out)@ == old(out)@ + u16_bytes(value),
{
    out.push((value / 256) as u8);
    out.push((value % 256) as u8);
    assert(out@ =~= old(out)@ + u16_bytes(value));
}

/// Appends a number as four bytes, the highest first.
pub fn write_u32(out: &mut Vec<u8>, value: u32)
    ensures
        final(out)@ == old(out)@ + u32_bytes(value),
{
    out.push((value / 0x100_0000) as u8);
    out.push(((value / 0x1_0000) % 256) as u8);
    out.push(((value / 256) % 256) as u8);
    out.push((value % 256) as u8);
    assert(out@ =~= old(out)@ + u32_bytes(value));
}

/// Appends a signed number as four bytes in two's complement.
pub fn write_i32(out: &mut Vec<u8>, value: i32)
    ensures
        final(out)@ == old(out)@ + i32_bytes(value),
{
    let bits: u32 = if value < 0 {
        (value + 0x7fff_ffff + 1) as u32 + 0x8000_0000
    } else {
        value as u32
    };
    write_u32(out, bits);
}

/// Appends bytes as they are.
pub fn write_bytes(out: &mut Vec<u8>, bytes: &[u8])
    ensures
        final(out)@ == old(out)@ + bytes@,
{
    out.extend_from_slice(bytes);
    assert(out@ =~= old(out)@ + bytes@);
}

/// Appends `count` bytes of padding.
pub fn write_padding(out: &mut Vec<u8>, count: usize)
    ensures
        final(out)@ == old(out)@ + Seq::new(count as nat, |i: int| 0u8),
{
    let mut i: usize = 0;
    assert(out@ =~= old(out)@ + Seq::new(0, |i: int| 0u8));
    while i < count
        invariant
            i <= count,
            out@ == old(out)@ + Seq::new(i as nat, |i: int| 0u8),
        decreases count - i,
    {
        out.push(0u8);
        i = i + 1;
        assert(out@ =~= old(out)@ + Seq::new(i as nat, |i: int| 0u8));
    }
}

/// Appends a byte string: its length in four bytes, then its bytes.
pub fn write_string(out: &mut Vec<u8>, text: &[u8])
    requires
        text@.len() <= u32::MAX,
    ensures
        final(out)@ == old(out)@ + string_bytes(text@),
{
    write_u32(out, text.len() as u32);
    write_bytes(out, text);
    assert(out@ =~= old(out)@ + string_bytes(text@));
}

} // verus!
