//! Reading bit fields and bytes from inflated pixel data.

use crate::error::{Error, IoError};
use vstd::prelude::*;
use vstd::slice::slice_subrange;

verus! {

/// Where a bit reader stands in its input: `offset` bytes have been taken,
/// and `position` bits of the last one have been handed out. A position of 8
/// means that no bits are pending.
pub struct BitCursor {
    pub offset: int,
    pub position: int,
}

impl BitCursor {
    /// No bits of the current byte are pending.
    pub open spec fn aligned(self) -> bool {
        self.position == 8
    }

    /// The cursor at a byte boundary.
    pub open spec fn at(offset: int) -> BitCursor {
        BitCursor { offset, position: 8 }
    }

    /// The cursor is a possible one over input of the given length.
    pub open spec fn valid(self, len: int) -> bool {
        &&& 0 <= self.offset <= len
        &&& 1 <= self.position <= 8
        &&& self.position < 8 ==> self.offset > 0
    }
}

/// The `count` bits of `byte` that start `start` bits below its most
/// significant bit, as a number.
pub open spec fn bit_field(byte: u8, start: int, count: int) -> u8 {
    ((byte as u32 >> ((8 - start - count) as u32)) & (((1u32 << (count as u32)) - 1) as u32)) as u8
}

/// The top bit of a byte and its other seven, as bit fields. This is how a
/// byte reads that holds a flag and a seven-bit number.
pub proof fn lemma_flag_and_number(byte: u8)
    ensures
        bit_field(byte, 0, 1) == byte / 128,
        bit_field(byte, 1, 7) == byte % 128,
        bit_field(byte, 0, 1) != 0 <==> byte >= 128,
{
    let word = byte as u32;
    assert(1u32 << 1u32 == 2u32) by (bit_vector);
    assert(1u32 << 7u32 == 128u32) by (bit_vector);
    assert((word >> 7u32) & 1u32 == word / 128) by (bit_vector)
        requires
            word <= 255,
    ;
    assert((word >> 0u32) & 127u32 == word % 128) by (bit_vector)
        requires
            word <= 255,
    ;
}

/// What reading `count` bits at `cursor` yields, and where the cursor then
/// stands. A fresh byte is taken when none is pending; a field that would
/// run past the end of the current byte is refused.
pub open spec fn read_bits_spec(data: Seq<u8>, cursor: BitCursor, count: int) -> (
    Result<u8, Error>,
    BitCursor,
) {
    if cursor.position == 8 && cursor.offset >= data.len() {
        (Err(Error::Io(IoError::UnexpectedEof)), cursor)
    } else {
        let loaded = if cursor.position == 8 {
            BitCursor { offset: cursor.offset + 1, position: 0 }
        } else {
            cursor
        };
        if loaded.position + count <= 8 {
            (
                Ok(bit_field(data[loaded.offset - 1], loaded.position, count)),
                BitCursor { offset: loaded.offset, position: loaded.position + count },
            )
        } else {
            (Err(Error::Io(IoError::InvalidData("unaligned ZRLE bit read"))), loaded)
        }
    }
}

/// What reading up to `count` whole bytes at `cursor` yields.
pub open spec fn read_bytes_spec(data: Seq<u8>, cursor: BitCursor, count: int) -> (
    Result<Seq<u8>, Error>,
    BitCursor,
) {
    if cursor.position == 8 {
        let end = if cursor.offset + count <= data.len() {
            cursor.offset + count
        } else {
            data.len() as int
        };
        (Ok(data.subrange(cursor.offset, end)), BitCursor { offset: end, position: 8 })
    } else {
        (Err(Error::Io(IoError::InvalidData("unaligned ZRLE byte read"))), cursor)
    }
}

/// A reader of bit fields, most significant bit first, over a byte slice.
/// Whole bytes can be read whenever no bits are pending.
pub struct BitReader<'a> {
    reader: &'a [u8],
    offset: usize,
    buffer: u8,
    position: usize,
}

impl<'a> BitReader<'a> {
    /// The whole input, read and unread.
    pub closed spec fn data(&self) -> Seq<u8> {
        self.reader@
    }

    /// Where the reader stands.
    pub closed spec fn cursor(&self) -> BitCursor {
        BitCursor { offset: self.offset as int, position: self.position as int }
    }

    /// The reader's fields agree with each other.
    pub closed spec fn wf(&self) -> bool {
        &&& self.cursor().valid(self.reader@.len() as int)
        &&& self.position < 8 ==> self.buffer == self.reader@[self.offset - 1]
    }

    /// The input that whole-byte reads have not reached yet.
    pub open spec fn remaining(&self) -> Seq<u8> {
        self.data().subrange(self.cursor().offset, self.data().len() as int)
    }

    /// Every reader stands at a valid cursor.
    pub proof fn lemma_cursor_valid(&self)
        requires
            self.wf(),
        ensures
            self.cursor().valid(self.data().len() as int),
    {
    }

    /// A reader at the start of `reader`, with no bits pending.
    pub fn new(reader: &'a [u8]) -> (r: BitReader<'a>)
        ensures
            r.wf(),
            r.data() == reader@,
            r.cursor() == BitCursor::at(0),
    {
        BitReader { reader, offset: 0, buffer: 0, position: 8 }
    }

    /// Gives back the unread input, provided no bits are pending.
    pub fn into_inner(self) -> (res: Result<&'a [u8], Error>)
        requires
            self.wf(),
        ensures
            self.cursor().aligned() ==> res is Ok && res->Ok_0@ == self.remaining(),
            !self.cursor().aligned() ==> res == Err::<&[u8], Error>(
                Error::Unexpected("leftover ZRLE bit data"),
            ),
    {
        if self.position == 8 {
            Ok(slice_subrange(self.reader, self.offset, self.reader.len()))
        } else {
            Err(Error::Unexpected("leftover ZRLE bit data"))
        }
    }

    /// Whether every byte has been taken and no bits are pending.
    pub fn is_empty(&self) -> (r: bool)
        requires
            self.wf(),
        ensures
            r == (self.cursor() == BitCursor::at(self.data().len() as int)),
    {
        self.position == 8 && self.offset == self.reader.len()
    }

    /// Reads a field of `count` bits. When no bits are pending the next byte
    /// is taken first; a field that straddles a byte boundary is an error.
    pub fn read_bits(&mut self, count: usize) -> (res: Result<u8, Error>)
        requires
            old(self).wf(),
            0 < count <= 8,
        ensures
            final(self).wf(),
            final(self).data() == old(self).data(),
            (res, final(self).cursor()) == read_bits_spec(
                old(self).data(),
                old(self).cursor(),
                count as int,
            ),
    {
        if self.position == 8 {
            if self.offset >= self.reader.len() {
                return Err(Error::Io(IoError::UnexpectedEof));
            }
            self.buffer = self.reader[self.offset];
            self.offset = self.offset + 1;
            self.position = 0;
        }
        if self.position + count <= 8 {
            let shift: u32 = (8 - (count + self.position)) as u32;
            let width: u32 = count as u32;
            assert(1u32 <= (1u32 << width) <= 256u32) by (bit_vector)
                requires
                    width <= 8,
            ;
            let mask: u32 = (1u32 << width) - 1;
            let byte: u32 = self.buffer as u32;
            let field: u32 = (byte >> shift) & mask;
            assert(field <= 255u32) by (bit_vector)
                requires
                    field == (byte >> shift) & mask,
                    byte <= 255u32,
            ;
            self.position = self.position + count;
            Ok(field as u8)
        } else {
            Err(Error::Io(IoError::InvalidData("unaligned ZRLE bit read")))
        }
    }

    /// Reads one bit.
    pub fn read_bit(&mut self) -> (res: Result<bool, Error>)
        requires
            old(self).wf(),
        ensures
            final(self).wf(),
            final(self).data() == old(self).data(),
            final(self).cursor() == read_bits_spec(old(self).data(), old(self).cursor(), 1).1,
            match read_bits_spec(old(self).data(), old(self).cursor(), 1).0 {
                Ok(bit) => res == Ok::<bool, Error>(bit != 0),
                Err(e) => res == Err::<bool, Error>(e),
            },
    {
        match self.read_bits(1) {
            Ok(bit) => Ok(bit != 0),
            Err(e) => Err(e),
        }
    }

    /// Drops the bits still pending, so that the next read starts at a byte
    /// boundary.
    pub fn align(&mut self)
        requires
            old(self).wf(),
        ensures
            final(self).wf(),
            final(self).data() == old(self).data(),
            final(self).cursor() == BitCursor::at(old(self).cursor().offset),
    {
        self.position = 8;
    }

    /// Reads up to `count` whole bytes: fewer only where the input ends.
    /// Refused while bits are pending.
    pub fn read(&mut self, count: usize) -> (res: Result<&'a [u8], Error>)
        requires
            old(self).wf(),
        ensures
            final(self).wf(),
            final(self).data() == old(self).data(),
            final(self).cursor() == read_bytes_spec(
                old(self).data(),
                old(self).cursor(),
                count as int,
            ).1,
            match read_bytes_spec(old(self).data(), old(self).cursor(), count as int).0 {
                Ok(bytes) => res is Ok && res->Ok_0@ == bytes,
                Err(e) => res == Err::<&[u8], Error>(e),
            },
    {
        if self.position == 8 {
            let left: usize = self.reader.len() - self.offset;
            let end: usize = if count <= left {
                self.offset + count
            } else {
                self.reader.len()
            };
            let bytes = slice_subrange(self.reader, self.offset, end);
            self.offset = end;
            Ok(bytes)
        } else {
            Err(Error::Io(IoError::InvalidData("unaligned ZRLE byte read")))
        }
    }
}

} // verus!
