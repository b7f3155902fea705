//! Rectangles on the framebuffer.

use crate::error::{Error, IoError};
use crate::wire::{available, eof, has_bytes, holds_at, u16_at, u16_bytes, write_u16, Parsed};
use vstd::prelude::*;

verus! {

/// A rectangle of the framebuffer, in pixels. Zero area is permitted.
#[derive(Clone, Copy, Debug, PartialEq, Eq, Structural)]
pub struct Rect {
    pub left: u16,
    pub top: u16,
    pub width: u16,
    pub height: u16,
}

impl Rect {
    /// The rectangle lies within a framebuffer of the given size.
    pub open spec fn within(self, fb_width: int, fb_height: int) -> bool {
        self.left + self.width <= fb_width && self.top + self.height <= fb_height
    }

    /// The rectangle's right and bottom edges are representable coordinates:
    /// it lies within the largest framebuffer there can be.
    pub open spec fn wf(self) -> bool {
        self.within(0xffff, 0xffff)
    }

    /// Number of pixels covered.
    pub open spec fn area(self) -> nat {
        (self.width * self.height) as nat
    }

    /// Whether the rectangle lies within a framebuffer of the given size.
    pub fn fits(&self, fb_width: u16, fb_height: u16) -> (r: bool)
        ensures
            r == self.within(fb_width as int, fb_height as int),
            r ==> self.wf(),
    {
        self.left as u32 + self.width as u32 <= fb_width as u32 && self.top as u32
            + self.height as u32 <= fb_height as u32
    }
}

impl Rect {
    /// The rectangle on the wire: left, top, width and height, two bytes
    /// each.
    pub open spec fn encoding(self) -> Seq<u8> {
        u16_bytes(self.left) + u16_bytes(self.top) + u16_bytes(self.width) + u16_bytes(self.height)
    }

    /// Reading a rectangle at `at`.
    pub open spec fn parse(data: Seq<u8>, at: int) -> Parsed<Rect> {
        if has_bytes(data, at, 8) {
            Ok(
                (
                    Rect {
                        left: u16_at(data, at),
                        top: u16_at(data, at + 2),
                        width: u16_at(data, at + 4),
                        height: u16_at(data, at + 6),
                    },
                    at + 8,
                ),
            )
        } else {
            eof()
        }
    }

    /// A rectangle that is written and read back is the same rectangle,
    /// whatever stands before and behind its bytes.
    pub proof fn lemma_round_trip(self, data: Seq<u8>, at: int)
        requires
            holds_at(data, at, self.encoding()),
        ensures
            self.encoding().len() == 8,
            Rect::parse(data, at) == Ok::<(Rect, int), Error>((self, at + 8)),
    {
        let bytes = self.encoding();
        assert(bytes.len() == 8);
        assert forall|i: int| 0 <= i < 8 implies data[at + i] == bytes[i] by {
            assert(data.subrange(at, at + 8)[i] == data[at + i]);
        }
        assert(bytes[0] == u16_bytes(self.left)[0] && bytes[1] == u16_bytes(self.left)[1]);
        assert(bytes[2] == u16_bytes(self.top)[0] && bytes[3] == u16_bytes(self.top)[1]);
        assert(bytes[4] == u16_bytes(self.width)[0] && bytes[5] == u16_bytes(self.width)[1]);
        assert(bytes[6] == u16_bytes(self.height)[0] && bytes[7] == u16_bytes(self.height)[1]);
        assert(data[at] == bytes[0] && data[at + 1] == bytes[1] && data[at + 2] == bytes[2]
            && data[at + 3] == bytes[3] && data[at + 4] == bytes[4] && data[at + 5] == bytes[5]
            && data[at + 6] == bytes[6] && data[at + 7] == bytes[7]);
    }

    /// Appends the rectangle's eight bytes.
    pub fn encode(&self, out: &mut Vec<u8>)
        ensures
            final(out)@ == old(out)@ + self.encoding(),
    {
        write_u16(out, self.left);
        write_u16(out, self.top);
        write_u16(out, self.width);
        write_u16(out, self.height);
        assert(out@ =~= old(out)@ + self.encoding());
    }

    /// Reads a rectangle of eight bytes.
    pub fn decode(data: &[u8], at: usize) -> (res: Result<(Rect, usize), Error>)
        ensures
            match Rect::parse(data@, at as int) {
                Ok((rect, next)) => res is Ok && res->Ok_0.0 == rect && res->Ok_0.1 == next,
                Err(e) => res == Err::<(Rect, usize), Error>(e),
            },
    {
        if !available(data, at, 8) {
            return Err(Error::Io(IoError::UnexpectedEof));
        }
        let rect = Rect {
            left: data[at] as u16 * 256 + data[at + 1] as u16,
            top: data[at + 2] as u16 * 256 + data[at + 3] as u16,
            width: data[at + 4] as u16 * 256 + data[at + 5] as u16,
            height: data[at + 6] as u16 * 256 + data[at + 7] as u16,
        };
        Ok((rect, at + 8))
    }
}

} // verus!
