//! The layout of a pixel value.

use crate::error::{Error, IoError};
use crate::wire::{
    available, eof, has_bytes, holds_at, u16_at, u16_bytes, write_padding, write_u16, write_u8,
    Parsed,
};
use vstd::prelude::*;

verus! {

/// How a pixel is laid out: its size, its byte order and, for true colour,
/// where each channel sits.
#[derive(Clone, Copy, Debug, PartialEq, Eq, Structural)]
pub struct PixelFormat {
    pub bits_per_pixel: u8,
    pub depth: u8,
    pub big_endian: bool,
    pub true_colour: bool,
    pub red_max: u16,
    pub green_max: u16,
    pub blue_max: u16,
    pub red_shift: u8,
    pub green_shift: u8,
    pub blue_shift: u8,
}

/// The bits that a channel occupies: its maximum, moved up to its place.
pub open spec fn channel_mask(max: u16, shift: u8) -> u32 {
    (max as u32) << (shift as u32)
}

/// Bits that a channel with the given maximum takes: as many as the maximum
/// has.
pub open spec fn channel_bits(max: u16) -> int
    decreases max,
{
    if max == 0 {
        0
    } else {
        1 + channel_bits(max / 2)
    }
}

/// A channel is there and lies inside a pixel of `bits` bits.
pub open spec fn channel_fits(max: u16, shift: u8, bits: u8) -> bool {
    1 <= max && shift + channel_bits(max) <= bits
}

/// Two channels share no bit.
pub open spec fn channels_apart(max: u16, shift: u8, other_max: u16, other_shift: u8) -> bool {
    shift + channel_bits(max) <= other_shift || other_shift + channel_bits(other_max) <= shift
}

/// No channel takes more than sixteen bits.
pub proof fn lemma_channel_bits_bound(max: u16)
    ensures
        0 <= channel_bits(max) <= 16,
        max >= 1 <==> channel_bits(max) >= 1,
{
    reveal_with_fuel(channel_bits, 18);
}

/// Bits that a channel with the given maximum takes.
pub fn bits_of(max: u16) -> (bits: u16)
    ensures
        bits == channel_bits(max),
        bits <= 16,
{
    let mut left = max;
    let mut bits: u16 = 0;
    proof {
        lemma_channel_bits_bound(max);
    }
    while left > 0
        invariant
            channel_bits(max) == bits + channel_bits(left),
            channel_bits(max) <= 16,
            0 <= channel_bits(left),
        decreases left,
    {
        proof {
            lemma_channel_bits_bound((left / 2) as u16);
        }
        left = left / 2;
        bits = bits + 1;
    }
    bits
}

impl PixelFormat {
    /// Bytes that one pixel takes.
    pub open spec fn bytes_per_pixel(self) -> int {
        self.bits_per_pixel as int / 8
    }

    /// Every bit that carries colour.
    pub open spec fn pixel_mask(self) -> u32 {
        channel_mask(self.red_max, self.red_shift) | channel_mask(self.green_max, self.green_shift)
            | channel_mask(self.blue_max, self.blue_shift)
    }

    /// The format is a sound one: a pixel of one, two or four bytes that
    /// holds its depth, and for true colour three channels of at least one
    /// bit each that lie inside the pixel and do not overlap.
    pub open spec fn wf(self) -> bool {
        &&& self.bits_per_pixel == 8 || self.bits_per_pixel == 16 || self.bits_per_pixel == 32
        &&& self.depth <= self.bits_per_pixel
        &&& self.true_colour ==> {
            &&& channel_fits(self.red_max, self.red_shift, self.bits_per_pixel)
            &&& channel_fits(self.green_max, self.green_shift, self.bits_per_pixel)
            &&& channel_fits(self.blue_max, self.blue_shift, self.bits_per_pixel)
            &&& channels_apart(self.red_max, self.red_shift, self.green_max, self.green_shift)
            &&& channels_apart(self.red_max, self.red_shift, self.blue_max, self.blue_shift)
            &&& channels_apart(self.green_max, self.green_shift, self.blue_max, self.blue_shift)
        }
    }

    /// Whether the format is a sound one.
    pub fn is_valid(&self) -> (r: bool)
        ensures
            r == self.wf(),
    {
        if !(self.bits_per_pixel == 8 || self.bits_per_pixel == 16 || self.bits_per_pixel == 32)
            || self.depth > self.bits_per_pixel {
            return false;
        }
        if !self.true_colour {
            return true;
        }
        let red = bits_of(self.red_max);
        let green = bits_of(self.green_max);
        let blue = bits_of(self.blue_max);
        proof {
            lemma_channel_bits_bound(self.red_max);
            lemma_channel_bits_bound(self.green_max);
            lemma_channel_bits_bound(self.blue_max);
        }
        let bits = self.bits_per_pixel as u16;
        let (r, g, b) = (self.red_shift as u16, self.green_shift as u16, self.blue_shift as u16);
        red >= 1 && green >= 1 && blue >= 1 && r + red <= bits && g + green <= bits && b + blue
            <= bits && (r + red <= g || g + green <= r) && (r + red <= b || b + blue <= r) && (g
            + green <= b || b + blue <= g)
    }

    /// What the decoders can work with: a pixel of one, two or four bytes,
    /// and channel shifts that stay inside a 32-bit word.
    pub open spec fn supported(self) -> bool {
        &&& self.bits_per_pixel == 8 || self.bits_per_pixel == 16 || self.bits_per_pixel == 32
        &&& self.red_shift < 32
        &&& self.green_shift < 32
        &&& self.blue_shift < 32
    }

    /// Whether the decoders can work with this format.
    pub fn is_supported(&self) -> (r: bool)
        ensures
            r == self.supported(),
    {
        (self.bits_per_pixel == 8 || self.bits_per_pixel == 16 || self.bits_per_pixel == 32)
            && self.red_shift < 32 && self.green_shift < 32 && self.blue_shift < 32
    }

    /// Bytes that one pixel takes.
    pub fn pixel_size(&self) -> (n: usize)
        ensures
            n == self.bytes_per_pixel(),
    {
        (self.bits_per_pixel / 8) as usize
    }

    /// A sound format is one that the decoders can work with.
    pub proof fn lemma_valid_is_supported(self)
        requires
            self.wf(),
            self.true_colour,
        ensures
            self.supported(),
    {
        lemma_channel_bits_bound(self.red_max);
        lemma_channel_bits_bound(self.green_max);
        lemma_channel_bits_bound(self.blue_max);
    }

    /// Every bit that carries colour.
    pub fn colour_mask(&self) -> (mask: u32)
        requires
            self.supported(),
        ensures
            mask == self.pixel_mask(),
    {
        ((self.red_max as u32) << (self.red_shift as u32)) | ((self.green_max as u32) << (
        self.green_shift as u32)) | ((self.blue_max as u32) << (self.blue_shift as u32))
    }
}

/// A flag as it stands on the wire.
pub open spec fn flag_byte(flag: bool) -> u8 {
    if flag {
        1
    } else {
        0
    }
}

impl PixelFormat {
    /// The format on the wire: sixteen bytes, of which the last three are
    /// padding.
    pub open spec fn encoding(self) -> Seq<u8> {
        seq![
            self.bits_per_pixel,
            self.depth,
            flag_byte(self.big_endian),
            flag_byte(self.true_colour),
        ] + u16_bytes(self.red_max) + u16_bytes(self.green_max) + u16_bytes(self.blue_max) + seq![
            self.red_shift,
            self.green_shift,
            self.blue_shift,
            0u8,
            0u8,
            0u8,
        ]
    }

    /// Reading a format at `at`. Any sixteen bytes are one; a flag is set by
    /// any byte but zero, and the padding is not looked at.
    pub open spec fn parse(data: Seq<u8>, at: int) -> Parsed<PixelFormat> {
        if has_bytes(data, at, 16) {
            Ok(
                (
                    PixelFormat {
                        bits_per_pixel: data[at],
                        depth: data[at + 1],
                        big_endian: data[at + 2] != 0,
                        true_colour: data[at + 3] != 0,
                        red_max: u16_at(data, at + 4),
                        green_max: u16_at(data, at + 6),
                        blue_max: u16_at(data, at + 8),
                        red_shift: data[at + 10],
                        green_shift: data[at + 11],
                        blue_shift: data[at + 12],
                    },
                    at + 16,
                ),
            )
        } else {
            eof()
        }
    }

    /// A format that is written and read back is the same format, whatever
    /// stands before and behind its bytes.
    pub proof fn lemma_round_trip(self, data: Seq<u8>, at: int)
        requires
            holds_at(data, at, self.encoding()),
        ensures
            self.encoding().len() == 16,
            PixelFormat::parse(data, at) == Ok::<(PixelFormat, int), Error>((self, at + 16)),
    {
        let bytes = self.encoding();
        assert(bytes.len() == 16);
        assert forall|i: int| 0 <= i < 16 implies data[at + i] == bytes[i] by {
            assert(data.subrange(at, at + 16)[i] == data[at + i]);
        }
        assert(bytes[0] == self.bits_per_pixel && bytes[1] == self.depth);
        assert(bytes[2] == flag_byte(self.big_endian) && bytes[3] == flag_byte(self.true_colour));
        assert(bytes[4] == u16_bytes(self.red_max)[0] && bytes[5] == u16_bytes(self.red_max)[1]);
        assert(bytes[6] == u16_bytes(self.green_max)[0] && bytes[7] == u16_bytes(
            self.green_max,
        )[1]);
        assert(bytes[8] == u16_bytes(self.blue_max)[0] && bytes[9] == u16_bytes(self.blue_max)[1]);
        assert(bytes[10] == self.red_shift && bytes[11] == self.green_shift && bytes[12]
            == self.blue_shift);
        assert(data[at + 4] == bytes[4] && data[at + 5] == bytes[5] && data[at + 6] == bytes[6]
            && data[at + 7] == bytes[7] && data[at + 8] == bytes[8] && data[at + 9] == bytes[9]);
        assert(data[at] == bytes[0] && data[at + 1] == bytes[1] && data[at + 2] == bytes[2]
            && data[at + 3] == bytes[3] && data[at + 10] == bytes[10] && data[at + 11] == bytes[11]
            && data[at + 12] == bytes[12]);
    }

    /// Appends the format's sixteen bytes.
    pub fn encode(&self, out: &mut Vec<u8>)
        ensures
            final(out)@ == old(out)@ + self.encoding(),
    {
        write_u8(out, self.bits_per_pixel);
        write_u8(out, self.depth);
        write_u8(out, if self.big_endian { 1 } else { 0 });
        write_u8(out, if self.true_colour { 1 } else { 0 });
        write_u16(out, self.red_max);
        write_u16(out, self.green_max);
        write_u16(out, self.blue_max);
        write_u8(out, self.red_shift);
        write_u8(out, self.green_shift);
        write_u8(out, self.blue_shift);
        write_padding(out, 3);
        assert(out@ =~= old(out)@ + self.encoding());
    }

    /// Reads a format of sixteen bytes.
    pub fn decode(data: &[u8], at: usize) -> (res: Result<(PixelFormat, usize), Error>)
        ensures
            match PixelFormat::parse(data@, at as int) {
                Ok((format, next)) => res is Ok && res->Ok_0.0 == format && res->Ok_0.1 == next,
                Err(e) => res == Err::<(PixelFormat, usize), Error>(e),
            },
    {
        if !available(data, at, 16) {
            return Err(Error::Io(IoError::UnexpectedEof));
        }
        let format = PixelFormat {
            bits_per_pixel: data[at],
            depth: data[at + 1],
            big_endian: data[at + 2] != 0,
            true_colour: data[at + 3] != 0,
            red_max: data[at + 4] as u16 * 256 + data[at + 5] as u16,
            green_max: data[at + 6] as u16 * 256 + data[at + 7] as u16,
            blue_max: data[at + 8] as u16 * 256 + data[at + 9] as u16,
            red_shift: data[at + 10],
            green_shift: data[at + 11],
            blue_shift: data[at + 12],
        };
        Ok((format, at + 16))
    }
}

} // verus!
