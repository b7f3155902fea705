//! The ZRLE encoding: tiles of at most 64 by 64 pixels, each raw, filled,
//! palettised or run-length encoded, inside one zlib stream per session.

pub use crate::bits::BitReader;
use crate::bits::{bit_field, lemma_flag_and_number, BitCursor};
use crate::error::{Error, IoError};
use crate::geometry::Rect;
use crate::inflate::{
    consumed_total, inflate_into, inflate_step, produced_total, InflateStatus,
};
use crate::pixel_format::PixelFormat;
use vstd::prelude::*;
use vstd::slice::slice_subrange;

verus! {

/// How a pixel travels inside a tile: in `size` bytes, which stand for a
/// pixel of `pixel_size` bytes. Where a byte was left out, `pad` says that it
/// goes back in front of the others, and otherwise behind them.
#[derive(Clone, Copy, Debug, PartialEq, Eq, Structural)]
pub struct CPixel {
    pub size: usize,
    pub pad: bool,
    pub pixel_size: usize,
}

impl CPixel {
    /// Either nothing is left out, or one byte of four is.
    pub open spec fn wf(self) -> bool {
        ||| self.size == self.pixel_size && 1 <= self.pixel_size <= 4 && !self.pad
        ||| self.size == 3 && self.pixel_size == 4
    }

    /// The layout that a session's pixel format calls for. A 32-bit true
    /// colour pixel of depth 24 or less whose colour leaves the lowest or the
    /// highest byte free travels in three bytes.
    pub open spec fn of(format: PixelFormat) -> CPixel {
        let pixel_size = format.bytes_per_pixel() as usize;
        if format.bits_per_pixel == 32 && format.true_colour && format.depth <= 24 {
            if format.pixel_mask() & 0x0000_00ff == 0 {
                CPixel { size: 3, pad: !format.big_endian, pixel_size }
            } else if format.pixel_mask() & 0xff00_0000 == 0 {
                CPixel { size: 3, pad: format.big_endian, pixel_size }
            } else {
                CPixel { size: 4, pad: false, pixel_size }
            }
        } else {
            CPixel { size: pixel_size, pad: false, pixel_size }
        }
    }

    /// The layout that a session's pixel format calls for.
    pub fn for_format(format: &PixelFormat) -> (layout: CPixel)
        requires
            format.supported(),
        ensures
            layout == CPixel::of(*format),
            layout.wf(),
    {
        let pixel_size = format.pixel_size();
        if format.bits_per_pixel == 32 && format.true_colour && format.depth <= 24 {
            let mask = format.colour_mask();
            if mask & 0x0000_00ff == 0 {
                CPixel { size: 3, pad: !format.big_endian, pixel_size }
            } else if mask & 0xff00_0000 == 0 {
                CPixel { size: 3, pad: format.big_endian, pixel_size }
            } else {
                CPixel { size: 4, pad: false, pixel_size }
            }
        } else {
            CPixel { size: pixel_size, pad: false, pixel_size }
        }
    }

    /// The pixel that the compressed bytes `c` stand for.
    pub open spec fn expand(self, c: Seq<u8>) -> Seq<u8> {
        if self.size == self.pixel_size {
            c
        } else if self.pad {
            seq![0u8] + c
        } else {
            c.push(0u8)
        }
    }

    /// The pixel whose compressed bytes start at `at`.
    pub open spec fn pixel_at(self, data: Seq<u8>, at: int) -> Seq<u8> {
        self.expand(data.subrange(at, at + self.size))
    }

    /// The `n` pixels whose compressed bytes start at `at`, one after the
    /// other.
    pub open spec fn pixels_at(self, data: Seq<u8>, at: int, n: nat) -> Seq<u8>
        decreases n,
    {
        if n == 0 {
            Seq::empty()
        } else {
            self.pixels_at(data, at, (n - 1) as nat) + self.pixel_at(data, at + (n - 1) * self.size)
        }
    }

    /// `n` pixels take `n` times the size of one.
    pub proof fn lemma_pixels_len(self, data: Seq<u8>, at: int, n: nat)
        requires
            self.wf(),
            0 <= at,
            at + n * self.size <= data.len(),
        ensures
            self.pixels_at(data, at, n).len() == n * self.pixel_size,
        decreases n,
    {
        if n > 0 {
            let m = (n - 1) as nat;
            assert(m * self.size + self.size == n * self.size && m * self.pixel_size
                + self.pixel_size == n * self.pixel_size && 0 <= m * self.size)
                by (nonlinear_arith)
                requires
                    m + 1 == n,
            ;
            self.lemma_pixels_len(data, at, m);
        } else {
            assert(n * self.pixel_size == 0) by (nonlinear_arith)
                requires
                    n == 0,
            ;
        }
    }
}

/// `n` copies of `pixel`, one after the other.
pub open spec fn repeat(pixel: Seq<u8>, n: nat) -> Seq<u8>
    decreases n,
{
    if n == 0 {
        Seq::empty()
    } else {
        repeat(pixel, (n - 1) as nat) + pixel
    }
}

/// `n` copies take `n` times the length of one.
pub proof fn lemma_repeat_len(pixel: Seq<u8>, n: nat)
    ensures
        repeat(pixel, n).len() == n * pixel.len(),
    decreases n,
{
    if n > 0 {
        let m = (n - 1) as nat;
        assert(m * pixel.len() + pixel.len() == n * pixel.len()) by (nonlinear_arith)
            requires
                m + 1 == n,
        ;
        lemma_repeat_len(pixel, m);
    } else {
        assert(n * pixel.len() == 0) by (nonlinear_arith)
            requires
                n == 0,
        ;
    }
}

/// Reads one pixel at a byte boundary and expands it to the session's size.
pub fn read_pixel(reader: &mut BitReader, layout: &CPixel) -> (res: Result<Vec<u8>, Error>)
    requires
        old(reader).wf(),
        layout.wf(),
    ensures
        final(reader).wf(),
        final(reader).data() == old(reader).data(),
        !old(reader).cursor().aligned() ==> res == Err::<Vec<u8>, Error>(
            Error::Io(IoError::InvalidData("unaligned ZRLE byte read")),
        ),
        old(reader).cursor().aligned() && old(reader).cursor().offset + layout.size > old(reader).data().len() ==> res == Err::<Vec<u8>, Error>(Error::Io(IoError::UnexpectedEof)),
        old(reader).cursor().aligned() && old(reader).cursor().offset + layout.size <= old(reader).data().len() ==> res is Ok && res->Ok_0@ == layout.pixel_at(
            old(reader).data(),
            old(reader).cursor().offset,
        ) && final(reader).cursor() == BitCursor::at(old(reader).cursor().offset + layout.size),
{
    proof {
        reader.lemma_cursor_valid();
    }
    let bytes = match reader.read(layout.size) {
        Ok(bytes) => bytes,
        Err(e) => { return Err(e); },
    };
    if bytes.len() < layout.size {
        return Err(Error::Io(IoError::UnexpectedEof));
    }
    let mut pixel: Vec<u8> = Vec::new();
    if layout.size != layout.pixel_size && layout.pad {
        pixel.push(0u8);
    }
    let mut i: usize = 0;
    while i < bytes.len()
        invariant
            i <= bytes.len(),
            bytes.len() == layout.size,
            pixel@ == (if layout.size != layout.pixel_size && layout.pad {
                seq![0u8]
            } else {
                Seq::<u8>::empty()
            }) + bytes@.subrange(0, i as int),
        decreases bytes.len() - i,
    {
        pixel.push(bytes[i]);
        i = i + 1;
    }
    if layout.size != layout.pixel_size && !layout.pad {
        pixel.push(0u8);
    }
    assert(bytes@.subrange(0, bytes.len() as int) == bytes@);
    assert(pixel@ == layout.expand(bytes@));
    Ok(pixel)
}

/// What decoding a stretch of pixel data gives: the pixels, and the offset
/// of the first byte behind the stretch.
pub type Decoded = Result<(Seq<u8>, int), Error>;

/// The pixels `front`, followed by what `rest` decoded to.
pub open spec fn prepend(front: Seq<u8>, rest: Decoded) -> Decoded {
    match rest {
        Ok((pixels, next)) => Ok((front + pixels, next)),
        Err(e) => Err(e),
    }
}

/// The sum of the bytes of a run length that starts at `at`, and the offset
/// behind it. The run length ends with its first byte that is not 255.
pub open spec fn run_sum(data: Seq<u8>, at: int) -> Result<(int, int), Error>
    decreases data.len() - at,
{
    if at < 0 || at >= data.len() {
        Err(Error::Io(IoError::UnexpectedEof))
    } else if data[at] != 255 {
        Ok((data[at] as int, at + 1))
    } else {
        match run_sum(data, at + 1) {
            Ok((sum, next)) => Ok((255 + sum, next)),
            Err(e) => Err(e),
        }
    }
}

/// The run length that starts at `at`: one more than the sum of its bytes.
/// A length that no `usize` holds is refused.
pub open spec fn run_length_spec(data: Seq<u8>, at: int) -> Result<(int, int), Error> {
    match run_sum(data, at) {
        Ok((sum, next)) => if 1 + sum <= usize::MAX {
            Ok((1 + sum, next))
        } else {
            Err(Error::Unexpected("ZRLE run length"))
        },
        Err(e) => Err(e),
    }
}

/// The sum of all bytes of `bytes`.
pub open spec fn byte_sum(bytes: Seq<u8>) -> int
    decreases bytes.len(),
{
    if bytes.len() == 0 {
        0
    } else {
        bytes[0] + byte_sum(bytes.subrange(1, bytes.len() as int))
    }
}

/// A run length lies wholly inside the input, behind its start, and its sum
/// is not negative.
pub proof fn lemma_run_sum_bounds(data: Seq<u8>, at: int)
    ensures
        match run_sum(data, at) {
            Ok((sum, next)) => 0 <= sum && 0 <= at < next <= data.len(),
            Err(e) => e == Error::Io(IoError::UnexpectedEof),
        },
    decreases data.len() - at,
{
    if 0 <= at < data.len() && data[at] == 255 {
        lemma_run_sum_bounds(data, at + 1);
    }
}

/// Bytes that are all 255 but for the last, which is not, are a run length:
/// it takes all of them, and its sum is theirs.
pub proof fn lemma_run_sum_of_bytes(bytes: Seq<u8>)
    requires
        bytes.len() > 0,
        forall|i: int| 0 <= i < bytes.len() - 1 ==> bytes[i] == 255,
        bytes[bytes.len() - 1] != 255,
    ensures
        run_sum(bytes, 0) == Ok::<(int, int), Error>((byte_sum(bytes), bytes.len() as int)),
        byte_sum(bytes) == 255 * (bytes.len() - 1) + bytes[bytes.len() - 1],
{
    lemma_run_sum_suffix(bytes, 0);
    assert(bytes.subrange(0, bytes.len() as int) == bytes);
}

/// Read as a run length, bytes that are all 255 but for the last, which is
/// not, give one more than their sum, and are used up.
pub proof fn lemma_run_length_of_bytes(bytes: Seq<u8>)
    requires
        bytes.len() > 0,
        forall|i: int| 0 <= i < bytes.len() - 1 ==> bytes[i] == 255,
        bytes[bytes.len() - 1] != 255,
        1 + byte_sum(bytes) <= usize::MAX,
    ensures
        run_length_spec(bytes, 0) == Ok::<(int, int), Error>(
            (1 + byte_sum(bytes), bytes.len() as int),
        ),
{
    lemma_run_sum_of_bytes(bytes);
}

/// The same, from any byte of such a run length on.
proof fn lemma_run_sum_suffix(bytes: Seq<u8>, at: int)
    requires
        0 <= at < bytes.len(),
        forall|i: int| 0 <= i < bytes.len() - 1 ==> bytes[i] == 255,
        bytes[bytes.len() - 1] != 255,
    ensures
        run_sum(bytes, at) == Ok::<(int, int), Error>(
            (byte_sum(bytes.subrange(at, bytes.len() as int)), bytes.len() as int),
        ),
        byte_sum(bytes.subrange(at, bytes.len() as int)) == 255 * (bytes.len() - 1 - at)
            + bytes[bytes.len() - 1],
    decreases bytes.len() - at,
{
    let rest = bytes.subrange(at, bytes.len() as int);
    assert(rest[0] == bytes[at]);
    assert(rest.subrange(1, rest.len() as int) == bytes.subrange(at + 1, bytes.len() as int));
    if at < bytes.len() - 1 {
        lemma_run_sum_suffix(bytes, at + 1);
    } else {
        assert(byte_sum(rest.subrange(1, rest.len() as int)) == 0);
    }
}

/// Reads a run length: bytes are added up until one is not 255, and the run
/// is one longer than their sum.
#[verifier::rlimit(40)]
pub fn read_run_length(reader: &mut BitReader) -> (res: Result<usize, Error>)
    requires
        old(reader).wf(),
    ensures
        final(reader).wf(),
        final(reader).data() == old(reader).data(),
        !old(reader).cursor().aligned() ==> res == Err::<usize, Error>(
            Error::Io(IoError::InvalidData("unaligned ZRLE byte read")),
        ),
        old(reader).cursor().aligned() ==> match run_length_spec(
            old(reader).data(),
            old(reader).cursor().offset,
        ) {
            Ok((run, next)) => res == Ok::<usize, Error>(run as usize) && final(reader).cursor()
                == BitCursor::at(next),
            Err(e) => res == Err::<usize, Error>(e),
        },
{
    let ghost data = reader.data();
    let ghost start = reader.cursor().offset;
    let ghost mut total: int = 0;
    let mut sum: usize = 0;
    let mut overflow = false;
    let mut done = false;
    proof {
        reader.lemma_cursor_valid();
    }
    while !done
        invariant
            reader.wf(),
            reader.data() == data,
            data == old(reader).data(),
            start == old(reader).cursor().offset,
            0 <= start <= reader.cursor().offset <= data.len(),
            old(reader).cursor().aligned() ==> reader.cursor().aligned(),
            !old(reader).cursor().aligned() ==> reader.cursor() == old(reader).cursor() && !done,
            0 <= total,
            !overflow ==> sum == total,
            overflow ==> total > usize::MAX,
            done ==> run_sum(data, start) == Ok::<(int, int), Error>(
                (total, reader.cursor().offset),
            ),
            !done ==> run_sum(data, start) == (match run_sum(data, reader.cursor().offset) {
                Ok((sum, next)) => Ok((total + sum, next)),
                Err(e) => Err(e),
            }),
        decreases data.len() - reader.cursor().offset + (if done { 0int } else { 1int }),
    {
        let bytes = match reader.read(1) {
            Ok(bytes) => bytes,
            Err(e) => { return Err(e); },
        };
        if bytes.len() < 1 {
            return Err(Error::Io(IoError::UnexpectedEof));
        }
        let part: u8 = bytes[0];
        if !overflow {
            match sum.checked_add(part as usize) {
                Some(s) => { sum = s; },
                None => { overflow = true; },
            }
        }
        proof {
            total = total + part;
        }
        if part != 255 {
            done = true;
        }
    }
    if overflow || sum == usize::MAX {
        Err(Error::Unexpected("ZRLE run length"))
    } else {
        Ok(sum + 1)
    }
}

/// Reads `count` pixels, one after the other, and appends them to `pixels`.
pub fn read_pixels(reader: &mut BitReader, layout: &CPixel, count: usize, pixels: &mut Vec<u8>) -> (res:
    Result<(), Error>)
    requires
        old(reader).wf(),
        old(reader).cursor().aligned(),
        layout.wf(),
        count <= 4096,
    ensures
        final(reader).wf(),
        final(reader).data() == old(reader).data(),
        old(reader).cursor().offset + count * layout.size > old(reader).data().len() ==> res
            == Err::<(), Error>(Error::Io(IoError::UnexpectedEof)),
        old(reader).cursor().offset + count * layout.size <= old(reader).data().len() ==> res
            is Ok && final(pixels)@ == old(pixels)@ + layout.pixels_at(
            old(reader).data(),
            old(reader).cursor().offset,
            count as nat,
        ) && final(reader).cursor() == BitCursor::at(
            old(reader).cursor().offset + count * layout.size,
        ),
{
    let ghost data = reader.data();
    let ghost start = reader.cursor().offset;
    let ghost before = pixels@;
    let mut i: usize = 0;
    proof {
        reader.lemma_cursor_valid();
        assert(before + layout.pixels_at(data, start, 0) == before);
    }
    while i < count
        invariant
            reader.wf(),
            reader.data() == data,
            data == old(reader).data(),
            start == old(reader).cursor().offset,
            before == old(pixels)@,
            layout.wf(),
            0 <= start,
            i <= count <= 4096,
            reader.cursor() == BitCursor::at(start + i * layout.size),
            start + i * layout.size <= data.len(),
            pixels@ == before + layout.pixels_at(data, start, i as nat),
        decreases count - i,
    {
        assert(start + (i + 1) * layout.size > data.len() ==> start + count * layout.size
            > data.len()) by (nonlinear_arith)
            requires
                i < count,
                layout.size >= 0,
        ;
        assert((i + 1) * layout.size == i * layout.size + layout.size) by (nonlinear_arith);
        let pixel = match read_pixel(reader, layout) {
            Ok(pixel) => pixel,
            Err(e) => { return Err(e); },
        };
        let ghost earlier = pixels@;
        pixels.extend_from_slice(pixel.as_slice());
        assert(pixels@ == earlier + pixel@);
        assert(pixels@ == before + layout.pixels_at(data, start, (i + 1) as nat)) by {
            assert(layout.pixels_at(data, start, (i + 1) as nat) == layout.pixels_at(
                data,
                start,
                i as nat,
            ) + layout.pixel_at(data, start + i * layout.size));
        }
        i = i + 1;
    }
    Ok(())
}

/// Putting pixels in front of a result twice is putting both in front once.
pub proof fn lemma_prepend_twice(a: Seq<u8>, b: Seq<u8>, rest: Decoded)
    ensures
        prepend(a, prepend(b, rest)) == prepend(a + b, rest),
{
    if let Ok((pixels, next)) = rest {
        assert(a + (b + pixels) == (a + b) + pixels);
    }
}

/// Appends `times` copies of `pixel` to `pixels`.
pub fn push_repeated(pixels: &mut Vec<u8>, pixel: &[u8], times: usize)
    ensures
        final(pixels)@ == old(pixels)@ + repeat(pixel@, times as nat),
{
    let mut i: usize = 0;
    assert(pixels@ + repeat(pixel@, 0) == pixels@);
    while i < times
        invariant
            i <= times,
            pixels@ == old(pixels)@ + repeat(pixel@, i as nat),
        decreases times - i,
    {
        let ghost earlier = pixels@;
        pixels.extend_from_slice(pixel);
        assert(pixels@ == earlier + pixel@);
        assert(old(pixels)@ + (repeat(pixel@, i as nat) + pixel@) == (old(pixels)@ + repeat(
            pixel@,
            i as nat,
        )) + pixel@);
        i = i + 1;
    }
}

/// Entry `index` of a palette whose entries are `pixel_size` bytes each.
pub open spec fn palette_entry(palette: Seq<u8>, pixel_size: int, index: int) -> Seq<u8> {
    palette.subrange(index * pixel_size, (index + 1) * pixel_size)
}

/// Whether a palette holds an entry `index`.
pub open spec fn has_entry(palette: Seq<u8>, pixel_size: int, index: int) -> bool {
    0 <= index && (index + 1) * pixel_size <= palette.len()
}

/// Whether a palette holds an entry `index`.
fn holds_entry(palette: &Vec<u8>, pixel_size: usize, index: u8) -> (r: bool)
    requires
        1 <= pixel_size <= 4,
    ensures
        r == has_entry(palette@, pixel_size as int, index as int),
{
    assert((index + 1) * pixel_size <= 1024) by (nonlinear_arith)
        requires
            index <= 255,
            pixel_size <= 4,
    ;
    (index as usize + 1) * pixel_size <= palette.len()
}

/// Appends `times` copies of a palette entry to `pixels`.
fn push_entry(pixels: &mut Vec<u8>, palette: &Vec<u8>, pixel_size: usize, index: u8, times: usize)
    requires
        1 <= pixel_size <= 4,
        has_entry(palette@, pixel_size as int, index as int),
    ensures
        final(pixels)@ == old(pixels)@ + repeat(
            palette_entry(palette@, pixel_size as int, index as int),
            times as nat,
        ),
{
    assert(index * pixel_size <= 1020 && (index + 1) * pixel_size == index * pixel_size
        + pixel_size) by (nonlinear_arith)
        requires
            index <= 255,
            pixel_size <= 4,
    ;
    let from: usize = index as usize * pixel_size;
    let to: usize = from + pixel_size;
    let entry = slice_subrange(palette.as_slice(), from, to);
    push_repeated(pixels, entry, times);
}

/// Bits that one palette index takes in a packed tile.
pub open spec fn index_bits(palette_size: int) -> int {
    if palette_size <= 2 {
        1
    } else if palette_size <= 4 {
        2
    } else {
        4
    }
}

/// Bytes that one row of a packed tile takes: rows end at a byte boundary.
pub open spec fn packed_stride(width: int, bits: int) -> int {
    (width * bits + 7) / 8
}

/// The pixels of one row of a packed tile, from `column` on. The row starts
/// at byte `row_at`, and its indices follow each other bit by bit.
pub open spec fn packed_row_spec(
    palette: Seq<u8>,
    pixel_size: int,
    bits: int,
    data: Seq<u8>,
    row_at: int,
    width: int,
    column: int,
) -> Result<Seq<u8>, Error>
    decreases width - column,
{
    if column >= width {
        Ok(Seq::empty())
    } else {
        let byte_at = row_at + (column * bits) / 8;
        if byte_at < 0 || byte_at >= data.len() {
            Err(Error::Io(IoError::UnexpectedEof))
        } else {
            let index = bit_field(data[byte_at], (column * bits) % 8, bits);
            if !has_entry(palette, pixel_size, index as int) {
                Err(Error::Unexpected("ZRLE palette index"))
            } else {
                match packed_row_spec(palette, pixel_size, bits, data, row_at, width, column + 1) {
                    Ok(rest) => Ok(palette_entry(palette, pixel_size, index as int) + rest),
                    Err(e) => Err(e),
                }
            }
        }
    }
}

/// The pixels of `rows` rows of a packed tile, the first of which starts at
/// byte `at`.
pub open spec fn packed_rows_spec(
    palette: Seq<u8>,
    pixel_size: int,
    bits: int,
    data: Seq<u8>,
    at: int,
    width: int,
    rows: nat,
) -> Decoded
    decreases rows,
{
    if rows == 0 {
        Ok((Seq::empty(), at))
    } else {
        match packed_row_spec(palette, pixel_size, bits, data, at, width, 0) {
            Ok(row) => prepend(
                row,
                packed_rows_spec(
                    palette,
                    pixel_size,
                    bits,
                    data,
                    at + packed_stride(width, bits),
                    width,
                    (rows - 1) as nat,
                ),
            ),
            Err(e) => Err(e),
        }
    }
}

/// The pixels of a tile of plain runs with `remaining` pixels to go: each
/// run is a pixel and a run length, and no run may go past the tile's end.
pub open spec fn plain_rle_spec(layout: CPixel, data: Seq<u8>, at: int, remaining: nat) -> Decoded
    decreases remaining,
{
    if remaining == 0 {
        Ok((Seq::empty(), at))
    } else if at + layout.size > data.len() {
        Err(Error::Io(IoError::UnexpectedEof))
    } else {
        match run_length_spec(data, at + layout.size) {
            Ok((run, next)) => if run < 1 || run > remaining {
                Err(Error::Unexpected("ZRLE run length"))
            } else {
                prepend(
                    repeat(layout.pixel_at(data, at), run as nat),
                    plain_rle_spec(layout, data, next, (remaining - run) as nat),
                )
            },
            Err(e) => Err(e),
        }
    }
}

/// The pixels of a tile of palette runs with `remaining` pixels to go: each
/// run is a byte whose low seven bits pick the palette entry and whose top
/// bit says that a run length follows; without one the run is one pixel.
pub open spec fn palette_rle_spec(
    palette: Seq<u8>,
    pixel_size: int,
    data: Seq<u8>,
    at: int,
    remaining: nat,
) -> Decoded
    decreases remaining,
{
    if remaining == 0 {
        Ok((Seq::empty(), at))
    } else if at < 0 || at >= data.len() {
        Err(Error::Io(IoError::UnexpectedEof))
    } else {
        let index = data[at] % 128;
        let length = if data[at] >= 128 {
            run_length_spec(data, at + 1)
        } else {
            Ok((1int, at + 1))
        };
        match length {
            Ok((run, next)) => if !has_entry(palette, pixel_size, index as int) {
                Err(Error::Unexpected("ZRLE palette index"))
            } else if run < 1 || run > remaining {
                Err(Error::Unexpected("ZRLE run length"))
            } else {
                prepend(
                    repeat(palette_entry(palette, pixel_size, index as int), run as nat),
                    palette_rle_spec(palette, pixel_size, data, next, (remaining - run) as nat),
                )
            },
            Err(e) => Err(e),
        }
    }
}

/// The pixels of the tile that starts at byte `at`, in the session's
/// format, row by row. The tile's first byte says how it is encoded: its top
/// bit asks for runs, and the others give the size of the palette that
/// follows.
pub open spec fn tile_spec(layout: CPixel, data: Seq<u8>, at: int, width: int, height: int) -> Decoded {
    if at < 0 || at >= data.len() {
        Err(Error::Io(IoError::UnexpectedEof))
    } else {
        let rle = data[at] >= 128;
        let palette_size = (data[at] % 128) as int;
        let body = at + 1 + palette_size * layout.size;
        let area = (width * height) as nat;
        if body > data.len() {
            Err(Error::Io(IoError::UnexpectedEof))
        } else {
            let palette = layout.pixels_at(data, at + 1, palette_size as nat);
            if !rle && palette_size == 0 {
                if body + area * layout.size > data.len() {
                    Err(Error::Io(IoError::UnexpectedEof))
                } else {
                    Ok((layout.pixels_at(data, body, area), body + area * layout.size))
                }
            } else if !rle && palette_size == 1 {
                Ok((repeat(palette, area), body))
            } else if !rle && palette_size <= 16 {
                packed_rows_spec(
                    palette,
                    layout.pixel_size as int,
                    index_bits(palette_size),
                    data,
                    body,
                    width,
                    height as nat,
                )
            } else if rle && palette_size == 0 {
                plain_rle_spec(layout, data, body, area)
            } else if rle && palette_size >= 2 {
                palette_rle_spec(palette, layout.pixel_size as int, data, body, area)
            } else {
                Err(Error::Unexpected("ZRLE subencoding"))
            }
        }
    }
}

/// Decodes a tile of plain runs that covers `area` pixels.
#[verifier::rlimit(40)]
fn decode_plain_rle(reader: &mut BitReader, layout: &CPixel, area: usize, pixels: &mut Vec<u8>) -> (res:
    Result<(), Error>)
    requires
        old(reader).wf(),
        old(reader).cursor().aligned(),
        layout.wf(),
    ensures
        final(reader).wf(),
        final(reader).data() == old(reader).data(),
        match plain_rle_spec(
            *layout,
            old(reader).data(),
            old(reader).cursor().offset,
            area as nat,
        ) {
            Ok((decoded, next)) => res is Ok && final(pixels)@ == old(pixels)@ + decoded && final(reader).cursor() == BitCursor::at(next),
            Err(e) => res == Err::<(), Error>(e),
        },
{
    let ghost data = reader.data();
    let ghost start = reader.cursor().offset;
    let ghost before = pixels@;
    let ghost mut acc: Seq<u8> = Seq::empty();
    let mut count: usize = 0;
    proof {
        reader.lemma_cursor_valid();
        assert(before + acc == before);
    }
    while count < area
        invariant
            reader.wf(),
            reader.data() == data,
            data == old(reader).data(),
            start == old(reader).cursor().offset,
            before == old(pixels)@,
            layout.wf(),
            reader.cursor().aligned(),
            0 <= reader.cursor().offset <= data.len(),
            count <= area,
            pixels@ == before + acc,
            plain_rle_spec(*layout, data, start, area as nat) == prepend(
                acc,
                plain_rle_spec(*layout, data, reader.cursor().offset, (area - count) as nat),
            ),
        decreases area - count,
    {
        let ghost at = reader.cursor().offset;
        let ghost rest = plain_rle_spec(*layout, data, at, (area - count) as nat);
        let pixel = match read_pixel(reader, layout) {
            Ok(pixel) => pixel,
            Err(e) => { return Err(e); },
        };
        proof {
            lemma_run_sum_bounds(data, at + layout.size);
        }
        let run = match read_run_length(reader) {
            Ok(run) => run,
            Err(e) => { return Err(e); },
        };
        if run > area - count {
            return Err(Error::Unexpected("ZRLE run length"));
        }
        push_repeated(pixels, pixel.as_slice(), run);
        proof {
            let more = repeat(pixel@, run as nat);
            let tail = plain_rle_spec(
                *layout,
                data,
                reader.cursor().offset,
                (area - count - run) as nat,
            );
            assert(rest == prepend(more, tail));
            lemma_prepend_twice(acc, more, tail);
            assert(before + (acc + more) == (before + acc) + more);
            acc = acc + more;
        }
        count = count + run;
    }
    proof {
        assert(acc + Seq::<u8>::empty() == acc);
    }
    Ok(())
}

/// Decodes a tile of palette runs that covers `area` pixels.
#[verifier::rlimit(40)]
fn decode_palette_rle(
    reader: &mut BitReader,
    palette: &Vec<u8>,
    pixel_size: usize,
    area: usize,
    pixels: &mut Vec<u8>,
) -> (res: Result<(), Error>)
    requires
        old(reader).wf(),
        old(reader).cursor().aligned(),
        1 <= pixel_size <= 4,
    ensures
        final(reader).wf(),
        final(reader).data() == old(reader).data(),
        match palette_rle_spec(
            palette@,
            pixel_size as int,
            old(reader).data(),
            old(reader).cursor().offset,
            area as nat,
        ) {
            Ok((decoded, next)) => res is Ok && final(pixels)@ == old(pixels)@ + decoded && final(reader).cursor() == BitCursor::at(next),
            Err(e) => res == Err::<(), Error>(e),
        },
{
    let ghost data = reader.data();
    let ghost start = reader.cursor().offset;
    let ghost before = pixels@;
    let ghost mut acc: Seq<u8> = Seq::empty();
    let mut count: usize = 0;
    proof {
        reader.lemma_cursor_valid();
        assert(before + acc == before);
    }
    while count < area
        invariant
            reader.wf(),
            reader.data() == data,
            data == old(reader).data(),
            start == old(reader).cursor().offset,
            before == old(pixels)@,
            1 <= pixel_size <= 4,
            reader.cursor().aligned(),
            0 <= reader.cursor().offset <= data.len(),
            count <= area,
            pixels@ == before + acc,
            palette_rle_spec(palette@, pixel_size as int, data, start, area as nat) == prepend(
                acc,
                palette_rle_spec(
                    palette@,
                    pixel_size as int,
                    data,
                    reader.cursor().offset,
                    (area - count) as nat,
                ),
            ),
        decreases area - count,
    {
        let ghost at = reader.cursor().offset;
        let ghost rest = palette_rle_spec(
            palette@,
            pixel_size as int,
            data,
            at,
            (area - count) as nat,
        );
        proof {
            if at < data.len() {
                lemma_flag_and_number(data[at]);
            }
        }
        let longer = match reader.read_bit() {
            Ok(bit) => bit,
            Err(e) => { return Err(e); },
        };
        let index = match reader.read_bits(7) {
            Ok(index) => index,
            Err(e) => { return Err(e); },
        };
        proof {
            lemma_run_sum_bounds(data, at + 1);
        }
        let run: usize = if longer {
            match read_run_length(reader) {
                Ok(run) => run,
                Err(e) => { return Err(e); },
            }
        } else {
            1
        };
        if !holds_entry(palette, pixel_size, index) {
            return Err(Error::Unexpected("ZRLE palette index"));
        }
        if run > area - count {
            return Err(Error::Unexpected("ZRLE run length"));
        }
        push_entry(pixels, palette, pixel_size, index, run);
        proof {
            let more = repeat(palette_entry(palette@, pixel_size as int, index as int), run as nat);
            let tail = palette_rle_spec(
                palette@,
                pixel_size as int,
                data,
                reader.cursor().offset,
                (area - count - run) as nat,
            );
            assert(rest == prepend(more, tail));
            lemma_prepend_twice(acc, more, tail);
            assert(before + (acc + more) == (before + acc) + more);
            acc = acc + more;
        }
        count = count + run;
    }
    proof {
        assert(acc + Seq::<u8>::empty() == acc);
    }
    Ok(())
}

/// Where a row's bit cursor stands after `done` bits: `consumed` bytes
/// taken, `position` bits of the last one handed out.
proof fn lemma_packed_cursor(consumed: int, position: int, done: int, bits: int)
    requires
        1 <= position <= 8,
        bits == 1 || bits == 2 || bits == 4,
        position % bits == 0,
        8 * consumed - (8 - position) == done,
        0 <= done,
    ensures
        position == 8 ==> done / 8 == consumed && done % 8 == 0,
        position < 8 ==> done / 8 == consumed - 1 && done % 8 == position && position + bits <= 8,
        position < 8 ==> (position + bits) % bits == 0,
        bits % bits == 0,
        (done + 7) / 8 == consumed,
{
}

/// Decodes one row of a packed tile: `width` palette indices of `bits` bits
/// each. The bits left over in the row's last byte are dropped.
#[verifier::rlimit(40)]
fn decode_packed_row(
    reader: &mut BitReader,
    palette: &Vec<u8>,
    pixel_size: usize,
    bits: usize,
    width: usize,
    pixels: &mut Vec<u8>,
) -> (res: Result<(), Error>)
    requires
        old(reader).wf(),
        old(reader).cursor().aligned(),
        1 <= pixel_size <= 4,
        bits == 1 || bits == 2 || bits == 4,
        1 <= width <= 64,
    ensures
        final(reader).wf(),
        final(reader).data() == old(reader).data(),
        match packed_row_spec(
            palette@,
            pixel_size as int,
            bits as int,
            old(reader).data(),
            old(reader).cursor().offset,
            width as int,
            0,
        ) {
            Ok(decoded) => res is Ok && final(pixels)@ == old(pixels)@ + decoded && final(reader).cursor() == BitCursor::at(
                old(reader).cursor().offset + packed_stride(width as int, bits as int),
            ),
            Err(e) => res == Err::<(), Error>(e),
        },
{
    let ghost data = reader.data();
    let ghost row_at = reader.cursor().offset;
    let ghost before = pixels@;
    let ghost mut acc: Seq<u8> = Seq::empty();
    let mut column: usize = 0;
    proof {
        reader.lemma_cursor_valid();
        assert(before + acc == before);
        assert(0 * bits == 0) by (nonlinear_arith);
    }
    while column < width
        invariant
            reader.wf(),
            reader.data() == data,
            data == old(reader).data(),
            row_at == old(reader).cursor().offset,
            before == old(pixels)@,
            1 <= pixel_size <= 4,
            bits == 1 || bits == 2 || bits == 4,
            1 <= width <= 64,
            0 <= row_at <= reader.cursor().offset <= data.len(),
            column <= width,
            1 <= reader.cursor().position <= 8,
            reader.cursor().position % (bits as int) == 0,
            8 * (reader.cursor().offset - row_at) - (8 - reader.cursor().position) == column
                * bits,
            pixels@ == before + acc,
            packed_row_spec(palette@, pixel_size as int, bits as int, data, row_at, width as int, 0)
                == (match packed_row_spec(
                palette@,
                pixel_size as int,
                bits as int,
                data,
                row_at,
                width as int,
                column as int,
            ) {
                Ok(rest) => Ok::<Seq<u8>, Error>(acc + rest),
                Err(e) => Err(e),
            }),
        decreases width - column,
    {
        let ghost cursor = reader.cursor();
        let ghost done = column * bits;
        let ghost tail = packed_row_spec(
            palette@,
            pixel_size as int,
            bits as int,
            data,
            row_at,
            width as int,
            column + 1,
        );
        proof {
            assert((column + 1) * bits == column * bits + bits && 0 <= column * bits)
                by (nonlinear_arith);
            lemma_packed_cursor(cursor.offset - row_at, cursor.position, done, bits as int);
        }
        let index = match reader.read_bits(bits) {
            Ok(index) => index,
            Err(e) => { return Err(e); },
        };
        assert(index == bit_field(data[row_at + done / 8], done % 8, bits as int));
        if !holds_entry(palette, pixel_size, index) {
            return Err(Error::Unexpected("ZRLE palette index"));
        }
        push_entry(pixels, palette, pixel_size, index, 1);
        proof {
            let entry = palette_entry(palette@, pixel_size as int, index as int);
            assert(repeat(entry, 1) == entry) by {
                assert(repeat(entry, 0) + entry == entry);
            }
            if let Ok(more) = tail {
                assert(acc + (entry + more) == (acc + entry) + more);
            }
            assert(before + (acc + entry) == (before + acc) + entry);
            acc = acc + entry;
        }
        column = column + 1;
    }
    proof {
        let cursor = reader.cursor();
        lemma_packed_cursor(cursor.offset - row_at, cursor.position, width * bits, bits as int);
        assert(acc + Seq::<u8>::empty() == acc);
    }
    reader.align();
    Ok(())
}

/// Decodes a packed tile: `height` rows of `width` palette indices of `bits`
/// bits each, every row starting at a byte boundary.
fn decode_packed(
    reader: &mut BitReader,
    palette: &Vec<u8>,
    pixel_size: usize,
    bits: usize,
    width: usize,
    height: usize,
    pixels: &mut Vec<u8>,
) -> (res: Result<(), Error>)
    requires
        old(reader).wf(),
        old(reader).cursor().aligned(),
        1 <= pixel_size <= 4,
        bits == 1 || bits == 2 || bits == 4,
        1 <= width <= 64,
        height <= 64,
    ensures
        final(reader).wf(),
        final(reader).data() == old(reader).data(),
        match packed_rows_spec(
            palette@,
            pixel_size as int,
            bits as int,
            old(reader).data(),
            old(reader).cursor().offset,
            width as int,
            height as nat,
        ) {
            Ok((decoded, next)) => res is Ok && final(pixels)@ == old(pixels)@ + decoded && final(reader).cursor() == BitCursor::at(next),
            Err(e) => res == Err::<(), Error>(e),
        },
{
    let ghost data = reader.data();
    let ghost start = reader.cursor().offset;
    let ghost before = pixels@;
    let ghost mut acc: Seq<u8> = Seq::empty();
    let mut row: usize = 0;
    proof {
        reader.lemma_cursor_valid();
        assert(before + acc == before);
    }
    while row < height
        invariant
            reader.wf(),
            reader.data() == data,
            data == old(reader).data(),
            start == old(reader).cursor().offset,
            before == old(pixels)@,
            1 <= pixel_size <= 4,
            bits == 1 || bits == 2 || bits == 4,
            1 <= width <= 64,
            reader.cursor().aligned(),
            0 <= reader.cursor().offset <= data.len(),
            row <= height,
            pixels@ == before + acc,
            packed_rows_spec(
                palette@,
                pixel_size as int,
                bits as int,
                data,
                start,
                width as int,
                height as nat,
            ) == prepend(
                acc,
                packed_rows_spec(
                    palette@,
                    pixel_size as int,
                    bits as int,
                    data,
                    reader.cursor().offset,
                    width as int,
                    (height - row) as nat,
                ),
            ),
        decreases height - row,
    {
        let ghost row_at = reader.cursor().offset;
        match decode_packed_row(reader, palette, pixel_size, bits, width, pixels) {
            Ok(()) => {},
            Err(e) => { return Err(e); },
        }
        proof {
            reader.lemma_cursor_valid();
            let decoded = packed_row_spec(
                palette@,
                pixel_size as int,
                bits as int,
                data,
                row_at,
                width as int,
                0,
            )->Ok_0;
            let tail = packed_rows_spec(
                palette@,
                pixel_size as int,
                bits as int,
                data,
                reader.cursor().offset,
                width as int,
                (height - row - 1) as nat,
            );
            lemma_prepend_twice(acc, decoded, tail);
            assert(before + (acc + decoded) == (before + acc) + decoded);
            acc = acc + decoded;
        }
        row = row + 1;
    }
    proof {
        assert(acc + Seq::<u8>::empty() == acc);
    }
    Ok(())
}

/// A palette entry has the size of a pixel.
proof fn lemma_entry_len(palette: Seq<u8>, pixel_size: int, index: int)
    requires
        0 <= pixel_size,
        has_entry(palette, pixel_size, index),
    ensures
        palette_entry(palette, pixel_size, index).len() == pixel_size,
{
    assert(0 <= index * pixel_size && (index + 1) * pixel_size == index * pixel_size + pixel_size)
        by (nonlinear_arith)
        requires
            0 <= index,
            0 <= pixel_size,
    ;
}

/// What is left of a packed row decodes to one pixel for each column left.
proof fn lemma_packed_row_len(
    palette: Seq<u8>,
    pixel_size: int,
    bits: int,
    data: Seq<u8>,
    row_at: int,
    width: int,
    column: int,
)
    requires
        0 <= pixel_size,
        column <= width,
    ensures
        match packed_row_spec(palette, pixel_size, bits, data, row_at, width, column) {
            Ok(decoded) => decoded.len() == (width - column) * pixel_size,
            Err(_) => true,
        },
    decreases width - column,
{
    if column < width {
        lemma_packed_row_len(palette, pixel_size, bits, data, row_at, width, column + 1);
        let byte_at = row_at + (column * bits) / 8;
        if 0 <= byte_at < data.len() {
            let index = bit_field(data[byte_at], (column * bits) % 8, bits);
            if has_entry(palette, pixel_size, index as int) {
                lemma_entry_len(palette, pixel_size, index as int);
            }
        }
        assert((width - column) * pixel_size == pixel_size + (width - (column + 1)) * pixel_size)
            by (nonlinear_arith);
    } else {
        assert((width - column) * pixel_size == 0) by (nonlinear_arith)
            requires
                width == column,
        ;
    }
}

/// Packed rows decode to one pixel for each index.
proof fn lemma_packed_rows_len(
    palette: Seq<u8>,
    pixel_size: int,
    bits: int,
    data: Seq<u8>,
    at: int,
    width: int,
    rows: nat,
)
    requires
        0 <= pixel_size,
        0 <= width,
    ensures
        match packed_rows_spec(palette, pixel_size, bits, data, at, width, rows) {
            Ok((decoded, _)) => decoded.len() == rows * width * pixel_size,
            Err(_) => true,
        },
    decreases rows,
{
    if rows > 0 {
        let less = (rows - 1) as nat;
        lemma_packed_row_len(palette, pixel_size, bits, data, at, width, 0);
        lemma_packed_rows_len(
            palette,
            pixel_size,
            bits,
            data,
            at + packed_stride(width, bits),
            width,
            less,
        );
        assert(rows * width * pixel_size == (width - 0) * pixel_size + less * width * pixel_size)
            by (nonlinear_arith)
            requires
                less + 1 == rows,
        ;
    } else {
        assert(rows * width * pixel_size == 0) by (nonlinear_arith)
            requires
                rows == 0,
        ;
    }
}

/// Plain runs decode to exactly the pixels that were to go.
proof fn lemma_plain_rle_len(layout: CPixel, data: Seq<u8>, at: int, remaining: nat)
    requires
        layout.wf(),
        0 <= at,
    ensures
        match plain_rle_spec(layout, data, at, remaining) {
            Ok((decoded, _)) => decoded.len() == remaining * layout.pixel_size,
            Err(_) => true,
        },
    decreases remaining,
{
    if remaining > 0 && at + layout.size <= data.len() {
        lemma_run_sum_bounds(data, at + layout.size);
        if let Ok((run, next)) = run_length_spec(data, at + layout.size) {
            if 1 <= run <= remaining {
                let less = (remaining - run) as nat;
                lemma_plain_rle_len(layout, data, next, less);
                lemma_repeat_len(layout.pixel_at(data, at), run as nat);
                assert(remaining * layout.pixel_size == run * layout.pixel_size + less
                    * layout.pixel_size) by (nonlinear_arith)
                    requires
                        less + run == remaining,
                ;
            }
        }
    } else if remaining == 0 {
        assert(remaining * layout.pixel_size == 0) by (nonlinear_arith)
            requires
                remaining == 0,
        ;
    }
}

/// Palette runs decode to exactly the pixels that were to go.
proof fn lemma_palette_rle_len(
    palette: Seq<u8>,
    pixel_size: int,
    data: Seq<u8>,
    at: int,
    remaining: nat,
)
    requires
        0 <= pixel_size,
    ensures
        match palette_rle_spec(palette, pixel_size, data, at, remaining) {
            Ok((decoded, _)) => decoded.len() == remaining * pixel_size,
            Err(_) => true,
        },
    decreases remaining,
{
    if remaining > 0 && 0 <= at < data.len() {
        let index = data[at] % 128;
        let length = if data[at] >= 128 {
            run_length_spec(data, at + 1)
        } else {
            Ok((1int, at + 1))
        };
        if let Ok((run, next)) = length {
            if has_entry(palette, pixel_size, index as int) && 1 <= run <= remaining {
                let less = (remaining - run) as nat;
                lemma_palette_rle_len(palette, pixel_size, data, next, less);
                lemma_entry_len(palette, pixel_size, index as int);
                lemma_repeat_len(palette_entry(palette, pixel_size, index as int), run as nat);
                assert(remaining * pixel_size == run * pixel_size + less * pixel_size)
                    by (nonlinear_arith)
                    requires
                        less + run == remaining,
                ;
            }
        }
    } else if remaining == 0 {
        assert(remaining * pixel_size == 0) by (nonlinear_arith)
            requires
                remaining == 0,
        ;
    }
}

/// Whatever its encoding, a tile that decodes gives exactly one pixel of
/// the session's size for each of its `width` times `height` places.
#[verifier::rlimit(40)]
pub proof fn lemma_tile_len(layout: CPixel, data: Seq<u8>, at: int, width: int, height: int)
    requires
        layout.wf(),
        0 <= width,
        0 <= height,
    ensures
        match tile_spec(layout, data, at, width, height) {
            Ok((decoded, _)) => decoded.len() == width * height * layout.pixel_size,
            Err(_) => true,
        },
{
    if 0 <= at < data.len() {
        let rle = data[at] >= 128;
        let palette_size = (data[at] % 128) as int;
        let body = at + 1 + palette_size * layout.size;
        assert(0 <= width * height) by (nonlinear_arith)
            requires
                0 <= width,
                0 <= height,
        ;
        let area = (width * height) as nat;
        assert(0 <= palette_size * layout.size) by (nonlinear_arith)
            requires
                0 <= palette_size,
                0 <= layout.size,
        ;
        if body <= data.len() {
            let palette = layout.pixels_at(data, at + 1, palette_size as nat);
            layout.lemma_pixels_len(data, at + 1, palette_size as nat);
            if !rle && palette_size == 0 {
                if body + area * layout.size <= data.len() {
                    layout.lemma_pixels_len(data, body, area);
                }
            } else if !rle && palette_size == 1 {
                lemma_repeat_len(palette, area);
                assert(area * palette.len() == width * height * layout.pixel_size)
                    by (nonlinear_arith)
                    requires
                        area == width * height,
                        palette.len() == 1 * layout.pixel_size,
                ;
            } else if !rle && palette_size <= 16 {
                lemma_packed_rows_len(
                    palette,
                    layout.pixel_size as int,
                    index_bits(palette_size),
                    data,
                    body,
                    width,
                    height as nat,
                );
                assert(height * width * layout.pixel_size == width * height * layout.pixel_size)
                    by (nonlinear_arith);
            } else if rle && palette_size == 0 {
                lemma_plain_rle_len(layout, data, body, area);
            } else if rle && palette_size >= 2 {
                lemma_palette_rle_len(palette, layout.pixel_size as int, data, body, area);
            }
        }
    }
}

/// Decodes the tile of `width` by `height` pixels that starts where the
/// reader stands, into pixels of the session's format, row by row.
#[verifier::rlimit(40)]
pub fn decode_tile(reader: &mut BitReader, layout: &CPixel, width: usize, height: usize) -> (res:
    Result<Vec<u8>, Error>)
    requires
        old(reader).wf(),
        old(reader).cursor().aligned(),
        layout.wf(),
        1 <= width <= 64,
        1 <= height <= 64,
    ensures
        final(reader).wf(),
        final(reader).data() == old(reader).data(),
        match tile_spec(
            *layout,
            old(reader).data(),
            old(reader).cursor().offset,
            width as int,
            height as int,
        ) {
            Ok((decoded, next)) => res is Ok && res->Ok_0@ == decoded && final(reader).cursor()
                == BitCursor::at(next),
            Err(e) => res == Err::<Vec<u8>, Error>(e),
        },
        res is Ok ==> res->Ok_0@.len() == width * height * layout.pixel_size,
{
    let ghost data = reader.data();
    let ghost at = reader.cursor().offset;
    proof {
        reader.lemma_cursor_valid();
        if at < data.len() {
            lemma_flag_and_number(data[at]);
        }
        lemma_tile_len(*layout, data, at, width as int, height as int);
    }
    let rle = match reader.read_bit() {
        Ok(bit) => bit,
        Err(e) => { return Err(e); },
    };
    let palette_size = match reader.read_bits(7) {
        Ok(size) => size,
        Err(e) => { return Err(e); },
    };
    let mut palette: Vec<u8> = Vec::new();
    match read_pixels(reader, layout, palette_size as usize, &mut palette) {
        Ok(()) => {},
        Err(e) => { return Err(e); },
    }
    assert(palette@ == layout.pixels_at(data, at + 1, palette_size as nat)) by {
        assert(Seq::<u8>::empty() + layout.pixels_at(data, at + 1, palette_size as nat)
            == layout.pixels_at(data, at + 1, palette_size as nat));
    }
    assert(width * height <= 4096) by (nonlinear_arith)
        requires
            width <= 64,
            height <= 64,
    ;
    let area: usize = width * height;
    let mut pixels: Vec<u8> = Vec::new();
    let ghost decoded = tile_spec(*layout, data, at, width as int, height as int);
    let outcome = if !rle && palette_size == 0 {
        read_pixels(reader, layout, area, &mut pixels)
    } else if !rle && palette_size == 1 {
        push_repeated(&mut pixels, palette.as_slice(), area);
        Ok(())
    } else if !rle && palette_size <= 16 {
        let bits: usize = if palette_size <= 2 {
            1
        } else if palette_size <= 4 {
            2
        } else {
            4
        };
        decode_packed(reader, &palette, layout.pixel_size, bits, width, height, &mut pixels)
    } else if rle && palette_size == 0 {
        decode_plain_rle(reader, layout, area, &mut pixels)
    } else if rle && palette_size >= 2 {
        decode_palette_rle(reader, &palette, layout.pixel_size, area, &mut pixels)
    } else {
        Err(Error::Unexpected("ZRLE subencoding"))
    };
    match outcome {
        Ok(()) => {
            assert(pixels@ == decoded->Ok_0.0) by {
                assert(Seq::<u8>::empty() + decoded->Ok_0.0 == decoded->Ok_0.0);
            }
            Ok(pixels)
        },
        Err(e) => Err(e),
    }
}

/// A decoded tile: where it goes on the framebuffer, and its pixels in the
/// session's format, row by row.
#[derive(Clone, Debug, PartialEq, Eq)]
pub struct Tile {
    pub rect: Rect,
    pub pixels: Vec<u8>,
}

/// A decoded tile, as a value.
pub struct TileView {
    pub rect: Rect,
    pub pixels: Seq<u8>,
}

impl View for Tile {
    type V = TileView;

    open spec fn view(&self) -> TileView {
        TileView { rect: self.rect, pixels: self.pixels@ }
    }
}

/// The tiles of a sequence, as values.
pub open spec fn tiles_view(tiles: Seq<Tile>) -> Seq<TileView> {
    tiles.map_values(|tile: Tile| tile@)
}

/// What decoding a stretch of tiles gives: the tiles, and the offset of the
/// first byte behind the stretch.
pub type DecodedTiles = Result<(Seq<TileView>, int), Error>;

/// The tiles `front`, followed by what `rest` decoded to.
pub open spec fn prepend_tiles(front: Seq<TileView>, rest: DecodedTiles) -> DecodedTiles {
    match rest {
        Ok((tiles, next)) => Ok((front + tiles, next)),
        Err(e) => Err(e),
    }
}

/// How far a tile that starts at `from` reaches along a side of `total`
/// pixels: 64 pixels, or what is left of the side.
pub open spec fn tile_extent(total: int, from: int) -> int {
    if total - from < 64 {
        total - from
    } else {
        64
    }
}

/// The place of the tile that starts `x` pixels right of and `y` pixels
/// below the corner of `rect`.
pub open spec fn tile_rect(rect: Rect, x: int, y: int) -> Rect {
    Rect {
        left: (rect.left + x) as u16,
        top: (rect.top + y) as u16,
        width: tile_extent(rect.width as int, x) as u16,
        height: tile_extent(rect.height as int, y) as u16,
    }
}

/// The tiles of one row of tiles, from the tile at `x` on, left to right.
pub open spec fn tile_row_spec(
    layout: CPixel,
    data: Seq<u8>,
    at: int,
    rect: Rect,
    y: int,
    x: int,
) -> DecodedTiles
    decreases rect.width - x,
{
    if x >= rect.width {
        Ok((Seq::empty(), at))
    } else {
        match tile_spec(
            layout,
            data,
            at,
            tile_extent(rect.width as int, x),
            tile_extent(rect.height as int, y),
        ) {
            Ok((pixels, next)) => prepend_tiles(
                seq![TileView { rect: tile_rect(rect, x, y), pixels }],
                tile_row_spec(layout, data, next, rect, y, x + tile_extent(rect.width as int, x)),
            ),
            Err(e) => Err(e),
        }
    }
}

/// The tiles of the rows of tiles from the row at `y` on, top to bottom.
pub open spec fn tile_rows_spec(layout: CPixel, data: Seq<u8>, at: int, rect: Rect, y: int) -> DecodedTiles
    decreases rect.height - y,
{
    if y >= rect.height {
        Ok((Seq::empty(), at))
    } else {
        match tile_row_spec(layout, data, at, rect, y, 0) {
            Ok((tiles, next)) => prepend_tiles(
                tiles,
                tile_rows_spec(layout, data, next, rect, y + tile_extent(rect.height as int, y)),
            ),
            Err(e) => Err(e),
        }
    }
}

/// The tiles that the inflated bytes `data` hold for `rect`: rows of tiles
/// from the top, each from the left. The tiles must take every byte.
pub open spec fn rect_spec(format: PixelFormat, rect: Rect, data: Seq<u8>) -> Result<
    Seq<TileView>,
    Error,
> {
    match tile_rows_spec(CPixel::of(format), data, 0, rect, 0) {
        Ok((tiles, end)) => if end == data.len() {
            Ok(tiles)
        } else {
            Err(Error::Unexpected("leftover ZRLE byte data"))
        },
        Err(e) => Err(e),
    }
}

/// Putting tiles in front of a result twice is putting both in front once.
proof fn lemma_prepend_tiles_twice(a: Seq<TileView>, b: Seq<TileView>, rest: DecodedTiles)
    ensures
        prepend_tiles(a, prepend_tiles(b, rest)) == prepend_tiles(a + b, rest),
{
    if let Ok((tiles, next)) = rest {
        assert(a + (b + tiles) == (a + b) + tiles);
    }
}

/// Decodes one row of tiles of `rect`, the row that starts `y` pixels below
/// its top, and appends the tiles to `tiles`.
#[verifier::rlimit(40)]
fn decode_tile_row(
    reader: &mut BitReader,
    layout: &CPixel,
    rect: Rect,
    y: u16,
    tiles: &mut Vec<Tile>,
) -> (res: Result<(), Error>)
    requires
        old(reader).wf(),
        old(reader).cursor().aligned(),
        layout.wf(),
        rect.wf(),
        y < rect.height,
    ensures
        final(reader).wf(),
        final(reader).data() == old(reader).data(),
        match tile_row_spec(
            *layout,
            old(reader).data(),
            old(reader).cursor().offset,
            rect,
            y as int,
            0,
        ) {
            Ok((decoded, next)) => res is Ok && tiles_view(final(tiles)@) == tiles_view(
                old(tiles)@,
            ) + decoded && final(reader).cursor() == BitCursor::at(next),
            Err(e) => res == Err::<(), Error>(e),
        },
{
    let ghost data = reader.data();
    let ghost start = reader.cursor().offset;
    let ghost before = tiles_view(tiles@);
    let ghost mut acc: Seq<TileView> = Seq::empty();
    let height: u16 = if rect.height - y < 64 {
        rect.height - y
    } else {
        64
    };
    let mut x: u16 = 0;
    proof {
        assert(before + acc == before);
    }
    while x < rect.width
        invariant
            reader.wf(),
            reader.data() == data,
            data == old(reader).data(),
            start == old(reader).cursor().offset,
            before == tiles_view(old(tiles)@),
            layout.wf(),
            rect.wf(),
            y < rect.height,
            height == tile_extent(rect.height as int, y as int),
            reader.cursor().aligned(),
            x <= rect.width,
            tiles_view(tiles@) == before + acc,
            tile_row_spec(*layout, data, start, rect, y as int, 0) == prepend_tiles(
                acc,
                tile_row_spec(*layout, data, reader.cursor().offset, rect, y as int, x as int),
            ),
        decreases rect.width - x,
    {
        let width: u16 = if rect.width - x < 64 {
            rect.width - x
        } else {
            64
        };
        let ghost at = reader.cursor().offset;
        let pixels = match decode_tile(reader, layout, width as usize, height as usize) {
            Ok(pixels) => pixels,
            Err(e) => { return Err(e); },
        };
        let tile = Tile {
            rect: Rect { left: rect.left + x, top: rect.top + y, width, height },
            pixels,
        };
        proof {
            let one = seq![tile@];
            let tail = tile_row_spec(
                *layout,
                data,
                reader.cursor().offset,
                rect,
                y as int,
                x + width,
            );
            assert(tile@.rect == tile_rect(rect, x as int, y as int));
            assert(tile_row_spec(*layout, data, at, rect, y as int, x as int) == prepend_tiles(
                one,
                tail,
            ));
            lemma_prepend_tiles_twice(acc, one, tail);
            assert(tiles_view(tiles@.push(tile)) == tiles_view(tiles@) + one);
            assert(before + (acc + one) == (before + acc) + one);
            acc = acc + one;
        }
        tiles.push(tile);
        x = x + width;
    }
    proof {
        assert(acc + Seq::<TileView>::empty() == acc);
    }
    Ok(())
}

/// Decodes the inflated bytes of one rectangle into its tiles: rows of
/// tiles from the top, each row from the left, every tile 64 pixels wide and
/// high but for those at the right and lower edges. Bytes left over behind
/// the last tile are an error.
#[verifier::rlimit(40)]
pub fn decode_rect(format: &PixelFormat, rect: Rect, data: &[u8]) -> (res: Result<Vec<Tile>, Error>)
    requires
        format.supported(),
        rect.wf(),
    ensures
        match rect_spec(*format, rect, data@) {
            Ok(tiles) => res is Ok && tiles_view(res->Ok_0@) == tiles,
            Err(e) => res == Err::<Vec<Tile>, Error>(e),
        },
        res is Ok ==> forall|i: int|
            0 <= i < res->Ok_0@.len() ==> tile_of(
                rect,
                format.bytes_per_pixel(),
                (#[trigger] res->Ok_0@[i])@,
            ),
        res is Ok ==> res->Ok_0@.len() == tiles_across(rect.width as int) * tiles_across(
            rect.height as int,
        ),
        res is Ok ==> forall|i: int, j: int|
            0 <= i < tiles_across(rect.width as int) && 0 <= j < tiles_across(rect.height as int)
                ==> 0 <= #[trigger] grid_index(tiles_across(rect.width as int), i, j)
                < res->Ok_0@.len() && res->Ok_0@[grid_index(
                tiles_across(rect.width as int),
                i,
                j,
            )].rect == tile_rect(rect, 64 * i, 64 * j),
{
    proof {
        lemma_rect_grid(*format, rect, data@);
        if let Ok(tiles) = rect_spec(*format, rect, data@) {
            assert forall|found: Seq<Tile>, k: int|
                tiles_view(found) == tiles && 0 <= k < found.len() implies (
            #[trigger] found[k]).rect == tiles[k].rect by {
                assert(tiles_view(found)[k] == found[k]@);
            }
        }
        lemma_rect_tiles_sized(*format, rect, data@);
        if let Ok(tiles) = rect_spec(*format, rect, data@) {
            assert forall|found: Seq<Tile>, i: int|
                tiles_view(found) == tiles && 0 <= i < found.len() implies tile_of(
                rect,
                format.bytes_per_pixel(),
                (#[trigger] found[i])@,
            ) by {
                assert(tiles_view(found)[i] == found[i]@);
            }
        }
    }
    let layout = CPixel::for_format(format);
    let mut reader = BitReader::new(data);
    let mut tiles: Vec<Tile> = Vec::new();
    let ghost mut acc: Seq<TileView> = Seq::empty();
    let mut y: u16 = 0;
    proof {
        assert(tiles_view(tiles@) == acc);
    }
    while y < rect.height
        invariant
            reader.wf(),
            reader.data() == data@,
            layout.wf(),
            layout == CPixel::of(*format),
            rect.wf(),
            reader.cursor().aligned(),
            y <= rect.height,
            tiles_view(tiles@) == acc,
            tile_rows_spec(layout, data@, 0, rect, 0) == prepend_tiles(
                acc,
                tile_rows_spec(layout, data@, reader.cursor().offset, rect, y as int),
            ),
        decreases rect.height - y,
    {
        let height: u16 = if rect.height - y < 64 {
            rect.height - y
        } else {
            64
        };
        let ghost at = reader.cursor().offset;
        match decode_tile_row(&mut reader, &layout, rect, y, &mut tiles) {
            Ok(()) => {},
            Err(e) => { return Err(e); },
        }
        proof {
            let row = tile_row_spec(layout, data@, at, rect, y as int, 0)->Ok_0.0;
            let tail = tile_rows_spec(layout, data@, reader.cursor().offset, rect, y + height);
            lemma_prepend_tiles_twice(acc, row, tail);
            acc = acc + row;
        }
        y = y + height;
    }
    proof {
        assert(acc + Seq::<TileView>::empty() == acc);
        reader.lemma_cursor_valid();
    }
    match reader.into_inner() {
        Ok(rest) => {
            if rest.len() == 0 {
                Ok(tiles)
            } else {
                Err(Error::Unexpected("leftover ZRLE byte data"))
            }
        },
        Err(e) => Err(e),
    }
}

/// Room that one call of the inflater is given.
pub const INFLATE_CHUNK: usize = 16384;

/// What one read of inflated bytes gives: the number of bytes to take, or
/// an error; the bytes that the inflater wrote; the inflater afterwards; and
/// the compressed bytes that it has left.
pub struct ReadOutcome {
    pub result: Result<nat, Error>,
    pub written: Seq<u8>,
    pub stream: flate2::Decompress,
    pub pending: Seq<u8>,
}

/// What one read does when an inflater in the state `stream` has the
/// compressed bytes `pending` before it and `room` bytes of room.
///
/// If a counter of the inflater could overflow, the read fails and calls
/// nothing. Otherwise the inflater is run once on all the pending bytes, and
/// the bytes that it took are dropped from them. Progress gives the number
/// of bytes written; a stall gives zero; a corrupt stream and the end of the
/// stream are errors.
pub open spec fn read_spec(stream: flate2::Decompress, pending: Seq<u8>, room: nat) -> ReadOutcome {
    if consumed_total(stream) + pending.len() > u64::MAX || produced_total(stream) + room
        > u64::MAX {
        ReadOutcome {
            result: Err(Error::Io(IoError::InvalidData("ZRLE stream too long"))),
            written: Seq::empty(),
            stream,
            pending,
        }
    } else {
        let step = inflate_step(stream, pending, room);
        ReadOutcome {
            result: match step.status {
                InflateStatus::Progress => Ok(step.written.len()),
                InflateStatus::Stalled => Ok(0nat),
                InflateStatus::Corrupt => Err(
                    Error::Io(IoError::InvalidData("ZRLE stream corrupt")),
                ),
                InflateStatus::StreamEnd => Err(Error::Io(IoError::InvalidData("ZRLE stream end"))),
            },
            written: step.written,
            stream: step.next,
            pending: pending.skip(consumed_total(step.next) - consumed_total(stream)),
        }
    }
}

/// What reading to the end gives: all the bytes that came out, or an error;
/// the inflater afterwards; and the compressed bytes that it has left.
pub struct ReadAllOutcome {
    pub result: Result<Seq<u8>, Error>,
    pub stream: flate2::Decompress,
    pub pending: Seq<u8>,
}

/// What reading to the end does after `data` has come out already: reads
/// of [`INFLATE_CHUNK`] bytes of room follow each other, each adding the
/// bytes that it gives, until more than `limit` bytes are out, a read gives
/// nothing or a read fails. An inflater whose output counter stands still
/// has given nothing.
pub open spec fn read_all_spec(
    stream: flate2::Decompress,
    pending: Seq<u8>,
    limit: u64,
    data: Seq<u8>,
) -> ReadAllOutcome
    decreases u64::MAX - produced_total(stream),
{
    if data.len() > limit {
        ReadAllOutcome { result: Ok(data), stream, pending }
    } else {
        let read = read_spec(stream, pending, INFLATE_CHUNK as nat);
        match read.result {
            Ok(count) => if count == 0 || produced_total(read.stream) <= produced_total(stream) {
                ReadAllOutcome { result: Ok(data), stream: read.stream, pending: read.pending }
            } else {
                read_all_spec(
                    read.stream,
                    read.pending,
                    limit,
                    data + read.written.subrange(0, count as int),
                )
            },
            Err(e) => ReadAllOutcome { result: Err(e), stream: read.stream, pending: read.pending },
        }
    }
}

/// A reader of inflated bytes: an inflater and the compressed bytes that it
/// has not taken yet.
pub struct ZlibReader<'a> {
    decompressor: flate2::Decompress,
    input: &'a [u8],
}

impl<'a> ZlibReader<'a> {
    /// The inflater.
    pub closed spec fn stream(&self) -> flate2::Decompress {
        self.decompressor
    }

    /// The compressed bytes not taken yet.
    pub closed spec fn pending(&self) -> Seq<u8> {
        self.input@
    }

    /// A reader that will feed `input` to `decompressor`.
    pub fn new(decompressor: flate2::Decompress, input: &'a [u8]) -> (reader: ZlibReader<'a>)
        ensures
            reader.stream() == decompressor,
            reader.pending() == input@,
    {
        ZlibReader { decompressor, input }
    }

    /// Gives the inflater back, provided that it took all the input.
    pub fn into_inner(self) -> (res: Result<flate2::Decompress, Error>)
        ensures
            self.pending().len() == 0 ==> res == Ok::<flate2::Decompress, Error>(self.stream()),
            self.pending().len() != 0 ==> res == Err::<flate2::Decompress, Error>(
                Error::Unexpected("leftover ZRLE byte data"),
            ),
    {
        if self.input.len() == 0 {
            Ok(self.decompressor)
        } else {
            Err(Error::Unexpected("leftover ZRLE byte data"))
        }
    }

    /// Runs the inflater once, into the whole of `output`, and gives the
    /// number of bytes that now stand at its front: see [`read_spec`].
    pub fn read(&mut self, output: &mut Vec<u8>) -> (res: Result<usize, Error>)
        ensures
            final(self).stream() == read_spec(
                old(self).stream(),
                old(self).pending(),
                old(output)@.len(),
            ).stream,
            final(self).pending() == read_spec(
                old(self).stream(),
                old(self).pending(),
                old(output)@.len(),
            ).pending,
            match read_spec(old(self).stream(), old(self).pending(), old(output)@.len()).result {
                Ok(count) => res == Ok::<usize, Error>(count as usize) && count <= old(output)@.len() && final(output)@.subrange(0, count as int) == read_spec(
                    old(self).stream(),
                    old(self).pending(),
                    old(output)@.len(),
                ).written.subrange(0, count as int),
                Err(e) => res == Err::<usize, Error>(e),
            },
            final(output)@.len() == old(output)@.len(),
            res is Err && res->Err_0 == Error::Io(IoError::InvalidData("ZRLE stream too long"))
                ==> *final(output) == *old(output),
            final(self).pending().len() <= old(self).pending().len(),
            produced_total(final(self).stream()) >= produced_total(old(self).stream()),
            res is Ok && res->Ok_0 > 0 ==> produced_total(final(self).stream()) > produced_total(
                old(self).stream(),
            ),
            consumed_total(final(self).stream()) + final(self).pending().len() == consumed_total(
                old(self).stream(),
            ) + old(self).pending().len(),
    {
        let in_before = self.decompressor.total_in();
        let out_before = self.decompressor.total_out();
        if in_before > u64::MAX - self.input.len() as u64 || out_before > u64::MAX
            - output.len() as u64 {
            return Err(Error::Io(IoError::InvalidData("ZRLE stream too long")));
        }
        let ghost step = inflate_step(self.decompressor, self.input@, output@.len());
        let status = inflate_into(&mut self.decompressor, self.input, output);
        let consumed = (self.decompressor.total_in() - in_before) as usize;
        let produced = (self.decompressor.total_out() - out_before) as usize;
        self.input = slice_subrange(self.input, consumed, self.input.len());
        proof {
            assert(output@.subrange(0, 0) =~= step.written.subrange(0, 0));
            assert(step.written.subrange(0, step.written.len() as int) =~= step.written);
        }
        match status {
            InflateStatus::Progress => Ok(produced),
            InflateStatus::Stalled => Ok(0),
            InflateStatus::Corrupt => Err(Error::Io(IoError::InvalidData("ZRLE stream corrupt"))),
            InflateStatus::StreamEnd => Err(Error::Io(IoError::InvalidData("ZRLE stream end"))),
        }
    }

    /// Runs the inflater until a read gives nothing more, or until more than
    /// `limit` bytes have come out, and gives all the bytes that came out:
    /// see [`read_all_spec`].
    pub fn read_to_end(&mut self, limit: u64) -> (res: Result<Vec<u8>, Error>)
        ensures
            final(self).stream() == read_all_spec(
                old(self).stream(),
                old(self).pending(),
                limit,
                Seq::empty(),
            ).stream,
            final(self).pending() == read_all_spec(
                old(self).stream(),
                old(self).pending(),
                limit,
                Seq::empty(),
            ).pending,
            match read_all_spec(old(self).stream(), old(self).pending(), limit, Seq::empty()).result {
                Ok(data) => res is Ok && res->Ok_0@ == data,
                Err(e) => res == Err::<Vec<u8>, Error>(e),
            },
            consumed_total(final(self).stream()) + final(self).pending().len() == consumed_total(
                old(self).stream(),
            ) + old(self).pending().len(),
    {
        let mut data: Vec<u8> = Vec::new();
        let mut chunk: Vec<u8> = vec![0u8; INFLATE_CHUNK];
        let mut done = false;
        let ghost whole = read_all_spec(self.stream(), self.pending(), limit, Seq::empty());
        while !done && data.len() as u64 <= limit
            invariant
                chunk@.len() == INFLATE_CHUNK,
                whole == read_all_spec(
                    old(self).stream(),
                    old(self).pending(),
                    limit,
                    Seq::empty(),
                ),
                !done ==> whole == read_all_spec(self.stream(), self.pending(), limit, data@),
                done ==> whole == (ReadAllOutcome {
                    result: Ok(data@),
                    stream: self.stream(),
                    pending: self.pending(),
                }),
                consumed_total(self.stream()) + self.pending().len() == consumed_total(
                    old(self).stream(),
                ) + old(self).pending().len(),
            decreases u64::MAX - produced_total(self.stream()) + (if done { 0int } else { 1int }),
        {
            let ghost read = read_spec(self.stream(), self.pending(), INFLATE_CHUNK as nat);
            let ghost before = data@;
            let count = match self.read(&mut chunk) {
                Ok(count) => count,
                Err(e) => { return Err(e); },
            };
            if count == 0 {
                done = true;
            } else {
                data.extend_from_slice(slice_subrange(chunk.as_slice(), 0, count));
                assert(data@ =~= before + read.written.subrange(0, count as int));
            }
        }
        Ok(data)
    }
}

/// What decoding a rectangle gives: its tiles or an error, and the inflater
/// afterwards.
pub struct DecodeOutcome {
    pub result: Result<Seq<TileView>, Error>,
    pub stream: flate2::Decompress,
}

/// What decoding the rectangle `rect` from the compressed bytes `input` does
/// with an inflater in the state `stream`.
///
/// The input is inflated to its end, but for no more bytes than the tiles of
/// the rectangle could take. What comes out must hold the tiles of the
/// rectangle and nothing else, as [`rect_spec`] reads them, and the inflater
/// must have taken all of the input.
pub open spec fn decode_spec(
    stream: flate2::Decompress,
    format: PixelFormat,
    rect: Rect,
    input: Seq<u8>,
) -> DecodeOutcome {
    let read = read_all_spec(
        stream,
        input,
        max_rect_bytes(CPixel::of(format), rect) as u64,
        Seq::empty(),
    );
    DecodeOutcome {
        result: match read.result {
            Ok(data) => match rect_spec(format, rect, data) {
                Ok(tiles) => if read.pending.len() == 0 {
                    Ok(tiles)
                } else {
                    Err(Error::Unexpected("leftover ZRLE byte data"))
                },
                Err(e) => Err(e),
            },
            Err(e) => Err(e),
        },
        stream: read.stream,
    }
}

/// The decoder of a session's ZRLE rectangles. It owns the inflater, whose
/// state runs on from one rectangle to the next. After an error the decoder
/// is poisoned: the stream can no longer be trusted, and every further call
/// fails.
pub struct Decoder {
    decompressor: Option<flate2::Decompress>,
}

impl Decoder {
    /// The inflater, unless the decoder is poisoned.
    pub closed spec fn stream(&self) -> Option<flate2::Decompress> {
        self.decompressor
    }

    /// The decoder has its inflater: no call has failed yet.
    pub open spec fn ready(&self) -> bool {
        self.stream() is Some
    }

    /// Compressed bytes taken so far.
    pub open spec fn consumed(&self) -> int {
        consumed_total(self.stream()->Some_0) as int
    }

    /// A decoder at the start of a zlib stream.
    pub fn new() -> (decoder: Decoder)
        ensures
            decoder.ready(),
            decoder.consumed() == 0,
    {
        Decoder { decompressor: Some(flate2::Decompress::new(true)) }
    }

    /// Whether an earlier call has failed.
    pub fn is_poisoned(&self) -> (r: bool)
        ensures
            r == !self.ready(),
    {
        self.decompressor.is_none()
    }

    /// Decodes one rectangle: inflates `input`, the rectangle's compressed
    /// bytes, as the next part of the session's stream, and reads the tiles
    /// of `rect` from what comes out: see [`decode_spec`].
    ///
    /// On success the inflater has taken every byte of `input`, and the
    /// tiles have taken every inflated byte. Any error poisons the decoder,
    /// and a poisoned decoder decodes nothing.
    #[verifier::rlimit(40)]
    pub fn decode(&mut self, format: PixelFormat, rect: Rect, input: &[u8]) -> (res: Result<
        Vec<Tile>,
        Error,
    >)
        requires
            format.supported(),
            rect.wf(),
        ensures
            match old(self).stream() {
                Some(stream) => match decode_spec(stream, format, rect, input@).result {
                    Ok(tiles) => res is Ok && tiles_view(res->Ok_0@) == tiles && final(self).stream() == Some(decode_spec(stream, format, rect, input@).stream),
                    Err(e) => res == Err::<Vec<Tile>, Error>(e) && final(self).stream() is None,
                },
                None => res == Err::<Vec<Tile>, Error>(Error::Unexpected("ZRLE decoder poisoned"))
                    && final(self).stream() is None,
            },
            match res {
                Ok(tiles) => final(self).consumed() == old(self).consumed() + input@.len()
                    && tiles@.len() == tiles_across(rect.width as int) * tiles_across(
                    rect.height as int,
                ) && (forall|i: int|
                    0 <= i < tiles@.len() ==> tile_of(
                        rect,
                        format.bytes_per_pixel(),
                        (#[trigger] tiles@[i])@,
                    )) && (forall|i: int, j: int|
                    0 <= i < tiles_across(rect.width as int) && 0 <= j < tiles_across(
                        rect.height as int,
                    ) ==> 0 <= #[trigger] grid_index(tiles_across(rect.width as int), i, j)
                        < tiles@.len() && tiles@[grid_index(
                        tiles_across(rect.width as int),
                        i,
                        j,
                    )].rect == tile_rect(rect, 64 * i, 64 * j)),
                Err(_) => true,
            },
    {
        let stream = match self.decompressor.take() {
            Some(stream) => stream,
            None => { return Err(Error::Unexpected("ZRLE decoder poisoned")); },
        };
        let layout = CPixel::for_format(&format);
        let mut reader = ZlibReader::new(stream, input);
        let data = match reader.read_to_end(rect_limit(&layout, rect)) {
            Ok(data) => data,
            Err(e) => { return Err(e); },
        };
        let tiles = match decode_rect(&format, rect, data.as_slice()) {
            Ok(tiles) => tiles,
            Err(e) => { return Err(e); },
        };
        let stream = match reader.into_inner() {
            Ok(stream) => stream,
            Err(e) => { return Err(e); },
        };
        self.decompressor = Some(stream);
        Ok(tiles)
    }
}

/// Whether a tile is one of `rect`: it lies inside the rectangle, is at
/// most 64 pixels wide and high, and has one pixel of `pixel_size` bytes for
/// each of its places.
pub open spec fn tile_of(rect: Rect, pixel_size: int, tile: TileView) -> bool {
    &&& rect.left <= tile.rect.left
    &&& rect.top <= tile.rect.top
    &&& tile.rect.left + tile.rect.width <= rect.left + rect.width
    &&& tile.rect.top + tile.rect.height <= rect.top + rect.height
    &&& 1 <= tile.rect.width <= 64
    &&& 1 <= tile.rect.height <= 64
    &&& tile.pixels.len() == tile.rect.width * tile.rect.height * pixel_size
}

/// Every tile of a row of tiles is a tile of the rectangle.
proof fn lemma_tile_row_sized(layout: CPixel, data: Seq<u8>, at: int, rect: Rect, y: int, x: int)
    requires
        layout.wf(),
        rect.wf(),
        0 <= y < rect.height,
        0 <= x,
    ensures
        match tile_row_spec(layout, data, at, rect, y, x) {
            Ok((tiles, _)) => forall|i: int|
                0 <= i < tiles.len() ==> tile_of(rect, layout.pixel_size as int, #[trigger] tiles[i]),
            Err(_) => true,
        },
    decreases rect.width - x,
{
    if x < rect.width {
        let width = tile_extent(rect.width as int, x);
        let height = tile_extent(rect.height as int, y);
        lemma_tile_len(layout, data, at, width, height);
        if let Ok((pixels, next)) = tile_spec(layout, data, at, width, height) {
            lemma_tile_row_sized(layout, data, next, rect, y, x + width);
            if let Ok((rest, _)) = tile_row_spec(layout, data, next, rect, y, x + width) {
                let first = TileView { rect: tile_rect(rect, x, y), pixels };
                let all = seq![first] + rest;
                assert(tile_of(rect, layout.pixel_size as int, first));
                assert forall|i: int| 0 <= i < all.len() implies tile_of(
                    rect,
                    layout.pixel_size as int,
                    #[trigger] all[i],
                ) by {
                    if i > 0 {
                        assert(all[i] == rest[i - 1]);
                    }
                }
            }
        }
    }
}

/// Every tile of the rows of tiles is a tile of the rectangle.
proof fn lemma_tile_rows_sized(layout: CPixel, data: Seq<u8>, at: int, rect: Rect, y: int)
    requires
        layout.wf(),
        rect.wf(),
        0 <= y,
    ensures
        match tile_rows_spec(layout, data, at, rect, y) {
            Ok((tiles, _)) => forall|i: int|
                0 <= i < tiles.len() ==> tile_of(rect, layout.pixel_size as int, #[trigger] tiles[i]),
            Err(_) => true,
        },
    decreases rect.height - y,
{
    if y < rect.height {
        lemma_tile_row_sized(layout, data, at, rect, y, 0);
        if let Ok((row, next)) = tile_row_spec(layout, data, at, rect, y, 0) {
            let below = y + tile_extent(rect.height as int, y);
            lemma_tile_rows_sized(layout, data, next, rect, below);
            if let Ok((rest, _)) = tile_rows_spec(layout, data, next, rect, below) {
                let all = row + rest;
                assert forall|i: int| 0 <= i < all.len() implies tile_of(
                    rect,
                    layout.pixel_size as int,
                    #[trigger] all[i],
                ) by {
                    if i < row.len() {
                        assert(all[i] == row[i]);
                    } else {
                        assert(all[i] == rest[i - row.len()]);
                    }
                }
            }
        }
    }
}

/// Whatever the inflated bytes hold, a rectangle that decodes gives tiles
/// of that rectangle only, and every tile has exactly the bytes of its
/// pixels: its width times its height times the size of a pixel.
pub proof fn lemma_rect_tiles_sized(format: PixelFormat, rect: Rect, data: Seq<u8>)
    requires
        format.supported(),
        rect.wf(),
    ensures
        match rect_spec(format, rect, data) {
            Ok(tiles) => forall|i: int|
                0 <= i < tiles.len() ==> tile_of(rect, format.bytes_per_pixel(), #[trigger] tiles[i]),
            Err(_) => true,
        },
{
    lemma_layout_wf(format);
    lemma_tile_rows_sized(CPixel::of(format), data, 0, rect, 0);
}

/// The layout that a supported pixel format calls for is a sound one, for
/// pixels of the format's size. No such pixel travels in more bytes than it
/// has.
pub proof fn lemma_layout_wf(format: PixelFormat)
    requires
        format.supported(),
    ensures
        CPixel::of(format).wf(),
        CPixel::of(format).pixel_size == format.bytes_per_pixel(),
        CPixel::of(format).size <= format.bytes_per_pixel(),
{
}

/// The bytes of pixel data that a list of tiles holds.
pub open spec fn total_bytes(tiles: Seq<TileView>) -> int
    decreases tiles.len(),
{
    if tiles.len() == 0 {
        0
    } else {
        tiles[0].pixels.len() + total_bytes(tiles.skip(1))
    }
}

/// Two lists of tiles, one after the other, hold what the two hold.
proof fn lemma_total_bytes_add(a: Seq<TileView>, b: Seq<TileView>)
    ensures
        total_bytes(a + b) == total_bytes(a) + total_bytes(b),
    decreases a.len(),
{
    if a.len() == 0 {
        assert(a + b =~= b);
    } else {
        assert((a + b).skip(1) =~= a.skip(1) + b);
        lemma_total_bytes_add(a.skip(1), b);
    }
}

/// What is left of a row of tiles holds every pixel of what is left of the
/// row.
proof fn lemma_tile_row_total(layout: CPixel, data: Seq<u8>, at: int, rect: Rect, y: int, x: int)
    requires
        layout.wf(),
        0 <= y < rect.height,
        0 <= x <= rect.width,
    ensures
        match tile_row_spec(layout, data, at, rect, y, x) {
            Ok((tiles, _)) => total_bytes(tiles) == (rect.width - x) * tile_extent(
                rect.height as int,
                y,
            ) * layout.pixel_size,
            Err(_) => true,
        },
    decreases rect.width - x,
{
    let height = tile_extent(rect.height as int, y);
    let size = layout.pixel_size as int;
    if x < rect.width {
        let width = tile_extent(rect.width as int, x);
        lemma_tile_len(layout, data, at, width, height);
        if let Ok((pixels, next)) = tile_spec(layout, data, at, width, height) {
            lemma_tile_row_total(layout, data, next, rect, y, x + width);
            if let Ok((rest, _)) = tile_row_spec(layout, data, next, rect, y, x + width) {
                let first = seq![TileView { rect: tile_rect(rect, x, y), pixels }];
                lemma_total_bytes_add(first, rest);
                assert(first.skip(1) =~= Seq::<TileView>::empty());
                assert(total_bytes(first.skip(1)) == 0);
                assert(first[0].pixels == pixels);
                assert(total_bytes(first) == pixels.len());
                let left = rect.width - x;
                assert(width * height * size + (left - width) * height * size == left * height
                    * size) by (nonlinear_arith);
            }
        }
    } else {
        assert((rect.width - x) * height * size == 0) by (nonlinear_arith)
            requires
                rect.width - x == 0,
        ;
    }
}

/// What is left of the rows of tiles holds every pixel of what is left of
/// the rectangle.
proof fn lemma_tile_rows_total(layout: CPixel, data: Seq<u8>, at: int, rect: Rect, y: int)
    requires
        layout.wf(),
        0 <= y <= rect.height,
    ensures
        match tile_rows_spec(layout, data, at, rect, y) {
            Ok((tiles, _)) => total_bytes(tiles) == rect.width * (rect.height - y)
                * layout.pixel_size,
            Err(_) => true,
        },
    decreases rect.height - y,
{
    let size = layout.pixel_size as int;
    if y < rect.height {
        let height = tile_extent(rect.height as int, y);
        lemma_tile_row_total(layout, data, at, rect, y, 0);
        if let Ok((row, next)) = tile_row_spec(layout, data, at, rect, y, 0) {
            lemma_tile_rows_total(layout, data, next, rect, y + height);
            if let Ok((rest, _)) = tile_rows_spec(layout, data, next, rect, y + height) {
                lemma_total_bytes_add(row, rest);
                let left = rect.height - y;
                assert((rect.width - 0) * height * size + rect.width * (left - height) * size
                    == rect.width * left * size) by (nonlinear_arith);
            }
        }
    } else {
        assert(rect.width * (rect.height - y) * size == 0) by (nonlinear_arith)
            requires
                rect.height - y == 0,
        ;
    }
}

/// Whatever the inflated bytes hold, the tiles of a rectangle that decodes
/// hold every pixel of the rectangle once: their pixel data adds up to the
/// rectangle's width times its height times the size of a pixel.
pub proof fn lemma_rect_covered(format: PixelFormat, rect: Rect, data: Seq<u8>)
    requires
        format.supported(),
    ensures
        match rect_spec(format, rect, data) {
            Ok(tiles) => total_bytes(tiles) == rect.width * rect.height * format.bytes_per_pixel(),
            Err(_) => true,
        },
{
    lemma_layout_wf(format);
    lemma_tile_rows_total(CPixel::of(format), data, 0, rect, 0);
}

/// Tiles that lie side by side along a side of `side` pixels.
pub open spec fn tiles_across(side: int) -> int {
    (side + 63) / 64
}

/// The most bytes that one tile of `area` pixels can take: its first byte,
/// the largest palette, and for every pixel its bytes and one more for the
/// length of a run.
pub open spec fn max_tile_bytes(layout: CPixel, area: int) -> int {
    1 + 127 * layout.size + area * (layout.size + 1)
}

/// The most bytes that the tiles of a rectangle can take.
pub open spec fn max_rect_bytes(layout: CPixel, rect: Rect) -> int {
    tiles_across(rect.width as int) * tiles_across(rect.height as int) * (1 + 127 * layout.size)
        + rect.width * rect.height * (layout.size + 1)
}

/// A run length takes no more bytes than one more than their sum.
proof fn lemma_run_sum_bytes(data: Seq<u8>, at: int)
    ensures
        match run_sum(data, at) {
            Ok((sum, next)) => next - at <= 1 + sum,
            Err(_) => true,
        },
    decreases data.len() - at,
{
    if 0 <= at < data.len() && data[at] == 255 {
        lemma_run_sum_bytes(data, at + 1);
    }
}

/// Plain runs take no more than the bytes of their pixels and one more byte
/// for each.
proof fn lemma_plain_rle_bounded(layout: CPixel, data: Seq<u8>, at: int, remaining: nat)
    requires
        layout.wf(),
        0 <= at,
    ensures
        match plain_rle_spec(layout, data, at, remaining) {
            Ok((_, next)) => next - at <= remaining * (layout.size + 1),
            Err(_) => true,
        },
    decreases remaining,
{
    if remaining > 0 && at + layout.size <= data.len() {
        lemma_run_sum_bounds(data, at + layout.size);
        lemma_run_sum_bytes(data, at + layout.size);
        if let Ok((run, next)) = run_length_spec(data, at + layout.size) {
            if 1 <= run <= remaining {
                let less = (remaining - run) as nat;
                lemma_plain_rle_bounded(layout, data, next, less);
                assert(layout.size + run + less * (layout.size + 1) <= remaining * (layout.size
                    + 1)) by (nonlinear_arith)
                    requires
                        less + run == remaining,
                        1 <= run,
                        0 <= layout.size,
                ;
            }
        }
    } else if remaining == 0 {
        assert(remaining * (layout.size + 1) == 0) by (nonlinear_arith)
            requires
                remaining == 0,
        ;
    }
}

/// Palette runs take no more than two bytes for each pixel.
proof fn lemma_palette_rle_bounded(
    palette: Seq<u8>,
    pixel_size: int,
    data: Seq<u8>,
    at: int,
    remaining: nat,
)
    ensures
        match palette_rle_spec(palette, pixel_size, data, at, remaining) {
            Ok((_, next)) => next - at <= 2 * remaining,
            Err(_) => true,
        },
    decreases remaining,
{
    if remaining > 0 && 0 <= at < data.len() {
        let index = data[at] % 128;
        let length = if data[at] >= 128 {
            run_length_spec(data, at + 1)
        } else {
            Ok((1int, at + 1))
        };
        lemma_run_sum_bounds(data, at + 1);
        lemma_run_sum_bytes(data, at + 1);
        if let Ok((run, next)) = length {
            if has_entry(palette, pixel_size, index as int) && 1 <= run <= remaining {
                lemma_palette_rle_bounded(palette, pixel_size, data, next, (remaining - run) as nat);
            }
        }
    }
}

/// Packed rows take as many bytes as there are rows times the bytes of a
/// row.
proof fn lemma_packed_rows_bounded(
    palette: Seq<u8>,
    pixel_size: int,
    bits: int,
    data: Seq<u8>,
    at: int,
    width: int,
    rows: nat,
)
    ensures
        match packed_rows_spec(palette, pixel_size, bits, data, at, width, rows) {
            Ok((_, next)) => next - at == rows * packed_stride(width, bits),
            Err(_) => true,
        },
    decreases rows,
{
    let stride = packed_stride(width, bits);
    if rows > 0 {
        let less = (rows - 1) as nat;
        lemma_packed_rows_bounded(palette, pixel_size, bits, data, at + stride, width, less);
        assert(stride + less * stride == rows * stride) by (nonlinear_arith)
            requires
                less + 1 == rows,
        ;
    } else {
        assert(rows * stride == 0) by (nonlinear_arith)
            requires
                rows == 0,
        ;
    }
}

/// No tile takes more bytes than [`max_tile_bytes`] allows.
#[verifier::rlimit(40)]
pub proof fn lemma_tile_bounded(layout: CPixel, data: Seq<u8>, at: int, width: int, height: int)
    requires
        layout.wf(),
        1 <= width,
        0 <= height,
    ensures
        match tile_spec(layout, data, at, width, height) {
            Ok((_, next)) => next - at <= max_tile_bytes(layout, width * height),
            Err(_) => true,
        },
{
    if 0 <= at < data.len() {
        let rle = data[at] >= 128;
        let palette_size = (data[at] % 128) as int;
        let size = layout.size as int;
        let body = at + 1 + palette_size * size;
        assert(0 <= width * height && height <= width * height) by (nonlinear_arith)
            requires
                1 <= width,
                0 <= height,
        ;
        let area = (width * height) as nat;
        assert(0 <= palette_size * size <= 127 * size && 0 <= area * size) by (nonlinear_arith)
            requires
                0 <= palette_size <= 127,
                0 <= size,
                0 <= area,
        ;
        assert(area * (size + 1) == area * size + area) by (nonlinear_arith);
        if body <= data.len() {
            let palette = layout.pixels_at(data, at + 1, palette_size as nat);
            if !rle && palette_size == 0 {
            } else if !rle && palette_size == 1 {
            } else if !rle && palette_size <= 16 {
                let bits = index_bits(palette_size);
                lemma_packed_rows_bounded(
                    palette,
                    layout.pixel_size as int,
                    bits,
                    data,
                    body,
                    width,
                    height as nat,
                );
                let stride = packed_stride(width, bits);
                assert(width * bits <= width * 4) by (nonlinear_arith)
                    requires
                        bits <= 4,
                        0 <= width,
                ;
                assert(stride <= width);
                assert(height * stride <= width * height) by (nonlinear_arith)
                    requires
                        0 <= stride <= width,
                        0 <= height,
                ;
            } else if rle && palette_size == 0 {
                lemma_plain_rle_bounded(layout, data, body, area);
            } else if rle && palette_size >= 2 {
                lemma_palette_rle_bounded(palette, layout.pixel_size as int, data, body, area);
                assert(2 * area <= area * (size + 1)) by (nonlinear_arith)
                    requires
                        1 <= size,
                        0 <= area,
                ;
            }
        }
    }
}

/// What is left of a row of tiles takes no more bytes than its tiles may.
proof fn lemma_tile_row_bounded(layout: CPixel, data: Seq<u8>, at: int, rect: Rect, y: int, x: int)
    requires
        layout.wf(),
        0 <= y < rect.height,
        0 <= x <= rect.width,
    ensures
        match tile_row_spec(layout, data, at, rect, y, x) {
            Ok((_, next)) => next - at <= tiles_across(rect.width - x) * (1 + 127 * layout.size)
                + (rect.width - x) * tile_extent(rect.height as int, y) * (layout.size + 1),
            Err(_) => true,
        },
    decreases rect.width - x,
{
    let height = tile_extent(rect.height as int, y);
    let size = layout.size as int;
    let left = rect.width - x;
    if x < rect.width {
        let width = tile_extent(rect.width as int, x);
        lemma_tile_bounded(layout, data, at, width, height);
        if let Ok((_, next)) = tile_spec(layout, data, at, width, height) {
            lemma_tile_row_bounded(layout, data, next, rect, y, x + width);
            assert(tiles_across(left) == 1 + tiles_across(left - width));
            assert((1 + tiles_across(left - width)) * (1 + 127 * size) == (1 + 127 * size)
                + tiles_across(left - width) * (1 + 127 * size)) by (nonlinear_arith);
            assert(width * height * (size + 1) + (left - width) * height * (size + 1) == left
                * height * (size + 1)) by (nonlinear_arith);
        }
    } else {
        assert(tiles_across(left) == 0);
        assert(tiles_across(left) * (1 + 127 * size) + left * height * (size + 1) == 0)
            by (nonlinear_arith)
            requires
                left == 0,
                tiles_across(left) == 0,
        ;
    }
}

/// What is left of the rows of tiles takes no more bytes than its tiles
/// may.
proof fn lemma_tile_rows_bounded(layout: CPixel, data: Seq<u8>, at: int, rect: Rect, y: int)
    requires
        layout.wf(),
        0 <= y <= rect.height,
    ensures
        match tile_rows_spec(layout, data, at, rect, y) {
            Ok((_, next)) => next - at <= tiles_across(rect.width as int) * tiles_across(
                rect.height - y,
            ) * (1 + 127 * layout.size) + rect.width * (rect.height - y) * (layout.size + 1),
            Err(_) => true,
        },
    decreases rect.height - y,
{
    let size = layout.size as int;
    let left = rect.height - y;
    let across = tiles_across(rect.width as int);
    if y < rect.height {
        let height = tile_extent(rect.height as int, y);
        lemma_tile_row_bounded(layout, data, at, rect, y, 0);
        if let Ok((_, next)) = tile_row_spec(layout, data, at, rect, y, 0) {
            lemma_tile_rows_bounded(layout, data, next, rect, y + height);
            assert(tiles_across(left) == 1 + tiles_across(left - height));
            assert(across * (1 + tiles_across(left - height)) * (1 + 127 * size) == across * (1
                + 127 * size) + across * tiles_across(left - height) * (1 + 127 * size))
                by (nonlinear_arith);
            assert((rect.width - 0) * height * (size + 1) + rect.width * (left - height) * (size
                + 1) == rect.width * left * (size + 1)) by (nonlinear_arith);
        }
    } else {
        assert(tiles_across(left) == 0);
        assert(across * tiles_across(left) * (1 + 127 * size) + rect.width * left * (size + 1)
            == 0) by (nonlinear_arith)
            requires
                left == 0,
                tiles_across(left) == 0,
        ;
    }
}

/// Inflated bytes that hold the tiles of a rectangle are no more than
/// [`max_rect_bytes`] allows: a decoder that stops inflating beyond that
/// bound turns no rectangle away that it could have decoded.
pub proof fn lemma_rect_bounded(format: PixelFormat, rect: Rect, data: Seq<u8>)
    requires
        format.supported(),
    ensures
        rect_spec(format, rect, data) is Ok ==> data.len() <= max_rect_bytes(
            CPixel::of(format),
            rect,
        ),
{
    lemma_layout_wf(format);
    lemma_tile_rows_bounded(CPixel::of(format), data, 0, rect, 0);
}

/// The most bytes that the tiles of a rectangle can take.
pub fn rect_limit(layout: &CPixel, rect: Rect) -> (limit: u64)
    requires
        layout.wf(),
    ensures
        limit == max_rect_bytes(*layout, rect),
{
    let across: u64 = (rect.width as u64 + 63) / 64;
    let down: u64 = (rect.height as u64 + 63) / 64;
    let size: u64 = layout.size as u64;
    let width = rect.width as u64;
    let height = rect.height as u64;
    assert(across * down <= 1024 * 1024 && across * down * (1 + 127 * size) <= 1024 * 1024 * 509
        && width * height <= 0xffff * 0xffff && width * height * (size + 1) <= 0xffff * 0xffff
        * 5) by (nonlinear_arith)
        requires
            across <= 1024,
            down <= 1024,
            size <= 4,
            width <= 0xffff,
            height <= 0xffff,
    ;
    across * down * (1 + 127 * size) + width * height * (size + 1)
}

/// Where tile `column` of row `row` of a grid of tiles stands in the list of
/// the grid's tiles, which goes row by row.
pub open spec fn grid_index(columns: int, column: int, row: int) -> int {
    row * columns + column
}

/// The tiles of a row of tiles from tile `column` on are the tiles of the
/// grid, one for each column left.
proof fn lemma_tile_row_grid(
    layout: CPixel,
    data: Seq<u8>,
    at: int,
    rect: Rect,
    y: int,
    column: int,
)
    requires
        0 <= column <= tiles_across(rect.width as int),
    ensures
        match tile_row_spec(layout, data, at, rect, y, 64 * column) {
            Ok((tiles, _)) => tiles.len() == tiles_across(rect.width as int) - column && forall|
                i: int,
            |
                0 <= i < tiles.len() ==> (#[trigger] tiles[i]).rect == tile_rect(
                    rect,
                    64 * (column + i),
                    y,
                ),
            Err(_) => true,
        },
    decreases tiles_across(rect.width as int) - column,
{
    let x = 64 * column;
    if x < rect.width {
        let width = tile_extent(rect.width as int, x);
        let height = tile_extent(rect.height as int, y);
        if let Ok((pixels, next)) = tile_spec(layout, data, at, width, height) {
            let first = TileView { rect: tile_rect(rect, x, y), pixels };
            if width == 64 {
                lemma_tile_row_grid(layout, data, next, rect, y, column + 1);
            }
            if let Ok((rest, _)) = tile_row_spec(layout, data, next, rect, y, x + width) {
                let all = seq![first] + rest;
                assert forall|i: int| 0 <= i < all.len() implies (#[trigger] all[i]).rect
                    == tile_rect(rect, 64 * (column + i), y) by {
                    if i > 0 {
                        assert(all[i] == rest[i - 1]);
                    }
                }
            }
        }
    }
}

/// The tiles of the rows of tiles from row `row` on are the tiles of the
/// grid, row by row.
proof fn lemma_tile_rows_grid(layout: CPixel, data: Seq<u8>, at: int, rect: Rect, row: int)
    requires
        0 <= row <= tiles_across(rect.height as int),
    ensures
        match tile_rows_spec(layout, data, at, rect, 64 * row) {
            Ok((tiles, _)) => tiles.len() == tiles_across(rect.width as int) * (tiles_across(
                rect.height as int,
            ) - row) && forall|i: int, j: int|
                0 <= i < tiles_across(rect.width as int) && 0 <= j < tiles_across(
                    rect.height as int,
                ) - row ==> 0 <= #[trigger] grid_index(tiles_across(rect.width as int), i, j) < tiles.len()
                    && tiles[grid_index(tiles_across(rect.width as int), i, j)].rect
                    == tile_rect(rect, 64 * i, 64 * (row + j)),
            Err(_) => true,
        },
    decreases tiles_across(rect.height as int) - row,
{
    let y = 64 * row;
    let columns = tiles_across(rect.width as int);
    let left = tiles_across(rect.height as int) - row;
    if y < rect.height {
        let height = tile_extent(rect.height as int, y);
        lemma_tile_row_grid(layout, data, at, rect, y, 0);
        if let Ok((first, next)) = tile_row_spec(layout, data, at, rect, y, 0) {
            if height == 64 {
                lemma_tile_rows_grid(layout, data, next, rect, row + 1);
            }
            if let Ok((rest, end)) = tile_rows_spec(layout, data, next, rect, y + height) {
                let all = first + rest;
                assert(tile_rows_spec(layout, data, at, rect, y) == Ok::<
                    (Seq<TileView>, int),
                    Error,
                >((all, end)));
                assert(first.len() == columns);
                assert(rest.len() == columns * (left - 1)) by {
                    if height != 64 {
                        assert(left == 1);
                        assert(columns * (left - 1) == 0) by (nonlinear_arith)
                            requires
                                left == 1,
                        ;
                    }
                }
                assert(columns + columns * (left - 1) == columns * left) by (nonlinear_arith);
                assert forall|i: int, j: int| 0 <= i < columns && 0 <= j < left implies 0
                    <= #[trigger] grid_index(columns, i, j) < all.len() && all[grid_index(
                    columns,
                    i,
                    j,
                )].rect == tile_rect(rect, 64 * i, 64 * (row + j)) by {
                    if j == 0 {
                        assert(grid_index(columns, i, j) == i) by (nonlinear_arith)
                            requires
                                j == 0,
                                grid_index(columns, i, j) == j * columns + i,
                        ;
                        assert(all[i] == first[i]);
                    } else {
                        assert(grid_index(columns, i, j) == columns + grid_index(columns, i, j - 1)
                            && 0 <= grid_index(columns, i, j - 1) && grid_index(columns, i, j - 1)
                            < columns * (left - 1)) by (nonlinear_arith)
                            requires
                                1 <= j < left,
                                0 <= i < columns,
                                grid_index(columns, i, j) == j * columns + i,
                                grid_index(columns, i, j - 1) == (j - 1) * columns + i,
                        ;
                        assert(all[grid_index(columns, i, j)] == rest[grid_index(
                            columns,
                            i,
                            j - 1,
                        )]);
                    }
                }
            }
        }
    } else {
        assert(left == 0);
        assert(columns * left == 0) by (nonlinear_arith)
            requires
                left == 0,
        ;
    }
}

/// Whatever the inflated bytes hold, the tiles of a rectangle that decodes
/// are the tiles of its grid, row by row from the top and in each row from
/// the left: there is one for each place of the grid, and the tile in
/// column `i` of row `j` stands 64 times `i` pixels right of and 64 times
/// `j` pixels below the rectangle's corner, and is 64 pixels wide and high
/// or as much as is left of the rectangle.
pub proof fn lemma_rect_grid(format: PixelFormat, rect: Rect, data: Seq<u8>)
    ensures
        match rect_spec(format, rect, data) {
            Ok(tiles) => tiles.len() == tiles_across(rect.width as int) * tiles_across(
                rect.height as int,
            ) && forall|i: int, j: int|
                0 <= i < tiles_across(rect.width as int) && 0 <= j < tiles_across(
                    rect.height as int,
                ) ==> 0 <= #[trigger] grid_index(tiles_across(rect.width as int), i, j) < tiles.len()
                    && tiles[grid_index(tiles_across(rect.width as int), i, j)].rect
                    == tile_rect(rect, 64 * i, 64 * j),
            Err(_) => true,
        },
{
    lemma_tile_rows_grid(CPixel::of(format), data, 0, rect, 0);
}

/// The palette index of the pixel in column `column` of a packed row that
/// starts at byte `row_at`: the indices follow each other from the top bit
/// of the row's first byte down.
pub open spec fn packed_index(data: Seq<u8>, row_at: int, bits: int, column: int) -> int {
    bit_field(data[row_at + (column * bits) / 8], (column * bits) % 8, bits) as int
}

/// A pixel of the front part of pixel data is that pixel of the whole, and
/// a pixel behind the front part is a pixel of the rest.
proof fn lemma_entry_of_parts(front: Seq<u8>, rest: Seq<u8>, pixel_size: int, count: int, index: int)
    requires
        0 <= pixel_size,
        0 <= count,
        0 <= index,
        front.len() == count * pixel_size,
        (index + 1 - count) * pixel_size <= rest.len(),
    ensures
        index < count ==> palette_entry(front + rest, pixel_size, index) == palette_entry(
            front,
            pixel_size,
            index,
        ),
        index >= count ==> palette_entry(front + rest, pixel_size, index) == palette_entry(
            rest,
            pixel_size,
            index - count,
        ),
{
    let from = index * pixel_size;
    let to = (index + 1) * pixel_size;
    assert(0 <= from <= to && to == from + pixel_size) by (nonlinear_arith)
        requires
            0 <= index,
            0 <= pixel_size,
            from == index * pixel_size,
            to == (index + 1) * pixel_size,
    ;
    if index < count {
        assert(to <= count * pixel_size) by (nonlinear_arith)
            requires
                index + 1 <= count,
                0 <= pixel_size,
                to == (index + 1) * pixel_size,
        ;
        assert((front + rest).subrange(from, to) =~= front.subrange(from, to));
    } else {
        let before = count * pixel_size;
        assert(from - before == (index - count) * pixel_size && to - before == (index - count + 1)
            * pixel_size && before <= from) by (nonlinear_arith)
            requires
                count <= index,
                0 <= pixel_size,
                from == index * pixel_size,
                to == (index + 1) * pixel_size,
                before == count * pixel_size,
        ;
        assert((front + rest).subrange(from, to) =~= rest.subrange(from - before, to - before));
    }
}

/// Every pixel of what is left of a packed row is the palette's entry for
/// the index that stands for it.
proof fn lemma_packed_row_pixels(
    palette: Seq<u8>,
    pixel_size: int,
    bits: int,
    data: Seq<u8>,
    row_at: int,
    width: int,
    from: int,
)
    requires
        0 <= pixel_size,
        0 <= from <= width,
    ensures
        match packed_row_spec(palette, pixel_size, bits, data, row_at, width, from) {
            Ok(pixels) => forall|column: int|
                from <= column < width ==> has_entry(
                    palette,
                    pixel_size,
                    #[trigger] packed_index(data, row_at, bits, column),
                ) && palette_entry(pixels, pixel_size, column - from) == palette_entry(
                    palette,
                    pixel_size,
                    packed_index(data, row_at, bits, column),
                ),
            Err(_) => true,
        },
    decreases width - from,
{
    if from < width {
        lemma_packed_row_pixels(palette, pixel_size, bits, data, row_at, width, from + 1);
        lemma_packed_row_len(palette, pixel_size, bits, data, row_at, width, from + 1);
        if let Ok(pixels) = packed_row_spec(palette, pixel_size, bits, data, row_at, width, from) {
            let index = packed_index(data, row_at, bits, from);
            let entry = palette_entry(palette, pixel_size, index);
            let rest = packed_row_spec(palette, pixel_size, bits, data, row_at, width, from + 1)->Ok_0;
            lemma_entry_len(palette, pixel_size, index);
            assert(pixels == entry + rest);
            assert(entry.len() == 1 * pixel_size);
            assert forall|column: int| from <= column < width implies has_entry(
                palette,
                pixel_size,
                #[trigger] packed_index(data, row_at, bits, column),
            ) && palette_entry(pixels, pixel_size, column - from) == palette_entry(
                palette,
                pixel_size,
                packed_index(data, row_at, bits, column),
            ) by {
                let k = column - from;
                assert((k + 1 - 1) * pixel_size <= (width - (from + 1)) * pixel_size)
                    by (nonlinear_arith)
                    requires
                        k + 1 - 1 <= width - (from + 1),
                        0 <= pixel_size,
                ;
                lemma_entry_of_parts(entry, rest, pixel_size, 1, k);
                if k == 0 {
                    assert(0 * pixel_size == 0 && (0 + 1) * pixel_size == pixel_size)
                        by (nonlinear_arith);
                    assert(palette_entry(entry, pixel_size, 0) =~= entry);
                }
            }
        }
    }
}

/// Every pixel of a packed tile is the palette's entry for the index that
/// stands for it: the pixel in column `c` of row `r` goes by the index at
/// column `c` of the row that starts `r` strides behind the first.
pub proof fn lemma_packed_rows_pixels(
    palette: Seq<u8>,
    pixel_size: int,
    bits: int,
    data: Seq<u8>,
    at: int,
    width: int,
    rows: nat,
)
    requires
        0 <= pixel_size,
        0 <= width,
    ensures
        match packed_rows_spec(palette, pixel_size, bits, data, at, width, rows) {
            Ok((pixels, next)) => next == at + rows * packed_stride(width, bits) && forall|
                r: int,
                c: int,
            |
                0 <= r < rows && 0 <= c < width ==> palette_entry(
                    pixels,
                    pixel_size,
                    #[trigger] grid_index(width, c, r),
                ) == palette_entry(
                    palette,
                    pixel_size,
                    packed_index(data, at + r * packed_stride(width, bits), bits, c),
                ),
            Err(_) => true,
        },
    decreases rows,
{
    let stride = packed_stride(width, bits);
    lemma_packed_rows_bounded(palette, pixel_size, bits, data, at, width, rows);
    if rows > 0 {
        let less = (rows - 1) as nat;
        lemma_packed_row_pixels(palette, pixel_size, bits, data, at, width, 0);
        lemma_packed_row_len(palette, pixel_size, bits, data, at, width, 0);
        lemma_packed_rows_pixels(palette, pixel_size, bits, data, at + stride, width, less);
        lemma_packed_rows_len(palette, pixel_size, bits, data, at + stride, width, less);
        if let Ok((pixels, _)) = packed_rows_spec(palette, pixel_size, bits, data, at, width, rows) {
            let row = packed_row_spec(palette, pixel_size, bits, data, at, width, 0)->Ok_0;
            let rest = packed_rows_spec(
                palette,
                pixel_size,
                bits,
                data,
                at + stride,
                width,
                less,
            )->Ok_0.0;
            assert(pixels == row + rest);
            assert forall|r: int, c: int| 0 <= r < rows && 0 <= c < width implies palette_entry(
                pixels,
                pixel_size,
                #[trigger] grid_index(width, c, r),
            ) == palette_entry(
                palette,
                pixel_size,
                packed_index(data, at + r * stride, bits, c),
            ) by {
                let k = grid_index(width, c, r);
                assert(0 <= k && k + 1 - width <= less * width && k - width == grid_index(
                    width,
                    c,
                    r - 1,
                ) && (r == 0 ==> k == c) && (r >= 1 ==> k >= width) && at + stride + (r - 1)
                    * stride == at + r * stride) by (nonlinear_arith)
                    requires
                        0 <= r <= less,
                        0 <= c < width,
                        k == r * width + c,
                        grid_index(width, c, r - 1) == (r - 1) * width + c,
                ;
                assert((k + 1 - width) * pixel_size <= less * width * pixel_size)
                    by (nonlinear_arith)
                    requires
                        k + 1 - width <= less * width,
                        0 <= pixel_size,
                ;
                lemma_entry_of_parts(row, rest, pixel_size, width, k);
                if r == 0 {
                    assert(packed_index(data, at, bits, c) == packed_index(
                        data,
                        at + r * stride,
                        bits,
                        c,
                    ));
                } else {
                    assert(palette_entry(rest, pixel_size, grid_index(width, c, r - 1))
                        == palette_entry(
                        palette,
                        pixel_size,
                        packed_index(data, at + stride + (r - 1) * stride, bits, c),
                    ));
                }
            }
        }
    }
}

/// What the size of a tile's palette asks for when the tile has no runs.
/// One colour fills the tile. From two to sixteen colours the tile is
/// packed: every row takes as many bytes as its indices need, of one bit for
/// two colours, two bits for up to four and four bits beyond, and every
/// pixel is the palette's entry for its index. More colours are refused, and
/// so is a tile of runs with a palette of one.
pub proof fn lemma_tile_by_palette_size(
    layout: CPixel,
    data: Seq<u8>,
    at: int,
    width: int,
    height: int,
)
    requires
        layout.wf(),
        0 <= at < data.len(),
        1 <= width,
        0 <= height,
        at + 1 + (data[at] % 128) * layout.size <= data.len(),
    ensures
        data[at] == 1 ==> tile_spec(layout, data, at, width, height) == Ok::<(Seq<u8>, int), Error>(
            (
                repeat(layout.pixels_at(data, at + 1, 1), (width * height) as nat),
                at + 1 + layout.size,
            ),
        ),
        2 <= data[at] <= 16 ==> match tile_spec(layout, data, at, width, height) {
            Ok((pixels, next)) => next == at + 1 + data[at] * layout.size + height * packed_stride(
                width,
                index_bits(data[at] as int),
            ) && forall|r: int, c: int|
                0 <= r < height && 0 <= c < width ==> palette_entry(
                    pixels,
                    layout.pixel_size as int,
                    #[trigger] grid_index(width, c, r),
                ) == palette_entry(
                    layout.pixels_at(data, at + 1, data[at] as nat),
                    layout.pixel_size as int,
                    packed_index(
                        data,
                        at + 1 + data[at] * layout.size + r * packed_stride(
                            width,
                            index_bits(data[at] as int),
                        ),
                        index_bits(data[at] as int),
                        c,
                    ),
                ),
            Err(_) => true,
        },
        17 <= data[at] <= 127 || data[at] == 129 ==> tile_spec(layout, data, at, width, height)
            == Err::<(Seq<u8>, int), Error>(Error::Unexpected("ZRLE subencoding")),
{
    let count = (data[at] % 128) as int;
    let palette = layout.pixels_at(data, at + 1, count as nat);
    let body = at + 1 + count * layout.size;
    if 2 <= data[at] <= 16 {
        lemma_packed_rows_pixels(
            palette,
            layout.pixel_size as int,
            index_bits(count),
            data,
            body,
            width,
            height as nat,
        );
    }
}

} // verus!
