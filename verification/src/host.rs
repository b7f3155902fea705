//! What a host that draws with SDL and takes its keys from it needs worked
//! out: which of its pixel formats goes with which of the protocol's, a
//! cursor with its mask laid into an alpha channel, the key symbols of its
//! key codes, and the decider's usual choice.

use crate::endian::{
    read_uint_be, read_uint_le, uint_limit, uint_value, write_uint_be, write_uint_le,
};
use crate::handshake::{AuthChoice, AuthMethod};
use crate::pixel_format::PixelFormat;
use crate::protocol::Encoding;
use vstd::prelude::*;
use vstd::slice::slice_subrange;
use vstd::std_specs::bits::{axiom_u32_trailing_zeros, u32_trailing_zeros};

verus! {

/// A pixel format of the host's, by SDL's name for it.
#[derive(Clone, Copy, Debug, PartialEq, Eq, Structural)]
pub enum SurfaceFormat {
    RGB332,
    RGB444,
    RGB555,
    BGR555,
    ARGB4444,
    ARGB1555,
    ABGR1555,
    RGB565,
    BGR565,
    RGB24,
    BGR24,
    RGB888,
    RGBX8888,
    BGR888,
    BGRX8888,
    ARGB8888,
    ABGR8888,
}

/// A little-endian true colour format with the given size and channels.
pub open spec fn true_colour(bits: u8, depth: u8, max: (u16, u16, u16), shift: (u8, u8, u8)) -> PixelFormat {
    PixelFormat {
        bits_per_pixel: bits,
        depth,
        big_endian: false,
        true_colour: true,
        red_max: max.0,
        green_max: max.1,
        blue_max: max.2,
        red_shift: shift.0,
        green_shift: shift.1,
        blue_shift: shift.2,
    }
}

/// The protocol's format that goes with one of the host's, for the five of
/// the host's formats that a session can be drawn in.
pub open spec fn protocol_format(surface: SurfaceFormat) -> Option<PixelFormat> {
    match surface {
        SurfaceFormat::RGB888 => Some(true_colour(32, 24, (255, 255, 255), (16, 8, 0))),
        SurfaceFormat::BGR888 => Some(true_colour(32, 24, (255, 255, 255), (0, 8, 16))),
        SurfaceFormat::RGB565 => Some(true_colour(16, 16, (31, 63, 31), (11, 5, 0))),
        SurfaceFormat::BGR565 => Some(true_colour(16, 16, (31, 63, 31), (0, 5, 11))),
        SurfaceFormat::RGB332 => Some(true_colour(8, 8, (7, 7, 3), (5, 2, 0))),
        _ => None,
    }
}

/// The host's format that goes with one of the protocol's, if there is one.
pub open spec fn surface_format(format: PixelFormat) -> Option<SurfaceFormat> {
    if format == true_colour(32, 24, (255, 255, 255), (16, 8, 0)) {
        Some(SurfaceFormat::RGB888)
    } else if format == true_colour(32, 24, (255, 255, 255), (0, 8, 16)) {
        Some(SurfaceFormat::BGR888)
    } else if format == true_colour(16, 16, (31, 63, 31), (11, 5, 0)) {
        Some(SurfaceFormat::RGB565)
    } else if format == true_colour(16, 16, (31, 63, 31), (0, 5, 11)) {
        Some(SurfaceFormat::BGR565)
    } else if format == true_colour(8, 8, (7, 7, 3), (5, 2, 0)) {
        Some(SurfaceFormat::RGB332)
    } else {
        None
    }
}

/// Every format of the table is a sound one that the decoders can work
/// with.
pub proof fn lemma_table_formats_sound(surface: SurfaceFormat)
    ensures
        protocol_format(surface) is Some ==> protocol_format(surface)->Some_0.wf()
            && protocol_format(surface)->Some_0.supported(),
{
    reveal_with_fuel(crate::pixel_format::channel_bits, 10);
}

/// The two ways between the host's formats and the protocol's undo each
/// other.
pub proof fn lemma_formats_correspond(surface: SurfaceFormat, format: PixelFormat)
    ensures
        protocol_format(surface) == Some(format) <==> surface_format(format) == Some(surface),
{
}

/// A little-endian true colour format with the given size and channels.
fn true_colour_format(bits: u8, depth: u8, max: (u16, u16, u16), shift: (u8, u8, u8)) -> (format:
    PixelFormat)
    ensures
        format == true_colour(bits, depth, max, shift),
{
    PixelFormat {
        bits_per_pixel: bits,
        depth,
        big_endian: false,
        true_colour: true,
        red_max: max.0,
        green_max: max.1,
        blue_max: max.2,
        red_shift: shift.0,
        green_shift: shift.1,
        blue_shift: shift.2,
    }
}

/// The protocol's format that goes with one of the host's.
pub fn pixel_format_sdl_to_vnc(sdl_format: SurfaceFormat) -> (format: Option<PixelFormat>)
    ensures
        format == protocol_format(sdl_format),
{
    match sdl_format {
        SurfaceFormat::RGB888 => Some(true_colour_format(32, 24, (255, 255, 255), (16, 8, 0))),
        SurfaceFormat::BGR888 => Some(true_colour_format(32, 24, (255, 255, 255), (0, 8, 16))),
        SurfaceFormat::RGB565 => Some(true_colour_format(16, 16, (31, 63, 31), (11, 5, 0))),
        SurfaceFormat::BGR565 => Some(true_colour_format(16, 16, (31, 63, 31), (0, 5, 11))),
        SurfaceFormat::RGB332 => Some(true_colour_format(8, 8, (7, 7, 3), (5, 2, 0))),
        _ => None,
    }
}

/// The host's format that goes with one of the protocol's, if there is one.
pub fn pixel_format_vnc_to_sdl(vnc_format: PixelFormat) -> (format: Option<SurfaceFormat>)
    ensures
        format == surface_format(vnc_format),
{
    if vnc_format == true_colour_format(32, 24, (255, 255, 255), (16, 8, 0)) {
        Some(SurfaceFormat::RGB888)
    } else if vnc_format == true_colour_format(32, 24, (255, 255, 255), (0, 8, 16)) {
        Some(SurfaceFormat::BGR888)
    } else if vnc_format == true_colour_format(16, 16, (31, 63, 31), (11, 5, 0)) {
        Some(SurfaceFormat::RGB565)
    } else if vnc_format == true_colour_format(16, 16, (31, 63, 31), (0, 5, 11)) {
        Some(SurfaceFormat::BGR565)
    } else if vnc_format == true_colour_format(8, 8, (7, 7, 3), (5, 2, 0)) {
        Some(SurfaceFormat::RGB332)
    } else {
        None
    }
}

/// The format with an alpha channel that a cursor in the given format is
/// drawn in, where there is one close enough.
pub open spec fn alpha_format_spec(surface: SurfaceFormat) -> Option<SurfaceFormat> {
    match surface {
        SurfaceFormat::RGB332 | SurfaceFormat::RGB444 => Some(SurfaceFormat::ARGB4444),
        SurfaceFormat::RGB555 | SurfaceFormat::RGB565 => Some(SurfaceFormat::ARGB1555),
        SurfaceFormat::BGR555 | SurfaceFormat::BGR565 => Some(SurfaceFormat::ABGR1555),
        SurfaceFormat::RGB24 | SurfaceFormat::RGB888 | SurfaceFormat::RGBX8888 => Some(
            SurfaceFormat::ARGB8888,
        ),
        SurfaceFormat::BGR24 | SurfaceFormat::BGR888 | SurfaceFormat::BGRX8888 => Some(
            SurfaceFormat::ABGR8888,
        ),
        _ => None,
    }
}

/// The format with an alpha channel that a cursor in the given format is
/// drawn in.
pub fn alpha_format(surface: SurfaceFormat) -> (format: Option<SurfaceFormat>)
    ensures
        format == alpha_format_spec(surface),
{
    match surface {
        SurfaceFormat::RGB332 | SurfaceFormat::RGB444 => Some(SurfaceFormat::ARGB4444),
        SurfaceFormat::RGB555 | SurfaceFormat::RGB565 => Some(SurfaceFormat::ARGB1555),
        SurfaceFormat::BGR555 | SurfaceFormat::BGR565 => Some(SurfaceFormat::ABGR1555),
        SurfaceFormat::RGB24 | SurfaceFormat::RGB888 | SurfaceFormat::RGBX8888 => Some(
            SurfaceFormat::ARGB8888,
        ),
        SurfaceFormat::BGR24 | SurfaceFormat::BGR888 | SurfaceFormat::BGRX8888 => Some(
            SurfaceFormat::ABGR8888,
        ),
        _ => None,
    }
}

/// Where the channels of a pixel sit: the size of a pixel in bytes, and for
/// each channel the bits that it occupies. A channel without bits is not
/// there.
#[derive(Clone, Copy, Debug, PartialEq, Eq, Structural)]
pub struct PixelMasks {
    pub size: usize,
    pub rmask: u32,
    pub gmask: u32,
    pub bmask: u32,
    pub amask: u32,
}

impl PixelMasks {
    /// A pixel is one to four bytes, and every channel lies inside it.
    pub open spec fn wf(self) -> bool {
        &&& 1 <= self.size <= 4
        &&& self.rmask < uint_limit(self.size as int)
        &&& self.gmask < uint_limit(self.size as int)
        &&& self.bmask < uint_limit(self.size as int)
        &&& self.amask < uint_limit(self.size as int)
    }
}

/// The low eight bits of a channel of a pixel, moved down to bit 0. A
/// channel that is not there reads as nothing.
pub open spec fn channel(pixel: u32, mask: u32) -> u8 {
    if mask == 0 {
        0
    } else {
        (((pixel & mask) >> u32_trailing_zeros(mask)) & 0xff) as u8
    }
}

/// A value moved up to its channel, and cut to it. Nothing is placed in a
/// channel that is not there.
pub open spec fn placed(value: u8, mask: u32) -> u32 {
    if mask == 0 {
        0
    } else {
        ((value as u32) << u32_trailing_zeros(mask)) & mask
    }
}

/// A pixel of a cursor moved into a format with an alpha channel: its three
/// colours go to their new places, and its alpha is full where the cursor's
/// mask is set and nothing elsewhere.
pub open spec fn with_alpha(pixel: u32, shown: bool, from: PixelMasks, to: PixelMasks) -> u32 {
    placed(channel(pixel, from.rmask), to.rmask) | placed(channel(pixel, from.gmask), to.gmask)
        | placed(channel(pixel, from.bmask), to.bmask) | placed(
        if shown {
            255u8
        } else {
            0u8
        },
        to.amask,
    )
}

/// The low eight bits of a channel of a pixel.
fn channel_of(pixel: u32, mask: u32) -> (value: u8)
    ensures
        value == channel(pixel, mask),
{
    if mask == 0 {
        return 0;
    }
    proof {
        axiom_u32_trailing_zeros(mask);
    }
    let shift = mask.trailing_zeros();
    let moved: u32 = ((pixel & mask) >> shift) & 0xff;
    assert(moved <= 0xff) by (bit_vector)
        requires
            moved == ((pixel & mask) >> shift) & 0xff,
    ;
    moved as u8
}

/// A value moved up to its channel.
fn place(value: u8, mask: u32) -> (bits: u32)
    ensures
        bits == placed(value, mask),
        bits <= mask,
{
    if mask == 0 {
        return 0;
    }
    proof {
        axiom_u32_trailing_zeros(mask);
    }
    let shift = mask.trailing_zeros();
    let wide = value as u32;
    let bits = (wide << shift) & mask;
    assert(bits <= mask) by (bit_vector)
        requires
            bits == (wide << shift) & mask,
    ;
    bits
}

/// The number of whole pixels of `size` bytes in `pixels`.
pub open spec fn pixel_count(pixels: Seq<u8>, size: usize) -> int {
    pixels.len() as int / size as int
}

/// The `index`-th pixel of `pixels`, as a number.
pub open spec fn pixel_value(pixels: Seq<u8>, index: int, size: int, big_endian: bool) -> nat {
    uint_value(pixels.subrange(index * size, (index + 1) * size), big_endian)
}

/// Lays a cursor's mask into an alpha channel: every whole pixel of
/// `in_pixels` is read as a number in the machine's byte order, moved into
/// the format of `out_masks` by [`with_alpha`], and written in the same byte
/// order. `mask_pixels` holds one byte for each pixel, zero where the cursor
/// is not to be seen.
#[verifier::rlimit(40)]
pub fn mask_cursor(
    in_masks: &PixelMasks,
    out_masks: &PixelMasks,
    in_pixels: &[u8],
    mask_pixels: &[u8],
    big_endian: bool,
) -> (out_pixels: Vec<u8>)
    requires
        in_masks.wf(),
        out_masks.wf(),
        pixel_count(in_pixels@, in_masks.size) <= mask_pixels@.len(),
    ensures
        out_pixels@.len() == (pixel_count(in_pixels@, in_masks.size)) * out_masks.size,
        forall|i: int|
            0 <= i < pixel_count(in_pixels@, in_masks.size) ==> #[trigger] pixel_value(
                out_pixels@,
                i,
                out_masks.size as int,
                big_endian,
            ) == with_alpha(
                pixel_value(in_pixels@, i, in_masks.size as int, big_endian) as u32,
                mask_pixels@[i] != 0,
                *in_masks,
                *out_masks,
            ),
{
    let count = in_pixels.len() / in_masks.size;
    let mut out_pixels: Vec<u8> = Vec::new();
    let mut i: usize = 0;
    while i < count
        invariant
            in_masks.wf(),
            out_masks.wf(),
            count == pixel_count(in_pixels@, in_masks.size),
            count <= mask_pixels@.len(),
            in_pixels@.len() <= usize::MAX,
            i <= count,
            out_pixels@.len() == i * out_masks.size,
            forall|k: int|
                0 <= k < i ==> #[trigger] pixel_value(
                    out_pixels@,
                    k,
                    out_masks.size as int,
                    big_endian,
                ) == with_alpha(
                    pixel_value(in_pixels@, k, in_masks.size as int, big_endian) as u32,
                    mask_pixels@[k] != 0,
                    *in_masks,
                    *out_masks,
                ),
        decreases count - i,
    {
        let ghost earlier = out_pixels@;
        proof {
            lemma_pixel_bounds(in_pixels@.len() as int, in_masks.size as int, i as int);
            assert((i + 1) * out_masks.size == i * out_masks.size + out_masks.size && 0 <= i
                * out_masks.size) by (nonlinear_arith);
        }
        let from = i * in_masks.size;
        let bytes = slice_subrange(in_pixels, from, from + in_masks.size);
        assert(bytes@.subrange(0, in_masks.size as int) =~= in_pixels@.subrange(
            i * in_masks.size,
            (i + 1) * in_masks.size,
        ));
        let packed: u64 = if big_endian {
            read_uint_be(bytes, in_masks.size)
        } else {
            read_uint_le(bytes, in_masks.size)
        };
        proof {
            lemma_value_bound(
                in_pixels@.subrange(i * in_masks.size, (i + 1) * in_masks.size),
                big_endian,
            );
        }
        assert(packed == pixel_value(in_pixels@, i as int, in_masks.size as int, big_endian));
        let pixel: u32 = packed as u32;
        let red = place(channel_of(pixel, in_masks.rmask), out_masks.rmask);
        let green = place(channel_of(pixel, in_masks.gmask), out_masks.gmask);
        let blue = place(channel_of(pixel, in_masks.bmask), out_masks.bmask);
        let alpha = place(if mask_pixels[i] != 0 { 255 } else { 0 }, out_masks.amask);
        let moved: u32 = red | green | blue | alpha;
        proof {
            let limit = uint_limit(out_masks.size as int) as u32;
            let (r, g, b, a) = (out_masks.rmask, out_masks.gmask, out_masks.bmask, out_masks.amask);
            if out_masks.size < 4 {
                assert(moved < limit) by (bit_vector)
                    requires
                        moved == red | green | blue | alpha,
                        red <= r,
                        green <= g,
                        blue <= b,
                        alpha <= a,
                        r < limit,
                        g < limit,
                        b < limit,
                        a < limit,
                        limit == 0x100 || limit == 0x1_0000 || limit == 0x100_0000,
                ;
            }
        }
        let buffer: [u8; 8] = if big_endian {
            write_uint_be(moved as u64, out_masks.size)
        } else {
            write_uint_le(moved as u64, out_masks.size)
        };
        out_pixels.extend_from_slice(slice_subrange(buffer.as_slice(), 0, out_masks.size));
        proof {
            let written = buffer@.subrange(0, out_masks.size as int);
            assert(out_pixels@ =~= earlier + written);
            assert(out_pixels@.subrange(0, earlier.len() as int) =~= earlier);
            assert(out_pixels@.subrange(earlier.len() as int, out_pixels@.len() as int)
                =~= written);
        }
        proof {
            let size = out_masks.size as int;
            assert forall|k: int| 0 <= k < i + 1 implies #[trigger] pixel_value(
                out_pixels@,
                k,
                size,
                big_endian,
            ) == with_alpha(
                pixel_value(in_pixels@, k, in_masks.size as int, big_endian) as u32,
                mask_pixels@[k] != 0,
                *in_masks,
                *out_masks,
            ) by {
                if k < i {
                    assert((k + 1) * size <= i * size && 0 <= k * size && k * size <= (k + 1)
                        * size) by (nonlinear_arith)
                        requires
                            0 <= k < i,
                            size >= 1,
                    ;
                    lemma_prefix_subrange(out_pixels@, earlier, k * size, (k + 1) * size);
                    assert(pixel_value(earlier, k, size, big_endian) == with_alpha(
                        pixel_value(in_pixels@, k, in_masks.size as int, big_endian) as u32,
                        mask_pixels@[k] != 0,
                        *in_masks,
                        *out_masks,
                    ));
                }
            }
        }
        i = i + 1;
    }
    assert(out_pixels@.len() == count * out_masks.size);
    out_pixels
}

/// A stretch of the front of a sequence is the same stretch of the whole.
proof fn lemma_prefix_subrange(longer: Seq<u8>, front: Seq<u8>, from: int, to: int)
    requires
        front.len() <= longer.len(),
        longer.subrange(0, front.len() as int) == front,
        0 <= from <= to <= front.len(),
    ensures
        longer.subrange(from, to) == front.subrange(from, to),
{
    assert forall|j: int| from <= j < to implies longer[j] == front[j] by {
        assert(longer.subrange(0, front.len() as int)[j] == longer[j]);
    }
    assert(longer.subrange(from, to) =~= front.subrange(from, to));
}

/// Where pixel `index` of `size` bytes lies among `total` bytes.
proof fn lemma_pixel_bounds(total: int, size: int, index: int)
    requires
        1 <= size,
        0 <= total,
        0 <= index < total / size,
    ensures
        0 <= index * size,
        (index + 1) * size == index * size + size,
        index * size + size <= total,
{
    vstd::arithmetic::div_mod::lemma_fundamental_div_mod(total, size);
    vstd::arithmetic::div_mod::lemma_mod_pos_bound(total, size);
    let whole = total / size;
    let part = total % size;
    assert(0 <= index * size && (index + 1) * size == index * size + size && index * size + size
        <= total) by (nonlinear_arith)
        requires
            1 <= size,
            0 <= index < whole,
            total == size * whole + part,
            0 <= part,
    ;
}

/// A number of `n` bytes is below the limit of `n` bytes.
pub proof fn lemma_value_bound(bytes: Seq<u8>, big_endian: bool)
    requires
        bytes.len() <= 8,
    ensures
        uint_value(bytes, big_endian) < uint_limit(bytes.len() as int),
    decreases bytes.len(),
{
    if bytes.len() > 0 {
        lemma_value_bound(bytes.skip(1), false);
        lemma_value_bound(bytes.drop_last(), true);
    }
}

/// The key that a password gives: its first eight bytes, with zeros behind
/// a shorter one.
pub open spec fn password_key_spec(password: Seq<u8>) -> Seq<u8> {
    Seq::new(8, |i: int| if i < password.len() { password[i] } else { 0u8 })
}

/// The key that a password gives: its first eight bytes, with zeros behind
/// a shorter one.
pub fn password_key(password: &[u8]) -> (key: [u8; 8])
    ensures
        key@ == password_key_spec(password@),
{
    let mut key: [u8; 8] = [0u8; 8];
    let mut i: usize = 0;
    while i < 8 && i < password.len()
        invariant
            i <= 8,
            i <= password@.len(),
            forall|k: int| 0 <= k < i ==> key@[k] == password@[k],
            forall|k: int| i <= k < 8 ==> key@[k] == 0,
        decreases 8 - i,
    {
        key[i] = password[i];
        i = i + 1;
    }
    assert(key@ =~= password_key_spec(password@));
    key
}

/// What the usual decider makes of the methods from `from` on: it goes by
/// the server's order. No authentication is taken at once; a password is
/// decisive, so without one the decider gives up; Apple Remote Desktop is
/// taken with a user name and a password, and passed over without.
pub open spec fn usual_choice(
    methods: Seq<AuthMethod>,
    from: int,
    has_username: bool,
    password: Option<Seq<u8>>,
) -> Option<AuthChoice>
    decreases methods.len() - from,
{
    if from < 0 || from >= methods.len() {
        None
    } else {
        match methods[from] {
            AuthMethod::NoAuthentication => Some(AuthChoice::NoAuthentication),
            AuthMethod::Password => match password {
                Some(password) => Some(AuthChoice::Password(key_of(password_key_spec(password)))),
                None => None,
            },
            AuthMethod::AppleRemoteDesktop => if has_username && password is Some {
                Some(AuthChoice::AppleRemoteDesktop)
            } else {
                usual_choice(methods, from + 1, has_username, password)
            },
        }
    }
}

/// The key whose eight bytes are `bytes`.
pub open spec fn key_of(bytes: Seq<u8>) -> [u8; 8] {
    [bytes[0], bytes[1], bytes[2], bytes[3], bytes[4], bytes[5], bytes[6], bytes[7]]
}

/// The usual decider: see [`usual_choice`].
pub fn decide_auth(methods: &[AuthMethod], has_username: bool, password: Option<&[u8]>) -> (choice:
    Option<AuthChoice>)
    ensures
        choice == usual_choice(
            methods@,
            0,
            has_username,
            match password {
                Some(password) => Some(password@),
                None => None,
            },
        ),
{
    let ghost given: Option<Seq<u8>> = match password {
        Some(password) => Some(password@),
        None => None,
    };
    let mut i: usize = 0;
    while i < methods.len()
        invariant
            i <= methods.len(),
            given == (match password {
                Some(password) => Some(password@),
                None => None::<Seq<u8>>,
            }),
            usual_choice(methods@, 0, has_username, given) == usual_choice(
                methods@,
                i as int,
                has_username,
                given,
            ),
        decreases methods.len() - i,
    {
        match methods[i] {
            AuthMethod::NoAuthentication => { return Some(AuthChoice::NoAuthentication); },
            AuthMethod::Password => {
                return match password {
                    Some(password) => {
                        let key = password_key(password);
                        assert(key == key_of(password_key_spec(password@))) by {
                            assert(key@ =~= key_of(password_key_spec(password@))@);
                        }
                        Some(AuthChoice::Password(key))
                    },
                    None => None,
                };
            },
            AuthMethod::AppleRemoteDesktop => {
                if has_username && password.is_some() {
                    return Some(AuthChoice::AppleRemoteDesktop);
                }
            },
        }
        i = i + 1;
    }
    None
}

/// A cursor's mask with one byte for each bit: the byte is zero where the
/// bit is clear. The bits of each byte come out from the top bit down; the
/// bits that pad a row to whole bytes come out too.
pub open spec fn expanded_mask(mask_bits: Seq<u8>, count: int) -> Seq<u8> {
    Seq::new((8 * count) as nat, |i: int| mask_bits[i / 8] & (1u8 << ((7 - i % 8) as u8)))
}

/// One byte for each bit of the first `height` rows of a cursor's mask,
/// whose rows are `(width + 7) / 8` bytes each.
pub fn expand_mask(width: u16, height: u16, mask_bits: &[u8]) -> (mask_pixels: Vec<u8>)
    requires
        height * ((width + 7) / 8) <= mask_bits@.len(),
    ensures
        mask_pixels@ == expanded_mask(mask_bits@, height * ((width + 7) / 8)),
{
    let stride: usize = (width as usize + 7) / 8;
    assert(height * stride <= 0xffff * 0x2000) by (nonlinear_arith)
        requires
            height <= 0xffff,
            stride <= 0x2000,
    ;
    let count: usize = height as usize * stride;
    let mut mask_pixels: Vec<u8> = Vec::new();
    let mut i: usize = 0;
    assert(mask_pixels@ =~= expanded_mask(mask_bits@, 0));
    while i < count
        invariant
            i <= count <= mask_bits@.len(),
            mask_pixels@ == expanded_mask(mask_bits@, i as int),
        decreases count - i,
    {
        let byte = mask_bits[i];
        let ghost earlier = mask_pixels@;
        mask_pixels.push(byte & (1u8 << 7));
        mask_pixels.push(byte & (1u8 << 6));
        mask_pixels.push(byte & (1u8 << 5));
        mask_pixels.push(byte & (1u8 << 4));
        mask_pixels.push(byte & (1u8 << 3));
        mask_pixels.push(byte & (1u8 << 2));
        mask_pixels.push(byte & (1u8 << 1));
        mask_pixels.push(byte & (1u8 << 0));
        assert(mask_pixels@ =~= expanded_mask(mask_bits@, i + 1)) by {
            assert forall|k: int| 0 <= k < 8 * (i + 1) implies mask_pixels@[k] == expanded_mask(
                mask_bits@,
                i + 1,
            )[k] by {
                if k < 8 * i {
                    assert(mask_pixels@[k] == earlier[k]);
                } else {
                    assert(k / 8 == i);
                }
            }
        }
        i = i + 1;
    }
    mask_pixels
}

/// The key symbol of a key that stands for a character of itself: the
/// host's code for it is the character's, and so is the symbol. The one
/// exception is the caret key, which goes by the symbol of the caret of the
/// publishing set.
pub open spec fn printable_keysym(keycode: i32) -> Option<u32> {
    if keycode == 0x5e {
        Some(0xafc)
    } else if 0x20 <= keycode <= 0x40 || 0x5b <= keycode <= 0x7a {
        Some(keycode as u32)
    } else {
        None
    }
}

/// The key symbol of a key that stands for no character. Such a key's code
/// is the code of its place on the keyboard with bit 30 set, but for the
/// five that have a control character of their own.
pub open spec fn special_keysym(keycode: i32) -> Option<u32> {
    let place = keycode - 0x4000_0000;
    if keycode == 8 {
        Some(0xff08)
    } else if keycode == 9 {
        Some(0xff09)
    } else if keycode == 13 {
        Some(0xff0d)
    } else if keycode == 27 {
        Some(0xff1b)
    } else if keycode == 127 {
        Some(0xffff)
    } else if place == 57 {
        Some(0xffe5)
    } else if 58 <= place <= 69 {
        Some((0xffbe + (place - 58)) as u32)
    } else if place == 70 {
        Some(0xff61)
    } else if place == 71 {
        Some(0xff14)
    } else if place == 72 {
        Some(0xff13)
    } else if place == 73 {
        Some(0xff63)
    } else if place == 74 {
        Some(0xff50)
    } else if place == 75 {
        Some(0xff55)
    } else if place == 77 {
        Some(0xff57)
    } else if place == 78 {
        Some(0xff56)
    } else if place == 79 {
        Some(0xff53)
    } else if place == 80 {
        Some(0xff51)
    } else if place == 81 {
        Some(0xff54)
    } else if place == 82 {
        Some(0xff52)
    } else if place == 83 {
        Some(0xff7f)
    } else if place == 84 {
        Some(0xffaf)
    } else if place == 85 {
        Some(0xffaa)
    } else if place == 86 {
        Some(0xffad)
    } else if place == 87 {
        Some(0xffab)
    } else if place == 88 {
        Some(0xff8d)
    } else if 89 <= place <= 97 {
        Some((0xffb1 + (place - 89)) as u32)
    } else if place == 98 {
        Some(0xffb0)
    } else if place == 99 {
        Some(0xffac)
    } else if 104 <= place <= 115 {
        Some((0xffca + (place - 104)) as u32)
    } else if place == 118 {
        Some(0xff67)
    } else if place == 154 {
        Some(0xff15)
    } else if place == 224 {
        Some(0xffe3)
    } else if place == 225 {
        Some(0xffe1)
    } else if place == 226 {
        Some(0xffe9)
    } else if place == 227 {
        Some(0xffeb)
    } else if place == 228 {
        Some(0xffe4)
    } else if place == 229 {
        Some(0xffe2)
    } else if place == 230 {
        Some(0xffea)
    } else if place == 231 {
        Some(0xffec)
    } else {
        None
    }
}

/// The key symbol to send for a key of the host's. Keys for characters are
/// sent from here only where `alnum_ok` says so: otherwise the host learns
/// of them as text.
pub open spec fn keysym_of(alnum_ok: bool, keycode: i32) -> Option<u32> {
    if alnum_ok && printable_keysym(keycode) is Some {
        printable_keysym(keycode)
    } else {
        special_keysym(keycode)
    }
}

/// The key symbol to send for a key of the host's, if it has one.
pub fn map_special_key(alnum_ok: bool, keycode: i32) -> (keysym: Option<u32>)
    ensures
        keysym == keysym_of(alnum_ok, keycode),
{
    if alnum_ok && keycode == 0x5e {
        return Some(0xafc);
    }
    if alnum_ok && ((0x20 <= keycode && keycode <= 0x40) || (0x5b <= keycode && keycode <= 0x7a)) {
        return Some(keycode as u32);
    }
    if keycode == 8 {
        return Some(0xff08);
    } else if keycode == 9 {
        return Some(0xff09);
    } else if keycode == 13 {
        return Some(0xff0d);
    } else if keycode == 27 {
        return Some(0xff1b);
    } else if keycode == 127 {
        return Some(0xffff);
    } else if keycode < 0x4000_0000 {
        return None;
    }
    let place: u32 = (keycode - 0x4000_0000) as u32;
    if place == 57 {
        Some(0xffe5)
    } else if 58 <= place && place <= 69 {
        Some(0xffbe + (place - 58))
    } else if 89 <= place && place <= 97 {
        Some(0xffb1 + (place - 89))
    } else if 104 <= place && place <= 115 {
        Some(0xffca + (place - 104))
    } else {
        match place {
            70 => Some(0xff61),
            71 => Some(0xff14),
            72 => Some(0xff13),
            73 => Some(0xff63),
            74 => Some(0xff50),
            75 => Some(0xff55),
            77 => Some(0xff57),
            78 => Some(0xff56),
            79 => Some(0xff53),
            80 => Some(0xff51),
            81 => Some(0xff54),
            82 => Some(0xff52),
            83 => Some(0xff7f),
            84 => Some(0xffaf),
            85 => Some(0xffaa),
            86 => Some(0xffad),
            87 => Some(0xffab),
            88 => Some(0xff8d),
            98 => Some(0xffb0),
            99 => Some(0xffac),
            118 => Some(0xff67),
            154 => Some(0xff15),
            224 => Some(0xffe3),
            225 => Some(0xffe1),
            226 => Some(0xffe9),
            227 => Some(0xffeb),
            228 => Some(0xffe4),
            229 => Some(0xffe2),
            230 => Some(0xffea),
            231 => Some(0xffec),
            _ => None,
        }
    }
}

/// The key symbol of a character that came in as text: its code point with
/// bit 24 set.
pub fn text_keysym(character: char) -> (keysym: u32)
    ensures
        keysym == 0x0100_0000 + character as u32,
{
    0x0100_0000 + character as u32
}

/// The encodings that a viewer advertises, in the order of its preference.
/// With a server that needs the workarounds for QEMU only ZRLE and the
/// change of the desktop's size are asked for.
pub open spec fn advertised(qemu_hacks: bool) -> Seq<Encoding> {
    if qemu_hacks {
        seq![Encoding::Zrle, Encoding::DesktopSize]
    } else {
        seq![
            Encoding::Zrle,
            Encoding::CopyRect,
            Encoding::Raw,
            Encoding::Cursor,
            Encoding::DesktopSize,
        ]
    }
}

/// The encodings that a viewer advertises, in the order of its preference.
pub fn advertised_encodings(qemu_hacks: bool) -> (encodings: Vec<Encoding>)
    ensures
        encodings@ == advertised(qemu_hacks),
{
    let mut encodings: Vec<Encoding> = Vec::new();
    encodings.push(Encoding::Zrle);
    if !qemu_hacks {
        encodings.push(Encoding::CopyRect);
        encodings.push(Encoding::Raw);
        encodings.push(Encoding::Cursor);
    }
    encodings.push(Encoding::DesktopSize);
    assert(encodings@ =~= advertised(qemu_hacks));
    encodings
}

/// The round trip time to go by after a new sample: four parts of the time
/// so far and one part of the sample, each part rounded down.
pub fn smoothed_rtt(previous: u32, sample: u32) -> (rtt: u32)
    ensures
        rtt == previous * 80 / 100 + sample * 20 / 100,
{
    let kept: u64 = previous as u64 * 80 / 100;
    let added: u64 = sample as u64 * 20 / 100;
    (kept + added) as u32
}

} // verus!
