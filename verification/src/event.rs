//! What a session tells its host, and the decoders of the rectangles whose
//! payload needs no inflater.

use crate::error::Error;
use crate::geometry::Rect;
use crate::pixel_format::PixelFormat;
use crate::protocol::{fixed_payload_len, mask_stride, payload_length, Colour, Encoding};
use crate::wire::parse_u16;
use vstd::prelude::*;
use vstd::slice::{slice_subrange, slice_to_vec};

verus! {

/// Something that the server made happen, in the order in which it did.
#[derive(Debug, PartialEq, Eq)]
pub enum Event {
    /// The session is over; the error says why, if one ended it.
    Disconnected(Option<Error>),
    /// The framebuffer has a new size.
    Resize(u16, u16),
    /// Entries of the colour map changed.
    SetColourMap { first_colour: u16, colours: Vec<Colour> },
    /// Pixels for a rectangle, in the session's pixel format, row by row.
    PutPixels(Rect, Vec<u8>),
    /// A rectangle that the host has already drawn moves to another place.
    CopyPixels { src: Rect, dst: Rect },
    /// The framebuffer update that the events before this one came from is
    /// complete.
    EndOfFrame,
    /// The server's clipboard changed.
    Clipboard(Vec<u8>),
    /// The cursor has a new shape. The mask holds one bit for each pixel,
    /// the leftmost in the top bit, each row starting in a new byte.
    SetCursor { size: (u16, u16), hotspot: (u16, u16), pixels: Vec<u8>, mask_bits: Vec<u8> },
    /// The server rang its bell.
    Bell,
}

/// An event, as a value.
pub enum EventView {
    Disconnected(Option<Error>),
    Resize(u16, u16),
    SetColourMap { first_colour: u16, colours: Seq<Colour> },
    PutPixels(Rect, Seq<u8>),
    CopyPixels { src: Rect, dst: Rect },
    EndOfFrame,
    Clipboard(Seq<u8>),
    SetCursor { size: (u16, u16), hotspot: (u16, u16), pixels: Seq<u8>, mask_bits: Seq<u8> },
    Bell,
}

impl View for Event {
    type V = EventView;

    open spec fn view(&self) -> EventView {
        match self {
            Event::Disconnected(reason) => EventView::Disconnected(*reason),
            Event::Resize(width, height) => EventView::Resize(*width, *height),
            Event::SetColourMap { first_colour, colours } => EventView::SetColourMap {
                first_colour: *first_colour,
                colours: colours@,
            },
            Event::PutPixels(rect, pixels) => EventView::PutPixels(*rect, pixels@),
            Event::CopyPixels { src, dst } => EventView::CopyPixels { src: *src, dst: *dst },
            Event::EndOfFrame => EventView::EndOfFrame,
            Event::Clipboard(text) => EventView::Clipboard(text@),
            Event::SetCursor { size, hotspot, pixels, mask_bits } => EventView::SetCursor {
                size: *size,
                hotspot: *hotspot,
                pixels: pixels@,
                mask_bits: mask_bits@,
            },
            Event::Bell => EventView::Bell,
        }
    }
}

/// The events of a sequence, as values.
pub open spec fn events_view(events: Seq<Event>) -> Seq<EventView> {
    events.map_values(|event: Event| event@)
}

/// Whether a rectangle's encoding is one whose payload stands for itself:
/// raw pixels, a copy, a cursor or a new size.
pub open spec fn is_plain(encoding: Encoding) -> bool {
    encoding is Raw || encoding is CopyRect || encoding is Cursor || encoding is DesktopSize
}

/// The event that a rectangle with a plain encoding stands for.
///
/// Raw pixels are handed on as they are. A copy names the corner of its
/// source, which has the size of the rectangle. A cursor's rectangle gives
/// its size and, in place of a position, its hot spot; its payload is its
/// pixels and then its mask. A new size is the size of its rectangle.
pub open spec fn plain_event(format: PixelFormat, rect: Rect, encoding: Encoding, payload: Seq<u8>) -> EventView {
    match encoding {
        Encoding::Raw => EventView::PutPixels(rect, payload),
        Encoding::CopyRect => EventView::CopyPixels {
            src: Rect {
                left: parse_u16(payload, 0)->Ok_0.0,
                top: parse_u16(payload, 2)->Ok_0.0,
                width: rect.width,
                height: rect.height,
            },
            dst: rect,
        },
        Encoding::Cursor => {
            let pixels = rect.width * rect.height * format.bytes_per_pixel();
            EventView::SetCursor {
                size: (rect.width, rect.height),
                hotspot: (rect.left, rect.top),
                pixels: payload.subrange(0, pixels),
                mask_bits: payload.subrange(
                    pixels,
                    pixels + rect.height * mask_stride(rect.width as int),
                ),
            }
        },
        _ => EventView::Resize(rect.width, rect.height),
    }
}

/// Decodes a rectangle with a plain encoding into its event. A payload of
/// another length than the encoding calls for, and an encoding that is not
/// plain, are errors of the protocol.
pub fn decode_plain(format: &PixelFormat, rect: Rect, encoding: Encoding, payload: &[u8]) -> (res:
    Result<Event, Error>)
    ensures
        fixed_payload_len(*format, rect, encoding) == Some(payload@.len() as int) ==> res is Ok
            && res->Ok_0@ == plain_event(*format, rect, encoding, payload@),
        fixed_payload_len(*format, rect, encoding) != Some(payload@.len() as int) ==> res == Err::<
            Event,
            Error,
        >(Error::Unexpected("rectangle payload")),
{
    let expected = match payload_length(format, &rect, encoding) {
        Some(expected) => expected,
        None => { return Err(Error::Unexpected("rectangle payload")); },
    };
    if payload.len() as u64 != expected {
        return Err(Error::Unexpected("rectangle payload"));
    }
    match encoding {
        Encoding::Raw => Ok(Event::PutPixels(rect, slice_to_vec(payload))),
        Encoding::CopyRect => {
            let left = payload[0] as u16 * 256 + payload[1] as u16;
            let top = payload[2] as u16 * 256 + payload[3] as u16;
            Ok(
                Event::CopyPixels {
                    src: Rect { left, top, width: rect.width, height: rect.height },
                    dst: rect,
                },
            )
        },
        Encoding::Cursor => {
            let mask = rect.height as usize * ((rect.width as usize + 7) / 8);
            let pixels = payload.len() - mask;
            Ok(
                Event::SetCursor {
                    size: (rect.width, rect.height),
                    hotspot: (rect.left, rect.top),
                    pixels: slice_to_vec(slice_subrange(payload, 0, pixels)),
                    mask_bits: slice_to_vec(slice_subrange(payload, pixels, payload.len())),
                },
            )
        },
        _ => Ok(Event::Resize(rect.width, rect.height)),
    }
}

} // verus!
