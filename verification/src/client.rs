//! A running session, seen from the client: what the server's messages make
//! happen, and the bytes of the client's own requests. The session reads and
//! writes nothing itself: the host hands it the bytes that came in and sends
//! the bytes that it gives back.

use crate::error::{Error, IoError};
pub use crate::event::Event;
use crate::event::{decode_plain, events_view, is_plain, plain_event, EventView};
pub use crate::handshake::{AuthChoice, AuthMethod};
use crate::geometry::Rect;
use crate::pixel_format::PixelFormat;
use crate::protocol::{
    fixed_payload_len, rectangles_view, C2SView, Encoding, Rectangle, RectangleView, S2CView,
    ServerInit, C2S, S2C,
};
use crate::zrle::{decode_spec, tiles_view, Decoder, TileView};
use vstd::prelude::*;
use vstd::slice::slice_to_vec;

verus! {

/// The events that the tiles of a ZRLE rectangle stand for: each tile brings
/// its pixels.
pub open spec fn tile_events(tiles: Seq<TileView>) -> Seq<EventView> {
    tiles.map_values(|tile: TileView| EventView::PutPixels(tile.rect, tile.pixels))
}

/// Whether a rectangle with a plain encoding may stand in an update for a
/// framebuffer of the given size: pixels must land inside the framebuffer,
/// and a copy must come from inside it.
pub open spec fn plain_allowed(width: u16, height: u16, rect: Rect, event: EventView) -> bool {
    match event {
        EventView::PutPixels(..) => rect.within(width as int, height as int),
        EventView::CopyPixels { src, dst } => src.within(width as int, height as int) && dst.within(
            width as int,
            height as int,
        ),
        _ => true,
    }
}

/// What a rectangle with a plain encoding makes happen in a session with
/// the given pixel format and framebuffer size: its event, and the size of
/// the framebuffer after it. A payload of the wrong length and a rectangle
/// that reaches outside the framebuffer are errors of the protocol.
pub open spec fn plain_outcome(
    format: PixelFormat,
    width: u16,
    height: u16,
    rectangle: RectangleView,
) -> Result<(EventView, (u16, u16)), Error> {
    let event = plain_event(format, rectangle.rect, rectangle.encoding, rectangle.payload);
    if fixed_payload_len(format, rectangle.rect, rectangle.encoding) != Some(
        rectangle.payload.len() as int,
    ) {
        Err(Error::Unexpected("rectangle payload"))
    } else if !plain_allowed(width, height, rectangle.rect, event) {
        Err(Error::Unexpected("rectangle out of bounds"))
    } else if rectangle.encoding is DesktopSize {
        Ok((event, (rectangle.rect.width, rectangle.rect.height)))
    } else {
        Ok((event, (width, height)))
    }
}

/// What taking in rectangles leaves: the events that they stand for, the
/// size of the framebuffer, and the session's inflater, if it has not
/// failed.
pub struct Outcome {
    pub events: Seq<EventView>,
    pub size: (u16, u16),
    pub stream: Option<flate2::Decompress>,
}

/// The events `front`, followed by what `rest` made happen.
pub open spec fn prepend_events(front: Seq<EventView>, rest: Result<Outcome, Error>) -> Result<
    Outcome,
    Error,
> {
    match rest {
        Ok(outcome) => Ok(Outcome { events: front + outcome.events, ..outcome }),
        Err(e) => Err(e),
    }
}

/// What one rectangle makes happen in a session with the given pixel format,
/// framebuffer size and inflater.
///
/// A plain rectangle gives its one event, and leaves the inflater alone. A
/// ZRLE rectangle needs a pixel format that the decoder can work with, must
/// lie inside the framebuffer, and needs an inflater that has not failed; it
/// gives the pixels of its tiles, in the order of the tiles, as
/// [`decode_spec`] reads them from its payload. No other encoding can be
/// taken in.
pub open spec fn rectangle_outcome(
    format: PixelFormat,
    width: u16,
    height: u16,
    stream: Option<flate2::Decompress>,
    rectangle: RectangleView,
) -> Result<Outcome, Error> {
    if is_plain(rectangle.encoding) {
        match plain_outcome(format, width, height, rectangle) {
            Ok((event, size)) => Ok(Outcome { events: seq![event], size, stream }),
            Err(e) => Err(e),
        }
    } else if rectangle.encoding is Zrle {
        if !format.supported() {
            Err(Error::Unexpected("pixel format"))
        } else if !rectangle.rect.within(width as int, height as int) {
            Err(Error::Unexpected("rectangle out of bounds"))
        } else {
            match stream {
                Some(inflater) => {
                    let decoded = decode_spec(inflater, format, rectangle.rect, rectangle.payload);
                    match decoded.result {
                        Ok(tiles) => Ok(
                            Outcome {
                                events: tile_events(tiles),
                                size: (width, height),
                                stream: Some(decoded.stream),
                            },
                        ),
                        Err(e) => Err(e),
                    }
                },
                None => Err(Error::Unexpected("ZRLE decoder poisoned")),
            }
        }
    } else {
        Err(Error::Unexpected("rectangle encoding"))
    }
}

/// What a framebuffer update makes happen: the events of its rectangles in
/// the server's order, each rectangle seen against the size and the inflater
/// that those before it left, and then the end of the frame. The first
/// rectangle that fails fails the update.
pub open spec fn update_outcome(
    format: PixelFormat,
    width: u16,
    height: u16,
    stream: Option<flate2::Decompress>,
    rectangles: Seq<RectangleView>,
) -> Result<Outcome, Error>
    decreases rectangles.len(),
{
    if rectangles.len() == 0 {
        Ok(Outcome { events: seq![EventView::EndOfFrame], size: (width, height), stream })
    } else {
        match rectangle_outcome(format, width, height, stream, rectangles[0]) {
            Ok(first) => prepend_events(
                first.events,
                update_outcome(format, first.size.0, first.size.1, first.stream, rectangles.skip(1)),
            ),
            Err(e) => Err(e),
        }
    }
}

/// A plain rectangle at the head of an update brings its one event first,
/// and hands the inflater on to the rectangles behind it as it found it.
pub proof fn lemma_plain_rectangle_first(
    format: PixelFormat,
    width: u16,
    height: u16,
    stream: Option<flate2::Decompress>,
    rectangles: Seq<RectangleView>,
)
    requires
        rectangles.len() > 0,
        is_plain(rectangles[0].encoding),
    ensures
        update_outcome(format, width, height, stream, rectangles) == (match plain_outcome(
            format,
            width,
            height,
            rectangles[0],
        ) {
            Ok((event, size)) => prepend_events(
                seq![event],
                update_outcome(format, size.0, size.1, stream, rectangles.skip(1)),
            ),
            Err(e) => Err(e),
        }),
{
}

/// A ZRLE rectangle at the head of an update brings the pixels of its tiles
/// first, read from its own payload by the inflater as the update found it,
/// and hands the inflater on as decoding left it.
pub proof fn lemma_zrle_rectangle_first(
    format: PixelFormat,
    width: u16,
    height: u16,
    stream: flate2::Decompress,
    rectangles: Seq<RectangleView>,
)
    requires
        rectangles.len() > 0,
        rectangles[0].encoding is Zrle,
        format.supported(),
        rectangles[0].rect.within(width as int, height as int),
    ensures
        update_outcome(format, width, height, Some(stream), rectangles) == (match decode_spec(
            stream,
            format,
            rectangles[0].rect,
            rectangles[0].payload,
        ).result {
            Ok(tiles) => prepend_events(
                tile_events(tiles),
                update_outcome(
                    format,
                    width,
                    height,
                    Some(
                        decode_spec(
                            stream,
                            format,
                            rectangles[0].rect,
                            rectangles[0].payload,
                        ).stream,
                    ),
                    rectangles.skip(1),
                ),
            ),
            Err(e) => Err(e),
        }),
{
}

/// An update that succeeds ends with the end of the frame, behind the
/// events of all its rectangles.
pub proof fn lemma_update_ends_frame(
    format: PixelFormat,
    width: u16,
    height: u16,
    stream: Option<flate2::Decompress>,
    rectangles: Seq<RectangleView>,
)
    ensures
        match update_outcome(format, width, height, stream, rectangles) {
            Ok(outcome) => outcome.events.len() >= 1 && outcome.events.last()
                == EventView::EndOfFrame,
            Err(_) => true,
        },
    decreases rectangles.len(),
{
    if rectangles.len() > 0 {
        if let Ok(first) = rectangle_outcome(format, width, height, stream, rectangles[0]) {
            lemma_update_ends_frame(
                format,
                first.size.0,
                first.size.1,
                first.stream,
                rectangles.skip(1),
            );
        }
    }
}

/// What a message from the server that is no framebuffer update makes
/// happen.
pub open spec fn message_events(message: S2CView) -> Seq<EventView> {
    match message {
        S2CView::SetColourMapEntries { first_colour, colours } => seq![
            EventView::SetColourMap { first_colour, colours },
        ],
        S2CView::Bell => seq![EventView::Bell],
        S2CView::CutText(text) => seq![EventView::Clipboard(text)],
        S2CView::FramebufferUpdate { .. } => Seq::empty(),
    }
}

/// A session in the running state, or closed.
pub struct Client {
    width: u16,
    height: u16,
    name: Vec<u8>,
    format: PixelFormat,
    zrle: Decoder,
    encodings: Vec<Encoding>,
    closed: bool,
}

impl Client {
    /// The size of the server's framebuffer.
    pub closed spec fn spec_size(&self) -> (u16, u16) {
        (self.width, self.height)
    }

    /// The name of the server's desktop.
    pub closed spec fn spec_name(&self) -> Seq<u8> {
        self.name@
    }

    /// The pixel format that rectangles arrive in.
    pub closed spec fn spec_format(&self) -> PixelFormat {
        self.format
    }

    /// The encodings last advertised to the server.
    pub closed spec fn spec_encodings(&self) -> Seq<Encoding> {
        self.encodings@
    }

    /// The session is over.
    pub closed spec fn spec_closed(&self) -> bool {
        self.closed
    }

    /// The session's inflater, unless the ZRLE decoder has failed.
    pub closed spec fn zrle_stream(&self) -> Option<flate2::Decompress> {
        self.zrle.stream()
    }

    /// The ZRLE decoder has not failed.
    pub open spec fn zrle_ready(&self) -> bool {
        self.zrle_stream() is Some
    }

    /// The session that a handshake ends in.
    pub fn new(init: ServerInit) -> (client: Client)
        ensures
            client.spec_size() == (init.framebuffer_width, init.framebuffer_height),
            client.spec_name() == init.name@,
            client.spec_format() == init.pixel_format,
            client.spec_encodings() == Seq::<Encoding>::empty(),
            !client.spec_closed(),
            client.zrle_ready(),
    {
        Client {
            width: init.framebuffer_width,
            height: init.framebuffer_height,
            name: init.name,
            format: init.pixel_format,
            zrle: Decoder::new(),
            encodings: Vec::new(),
            closed: false,
        }
    }

    /// The size of the server's framebuffer.
    pub fn size(&self) -> (size: (u16, u16))
        ensures
            size == self.spec_size(),
    {
        (self.width, self.height)
    }

    /// The name of the server's desktop.
    pub fn name(&self) -> (name: &[u8])
        ensures
            name@ == self.spec_name(),
    {
        self.name.as_slice()
    }

    /// The pixel format that rectangles arrive in.
    pub fn format(&self) -> (format: PixelFormat)
        ensures
            format == self.spec_format(),
    {
        self.format
    }

    /// The encodings last advertised to the server, in the order of the
    /// client's preference.
    pub fn encodings(&self) -> (encodings: &[Encoding])
        ensures
            encodings@ == self.spec_encodings(),
    {
        self.encodings.as_slice()
    }

    /// Whether the session is over.
    pub fn is_closed(&self) -> (closed: bool)
        ensures
            closed == self.spec_closed(),
    {
        self.closed
    }

    /// Ends the session. Nothing comes of a closed session any more.
    pub fn close(&mut self)
        ensures
            final(self).spec_closed(),
            final(self).spec_size() == old(self).spec_size(),
            final(self).spec_format() == old(self).spec_format(),
            final(self).spec_name() == old(self).spec_name(),
    {
        self.closed = true;
    }

    /// The bytes of a request, unless the session is over.
    fn request(&self, message: C2S) -> (res: Result<Vec<u8>, Error>)
        requires
            message@.fits(),
        ensures
            self.spec_closed() ==> res == Err::<Vec<u8>, Error>(Error::Disconnected),
            !self.spec_closed() ==> res is Ok && res->Ok_0@ == message@.encoding(),
    {
        if self.closed {
            return Err(Error::Disconnected);
        }
        let mut out: Vec<u8> = Vec::new();
        message.encode(&mut out);
        assert(Seq::<u8>::empty() + message@.encoding() =~= message@.encoding());
        Ok(out)
    }

    /// Tells the server which encodings the client takes, in the order of
    /// its preference: the list goes out as it is, and is remembered. More
    /// encodings than a message can count are refused.
    pub fn set_encodings(&mut self, encodings: &[Encoding]) -> (res: Result<Vec<u8>, Error>)
        ensures
            final(self).spec_closed() == old(self).spec_closed(),
            final(self).spec_size() == old(self).spec_size(),
            final(self).spec_format() == old(self).spec_format(),
            old(self).spec_closed() ==> res == Err::<Vec<u8>, Error>(Error::Disconnected),
            !old(self).spec_closed() && encodings@.len() > 0xffff ==> res == Err::<Vec<u8>, Error>(
                Error::Unexpected("too many encodings"),
            ),
            !old(self).spec_closed() && encodings@.len() <= 0xffff ==> res is Ok && res->Ok_0@
                == C2SView::SetEncodings(encodings@).encoding() && final(self).spec_encodings()
                == encodings@,
            res is Err ==> final(self).spec_encodings() == old(self).spec_encodings(),
    {
        if self.closed {
            return Err(Error::Disconnected);
        }
        if encodings.len() > 0xffff {
            return Err(Error::Unexpected("too many encodings"));
        }
        let res = self.request(C2S::SetEncodings(slice_to_vec(encodings)));
        if res.is_ok() {
            self.encodings = slice_to_vec(encodings);
        }
        res
    }

    /// Asks the server for another pixel format. Rectangles are read in the
    /// new format from now on.
    pub fn set_format(&mut self, format: PixelFormat) -> (res: Result<Vec<u8>, Error>)
        ensures
            final(self).spec_closed() == old(self).spec_closed(),
            final(self).spec_size() == old(self).spec_size(),
            final(self).spec_encodings() == old(self).spec_encodings(),
            old(self).spec_closed() ==> res == Err::<Vec<u8>, Error>(Error::Disconnected)
                && final(self).spec_format() == old(self).spec_format(),
            !old(self).spec_closed() ==> res is Ok && res->Ok_0@ == C2SView::SetPixelFormat(
                format,
            ).encoding() && final(self).spec_format() == format,
    {
        let res = self.request(C2S::SetPixelFormat(format));
        if res.is_ok() {
            self.format = format;
        }
        res
    }

    /// Sends the pixel format that is in use once more. Some servers send
    /// nothing new until they are poked like this.
    pub fn poke_server(&self) -> (res: Result<Vec<u8>, Error>)
        ensures
            self.spec_closed() ==> res == Err::<Vec<u8>, Error>(Error::Disconnected),
            !self.spec_closed() ==> res is Ok && res->Ok_0@ == C2SView::SetPixelFormat(
                self.spec_format(),
            ).encoding(),
    {
        self.request(C2S::SetPixelFormat(self.format))
    }

    /// Asks for the pixels of a rectangle: all of them, or, if
    /// `incremental`, those that changed since the server last sent them.
    pub fn request_update(&self, rect: Rect, incremental: bool) -> (res: Result<Vec<u8>, Error>)
        ensures
            self.spec_closed() ==> res == Err::<Vec<u8>, Error>(Error::Disconnected),
            !self.spec_closed() ==> res is Ok && res->Ok_0@ == (C2SView::FramebufferUpdateRequest {
                incremental,
                rect,
            }).encoding(),
    {
        self.request(C2S::FramebufferUpdateRequest { incremental, rect })
    }

    /// Tells the server that a key went down or up.
    pub fn send_key_event(&self, down: bool, key: u32) -> (res: Result<Vec<u8>, Error>)
        ensures
            self.spec_closed() ==> res == Err::<Vec<u8>, Error>(Error::Disconnected),
            !self.spec_closed() ==> res is Ok && res->Ok_0@ == (C2SView::KeyEvent {
                down,
                key,
            }).encoding(),
    {
        self.request(C2S::KeyEvent { down, key })
    }

    /// Tells the server where the pointer is and which buttons are down.
    pub fn send_pointer_event(&self, buttons: u8, x: u16, y: u16) -> (res: Result<Vec<u8>, Error>)
        ensures
            self.spec_closed() ==> res == Err::<Vec<u8>, Error>(Error::Disconnected),
            !self.spec_closed() ==> res is Ok && res->Ok_0@ == (C2SView::PointerEvent {
                button_mask: buttons,
                x_position: x,
                y_position: y,
            }).encoding(),
    {
        self.request(C2S::PointerEvent { button_mask: buttons, x_position: x, y_position: y })
    }

    /// Hands the client's clipboard to the server. A text too long for its
    /// length to be written is refused.
    pub fn update_clipboard(&self, text: &[u8]) -> (res: Result<Vec<u8>, Error>)
        ensures
            self.spec_closed() ==> res == Err::<Vec<u8>, Error>(Error::Disconnected),
            !self.spec_closed() && text@.len() > u32::MAX ==> res == Err::<Vec<u8>, Error>(
                Error::Unexpected("clipboard text too long"),
            ),
            !self.spec_closed() && text@.len() <= u32::MAX ==> res is Ok && res->Ok_0@
                == C2SView::CutText(text@).encoding(),
    {
        if self.closed {
            return Err(Error::Disconnected);
        }
        if text.len() as u64 > u32::MAX as u64 {
            return Err(Error::Unexpected("clipboard text too long"));
        }
        self.request(C2S::CutText(slice_to_vec(text)))
    }
}

impl Client {
    /// Takes in one rectangle of a framebuffer update and appends what it
    /// makes happen to `events`: see [`rectangle_outcome`]. A new size sets
    /// the session's. A rectangle that fails changes nothing but, for ZRLE,
    /// the decoder, which it may poison.
    #[verifier::rlimit(40)]
    pub fn handle_rectangle(&mut self, rectangle: &Rectangle, events: &mut Vec<Event>) -> (res:
        Result<(), Error>)
        ensures
            final(self).spec_format() == old(self).spec_format(),
            final(self).spec_name() == old(self).spec_name(),
            final(self).spec_encodings() == old(self).spec_encodings(),
            final(self).spec_closed() == old(self).spec_closed(),
            match rectangle_outcome(
                old(self).spec_format(),
                old(self).spec_size().0,
                old(self).spec_size().1,
                old(self).zrle_stream(),
                rectangle@,
            ) {
                Ok(outcome) => res is Ok && events_view(final(events)@) == events_view(
                    old(events)@,
                ) + outcome.events && final(self).spec_size() == outcome.size && final(self).zrle_stream() == outcome.stream,
                Err(e) => res == Err::<(), Error>(e) && events_view(final(events)@) == events_view(
                    old(events)@,
                ) && final(self).spec_size() == old(self).spec_size(),
            },
    {
        match rectangle.encoding {
            Encoding::Raw | Encoding::CopyRect | Encoding::Cursor | Encoding::DesktopSize => {
                let event = match decode_plain(
                    &self.format,
                    rectangle.rect,
                    rectangle.encoding,
                    rectangle.payload.as_slice(),
                ) {
                    Ok(event) => event,
                    Err(e) => { return Err(e); },
                };
                let allowed = match &event {
                    Event::PutPixels(rect, _) => rect.fits(self.width, self.height),
                    Event::CopyPixels { src, dst } => src.fits(self.width, self.height) && dst.fits(
                        self.width,
                        self.height,
                    ),
                    _ => true,
                };
                if !allowed {
                    return Err(Error::Unexpected("rectangle out of bounds"));
                }
                if let Event::Resize(width, height) = &event {
                    self.width = *width;
                    self.height = *height;
                }
                proof {
                    assert(events_view(events@.push(event)) =~= events_view(events@) + seq![
                        event@,
                    ]);
                }
                events.push(event);
                Ok(())
            },
            Encoding::Zrle => {
                if !self.format.is_supported() {
                    return Err(Error::Unexpected("pixel format"));
                }
                if !rectangle.rect.fits(self.width, self.height) {
                    return Err(Error::Unexpected("rectangle out of bounds"));
                }
                let tiles = match self.zrle.decode(
                    self.format,
                    rectangle.rect,
                    rectangle.payload.as_slice(),
                ) {
                    Ok(tiles) => tiles,
                    Err(e) => { return Err(e); },
                };
                let ghost decoded = tiles_view(tiles@);
                let ghost before = events_view(events@);
                let mut i: usize = 0;
                assert(before + tile_events(decoded).subrange(0, 0) =~= before);
                let count = tiles.len();
                while i < count
                    invariant
                        i <= count,
                        count == tiles@.len(),
                        tiles_view(tiles@) == decoded,
                        events_view(events@) == before + tile_events(decoded).subrange(0, i as int),
                    decreases count - i,
                {
                    let rect = tiles[i].rect;
                    let pixels = slice_to_vec(tiles[i].pixels.as_slice());
                    proof {
                        let event = EventView::PutPixels(rect, pixels@);
                        assert(decoded[i as int] == tiles@[i as int]@);
                        assert(tile_events(decoded)[i as int] == event);
                        assert(tile_events(decoded).subrange(0, i + 1) =~= tile_events(
                            decoded,
                        ).subrange(0, i as int).push(event));
                        assert(events_view(events@.push(Event::PutPixels(rect, pixels)))
                            =~= events_view(events@).push(event));
                    }
                    events.push(Event::PutPixels(rect, pixels));
                    i = i + 1;
                }
                assert(tile_events(decoded).subrange(0, count as int) =~= tile_events(decoded));
                Ok(())
            },
            _ => Err(Error::Unexpected("rectangle encoding")),
        }
    }

    /// Takes in the rectangles of a framebuffer update, in their order, and
    /// gives what they make happen, closed by the end of the frame: see
    /// [`update_outcome`]. The first rectangle that fails ends the update
    /// with its error; the framebuffer then has the size that it had.
    #[verifier::rlimit(50)]
    pub fn handle_update(&mut self, rectangles: &[Rectangle]) -> (res: Result<Vec<Event>, Error>)
        ensures
            final(self).spec_format() == old(self).spec_format(),
            final(self).spec_name() == old(self).spec_name(),
            final(self).spec_encodings() == old(self).spec_encodings(),
            final(self).spec_closed() == old(self).spec_closed(),
            match update_outcome(
                old(self).spec_format(),
                old(self).spec_size().0,
                old(self).spec_size().1,
                old(self).zrle_stream(),
                rectangles_view(rectangles@),
            ) {
                Ok(outcome) => res is Ok && events_view(res->Ok_0@) == outcome.events && final(self).spec_size() == outcome.size && final(self).zrle_stream() == outcome.stream,
                Err(e) => res == Err::<Vec<Event>, Error>(e) && final(self).spec_size() == old(self).spec_size(),
            },
            res is Ok ==> res->Ok_0@.len() > 0 && res->Ok_0@.last()@ == EventView::EndOfFrame,
    {
        let ghost all = rectangles_view(rectangles@);
        let ghost format = self.format;
        let ghost stream = self.zrle_stream();
        let width = self.width;
        let height = self.height;
        let mut events: Vec<Event> = Vec::new();
        let mut i: usize = 0;
        proof {
            assert(all.skip(0) =~= all);
            assert(events_view(events@) =~= Seq::<EventView>::empty());
            if let Ok(outcome) = update_outcome(format, width, height, stream, all) {
                assert(Seq::<EventView>::empty() + outcome.events =~= outcome.events);
            }
        }
        while i < rectangles.len()
            invariant
                i <= rectangles.len(),
                all == rectangles_view(rectangles@),
                format == old(self).spec_format(),
                stream == old(self).zrle_stream(),
                (width, height) == old(self).spec_size(),
                self.spec_format() == format,
                self.spec_name() == old(self).spec_name(),
                self.spec_encodings() == old(self).spec_encodings(),
                self.spec_closed() == old(self).spec_closed(),
                update_outcome(format, width, height, stream, all) == prepend_events(
                    events_view(events@),
                    update_outcome(
                        format,
                        self.spec_size().0,
                        self.spec_size().1,
                        self.zrle_stream(),
                        all.skip(i as int),
                    ),
                ),
            decreases rectangles.len() - i,
        {
            let ghost before = events_view(events@);
            let ghost size = self.spec_size();
            let ghost inflater = self.zrle_stream();
            proof {
                assert(all[i as int] == rectangles@[i as int]@);
                assert(all.skip(i as int)[0] == all[i as int]);
                assert(all.skip(i as int).skip(1) =~= all.skip(i + 1));
            }
            match self.handle_rectangle(&rectangles[i], &mut events) {
                Ok(()) => {},
                Err(e) => {
                    self.width = width;
                    self.height = height;
                    return Err(e);
                },
            }
            proof {
                let first = rectangle_outcome(format, size.0, size.1, inflater, all[i as int])->Ok_0;
                let tail = update_outcome(
                    format,
                    first.size.0,
                    first.size.1,
                    first.stream,
                    all.skip(i + 1),
                );
                if let Ok(rest) = tail {
                    assert(before + (first.events + rest.events) =~= (before + first.events)
                        + rest.events);
                }
            }
            i = i + 1;
        }
        proof {
            assert(all.skip(i as int) =~= Seq::<RectangleView>::empty());
            assert(events_view(events@.push(Event::EndOfFrame)) =~= events_view(events@) + seq![
                EventView::EndOfFrame,
            ]);
        }
        events.push(Event::EndOfFrame);
        Ok(events)
    }

    /// Takes in the bytes that have come from the server and gives the
    /// number of bytes used up and what they made happen. One whole message
    /// is read at a time; while its bytes are not all there, nothing is used
    /// and nothing happens. A framebuffer update gives what
    /// [`update_outcome`] says, any other message what [`message_events`]
    /// says. An error ends the session: it is handed out as the one last
    /// event in place of any other, the framebuffer keeps the size that it
    /// had, and nothing comes of a closed session any more.
    #[verifier::rlimit(40)]
    pub fn receive(&mut self, data: &[u8]) -> (res: (usize, Vec<Event>))
        ensures
            final(self).spec_format() == old(self).spec_format(),
            final(self).spec_name() == old(self).spec_name(),
            final(self).spec_encodings() == old(self).spec_encodings(),
            old(self).spec_closed() ==> final(self).spec_closed() && res.0 == 0 && res.1@.len()
                == 0 && final(self).spec_size() == old(self).spec_size(),
            !old(self).spec_closed() ==> match S2CView::parse(old(self).spec_format(), data@, 0) {
                Ok((S2CView::FramebufferUpdate { rectangles }, next)) => res.0 == next
                    && match update_outcome(
                    old(self).spec_format(),
                    old(self).spec_size().0,
                    old(self).spec_size().1,
                    old(self).zrle_stream(),
                    rectangles,
                ) {
                    Ok(outcome) => !final(self).spec_closed() && events_view(res.1@)
                        == outcome.events && final(self).spec_size() == outcome.size && final(self).zrle_stream() == outcome.stream,
                    Err(e) => final(self).spec_closed() && events_view(res.1@) == seq![
                        EventView::Disconnected(Some(e)),
                    ] && final(self).spec_size() == old(self).spec_size(),
                },
                Ok((message, next)) => res.0 == next && !final(self).spec_closed() && events_view(
                    res.1@,
                ) == message_events(message) && final(self).spec_size() == old(self).spec_size()
                    && final(self).zrle_stream() == old(self).zrle_stream(),
                Err(e) => res.0 == 0 && final(self).spec_size() == old(self).spec_size() && final(self).zrle_stream() == old(self).zrle_stream() && if e == Error::Io(
                    IoError::UnexpectedEof,
                ) {
                    !final(self).spec_closed() && res.1@.len() == 0
                } else {
                    final(self).spec_closed() && events_view(res.1@) == seq![
                        EventView::Disconnected(Some(e)),
                    ]
                },
            },
    {
        if self.closed {
            return (0, Vec::new());
        }
        let (message, next) = match S2C::decode(&self.format, data, 0) {
            Ok(read) => read,
            Err(Error::Io(IoError::UnexpectedEof)) => { return (0, Vec::new()); },
            Err(e) => {
                self.closed = true;
                let mut events: Vec<Event> = Vec::new();
                events.push(Event::Disconnected(Some(e)));
                assert(events_view(events@) =~= seq![EventView::Disconnected(Some(e))]);
                return (0, events);
            },
        };
        let mut events: Vec<Event> = Vec::new();
        match message {
            S2C::FramebufferUpdate { rectangles } => {
                match self.handle_update(rectangles.as_slice()) {
                    Ok(events) => (next, events),
                    Err(e) => {
                        self.closed = true;
                        events.push(Event::Disconnected(Some(e)));
                        assert(events_view(events@) =~= seq![EventView::Disconnected(Some(e))]);
                        (next, events)
                    },
                }
            },
            S2C::SetColourMapEntries { first_colour, colours } => {
                events.push(Event::SetColourMap { first_colour, colours });
                assert(events_view(events@) =~= message_events(message@));
                (next, events)
            },
            S2C::Bell => {
                events.push(Event::Bell);
                assert(events_view(events@) =~= message_events(message@));
                (next, events)
            },
            S2C::CutText(text) => {
                events.push(Event::Clipboard(text));
                assert(events_view(events@) =~= message_events(message@));
                (next, events)
            },
        }
    }
}

} // verus!
