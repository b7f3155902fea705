use flate2::{Compress, Compression, FlushCompress};
use vnc::client::Client;
use vnc::event::{decode_plain, Event};
use vnc::protocol::{C2S, Colour, Encoding, Rectangle, S2C, ServerInit};
use vnc::{Error, PixelFormat, Rect};

fn rgb888() -> PixelFormat {
    PixelFormat {
        bits_per_pixel: 32,
        depth: 24,
        big_endian: false,
        true_colour: true,
        red_max: 255,
        green_max: 255,
        blue_max: 255,
        red_shift: 16,
        green_shift: 8,
        blue_shift: 0,
    }
}

fn client() -> Client {
    Client::new(ServerInit {
        framebuffer_width: 640,
        framebuffer_height: 480,
        pixel_format: rgb888(),
        name: b"x".to_vec(),
    })
}

fn update(rectangles: Vec<Rectangle>) -> Vec<u8> {
    let mut bytes = Vec::new();
    S2C::FramebufferUpdate { rectangles }.encode(&mut bytes);
    bytes
}

fn encoded(message: C2S) -> Vec<u8> {
    let mut bytes = Vec::new();
    message.encode(&mut bytes);
    bytes
}

#[test]
fn copy_rect() {
    let rect = Rect { left: 5, top: 6, width: 30, height: 40 };
    let event = decode_plain(&rgb888(), rect, Encoding::CopyRect, &[0, 10, 0, 20]);
    assert_eq!(
        event,
        Ok(Event::CopyPixels {
            src: Rect { left: 10, top: 20, width: 30, height: 40 },
            dst: Rect { left: 5, top: 6, width: 30, height: 40 },
        })
    );
    assert_eq!(
        decode_plain(&rgb888(), rect, Encoding::CopyRect, &[0, 10, 0]),
        Err(Error::Unexpected("rectangle payload"))
    );
}

#[test]
fn desktop_size() {
    let mut client = client();
    let bytes = update(vec![Rectangle {
        rect: Rect { left: 0, top: 0, width: 800, height: 600 },
        encoding: Encoding::DesktopSize,
        payload: vec![],
    }]);
    let (consumed, events) = client.receive(&bytes);
    assert_eq!(consumed, bytes.len());
    assert_eq!(events, vec![Event::Resize(800, 600), Event::EndOfFrame]);
    assert_eq!(client.size(), (800, 600));
}

#[test]
fn raw_and_cursor_rectangles() {
    let rect = Rect { left: 1, top: 2, width: 2, height: 1 };
    assert_eq!(
        decode_plain(&rgb888(), rect, Encoding::Raw, &[1, 2, 3, 4, 5, 6, 7, 8]),
        Ok(Event::PutPixels(rect, vec![1, 2, 3, 4, 5, 6, 7, 8]))
    );
    let cursor = Rect { left: 3, top: 4, width: 9, height: 2 };
    let mut payload = vec![0x11; 9 * 2 * 4];
    payload.extend_from_slice(&[0xff, 0x80, 0x0f, 0x00]);
    assert_eq!(
        decode_plain(&rgb888(), cursor, Encoding::Cursor, &payload),
        Ok(Event::SetCursor {
            size: (9, 2),
            hotspot: (3, 4),
            pixels: vec![0x11; 72],
            mask_bits: vec![0xff, 0x80, 0x0f, 0x00],
        })
    );
    assert_eq!(
        decode_plain(&rgb888(), rect, Encoding::Hextile, &[]),
        Err(Error::Unexpected("rectangle payload"))
    );
}

#[test]
fn update_events_come_in_order() {
    let mut client = client();
    let bytes = update(vec![
        Rectangle {
            rect: Rect { left: 700, top: 0, width: 1, height: 1 },
            encoding: Encoding::Raw,
            payload: vec![1, 2, 3, 4],
        },
    ]);
    let (_, events) = client.receive(&bytes);
    assert_eq!(
        events,
        vec![Event::Disconnected(Some(Error::Unexpected("rectangle out of bounds")))]
    );
    assert!(client.is_closed());
    assert_eq!(client.receive(&bytes), (0, vec![]));

    let mut client = self::client();
    let bytes = update(vec![
        Rectangle {
            rect: Rect { left: 0, top: 0, width: 800, height: 600 },
            encoding: Encoding::DesktopSize,
            payload: vec![],
        },
        Rectangle {
            rect: Rect { left: 700, top: 0, width: 1, height: 1 },
            encoding: Encoding::Raw,
            payload: vec![1, 2, 3, 4],
        },
        Rectangle {
            rect: Rect { left: 5, top: 6, width: 30, height: 40 },
            encoding: Encoding::CopyRect,
            payload: vec![0, 10, 0, 20],
        },
    ]);
    let (consumed, events) = client.receive(&bytes);
    assert_eq!(consumed, bytes.len());
    assert_eq!(
        events,
        vec![
            Event::Resize(800, 600),
            Event::PutPixels(Rect { left: 700, top: 0, width: 1, height: 1 }, vec![1, 2, 3, 4]),
            Event::CopyPixels {
                src: Rect { left: 10, top: 20, width: 30, height: 40 },
                dst: Rect { left: 5, top: 6, width: 30, height: 40 },
            },
            Event::EndOfFrame,
        ]
    );
}

#[test]
fn zrle_rectangles_share_one_stream() {
    let mut stream = Compress::new(Compression::default(), true);
    let mut first = Vec::with_capacity(64);
    stream
        .compress_vec(&[0x01, 0xAA, 0xBB, 0xCC], &mut first, FlushCompress::Sync)
        .unwrap();
    let mut second = Vec::with_capacity(64);
    stream
        .compress_vec(&[0x00, 1, 2, 3, 4, 5, 6], &mut second, FlushCompress::Sync)
        .unwrap();
    let one = Rect { left: 0, top: 0, width: 1, height: 1 };
    let two = Rect { left: 10, top: 10, width: 2, height: 1 };
    let mut client = client();
    let mut bytes = update(vec![
        Rectangle { rect: one, encoding: Encoding::Zrle, payload: first },
        Rectangle { rect: two, encoding: Encoding::Zrle, payload: second },
    ]);
    let whole = bytes.len();
    assert_eq!(client.receive(&bytes[..whole - 1]), (0, vec![]));
    bytes.push(2);
    let (consumed, events) = client.receive(&bytes);
    assert_eq!(consumed, whole);
    assert_eq!(
        events,
        vec![
            Event::PutPixels(one, vec![0xAA, 0xBB, 0xCC, 0]),
            Event::PutPixels(two, vec![1, 2, 3, 0, 4, 5, 6, 0]),
            Event::EndOfFrame,
        ]
    );
    assert_eq!(client.receive(&bytes[consumed..]), (1, vec![Event::Bell]));
}

#[test]
fn zrle_failure_ends_the_session() {
    let mut client = client();
    let bytes = update(vec![Rectangle {
        rect: Rect { left: 0, top: 0, width: 1, height: 1 },
        encoding: Encoding::Zrle,
        payload: vec![1, 2, 3, 4, 5],
    }]);
    let (_, events) = client.receive(&bytes);
    assert_eq!(events.len(), 1);
    assert!(matches!(events[0], Event::Disconnected(Some(_))));
    assert!(client.is_closed());
    assert_eq!(client.request_update(Rect { left: 0, top: 0, width: 1, height: 1 }, true), Err(Error::Disconnected));
}

#[test]
fn other_server_messages() {
    let mut client = client();
    let mut bytes = Vec::new();
    S2C::CutText(b"text".to_vec()).encode(&mut bytes);
    S2C::SetColourMapEntries {
        first_colour: 1,
        colours: vec![Colour { red: 1, green: 2, blue: 3 }],
    }
    .encode(&mut bytes);
    let (consumed, events) = client.receive(&bytes);
    assert_eq!(consumed, 12);
    assert_eq!(events, vec![Event::Clipboard(b"text".to_vec())]);
    let (consumed, events) = client.receive(&bytes[12..]);
    assert_eq!(consumed, 12);
    assert_eq!(
        events,
        vec![Event::SetColourMap {
            first_colour: 1,
            colours: vec![Colour { red: 1, green: 2, blue: 3 }],
        }]
    );
    let (consumed, events) = client.receive(&[200]);
    assert_eq!(consumed, 0);
    assert_eq!(
        events,
        vec![Event::Disconnected(Some(Error::Unexpected(
            "server to client message type"
        )))]
    );
}

#[test]
fn requests_are_messages() {
    let mut client = client();
    let rect = Rect { left: 0, top: 0, width: 640, height: 480 };
    assert_eq!(
        client.request_update(rect, false),
        Ok(encoded(C2S::FramebufferUpdateRequest { incremental: false, rect }))
    );
    assert_eq!(
        client.send_key_event(true, 0xff0d),
        Ok(encoded(C2S::KeyEvent { down: true, key: 0xff0d }))
    );
    assert_eq!(
        client.send_pointer_event(1, 2, 3),
        Ok(encoded(C2S::PointerEvent { button_mask: 1, x_position: 2, y_position: 3 }))
    );
    assert_eq!(
        client.update_clipboard(b"clip"),
        Ok(encoded(C2S::CutText(b"clip".to_vec())))
    );
    let encodings = [Encoding::Zrle, Encoding::DesktopSize];
    assert_eq!(
        client.set_encodings(&encodings),
        Ok(encoded(C2S::SetEncodings(encodings.to_vec())))
    );
    assert_eq!(client.encodings(), &encodings[..]);
    assert_eq!(
        client.poke_server(),
        Ok(encoded(C2S::SetPixelFormat(rgb888())))
    );
    let format = PixelFormat { bits_per_pixel: 16, depth: 16, red_max: 31, ..rgb888() };
    assert_eq!(
        client.set_format(format),
        Ok(encoded(C2S::SetPixelFormat(format)))
    );
    assert_eq!(client.format(), format);
    assert_eq!(client.poke_server(), Ok(encoded(C2S::SetPixelFormat(format))));
    let many = vec![Encoding::Raw; 65536];
    assert_eq!(
        client.set_encodings(&many),
        Err(Error::Unexpected("too many encodings"))
    );
    client.close();
    assert_eq!(client.send_key_event(true, 1), Err(Error::Disconnected));
    assert_eq!(client.poke_server(), Err(Error::Disconnected));
    assert!(Error::BackPressure.is_recoverable());
    assert!(!Error::Disconnected.is_recoverable());
}

#[test]
fn copy_then_zrle_in_order() {
    let mut stream = Compress::new(Compression::default(), true);
    let mut compressed = Vec::with_capacity(64);
    stream
        .compress_vec(&[0x01, 0xAA, 0xBB, 0xCC, 0x01, 1, 2, 3], &mut compressed, FlushCompress::Sync)
        .unwrap();
    let copied = Rect { left: 5, top: 6, width: 30, height: 40 };
    let drawn = Rect { left: 100, top: 100, width: 65, height: 1 };
    let mut client = client();
    let bytes = update(vec![
        Rectangle { rect: copied, encoding: Encoding::CopyRect, payload: vec![0, 10, 0, 20] },
        Rectangle { rect: drawn, encoding: Encoding::Zrle, payload: compressed },
    ]);
    let (consumed, events) = client.receive(&bytes);
    assert_eq!(consumed, bytes.len());
    assert_eq!(
        events,
        vec![
            Event::CopyPixels {
                src: Rect { left: 10, top: 20, width: 30, height: 40 },
                dst: copied,
            },
            Event::PutPixels(
                Rect { left: 100, top: 100, width: 64, height: 1 },
                [0xAA, 0xBB, 0xCC, 0].repeat(64)
            ),
            Event::PutPixels(Rect { left: 164, top: 100, width: 1, height: 1 }, vec![1, 2, 3, 0]),
            Event::EndOfFrame,
        ]
    );
}

#[test]
fn new_size_then_a_whole_frame() {
    let mut inflated = Vec::new();
    for tile in 0..130u8 {
        inflated.extend_from_slice(&[0x01, tile, tile, tile]);
    }
    let mut stream = Compress::new(Compression::default(), true);
    let mut compressed = Vec::with_capacity(1024);
    stream
        .compress_vec(&inflated, &mut compressed, FlushCompress::Sync)
        .unwrap();
    let whole = Rect { left: 0, top: 0, width: 800, height: 600 };
    let mut client = client();
    let bytes = update(vec![
        Rectangle { rect: whole, encoding: Encoding::DesktopSize, payload: vec![] },
        Rectangle { rect: whole, encoding: Encoding::Zrle, payload: compressed },
    ]);
    let (consumed, events) = client.receive(&bytes);
    assert_eq!(consumed, bytes.len());
    assert_eq!(client.size(), (800, 600));
    assert_eq!(events.len(), 1 + 130 + 1);
    assert_eq!(events[0], Event::Resize(800, 600));
    assert_eq!(events[131], Event::EndOfFrame);
    for j in 0..10u16 {
        for i in 0..13u16 {
            let place = Rect {
                left: 64 * i,
                top: 64 * j,
                width: if i == 12 { 32 } else { 64 },
                height: if j == 9 { 24 } else { 64 },
            };
            let tile = (j * 13 + i) as u8;
            let pixels = [tile, tile, tile, 0].repeat(place.width as usize * place.height as usize);
            assert_eq!(events[1 + (j * 13 + i) as usize], Event::PutPixels(place, pixels));
        }
    }
}

#[test]
fn failed_update_leaves_the_size() {
    let mut client = client();
    let bytes = update(vec![
        Rectangle {
            rect: Rect { left: 0, top: 0, width: 800, height: 600 },
            encoding: Encoding::DesktopSize,
            payload: vec![],
        },
        Rectangle {
            rect: Rect { left: 799, top: 0, width: 2, height: 1 },
            encoding: Encoding::Raw,
            payload: vec![0; 8],
        },
    ]);
    let (consumed, events) = client.receive(&bytes);
    assert_eq!(consumed, bytes.len());
    assert_eq!(
        events,
        vec![Event::Disconnected(Some(Error::Unexpected("rectangle out of bounds")))]
    );
    assert!(client.is_closed());
    assert_eq!(client.size(), (640, 480));
}
