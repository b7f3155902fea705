use vnc::protocol::{
    read_security_types, write_security_types, C2S, ClientInit, Colour, Encoding, Rectangle, S2C,
    SecurityResult, SecurityType, ServerInit, Version,
};
use vnc::wire::{read_i32, read_string, read_u16, read_u32, write_i32, write_string, write_u32};
use vnc::pixel_format::bits_of;
use vnc::{Error, IoError, PixelFormat, Rect};

fn rgb888() -> PixelFormat {
    PixelFormat {
        bits_per_pixel: 32,
        depth: 24,
        big_endian: false,
        true_colour: true,
        red_max: 255,
        green_max: 255,
        blue_max: 255,
        red_shift: 16,
        green_shift: 8,
        blue_shift: 0,
    }
}

fn c2s_round_trip(message: C2S) {
    let mut bytes = vec![0xEE];
    message.encode(&mut bytes);
    bytes.push(0x77);
    let end = bytes.len() - 1;
    assert_eq!(C2S::decode(&bytes, 1), Ok((message, end)));
    assert_eq!(
        C2S::decode(&bytes[..end - 1], 1),
        Err(Error::Io(IoError::UnexpectedEof))
    );
}

fn s2c_round_trip(message: S2C) {
    let mut bytes = vec![0xEE];
    message.encode(&mut bytes);
    bytes.push(0x77);
    let end = bytes.len() - 1;
    assert_eq!(S2C::decode(&rgb888(), &bytes, 1), Ok((message, end)));
    if end > 2 {
        assert_eq!(
            S2C::decode(&rgb888(), &bytes[..end - 1], 1),
            Err(Error::Io(IoError::UnexpectedEof))
        );
    }
}

#[test]
fn pixel_format_round_trip() {
    let format = PixelFormat {
        bits_per_pixel: 16,
        depth: 15,
        big_endian: true,
        true_colour: false,
        red_max: 31,
        green_max: 0x1234,
        blue_max: 65535,
        red_shift: 10,
        green_shift: 5,
        blue_shift: 0,
    };
    let mut bytes = Vec::new();
    format.encode(&mut bytes);
    assert_eq!(
        bytes,
        vec![16, 15, 1, 0, 0, 31, 0x12, 0x34, 0xff, 0xff, 10, 5, 0, 0, 0, 0]
    );
    assert_eq!(PixelFormat::decode(&bytes, 0), Ok((format, 16)));
    let mut bytes = Vec::new();
    rgb888().encode(&mut bytes);
    assert_eq!(PixelFormat::decode(&bytes, 0), Ok((rgb888(), 16)));
    assert_eq!(
        PixelFormat::decode(&bytes[..15], 0),
        Err(Error::Io(IoError::UnexpectedEof))
    );
    bytes[2] = 9;
    bytes[15] = 5;
    assert!(PixelFormat::decode(&bytes, 0).unwrap().0.big_endian);
}

#[test]
fn rect_round_trip() {
    let rect = Rect { left: 0x0102, top: 0xfffe, width: 0, height: 65535 };
    let mut bytes = vec![9];
    rect.encode(&mut bytes);
    assert_eq!(bytes, vec![9, 1, 2, 0xff, 0xfe, 0, 0, 0xff, 0xff]);
    assert_eq!(Rect::decode(&bytes, 1), Ok((rect, 9)));
    assert_eq!(Rect::decode(&bytes, 2), Err(Error::Io(IoError::UnexpectedEof)));
    assert_eq!(
        Rect::decode(&bytes, usize::MAX),
        Err(Error::Io(IoError::UnexpectedEof))
    );
}

#[test]
fn integers_are_big_endian() {
    let mut bytes = Vec::new();
    write_u32(&mut bytes, 0x01020304);
    write_i32(&mut bytes, -239);
    write_i32(&mut bytes, i32::MIN);
    write_i32(&mut bytes, i32::MAX);
    assert_eq!(
        bytes,
        vec![1, 2, 3, 4, 0xff, 0xff, 0xff, 0x11, 0x80, 0, 0, 0, 0x7f, 0xff, 0xff, 0xff]
    );
    assert_eq!(read_u32(&bytes, 0), Ok((0x01020304, 4)));
    assert_eq!(read_u16(&bytes, 1), Ok((0x0203, 3)));
    assert_eq!(read_i32(&bytes, 4), Ok((-239, 8)));
    assert_eq!(read_i32(&bytes, 8), Ok((i32::MIN, 12)));
    assert_eq!(read_i32(&bytes, 12), Ok((i32::MAX, 16)));
    assert_eq!(read_i32(&bytes, 13), Err(Error::Io(IoError::UnexpectedEof)));
}

#[test]
fn strings_carry_their_length() {
    let mut bytes = Vec::new();
    write_string(&mut bytes, b"hi\xff");
    assert_eq!(bytes, vec![0, 0, 0, 3, b'h', b'i', 0xff]);
    assert_eq!(read_string(&bytes, 0), Ok((b"hi\xff".to_vec(), 7)));
    assert_eq!(read_string(&bytes[..6], 0), Err(Error::Io(IoError::UnexpectedEof)));
    assert_eq!(
        read_string(&[0xff, 0xff, 0xff, 0xff, 1], 0),
        Err(Error::Io(IoError::UnexpectedEof))
    );
}

#[test]
fn encodings_have_their_codes() {
    for (encoding, code) in [
        (Encoding::Raw, 0),
        (Encoding::CopyRect, 1),
        (Encoding::Rre, 2),
        (Encoding::Hextile, 5),
        (Encoding::Zrle, 16),
        (Encoding::Cursor, -239),
        (Encoding::DesktopSize, -223),
        (Encoding::Unknown(77), 77),
    ] {
        assert_eq!(encoding.to_code(), code);
        assert_eq!(Encoding::from_code(code), encoding);
    }
}

#[test]
fn client_messages_round_trip() {
    c2s_round_trip(C2S::SetPixelFormat(rgb888()));
    c2s_round_trip(C2S::SetEncodings(vec![]));
    c2s_round_trip(C2S::SetEncodings(vec![
        Encoding::Zrle,
        Encoding::CopyRect,
        Encoding::Raw,
        Encoding::Cursor,
        Encoding::DesktopSize,
        Encoding::Unknown(-1),
    ]));
    c2s_round_trip(C2S::FramebufferUpdateRequest {
        incremental: true,
        rect: Rect { left: 1, top: 2, width: 3, height: 4 },
    });
    c2s_round_trip(C2S::KeyEvent { down: true, key: 0xff0d });
    c2s_round_trip(C2S::KeyEvent { down: false, key: 0x01000041 });
    c2s_round_trip(C2S::PointerEvent { button_mask: 5, x_position: 640, y_position: 480 });
    c2s_round_trip(C2S::CutText(b"clip".to_vec()));
    c2s_round_trip(C2S::CutText(vec![]));
}

#[test]
fn client_messages_on_the_wire() {
    let mut bytes = Vec::new();
    C2S::SetEncodings(vec![Encoding::Zrle, Encoding::DesktopSize]).encode(&mut bytes);
    assert_eq!(bytes, vec![2, 0, 0, 2, 0, 0, 0, 16, 0xff, 0xff, 0xff, 0x21]);
    let mut bytes = Vec::new();
    C2S::KeyEvent { down: true, key: 0x61 }.encode(&mut bytes);
    assert_eq!(bytes, vec![4, 1, 0, 0, 0, 0, 0, 0x61]);
    let mut bytes = Vec::new();
    C2S::PointerEvent { button_mask: 1, x_position: 2, y_position: 3 }.encode(&mut bytes);
    assert_eq!(bytes, vec![5, 1, 0, 2, 0, 3]);
    let mut bytes = Vec::new();
    C2S::FramebufferUpdateRequest {
        incremental: false,
        rect: Rect { left: 0, top: 0, width: 800, height: 600 },
    }
    .encode(&mut bytes);
    assert_eq!(bytes, vec![3, 0, 0, 0, 0, 0, 3, 0x20, 2, 0x58]);
    assert_eq!(
        C2S::decode(&[1, 0, 0, 0], 0),
        Err(Error::Unexpected("client to server message type"))
    );
    assert_eq!(C2S::decode(&[], 0), Err(Error::Io(IoError::UnexpectedEof)));
}

#[test]
fn server_messages_round_trip() {
    s2c_round_trip(S2C::Bell);
    s2c_round_trip(S2C::CutText(b"from the server".to_vec()));
    s2c_round_trip(S2C::SetColourMapEntries {
        first_colour: 3,
        colours: vec![
            Colour { red: 1, green: 2, blue: 3 },
            Colour { red: 65535, green: 0, blue: 0x8000 },
        ],
    });
    s2c_round_trip(S2C::FramebufferUpdate { rectangles: vec![] });
    s2c_round_trip(S2C::FramebufferUpdate {
        rectangles: vec![
            Rectangle {
                rect: Rect { left: 0, top: 0, width: 800, height: 600 },
                encoding: Encoding::DesktopSize,
                payload: vec![],
            },
            Rectangle {
                rect: Rect { left: 1, top: 1, width: 2, height: 1 },
                encoding: Encoding::Raw,
                payload: vec![1, 2, 3, 4, 5, 6, 7, 8],
            },
            Rectangle {
                rect: Rect { left: 5, top: 6, width: 30, height: 40 },
                encoding: Encoding::CopyRect,
                payload: vec![0, 10, 0, 20],
            },
            Rectangle {
                rect: Rect { left: 1, top: 2, width: 9, height: 2 },
                encoding: Encoding::Cursor,
                payload: vec![7; 9 * 2 * 4 + 2 * 2],
            },
            Rectangle {
                rect: Rect { left: 0, top: 0, width: 64, height: 64 },
                encoding: Encoding::Zrle,
                payload: vec![0x78, 0x9c, 1, 2, 3],
            },
        ],
    });
}

#[test]
fn server_messages_that_cannot_be_read() {
    assert_eq!(
        S2C::decode(&rgb888(), &[9], 0),
        Err(Error::Unexpected("server to client message type"))
    );
    let mut bytes = vec![0, 0, 0, 1, 0, 0, 0, 0, 0, 1, 0, 1];
    bytes.extend_from_slice(&[0, 0, 0, 5]);
    bytes.extend_from_slice(&[0; 64]);
    assert_eq!(
        S2C::decode(&rgb888(), &bytes, 0),
        Err(Error::Unexpected("rectangle encoding"))
    );
    assert_eq!(
        Rectangle::decode(&rgb888(), &[0, 0, 0, 0, 0, 1, 0, 1, 0, 0, 0, 0, 1, 2, 3], 0),
        Err(Error::Io(IoError::UnexpectedEof))
    );
}

#[test]
fn handshake_messages_round_trip() {
    for version in [Version::Rfb33, Version::Rfb37, Version::Rfb38] {
        let mut bytes = Vec::new();
        version.encode(&mut bytes);
        assert_eq!(bytes.len(), 12);
        assert_eq!(Version::decode(&bytes, 0), Ok((version, 12)));
    }
    let mut bytes = Vec::new();
    Version::Rfb38.encode(&mut bytes);
    assert_eq!(bytes, b"RFB 003.008\n".to_vec());

    let types = vec![
        SecurityType::NoAuthentication,
        SecurityType::VncAuthentication,
        SecurityType::AppleRemoteDesktop,
        SecurityType::Invalid,
        SecurityType::Unknown(19),
    ];
    let mut bytes = Vec::new();
    write_security_types(&mut bytes, &types);
    assert_eq!(bytes, vec![5, 1, 2, 30, 0, 19]);
    assert_eq!(read_security_types(&bytes, 0), Ok((types, 6)));

    for result in [SecurityResult::Succeeded, SecurityResult::Failed] {
        let mut bytes = Vec::new();
        result.encode(&mut bytes);
        assert_eq!(SecurityResult::decode(&bytes, 0), Ok((result, 4)));
    }
    assert_eq!(
        SecurityResult::decode(&[0, 0, 1, 0], 0),
        Ok((SecurityResult::Failed, 4))
    );

    for shared in [false, true] {
        let mut bytes = Vec::new();
        ClientInit { shared }.encode(&mut bytes);
        assert_eq!(ClientInit::decode(&bytes, 0), Ok((ClientInit { shared }, 1)));
    }

    let init = ServerInit {
        framebuffer_width: 640,
        framebuffer_height: 480,
        pixel_format: rgb888(),
        name: b"desktop".to_vec(),
    };
    let mut bytes = Vec::new();
    init.encode(&mut bytes);
    assert_eq!(bytes.len(), 2 + 2 + 16 + 4 + 7);
    assert_eq!(ServerInit::decode(&bytes, 0), Ok((init, 31)));
}

#[test]
fn pixel_formats_are_sound_or_not() {
    assert!(rgb888().is_valid());
    assert!(rgb888().is_supported());
    assert_eq!(rgb888().pixel_size(), 4);
    assert_eq!(rgb888().colour_mask(), 0x00ff_ffff);
    let rgb565 = PixelFormat {
        bits_per_pixel: 16,
        depth: 16,
        red_max: 31,
        green_max: 63,
        blue_max: 31,
        red_shift: 11,
        green_shift: 5,
        blue_shift: 0,
        ..rgb888()
    };
    assert!(rgb565.is_valid());
    assert_eq!(rgb565.colour_mask(), 0xffff);
    assert!(!PixelFormat { red_max: 63, ..rgb565 }.is_valid());
    assert!(!PixelFormat { green_shift: 4, ..rgb565 }.is_valid());
    assert!(!PixelFormat { blue_max: 0, ..rgb565 }.is_valid());
    assert!(!PixelFormat { depth: 17, ..rgb565 }.is_valid());
    assert!(!PixelFormat { bits_per_pixel: 24, ..rgb888() }.is_valid());
    assert!(!PixelFormat { bits_per_pixel: 24, ..rgb888() }.is_supported());
    assert!(!PixelFormat { red_shift: 32, ..rgb888() }.is_supported());
    assert!(!PixelFormat { red_shift: 25, ..rgb888() }.is_valid());
    let colour_map = PixelFormat {
        bits_per_pixel: 8,
        depth: 8,
        true_colour: false,
        red_max: 0,
        green_max: 0,
        blue_max: 0,
        red_shift: 0,
        green_shift: 0,
        blue_shift: 0,
        big_endian: false,
    };
    assert!(colour_map.is_valid());
    for (max, bits) in [(0u16, 0u16), (1, 1), (2, 2), (3, 2), (255, 8), (256, 9), (65535, 16)] {
        assert_eq!(bits_of(max), bits);
    }
}

#[test]
fn rectangles_fit_or_not() {
    let rect = Rect { left: 600, top: 400, width: 40, height: 80 };
    assert!(rect.fits(640, 480));
    assert!(!rect.fits(639, 480));
    assert!(!rect.fits(640, 479));
    assert!(Rect { left: 65535, top: 65535, width: 0, height: 0 }.fits(65535, 65535));
    assert!(!Rect { left: 65535, top: 0, width: 1, height: 0 }.fits(65535, 65535));
}
