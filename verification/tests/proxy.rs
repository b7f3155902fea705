use vnc::protocol::{C2S, Encoding, Rectangle, S2C, ServerInit, Version};
use vnc::proxy::{Proxy, ServerHandshake, ServerPhase, ServerStep};
use vnc::{Error, PixelFormat, Rect};

fn rgb888() -> PixelFormat {
    PixelFormat {
        bits_per_pixel: 32,
        depth: 24,
        big_endian: false,
        true_colour: true,
        red_max: 255,
        green_max: 255,
        blue_max: 255,
        red_shift: 16,
        green_shift: 8,
        blue_shift: 0,
    }
}

fn init() -> ServerInit {
    ServerInit {
        framebuffer_width: 640,
        framebuffer_height: 480,
        pixel_format: rgb888(),
        name: b"behind the proxy".to_vec(),
    }
}

#[test]
fn proxy_greets_a_client_of_3_8() {
    let (mut handshake, greeting) = ServerHandshake::new(Version::Rfb38, init());
    assert_eq!(greeting, b"RFB 003.008\n".to_vec());
    assert_eq!(
        handshake.receive(b"RFB 003"),
        Ok(ServerStep { consumed: 0, reply: vec![] })
    );
    assert_eq!(
        handshake.receive(b"RFB 003.008\n"),
        Ok(ServerStep { consumed: 12, reply: vec![1, 1] })
    );
    assert_eq!(handshake.phase(), ServerPhase::AwaitSecurityType);
    assert_eq!(handshake.receive(&[]), Ok(ServerStep { consumed: 0, reply: vec![] }));
    assert_eq!(
        handshake.receive(&[1]),
        Ok(ServerStep { consumed: 1, reply: vec![0, 0, 0, 0] })
    );
    let mut expected = Vec::new();
    init().encode(&mut expected);
    assert_eq!(
        handshake.receive(&[1, 9, 9]),
        Ok(ServerStep { consumed: 1, reply: expected })
    );
    assert_eq!(handshake.phase(), ServerPhase::Done);
    assert_eq!(handshake.receive(&[1]), Err(Error::Unexpected("handshake is over")));
    assert_eq!(handshake.phase(), ServerPhase::Failed);
}

#[test]
fn proxy_goes_down_to_the_clients_version() {
    let (mut handshake, _) = ServerHandshake::new(Version::Rfb38, init());
    assert_eq!(
        handshake.receive(b"RFB 003.003\n"),
        Ok(ServerStep { consumed: 12, reply: vec![0, 0, 0, 1] })
    );
    assert_eq!(handshake.version(), Version::Rfb33);
    assert_eq!(handshake.phase(), ServerPhase::AwaitClientInit);

    let (mut handshake, greeting) = ServerHandshake::new(Version::Rfb37, init());
    assert_eq!(greeting, b"RFB 003.007\n".to_vec());
    handshake.receive(b"RFB 003.008\n").unwrap();
    assert_eq!(handshake.version(), Version::Rfb37);
    assert_eq!(handshake.receive(&[1]), Ok(ServerStep { consumed: 1, reply: vec![] }));

    let (mut handshake, _) = ServerHandshake::new(Version::Rfb38, init());
    handshake.receive(b"RFB 003.007\n").unwrap();
    assert_eq!(handshake.receive(&[2]), Err(Error::Unexpected("security type")));
    let (mut handshake, _) = ServerHandshake::new(Version::Rfb38, init());
    assert_eq!(handshake.receive(b"RFB 002.000\n"), Err(Error::UnsupportedVersion));
}

#[test]
fn proxy_hands_messages_on() {
    let mut proxy = Proxy::new(rgb888());
    let mut bytes = Vec::new();
    C2S::KeyEvent { down: true, key: 0x61 }.encode(&mut bytes);
    let small = PixelFormat { bits_per_pixel: 8, depth: 8, ..rgb888() };
    C2S::SetPixelFormat(small).encode(&mut bytes);
    assert_eq!(proxy.forward_client(&bytes[..5]), Ok((0, vec![])));
    assert_eq!(proxy.forward_client(&bytes), Ok((8, bytes[..8].to_vec())));
    assert_eq!(proxy.format(), rgb888());
    assert_eq!(proxy.forward_client(&bytes[8..]), Ok((20, bytes[8..].to_vec())));
    assert_eq!(proxy.format(), small);
    assert_eq!(
        proxy.forward_client(&[9]),
        Err(Error::Unexpected("client to server message type"))
    );

    let mut bytes = Vec::new();
    S2C::FramebufferUpdate {
        rectangles: vec![
            Rectangle {
                rect: Rect { left: 0, top: 0, width: 2, height: 2 },
                encoding: Encoding::Raw,
                payload: vec![1, 2, 3, 4],
            },
            Rectangle {
                rect: Rect { left: 0, top: 0, width: 64, height: 64 },
                encoding: Encoding::Zrle,
                payload: vec![0x78, 0x9c, 0xff],
            },
        ],
    }
    .encode(&mut bytes);
    let whole = bytes.len();
    bytes.push(2);
    assert_eq!(proxy.forward_server(&bytes[..whole - 1]), Ok((0, vec![])));
    assert_eq!(proxy.forward_server(&bytes), Ok((whole, bytes[..whole].to_vec())));
    assert_eq!(proxy.forward_server(&bytes[whole..]), Ok((1, vec![2])));
    assert_eq!(
        proxy.forward_server(&[0, 1, 0, 1, 0, 0, 0, 0, 0, 1, 0, 1, 0, 0, 0, 2]),
        Err(Error::Unexpected("rectangle encoding"))
    );
    let padded = [4, 1, 7, 7, 0, 0, 0, 0x61];
    assert_eq!(
        proxy.forward_client(&padded),
        Ok((8, vec![4, 1, 0, 0, 0, 0, 0, 0x61]))
    );
}
