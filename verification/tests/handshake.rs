use vnc::client::Client;
use vnc::des::{encrypt_block, mirror, respond};
use vnc::handshake::{AuthChoice, AuthMethod, Handshake, Phase, Request, Step};
use vnc::protocol::{ServerInit, Version};
use vnc::{Error, PixelFormat};

fn rgb888() -> PixelFormat {
    PixelFormat {
        bits_per_pixel: 32,
        depth: 24,
        big_endian: false,
        true_colour: true,
        red_max: 255,
        green_max: 255,
        blue_max: 255,
        red_shift: 16,
        green_shift: 8,
        blue_shift: 0,
    }
}

fn server_init(name: &[u8]) -> Vec<u8> {
    let init = ServerInit {
        framebuffer_width: 640,
        framebuffer_height: 480,
        pixel_format: rgb888(),
        name: name.to_vec(),
    };
    let mut bytes = Vec::new();
    init.encode(&mut bytes);
    bytes
}

#[test]
fn handshake_3_8_none() {
    let mut handshake = Handshake::new(true);
    let step = handshake.receive(b"RFB 003.008\n").unwrap();
    assert_eq!(step.consumed, 12);
    assert_eq!(step.reply, b"RFB 003.008\n".to_vec());
    assert_eq!(step.request, Request::Input);
    assert_eq!(handshake.version(), Version::Rfb38);

    let step = handshake.receive(&[1, 1]).unwrap();
    assert_eq!(step.consumed, 2);
    assert_eq!(step.reply, Vec::<u8>::new());
    assert_eq!(step.request, Request::Choice(vec![AuthMethod::NoAuthentication]));

    let reply = handshake.decide(Some(AuthChoice::NoAuthentication)).unwrap();
    assert_eq!(reply, vec![1]);
    assert_eq!(handshake.phase(), Phase::AwaitVerdict);

    let step = handshake.receive(&[0, 0, 0, 0]).unwrap();
    assert_eq!(step.consumed, 4);
    assert_eq!(step.reply, vec![1]);

    let bytes = server_init(b"x");
    let step = handshake.receive(&bytes).unwrap();
    assert_eq!(step.consumed, bytes.len());
    assert_eq!(handshake.phase(), Phase::Done);
    let init = match step.request {
        Request::Finished(init) => init,
        other => panic!("unexpected request {:?}", other),
    };
    let client = Client::new(init);
    assert_eq!(client.size(), (640, 480));
    assert_eq!(client.name(), b"x");
    assert_eq!(client.format().bits_per_pixel, 32);
}

#[test]
fn handshake_waits_for_whole_units() {
    let mut handshake = Handshake::new(false);
    let step = handshake.receive(b"RFB 003").unwrap();
    assert_eq!(
        step,
        Step { consumed: 0, reply: vec![], request: Request::Input }
    );
    assert_eq!(handshake.phase(), Phase::AwaitVersion);
    handshake.receive(b"RFB 003.007\nrest").unwrap();
    assert_eq!(handshake.version(), Version::Rfb37);
    let step = handshake.receive(&[2, 2]).unwrap();
    assert_eq!(step.consumed, 0);
    assert_eq!(handshake.phase(), Phase::AwaitSecurity);
}

#[test]
fn handshake_versions() {
    for (banner, version) in [
        (&b"RFB 003.003\n"[..], Version::Rfb33),
        (b"RFB 003.005\n", Version::Rfb33),
        (b"RFB 003.007\n", Version::Rfb37),
        (b"RFB 003.008\n", Version::Rfb38),
    ] {
        let mut handshake = Handshake::new(true);
        let step = handshake.receive(banner).unwrap();
        assert_eq!(handshake.version(), version);
        let mut expected = Vec::new();
        version.encode(&mut expected);
        assert_eq!(step.reply, expected);
    }
    let mut handshake = Handshake::new(true);
    assert_eq!(handshake.receive(b"RFB 003.002\n"), Err(Error::UnsupportedVersion));
    assert_eq!(handshake.phase(), Phase::Failed);
    let mut handshake = Handshake::new(true);
    assert_eq!(handshake.receive(b"RFB 004.000\n"), Err(Error::UnsupportedVersion));
    let mut handshake = Handshake::new(true);
    assert_eq!(
        handshake.receive(b"HTTP/1.1 200\n"),
        Err(Error::Unexpected("protocol version"))
    );
    assert_eq!(
        handshake.receive(b"RFB 003.008\n"),
        Err(Error::Unexpected("handshake is over"))
    );
}

#[test]
fn handshake_3_3_password() {
    let mut handshake = Handshake::new(false);
    handshake.receive(b"RFB 003.003\n").unwrap();
    let step = handshake.receive(&[0, 0, 0, 2]).unwrap();
    assert_eq!(step.consumed, 4);
    assert_eq!(step.request, Request::Choice(vec![AuthMethod::Password]));
    let reply = handshake
        .decide(Some(AuthChoice::Password(*b"secret\0\0")))
        .unwrap();
    assert_eq!(reply, Vec::<u8>::new());
    let challenge: Vec<u8> = (0u8..16).collect();
    let step = handshake.receive(&challenge).unwrap();
    assert_eq!(step.consumed, 16);
    assert_eq!(
        step.reply,
        vec![
            0xee, 0x22, 0x53, 0x9f, 0x33, 0xa5, 0x98, 0x3e, 0xc1, 0x2f, 0x9c, 0x2e, 0xdb, 0xc9,
            0x95, 0xdd
        ]
    );
    assert_eq!(handshake.phase(), Phase::AwaitVerdict);
    assert_eq!(
        handshake.receive(&[0, 0, 0, 1]),
        Err(Error::AuthenticationFailure(vec![]))
    );
}

#[test]
fn handshake_3_7_none_skips_the_verdict() {
    let mut handshake = Handshake::new(true);
    handshake.receive(b"RFB 003.007\n").unwrap();
    let step = handshake.receive(&[3, 2, 1, 30]).unwrap();
    assert_eq!(
        step.request,
        Request::Choice(vec![
            AuthMethod::Password,
            AuthMethod::NoAuthentication,
            AuthMethod::AppleRemoteDesktop
        ])
    );
    let reply = handshake.decide(Some(AuthChoice::NoAuthentication)).unwrap();
    assert_eq!(reply, vec![1, 1]);
    assert_eq!(handshake.phase(), Phase::AwaitServerInit);
}

#[test]
fn handshake_refusals() {
    let mut handshake = Handshake::new(true);
    handshake.receive(b"RFB 003.008\n").unwrap();
    handshake.receive(&[1, 2]).unwrap();
    assert_eq!(handshake.decide(None), Err(Error::AuthenticationUnavailable));
    assert_eq!(handshake.phase(), Phase::Failed);

    let mut handshake = Handshake::new(true);
    handshake.receive(b"RFB 003.008\n").unwrap();
    handshake.receive(&[1, 2]).unwrap();
    assert_eq!(
        handshake.decide(Some(AuthChoice::NoAuthentication)),
        Err(Error::AuthenticationUnavailable)
    );

    let mut handshake = Handshake::new(true);
    handshake.receive(b"RFB 003.008\n").unwrap();
    assert_eq!(handshake.receive(&[2, 5, 19]), Err(Error::AuthenticationUnavailable));

    let mut handshake = Handshake::new(true);
    handshake.receive(b"RFB 003.008\n").unwrap();
    let step = handshake.receive(&[0]).unwrap();
    assert_eq!(step.consumed, 1);
    assert_eq!(handshake.phase(), Phase::AwaitReason);
    assert_eq!(
        handshake.receive(&[0, 0, 0, 3, b'b', b'a', b'd']),
        Err(Error::AuthenticationFailure(b"bad".to_vec()))
    );

    let mut handshake = Handshake::new(true);
    handshake.receive(b"RFB 003.008\n").unwrap();
    handshake.receive(&[1, 2]).unwrap();
    handshake.decide(Some(AuthChoice::Password([0; 8]))).unwrap();
    handshake.receive(&[7; 16]).unwrap();
    let step = handshake.receive(&[0, 0, 0, 1]).unwrap();
    assert_eq!(step.consumed, 4);
    assert_eq!(
        handshake.receive(&[0, 0, 0, 2, b'n', b'o']),
        Err(Error::AuthenticationFailure(b"no".to_vec()))
    );
    assert_eq!(
        handshake.decide(Some(AuthChoice::NoAuthentication)),
        Err(Error::Unexpected("no choice is due"))
    );
}

#[test]
fn handshake_apple_remote_desktop() {
    let mut handshake = Handshake::new(true);
    handshake.receive(b"RFB 003.008\n").unwrap();
    handshake.receive(&[1, 30]).unwrap();
    assert_eq!(
        handshake.apple_response(&[1]),
        Err(Error::Unexpected("no answer is due"))
    );
    let mut handshake = Handshake::new(true);
    handshake.receive(b"RFB 003.008\n").unwrap();
    handshake.receive(&[1, 30]).unwrap();
    let reply = handshake.decide(Some(AuthChoice::AppleRemoteDesktop)).unwrap();
    assert_eq!(reply, vec![30]);
    let step = handshake.receive(&[0, 2, 0, 2, 9]).unwrap();
    assert_eq!(step.consumed, 0);
    let step = handshake.receive(&[0, 2, 0, 2, 9, 8, 7, 6, 5]).unwrap();
    assert_eq!(step.consumed, 8);
    assert_eq!(
        step.request,
        Request::AppleResponse { generator: 2, prime: vec![9, 8], peer_key: vec![7, 6] }
    );
    assert_eq!(handshake.apple_response(&[4, 5, 6]), Ok(vec![4, 5, 6]));
    assert_eq!(handshake.phase(), Phase::AwaitVerdict);
}

#[test]
fn vnc_auth_password_secret() {
    let key: Vec<u8> = b"secret\0\0".iter().map(|byte| mirror(*byte)).collect();
    assert_eq!(key, vec![0xCE, 0xA6, 0xC6, 0x4E, 0xA6, 0x2E, 0x00, 0x00]);
    let challenge: [u8; 16] = [0, 1, 2, 3, 4, 5, 6, 7, 8, 9, 10, 11, 12, 13, 14, 15];
    let response = respond(b"secret\0\0", &challenge);
    let first = encrypt_block(0xCEA6C64EA62E0000, 0x0001020304050607);
    let second = encrypt_block(0xCEA6C64EA62E0000, 0x08090a0b0c0d0e0f);
    let mut expected = first.to_be_bytes().to_vec();
    expected.extend_from_slice(&second.to_be_bytes());
    assert_eq!(response, expected);
    assert_eq!(
        response,
        vec![
            0xee, 0x22, 0x53, 0x9f, 0x33, 0xa5, 0x98, 0x3e, 0xc1, 0x2f, 0x9c, 0x2e, 0xdb, 0xc9,
            0x95, 0xdd
        ]
    );
}

#[test]
fn vnc_auth_challenge_under_a_given_key() {
    assert_eq!(
        encrypt_block(0xCEA6C68A4E960000, 0x0001020304050607),
        0xea058d3d2d0c6d8d
    );
    assert_eq!(
        encrypt_block(0xCEA6C68A4E960000, 0x08090a0b0c0d0e0f),
        0x71dd0ad62d2c45f5
    );
}

#[test]
fn des_known_answers() {
    assert_eq!(encrypt_block(0x133457799BBCDFF1, 0x0123456789ABCDEF), 0x85E813540F0AB405);
    assert_eq!(encrypt_block(0, 0), 0x8CA64DE9C1B123A7);
    assert_eq!(encrypt_block(0xFFFFFFFFFFFFFFFF, 0xFFFFFFFFFFFFFFFF), 0x7359B2163E4EDC58);
}

#[test]
fn mirror_turns_bits_round() {
    assert_eq!(mirror(0x01), 0x80);
    assert_eq!(mirror(0x73), 0xCE);
    for byte in 0..=255u8 {
        assert_eq!(mirror(byte), byte.reverse_bits());
        assert_eq!(mirror(mirror(byte)), byte);
    }
}
