use vnc::handshake::{AuthChoice, AuthMethod};
use vnc::host::{
    advertised_encodings, alpha_format, decide_auth, expand_mask, map_special_key, mask_cursor,
    password_key, pixel_format_sdl_to_vnc, pixel_format_vnc_to_sdl, smoothed_rtt, text_keysym,
    PixelMasks, SurfaceFormat,
};
use vnc::protocol::Encoding;
use vnc::PixelFormat;
use x11::keysym;

const RGB888: PixelMasks =
    PixelMasks { size: 4, rmask: 0x00ff0000, gmask: 0x0000ff00, bmask: 0x000000ff, amask: 0 };
const ARGB8888: PixelMasks = PixelMasks {
    size: 4,
    rmask: 0x00ff0000,
    gmask: 0x0000ff00,
    bmask: 0x000000ff,
    amask: 0xff000000,
};
const ABGR8888: PixelMasks = PixelMasks {
    size: 4,
    rmask: 0x000000ff,
    gmask: 0x0000ff00,
    bmask: 0x00ff0000,
    amask: 0xff000000,
};
const RGB565: PixelMasks =
    PixelMasks { size: 2, rmask: 0xf800, gmask: 0x07e0, bmask: 0x001f, amask: 0 };
const ARGB1555: PixelMasks =
    PixelMasks { size: 2, rmask: 0x7c00, gmask: 0x03e0, bmask: 0x001f, amask: 0x8000 };

#[test]
fn formats_correspond() {
    let all = [
        SurfaceFormat::RGB332,
        SurfaceFormat::RGB444,
        SurfaceFormat::RGB555,
        SurfaceFormat::BGR555,
        SurfaceFormat::ARGB4444,
        SurfaceFormat::ARGB1555,
        SurfaceFormat::ABGR1555,
        SurfaceFormat::RGB565,
        SurfaceFormat::BGR565,
        SurfaceFormat::RGB24,
        SurfaceFormat::BGR24,
        SurfaceFormat::RGB888,
        SurfaceFormat::RGBX8888,
        SurfaceFormat::BGR888,
        SurfaceFormat::BGRX8888,
        SurfaceFormat::ARGB8888,
        SurfaceFormat::ABGR8888,
    ];
    let mut known = 0;
    for surface in all {
        if let Some(format) = pixel_format_sdl_to_vnc(surface) {
            known += 1;
            assert_eq!(pixel_format_vnc_to_sdl(format), Some(surface));
        }
    }
    assert_eq!(known, 5);
    let rgb888 = pixel_format_sdl_to_vnc(SurfaceFormat::RGB888).unwrap();
    assert_eq!(
        rgb888,
        PixelFormat {
            bits_per_pixel: 32,
            depth: 24,
            big_endian: false,
            true_colour: true,
            red_max: 255,
            green_max: 255,
            blue_max: 255,
            red_shift: 16,
            green_shift: 8,
            blue_shift: 0,
        }
    );
    assert_eq!(
        pixel_format_sdl_to_vnc(SurfaceFormat::BGR565).unwrap().blue_shift,
        11
    );
    assert_eq!(pixel_format_sdl_to_vnc(SurfaceFormat::RGB24), None);
    assert_eq!(
        pixel_format_vnc_to_sdl(PixelFormat { big_endian: true, ..rgb888 }),
        None
    );
    assert_eq!(alpha_format(SurfaceFormat::RGB332), Some(SurfaceFormat::ARGB4444));
    assert_eq!(alpha_format(SurfaceFormat::RGB565), Some(SurfaceFormat::ARGB1555));
    assert_eq!(alpha_format(SurfaceFormat::BGR565), Some(SurfaceFormat::ABGR1555));
    assert_eq!(alpha_format(SurfaceFormat::RGB888), Some(SurfaceFormat::ARGB8888));
    assert_eq!(alpha_format(SurfaceFormat::BGR24), Some(SurfaceFormat::ABGR8888));
    assert_eq!(alpha_format(SurfaceFormat::ARGB8888), None);
}

#[test]
fn cursor_gets_its_alpha() {
    let pixels = [0x33, 0x22, 0x11, 0x00, 0xcc, 0xbb, 0xaa, 0x99, 0x01, 0x02];
    let mask = [0x80, 0x00, 0x01];
    assert_eq!(
        mask_cursor(&RGB888, &ARGB8888, &pixels, &mask, false),
        vec![0x33, 0x22, 0x11, 0xff, 0xcc, 0xbb, 0xaa, 0x00]
    );
    assert_eq!(
        mask_cursor(&RGB888, &ABGR8888, &pixels, &mask, false),
        vec![0x11, 0x22, 0x33, 0xff, 0xaa, 0xbb, 0xcc, 0x00]
    );
    assert_eq!(
        mask_cursor(&RGB888, &ARGB8888, &pixels, &mask, true),
        vec![0xff, 0x22, 0x11, 0x00, 0x00, 0xbb, 0xaa, 0x99]
    );
    let pixel = [0xff, 0xff];
    assert_eq!(
        mask_cursor(&RGB565, &ARGB1555, &pixel, &[1], false),
        vec![0xff, 0xff]
    );
    assert_eq!(
        mask_cursor(&RGB565, &ARGB1555, &[0x1f, 0x00, 0x00, 0xf8], &[0, 0], false),
        vec![0x1f, 0x00, 0x00, 0x7c]
    );
    assert_eq!(mask_cursor(&RGB888, &ARGB8888, &[1, 2, 3], &[], false), Vec::<u8>::new());
}

#[test]
fn masks_expand_to_bytes() {
    assert_eq!(
        expand_mask(3, 2, &[0b1010_0000, 0b0100_0001]),
        vec![0x80, 0, 0x20, 0, 0, 0, 0, 0, 0, 0x40, 0, 0, 0, 0, 0, 1]
    );
    assert_eq!(expand_mask(9, 1, &[0xff, 0x80, 0x55]).len(), 16);
    assert_eq!(expand_mask(0, 4, &[]), Vec::<u8>::new());
    assert_eq!(expand_mask(8, 0, &[1]), Vec::<u8>::new());
}

#[test]
fn keys_have_their_symbols() {
    assert_eq!(map_special_key(true, 0x20), Some(0x20));
    assert_eq!(map_special_key(true, 'a' as i32), Some(0x61));
    assert_eq!(map_special_key(true, 'z' as i32), Some(0x7a));
    assert_eq!(map_special_key(true, '@' as i32), Some(0x40));
    assert_eq!(map_special_key(true, '`' as i32), Some(0x60));
    assert_eq!(map_special_key(true, 'A' as i32), None);
    assert_eq!(map_special_key(true, '{' as i32), None);
    assert_eq!(map_special_key(false, 'a' as i32), None);
    for alnum_ok in [false, true] {
        assert_eq!(map_special_key(alnum_ok, 8), Some(0xff08));
        assert_eq!(map_special_key(alnum_ok, 9), Some(0xff09));
        assert_eq!(map_special_key(alnum_ok, 13), Some(0xff0d));
        assert_eq!(map_special_key(alnum_ok, 27), Some(0xff1b));
        assert_eq!(map_special_key(alnum_ok, 127), Some(0xffff));
        assert_eq!(map_special_key(alnum_ok, 1073741881), Some(0xffe5));
        assert_eq!(map_special_key(alnum_ok, 1073741882), Some(0xffbe));
        assert_eq!(map_special_key(alnum_ok, 1073741893), Some(0xffc9));
        assert_eq!(map_special_key(alnum_ok, 1073741894), Some(0xff61));
        assert_eq!(map_special_key(alnum_ok, 1073741898), Some(0xff50));
        assert_eq!(map_special_key(alnum_ok, 1073741900), None);
        assert_eq!(map_special_key(alnum_ok, 1073741903), Some(0xff53));
        assert_eq!(map_special_key(alnum_ok, 1073741904), Some(0xff51));
        assert_eq!(map_special_key(alnum_ok, 1073741905), Some(0xff54));
        assert_eq!(map_special_key(alnum_ok, 1073741906), Some(0xff52));
        assert_eq!(map_special_key(alnum_ok, 1073741912), Some(0xff8d));
        assert_eq!(map_special_key(alnum_ok, 1073741913), Some(0xffb1));
        assert_eq!(map_special_key(alnum_ok, 1073741921), Some(0xffb9));
        assert_eq!(map_special_key(alnum_ok, 1073741922), Some(0xffb0));
        assert_eq!(map_special_key(alnum_ok, 1073741923), Some(0xffac));
        assert_eq!(map_special_key(alnum_ok, 1073741928), Some(0xffca));
        assert_eq!(map_special_key(alnum_ok, 1073741939), Some(0xffd5));
        assert_eq!(map_special_key(alnum_ok, 1073741942), Some(0xff67));
        assert_eq!(map_special_key(alnum_ok, 1073741978), Some(0xff15));
        assert_eq!(map_special_key(alnum_ok, 1073742048), Some(0xffe3));
        assert_eq!(map_special_key(alnum_ok, 1073742055), Some(0xffec));
        assert_eq!(map_special_key(alnum_ok, 1073742056), None);
        assert_eq!(map_special_key(alnum_ok, 0), None);
        assert_eq!(map_special_key(alnum_ok, -5), None);
        assert_eq!(map_special_key(alnum_ok, i32::MAX), None);
    }
    assert_eq!(text_keysym('A'), 0x01000041);
    assert_eq!(text_keysym('\u{20ac}'), 0x010020ac);
}

#[test]
fn decider_goes_by_the_servers_order() {
    assert_eq!(password_key(b"secret"), *b"secret\0\0");
    assert_eq!(password_key(b"much too long"), *b"much too");
    assert_eq!(password_key(b""), [0; 8]);
    let all = [AuthMethod::AppleRemoteDesktop, AuthMethod::Password, AuthMethod::NoAuthentication];
    assert_eq!(
        decide_auth(&all, true, Some(b"pw")),
        Some(AuthChoice::AppleRemoteDesktop)
    );
    assert_eq!(
        decide_auth(&all, false, Some(b"pw")),
        Some(AuthChoice::Password(*b"pw\0\0\0\0\0\0"))
    );
    assert_eq!(decide_auth(&all, true, None), None);
    assert_eq!(decide_auth(&all[2..], false, None), Some(AuthChoice::NoAuthentication));
    assert_eq!(decide_auth(&all[..1], false, Some(b"pw")), None);
    assert_eq!(decide_auth(&[], true, Some(b"pw")), None);
}

#[test]
fn viewer_advertises_its_encodings() {
    assert_eq!(
        advertised_encodings(true),
        vec![Encoding::Zrle, Encoding::DesktopSize]
    );
    assert_eq!(
        advertised_encodings(false),
        vec![
            Encoding::Zrle,
            Encoding::CopyRect,
            Encoding::Raw,
            Encoding::Cursor,
            Encoding::DesktopSize
        ]
    );
}

#[test]
fn round_trip_time_is_smoothed() {
    assert_eq!(smoothed_rtt(1000, 0), 800);
    assert_eq!(smoothed_rtt(1000, 500), 900);
    assert_eq!(smoothed_rtt(0, 7), 1);
    assert_eq!(smoothed_rtt(3, 3), 2);
    assert_eq!(smoothed_rtt(u32::MAX, u32::MAX), 3435973836 + 858993459);
}

#[test]
fn keys_go_by_the_symbols_of_x11() {
    let printable: [(i32, u32); 65] = [
        (32, keysym::XK_space),
        (33, keysym::XK_exclam),
        (34, keysym::XK_quotedbl),
        (35, keysym::XK_numbersign),
        (36, keysym::XK_dollar),
        (37, keysym::XK_percent),
        (38, keysym::XK_ampersand),
        (39, keysym::XK_apostrophe),
        (40, keysym::XK_parenleft),
        (41, keysym::XK_parenright),
        (42, keysym::XK_asterisk),
        (43, keysym::XK_plus),
        (44, keysym::XK_comma),
        (45, keysym::XK_minus),
        (46, keysym::XK_period),
        (47, keysym::XK_slash),
        (48, keysym::XK_0),
        (49, keysym::XK_1),
        (50, keysym::XK_2),
        (51, keysym::XK_3),
        (52, keysym::XK_4),
        (53, keysym::XK_5),
        (54, keysym::XK_6),
        (55, keysym::XK_7),
        (56, keysym::XK_8),
        (57, keysym::XK_9),
        (58, keysym::XK_colon),
        (59, keysym::XK_semicolon),
        (60, keysym::XK_less),
        (61, keysym::XK_equal),
        (62, keysym::XK_greater),
        (63, keysym::XK_question),
        (64, keysym::XK_at),
        (91, keysym::XK_bracketleft),
        (92, keysym::XK_backslash),
        (93, keysym::XK_bracketright),
        (94, keysym::XK_caret),
        (95, keysym::XK_underscore),
        (96, keysym::XK_grave),
        (97, keysym::XK_a),
        (98, keysym::XK_b),
        (99, keysym::XK_c),
        (100, keysym::XK_d),
        (101, keysym::XK_e),
        (102, keysym::XK_f),
        (103, keysym::XK_g),
        (104, keysym::XK_h),
        (105, keysym::XK_i),
        (106, keysym::XK_j),
        (107, keysym::XK_k),
        (108, keysym::XK_l),
        (109, keysym::XK_m),
        (110, keysym::XK_n),
        (111, keysym::XK_o),
        (112, keysym::XK_p),
        (113, keysym::XK_q),
        (114, keysym::XK_r),
        (115, keysym::XK_s),
        (116, keysym::XK_t),
        (117, keysym::XK_u),
        (118, keysym::XK_v),
        (119, keysym::XK_w),
        (120, keysym::XK_x),
        (121, keysym::XK_y),
        (122, keysym::XK_z),
    ];
    let special: [(i32, u32); 69] = [
        (8, keysym::XK_BackSpace),
        (9, keysym::XK_Tab),
        (13, keysym::XK_Return),
        (27, keysym::XK_Escape),
        (127, keysym::XK_Delete),
        (1073741881, keysym::XK_Caps_Lock),
        (1073741882, keysym::XK_F1),
        (1073741883, keysym::XK_F2),
        (1073741884, keysym::XK_F3),
        (1073741885, keysym::XK_F4),
        (1073741886, keysym::XK_F5),
        (1073741887, keysym::XK_F6),
        (1073741888, keysym::XK_F7),
        (1073741889, keysym::XK_F8),
        (1073741890, keysym::XK_F9),
        (1073741891, keysym::XK_F10),
        (1073741892, keysym::XK_F11),
        (1073741893, keysym::XK_F12),
        (1073741894, keysym::XK_Print),
        (1073741895, keysym::XK_Scroll_Lock),
        (1073741896, keysym::XK_Pause),
        (1073741897, keysym::XK_Insert),
        (1073741898, keysym::XK_Home),
        (1073741899, keysym::XK_Page_Up),
        (1073741901, keysym::XK_End),
        (1073741902, keysym::XK_Page_Down),
        (1073741903, keysym::XK_Right),
        (1073741904, keysym::XK_Left),
        (1073741905, keysym::XK_Down),
        (1073741906, keysym::XK_Up),
        (1073741907, keysym::XK_Num_Lock),
        (1073741908, keysym::XK_KP_Divide),
        (1073741909, keysym::XK_KP_Multiply),
        (1073741910, keysym::XK_KP_Subtract),
        (1073741911, keysym::XK_KP_Add),
        (1073741912, keysym::XK_KP_Enter),
        (1073741913, keysym::XK_KP_1),
        (1073741914, keysym::XK_KP_2),
        (1073741915, keysym::XK_KP_3),
        (1073741916, keysym::XK_KP_4),
        (1073741917, keysym::XK_KP_5),
        (1073741918, keysym::XK_KP_6),
        (1073741919, keysym::XK_KP_7),
        (1073741920, keysym::XK_KP_8),
        (1073741921, keysym::XK_KP_9),
        (1073741922, keysym::XK_KP_0),
        (1073741923, keysym::XK_KP_Separator),
        (1073741928, keysym::XK_F13),
        (1073741929, keysym::XK_F14),
        (1073741930, keysym::XK_F15),
        (1073741931, keysym::XK_F16),
        (1073741932, keysym::XK_F17),
        (1073741933, keysym::XK_F18),
        (1073741934, keysym::XK_F19),
        (1073741935, keysym::XK_F20),
        (1073741936, keysym::XK_F21),
        (1073741937, keysym::XK_F22),
        (1073741938, keysym::XK_F23),
        (1073741939, keysym::XK_F24),
        (1073741942, keysym::XK_Menu),
        (1073741978, keysym::XK_Sys_Req),
        (1073742048, keysym::XK_Control_L),
        (1073742049, keysym::XK_Shift_L),
        (1073742050, keysym::XK_Alt_L),
        (1073742051, keysym::XK_Super_L),
        (1073742052, keysym::XK_Control_R),
        (1073742053, keysym::XK_Shift_R),
        (1073742054, keysym::XK_Alt_R),
        (1073742055, keysym::XK_Super_R),
    ];
    for (keycode, symbol) in printable {
        assert_eq!(map_special_key(true, keycode), Some(symbol), "key {}", keycode);
        assert_eq!(map_special_key(false, keycode), None, "key {}", keycode);
    }
    for (keycode, symbol) in special {
        assert_eq!(map_special_key(true, keycode), Some(symbol), "key {}", keycode);
        assert_eq!(map_special_key(false, keycode), Some(symbol), "key {}", keycode);
    }
    let known: Vec<i32> = printable.iter().chain(special.iter()).map(|(keycode, _)| *keycode).collect();
    for keycode in (-300..400).chain(0x4000_0000 - 10..0x4000_0000 + 300) {
        if !known.contains(&keycode) {
            assert_eq!(map_special_key(true, keycode), None, "key {}", keycode);
            assert_eq!(map_special_key(false, keycode), None, "key {}", keycode);
        }
    }
    assert_eq!(map_special_key(true, 94), Some(0xafc));
    assert_eq!(map_special_key(false, 94), None);
}

#[test]
fn table_formats_are_sound() {
    for surface in [
        SurfaceFormat::RGB888,
        SurfaceFormat::BGR888,
        SurfaceFormat::RGB565,
        SurfaceFormat::BGR565,
        SurfaceFormat::RGB332,
    ] {
        let format = pixel_format_sdl_to_vnc(surface).unwrap();
        assert!(format.is_valid(), "{:?}", surface);
        assert!(format.is_supported(), "{:?}", surface);
    }
    let rgb565 = pixel_format_sdl_to_vnc(SurfaceFormat::RGB565).unwrap();
    assert_eq!((rgb565.red_max, rgb565.green_max, rgb565.blue_max), (31, 63, 31));
    assert_eq!((rgb565.red_shift, rgb565.green_shift, rgb565.blue_shift), (11, 5, 0));
    let bgr565 = pixel_format_sdl_to_vnc(SurfaceFormat::BGR565).unwrap();
    assert_eq!((bgr565.red_max, bgr565.green_max, bgr565.blue_max), (31, 63, 31));
    let rgb332 = pixel_format_sdl_to_vnc(SurfaceFormat::RGB332).unwrap();
    assert_eq!((rgb332.red_max, rgb332.green_max, rgb332.blue_max), (7, 7, 3));
    assert_eq!((rgb332.red_shift, rgb332.green_shift, rgb332.blue_shift), (5, 2, 0));
}
