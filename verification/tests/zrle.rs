use flate2::{Compress, Compression, FlushCompress};
use vnc::bits::BitReader;
use vnc::zrle::{
    decode_rect, decode_tile, read_run_length, rect_limit, CPixel, Decoder, Tile,
};
use vnc::{Error, IoError, PixelFormat, Rect};


fn rgb888() -> PixelFormat {
    PixelFormat {
        bits_per_pixel: 32,
        depth: 24,
        big_endian: false,
        true_colour: true,
        red_max: 255,
        green_max: 255,
        blue_max: 255,
        red_shift: 16,
        green_shift: 8,
        blue_shift: 0,
    }
}

fn deflate(stream: &mut Compress, data: &[u8]) -> Vec<u8> {
    let mut out = Vec::with_capacity(data.len() * 2 + 64);
    stream
        .compress_vec(data, &mut out, FlushCompress::Sync)
        .unwrap();
    out
}

#[test]
fn zrle_solid_fill() {
    let rect = Rect { left: 0, top: 0, width: 1, height: 1 };
    let tiles = decode_rect(&rgb888(), rect, &[0x01, 0xAA, 0xBB, 0xCC]).unwrap();
    assert_eq!(tiles, vec![Tile { rect, pixels: vec![0xAA, 0xBB, 0xCC, 0x00] }]);
}

#[test]
fn zrle_raw_rle() {
    let rect = Rect { left: 0, top: 0, width: 1, height: 4 };
    let data = [0x80, 0xAA, 0xBB, 0xCC, 0x02, 0xDD, 0xEE, 0xFF, 0x00];
    let tiles = decode_rect(&rgb888(), rect, &data).unwrap();
    assert_eq!(tiles.len(), 1);
    assert_eq!(
        tiles[0].pixels,
        vec![
            0xAA, 0xBB, 0xCC, 0, 0xAA, 0xBB, 0xCC, 0, 0xAA, 0xBB, 0xCC, 0, 0xDD, 0xEE, 0xFF, 0
        ]
    );
}

#[test]
fn decoder_inflates_across_messages() {
    let mut stream = Compress::new(Compression::default(), true);
    let first = deflate(&mut stream, &[0x01, 0xAA, 0xBB, 0xCC]);
    let second = deflate(&mut stream, &[0x01, 0x11, 0x22, 0x33]);
    let rect = Rect { left: 3, top: 4, width: 2, height: 1 };
    let mut decoder = Decoder::new();
    let tiles = decoder.decode(rgb888(), rect, &first).unwrap();
    assert_eq!(
        tiles,
        vec![Tile { rect, pixels: vec![0xAA, 0xBB, 0xCC, 0, 0xAA, 0xBB, 0xCC, 0] }]
    );
    let tiles = decoder.decode(rgb888(), rect, &second).unwrap();
    assert_eq!(tiles[0].pixels, vec![0x11, 0x22, 0x33, 0, 0x11, 0x22, 0x33, 0]);
    assert!(!decoder.is_poisoned());
}

#[test]
fn run_length_sums_bytes() {
    let data = [255u8, 255, 3];
    let mut reader = BitReader::new(&data);
    assert_eq!(read_run_length(&mut reader), Ok(1 + 255 + 255 + 3));
    assert!(reader.is_empty());
    let short = [255u8];
    let mut reader = BitReader::new(&short);
    assert_eq!(read_run_length(&mut reader), Err(Error::Io(IoError::UnexpectedEof)));
}

#[test]
fn tile_of_one_pixel_raw() {
    let layout = CPixel { size: 3, pad: false, pixel_size: 4 };
    let data = [0x00u8, 1, 2, 3];
    let mut reader = BitReader::new(&data);
    assert_eq!(decode_tile(&mut reader, &layout, 1, 1), Ok(vec![1, 2, 3, 0]));
}

#[test]
fn decoder_reads_rectangles_larger_than_one_chunk() {
    let rect = Rect { left: 0, top: 0, width: 200, height: 100 };
    let mut inflated = Vec::new();
    let mut expected = Vec::new();
    let mut next = 0u32;
    for (width, height) in [(64usize, 64usize), (64, 64), (64, 64), (8, 64), (64, 36), (64, 36), (64, 36), (8, 36)] {
        inflated.push(0u8);
        let mut pixels = Vec::new();
        for _ in 0..width * height {
            next = next.wrapping_mul(1103515245).wrapping_add(12345);
            let colour = [(next >> 16) as u8, (next >> 8) as u8, next as u8];
            inflated.extend_from_slice(&colour);
            pixels.extend_from_slice(&colour);
            pixels.push(0);
        }
        expected.push(pixels);
    }
    assert!(inflated.len() > 3 * 16384);
    let mut stream = Compress::new(Compression::fast(), true);
    let mut compressed = Vec::with_capacity(inflated.len() * 2);
    stream
        .compress_vec(&inflated, &mut compressed, FlushCompress::Sync)
        .unwrap();
    let mut decoder = Decoder::new();
    let tiles = decoder.decode(rgb888(), rect, &compressed).unwrap();
    assert_eq!(tiles.len(), 8);
    for (tile, pixels) in tiles.iter().zip(expected.iter()) {
        assert_eq!(&tile.pixels, pixels);
    }
    assert_eq!(tiles[3].rect, Rect { left: 192, top: 0, width: 8, height: 64 });
    assert_eq!(tiles[7].rect, Rect { left: 192, top: 64, width: 8, height: 36 });

    let mut zeros = vec![0u8];
    zeros.extend_from_slice(&[0; 64 * 64 * 3]);
    let mut compressed = Vec::with_capacity(1024);
    stream
        .compress_vec(&zeros, &mut compressed, FlushCompress::Sync)
        .unwrap();
    assert!(compressed.len() < 200);
    let whole = Rect { left: 0, top: 0, width: 64, height: 64 };
    let tiles = decoder.decode(rgb888(), whole, &compressed).unwrap();
    assert_eq!(tiles[0].pixels, vec![0; 64 * 64 * 4]);
}

#[test]
fn decoder_refuses_broken_streams() {
    let rect = Rect { left: 0, top: 0, width: 1, height: 1 };
    let mut decoder = Decoder::new();
    assert_eq!(
        decoder.decode(rgb888(), rect, &[1, 2, 3, 4, 5]),
        Err(Error::Io(IoError::InvalidData("ZRLE stream corrupt")))
    );
    let mut stream = Compress::new(Compression::default(), true);
    let mut finished = Vec::with_capacity(64);
    stream
        .compress_vec(&[0x01, 0xAA, 0xBB, 0xCC], &mut finished, FlushCompress::Finish)
        .unwrap();
    let mut decoder = Decoder::new();
    assert_eq!(
        decoder.decode(rgb888(), rect, &finished),
        Err(Error::Io(IoError::InvalidData("ZRLE stream end")))
    );
    assert!(decoder.is_poisoned());
    let mut stream = Compress::new(Compression::default(), true);
    let long = deflate(&mut stream, &[0x01, 0xAA, 0xBB, 0xCC, 0xDD]);
    let mut decoder = Decoder::new();
    assert_eq!(
        decoder.decode(rgb888(), rect, &long),
        Err(Error::Unexpected("leftover ZRLE byte data"))
    );
    let mut stream = Compress::new(Compression::default(), true);
    let short = deflate(&mut stream, &[0x01, 0xAA, 0xBB]);
    let mut decoder = Decoder::new();
    assert_eq!(
        decoder.decode(rgb888(), rect, &short),
        Err(Error::Io(IoError::UnexpectedEof))
    );
}

#[test]
fn decoder_stops_inflating_what_no_tile_can_take() {
    let rect = Rect { left: 0, top: 0, width: 1, height: 1 };
    let mut inflated = vec![0x01, 0xAA, 0xBB, 0xCC];
    inflated.extend_from_slice(&[0; 1 << 20]);
    let mut stream = Compress::new(Compression::best(), true);
    let mut compressed = Vec::with_capacity(1 << 16);
    stream
        .compress_vec(&inflated, &mut compressed, FlushCompress::Sync)
        .unwrap();
    assert!(compressed.len() < 1 << 12);
    let mut decoder = Decoder::new();
    assert_eq!(
        decoder.decode(rgb888(), rect, &compressed),
        Err(Error::Unexpected("leftover ZRLE byte data"))
    );
    assert!(decoder.is_poisoned());
}

#[test]
fn rectangles_have_a_largest_size() {
    let layout = CPixel { size: 3, pad: false, pixel_size: 4 };
    assert_eq!(rect_limit(&layout, Rect { left: 0, top: 0, width: 1, height: 1 }), 382 + 4);
    assert_eq!(
        rect_limit(&layout, Rect { left: 0, top: 0, width: 65, height: 64 }),
        2 * 382 + 65 * 64 * 4
    );
    assert_eq!(rect_limit(&layout, Rect { left: 0, top: 0, width: 0, height: 9 }), 0);
}
