use vnc::bits::BitReader;
use vnc::zrle::{decode_rect, decode_tile, read_pixel, read_run_length, CPixel, Decoder, Tile};
use vnc::{Error, IoError, PixelFormat, Rect};

const EOF: Error = Error::Io(IoError::UnexpectedEof);

fn format(bits_per_pixel: u8, depth: u8, big_endian: bool, shifts: (u8, u8, u8)) -> PixelFormat {
    PixelFormat {
        bits_per_pixel,
        depth,
        big_endian,
        true_colour: true,
        red_max: 255,
        green_max: 255,
        blue_max: 255,
        red_shift: shifts.0,
        green_shift: shifts.1,
        blue_shift: shifts.2,
    }
}

fn rgb888() -> PixelFormat {
    format(32, 24, false, (16, 8, 0))
}

fn three() -> CPixel {
    CPixel { size: 3, pad: false, pixel_size: 4 }
}

fn tile(data: &[u8], width: usize, height: usize) -> Result<Vec<u8>, Error> {
    let mut reader = BitReader::new(data);
    let pixels = decode_tile(&mut reader, &three(), width, height)?;
    assert!(reader.is_empty());
    Ok(pixels)
}

#[test]
fn one_pixel_in_every_subencoding() {
    assert_eq!(tile(&[0x00, 1, 2, 3], 1, 1), Ok(vec![1, 2, 3, 0]));
    assert_eq!(tile(&[0x01, 1, 2, 3], 1, 1), Ok(vec![1, 2, 3, 0]));
    assert_eq!(tile(&[0x02, 1, 2, 3, 4, 5, 6, 0x80], 1, 1), Ok(vec![4, 5, 6, 0]));
    assert_eq!(
        tile(&[0x03, 1, 1, 1, 2, 2, 2, 3, 3, 3, 0x80], 1, 1),
        Ok(vec![3, 3, 3, 0])
    );
    assert_eq!(
        tile(&[0x05, 0, 0, 0, 1, 1, 1, 2, 2, 2, 3, 3, 3, 4, 4, 4, 0x40], 1, 1),
        Ok(vec![4, 4, 4, 0])
    );
    assert_eq!(tile(&[0x80, 7, 8, 9, 0], 1, 1), Ok(vec![7, 8, 9, 0]));
    assert_eq!(tile(&[0x82, 1, 2, 3, 4, 5, 6, 0x01], 1, 1), Ok(vec![4, 5, 6, 0]));
    assert_eq!(tile(&[0x82, 1, 2, 3, 4, 5, 6, 0x80, 0], 1, 1), Ok(vec![1, 2, 3, 0]));
}

#[test]
fn palette_sizes() {
    let mut data = vec![17u8];
    data.extend_from_slice(&[9; 17 * 3]);
    data.push(0);
    assert_eq!(tile(&data, 1, 1), Err(Error::Unexpected("ZRLE subencoding")));
    assert_eq!(tile(&data[..20], 1, 1), Err(EOF));
    assert_eq!(tile(&[0x81, 1, 2, 3, 0], 1, 1), Err(Error::Unexpected("ZRLE subencoding")));
    let mut data = vec![127u8];
    data.extend_from_slice(&[3; 127 * 3]);
    assert_eq!(tile(&data, 1, 1), Err(Error::Unexpected("ZRLE subencoding")));

    let mut data = vec![4u8];
    for entry in 0..4u8 {
        data.extend_from_slice(&[entry, entry, entry]);
    }
    data.push(0b00_01_10_11);
    assert_eq!(
        tile(&data, 4, 1),
        Ok(vec![0, 0, 0, 0, 1, 1, 1, 0, 2, 2, 2, 0, 3, 3, 3, 0])
    );

    let mut data = vec![16u8];
    for entry in 0..16u8 {
        data.extend_from_slice(&[entry, 0, 0]);
    }
    data.extend_from_slice(&[0xF0, 0x1E]);
    assert_eq!(
        tile(&data, 2, 2),
        Ok(vec![15, 0, 0, 0, 0, 0, 0, 0, 1, 0, 0, 0, 14, 0, 0, 0])
    );

    let mut data = vec![3u8];
    data.extend_from_slice(&[1; 9]);
    data.push(0b11_000000);
    assert_eq!(tile(&data, 1, 1), Err(Error::Unexpected("ZRLE palette index")));
    assert_eq!(
        tile(&[0x82, 1, 2, 3, 4, 5, 6, 0x02], 1, 1),
        Err(Error::Unexpected("ZRLE palette index"))
    );
}

#[test]
fn packed_rows_start_at_byte_boundaries() {
    let data = [0x02, 1, 1, 1, 2, 2, 2, 0b101_11111, 0b010_00000];
    assert_eq!(
        tile(&data, 3, 2),
        Ok(vec![
            2, 2, 2, 0, 1, 1, 1, 0, 2, 2, 2, 0, 1, 1, 1, 0, 2, 2, 2, 0, 1, 1, 1, 0
        ])
    );
    let data = [0x02, 0, 0, 0, 9, 9, 9, 0b0000_0000, 0b1000_0000];
    let pixels = tile(&data, 9, 1).unwrap();
    assert_eq!(pixels.len(), 36);
    assert_eq!(&pixels[32..], &[9, 9, 9, 0]);
    assert_eq!(&pixels[..32], &[0; 32]);
    assert_eq!(tile(&data[..8], 9, 1), Err(EOF));
}

#[test]
fn runs() {
    let data = [0x80, 0xAA, 0xBB, 0xCC, 0x02, 0xDD, 0xEE, 0xFF, 0x00];
    assert_eq!(
        tile(&data, 1, 4),
        Ok(vec![
            0xAA, 0xBB, 0xCC, 0, 0xAA, 0xBB, 0xCC, 0, 0xAA, 0xBB, 0xCC, 0, 0xDD, 0xEE, 0xFF, 0
        ])
    );
    assert_eq!(tile(&data, 1, 2), Err(Error::Unexpected("ZRLE run length")));
    assert_eq!(tile(&data, 1, 5), Err(EOF));
    let data = [0x80, 1, 2, 3, 255, 255, 255, 255, 255, 255, 255, 255, 255, 255, 255, 255, 255, 255, 255, 255, 15];
    let pixels = tile(&data, 64, 64).unwrap();
    assert_eq!(pixels.len(), 64 * 64 * 4);
    assert!(pixels.chunks(4).all(|pixel| pixel == [1, 2, 3, 0]));
    let data = [0x82, 1, 1, 1, 2, 2, 2, 0x80, 253, 0x81, 0];
    assert_eq!(tile(&data, 16, 16), Err(EOF));
    let data = [0x82, 1, 1, 1, 2, 2, 2, 0x80, 254, 0x81, 1];
    assert_eq!(tile(&data, 16, 16), Err(Error::Unexpected("ZRLE run length")));
    let data = [0x82, 1, 1, 1, 2, 2, 2, 0x80, 253, 0x81, 0, 0x00];
    let pixels = tile(&data, 16, 16).unwrap();
    assert_eq!(pixels.len(), 1024);
    assert_eq!(&pixels[..4], &[1, 1, 1, 0]);
    assert_eq!(&pixels[253 * 4..254 * 4], &[1, 1, 1, 0]);
    assert_eq!(&pixels[254 * 4..255 * 4], &[2, 2, 2, 0]);
    assert_eq!(&pixels[255 * 4..], &[1, 1, 1, 0]);
}

#[test]
fn run_lengths() {
    for (bytes, expected) in [
        (vec![0u8], 1usize),
        (vec![254], 255),
        (vec![255, 0], 256),
        (vec![255, 255, 255, 7], 1 + 3 * 255 + 7),
    ] {
        let mut reader = BitReader::new(&bytes);
        assert_eq!(read_run_length(&mut reader), Ok(expected));
        assert!(reader.is_empty());
    }
    let bytes = [255u8, 255];
    let mut reader = BitReader::new(&bytes);
    assert_eq!(read_run_length(&mut reader), Err(EOF));
    let bytes = [3u8, 255];
    let mut reader = BitReader::new(&bytes);
    assert_eq!(read_run_length(&mut reader), Ok(4));
    assert!(!reader.is_empty());
    let mut reader = BitReader::new(&bytes);
    reader.read_bits(3).unwrap();
    assert_eq!(
        read_run_length(&mut reader),
        Err(Error::Io(IoError::InvalidData("unaligned ZRLE byte read")))
    );
}

#[test]
fn tiles_of_every_size() {
    let rect = Rect { left: 100, top: 200, width: 67, height: 81 };
    let data = [0x01, 1, 1, 1, 0x01, 2, 2, 2, 0x01, 3, 3, 3, 0x01, 4, 4, 4];
    let tiles = decode_rect(&rgb888(), rect, &data).unwrap();
    let expected = [
        (Rect { left: 100, top: 200, width: 64, height: 64 }, 1u8),
        (Rect { left: 164, top: 200, width: 3, height: 64 }, 2),
        (Rect { left: 100, top: 264, width: 64, height: 17 }, 3),
        (Rect { left: 164, top: 264, width: 3, height: 17 }, 4),
    ];
    assert_eq!(tiles.len(), 4);
    for (tile, (place, colour)) in tiles.iter().zip(expected) {
        assert_eq!(tile.rect, place);
        assert_eq!(tile.pixels.len(), place.width as usize * place.height as usize * 4);
        assert!(tile.pixels.chunks(4).all(|pixel| pixel == [colour, colour, colour, 0]));
    }
    let mut raw = vec![0u8];
    raw.extend((0..64 * 64 * 3).map(|i| (i % 251) as u8));
    let whole = Rect { left: 0, top: 0, width: 64, height: 64 };
    let tiles = decode_rect(&rgb888(), whole, &raw).unwrap();
    assert_eq!(tiles[0].pixels.len(), 64 * 64 * 4);
    assert_eq!(&tiles[0].pixels[4..8], &[3, 4, 5, 0]);
    let edge = Rect { left: 65535 - 65, top: 65535 - 1, width: 65, height: 1 };
    let tiles = decode_rect(&rgb888(), edge, &[1, 0, 0, 0, 1, 0, 0, 0]).unwrap();
    assert_eq!(tiles[1].rect, Rect { left: 65534, top: 65534, width: 1, height: 1 });
}

#[test]
fn rectangles_take_every_byte() {
    let rect = Rect { left: 0, top: 0, width: 1, height: 1 };
    assert_eq!(
        decode_rect(&rgb888(), rect, &[1, 2, 3, 4, 5]),
        Err(Error::Unexpected("leftover ZRLE byte data"))
    );
    assert_eq!(decode_rect(&rgb888(), rect, &[1, 2, 3]), Err(EOF));
    assert_eq!(decode_rect(&rgb888(), rect, &[]), Err(EOF));
    let empty = Rect { left: 3, top: 3, width: 0, height: 7 };
    assert_eq!(decode_rect(&rgb888(), empty, &[]), Ok(vec![]));
    assert_eq!(
        decode_rect(&rgb888(), empty, &[0]),
        Err(Error::Unexpected("leftover ZRLE byte data"))
    );
}

#[test]
fn compressed_pixels() {
    assert_eq!(CPixel::for_format(&rgb888()), three());
    assert_eq!(
        CPixel::for_format(&format(32, 24, true, (16, 8, 0))),
        CPixel { size: 3, pad: true, pixel_size: 4 }
    );
    assert_eq!(
        CPixel::for_format(&format(32, 24, false, (24, 16, 8))),
        CPixel { size: 3, pad: true, pixel_size: 4 }
    );
    assert_eq!(
        CPixel::for_format(&format(32, 24, true, (24, 16, 8))),
        CPixel { size: 3, pad: false, pixel_size: 4 }
    );
    assert_eq!(
        CPixel::for_format(&format(32, 32, false, (16, 8, 0))),
        CPixel { size: 4, pad: false, pixel_size: 4 }
    );
    assert_eq!(
        CPixel::for_format(&format(32, 24, false, (20, 10, 0))),
        CPixel { size: 4, pad: false, pixel_size: 4 }
    );
    let colour_map = PixelFormat { true_colour: false, ..rgb888() };
    assert_eq!(
        CPixel::for_format(&colour_map),
        CPixel { size: 4, pad: false, pixel_size: 4 }
    );
    assert_eq!(
        CPixel::for_format(&format(16, 16, false, (11, 5, 0))),
        CPixel { size: 2, pad: false, pixel_size: 2 }
    );
    assert_eq!(
        CPixel::for_format(&format(8, 8, false, (5, 2, 0))),
        CPixel { size: 1, pad: false, pixel_size: 1 }
    );

    let rect = Rect { left: 0, top: 0, width: 2, height: 1 };
    let data = [0x00, 1, 2, 3, 4, 5, 6];
    let padded = decode_rect(&format(32, 24, true, (16, 8, 0)), rect, &data).unwrap();
    assert_eq!(padded[0].pixels, vec![0, 1, 2, 3, 0, 4, 5, 6]);
    let plain = decode_rect(&format(32, 24, true, (24, 16, 8)), rect, &data).unwrap();
    assert_eq!(plain[0].pixels, vec![1, 2, 3, 0, 4, 5, 6, 0]);
    let full = decode_rect(&format(32, 32, false, (16, 8, 0)), rect, &[0, 1, 2, 3, 4, 5, 6, 7, 8]);
    assert_eq!(full.unwrap()[0].pixels, vec![1, 2, 3, 4, 5, 6, 7, 8]);
    let short = decode_rect(&format(16, 16, false, (11, 5, 0)), rect, &[1, 9, 8]).unwrap();
    assert_eq!(short[0].pixels, vec![9, 8, 9, 8]);
    let byte = decode_rect(&format(8, 8, false, (5, 2, 0)), rect, &[0x80, 7, 1]).unwrap();
    assert_eq!(byte[0].pixels, vec![7, 7]);

    let bytes = [1u8, 2, 3];
    let mut reader = BitReader::new(&bytes);
    assert_eq!(
        read_pixel(&mut reader, &CPixel { size: 3, pad: true, pixel_size: 4 }),
        Ok(vec![0, 1, 2, 3])
    );
    let mut reader = BitReader::new(&bytes[..2]);
    assert_eq!(read_pixel(&mut reader, &three()), Err(EOF));
}

#[test]
fn bit_reader() {
    let data = [0b1011_0010u8, 0xFF, 0x12];
    let mut reader = BitReader::new(&data);
    assert_eq!(reader.read_bit(), Ok(true));
    assert_eq!(reader.read_bits(2), Ok(0b01));
    assert_eq!(reader.read_bits(4), Ok(0b1001));
    assert_eq!(
        reader.read_bits(2),
        Err(Error::Io(IoError::InvalidData("unaligned ZRLE bit read")))
    );
    assert_eq!(
        reader.read(1),
        Err(Error::Io(IoError::InvalidData("unaligned ZRLE byte read")))
    );
    assert_eq!(reader.read_bits(1), Ok(0));
    assert_eq!(reader.read_bits(8), Ok(0xFF));
    assert_eq!(reader.read(5), Ok(&[0x12u8][..]));
    assert!(reader.is_empty());
    assert_eq!(reader.read_bit(), Err(EOF));
    assert_eq!(reader.read(1), Ok(&[][..]));
    assert_eq!(reader.into_inner(), Ok(&[][..]));

    let mut reader = BitReader::new(&data);
    reader.read_bits(3).unwrap();
    reader.align();
    assert_eq!(reader.read_bits(4), Ok(0xF));
    let mut other = BitReader::new(&data);
    other.read_bits(3).unwrap();
    assert_eq!(other.into_inner(), Err(Error::Unexpected("leftover ZRLE bit data")));
    reader.align();
    assert_eq!(reader.into_inner(), Ok(&[0x12u8][..]));
}

#[test]
fn decoder_is_poisoned_by_errors() {
    let mut decoder = Decoder::new();
    let rect = Rect { left: 0, top: 0, width: 1, height: 1 };
    assert!(decoder.decode(rgb888(), rect, &[1, 2, 3, 4]).is_err());
    assert!(decoder.is_poisoned());
    assert_eq!(
        decoder.decode(rgb888(), rect, &[]),
        Err(Error::Unexpected("ZRLE decoder poisoned"))
    );
    let mut decoder = Decoder::new();
    assert_eq!(decoder.decode(rgb888(), rect, &[]), Err(EOF));
    let tiles: Vec<Tile> = Vec::new();
    let mut decoder = Decoder::new();
    let empty = Rect { left: 0, top: 0, width: 0, height: 0 };
    assert_eq!(decoder.decode(rgb888(), empty, &[]), Ok(tiles));
}
