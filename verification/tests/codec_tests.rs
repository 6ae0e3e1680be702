use bmp_edit::image::{decode_image, encode_image, BmpError};
use bmp_edit::pixel::Pixel;

/// Builds a BMP byte buffer: 46-byte fixed header, a gap, then pixel rows
/// given bottom-row-first as raw scanline bytes (color triples + padding).
fn make_bmp(width: u32, height: u32, gap: &[u8], scanlines: &[u8]) -> Vec<u8> {
    let offset = 46 + gap.len() as u32;
    let total = offset as usize + scanlines.len();
    let mut b: Vec<u8> = Vec::new();
    b.extend_from_slice(b"BM");
    b.extend_from_slice(&(total as u32).to_le_bytes());
    b.extend_from_slice(&[0, 0, 0, 0]); // reserved1, reserved2
    b.extend_from_slice(&offset.to_le_bytes());
    b.extend_from_slice(&40u32.to_le_bytes()); // header_size
    b.extend_from_slice(&width.to_le_bytes());
    b.extend_from_slice(&height.to_le_bytes());
    b.extend_from_slice(&1u16.to_le_bytes()); // color planes
    b.extend_from_slice(&24u16.to_le_bytes()); // bits per pixel
    b.extend_from_slice(&0u32.to_le_bytes()); // compression
    b.extend_from_slice(&(scanlines.len() as u32).to_le_bytes());
    b.extend_from_slice(&2835u32.to_le_bytes()); // hres
    b.extend_from_slice(&2835u32.to_le_bytes()); // vres
    b.extend_from_slice(gap);
    b.extend_from_slice(scanlines);
    b
}

#[test]
fn decode_reads_header_fields() {
    let bytes = make_bmp(2, 1, &[7, 9], &[1, 2, 3, 4, 5, 6, 0, 0]);
    let img = decode_image(&bytes).unwrap();
    assert_eq!(img.header.bmp_ident, (b'B', b'M'));
    assert_eq!(img.header.file_size, bytes.len() as u32);
    assert_eq!(img.header.offset, 48);
    assert_eq!(img.header.header_size, 40);
    assert_eq!(img.header.width, 2);
    assert_eq!(img.header.height, 1);
    assert_eq!(img.header.color_planes, 1);
    assert_eq!(img.header.bits_per_pixel, 24);
    assert_eq!(img.header.compression, 0);
    assert_eq!(img.header.hres, 2835);
    assert_eq!(img.header.vres, 2835);
    assert_eq!(img.header.gap, vec![7, 9]);
}

#[test]
fn decode_reads_pixels_in_bgr_column_major_order() {
    // 2x2, stride 8: rows are (b,g,r)(b,g,r) + two padding bytes.
    let bytes = make_bmp(
        2,
        2,
        &[],
        &[10, 11, 12, 20, 21, 22, 0, 0, 30, 31, 32, 40, 41, 42, 0, 0],
    );
    let img = decode_image(&bytes).unwrap();
    assert_eq!(img.pixels.len(), 4); // 2 color columns + 2 padding columns
    assert_eq!(img.pixels[0][0], Pixel::ColorData(10, 11, 12));
    assert_eq!(img.pixels[1][0], Pixel::ColorData(20, 21, 22));
    assert_eq!(img.pixels[0][1], Pixel::ColorData(30, 31, 32));
    assert_eq!(img.pixels[1][1], Pixel::ColorData(40, 41, 42));
    assert_eq!(img.pixels[2], vec![Pixel::Padding, Pixel::Padding]);
    assert_eq!(img.pixels[3], vec![Pixel::Padding, Pixel::Padding]);
}

#[test]
fn padding_width_five_consumes_sixteen_bytes_per_scanline() {
    // width 5: 3*5 = 15, 15 mod 4 = 3, so one padding byte; stride 16.
    let mut row = vec![0u8; 16];
    for (i, v) in row.iter_mut().enumerate().take(15) {
        *v = i as u8 + 1;
    }
    let bytes = make_bmp(5, 1, &[], &row);
    assert_eq!(bytes.len(), 46 + 16);
    let img = decode_image(&bytes).unwrap();
    assert_eq!(img.pixels.len(), 6); // 5 color columns + 1 padding column
    for c in 0..5 {
        assert_eq!(img.pixels[c].len(), 1);
        assert!(matches!(img.pixels[c][0], Pixel::ColorData(_, _, _)));
    }
    assert_eq!(img.pixels[5], vec![Pixel::Padding]);
    // One byte fewer than a full scanline is rejected.
    let short = make_bmp(5, 1, &[], &row[..15]);
    assert_eq!(decode_image(&short), Err(BmpError::TruncatedInput));
}

#[test]
fn encode_after_decode_is_byte_exact() {
    let bytes = make_bmp(
        2,
        2,
        &[0xAA, 0xBB, 0xCC],
        &[10, 11, 12, 20, 21, 22, 0, 0, 30, 31, 32, 40, 41, 42, 0, 0],
    );
    let img = decode_image(&bytes).unwrap();
    assert_eq!(encode_image(&img), bytes);
}

#[test]
fn decode_encode_decode_is_stable() {
    let bytes = make_bmp(3, 1, &[1, 2, 3, 4], &[9, 8, 7, 6, 5, 4, 3, 2, 1, 0, 0, 0]);
    let img1 = decode_image(&bytes).unwrap();
    let img2 = decode_image(&encode_image(&img1)).unwrap();
    assert_eq!(img1, img2);
}

#[test]
fn truncated_header_is_rejected() {
    let bytes: Vec<u8> = vec![0x42, 0x4D, 0, 0, 0];
    assert_eq!(decode_image(&bytes), Err(BmpError::TruncatedInput));
    let empty: Vec<u8> = Vec::new();
    assert_eq!(decode_image(&empty), Err(BmpError::TruncatedInput));
}

#[test]
fn truncated_gap_is_rejected() {
    // Declared offset 50 but only 48 bytes supplied.
    let mut bytes = make_bmp(0, 0, &[], &[]);
    bytes[10] = 50;
    bytes.push(0);
    bytes.push(0);
    assert_eq!(decode_image(&bytes), Err(BmpError::TruncatedInput));
}

#[test]
fn unsupported_bit_depth_is_rejected() {
    let mut bytes = make_bmp(1, 1, &[], &[1, 2, 3, 0]);
    bytes[28] = 32;
    assert_eq!(decode_image(&bytes), Err(BmpError::UnsupportedFormat));
}

#[test]
fn compressed_images_are_rejected() {
    let mut bytes = make_bmp(1, 1, &[], &[1, 2, 3, 0]);
    bytes[30] = 1;
    assert_eq!(decode_image(&bytes), Err(BmpError::UnsupportedFormat));
}

#[test]
fn negative_dimensions_are_rejected() {
    let neg = (-3i32) as u32;
    let bytes = make_bmp(neg, 1, &[], &[]);
    assert_eq!(decode_image(&bytes), Err(BmpError::UnsupportedFormat));
    let bytes2 = make_bmp(1, neg, &[], &[]);
    assert_eq!(decode_image(&bytes2), Err(BmpError::UnsupportedFormat));
}

#[test]
fn offset_inside_fixed_region_is_rejected() {
    let mut bytes = make_bmp(0, 0, &[], &[]);
    bytes[10] = 12;
    assert_eq!(decode_image(&bytes), Err(BmpError::UnsupportedFormat));
}

#[test]
fn width_zero_round_trips() {
    let bytes = make_bmp(0, 3, &[], &[]);
    let img = decode_image(&bytes).unwrap();
    assert_eq!(img.pixels.len(), 0);
    assert_eq!(encode_image(&img), bytes);
}

#[test]
fn pixel2d_to_bytes_emits_rows_with_zero_padding() {
    let pixels = vec![
        vec![Pixel::ColorData(1, 2, 3), Pixel::ColorData(7, 8, 9)],
        vec![Pixel::Padding, Pixel::Padding],
    ];
    let out = Pixel::pixel2d_to_bytes(&pixels);
    assert_eq!(out, vec![1, 2, 3, 0, 7, 8, 9, 0]);
}

#[test]
fn trailing_bytes_are_ignored() {
    let mut bytes = make_bmp(1, 1, &[], &[5, 6, 7, 0]);
    let img1 = decode_image(&bytes).unwrap();
    bytes.push(0xFF);
    let img2 = decode_image(&bytes).unwrap();
    assert_eq!(img1, img2);
}
