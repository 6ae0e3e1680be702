use bmp_edit::image::{decode_image, encode_image, BmpError, BmpFile};
use bmp_edit::pixel::{Color, Pixel};

/// Builds a BMP whose color pixels take distinct channel values, so that
/// moves and overwrites are visible.
fn sample(width: u32, height: u32) -> BmpFile {
    let pad = ((4 - (3 * width) % 4) % 4) as usize;
    let offset = 46u32;
    let stride = 3 * width as usize + pad;
    let total = offset as usize + height as usize * stride;
    let mut b: Vec<u8> = Vec::new();
    b.extend_from_slice(b"BM");
    b.extend_from_slice(&(total as u32).to_le_bytes());
    b.extend_from_slice(&[0, 0, 0, 0]);
    b.extend_from_slice(&offset.to_le_bytes());
    b.extend_from_slice(&40u32.to_le_bytes());
    b.extend_from_slice(&width.to_le_bytes());
    b.extend_from_slice(&height.to_le_bytes());
    b.extend_from_slice(&1u16.to_le_bytes());
    b.extend_from_slice(&24u16.to_le_bytes());
    b.extend_from_slice(&0u32.to_le_bytes());
    b.extend_from_slice(&((height as usize * stride) as u32).to_le_bytes());
    b.extend_from_slice(&2835u32.to_le_bytes());
    b.extend_from_slice(&2835u32.to_le_bytes());
    for y in 0..height as usize {
        for x in 0..width as usize {
            b.push((10 * x + y) as u8);
            b.push((10 * x + y + 1) as u8);
            b.push((10 * x + y + 2) as u8);
        }
        for _ in 0..pad {
            b.push(0);
        }
    }
    decode_image(&b).unwrap()
}

#[test]
fn change_pixel_overwrites_one_cell() {
    let mut img = sample(3, 2);
    img.change_pixel(1, 1, Color(9, 8, 7)).unwrap();
    assert_eq!(img.get_pixel(1, 1).unwrap(), Color(9, 8, 7));
    assert_eq!(img.get_pixel(0, 1).unwrap(), Color(1, 2, 3));
    assert_eq!(img.get_pixel(1, 0).unwrap(), Color(10, 11, 12));
}

#[test]
fn change_pixel_at_width_is_out_of_bounds() {
    let mut img = sample(3, 2);
    let before = encode_image(&img);
    assert_eq!(img.change_pixel(3, 0, Color(1, 1, 1)), Err(BmpError::OutOfBounds));
    assert_eq!(img.change_pixel(0, 2, Color(1, 1, 1)), Err(BmpError::OutOfBounds));
    assert_eq!(encode_image(&img), before);
}

#[test]
fn fill_paints_every_pixel_and_keeps_padding_zero() {
    let mut img = sample(2, 2);
    img.fill(Color(255, 0, 0));
    let out = encode_image(&img);
    // stride 8: two BGR triples then two padding bytes per scanline.
    for y in 0..2 {
        let row = 46 + 8 * y;
        assert_eq!(&out[row..row + 6], &[255, 0, 0, 255, 0, 0]);
        assert_eq!(&out[row + 6..row + 8], &[0, 0]);
    }
}

#[test]
fn make_red_and_make_blue_paint_bgr_triples() {
    let mut img = sample(1, 1);
    img.make_red();
    assert_eq!(img.get_pixel(0, 0).unwrap(), Color(0, 0, 255));
    img.make_blue();
    assert_eq!(img.get_pixel(0, 0).unwrap(), Color(255, 0, 0));
}

#[test]
fn mirror_swaps_columns() {
    let mut img = sample(3, 2);
    let col0 = img.get_pixel(0, 0).unwrap();
    let col1 = img.get_pixel(1, 0).unwrap();
    let col2 = img.get_pixel(2, 0).unwrap();
    img.mirror_horizontal_left();
    assert_eq!(img.get_pixel(0, 0).unwrap(), col2);
    assert_eq!(img.get_pixel(1, 0).unwrap(), col1);
    assert_eq!(img.get_pixel(2, 0).unwrap(), col0);
}

#[test]
fn mirror_twice_restores_the_grid() {
    let mut img = sample(4, 3);
    let original = encode_image(&img);
    img.mirror_horizontal_left();
    assert_ne!(encode_image(&img), original);
    img.mirror_horizontal_left();
    assert_eq!(encode_image(&img), original);
}

#[test]
fn draw_vline_thickness_two_paints_two_columns() {
    let mut img = sample(10, 10);
    let white = Color(255, 255, 255);
    let before_6_3 = img.get_pixel(6, 3).unwrap();
    img.draw_vline(5, 2, white).unwrap();
    for y in 0..10 {
        assert_eq!(img.get_pixel(4, y).unwrap(), white);
        assert_eq!(img.get_pixel(5, y).unwrap(), white);
    }
    assert_eq!(img.get_pixel(4, 3).unwrap(), white);
    assert_eq!(img.get_pixel(6, 3).unwrap(), before_6_3);
    assert_ne!(img.get_pixel(3, 0).unwrap(), white);
}

#[test]
fn draw_vline_thickness_zero_and_one_paint_one_column() {
    let white = Color(255, 255, 255);
    for t in [0usize, 1] {
        let mut img = sample(3, 2);
        img.draw_vline(1, t, white).unwrap();
        for y in 0..2 {
            assert_eq!(img.get_pixel(1, y).unwrap(), white);
            assert_ne!(img.get_pixel(0, y).unwrap(), white);
            assert_ne!(img.get_pixel(2, y).unwrap(), white);
        }
    }
}

#[test]
fn draw_vline_out_of_range_is_rejected() {
    let mut img = sample(3, 2);
    let c = Color(1, 1, 1);
    assert_eq!(img.draw_vline(3, 0, c), Err(BmpError::OutOfBounds));
    assert_eq!(img.draw_vline(0, 4, c), Err(BmpError::OutOfBounds));
    assert_eq!(img.draw_vline(2, 4, c), Err(BmpError::OutOfBounds));
}

#[test]
fn draw_hline_paints_rows_across_all_columns() {
    let mut img = sample(3, 6);
    let white = Color(255, 255, 255);
    img.draw_hline(3, 2, white).unwrap();
    for x in 0..3 {
        assert_eq!(img.get_pixel(x, 2).unwrap(), white);
        assert_eq!(img.get_pixel(x, 3).unwrap(), white);
        assert_ne!(img.get_pixel(x, 1).unwrap(), white);
        assert_ne!(img.get_pixel(x, 4).unwrap(), white);
    }
}

#[test]
fn fade_scales_columns_left_to_right() {
    let mut img = sample(3, 1);
    img.fill(Color(200, 100, 50));
    img.vertical_fade_left();
    // factors 0/2, 1/2, 2/2 over columns 0, 1, 2
    assert_eq!(img.get_pixel(0, 0).unwrap(), Color(0, 0, 0));
    assert_eq!(img.get_pixel(1, 0).unwrap(), Color(100, 50, 25));
    assert_eq!(img.get_pixel(2, 0).unwrap(), Color(200, 100, 50));
}

#[test]
fn fade_rounds_down() {
    let mut img = sample(4, 1);
    img.fill(Color(100, 7, 1));
    img.vertical_fade_left();
    // column 1 factor 1/3: floor(100/3) = 33, floor(7/3) = 2, floor(1/3) = 0
    assert_eq!(img.get_pixel(1, 0).unwrap(), Color(33, 2, 0));
}

#[test]
fn fade_single_column_is_identity() {
    let mut img = sample(1, 2);
    img.fill(Color(12, 34, 56));
    img.vertical_fade_left();
    assert_eq!(img.get_pixel(0, 0).unwrap(), Color(12, 34, 56));
    assert_eq!(img.get_pixel(0, 1).unwrap(), Color(12, 34, 56));
}

#[test]
fn edits_preserve_header_bytes() {
    let mut img = sample(3, 2);
    let header_before = encode_image(&img)[..46].to_vec();
    img.fill(Color(5, 5, 5));
    img.mirror_horizontal_left();
    img.vertical_fade_left();
    img.draw_hline(0, 1, Color(9, 9, 9)).unwrap();
    let out = encode_image(&img);
    assert_eq!(&out[..46], &header_before[..]);
}
