use j2_gba_tool::color::{rgba, TrueColor};
use j2_gba_tool::image::{convert_image, EncodeError, PixelGrid, TILE_SIZE};

fn grid_of(width: u32, height: u32, color_at: fn(u32, u32) -> TrueColor) -> PixelGrid {
    let mut pixels = Vec::new();
    for y in 0..height {
        for x in 0..width {
            pixels.push(color_at(x, y));
        }
    }
    PixelGrid::new(width, height, pixels).unwrap()
}

fn hardware(color: TrueColor) -> u16 {
    ((color.r >> 3) as u16) | (((color.g >> 3) as u16) << 5) | (((color.b >> 3) as u16) << 10)
}

fn by_column_and_row(x: u32, y: u32) -> TrueColor {
    rgba((x * 8) as u8, (y * 8) as u8, 0, 255)
}

fn by_tile_column(x: u32, _y: u32) -> TrueColor {
    if x < 8 {
        rgba(255, 0, 0, 255)
    } else {
        rgba(0, 0, 255, 255)
    }
}

fn by_row(_x: u32, y: u32) -> TrueColor {
    rgba(0, (y * 8) as u8, 0, 255)
}

fn all_distinct(x: u32, y: u32) -> TrueColor {
    rgba((x * 8) as u8, (y * 8) as u8, 0, 255)
}

fn one_color(_x: u32, _y: u32) -> TrueColor {
    rgba(12, 34, 56, 78)
}

#[test]
fn tile_size_is_eight() {
    assert_eq!(TILE_SIZE, 8);
}

#[test]
fn grid_needs_one_pixel_per_place() {
    assert!(PixelGrid::new(2, 2, vec![rgba(0, 0, 0, 0); 4]).is_some());
    assert!(PixelGrid::new(2, 2, vec![rgba(0, 0, 0, 0); 3]).is_none());
    assert!(PixelGrid::new(2, 2, vec![rgba(0, 0, 0, 0); 5]).is_none());
    assert!(PixelGrid::new(0, 7, Vec::new()).is_some());
    assert!(PixelGrid::new(0, 0, vec![rgba(0, 0, 0, 0)]).is_none());
    assert!(PixelGrid::new(u32::MAX, u32::MAX, Vec::new()).is_none());
}

#[test]
fn grid_is_addressed_by_column_and_row() {
    let grid = grid_of(3, 2, by_column_and_row);
    assert_eq!(grid.dimensions(), (3, 2));
    for y in 0..2 {
        for x in 0..3 {
            assert_eq!(*grid.get_pixel(x, y), rgba((x * 8) as u8, (y * 8) as u8, 0, 255));
        }
    }
}

#[test]
fn width_that_is_no_multiple_of_eight_is_rejected() {
    let result = convert_image(grid_of(10, 8, one_color));
    assert_eq!(result.err(), Some(EncodeError::DimensionError));
}

#[test]
fn height_that_is_no_multiple_of_eight_is_rejected() {
    let result = convert_image(grid_of(8, 10, one_color));
    assert_eq!(result.err(), Some(EncodeError::DimensionError));
    let result = convert_image(grid_of(8, 7, one_color));
    assert_eq!(result.err(), Some(EncodeError::DimensionError));
}

#[test]
fn dimensions_are_checked_before_colors() {
    // 24 by 20 holds 480 distinct colours, yet the dimensions are reported
    let result = convert_image(grid_of(24, 20, all_distinct));
    assert_eq!(result.err(), Some(EncodeError::DimensionError));
}

#[test]
fn empty_image_gives_an_empty_stream() {
    let (pixels, palette) = convert_image(PixelGrid::new(0, 0, Vec::new()).unwrap()).ok().unwrap();
    assert!(pixels.is_empty());
    assert_eq!(palette.next_free(), 0);
    assert_eq!(palette.max_count(), 256);
    assert_eq!(palette.serialize(), vec![0u8; 512]);
}

#[test]
fn single_tile_is_written_row_by_row() {
    let (pixels, palette) = convert_image(grid_of(8, 8, by_column_and_row)).ok().unwrap();
    let expected: Vec<u8> = (0..64).collect();
    assert_eq!(pixels, expected);
    assert_eq!(palette.next_free(), 64);
    let data = palette.serialize();
    assert_eq!(data.len(), 512);
    for k in 0..64u32 {
        let stored = u16::from_le_bytes([data[2 * k as usize], data[2 * k as usize + 1]]);
        assert_eq!(stored, hardware(by_column_and_row(k % 8, k / 8)));
    }
}

#[test]
fn left_tile_comes_before_right_tile() {
    let (pixels, palette) = convert_image(grid_of(16, 8, by_tile_column)).ok().unwrap();
    assert_eq!(pixels.len(), 128);
    assert!(pixels[..64].iter().all(|&p| p == 0));
    assert!(pixels[64..].iter().all(|&p| p == 1));
    assert_eq!(palette.next_free(), 2);
    let data = palette.serialize();
    assert_eq!(&data[..4], &[0x1f, 0x00, 0x00, 0x7c]);
}

#[test]
fn two_tiles_wide_follows_tile_order_and_not_raster_order() {
    let (pixels, palette) = convert_image(grid_of(16, 8, by_column_and_row)).ok().unwrap();
    // every pixel has a colour of its own, so slot k holds the colour of the
    // pixel that stands at place k of the stream
    let expected: Vec<u8> = (0..128).collect();
    assert_eq!(pixels, expected);
    let data = palette.serialize();
    for k in 0..128u32 {
        let stored = u16::from_le_bytes([data[2 * k as usize], data[2 * k as usize + 1]]);
        let tile = k / 64;
        let x = tile * 8 + k % 8;
        let y = (k % 64) / 8;
        assert_eq!(stored, hardware(by_column_and_row(x, y)));
    }
    // place 8 is the start of the second row of the left tile, not the
    // ninth pixel of the first row
    let ninth = u16::from_le_bytes([data[16], data[17]]);
    assert_eq!(ninth, hardware(by_column_and_row(0, 1)));
    assert_ne!(ninth, hardware(by_column_and_row(8, 0)));
}

#[test]
fn tile_rows_follow_each_other() {
    let (pixels, _palette) = convert_image(grid_of(8, 16, by_row)).ok().unwrap();
    assert_eq!(pixels.len(), 128);
    for k in 0..128usize {
        assert_eq!(pixels[k], (k / 8) as u8);
    }
}

#[test]
fn four_tiles_are_walked_row_by_row() {
    let (pixels, _palette) = convert_image(grid_of(16, 16, all_distinct)).ok().unwrap();
    assert_eq!(pixels.len(), 256);
    // all 256 colours are distinct, so the stream counts up
    let expected: Vec<u8> = (0..=255).collect();
    assert_eq!(pixels, expected);
}

#[test]
fn indices_name_first_seen_slots() {
    fn stripes(x: u32, _y: u32) -> TrueColor {
        rgba(((x % 3) * 64) as u8, 0, 0, 255)
    }
    let (pixels, palette) = convert_image(grid_of(8, 8, stripes)).ok().unwrap();
    assert_eq!(palette.next_free(), 3);
    for k in 0..64usize {
        assert_eq!(pixels[k], ((k % 8) % 3) as u8);
    }
    assert_eq!(&palette.serialize()[..8], &[0, 0, 8, 0, 16, 0, 0, 0]);
}

#[test]
fn exactly_256_colors_fit() {
    let (pixels, palette) = convert_image(grid_of(16, 16, all_distinct)).ok().unwrap();
    assert_eq!(pixels.len(), 256);
    assert_eq!(palette.next_free(), 256);
}

#[test]
fn more_than_256_colors_are_rejected() {
    let result = convert_image(grid_of(24, 16, all_distinct));
    assert_eq!(result.err(), Some(EncodeError::TooManyColors));
}

#[test]
fn one_color_image_uses_one_slot() {
    let (pixels, palette) = convert_image(grid_of(32, 24, one_color)).ok().unwrap();
    assert_eq!(pixels, vec![0u8; 32 * 24]);
    assert_eq!(palette.next_free(), 1);
    let data = palette.serialize();
    // 12 >> 3 = 1, 34 >> 3 = 4, 56 >> 3 = 7: 1 + 4 * 32 + 7 * 1024 = 7297 = 0x1c81
    assert_eq!(&data[..2], &[0x81, 0x1c]);
    assert!(data[2..].iter().all(|&b| b == 0));
}
