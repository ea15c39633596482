use tiles7800::gfx::{encode_sprite, find_palette, pixel_width, GfxError, Image, Rgb, Rgba, Sprite};
use tiles7800::mode::Mode;

const RED: Rgba = Rgba { r: 255, g: 0, b: 0, a: 255 };
const GREEN: Rgba = Rgba { r: 0, g: 255, b: 0, a: 255 };
const BLUE: Rgba = Rgba { r: 0, g: 0, b: 255, a: 255 };
const WHITE: Rgba = Rgba { r: 255, g: 255, b: 255, a: 255 };
const BLACK: Rgba = Rgba { r: 0, g: 0, b: 0, a: 255 };
const CLEAR: Rgba = Rgba { r: 9, g: 9, b: 9, a: 0 };

fn rgb(p: Rgba) -> Rgb {
    Rgb { r: p.r, g: p.g, b: p.b }
}

fn line(pixels: &[Rgba]) -> Image {
    Image::new(pixels.len() as u32, 1, pixels.to_vec()).unwrap()
}

fn sprite(mode: Mode, width: u32) -> Sprite {
    Sprite { left: 0, top: 0, width, height: 1, mode, named_palette: false, has_background: false }
}

#[test]
fn image_must_hold_width_times_height_pixels() {
    assert!(Image::new(2, 2, vec![RED; 3]).is_none());
    assert!(Image::new(0, 7, Vec::new()).is_some());
    let img = Image::new(2, 2, vec![RED, GREEN, BLUE, WHITE]).unwrap();
    assert_eq!((img.width(), img.height()), (2, 2));
    assert_eq!(img.get(1, 0), Some(GREEN));
    assert_eq!(img.get(0, 1), Some(BLUE));
    assert_eq!(img.get(2, 0), None);
    assert_eq!(img.get(0, 2), None);
    assert_eq!(img.get(u64::MAX, u64::MAX), None);
}

#[test]
fn mode_160a_packs_four_pixels_of_two_bits() {
    let img = line(&[RED, RED, BLACK, BLACK, GREEN, GREEN, RED, RED]);
    assert_eq!(encode_sprite(&img, &sprite(Mode::M160A, 8), &Vec::new()), Ok(vec![73]));
    assert_eq!(pixel_width(Mode::M160A), 2);
    assert_eq!(pixel_width(Mode::M320B), 1);
}

#[test]
fn mode_320a_packs_eight_pixels_of_one_bit() {
    let img = line(&[RED, BLACK, RED, RED, BLACK, CLEAR, BLACK, RED]);
    assert_eq!(encode_sprite(&img, &sprite(Mode::M320A, 8), &Vec::new()), Ok(vec![0b1011_0001]));
    assert_eq!(encode_sprite(&img, &sprite(Mode::M320D, 8), &Vec::new()), Ok(vec![0b1011_0001]));
}

#[test]
fn mode_160b_spreads_the_code_over_both_nibbles() {
    let img = line(&[WHITE, WHITE, BLUE, BLUE]);
    let palette = vec![rgb(WHITE), rgb(RED), rgb(GREEN), rgb(BLUE)];
    let mut s = sprite(Mode::M160B, 4);
    s.named_palette = true;
    assert_eq!(encode_sprite(&img, &s, &palette), Ok(vec![81]));
}

#[test]
fn mode_320b_packs_four_pixels_in_two_bit_planes() {
    let img = line(&[RED, GREEN, BLUE, BLACK]);
    assert_eq!(encode_sprite(&img, &sprite(Mode::M320B, 4), &Vec::new()), Ok(vec![106]));
}

#[test]
fn mode_320c_marks_pixels_and_shares_a_colour_per_pair() {
    let img = line(&[RED, RED, CLEAR, BLUE, CLEAR]);
    let palette = vec![rgb(RED), rgb(GREEN), rgb(BLUE)];
    let mut s = sprite(Mode::M320C, 4);
    s.named_palette = true;
    assert_eq!(encode_sprite(&img, &s, &palette), Ok(vec![210]));
    let opaque = line(&[RED, RED, BLACK, BLUE, CLEAR]);
    assert_eq!(encode_sprite(&opaque, &s, &palette), Err(GfxError::PairedPixels(2, 0)));
}

#[test]
fn mode_320c_refuses_two_colours_in_a_pair() {
    let img = line(&[BLACK, BLACK, RED, GREEN]);
    assert_eq!(
        encode_sprite(&img, &sprite(Mode::M320C, 4), &Vec::new()),
        Err(GfxError::PairedPixels(2, 0))
    );
    let fine = line(&[BLACK, RED, GREEN, CLEAR]);
    assert!(encode_sprite(&fine, &sprite(Mode::M320C, 4), &Vec::new()).is_ok());
}

#[test]
fn mode_320c_looks_one_pixel_past_an_even_pixel() {
    let img = line(&[BLACK, BLACK, RED]);
    assert_eq!(
        encode_sprite(&img, &sprite(Mode::M320C, 3), &Vec::new()),
        Err(GfxError::PixelOutside(3, 0))
    );
}

#[test]
fn colours_take_palette_entries_in_the_order_they_are_met() {
    let img = line(&[GREEN, GREEN, RED, RED, GREEN, GREEN, BLUE, BLUE]);
    assert_eq!(encode_sprite(&img, &sprite(Mode::M160A, 8), &Vec::new()), Ok(vec![0b01_10_01_11]));
}

#[test]
fn more_colours_than_the_mode_holds_is_an_error_without_a_background() {
    let img = line(&[GREEN, GREEN, RED, RED, WHITE, WHITE, BLUE, BLUE]);
    let mut s = sprite(Mode::M160A, 8);
    assert_eq!(encode_sprite(&img, &s, &Vec::new()), Err(GfxError::TooManyColors));
    s.has_background = true;
    assert_eq!(encode_sprite(&img, &s, &Vec::new()), Ok(vec![0b01_10_11_00]));
}

#[test]
fn named_palette_fixes_the_codes_and_finds_black() {
    let img = line(&[RED, RED, CLEAR, CLEAR, BLACK, BLACK, WHITE, WHITE]);
    let palette = vec![rgb(WHITE), rgb(RED)];
    let mut s = sprite(Mode::M160A, 8);
    s.named_palette = true;
    assert_eq!(encode_sprite(&img, &s, &palette), Ok(vec![0b10_00_11_01]));
}

#[test]
fn palette_is_not_loaded_in_single_colour_modes() {
    let img = line(&[RED, WHITE, RED, RED, WHITE, WHITE, WHITE, WHITE]);
    let palette = vec![rgb(WHITE)];
    let mut s = sprite(Mode::M320A, 8);
    s.named_palette = true;
    assert_eq!(encode_sprite(&img, &s, &palette), Err(GfxError::TooManyColors));
    s.has_background = true;
    assert_eq!(encode_sprite(&img, &s, &palette), Ok(vec![0b1011_0000]));
}

#[test]
fn unfinished_byte_is_dropped_at_the_end_of_a_row() {
    let img = Image::new(6, 2, vec![RED; 12]).unwrap();
    let mut s = sprite(Mode::M160A, 6);
    s.height = 2;
    assert_eq!(encode_sprite(&img, &s, &Vec::new()), Ok(Vec::new()));
    let wide = Image::new(10, 2, vec![RED; 20]).unwrap();
    s.width = 10;
    assert_eq!(encode_sprite(&wide, &s, &Vec::new()), Ok(vec![0b01_01_01_01; 2]));
}

#[test]
fn sprite_of_no_size_has_no_bytes() {
    let img = line(&[RED]);
    let mut s = sprite(Mode::M160A, 0);
    assert_eq!(encode_sprite(&img, &s, &Vec::new()), Ok(Vec::new()));
    s.width = 64;
    s.height = 0;
    assert_eq!(encode_sprite(&img, &s, &Vec::new()), Ok(Vec::new()));
}

#[test]
fn sprite_outside_the_image_is_an_error() {
    let img = line(&[RED, RED, RED, RED]);
    let mut s = sprite(Mode::M160A, 8);
    assert_eq!(encode_sprite(&img, &s, &Vec::new()), Err(GfxError::PixelOutside(4, 0)));
    s.width = 4;
    s.top = 1;
    assert_eq!(encode_sprite(&img, &s, &Vec::new()), Err(GfxError::PixelOutside(0, 1)));
    s.top = u32::MAX;
    s.left = u32::MAX;
    assert_eq!(
        encode_sprite(&img, &s, &Vec::new()),
        Err(GfxError::PixelOutside(u32::MAX as u64, u32::MAX as u64))
    );
}

#[test]
fn palette_longer_than_twelve_colours_is_refused() {
    let img = line(&[RED]);
    let palette = vec![rgb(RED); 13];
    assert_eq!(
        encode_sprite(&img, &sprite(Mode::M160A, 0), &palette),
        Err(GfxError::PaletteTooLong)
    );
    assert!(encode_sprite(&img, &sprite(Mode::M160A, 0), &vec![rgb(RED); 12]).is_ok());
}

#[test]
fn sprite_is_read_from_its_corner() {
    let img = Image::new(
        4,
        2,
        vec![BLACK, BLACK, BLACK, BLACK, BLACK, RED, BLACK, RED],
    )
    .unwrap();
    let s = Sprite {
        left: 1,
        top: 1,
        width: 3,
        height: 1,
        mode: Mode::M320B,
        named_palette: false,
        has_background: false,
    };
    assert_eq!(encode_sprite(&img, &s, &Vec::new()), Ok(Vec::new()));
    let t = Sprite { left: 0, width: 4, ..s };
    assert_eq!(encode_sprite(&img, &t, &Vec::new()), Ok(vec![0b0000_0101]));
}

#[test]
fn first_palette_of_a_name_is_found() {
    let names = vec!["sky".to_string(), "sea".to_string(), "sky".to_string()];
    assert_eq!(find_palette(&names, "sky"), Some(0));
    assert_eq!(find_palette(&names, "sea"), Some(1));
    assert_eq!(find_palette(&names, "sun"), None);
    assert_eq!(find_palette(&Vec::new(), "sky"), None);
}
