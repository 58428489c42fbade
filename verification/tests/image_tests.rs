use omalibre::image::half_blocks;
use omalibre::image::kitty::{delete_all, encode_base64, encode_png};
use omalibre::image::sixel::encode;
use omalibre::image::sizing::{half_block_box, pixel_box};
use omalibre::image::{
    clear_all, fit, fit_pixels, flatten, render, render_picture, Backend, CellSize, Picture,
    RenderError,
};

fn solid(width: u32, height: u32, color: [u8; 4]) -> Picture {
    let mut rgba = Vec::new();
    for _ in 0..(width * height) {
        rgba.extend_from_slice(&color);
    }
    Picture::from_rgba(width, height, rgba).unwrap()
}

fn png_bytes(width: u32, height: u32, color: [u8; 4]) -> Vec<u8> {
    let buffer = image::RgbaImage::from_pixel(width, height, image::Rgba(color));
    let mut out = std::io::Cursor::new(Vec::new());
    buffer.write_to(&mut out, image::ImageFormat::Png).unwrap();
    out.into_inner()
}

fn bmp_bytes(width: u32, height: u32, color: [u8; 4]) -> Vec<u8> {
    let buffer = image::RgbaImage::from_pixel(width, height, image::Rgba(color));
    let mut out = std::io::Cursor::new(Vec::new());
    buffer.write_to(&mut out, image::ImageFormat::Bmp).unwrap();
    out.into_inner()
}

#[test]
fn fits_within_the_given_columns() {
    let rendered = fit(&solid(100, 100, [10, 20, 30, 255]), 40, 100);
    assert!(rendered.width() <= 40);
    assert!(rendered.height() >= 1);
}

#[test]
fn keeps_a_square_image_roughly_square() {
    let rendered = fit(&solid(100, 100, [0, 0, 0, 255]), 40, 100);
    let expected = rendered.width() as f32 / 2.0;
    assert!(
        (rendered.height() as f32 - expected).abs() <= 1.0,
        "{} rows for {} columns",
        rendered.height(),
        rendered.width()
    );
}

#[test]
fn respects_the_row_cap_without_stretching() {
    let tall = solid(100, 1000, [0, 0, 0, 255]);
    let rendered = fit(&tall, 80, 10);
    assert!(rendered.height() <= 10);
    assert!(
        rendered.width() < 80,
        "{} columns is too wide for 10 rows",
        rendered.width()
    );
}

#[test]
fn carries_the_colour_through() {
    let rendered = fit(&solid(10, 10, [200, 100, 50, 255]), 10, 10);
    let cell = rendered.cells().unwrap()[0][0];
    assert_eq!(cell.upper, (200, 100, 50));
    assert_eq!(cell.lower, (200, 100, 50));
}

#[test]
fn resolves_transparency_against_white() {
    assert_eq!(flatten([0, 0, 0, 255]), (0, 0, 0));
    assert_eq!(flatten([0, 0, 0, 0]), (255, 255, 255));
    let half = flatten([0, 0, 0, 128]);
    assert!(half.0 > 100 && half.0 < 160, "{half:?}");
}

#[test]
fn an_empty_image_renders_to_nothing() {
    let empty = Picture::from_rgba(0, 0, Vec::new()).unwrap();
    assert_eq!(fit(&empty, 40, 20).height(), 0);
}

/// The compositing in whole numbers gives what the same sum in `f32` gives,
/// for every colour and coverage.
#[test]
fn flatten_matches_the_float_blend_everywhere() {
    for a in 0..=255u8 {
        for c in 0..=255u8 {
            let alpha = a as f32 / 255.0;
            let float = if a == 255 {
                c
            } else {
                (c as f32 * alpha + 255.0 * (1.0 - alpha)).round().clamp(0.0, 255.0) as u8
            };
            assert_eq!(flatten([c, c, c, a]).0, float, "channel {c} alpha {a}");
        }
    }
}

#[test]
fn a_partly_transparent_pixel_is_lighter() {
    let (r, g, b) = flatten([0, 100, 200, 128]);
    assert_eq!((r, g, b), (127, 177, 227));
}

fn float_half_block_box(width: u32, height: u32, max_cols: u16, max_rows: u16) -> (u16, u16) {
    let cols = max_cols.max(1) as f32;
    let rows_from_width = (height as f32 / width as f32) * cols / 2.0;
    let rows = rows_from_width.round().max(1.0).min(max_rows.max(1) as f32);
    let cols = (rows * 2.0 * width as f32 / height as f32).round().max(1.0).min(cols);
    (cols as u16, rows as u16)
}

/// Sizes are exact ratios rounded half up. On this grid they agree with the
/// same sums done in `f32`; at exact halves the `f32` sums can fall just
/// short and round down, as the 7 x 31 case below shows.
#[test]
fn half_block_sizes_agree_with_float_sums_on_a_grid() {
    assert_eq!(half_block_box(7, 31, 7, 100), (7, 16));
    assert_eq!(float_half_block_box(7, 31, 7, 100), (7, 15));
    assert_eq!(half_block_box(100, 100, 40, 100), (40, 20));
    assert_eq!(half_block_box(100, 1000, 80, 10), (2, 10));
    assert_eq!(half_block_box(3, 1, 0, 0), (1, 1));
    assert_eq!(half_block_box(1, 1, 1, 5), (1, 1));
    let mut differences = 0;
    for width in (1..300u32).step_by(7) {
        for height in (1..300u32).step_by(5) {
            for max_cols in [1u16, 7, 40, 80, 120] {
                for max_rows in [1u16, 5, 24, 60] {
                    if half_block_box(width, height, max_cols, max_rows)
                        != float_half_block_box(width, height, max_cols, max_rows)
                    {
                        differences += 1;
                    }
                }
            }
        }
    }
    assert!(differences == 0, "{differences} sizes differ from the float sums");
}

fn float_pixel_box(width: u32, height: u32, max_cols: u16, max_rows: u16, cell: CellSize) -> (u16, u16) {
    let cell_w = cell.width.max(1) as f32;
    let cell_h = cell.height.max(1) as f32;
    let by_width = max_cols.max(1) as f32;
    let rows_needed = (height as f32 * (by_width * cell_w) / width as f32) / cell_h;
    let (cols, rows) = if rows_needed <= max_rows.max(1) as f32 {
        (by_width, rows_needed.round().max(1.0))
    } else {
        let rows = max_rows.max(1) as f32;
        let cols = (width as f32 * (rows * cell_h) / height as f32) / cell_w;
        (cols.round().max(1.0).min(by_width), rows)
    };
    (cols as u16, rows as u16)
}

/// Pixel boxes too agree with the `f32` sums on this grid; exact halves may
/// differ elsewhere.
#[test]
fn pixel_box_sizes_agree_with_float_sums_on_a_grid() {
    let mut differences = 0;
    for width in (1..2000u32).step_by(37) {
        for height in (1..2000u32).step_by(29) {
            for (max_cols, max_rows) in [(1u16, 1u16), (40, 20), (80, 24), (120, 60)] {
                for cell in [CellSize { width: 8, height: 16 }, CellSize { width: 10, height: 21 }] {
                    if pixel_box(width, height, max_cols, max_rows, cell.width, cell.height)
                        != float_pixel_box(width, height, max_cols, max_rows, cell)
                    {
                        differences += 1;
                    }
                }
            }
        }
    }
    assert!(differences == 0, "{differences} sizes differ from the float sums");
}

#[test]
fn pixel_boxes_fill_the_width_or_the_rows() {
    assert_eq!(pixel_box(800, 400, 80, 24, 8, 16), (80, 20));
    assert_eq!(pixel_box(400, 800, 80, 24, 8, 16), (24, 24));
    assert_eq!(pixel_box(400, 800, 80, 24, 0, 0), (12, 24));
}

#[test]
fn an_empty_picture_needs_no_escape() {
    let empty = Picture::from_rgba(0, 5, Vec::new()).unwrap();
    let rendered = fit_pixels(&empty, &[], 40, 20, Backend::Kitty, 1, CellSize::default());
    assert_eq!((rendered.width(), rendered.height()), (0, 0));
    assert_eq!(rendered.escape(), Some(""));
    assert!(rendered.cells().is_none());
}

#[test]
fn a_picture_needs_bytes_for_every_pixel() {
    assert!(Picture::from_rgba(2, 2, vec![0; 15]).is_none());
    assert!(Picture::from_rgba(2, 2, vec![0; 16]).is_some());
}

#[test]
fn base64_pads_the_last_group() {
    let text = |bytes: &[u8]| encode_base64(bytes).into_iter().collect::<String>();
    assert_eq!(text(b"Man"), "TWFu");
    assert_eq!(text(b"Ma"), "TWE=");
    assert_eq!(text(b"M"), "TQ==");
    assert_eq!(text(b""), "");
    assert_eq!(text(&[0xff, 0xfe, 0x3f]), "//4/");
}

#[test]
fn kitty_sends_short_pictures_in_one_piece() {
    assert_eq!(encode_png(b"Man", 4, 2, 7), "\x1b_Ga=T,f=100,q=2,i=7,c=4,r=2,m=0;TWFu\x1b\\");
}

#[test]
fn kitty_splits_long_pictures_into_chunks() {
    let data = vec![0u8; 2900 * 3];
    let escape = encode_png(&data, 10, 5, 3);
    let pieces: Vec<&str> = escape.split("\x1b\\").filter(|p| !p.is_empty()).collect();
    assert_eq!(pieces.len(), 3);
    assert!(pieces[0].starts_with("\x1b_Ga=T,f=100,q=2,i=3,c=10,r=5,m=1;"));
    assert!(pieces[1].starts_with("\x1b_Gm=1;"));
    assert!(pieces[2].starts_with("\x1b_Gm=0;"));
    assert_eq!(pieces[0].len() - "\x1b_Ga=T,f=100,q=2,i=3,c=10,r=5,m=1;".len(), 4096);
    assert_eq!(pieces[2].len() - "\x1b_Gm=0;".len(), 11600 - 2 * 4096);
}

#[test]
fn only_kitty_pictures_need_clearing() {
    assert_eq!(clear_all(Backend::Kitty), Some("\x1b_Ga=d,d=A\x1b\\".to_string()));
    assert_eq!(delete_all(), "\x1b_Ga=d,d=A\x1b\\");
    assert_eq!(clear_all(Backend::Sixel), None);
    assert_eq!(clear_all(Backend::HalfBlocks), None);
}

#[test]
fn undecodable_bytes_are_an_error() {
    let result = render(b"not an image", 40, 20, Backend::HalfBlocks, 1, CellSize::default());
    assert!(matches!(result, Err(RenderError::CannotDecode(_))));
}

#[test]
fn renders_a_png_as_half_blocks() {
    let bytes = png_bytes(4, 4, [10, 20, 30, 255]);
    let rendered = render(&bytes, 4, 10, Backend::HalfBlocks, 1, CellSize::default()).unwrap();
    assert_eq!((rendered.width(), rendered.height()), (4, 2));
    let cells = rendered.cells().unwrap();
    assert_eq!(cells.len(), 2);
    assert!(cells.iter().all(|row| row.len() == 4));
    assert!(cells.iter().flatten().all(|c| c.upper == (10, 20, 30) && c.lower == (10, 20, 30)));
    assert!(rendered.escape().is_none());
}

#[test]
fn half_blocks_scale_the_pixels_down() {
    let bytes = png_bytes(40, 40, [0, 0, 0, 0]);
    let rendered = render(&bytes, 10, 10, Backend::HalfBlocks, 1, CellSize::default()).unwrap();
    assert_eq!((rendered.width(), rendered.height()), (10, 5));
    assert_eq!(rendered.cells().unwrap()[4][9].lower, (255, 255, 255));
}

#[test]
fn kitty_sends_a_png_unchanged() {
    let bytes = png_bytes(16, 8, [1, 2, 3, 255]);
    let rendered = render(&bytes, 20, 10, Backend::Kitty, 9, CellSize { width: 8, height: 16 }).unwrap();
    assert_eq!((rendered.width(), rendered.height()), (20, 5));
    let expected = encode_png(&bytes, 20, 5, 9);
    assert_eq!(rendered.escape(), Some(expected.as_str()));
}

#[test]
fn kitty_sends_any_file_as_it_is() {
    let bytes = bmp_bytes(16, 8, [1, 2, 3, 255]);
    let rendered = render(&bytes, 20, 10, Backend::Kitty, 9, CellSize::default()).unwrap();
    let expected = encode_png(&bytes, 20, 5, 9);
    assert_eq!(rendered.escape(), Some(expected.as_str()));
}

#[test]
fn render_picture_takes_a_decoded_picture() {
    let picture = solid(4, 4, [10, 20, 30, 255]);
    let rendered = render_picture(&picture, &[], 4, 10, Backend::HalfBlocks, 1, CellSize::default());
    assert_eq!((rendered.width(), rendered.height()), (4, 2));
    assert_eq!(rendered.cells().unwrap()[1][3].lower, (10, 20, 30));
    let kitty = render_picture(&picture, b"Man", 4, 10, Backend::Kitty, 2, CellSize { width: 1, height: 2 });
    assert_eq!((kitty.width(), kitty.height()), (4, 2));
    assert_eq!(kitty.escape(), Some("\x1b_Ga=T,f=100,q=2,i=2,c=4,r=2,m=0;TWFu\x1b\\"));
}

#[test]
fn sixel_draws_a_resized_picture() {
    let bytes = png_bytes(4, 4, [255, 0, 0, 255]);
    let rendered = render(&bytes, 2, 10, Backend::Sixel, 1, CellSize { width: 1, height: 3 }).unwrap();
    assert_eq!((rendered.width(), rendered.height()), (2, 1));
    let escape = rendered.escape().unwrap();
    assert!(escape.starts_with("\x1bPq\"1;1;2;3#0;2;0;0;0#1;2;0;0;20"));
    // Red is register 180; three pixel rows give the bits 1 + 2 + 4.
    assert!(escape.ends_with("#180;2;100;0;0#181;2;100;0;20#182;2;100;0;40#183;2;100;0;60#184;2;100;0;80#185;2;100;0;100#186;2;100;20;0#187;2;100;20;20#188;2;100;20;40#189;2;100;20;60#190;2;100;20;80#191;2;100;20;100#192;2;100;40;0#193;2;100;40;20#194;2;100;40;40#195;2;100;40;60#196;2;100;40;80#197;2;100;40;100#198;2;100;60;0#199;2;100;60;20#200;2;100;60;40#201;2;100;60;60#202;2;100;60;80#203;2;100;60;100#204;2;100;80;0#205;2;100;80;20#206;2;100;80;40#207;2;100;80;60#208;2;100;80;80#209;2;100;80;100#210;2;100;100;0#211;2;100;100;20#212;2;100;100;40#213;2;100;100;60#214;2;100;100;80#215;2;100;100;100#180FF$\x1b\\"), "{escape:?}");
}

#[test]
fn the_default_cell_is_eight_by_sixteen() {
    let cell = CellSize::default();
    assert_eq!((cell.width, cell.height), (8, 16));
}

#[test]
fn half_blocks_pair_the_pixel_rows() {
    let scaled = vec![
        255, 0, 0, 255, 0, 0, 0, 0, // upper row
        0, 255, 0, 255, 10, 20, 30, 128, // lower row
    ];
    let rendered = half_blocks(&scaled, 2, 1);
    assert_eq!((rendered.width(), rendered.height()), (2, 1));
    let cells = rendered.cells().unwrap();
    assert_eq!(cells[0][0].upper, (255, 0, 0));
    assert_eq!(cells[0][0].lower, (0, 255, 0));
    assert_eq!(cells[0][1].upper, (255, 255, 255));
    assert_eq!(cells[0][1].lower, (132, 137, 142));
}

#[test]
fn sixel_of_one_clear_pixel_is_white() {
    let escape = encode(&vec![0, 0, 0, 0], 1, 1);
    assert!(escape.starts_with("\x1bPq\"1;1;1;1#0;2;0;0;0#1;2;0;0;20"));
    assert!(escape.ends_with("#215;2;100;100;100#215@$\x1b\\"), "{escape:?}");
}

#[test]
fn sixel_bands_are_six_rows_tall() {
    // One column, seven rows: black, then six white.
    let mut rgba = vec![0, 0, 0, 255];
    for _ in 0..6 {
        rgba.extend_from_slice(&[255, 255, 255, 255]);
    }
    let escape = encode(&rgba, 1, 7);
    // Band one: black in the top pixel, white in the other five; band two:
    // one white pixel.
    assert!(escape.ends_with("#0@$#215}$-#215@$\x1b\\"), "{escape:?}");
}

#[test]
fn more_opacity_or_a_lighter_channel_keep_the_order() {
    for c in [0u8, 40, 128, 200, 255] {
        let mut last = 255u8;
        for a in 0..=255u8 {
            let out = flatten([c, c, c, a]).0;
            assert!(out <= last, "alpha {a} channel {c}");
            last = out;
        }
    }
    for a in [0u8, 1, 100, 254, 255] {
        let mut last = 0u8;
        for c in 0..=255u8 {
            let out = flatten([c, 0, 0, a]).0;
            assert!(out >= last, "alpha {a} channel {c}");
            last = out;
        }
    }
}
