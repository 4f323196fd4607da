use object_kernel::framebuffer::{Framebuffer, GraphicsFramebuffer};

fn fb(width: usize, height: usize, stride: usize) -> Framebuffer {
    Framebuffer { pixels: vec![0; stride * height], pitch: stride * 4, width, height }
}

fn at(f: &Framebuffer, x: usize, y: usize) -> u32 {
    f.read_pixel(x, y)
}

fn lit(f: &Framebuffer, width: usize, height: usize, color: u32) -> Vec<(usize, usize)> {
    let mut v = Vec::new();
    for y in 0..height {
        for x in 0..width {
            if at(f, x, y) == color {
                v.push((x, y));
            }
        }
    }
    v
}

/// A font whose glyph for `c` has every row `row_bits`; all other glyphs are
/// blank.
fn font_with(c: u8, row_bits: u8) -> Vec<u8> {
    let mut font = vec![0u8; 4096];
    for r in 0..16 {
        font[c as usize * 16 + r] = row_bits;
    }
    font
}

#[test]
fn pixel_then_read_pixel() {
    let mut f = fb(16, 16, 16);
    f.pixel(3, 2, 0xFF00FF00);
    assert_eq!(f.read_pixel(3, 2), 0xFF00FF00);
    assert_eq!(f.pixels[2 * 16 + 3], 0xFF00FF00);
    assert_eq!(f.read_pixel(2, 3), 0);
}

#[test]
fn pixel_uses_the_pitch_not_the_width() {
    let mut f = fb(4, 4, 8);
    f.pixel(1, 3, 7);
    assert_eq!(f.pixels[3 * 8 + 1], 7);
}

#[test]
fn rect_has_border_and_fill() {
    let mut f = fb(16, 16, 16);
    f.rect(1, 1, 4, 3, 0xB, 0xF);
    for y in 1..=3 {
        for x in 1..=4 {
            let edge = x == 1 || x == 4 || y == 1 || y == 3;
            assert_eq!(at(&f, x, y), if edge { 0xB } else { 0xF }, "pixel ({x}, {y})");
        }
    }
    assert_eq!(at(&f, 0, 0), 0);
    assert_eq!(at(&f, 5, 3), 0);
    assert_eq!(at(&f, 4, 4), 0);
    assert_eq!(lit(&f, 16, 16, 0xF), vec![(2, 2), (3, 2)]);
}

#[test]
fn rect_of_one_pixel_is_border() {
    let mut f = fb(8, 8, 8);
    f.rect(2, 2, 2, 2, 1, 2);
    assert_eq!(lit(&f, 8, 8, 1), vec![(2, 2)]);
    assert_eq!(lit(&f, 8, 8, 2), vec![]);
}

#[test]
fn line_horizontal_both_ways() {
    let mut f = fb(16, 16, 16);
    f.line(0, 0, 5, 0, 9);
    assert_eq!(lit(&f, 16, 16, 9), (0..=5).map(|x| (x, 0)).collect::<Vec<_>>());
    let mut g = fb(16, 16, 16);
    g.line(5, 2, 0, 2, 9);
    assert_eq!(lit(&g, 16, 16, 9), (0..=5).map(|x| (x, 2)).collect::<Vec<_>>());
}

#[test]
fn line_diagonal() {
    let mut f = fb(16, 16, 16);
    f.line(0, 0, 3, 3, 5);
    assert_eq!(lit(&f, 16, 16, 5), vec![(0, 0), (1, 1), (2, 2), (3, 3)]);
}

#[test]
fn line_steep_follows_bresenham() {
    let mut f = fb(16, 16, 16);
    f.line(0, 0, 1, 3, 5);
    assert_eq!(lit(&f, 16, 16, 5), vec![(0, 0), (0, 1), (1, 2), (1, 3)]);
}

#[test]
fn line_shallow_upwards() {
    let mut f = fb(16, 16, 16);
    f.line(0, 2, 4, 0, 5);
    // dx 4, dy -2: the walk goes (0,2) (1,1)? no: it steps x first
    let pts = lit(&f, 16, 16, 5);
    assert!(pts.contains(&(0, 2)));
    assert!(pts.contains(&(4, 0)));
    assert_eq!(pts.len(), 5);
}

#[test]
fn line_of_one_point() {
    let mut f = fb(8, 8, 8);
    f.line(3, 4, 3, 4, 1);
    assert_eq!(lit(&f, 8, 8, 1), vec![(3, 4)]);
}

#[test]
fn clear_paints_the_visible_area_only() {
    let mut f = fb(4, 3, 8);
    f.clear(0xAA);
    for y in 0..3 {
        for x in 0..8 {
            assert_eq!(at(&f, x, y), if x < 4 { 0xAA } else { 0 });
        }
    }
}

#[test]
fn character_draws_the_set_glyph_bits() {
    let font = font_with(b'A', 0x81);
    let mut f = fb(16, 16, 16);
    f.character(&font, 4, 0, b'A', 3);
    let mut expected = Vec::new();
    for y in 0..16 {
        expected.push((4, y));
        expected.push((11, y));
    }
    assert_eq!(lit(&f, 16, 16, 3), expected);
    // a blank glyph draws nothing
    let mut g = fb(16, 16, 16);
    g.character(&font, 0, 0, b'B', 3);
    assert_eq!(lit(&g, 16, 16, 3), vec![]);
}

#[test]
fn character_leaves_unset_bits_alone() {
    let font = font_with(b'x', 0x80);
    let mut f = Framebuffer { pixels: vec![7; 16 * 16], pitch: 64, width: 16, height: 16 };
    f.character(&font, 0, 0, b'x', 1);
    assert_eq!(f.read_pixel(0, 0), 1);
    assert_eq!(f.read_pixel(1, 0), 7);
    assert_eq!(f.read_pixel(7, 15), 7);
}

fn column_lit(f: &Framebuffer, x: usize, y0: usize) -> bool {
    (y0..y0 + 16).all(|y| at(f, x, y) == 1)
}

#[test]
fn string_advances_one_cell_per_character() {
    let mut font = font_with(b'A', 0x80);
    for r in 0..16 {
        font[b'B' as usize * 16 + r] = 0x80;
    }
    let mut f = fb(32, 32, 32);
    f.string(&font, 0, 0, b"AB", None, 1);
    assert!(column_lit(&f, 0, 0));
    assert!(column_lit(&f, 8, 0));
    assert_eq!(lit(&f, 32, 32, 1).len(), 32);
}

#[test]
fn string_handles_line_feed_and_carriage_return() {
    let font = font_with(b'A', 0x80);
    let mut f = fb(32, 48, 32);
    f.string(&font, 0, 0, b"A\nA", None, 1);
    assert!(column_lit(&f, 0, 0));
    assert!(column_lit(&f, 0, 16));
    let mut g = fb(32, 48, 32);
    g.string(&font, 0, 0, b"AA\rA", None, 1);
    assert!(column_lit(&g, 0, 0));
    assert!(column_lit(&g, 8, 0));
    assert_eq!(lit(&g, 32, 48, 1).len(), 32);
}

#[test]
fn string_tab_and_backspace() {
    let font = font_with(b'A', 0x80);
    let mut f = fb(80, 16, 80);
    f.string(&font, 0, 0, b"\tA", None, 1);
    assert!(column_lit(&f, 64, 0));
    assert_eq!(lit(&f, 80, 16, 1).len(), 16);
    let mut g = fb(80, 16, 80);
    g.string(&font, 0, 0, b"AA\x08\x08A", None, 1);
    assert!(column_lit(&g, 0, 0));
    assert!(column_lit(&g, 8, 0));
    assert_eq!(lit(&g, 80, 16, 1).len(), 32);
}

#[test]
fn string_wraps_after_the_given_cells() {
    let font = font_with(b'A', 0x80);
    let mut f = fb(32, 48, 32);
    f.string(&font, 8, 0, b"AAA", Some(2), 1);
    assert!(column_lit(&f, 8, 0));
    assert!(column_lit(&f, 16, 0));
    assert!(column_lit(&f, 8, 16));
    assert_eq!(lit(&f, 32, 48, 1).len(), 48);
}

#[test]
fn drawable_up_to_checks_the_corner() {
    let f = fb(16, 16, 16);
    assert!(f.drawable_up_to(15, 15));
    assert!(!f.drawable_up_to(16, 0));
    assert!(!f.drawable_up_to(0, 16));
    let g = Framebuffer { pixels: vec![0; 64], pitch: 30, width: 4, height: 4 };
    assert!(!g.drawable_up_to(0, 0));
}

#[test]
fn a_uniform_rect_may_run_past_the_row_end() {
    // 4 pixels per row; the box reaches column 4, which is column 0 below
    let mut f = Framebuffer { pixels: vec![7; 16], pitch: 16, width: 4, height: 4 };
    f.rect(3, 0, 4, 1, 2, 2);
    assert_eq!(f.pixels, vec![7, 7, 7, 2, 2, 7, 7, 2, 2, 7, 7, 7, 7, 7, 7, 7]);
}
