use object_kernel::framebuffer::{Framebuffer, GraphicsFramebuffer};
use object_kernel::terminal::{_print, _serial_print, SerialWriter, Writer};

/// A console framebuffer of `cols` by `rows` cells, with room for the ninth
/// column and the lower half of the last row's glyphs.
fn console(cols: usize, rows: usize) -> Framebuffer {
    let stride = cols * 8 + 8;
    let height = rows * 8;
    Framebuffer { pixels: vec![0x55; stride * (height + 8)], pitch: stride * 4, width: cols * 8, height }
}

fn font() -> Vec<u8> {
    let mut font = vec![0u8; 4096];
    for r in 0..16 {
        font[b'A' as usize * 16 + r] = 0x80;
    }
    font
}

#[test]
fn writer_starts_top_left() {
    let w = Writer::new();
    assert_eq!((w.col, w.row), (0, 0));
}

#[test]
fn printing_a_character_clears_its_cell_and_draws_it() {
    let font = font();
    let mut w = Writer::new();
    let mut fb = Some(console(4, 4));
    w.write_str(&mut fb, &font, "A");
    assert_eq!((w.col, w.row), (1, 0));
    let f = fb.as_ref().unwrap();
    for y in 0..16 {
        assert_eq!(f.read_pixel(0, y), 0xFFFFFFFF, "glyph column at row {y}");
    }
    // the cleared 9x9 cell box
    assert_eq!(f.read_pixel(1, 0), 0);
    assert_eq!(f.read_pixel(8, 8), 0);
    assert_eq!(f.read_pixel(9, 0), 0x55);
    assert_eq!(f.read_pixel(1, 9), 0x55);
}

#[test]
fn control_characters_move_the_cursor() {
    let font = font();
    let mut w = Writer::new();
    let mut fb = Some(console(20, 4));
    w.write_str(&mut fb, &font, "AB\n");
    assert_eq!((w.col, w.row), (0, 1));
    w.write_str(&mut fb, &font, "xyz\r");
    assert_eq!((w.col, w.row), (0, 1));
    w.write_str(&mut fb, &font, "\t");
    assert_eq!((w.col, w.row), (8, 1));
    w.write_str(&mut fb, &font, "\x08\x08");
    assert_eq!((w.col, w.row), (6, 1));
}

#[test]
fn backspace_stops_at_the_first_column() {
    let font = font();
    let mut w = Writer::new();
    let mut fb = Some(console(4, 4));
    w.write_str(&mut fb, &font, "\x08");
    assert_eq!((w.col, w.row), (0, 0));
}

#[test]
fn cursor_wraps_to_next_row_and_back_to_the_top() {
    let font = font();
    let mut w = Writer::new();
    let mut fb = Some(console(2, 2));
    w.write_str(&mut fb, &font, "AB");
    assert_eq!((w.col, w.row), (0, 1));
    w.write_str(&mut fb, &font, "A");
    assert_eq!((w.col, w.row), (1, 1));
    w.write_str(&mut fb, &font, "A");
    assert_eq!((w.col, w.row), (0, 0));
    w.write_str(&mut fb, &font, "\t");
    assert_eq!((w.col, w.row), (0, 1));
    w.write_str(&mut fb, &font, "\n");
    assert_eq!((w.col, w.row), (0, 0));
}

#[test]
fn without_a_framebuffer_nothing_happens() {
    let font = font();
    let mut w = Writer::new();
    let mut fb: Option<Framebuffer> = None;
    _print(&mut w, &mut fb, &font, "hello\n");
    assert_eq!((w.col, w.row), (0, 0));
    assert!(fb.is_none());
}

#[test]
fn printing_in_two_parts_is_printing_the_whole() {
    let font = font();
    let mut w1 = Writer::new();
    let mut fb1 = Some(console(6, 4));
    _print(&mut w1, &mut fb1, &font, "AA\tA\nA");
    let mut w2 = Writer::new();
    let mut fb2 = Some(console(6, 4));
    _print(&mut w2, &mut fb2, &font, "AA\t");
    _print(&mut w2, &mut fb2, &font, "A\nA");
    assert_eq!((w1.col, w1.row), (w2.col, w2.row));
    assert_eq!(fb1.unwrap().pixels, fb2.unwrap().pixels);
}

#[test]
fn serial_writer_collects_bytes_in_order() {
    let mut s = SerialWriter::new();
    s.write_str("Object");
    _serial_print(&mut s, " Kernel\n");
    assert_eq!(s.take_outgoing(), b"Object Kernel\n".to_vec());
    assert_eq!(s.take_outgoing(), Vec::<u8>::new());
    _serial_print(&mut s, "é");
    assert_eq!(s.take_outgoing(), vec![0xC3, 0xA9]);
}

#[test]
fn the_last_column_prints_on_a_buffer_without_spare_columns() {
    // 16 by 32 pixels, 64 bytes per row: two cells per text row
    let mut font = vec![0u8; 4096];
    for r in 0..16 {
        font[b'a' as usize * 16 + r] = 0x80;
    }
    let mut w = Writer::new();
    let mut fb = Some(Framebuffer { pixels: vec![0x55; 1024], pitch: 64, width: 16, height: 32 });
    w.write_str(&mut fb, &font, "ab");
    assert_eq!((w.col, w.row), (0, 1));
    let f = fb.as_ref().unwrap();
    // the ninth column of b's cell is column 0 of the rows below
    assert_eq!(f.pixels[0], 0xFFFFFFFF);
    for y in 1..=9 {
        assert_eq!(f.pixels[y * 16], 0, "row {y}");
    }
    for y in 10..16 {
        assert_eq!(f.pixels[y * 16], 0xFFFFFFFF, "row {y}");
    }
    assert_eq!(f.pixels[9 * 16 + 1], 0x55);
}
