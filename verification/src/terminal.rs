//! The text console on the framebuffer, which keeps a cursor in 8x8 cells,
//! and the writer that hands text to the serial line.
use vstd::prelude::*;
use vstd::string::StringSliceAdditionalSpecFns;

use crate::framebuffer::{
    Framebuffer, GraphicsFramebuffer, glyph_bit, is_printable, fill_effect, glyph_effect,
};

verus! {

/// The cursor after printing byte `c` at cell (col, row) of a console of
/// `cols` by `rows` cells: backspace moves left but not past the first cell,
/// tab moves eight cells, carriage return goes to the first cell, line feed
/// to the first cell of the next row, and any other byte is drawn and moves
/// one cell; moving past the last cell wraps to the next row, and moving past
/// the last row wraps to the first.
pub open spec fn cursor_step(col: int, row: int, c: u8, cols: int, rows: int) -> (int, int) {
    let next_row = if row + 1 >= rows {
        0
    } else {
        row + 1
    };
    if c == 8 {
        (if col > 0 {
            col - 1
        } else {
            0
        }, row)
    } else if c == 9 {
        if col + 8 >= cols {
            (0, next_row)
        } else {
            (col + 8, row)
        }
    } else if c == 13 {
        (0, row)
    } else if c == 10 {
        (0, next_row)
    } else {
        if col + 1 >= cols {
            (0, next_row)
        } else {
            (col + 1, row)
        }
    }
}

/// The cursor after the first `n` bytes of `s`, from (col, row).
pub open spec fn cursor_after(col: int, row: int, s: Seq<u8>, cols: int, rows: int, n: nat) -> (
    int,
    int,
)
    decreases n,
{
    if n == 0 {
        (col, row)
    } else {
        let (c, r) = cursor_after(col, row, s, cols, rows, (n - 1) as nat);
        cursor_step(c, r, s[n - 1], cols, rows)
    }
}

/// The console's pixels after printing the first `n` bytes of `s` from cell
/// (col, row) on a buffer with `pitch` bytes per row: every printable byte
/// clears its cell (eight pixels wide and high, edges included) to black and
/// draws its glyph in white; pixels are placed by their index in the buffer.
pub open spec fn console_pixels(
    px: Seq<u32>,
    pitch: int,
    font: Seq<u8>,
    col: int,
    row: int,
    s: Seq<u8>,
    cols: int,
    rows: int,
    n: nat,
) -> Seq<u32>
    decreases n,
{
    if n == 0 {
        px
    } else {
        let p = console_pixels(px, pitch, font, col, row, s, cols, rows, (n - 1) as nat);
        let (c, r) = cursor_after(col, row, s, cols, rows, (n - 1) as nat);
        if is_printable(s[n - 1]) {
            glyph_effect(
                fill_effect(p, pitch, c * 8, r * 8, c * 8 + 8, r * 8 + 8, 0),
                pitch,
                font,
                c * 8,
                r * 8,
                s[n - 1],
                0xFFFF_FFFF,
            )
        } else {
            p
        }
    }
}

/// The console can print `s` from cell (col, row) on `fb` with `font`: the
/// cursor stays small enough for its arithmetic, and for every printable
/// byte the pixels of its cleared cell and the set pixels of its glyph lie in
/// the buffer.
pub open spec fn console_fits(fb: &Framebuffer, font: Seq<u8>, col: int, row: int, s: Seq<u8>) -> bool {
    let cols = fb.width / 8;
    let rows = fb.height / 8;
    &&& forall|n: nat|
        n <= s.len() ==> {
            let (c, r) = #[trigger] cursor_after(col, row, s, cols as int, rows as int, n);
            &&& 0 <= c
            &&& 0 <= r
            &&& c * 8 + 16 <= usize::MAX
            &&& r * 8 + 16 <= usize::MAX
        }
    &&& forall|n: int, px: int, py: int|
        0 <= n < s.len() && is_printable(s[n]) && #[trigger] cell_of(
            cursor_after(col, row, s, cols as int, rows as int, n as nat),
            px,
            py,
        ) ==> fb.addressable(px, py)
    &&& forall|n: int, k: int, r: int|
        0 <= n < s.len() && is_printable(s[n]) && 0 <= k < 8 && 0 <= r < 16 && glyph_bit(
            font,
            s[n],
            r,
            k,
        ) ==> #[trigger] fb.addressable(
            cursor_after(col, row, s, cols as int, rows as int, n as nat).0 * 8 + k,
            cursor_after(col, row, s, cols as int, rows as int, n as nat).1 * 8 + r,
        )
}

/// Pixel (px, py) lies in the square that the console clears for the cell
/// at cursor `cursor`: nine pixels wide and high, edges included.
pub open spec fn cell_of(cursor: (int, int), px: int, py: int) -> bool {
    &&& cursor.0 * 8 <= px <= cursor.0 * 8 + 8
    &&& cursor.1 * 8 <= py <= cursor.1 * 8 + 8
}

/// The console's cursor, in 8x8 cells.
pub struct Writer {
    pub col: usize,
    pub row: usize,
}

impl Writer {
    /// A console with its cursor in the top left cell.
    pub fn new() -> (w: Writer)
        ensures
            w.col == 0,
            w.row == 0,
    {
        Writer { col: 0, row: 0 }
    }

    /// Prints the bytes of `s` on the console: when there is a framebuffer,
    /// each byte moves the cursor and printable bytes are drawn with `font`;
    /// without one, nothing happens.
    pub fn write_str(&mut self, framebuffer: &mut Option<Framebuffer>, font: &[u8], s: &str)
        requires
            font@.len() >= 4096,
            *old(framebuffer) is Some ==> console_fits(
                &(*old(framebuffer))->Some_0,
                font@,
                old(self).col as int,
                old(self).row as int,
                s.spec_bytes(),
            ),
        ensures
            *old(framebuffer) is None ==> *final(framebuffer) == *old(framebuffer) && final(self).col
                == old(self).col && final(self).row == old(self).row,
            *old(framebuffer) is Some ==> {
                let fb = (*old(framebuffer))->Some_0;
                let cols = fb.width as int / 8;
                let rows = fb.height as int / 8;
                &&& *final(framebuffer) is Some
                &&& (*final(framebuffer))->Some_0.pitch == fb.pitch
                &&& (*final(framebuffer))->Some_0.width == fb.width
                &&& (*final(framebuffer))->Some_0.height == fb.height
                &&& (*final(framebuffer))->Some_0.pixels@ == console_pixels(
                    fb.pixels@,
                    fb.pitch as int,
                    font@,
                    old(self).col as int,
                    old(self).row as int,
                    s.spec_bytes(),
                    cols,
                    rows,
                    s.spec_bytes().len(),
                )
                &&& (final(self).col as int, final(self).row as int) == cursor_after(
                    old(self).col as int,
                    old(self).row as int,
                    s.spec_bytes(),
                    cols,
                    rows,
                    s.spec_bytes().len(),
                )
            },
    {
        let bytes = s.as_bytes();
        match framebuffer {
            Some(fb) => {
                self.write_bytes(fb, font, bytes);
            },
            None => {},
        }
    }

    fn write_bytes(&mut self, fb: &mut Framebuffer, font: &[u8], bytes: &[u8])
        requires
            font@.len() >= 4096,
            console_fits(old(fb), font@, old(self).col as int, old(self).row as int, bytes@),
        ensures
            final(fb).pitch == old(fb).pitch,
            final(fb).width == old(fb).width,
            final(fb).height == old(fb).height,
            final(fb).pixels@ == console_pixels(
                old(fb).pixels@,
                old(fb).pitch as int,
                font@,
                old(self).col as int,
                old(self).row as int,
                bytes@,
                old(fb).width as int / 8,
                old(fb).height as int / 8,
                bytes@.len(),
            ),
            (final(self).col as int, final(self).row as int) == cursor_after(
                old(self).col as int,
                old(self).row as int,
                bytes@,
                old(fb).width as int / 8,
                old(fb).height as int / 8,
                bytes@.len(),
            ),
    {
        let ghost pitch = fb.pitch as int;
        let ghost col0 = self.col as int;
        let ghost row0 = self.row as int;
        let ghost px0 = fb.pixels@;
        let cols = fb.width / 8;
        let rows = fb.height / 8;
        let mut i: usize = 0;
        while i < bytes.len()
            invariant
                i <= bytes@.len(),
                font@.len() >= 4096,
                cols == fb.width / 8,
                rows == fb.height / 8,
                pitch == fb.pitch,
                fb.pitch == old(fb).pitch,
                fb.width == old(fb).width,
                fb.height == old(fb).height,
                px0 == old(fb).pixels@,
                col0 == old(self).col,
                row0 == old(self).row,
                fb.pixels@.len() == px0.len(),
                console_fits(old(fb), font@, col0, row0, bytes@),
                (self.col as int, self.row as int) == cursor_after(
                    col0,
                    row0,
                    bytes@,
                    cols as int,
                    rows as int,
                    i as nat,
                ),
                fb.pixels@ == console_pixels(
                    px0,
                    pitch,
                    font@,
                    col0,
                    row0,
                    bytes@,
                    cols as int,
                    rows as int,
                    i as nat,
                ),
            decreases bytes@.len() - i,
        {
            let c = bytes[i];
            proof {
                let cur = cursor_after(col0, row0, bytes@, cols as int, rows as int, i as nat);
                assert(cur == (self.col as int, self.row as int));
            }
            let ghost before = fb.pixels@;
            if c == 8 {
                self.col = self.col.saturating_sub(1);
            } else if c == 9 {
                self.col += 8;
                if self.col >= cols {
                    self.col = 0;
                    self.row += 1;
                    if self.row >= rows {
                        self.row = 0;
                    }
                }
            } else if c == 13 {
                self.col = 0;
            } else if c == 10 {
                self.col = 0;
                self.row += 1;
                if self.row >= rows {
                    self.row = 0;
                }
            } else {
                let x = self.col * 8;
                let y = self.row * 8;
                proof {
                    let n: int = i as int;
                    let cur = cursor_after(col0, row0, bytes@, cols as int, rows as int, n as nat);
                    assert(cur.0 == self.col && cur.1 == self.row);
                    assert(is_printable(bytes@[i as int]));
                    assert forall|px: int, py: int|
                        x <= px <= x + 8 && y <= py <= y + 8 implies #[trigger] fb.drawable(px, py)
                        || fb.addressable(px, py) by {
                        assert(cell_of(cur, px, py));
                    }
                }
                fb.rect(x, y, x + 8, y + 8, 0x00000000, 0x00000000);
                proof {
                    let n: int = i as int;
                    let cur = cursor_after(col0, row0, bytes@, cols as int, rows as int, n as nat);
                    assert forall|k: int, r: int|
                        0 <= k < 8 && 0 <= r < 16 && glyph_bit(font@, c, r, k)
                            implies #[trigger] fb.addressable(x + k, y + r) by {
                        assert(old(fb).addressable(cur.0 * 8 + k, cur.1 * 8 + r));
                    }
                }
                fb.character(font, x, y, c, 0xFFFFFFFF);
                self.col += 1;
                if self.col >= cols {
                    self.col = 0;
                    self.row += 1;
                    if self.row >= rows {
                        self.row = 0;
                    }
                }
            }
            i = i + 1;
        }
    }
}

/// Prints `s` on the console; see `Writer::write_str`.
pub fn _print(writer: &mut Writer, framebuffer: &mut Option<Framebuffer>, font: &[u8], s: &str)
    requires
        font@.len() >= 4096,
        *old(framebuffer) is Some ==> console_fits(
            &(*old(framebuffer))->Some_0,
            font@,
            old(writer).col as int,
            old(writer).row as int,
            s.spec_bytes(),
        ),
    ensures
        *old(framebuffer) is None ==> *final(framebuffer) == *old(framebuffer) && final(writer).col
            == old(writer).col && final(writer).row == old(writer).row,
        *old(framebuffer) is Some ==> {
            let fb = (*old(framebuffer))->Some_0;
            let cols = fb.width as int / 8;
            let rows = fb.height as int / 8;
            &&& *final(framebuffer) is Some
            &&& (*final(framebuffer))->Some_0.pitch == fb.pitch
            &&& (*final(framebuffer))->Some_0.width == fb.width
            &&& (*final(framebuffer))->Some_0.height == fb.height
            &&& (*final(framebuffer))->Some_0.pixels@ == console_pixels(
                fb.pixels@,
                fb.pitch as int,
                font@,
                old(writer).col as int,
                old(writer).row as int,
                s.spec_bytes(),
                cols,
                rows,
                s.spec_bytes().len(),
            )
            &&& (final(writer).col as int, final(writer).row as int) == cursor_after(
                old(writer).col as int,
                old(writer).row as int,
                s.spec_bytes(),
                cols,
                rows,
                s.spec_bytes().len(),
            )
        },
{
    writer.write_str(framebuffer, font, s);
}

/// The writer for the serial line: it collects, in order, the bytes to send.
pub struct SerialWriter {
    outgoing: Vec<u8>,
}

impl View for SerialWriter {
    type V = Seq<u8>;

    closed spec fn view(&self) -> Seq<u8> {
        self.outgoing@
    }
}

impl SerialWriter {
    /// A writer with nothing to send.
    pub fn new() -> (w: SerialWriter)
        ensures
            w@ == Seq::<u8>::empty(),
    {
        SerialWriter { outgoing: Vec::new() }
    }

    /// Sends the bytes of `s`, one after the other.
    pub fn write_str(&mut self, s: &str)
        ensures
            final(self)@ == old(self)@ + s.spec_bytes(),
    {
        let bytes = s.as_bytes();
        let mut i: usize = 0;
        while i < bytes.len()
            invariant
                i <= bytes@.len(),
                bytes@ == s.spec_bytes(),
                self@ == old(self)@ + bytes@.take(i as int),
            decreases bytes@.len() - i,
        {
            self.outgoing.push(bytes[i]);
            proof {
                assert(bytes@.take(i + 1) =~= bytes@.take(i as int).push(bytes@[i as int]));
            }
            i = i + 1;
        }
        assert(bytes@.take(bytes@.len() as int) =~= bytes@);
    }

    /// Hands over the bytes collected so far, leaving none.
    pub fn take_outgoing(&mut self) -> (out: Vec<u8>)
        ensures
            out@ == old(self)@,
            final(self)@ == Seq::<u8>::empty(),
    {
        let mut out = Vec::new();
        std::mem::swap(&mut out, &mut self.outgoing);
        out
    }
}

/// Sends `s` on the serial line; see `SerialWriter::write_str`.
pub fn _serial_print(writer: &mut SerialWriter, s: &str)
    ensures
        final(writer)@ == old(writer)@ + s.spec_bytes(),
{
    writer.write_str(s);
}


/// The cursor and pixels after the first `n` bytes of `a + b` for `n` up to
/// the length of `a` are those after the first `n` bytes of `a`.
proof fn lemma_console_prefix(
    px: Seq<u32>,
    pitch: int,
    font: Seq<u8>,
    col: int,
    row: int,
    a: Seq<u8>,
    b: Seq<u8>,
    cols: int,
    rows: int,
    n: nat,
)
    requires
        n <= a.len(),
    ensures
        cursor_after(col, row, a + b, cols, rows, n) == cursor_after(col, row, a, cols, rows, n),
        console_pixels(px, pitch, font, col, row, a + b, cols, rows, n) == console_pixels(
            px,
            pitch,
            font,
            col,
            row,
            a,
            cols,
            rows,
            n,
        ),
    decreases n,
{
    if n > 0 {
        lemma_console_prefix(px, pitch, font, col, row, a, b, cols, rows, (n - 1) as nat);
        assert((a + b)[n - 1] == a[n - 1]);
    }
}

/// Printing `a` and then `b` moves the cursor and draws exactly as printing
/// `a + b` at once.
pub proof fn lemma_console_concat(
    px: Seq<u32>,
    pitch: int,
    font: Seq<u8>,
    col: int,
    row: int,
    a: Seq<u8>,
    b: Seq<u8>,
    cols: int,
    rows: int,
    n: nat,
)
    requires
        n <= b.len(),
    ensures
        ({
            let mid = cursor_after(col, row, a, cols, rows, a.len());
            let mid_px = console_pixels(px, pitch, font, col, row, a, cols, rows, a.len());
            &&& cursor_after(col, row, a + b, cols, rows, a.len() + n) == cursor_after(
                mid.0,
                mid.1,
                b,
                cols,
                rows,
                n,
            )
            &&& console_pixels(px, pitch, font, col, row, a + b, cols, rows, a.len() + n)
                == console_pixels(mid_px, pitch, font, mid.0, mid.1, b, cols, rows, n)
        }),
    decreases n,
{
    if n == 0 {
        lemma_console_prefix(px, pitch, font, col, row, a, b, cols, rows, a.len());
    } else {
        lemma_console_concat(px, pitch, font, col, row, a, b, cols, rows, (n - 1) as nat);
        assert((a + b)[a.len() + n - 1] == b[n - 1]);
        assert((a.len() + n - 1) as nat == (a.len() + (n - 1) as nat));
    }
}

/// The cursor stays on the console: from a cell inside it, or from the first
/// cell, every byte leads to a cell inside it or to the first cell.
pub proof fn lemma_cursor_stays(col: int, row: int, c: u8, cols: int, rows: int)
    requires
        col == 0 || 0 <= col < cols,
        row == 0 || 0 <= row < rows,
    ensures
        ({
            let (c2, r2) = cursor_step(col, row, c, cols, rows);
            &&& c2 == 0 || 0 <= c2 < cols
            &&& r2 == 0 || 0 <= r2 < rows
        }),
{
}

/// Whatever bytes are printed, the cursor never leaves the text grid: from a
/// cell of a grid of at least one cell, every prefix of `s` leaves it on a
/// cell of the grid.
pub proof fn lemma_cursor_in_grid(col: int, row: int, s: Seq<u8>, cols: int, rows: int, n: nat)
    requires
        cols >= 1,
        rows >= 1,
        0 <= col < cols,
        0 <= row < rows,
        n <= s.len(),
    ensures
        ({
            let (c, r) = cursor_after(col, row, s, cols, rows, n);
            &&& 0 <= c < cols
            &&& 0 <= r < rows
        }),
    decreases n,
{
    if n > 0 {
        lemma_cursor_in_grid(col, row, s, cols, rows, (n - 1) as nat);
        let (c, r) = cursor_after(col, row, s, cols, rows, (n - 1) as nat);
        lemma_cursor_stays(c, r, s[n - 1], cols, rows);
    }
}

/// The console's cursor rule, byte by byte, on a grid of `cols` by `rows`
/// cells with the cursor inside it: backspace moves one cell left but not
/// past the first, carriage return goes to the first cell, line feed to the
/// first cell of the next row (the first row after the last), tab moves eight
/// cells and any other byte one cell, each wrapping to the first cell of the
/// next row when it would leave the row.
pub proof fn lemma_cursor_rule(col: int, row: int, b: u8, cols: int, rows: int)
    requires
        0 <= col < cols,
        0 <= row < rows,
    ensures
        cursor_after(col, row, seq![b], cols, rows, 1) == (if b == 8 {
            (if col == 0 {
                0
            } else {
                col - 1
            }, row)
        } else if b == 13 {
            (0, row)
        } else if b == 10 {
            (0, (row + 1) % rows)
        } else if b == 9 {
            if col + 8 < cols {
                (col + 8, row)
            } else {
                (0, (row + 1) % rows)
            }
        } else {
            if col + 1 < cols {
                (col + 1, row)
            } else {
                (0, (row + 1) % rows)
            }
        }),
{
    assert(cursor_after(col, row, seq![b], cols, rows, 0) == (col, row));
    if row + 1 < rows {
        assert((row + 1) % rows == row + 1) by (nonlinear_arith)
            requires
                0 <= row + 1 < rows,
        ;
    } else {
        assert((row + 1) % rows == 0) by (nonlinear_arith)
            requires
                row + 1 == rows,
                rows > 0,
        ;
    }
}

} // verus!
