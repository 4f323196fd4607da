//! The linear framebuffer and the shapes drawn into it: pixels, rectangles,
//! lines, whole-screen clears and text in an 8x16 bitmap font.
use vstd::prelude::*;

verus! {

/// Drawing on a pixel surface.
pub trait GraphicsFramebuffer {
    type ColorType;

    /// Pixel (x, y) can be written: its word lies in the buffer and its
    /// address can be computed.
    spec fn addressable(&self, x: int, y: int) -> bool;

    /// Pixel (x, y) can be drawn by the shape routines: it is addressable and
    /// lies within a row, so that no two drawable pixels share a word.
    spec fn drawable(&self, x: int, y: int) -> bool;

    /// The visible width in pixels.
    spec fn fb_width(&self) -> int;

    /// The visible height in pixels.
    spec fn fb_height(&self) -> int;

    /// Writes one pixel.
    fn pixel(&mut self, x: usize, y: usize, color: Self::ColorType)
        requires
            old(self).addressable(x as int, y as int),
    ;

    /// Reads one pixel.
    fn read_pixel(&self, x: usize, y: usize) -> Self::ColorType
        requires
            self.addressable(x as int, y as int),
    ;

    /// Fills the rectangle from (x0, y0) to (x1, y1), both corners included,
    /// with `fill` inside a one-pixel `border`.
    fn rect(
        &mut self,
        x0: usize,
        y0: usize,
        x1: usize,
        y1: usize,
        border: Self::ColorType,
        fill: Self::ColorType,
    )
        requires
            forall|px: int, py: int|
                x0 <= px <= x1 && y0 <= py <= y1 ==> #[trigger] old(self).drawable(px, py) || (
                border == fill && old(self).addressable(px, py)),
            x0 <= x1 && y0 <= y1 ==> y1 < usize::MAX,
    ;

    /// Draws a line from (x0, y0) to (x1, y1).
    fn line(&mut self, x0: usize, y0: usize, x1: usize, y1: usize, color: Self::ColorType)
        requires
            x0 <= isize::MAX / 4,
            y0 <= isize::MAX / 4,
            x1 <= isize::MAX / 4,
            y1 <= isize::MAX / 4,
            forall|px: int, py: int|
                min(x0 as int, x1 as int) <= px <= max(x0 as int, x1 as int) && min(
                    y0 as int,
                    y1 as int,
                ) <= py <= max(y0 as int, y1 as int) ==> #[trigger] old(self).drawable(px, py),
    ;

    /// Paints the whole visible area.
    fn clear(&mut self, color: Self::ColorType)
        requires
            forall|x: int, y: int|
                0 <= x < old(self).fb_width() && 0 <= y < old(self).fb_height()
                    ==> #[trigger] old(self).drawable(x, y),
    ;

    /// Draws character `c` of the 8x16 bitmap `font` with its top left corner
    /// at (x, y), in the pixels that the glyph sets.
    fn character(&mut self, font: &[u8], x: usize, y: usize, c: u8, color: Self::ColorType)
        requires
            font@.len() >= 4096,
            x + 8 <= usize::MAX,
            y + 16 <= usize::MAX,
            forall|k: int, r: int|
                0 <= k < 8 && 0 <= r < 16 && glyph_bit(font@, c, r, k)
                    ==> #[trigger] old(self).addressable(x + k, y + r),
    ;

    /// Draws the characters of `s` from (x, y) on, moving one cell to the
    /// right per character, handling backspace, tab, carriage return and line
    /// feed, and starting a new line after `wrap` cells when it is given.
    fn string(
        &mut self,
        font: &[u8],
        x: usize,
        y: usize,
        s: &[u8],
        wrap: Option<usize>,
        color: Self::ColorType,
    )
        requires
            font@.len() >= 4096,
            string_fits(x as int, y as int, s@, wrap),
            forall|i: int, px: int, py: int|
                0 <= i < s@.len() && #[trigger] cell_box(x as int, y as int, s@, wrap, i, px, py)
                    ==> old(self).drawable(px, py),
    ;
}

/// The smaller of two integers.
pub open spec fn min(a: int, b: int) -> int {
    if a <= b {
        a
    } else {
        b
    }
}

/// The larger of two integers.
pub open spec fn max(a: int, b: int) -> int {
    if a >= b {
        a
    } else {
        b
    }
}

/// The absolute value of an integer.
pub open spec fn abs(a: int) -> int {
    if a < 0 {
        -a
    } else {
        a
    }
}

/// The pixels that Bresenham's walk visits from (x, y) towards (x1, y1), with
/// steps (sx, sy), distances dx and dy (dy not positive) and error term
/// `err`: each step plots the current pixel, stops at the end point, and
/// otherwise moves along x when twice the error is at least dy and along y
/// when it is at most dx, stopping instead when that coordinate has already
/// arrived. `fuel` bounds the number of steps.
pub open spec fn line_walk(
    x: int,
    y: int,
    x1: int,
    y1: int,
    dx: int,
    dy: int,
    sx: int,
    sy: int,
    err: int,
    fuel: nat,
) -> Seq<(int, int)>
    decreases fuel,
{
    if fuel == 0 {
        Seq::empty()
    } else if x == x1 && y == y1 {
        seq![(x, y)]
    } else if 2 * err >= dy && x == x1 {
        seq![(x, y)]
    } else {
        let x2 = if 2 * err >= dy {
            x + sx
        } else {
            x
        };
        let err2 = if 2 * err >= dy {
            err + dy
        } else {
            err
        };
        if 2 * err <= dx && y == y1 {
            seq![(x, y)]
        } else {
            let y2 = if 2 * err <= dx {
                y + sy
            } else {
                y
            };
            let err3 = if 2 * err <= dx {
                err2 + dx
            } else {
                err2
            };
            seq![(x, y)] + line_walk(x2, y2, x1, y1, dx, dy, sx, sy, err3, (fuel - 1) as nat)
        }
    }
}

/// The pixels that `line` draws from (x0, y0) to (x1, y1), in order.
pub open spec fn line_pixels(x0: int, y0: int, x1: int, y1: int) -> Seq<(int, int)> {
    let dx = abs(x1 - x0);
    let dy = -abs(y1 - y0);
    let sx = if x0 < x1 {
        1
    } else {
        -1
    };
    let sy = if y0 < y1 {
        1
    } else {
        -1
    };
    line_walk(x0, y0, x1, y1, dx, dy, sx, sy, dx + dy, (dx - dy + 1) as nat)
}

/// A coordinate on the way from `a` towards `b` in steps of `s`.
pub open spec fn on_the_way(v: int, a: int, b: int, s: int) -> bool {
    &&& min(a, b) <= v <= max(a, b)
    &&& s == 1 ==> v <= b
    &&& s == -1 ==> v >= b
    &&& s == 1 || s == -1
}

/// Whether bit `col` (counted from the left) of row `row` of the glyph for
/// `c` is set.
pub open spec fn glyph_bit(font: Seq<u8>, c: u8, row: int, col: int) -> bool {
    font[c * 16 + row] & (128u8 >> (col as u8)) != 0
}

/// The text cursor of `string` after the first `n` characters of `s`: the
/// cell within the line and the line.
pub open spec fn string_cursor(s: Seq<u8>, wrap: Option<usize>, n: nat) -> (int, int)
    decreases n,
{
    if n == 0 {
        (0, 0)
    } else {
        let (len, line) = string_cursor(s, wrap, (n - 1) as nat);
        let c = s[n - 1];
        let (len2, line2) = if c == 8 {
            (len - 1, line)
        } else if c == 9 {
            (len + 8, line)
        } else if c == 13 {
            (0, line)
        } else if c == 10 {
            (0, line + 1)
        } else {
            (len + 1, line)
        };
        match wrap {
            Some(w) => if len2 >= w {
                (0, line2 + 1)
            } else {
                (len2, line2)
            },
            None => (len2, line2),
        }
    }
}

/// A character that `string` draws rather than treats as a control
/// character.
pub open spec fn is_printable(c: u8) -> bool {
    c != 8 && c != 9 && c != 13 && c != 10
}

/// Pixel (px, py) lies in the 8x16 cell in which `string` draws character `i`
/// of `s`, when that character is drawn.
pub open spec fn cell_box(x: int, y: int, s: Seq<u8>, wrap: Option<usize>, i: int, px: int, py: int) -> bool {
    let (len, line) = string_cursor(s, wrap, i as nat);
    &&& is_printable(s[i])
    &&& x + len * 8 <= px < x + len * 8 + 8
    &&& y + line * 16 <= py < y + line * 16 + 16
}

/// Pixel (px, py) is set by the glyph of one of the first `n` characters that
/// `string` draws from `s`.
pub open spec fn string_covers(
    font: Seq<u8>,
    x: int,
    y: int,
    s: Seq<u8>,
    wrap: Option<usize>,
    n: int,
    px: int,
    py: int,
) -> bool {
    exists|i: int|
        0 <= i < n && #[trigger] cell_box(x, y, s, wrap, i, px, py) && glyph_bit(
            font,
            s[i],
            py - (y + string_cursor(s, wrap, i as nat).1 * 16),
            px - (x + string_cursor(s, wrap, i as nat).0 * 8),
        )
}

/// `string` can lay out `s`: no backspace goes left of the first cell, and
/// every cursor position keeps the drawing coordinates within machine words.
pub open spec fn string_fits(x: int, y: int, s: Seq<u8>, wrap: Option<usize>) -> bool {
    forall|n: nat|
        n <= s.len() ==> {
            let (len, line) = #[trigger] string_cursor(s, wrap, n);
            &&& 0 <= len
            &&& 0 <= line
            &&& x + len * 8 + 8 <= usize::MAX
            &&& y + line * 16 + 16 <= usize::MAX
            &&& len + 8 <= usize::MAX
            &&& line + 1 <= usize::MAX
        }
}

/// A linear framebuffer of 32-bit pixels: `pitch` bytes per row, of which
/// `width` pixels are visible, and `height` rows.
pub struct Framebuffer {
    pub pixels: Vec<u32>,
    pub pitch: usize,
    pub width: usize,
    pub height: usize,
}

impl Framebuffer {
    /// The number of pixels from one row to the next.
    pub open spec fn stride(&self) -> int {
        self.pitch as int / 4
    }

    /// The index in the buffer of pixel (x, y).
    pub open spec fn offset(&self, x: int, y: int) -> int {
        pixel_index(self.pitch as int, x, y)
    }

    /// The column of the pixel at buffer index `o`.
    pub open spec fn col_of(&self, o: int) -> int {
        o % self.stride()
    }

    /// The row of the pixel at buffer index `o`.
    pub open spec fn row_of(&self, o: int) -> int {
        o / self.stride()
    }

    /// Whether every pixel from (0, 0) to (x, y), both included, can be drawn
    /// by the shape routines.
    pub fn drawable_up_to(&self, x: usize, y: usize) -> (r: bool)
        ensures
            r <==> forall|px: int, py: int|
                0 <= px <= x && 0 <= py <= y ==> #[trigger] self.drawable(px, py),
    {
        if self.pitch % 4 != 0 || x >= self.pitch / 4 {
            assert(!self.drawable(x as int, y as int));
            return false;
        }
        match y.checked_mul(self.pitch) {
            None => {
                assert(!self.drawable(x as int, y as int));
                false
            },
            Some(yp) => {
                let off = yp / 4 + x;
                if off < self.pixels.len() {
                    assert forall|px: int, py: int| 0 <= px <= x && 0 <= py <= y implies #[trigger] self.drawable(
                        px,
                        py,
                    ) by {
                        vstd::arithmetic::mul::lemma_mul_inequality(py, y as int, self.pitch as int);
                        vstd::arithmetic::div_mod::lemma_div_is_ordered(
                            py * self.pitch,
                            y * self.pitch,
                            4,
                        );
                        assert(0 <= py * self.pitch) by (nonlinear_arith)
                            requires
                                0 <= py,
                        ;
                        assert(0 <= (py * self.pitch) / 4) by (nonlinear_arith)
                            requires
                                0 <= py * self.pitch,
                        ;
                    }
                    true
                } else {
                    assert(!self.drawable(x as int, y as int));
                    false
                }
            },
        }
    }

    /// The color of pixel (x, y).
    pub open spec fn color_at(&self, x: int, y: int) -> u32 {
        self.pixels@[self.offset(x, y)]
    }
}

/// The index of pixel (x, y) in a buffer of 32-bit pixels with `pitch` bytes
/// per row.
pub open spec fn pixel_index(pitch: int, x: int, y: int) -> int {
    (y * pitch) / 4 + x
}

/// The pixels after the box from (x0, y0) to (x1, y1), both corners
/// included, is filled with one color: every index that a pixel of the box
/// lands on takes the color.
pub open spec fn fill_effect(
    px: Seq<u32>,
    pitch: int,
    x0: int,
    y0: int,
    x1: int,
    y1: int,
    color: u32,
) -> Seq<u32> {
    Seq::new(
        px.len(),
        |o: int|
            if exists|qx: int, qy: int|
                x0 <= qx <= x1 && y0 <= qy <= y1 && #[trigger] pixel_index(pitch, qx, qy) == o {
                color
            } else {
                px[o]
            },
    )
}

/// The pixels after the glyph of `c` is drawn with its top left corner at
/// (x, y): every index that a set pixel of the glyph lands on takes the
/// color.
pub open spec fn glyph_effect(
    px: Seq<u32>,
    pitch: int,
    font: Seq<u8>,
    x: int,
    y: int,
    c: u8,
    color: u32,
) -> Seq<u32> {
    Seq::new(
        px.len(),
        |o: int|
            if exists|k: int, r: int|
                0 <= k < 8 && 0 <= r < 16 && glyph_bit(font, c, r, k) && #[trigger] pixel_index(
                    pitch,
                    x + k,
                    y + r,
                ) == o {
                color
            } else {
                px[o]
            },
    )
}

/// The color that `rect` gives pixel (px, py): `border` on the edges, `fill`
/// inside.
pub open spec fn rect_color(
    x0: int,
    y0: int,
    x1: int,
    y1: int,
    border: u32,
    fill: u32,
    px: int,
    py: int,
) -> u32 {
    if px == x0 || px == x1 || py == y0 || py == y1 {
        border
    } else {
        fill
    }
}

/// For pitch a multiple of 4 and x within a row, a pixel's index splits back
/// into its column and row.
proof fn lemma_offset_split(pitch: int, x: int, y: int)
    requires
        pitch % 4 == 0,
        0 <= x < pitch / 4,
        0 <= y,
    ensures
        (y * pitch) / 4 == y * (pitch / 4),
        (y * (pitch / 4) + x) % (pitch / 4) == x,
        (y * (pitch / 4) + x) / (pitch / 4) == y,
{
    let s = pitch / 4;
    assert(pitch == 4 * s);
    assert(y * pitch == 4 * (y * s)) by (nonlinear_arith)
        requires
            pitch == 4 * s,
    ;
    vstd::arithmetic::div_mod::lemma_fundamental_div_mod_converse(y * s + x, s, y, x);
}

/// The remainder by a positive stride is within the row.
proof fn lemma_mod_nonneg(stride: int)
    requires
        stride > 0,
    ensures
        forall|o: int| 0 <= o ==> 0 <= #[trigger] (o % stride) < stride && 0 <= o / stride,
{
    assert forall|o: int| 0 <= o implies 0 <= #[trigger] (o % stride) < stride && 0 <= o / stride by {
        vstd::arithmetic::div_mod::lemma_mod_bound(o, stride);
        vstd::arithmetic::div_mod::lemma_div_pos_is_pos(o, stride);
    }
}

/// An index whose column and row are (x, y) is the index of (x, y).
proof fn lemma_split_unique(o: int, stride: int, x: int, y: int)
    requires
        stride > 0,
        0 <= o,
        o % stride == x,
        o / stride == y,
    ensures
        o == y * stride + x,
{
    vstd::arithmetic::div_mod::lemma_fundamental_div_mod(o, stride);
    assert(o == y * stride + x) by (nonlinear_arith)
        requires
            o == stride * (o / stride) + o % stride,
            o / stride == y,
            o % stride == x,
    ;
}

impl GraphicsFramebuffer for Framebuffer {
    type ColorType = u32;

    open spec fn addressable(&self, x: int, y: int) -> bool {
        &&& 0 <= x
        &&& 0 <= y
        &&& y * self.pitch <= usize::MAX
        &&& self.offset(x, y) < self.pixels@.len()
        &&& self.offset(x, y) <= usize::MAX
    }

    open spec fn drawable(&self, x: int, y: int) -> bool {
        &&& self.addressable(x, y)
        &&& self.pitch % 4 == 0
        &&& x < self.stride()
    }

    open spec fn fb_width(&self) -> int {
        self.width as int
    }

    open spec fn fb_height(&self) -> int {
        self.height as int
    }

    fn pixel(&mut self, x: usize, y: usize, color: u32)
        ensures
            final(self).pixels@ == old(self).pixels@.update(old(self).offset(x as int, y as int), color),
            final(self).pitch == old(self).pitch,
            final(self).width == old(self).width,
            final(self).height == old(self).height,
    {
        let pixel_offset = y * self.pitch / 4 + x;
        self.pixels.set(pixel_offset, color);
    }

    fn read_pixel(&self, x: usize, y: usize) -> (color: u32)
        ensures
            color == self.color_at(x as int, y as int),
    {
        let pixel_offset = y * self.pitch / 4 + x;
        self.pixels[pixel_offset]
    }

    fn rect(&mut self, x0: usize, y0: usize, x1: usize, y1: usize, border: u32, fill: u32)
        ensures
            final(self).pitch == old(self).pitch,
            final(self).width == old(self).width,
            final(self).height == old(self).height,
            final(self).pixels@.len() == old(self).pixels@.len(),
            x0 <= x1 && y0 <= y1 && (forall|px: int, py: int|
                x0 <= px <= x1 && y0 <= py <= y1 ==> #[trigger] old(self).drawable(px, py))
                ==> forall|o: int|
                0 <= o < old(self).pixels@.len() ==> #[trigger] final(self).pixels@[o] == if x0
                    <= old(self).col_of(o) <= x1 && y0 <= old(self).row_of(o) <= y1 {
                    rect_color(
                        x0 as int,
                        y0 as int,
                        x1 as int,
                        y1 as int,
                        border,
                        fill,
                        old(self).col_of(o),
                        old(self).row_of(o),
                    )
                } else {
                    old(self).pixels@[o]
                },
            border == fill ==> final(self).pixels@ == fill_effect(
                old(self).pixels@,
                old(self).pitch as int,
                x0 as int,
                y0 as int,
                x1 as int,
                y1 as int,
                fill,
            ),
            !(x0 <= x1 && y0 <= y1) ==> final(self).pixels@ == old(self).pixels@,
    {
        if x0 > x1 || y0 > y1 {
            assert(self.pixels@ =~= fill_effect(
                self.pixels@,
                self.pitch as int,
                x0 as int,
                y0 as int,
                x1 as int,
                y1 as int,
                fill,
            ));
            return;
        }
        let ghost old_px = self.pixels@;
        let ghost stride = self.stride();
        let ghost pitch = self.pitch as int;
        let ghost dr = forall|qx: int, qy: int|
            x0 <= qx <= x1 && y0 <= qy <= y1 ==> #[trigger] old(self).drawable(qx, qy);
        let len = self.pixels.len();
        proof {
            assert(old(self).drawable(x1 as int, y1 as int) || old(self).addressable(
                x1 as int,
                y1 as int,
            ));
            assert(old(self).addressable(x1 as int, y1 as int));
            assert(0 <= (y1 * self.pitch) / 4) by (nonlinear_arith);
            if dr {
                assert(old(self).drawable(x1 as int, y1 as int));
            }
        }
        let mut py = y0;
        while py <= y1
            invariant
                y0 <= py <= y1 + 1,
                x0 <= x1,
                y0 <= y1,
                x1 < usize::MAX,
                y1 < usize::MAX,
                stride == self.stride(),
                pitch == self.pitch,
                self.pitch == old(self).pitch,
                self.width == old(self).width,
                self.height == old(self).height,
                old_px == old(self).pixels@,
                self.pixels@.len() == old_px.len(),
                forall|qx: int, qy: int|
                    x0 <= qx <= x1 && y0 <= qy <= y1 ==> #[trigger] old(self).drawable(qx, qy) || (
                    border == fill && old(self).addressable(qx, qy)),
                dr ==> x1 < stride,
                dr ==> forall|qx: int, qy: int|
                    x0 <= qx <= x1 && y0 <= qy <= y1 ==> #[trigger] old(self).drawable(qx, qy),
                dr ==> forall|o: int|
                    0 <= o < old_px.len() ==> #[trigger] self.pixels@[o] == if x0 <= o % stride
                        <= x1 && y0 <= o / stride < py {
                        rect_color(
                            x0 as int,
                            y0 as int,
                            x1 as int,
                            y1 as int,
                            border,
                            fill,
                            o % stride,
                            o / stride,
                        )
                    } else {
                        old_px[o]
                    },
                border == fill ==> forall|o: int|
                    0 <= o < old_px.len() ==> #[trigger] self.pixels@[o] == if exists|qx: int, qy: int|
                        x0 <= qx <= x1 && y0 <= qy < py && #[trigger] pixel_index(pitch, qx, qy)
                            == o {
                        fill
                    } else {
                        old_px[o]
                    },
            decreases y1 + 1 - py,
        {
            let mut px = x0;
            while px <= x1
                invariant
                    y0 <= py <= y1,
                    x0 <= px <= x1 + 1,
                    x0 <= x1,
                    x1 < usize::MAX,
                    stride == self.stride(),
                    pitch == self.pitch,
                    self.pitch == old(self).pitch,
                    self.width == old(self).width,
                    self.height == old(self).height,
                    old_px == old(self).pixels@,
                    self.pixels@.len() == old_px.len(),
                    forall|qx: int, qy: int|
                        x0 <= qx <= x1 && y0 <= qy <= y1 ==> #[trigger] old(self).drawable(qx, qy)
                            || (border == fill && old(self).addressable(qx, qy)),
                    dr ==> x1 < stride,
                    dr ==> forall|qx: int, qy: int|
                        x0 <= qx <= x1 && y0 <= qy <= y1 ==> #[trigger] old(self).drawable(qx, qy),
                    dr ==> forall|o: int|
                        0 <= o < old_px.len() ==> #[trigger] self.pixels@[o] == if x0 <= o % stride
                            <= x1 && (y0 <= o / stride < py || (o / stride == py && o % stride
                            < px)) {
                            rect_color(
                                x0 as int,
                                y0 as int,
                                x1 as int,
                                y1 as int,
                                border,
                                fill,
                                o % stride,
                                o / stride,
                            )
                        } else {
                            old_px[o]
                        },
                    border == fill ==> forall|o: int|
                        0 <= o < old_px.len() ==> #[trigger] self.pixels@[o] == if exists|
                            qx: int,
                            qy: int,
                        |
                            x0 <= qx <= x1 && (y0 <= qy < py || (qy == py && x0 <= qx < px))
                                && #[trigger] pixel_index(pitch, qx, qy) == o {
                            fill
                        } else {
                            old_px[o]
                        },
                decreases x1 + 1 - px,
            {
                proof {
                    assert(old(self).drawable(px as int, py as int) || old(self).addressable(
                        px as int,
                        py as int,
                    ));
                    if dr {
                        assert(old(self).drawable(px as int, py as int));
                        lemma_offset_split(self.pitch as int, px as int, py as int);
                    }
                }
                let ghost target = self.offset(px as int, py as int);
                let ghost before = self.pixels@;
                if px == x0 || px == x1 || py == y0 || py == y1 {
                    self.pixel(px, py, border)
                } else {
                    self.pixel(px, py, fill)
                }
                proof {
                    if dr {
                        assert forall|o: int| 0 <= o < old_px.len() implies #[trigger] self.pixels@[o]
                            == if x0 <= o % stride <= x1 && (y0 <= o / stride < py || (o / stride
                            == py && o % stride < px + 1)) {
                            rect_color(
                                x0 as int,
                                y0 as int,
                                x1 as int,
                                y1 as int,
                                border,
                                fill,
                                o % stride,
                                o / stride,
                            )
                        } else {
                            old_px[o]
                        } by {
                            if o != target {
                                if o / stride == py && o % stride == px {
                                    lemma_split_unique(o, stride, px as int, py as int);
                                }
                            }
                        }
                    }
                    if border == fill {
                        assert forall|o: int| 0 <= o < old_px.len() implies #[trigger] self.pixels@[o]
                            == if exists|qx: int, qy: int|
                            x0 <= qx <= x1 && (y0 <= qy < py || (qy == py && x0 <= qx < px + 1))
                                && #[trigger] pixel_index(pitch, qx, qy) == o {
                            fill
                        } else {
                            old_px[o]
                        } by {
                            if o == target {
                                assert(pixel_index(pitch, px as int, py as int) == o);
                            } else {
                                assert(self.pixels@[o] == before[o]);
                                if exists|qx: int, qy: int|
                                    x0 <= qx <= x1 && (y0 <= qy < py || (qy == py && x0 <= qx < px
                                        + 1)) && #[trigger] pixel_index(pitch, qx, qy) == o {
                                    let (qx, qy) = choose|qx: int, qy: int|
                                        x0 <= qx <= x1 && (y0 <= qy < py || (qy == py && x0 <= qx
                                            < px + 1)) && #[trigger] pixel_index(pitch, qx, qy)
                                            == o;
                                    assert(!(qx == px && qy == py));
                                    assert(pixel_index(pitch, qx, qy) == o);
                                }
                            }
                        }
                    }
                }
                px = px + 1;
            }
            proof {
                if border == fill {
                    assert forall|o: int| 0 <= o < old_px.len() implies #[trigger] self.pixels@[o]
                        == if exists|qx: int, qy: int|
                        x0 <= qx <= x1 && y0 <= qy < py + 1 && #[trigger] pixel_index(pitch, qx, qy)
                            == o {
                        fill
                    } else {
                        old_px[o]
                    } by {
                        if exists|qx: int, qy: int|
                            x0 <= qx <= x1 && y0 <= qy < py + 1 && #[trigger] pixel_index(pitch, qx, qy)
                                == o {
                            let (qx, qy) = choose|qx: int, qy: int|
                                x0 <= qx <= x1 && y0 <= qy < py + 1 && #[trigger] pixel_index(
                                    pitch,
                                    qx,
                                    qy,
                                ) == o;
                            assert(pixel_index(pitch, qx, qy) == o);
                        }
                    }
                }
            }
            py = py + 1;
        }
        proof {
            if border == fill {
                assert(self.pixels@ =~= fill_effect(old_px, pitch, x0 as int, y0 as int, x1 as int, y1 as int, fill));
            }
        }
    }

    fn line(&mut self, x0: usize, y0: usize, x1: usize, y1: usize, color: u32)
        ensures
            final(self).pitch == old(self).pitch,
            final(self).width == old(self).width,
            final(self).height == old(self).height,
            final(self).pixels@.len() == old(self).pixels@.len(),
            forall|o: int|
                0 <= o < old(self).pixels@.len() ==> #[trigger] final(self).pixels@[o] == if line_pixels(
                    x0 as int,
                    y0 as int,
                    x1 as int,
                    y1 as int,
                ).contains((old(self).col_of(o), old(self).row_of(o))) {
                    color
                } else {
                    old(self).pixels@[o]
                },
    {
        let ghost old_px = self.pixels@;
        let ghost stride = self.stride();
        let ghost full = line_pixels(x0 as int, y0 as int, x1 as int, y1 as int);
        let mut x0: isize = x0 as isize;
        let mut y0: isize = y0 as isize;
        let x1: isize = x1 as isize;
        let y1: isize = y1 as isize;
        let dx: isize = if x1 > x0 {
            x1 - x0
        } else {
            x0 - x1
        };
        let sx: isize = if x0 < x1 {
            1
        } else {
            -1
        };
        let dy: isize = if y1 > y0 {
            y0 - y1
        } else {
            y1 - y0
        };
        let sy: isize = if y0 < y1 {
            1
        } else {
            -1
        };
        let mut err = dx + dy;
        let ghost xs = x0 as int;
        let ghost ys = y0 as int;
        let ghost mut fuel: nat = (dx - dy + 1) as nat;
        let ghost mut drawn: Seq<(int, int)> = Seq::empty();
        assert(full == line_walk(
            x0 as int,
            y0 as int,
            x1 as int,
            y1 as int,
            dx as int,
            dy as int,
            sx as int,
            sy as int,
            err as int,
            fuel,
        ));
        loop
            invariant_except_break
                on_the_way(x0 as int, xs, x1 as int, sx as int),
                on_the_way(y0 as int, ys, y1 as int, sy as int),
                dx == abs(x1 - xs),
                dy == -abs(y1 - ys),
                0 <= xs <= isize::MAX / 4,
                0 <= ys <= isize::MAX / 4,
                0 <= x1 <= isize::MAX / 4,
                0 <= y1 <= isize::MAX / 4,
                2 * dy <= err <= 2 * dx,
                fuel >= abs(x1 - x0) + abs(y1 - y0) + 1,
                full == drawn + line_walk(
                    x0 as int,
                    y0 as int,
                    x1 as int,
                    y1 as int,
                    dx as int,
                    dy as int,
                    sx as int,
                    sy as int,
                    err as int,
                    fuel,
                ),
            invariant
                stride == self.stride(),
                self.pitch == old(self).pitch,
                self.width == old(self).width,
                self.height == old(self).height,
                old_px == old(self).pixels@,
                self.pixels@.len() == old_px.len(),
                forall|px: int, py: int|
                    min(xs, x1 as int) <= px <= max(xs, x1 as int) && min(ys, y1 as int) <= py
                        <= max(ys, y1 as int) ==> #[trigger] old(self).drawable(px, py),
                forall|o: int|
                    0 <= o < old_px.len() ==> #[trigger] self.pixels@[o] == if drawn.contains(
                        (o % stride, o / stride),
                    ) {
                        color
                    } else {
                        old_px[o]
                    },
            ensures
                drawn == full,
            decreases abs(x1 - x0) + abs(y1 - y0),
        {
            proof {
                assert(old(self).drawable(x0 as int, y0 as int));
                lemma_offset_split(self.pitch as int, x0 as int, y0 as int);
                lemma_mod_nonneg(stride);
            }
            let ghost target = self.offset(x0 as int, y0 as int);
            self.pixel(x0 as usize, y0 as usize, color);
            proof {
                let p = (x0 as int, y0 as int);
                assert forall|o: int| 0 <= o < old_px.len() implies #[trigger] self.pixels@[o]
                    == if drawn.push(p).contains((o % stride, o / stride)) {
                    color
                } else {
                    old_px[o]
                } by {
                    if o == target {
                        assert(drawn.push(p)[drawn.len() as int] == p);
                        assert((o % stride, o / stride) == p);
                    }
                    if o != target && o / stride == y0 && o % stride == x0 {
                        lemma_split_unique(o, stride, x0 as int, y0 as int);
                    }
                    if drawn.push(p).contains((o % stride, o / stride)) && !drawn.contains(
                        (o % stride, o / stride),
                    ) {
                        let k = choose|k: int|
                            0 <= k < drawn.push(p).len() && drawn.push(p)[k] == (
                                o % stride,
                                o / stride,
                            );
                        assert(k == drawn.len());
                        lemma_split_unique(o, stride, x0 as int, y0 as int);
                    }
                    if drawn.contains((o % stride, o / stride)) {
                        let k = choose|k: int|
                            0 <= k < drawn.len() && drawn[k] == (o % stride, o / stride);
                        assert(drawn.push(p)[k] == drawn[k]);
                    }
                }
                drawn = drawn.push(p);
            }
            if x0 == x1 && y0 == y1 {
                break;
            }
            let e2 = 2 * err;
            if e2 >= dy {
                if x0 == x1 {
                    break;
                }
                err += dy;
                x0 += sx;
            }
            if e2 <= dx {
                if y0 == y1 {
                    break;
                }
                err += dx;
                y0 += sy;
            }
            proof {
                fuel = (fuel - 1) as nat;
            }
        }
    }

    fn clear(&mut self, color: u32)
        ensures
            final(self).pitch == old(self).pitch,
            final(self).width == old(self).width,
            final(self).height == old(self).height,
            final(self).pixels@.len() == old(self).pixels@.len(),
            0 < old(self).width && 0 < old(self).height ==> forall|o: int|
                0 <= o < old(self).pixels@.len() ==> #[trigger] final(self).pixels@[o] == if old(
                    self,
                ).col_of(o) < old(self).width && old(self).row_of(o) < old(self).height {
                    color
                } else {
                    old(self).pixels@[o]
                },
            old(self).width == 0 || old(self).height == 0 ==> final(self).pixels@ == old(
                self,
            ).pixels@,
    {
        if self.width == 0 || self.height == 0 {
            return;
        }
        let ghost old_px = self.pixels@;
        let ghost stride = self.stride();
        let width = self.width;
        let height = self.height;
        proof {
            assert(old(self).drawable(width - 1, height - 1));
        }
        let mut y: usize = 0;
        while y < height
            invariant
                y <= height,
                0 < width <= stride,
                width == self.width,
                height == self.height,
                stride == self.stride(),
                self.pitch == old(self).pitch,
                self.width == old(self).width,
                self.height == old(self).height,
                old_px == old(self).pixels@,
                self.pixels@.len() == old_px.len(),
                forall|px: int, qy: int|
                    0 <= px < width && 0 <= qy < height ==> #[trigger] old(self).drawable(px, qy),
                forall|o: int|
                    0 <= o < old_px.len() ==> #[trigger] self.pixels@[o] == if o % stride < width
                        && o / stride < y {
                        color
                    } else {
                        old_px[o]
                    },
            decreases height - y,
        {
            let mut x: usize = 0;
            while x < width
                invariant
                    y < height,
                    x <= width,
                    0 < width <= stride,
                    width == self.width,
                    height == self.height,
                    stride == self.stride(),
                    self.pitch == old(self).pitch,
                    self.width == old(self).width,
                    self.height == old(self).height,
                    old_px == old(self).pixels@,
                    self.pixels@.len() == old_px.len(),
                    forall|px: int, qy: int|
                        0 <= px < width && 0 <= qy < height ==> #[trigger] old(self).drawable(px, qy),
                    forall|o: int|
                        0 <= o < old_px.len() ==> #[trigger] self.pixels@[o] == if o % stride < width
                            && (o / stride < y || (o / stride == y && o % stride < x)) {
                            color
                        } else {
                            old_px[o]
                        },
                decreases width - x,
            {
                proof {
                    assert(old(self).drawable(x as int, y as int));
                    lemma_offset_split(self.pitch as int, x as int, y as int);
                    lemma_mod_nonneg(stride);
                }
                let ghost target = self.offset(x as int, y as int);
                self.pixel(x, y, color);
                proof {
                    assert forall|o: int| 0 <= o < old_px.len() implies #[trigger] self.pixels@[o]
                        == if o % stride < width && (o / stride < y || (o / stride == y && o % stride
                        < x + 1)) {
                        color
                    } else {
                        old_px[o]
                    } by {
                        if o != target && o / stride == y && o % stride == x {
                            lemma_split_unique(o, stride, x as int, y as int);
                        }
                    }
                }
                x = x + 1;
            }
            y = y + 1;
        }
    }

    fn character(&mut self, font: &[u8], x: usize, y: usize, c: u8, color: u32)
        ensures
            final(self).pitch == old(self).pitch,
            final(self).width == old(self).width,
            final(self).height == old(self).height,
            final(self).pixels@ == glyph_effect(
                old(self).pixels@,
                old(self).pitch as int,
                font@,
                x as int,
                y as int,
                c,
                color,
            ),
            (forall|px: int, py: int|
                x <= px < x + 8 && y <= py < y + 16 ==> #[trigger] old(self).drawable(px, py))
                ==> forall|o: int|
                0 <= o < old(self).pixels@.len() ==> #[trigger] final(self).pixels@[o] == if x
                    <= old(self).col_of(o) < x + 8 && y <= old(self).row_of(o) < y + 16 && glyph_bit(
                    font@,
                    c,
                    old(self).row_of(o) - y,
                    old(self).col_of(o) - x,
                ) {
                    color
                } else {
                    old(self).pixels@[o]
                },
    {
        let ghost old_px = self.pixels@;
        let ghost stride = self.stride();
        let ghost pitch = self.pitch as int;
        let ghost dr = forall|qx: int, qy: int|
            x <= qx < x + 8 && y <= qy < y + 16 ==> #[trigger] old(self).drawable(qx, qy);
        proof {
            if dr {
                assert(old(self).drawable(x + 7, y + 15));
            }
        }
        let mut py = y;
        while py < y + 16
            invariant
                y <= py <= y + 16,
                y + 16 <= usize::MAX,
                x + 8 <= usize::MAX,
                font@.len() >= 4096,
                stride == self.stride(),
                pitch == self.pitch,
                self.pitch == old(self).pitch,
                self.width == old(self).width,
                self.height == old(self).height,
                old_px == old(self).pixels@,
                self.pixels@.len() == old_px.len(),
                forall|k: int, r: int|
                    0 <= k < 8 && 0 <= r < 16 && glyph_bit(font@, c, r, k)
                        ==> #[trigger] old(self).addressable(x + k, y + r),
                dr ==> x + 8 <= stride,
                dr ==> forall|qx: int, qy: int|
                    x <= qx < x + 8 && y <= qy < y + 16 ==> #[trigger] old(self).drawable(qx, qy),
                dr ==> forall|o: int|
                    0 <= o < old_px.len() ==> #[trigger] self.pixels@[o] == if x <= o % stride < x
                        + 8 && y <= o / stride < py && glyph_bit(
                        font@,
                        c,
                        o / stride - y,
                        o % stride - x,
                    ) {
                        color
                    } else {
                        old_px[o]
                    },
                forall|o: int|
                    0 <= o < old_px.len() ==> #[trigger] self.pixels@[o] == if exists|k: int, r: int|
                        0 <= k < 8 && 0 <= r < py - y && glyph_bit(font@, c, r, k)
                            && #[trigger] pixel_index(pitch, x + k, y + r) == o {
                        color
                    } else {
                        old_px[o]
                    },
            decreases y + 16 - py,
        {
            let mut px = x;
            while px < x + 8
                invariant
                    y <= py < y + 16,
                    x <= px <= x + 8,
                    y + 16 <= usize::MAX,
                    x + 8 <= usize::MAX,
                    font@.len() >= 4096,
                    stride == self.stride(),
                    pitch == self.pitch,
                    self.pitch == old(self).pitch,
                    self.width == old(self).width,
                    self.height == old(self).height,
                    old_px == old(self).pixels@,
                    self.pixels@.len() == old_px.len(),
                    forall|k: int, r: int|
                        0 <= k < 8 && 0 <= r < 16 && glyph_bit(font@, c, r, k)
                            ==> #[trigger] old(self).addressable(x + k, y + r),
                    dr ==> x + 8 <= stride,
                    dr ==> forall|qx: int, qy: int|
                        x <= qx < x + 8 && y <= qy < y + 16 ==> #[trigger] old(self).drawable(qx, qy),
                    dr ==> forall|o: int|
                        0 <= o < old_px.len() ==> #[trigger] self.pixels@[o] == if x <= o % stride
                            < x + 8 && (y <= o / stride < py || (o / stride == py && o % stride
                            < px)) && glyph_bit(font@, c, o / stride - y, o % stride - x) {
                            color
                        } else {
                            old_px[o]
                        },
                    forall|o: int|
                        0 <= o < old_px.len() ==> #[trigger] self.pixels@[o] == if exists|
                            k: int,
                            r: int,
                        |
                            0 <= k < 8 && 0 <= r < 16 && (r < py - y || (r == py - y && k < px - x))
                                && glyph_bit(font@, c, r, k) && #[trigger] pixel_index(
                                pitch,
                                x + k,
                                y + r,
                            ) == o {
                            color
                        } else {
                            old_px[o]
                        },
                decreases x + 8 - px,
            {
                proof {
                    if dr {
                        assert(old(self).drawable(px as int, py as int));
                        lemma_offset_split(self.pitch as int, px as int, py as int);
                        lemma_mod_nonneg(stride);
                    }
                }
                let ghost target = self.offset(px as int, py as int);
                let ghost before = self.pixels@;
                let row = font[(c as usize) * 16 + (py - y)];
                let bit: u8 = 128u8 >> ((px - x) as u8);
                proof {
                    assert(glyph_bit(font@, c, py - y, px - x) == (row & bit != 0));
                }
                if row & bit != 0 {
                    proof {
                        assert(old(self).addressable(x + (px - x), y + (py - y)));
                    }
                    self.pixel(px, py, color);
                }
                proof {
                    let k0 = px - x;
                    let r0 = py - y;
                    if dr {
                        assert forall|o: int| 0 <= o < old_px.len() implies #[trigger] self.pixels@[o]
                            == if x <= o % stride < x + 8 && (y <= o / stride < py || (o / stride
                            == py && o % stride < px + 1)) && glyph_bit(
                            font@,
                            c,
                            o / stride - y,
                            o % stride - x,
                        ) {
                            color
                        } else {
                            old_px[o]
                        } by {
                            if o != target && o / stride == py && o % stride == px {
                                lemma_split_unique(o, stride, px as int, py as int);
                            }
                        }
                    }
                    assert forall|o: int| 0 <= o < old_px.len() implies #[trigger] self.pixels@[o]
                        == if exists|k: int, r: int|
                        0 <= k < 8 && 0 <= r < 16 && (r < py - y || (r == py - y && k < px + 1
                            - x)) && glyph_bit(font@, c, r, k) && #[trigger] pixel_index(
                            pitch,
                            x + k,
                            y + r,
                        ) == o {
                        color
                    } else {
                        old_px[o]
                    } by {
                        if glyph_bit(font@, c, r0, k0) && o == target {
                            assert(pixel_index(pitch, x + k0, y + r0) == o);
                        } else {
                            assert(self.pixels@[o] == before[o]);
                            if exists|k: int, r: int|
                                0 <= k < 8 && 0 <= r < 16 && (r < py - y || (r == py - y && k < px
                                    + 1 - x)) && glyph_bit(font@, c, r, k) && #[trigger] pixel_index(
                                    pitch,
                                    x + k,
                                    y + r,
                                ) == o {
                                let (k, r) = choose|k: int, r: int|
                                    0 <= k < 8 && 0 <= r < 16 && (r < py - y || (r == py - y && k
                                        < px + 1 - x)) && glyph_bit(font@, c, r, k)
                                        && #[trigger] pixel_index(pitch, x + k, y + r) == o;
                                assert(!(k == k0 && r == r0));
                                assert(pixel_index(pitch, x + k, y + r) == o);
                            }
                        }
                    }
                }
                px = px + 1;
            }
            proof {
                assert forall|o: int| 0 <= o < old_px.len() implies #[trigger] self.pixels@[o]
                    == if exists|k: int, r: int|
                    0 <= k < 8 && 0 <= r < py + 1 - y && glyph_bit(font@, c, r, k)
                        && #[trigger] pixel_index(pitch, x + k, y + r) == o {
                    color
                } else {
                    old_px[o]
                } by {
                    if exists|k: int, r: int|
                        0 <= k < 8 && 0 <= r < py + 1 - y && glyph_bit(font@, c, r, k)
                            && #[trigger] pixel_index(pitch, x + k, y + r) == o {
                        let (k, r) = choose|k: int, r: int|
                            0 <= k < 8 && 0 <= r < py + 1 - y && glyph_bit(font@, c, r, k)
                                && #[trigger] pixel_index(pitch, x + k, y + r) == o;
                        assert(pixel_index(pitch, x + k, y + r) == o);
                    }
                }
            }
            py = py + 1;
        }
        assert(self.pixels@ =~= glyph_effect(old_px, pitch, font@, x as int, y as int, c, color));
    }

    fn string(
        &mut self,
        font: &[u8],
        x: usize,
        y: usize,
        s: &[u8],
        wrap: Option<usize>,
        color: u32,
    )
        ensures
            final(self).pitch == old(self).pitch,
            final(self).width == old(self).width,
            final(self).height == old(self).height,
            final(self).pixels@.len() == old(self).pixels@.len(),
            forall|o: int|
                0 <= o < old(self).pixels@.len() ==> #[trigger] final(self).pixels@[o] == if string_covers(
                    font@,
                    x as int,
                    y as int,
                    s@,
                    wrap,
                    s@.len() as int,
                    old(self).col_of(o),
                    old(self).row_of(o),
                ) {
                    color
                } else {
                    old(self).pixels@[o]
                },
    {
        let ghost old_px = self.pixels@;
        let ghost stride = self.stride();
        let mut line_length: usize = 0;
        let mut line: usize = 0;
        let mut i: usize = 0;
        while i < s.len()
            invariant
                i <= s@.len(),
                font@.len() >= 4096,
                string_fits(x as int, y as int, s@, wrap),
                (line_length as int, line as int) == string_cursor(s@, wrap, i as nat),
                stride == self.stride(),
                self.pitch == old(self).pitch,
                self.width == old(self).width,
                self.height == old(self).height,
                old_px == old(self).pixels@,
                self.pixels@.len() == old_px.len(),
                forall|k: int, px: int, py: int|
                    0 <= k < s@.len() && #[trigger] cell_box(x as int, y as int, s@, wrap, k, px, py)
                        ==> old(self).drawable(px, py),
                forall|o: int|
                    0 <= o < old_px.len() ==> #[trigger] self.pixels@[o] == if string_covers(
                        font@,
                        x as int,
                        y as int,
                        s@,
                        wrap,
                        i as int,
                        o % stride,
                        o / stride,
                    ) {
                        color
                    } else {
                        old_px[o]
                    },
            decreases s@.len() - i,
        {
            let c = s[i];
            proof {
                assert(string_cursor(s@, wrap, i as nat) == (line_length as int, line as int));
                let next = string_cursor(s@, wrap, (i + 1) as nat);
                assert(0 <= next.0);
            }
            let ghost before = self.pixels@;
            if c == 8 {
                line_length -= 1;
            } else if c == 9 {
                line_length += 8;
            } else if c == 13 {
                line_length = 0;
            } else if c == 10 {
                line_length = 0;
                line += 1;
            } else {
                let cx = x + line_length * 8;
                let cy = y + line * 16;
                proof {
                    assert forall|px: int, py: int|
                        cx <= px < cx + 8 && cy <= py < cy + 16 implies #[trigger] self.drawable(
                        px,
                        py,
                    ) by {
                        assert(cell_box(x as int, y as int, s@, wrap, i as int, px, py));
                    }
                    assert forall|k: int, r: int|
                        0 <= k < 8 && 0 <= r < 16 && glyph_bit(font@, c, r, k)
                            implies #[trigger] self.addressable(cx + k, cy + r) by {
                        assert(self.drawable(cx + k, cy + r));
                    }
                }
                self.character(font, cx, cy, c, color);
                line_length += 1;
                proof {
                    assert forall|o: int| 0 <= o < old_px.len() implies #[trigger] self.pixels@[o]
                        == if string_covers(
                        font@,
                        x as int,
                        y as int,
                        s@,
                        wrap,
                        i + 1,
                        o % stride,
                        o / stride,
                    ) {
                        color
                    } else {
                        old_px[o]
                    } by {
                        let px = o % stride;
                        let py = o / stride;
                        if string_covers(font@, x as int, y as int, s@, wrap, i as int, px, py) {
                            let k = choose|k: int|
                                0 <= k < i && #[trigger] cell_box(
                                    x as int,
                                    y as int,
                                    s@,
                                    wrap,
                                    k,
                                    px,
                                    py,
                                ) && glyph_bit(
                                    font@,
                                    s@[k],
                                    py - (y + string_cursor(s@, wrap, k as nat).1 * 16),
                                    px - (x + string_cursor(s@, wrap, k as nat).0 * 8),
                                );
                            assert(k < i + 1);
                        }
                        if cx <= px < cx + 8 && cy <= py < cy + 16 && glyph_bit(
                            font@,
                            c,
                            py - cy,
                            px - cx,
                        ) {
                            assert(cell_box(x as int, y as int, s@, wrap, i as int, px, py));
                        }
                        if string_covers(font@, x as int, y as int, s@, wrap, i + 1, px, py) {
                            let k = choose|k: int|
                                0 <= k < i + 1 && #[trigger] cell_box(
                                    x as int,
                                    y as int,
                                    s@,
                                    wrap,
                                    k,
                                    px,
                                    py,
                                ) && glyph_bit(
                                    font@,
                                    s@[k],
                                    py - (y + string_cursor(s@, wrap, k as nat).1 * 16),
                                    px - (x + string_cursor(s@, wrap, k as nat).0 * 8),
                                );
                            if k < i {
                                assert(string_covers(
                                    font@,
                                    x as int,
                                    y as int,
                                    s@,
                                    wrap,
                                    i as int,
                                    px,
                                    py,
                                ));
                            }
                        }
                    }
                }
            }
            if let Some(w) = wrap {
                if line_length >= w {
                    line_length = 0;
                    line += 1;
                }
            }
            proof {
                if !is_printable(c) {
                    assert forall|o: int| 0 <= o < old_px.len() implies #[trigger] self.pixels@[o]
                        == if string_covers(
                        font@,
                        x as int,
                        y as int,
                        s@,
                        wrap,
                        i + 1,
                        o % stride,
                        o / stride,
                    ) {
                        color
                    } else {
                        old_px[o]
                    } by {
                        let px = o % stride;
                        let py = o / stride;
                        if string_covers(font@, x as int, y as int, s@, wrap, i as int, px, py) {
                            let k = choose|k: int|
                                0 <= k < i && #[trigger] cell_box(
                                    x as int,
                                    y as int,
                                    s@,
                                    wrap,
                                    k,
                                    px,
                                    py,
                                ) && glyph_bit(
                                    font@,
                                    s@[k],
                                    py - (y + string_cursor(s@, wrap, k as nat).1 * 16),
                                    px - (x + string_cursor(s@, wrap, k as nat).0 * 8),
                                );
                            assert(k < i + 1);
                        }
                        if string_covers(font@, x as int, y as int, s@, wrap, i + 1, px, py) {
                            let k = choose|k: int|
                                0 <= k < i + 1 && #[trigger] cell_box(
                                    x as int,
                                    y as int,
                                    s@,
                                    wrap,
                                    k,
                                    px,
                                    py,
                                ) && glyph_bit(
                                    font@,
                                    s@[k],
                                    py - (y + string_cursor(s@, wrap, k as nat).1 * 16),
                                    px - (x + string_cursor(s@, wrap, k as nat).0 * 8),
                                );
                            assert(k != i);
                        }
                    }
                }
            }
            i = i + 1;
        }
    }
}


/// Bresenham's walk from a pixel `a` columns and `b` rows short of the end
/// point, with its error term in step, visits that pixel first and ends
/// exactly at the end point.
proof fn lemma_walk_reaches_end(
    x: int,
    y: int,
    x1: int,
    y1: int,
    dx: int,
    dy: int,
    sx: int,
    sy: int,
    err: int,
    fuel: nat,
    a: int,
    b: int,
)
    requires
        dx >= 0,
        dy <= 0,
        0 <= a <= dx,
        0 <= b <= -dy,
        sx == 1 || sx == -1,
        sy == 1 || sy == -1,
        x == x1 - sx * a,
        y == y1 - sy * b,
        err == dx + dy - dy * a - dx * b,
        fuel >= a + b + 1,
    ensures
        ({
            let w = line_walk(x, y, x1, y1, dx, dy, sx, sy, err, fuel);
            &&& w.len() > 0
            &&& w[0] == (x, y)
            &&& w.last() == (x1, y1)
            &&& forall|k: int|
                0 <= k < w.len() ==> min(x, x1) <= (#[trigger] w[k]).0 <= max(x, x1) && min(y, y1)
                    <= w[k].1 <= max(y, y1)
        }),
    decreases fuel,
{
    let w = line_walk(x, y, x1, y1, dx, dy, sx, sy, err, fuel);
    assert(x == x1 <==> a == 0) by (nonlinear_arith)
        requires
            x == x1 - sx * a,
            sx == 1 || sx == -1,
    ;
    assert(y == y1 <==> b == 0) by (nonlinear_arith)
        requires
            y == y1 - sy * b,
            sy == 1 || sy == -1,
    ;
    if x == x1 && y == y1 {
        return;
    }
    if 2 * err >= dy && x == x1 {
        assert(false) by (nonlinear_arith)
            requires
                a == 0,
                b >= 1,
                b <= -dy,
                dx >= 0,
                err == dx + dy - dy * a - dx * b,
                2 * err >= dy,
        ;
    }
    let stepx = 2 * err >= dy;
    let stepy = 2 * err <= dx;
    if stepy && y == y1 {
        assert(false) by (nonlinear_arith)
            requires
                b == 0,
                a >= 1,
                a <= dx,
                dy <= 0,
                err == dx + dy - dy * a - dx * b,
                2 * err <= dx,
        ;
    }
    let x2 = if stepx { x + sx } else { x };
    let a2 = if stepx { a - 1 } else { a };
    let err2 = if stepx { err + dy } else { err };
    let y2 = if stepy { y + sy } else { y };
    let b2 = if stepy { b - 1 } else { b };
    let err3 = if stepy { err2 + dx } else { err2 };
    assert(x2 == x1 - sx * a2) by (nonlinear_arith)
        requires
            x == x1 - sx * a,
            x2 == (if stepx { x + sx } else { x }),
            a2 == (if stepx { a - 1 } else { a }),
    ;
    assert(y2 == y1 - sy * b2) by (nonlinear_arith)
        requires
            y == y1 - sy * b,
            y2 == (if stepy { y + sy } else { y }),
            b2 == (if stepy { b - 1 } else { b }),
    ;
    assert(err3 == dx + dy - dy * a2 - dx * b2) by (nonlinear_arith)
        requires
            err == dx + dy - dy * a - dx * b,
            err2 == (if stepx { err + dy } else { err }),
            err3 == (if stepy { err2 + dx } else { err2 }),
            a2 == (if stepx { a - 1 } else { a }),
            b2 == (if stepy { b - 1 } else { b }),
    ;
    lemma_walk_reaches_end(x2, y2, x1, y1, dx, dy, sx, sy, err3, (fuel - 1) as nat, a2, b2);
    let rest = line_walk(x2, y2, x1, y1, dx, dy, sx, sy, err3, (fuel - 1) as nat);
    assert(w == seq![(x, y)] + rest);
    assert(min(x, x1) <= x2 <= max(x, x1) && min(y, y1) <= y2 <= max(y, y1)) by (nonlinear_arith)
        requires
            x == x1 - sx * a,
            x2 == x1 - sx * a2,
            y == y1 - sy * b,
            y2 == y1 - sy * b2,
            0 <= a2 <= a,
            0 <= b2 <= b,
            sx == 1 || sx == -1,
            sy == 1 || sy == -1,
    ;
    assert forall|k: int| 0 <= k < w.len() implies min(x, x1) <= (#[trigger] w[k]).0 <= max(x, x1)
        && min(y, y1) <= w[k].1 <= max(y, y1) by {
        if k > 0 {
            assert(w[k] == rest[k - 1]);
        }
    }
}

/// A line starts at its first end point and ends at its second: the first
/// pixel that `line` draws is (x0, y0) and the last is (x1, y1); and every
/// pixel it draws lies in the rectangle that the two end points span.
pub proof fn lemma_line_endpoints(x0: int, y0: int, x1: int, y1: int)
    ensures
        line_pixels(x0, y0, x1, y1).len() > 0,
        line_pixels(x0, y0, x1, y1)[0] == (x0, y0),
        line_pixels(x0, y0, x1, y1).last() == (x1, y1),
        line_pixels(x0, y0, x1, y1).contains((x0, y0)),
        line_pixels(x0, y0, x1, y1).contains((x1, y1)),
        forall|px: int, py: int|
            #[trigger] line_pixels(x0, y0, x1, y1).contains((px, py)) ==> min(x0, x1) <= px <= max(
                x0,
                x1,
            ) && min(y0, y1) <= py <= max(y0, y1),
{
    let dx = abs(x1 - x0);
    let dy = -abs(y1 - y0);
    let sx = if x0 < x1 { 1int } else { -1int };
    let sy = if y0 < y1 { 1int } else { -1int };
    assert(dx + dy == dx + dy - dy * dx - dx * (-dy)) by (nonlinear_arith);
    lemma_walk_reaches_end(x0, y0, x1, y1, dx, dy, sx, sy, dx + dy, (dx - dy + 1) as nat, dx, -dy);
    let w = line_pixels(x0, y0, x1, y1);
    assert(w[w.len() - 1] == (x1, y1));
    assert forall|px: int, py: int| #[trigger] w.contains((px, py)) implies min(x0, x1) <= px
        <= max(x0, x1) && min(y0, y1) <= py <= max(y0, y1) by {
        let k = choose|k: int| 0 <= k < w.len() && w[k] == (px, py);
        assert(w[k].0 == px && w[k].1 == py);
    }
}

/// Reading a pixel gives back what was last written to it: after `pixel`
/// writes `color` at (x, y), `read_pixel` at (x, y) gives `color`, and every
/// other pixel within a row reads as before.
pub proof fn lemma_pixel_then_read(
    px: Seq<u32>,
    pitch: int,
    x: int,
    y: int,
    color: u32,
    x2: int,
    y2: int,
)
    requires
        pitch % 4 == 0,
        0 <= x < pitch / 4,
        0 <= y,
        0 <= x2 < pitch / 4,
        0 <= y2,
        pixel_index(pitch, x, y) < px.len(),
        pixel_index(pitch, x2, y2) < px.len(),
    ensures
        px.update(pixel_index(pitch, x, y), color)[pixel_index(pitch, x, y)] == color,
        (x2, y2) != (x, y) ==> px.update(pixel_index(pitch, x, y), color)[pixel_index(
            pitch,
            x2,
            y2,
        )] == px[pixel_index(pitch, x2, y2)],
{
    lemma_offset_split(pitch, x, y);
    lemma_offset_split(pitch, x2, y2);
    assert(pixel_index(pitch, x, y) == y * (pitch / 4) + x);
    assert(pixel_index(pitch, x2, y2) == y2 * (pitch / 4) + x2);
    if pixel_index(pitch, x, y) == pixel_index(pitch, x2, y2) {
        assert(x == x2 && y == y2);
    }
}

/// What `character` draws, stated on the font bytes: font row `r` of glyph
/// `c` goes to screen row `y + r`, top row first, and within it bit `7 - k`
/// (the most significant bit leftmost) decides pixel `x + k`: that pixel takes
/// `color` exactly when the bit is set, and keeps its value otherwise.
pub proof fn lemma_character_pixels(
    px: Seq<u32>,
    pitch: int,
    font: Seq<u8>,
    x: int,
    y: int,
    c: u8,
    color: u32,
    k: int,
    r: int,
)
    requires
        pitch % 4 == 0,
        0 <= x,
        x + 8 <= pitch / 4,
        0 <= y,
        0 <= k < 8,
        0 <= r < 16,
        pixel_index(pitch, x + k, y + r) < px.len(),
        c * 16 + 16 <= font.len(),
    ensures
        glyph_effect(px, pitch, font, x, y, c, color)[pixel_index(pitch, x + k, y + r)] == if font[c
            * 16 + r] & (128u8 >> (k as u8)) != 0 {
            color
        } else {
            px[pixel_index(pitch, x + k, y + r)]
        },
{
    let o = pixel_index(pitch, x + k, y + r);
    lemma_offset_split(pitch, x + k, y + r);
    if font[c * 16 + r] & (128u8 >> (k as u8)) != 0 {
        assert(glyph_bit(font, c, r, k));
        assert(pixel_index(pitch, x + k, y + r) == o);
    } else {
        if exists|k2: int, r2: int|
            0 <= k2 < 8 && 0 <= r2 < 16 && glyph_bit(font, c, r2, k2) && #[trigger] pixel_index(
                pitch,
                x + k2,
                y + r2,
            ) == o {
            let (k2, r2) = choose|k2: int, r2: int|
                0 <= k2 < 8 && 0 <= r2 < 16 && glyph_bit(font, c, r2, k2) && #[trigger] pixel_index(
                    pitch,
                    x + k2,
                    y + r2,
                ) == o;
            lemma_offset_split(pitch, x + k2, y + r2);
            assert(pixel_index(pitch, x + k2, y + r2) == (y + r2) * (pitch / 4) + x + k2);
            assert(pixel_index(pitch, x + k, y + r) == (y + r) * (pitch / 4) + x + k);
            assert(x + k2 == x + k && y + r2 == y + r);
            assert(false);
        }
    }
}

/// How `string` moves its cursor when it wraps after `w` cells: after any
/// byte, a tab included, the cell within the line is below `w` (a move that
/// reaches `w` starts the next line at cell 0), and each byte moves the
/// cursor down by at most one line, never up.
pub proof fn lemma_string_wraps(s: Seq<u8>, w: usize, n: nat)
    requires
        w > 0,
        n < s.len(),
    ensures
        string_cursor(s, Some(w), n + 1).0 < w,
        string_cursor(s, Some(w), n).1 <= string_cursor(s, Some(w), n + 1).1 <= string_cursor(
            s,
            Some(w),
            n,
        ).1 + 1,
        string_cursor(s, Some(w), n + 1).1 == string_cursor(s, Some(w), n).1 + 1 <==> (s[n as int]
            == 10 || string_cursor(s, Some(w), n + 1) == (0int, string_cursor(s, Some(w), n).1 + 1)),
        s[n as int] == 9 && string_cursor(s, Some(w), n).0 + 8 >= w ==> string_cursor(
            s,
            Some(w),
            n + 1,
        ) == (0int, string_cursor(s, Some(w), n).1 + 1),
{
}

} // verus!
