//! Software frame buffer: background, shapes, the bitmap font, menu screens
//! and the HUD. The 3D wall and sprite passes write into the same buffer
//! through `put_pixel`.

use vstd::prelude::*;
use crate::texture::{rgb, pack_rgb, is_color};
use crate::config::{MINIMAP_CELL_SIZE, MINIMAP_PADDING};
use crate::map::{cell_idx, TILE_FLOOR, TILE_WALL, TILE_GATE, TILE_METAL, TILE_RUINS, TILE_KEY, TILE_SWITCH, TILE_EXIT};
use vstd::string::StrSliceExecFns;
use vstd::string::StringExecFns;

verus! {

broadcast use vstd::string::group_string_axioms;

/// Mathematical state of the frame buffer.
pub struct FrameModel {
    pub width: int,
    pub height: int,
    pub buffer: Seq<u32>,
    pub background: Seq<u32>,
}

impl FrameModel {
    /// Buffers match the dimensions, and the dimensions keep all pixel
    /// arithmetic within machine integers.
    pub open spec fn wf(self) -> bool {
        &&& 0 <= self.width <= i32::MAX
        &&& 0 <= self.height <= i32::MAX
        &&& self.height * 18 <= u32::MAX
        &&& self.width * self.height <= usize::MAX
        &&& self.buffer.len() == self.width * self.height
        &&& self.background.len() == self.width * self.height
    }

    pub open spec fn in_frame(self, x: int, y: int) -> bool {
        0 <= x < self.width && 0 <= y < self.height
    }

    /// Color of pixel `(x, y)`.
    pub open spec fn pixel(self, x: int, y: int) -> u32 {
        self.buffer[cell_idx(self.width, x, y)]
    }

    /// `self` is `before` with the pixels of `region` set to `color`.
    pub open spec fn painted(self, before: FrameModel, region: spec_fn(int, int) -> bool, color: u32) -> bool {
        &&& self.width == before.width
        &&& self.height == before.height
        &&& self.background == before.background
        &&& self.buffer.len() == before.buffer.len()
        &&& forall|x: int, y: int|
            self.in_frame(x, y) ==> #[trigger] self.pixel(x, y) == if region(x, y) {
                color
            } else {
                before.pixel(x, y)
            }
    }
}

/// Sky and floor shading of row `y` in a frame of the given height.
pub open spec fn background_color(height: int, y: int) -> u32 {
    let horizon = height / 2;
    if y < horizon {
        let shade = 10 + y * 16 / horizon;
        pack_rgb(shade, shade + 5, shade + 2) as u32
    } else {
        let d = (y - horizon) * 14 / horizon;
        let shade = if d < 26 {
            26 - d
        } else {
            0
        };
        pack_rgb(shade + 6, shade + 8, shade + 6) as u32
    }
}

/// Axis-aligned rectangle with top-left corner `(x, y)`.
pub open spec fn in_rect(x: int, y: int, w: int, h: int, px: int, py: int) -> bool {
    x <= px < x + w && y <= py < y + h
}

pub proof fn lemma_pixel_index(m: FrameModel, x: int, y: int)
    requires
        m.wf(),
        m.in_frame(x, y),
    ensures
        0 <= cell_idx(m.width, x, y) < m.buffer.len(),
{
    crate::map::lemma_cell_idx_bounds(m.width, m.height, x, y);
}

/// Frame buffer with a precomputed background.
pub struct Renderer {
    width: usize,
    height: usize,
    buffer: Vec<u32>,
    background: Vec<u32>,
}

impl View for Renderer {
    type V = FrameModel;

    closed spec fn view(&self) -> FrameModel {
        FrameModel {
            width: self.width as int,
            height: self.height as int,
            buffer: self.buffer@,
            background: self.background@,
        }
    }
}

/// Builds the sky and floor gradient.
fn build_background(width: usize, height: usize) -> (bg: Vec<u32>)
    requires
        height != 1,
        width * height <= usize::MAX,
        height * 18 <= u32::MAX,
    ensures
        bg@.len() == width * height,
        forall|x: int, y: int|
            0 <= x < width && 0 <= y < height ==> #[trigger] bg@[cell_idx(width as int, x, y)]
                == background_color(height as int, y),
{
    let mut background: Vec<u32> = vec![0; width * height];
    let horizon = height / 2;
    let mut y: usize = 0;
    while y < height
        invariant
            height != 1,
            width * height <= usize::MAX,
            height * 18 <= u32::MAX,
            horizon == height / 2,
            y <= height,
            background@.len() == width * height,
            forall|xx: int, yy: int|
                0 <= xx < width && 0 <= yy < y ==> #[trigger] background@[cell_idx(
                    width as int,
                    xx,
                    yy,
                )] == background_color(height as int, yy),
        decreases height - y,
    {
        let color = if y < horizon {
            assert((y as int) * 16 / (horizon as int) <= 16) by (nonlinear_arith)
                requires
                    y < horizon,
                    horizon > 0,
            ;
            let shade = 10 + (y as u32 * 16 / horizon as u32);
            rgb(shade, shade + 5, shade + 2)
        } else {
            assert(horizon > 0);
            assert((y - horizon) * 14 <= height * 14) by (nonlinear_arith)
                requires
                    y < height,
                    horizon <= y,
            ;
            let depth = (y - horizon) as u32;
            let shade = 26u32.saturating_sub(depth * 14 / horizon as u32);
            rgb(shade + 6, shade + 8, shade + 6)
        };
        assert(color == background_color(height as int, y as int));
        let mut x: usize = 0;
        while x < width
            invariant
                width * height <= usize::MAX,
                y < height,
                x <= width,
                background@.len() == width * height,
                forall|xx: int, yy: int|
                    0 <= xx < width && 0 <= yy < y ==> #[trigger] background@[cell_idx(
                        width as int,
                        xx,
                        yy,
                    )] == background_color(height as int, yy),
                forall|xx: int| 0 <= xx < x ==> #[trigger] background@[cell_idx(width as int, xx, y as int)] == color,
            decreases width - x,
        {
            proof {
                crate::map::lemma_cell_idx_bounds(width as int, height as int, x as int, y as int);
            }
            let ghost before = background@;
            background.set(y * width + x, color);
            proof {
                assert forall|xx: int, yy: int|
                    0 <= xx < width && 0 <= yy < y implies #[trigger] background@[cell_idx(
                    width as int,
                    xx,
                    yy,
                )] == background_color(height as int, yy) by {
                    crate::map::lemma_cell_idx_bounds(width as int, height as int, xx, yy);
                    if cell_idx(width as int, xx, yy) == y * width + x {
                        crate::map::lemma_cell_idx_injective(width as int, xx, yy, x as int, y as int);
                    }
                    assert(before[cell_idx(width as int, xx, yy)] == background@[cell_idx(width as int, xx, yy)]);
                }
                assert forall|xx: int| 0 <= xx < x + 1 implies #[trigger] background@[cell_idx(width as int, xx, y as int)] == color by {
                    crate::map::lemma_cell_idx_bounds(width as int, height as int, xx, y as int);
                    if xx < x {
                        if cell_idx(width as int, xx, y as int) == y * width + x {
                            crate::map::lemma_cell_idx_injective(width as int, xx, y as int, x as int, y as int);
                        }
                        assert(before[cell_idx(width as int, xx, y as int)] == background@[cell_idx(width as int, xx, y as int)]);
                    }
                }
            }
            x += 1;
        }
        y += 1;
    }
    background
}


impl Renderer {
    /// Creates a frame of the given size showing the background.
    pub fn new(width: usize, height: usize) -> (r: Self)
        requires
            height != 1,
            width <= i32::MAX,
            height * 18 <= u32::MAX,
            width * height <= usize::MAX,
        ensures
            r@.wf(),
            r@.width == width,
            r@.height == height,
            r@.buffer == r@.background,
            forall|x: int, y: int| r@.in_frame(x, y) ==> #[trigger] r@.background[cell_idx(width as int, x, y)] == background_color(height as int, y),
    {
        let background = build_background(width, height);
        let buffer = background.clone();
        assert(buffer@ == background@);
        Renderer { width, height, buffer, background }
    }

    /// The pixels, row by row, as `0xRRGGBB`.
    pub fn buffer(&self) -> (b: &[u32])
        ensures
            b@ == self@.buffer,
    {
        self.buffer.as_slice()
    }

    /// Frame width in pixels.
    pub fn width(&self) -> (w: usize)
        ensures
            w == self@.width,
    {
        self.width
    }

    /// Frame height in pixels.
    pub fn height(&self) -> (h: usize)
        ensures
            h == self@.height,
    {
        self.height
    }

    /// Replaces every pixel with the background.
    pub fn restore_background(&mut self)
        requires
            old(self)@.wf(),
        ensures
            final(self)@.wf(),
            final(self)@.buffer == old(self)@.background,
            final(self)@.background == old(self)@.background,
            final(self)@.width == old(self)@.width,
            final(self)@.height == old(self)@.height,
    {
        let copy = self.background.clone();
        assert(copy@ == self.background@);
        self.buffer = copy;
    }

    /// Sets one pixel; positions outside the frame are ignored.
    pub fn put_pixel(&mut self, x: usize, y: usize, color: u32)
        requires
            old(self)@.wf(),
        ensures
            final(self)@.wf(),
            final(self)@.painted(old(self)@, |px: int, py: int| px == x && py == y, color),
    {
        if x < self.width && y < self.height {
            proof {
                lemma_pixel_index(self@, x as int, y as int);
            }
            let ghost before = self@;
            self.buffer.set(y * self.width + x, color);
            proof {
                assert forall|px: int, py: int| self@.in_frame(px, py) implies #[trigger] self@.pixel(px, py) == if px == x && py == y {
                    color
                } else {
                    before.pixel(px, py)
                } by {
                    lemma_pixel_index(before, px, py);
                    if cell_idx(self@.width, px, py) == y * self.width + x {
                        crate::map::lemma_cell_idx_injective(self@.width, px, py, x as int, y as int);
                    }
                }
            }
        }
    }

    /// Fills a rectangle, clipped to the frame.
    pub fn fill_rect(&mut self, x: usize, y: usize, rect_width: usize, rect_height: usize, color: u32)
        requires
            old(self)@.wf(),
        ensures
            final(self)@.wf(),
            final(self)@.painted(old(self)@, |px: int, py: int| in_rect(x as int, y as int, rect_width as int, rect_height as int, px, py), color),
    {
        if x >= self.width || y >= self.height {
            return;
        }
        let end_x = if x.saturating_add(rect_width) < self.width {
            x + rect_width
        } else {
            self.width
        };
        let end_y = if y.saturating_add(rect_height) < self.height {
            y + rect_height
        } else {
            self.height
        };
        let ghost start = self@;
        let mut draw_y = y;
        while draw_y < end_y
            invariant
                self@.wf(),
                self@.width == start.width,
                self@.height == start.height,
                self@.background == start.background,
                y <= draw_y <= end_y <= self@.height,
                x <= end_x <= self@.width,
                end_x == (if x + rect_width < self@.width { x + rect_width } else { self@.width as int }),
                end_y == (if y + rect_height < self@.height { y + rect_height } else { self@.height as int }),
                forall|px: int, py: int| self@.in_frame(px, py) ==> #[trigger] self@.pixel(px, py) == if in_rect(x as int, y as int, rect_width as int, rect_height as int, px, py) && py < draw_y {
                    color
                } else {
                    start.pixel(px, py)
                },
            decreases end_y - draw_y,
        {
            let mut draw_x = x;
            while draw_x < end_x
                invariant
                    self@.wf(),
                    self@.width == start.width,
                    self@.height == start.height,
                    self@.background == start.background,
                    y <= draw_y < end_y <= self@.height,
                    x <= draw_x <= end_x <= self@.width,
                    end_x == (if x + rect_width < self@.width { x + rect_width } else { self@.width as int }),
                    end_y == (if y + rect_height < self@.height { y + rect_height } else { self@.height as int }),
                    forall|px: int, py: int| self@.in_frame(px, py) ==> #[trigger] self@.pixel(px, py) == if in_rect(x as int, y as int, rect_width as int, rect_height as int, px, py) && (py < draw_y || (py == draw_y && px < draw_x)) {
                        color
                    } else {
                        start.pixel(px, py)
                    },
                decreases end_x - draw_x,
            {
                let ghost before = self@;
                self.put_pixel(draw_x, draw_y, color);
                proof {
                    assert forall|px: int, py: int| self@.in_frame(px, py) implies #[trigger] self@.pixel(px, py) == if in_rect(x as int, y as int, rect_width as int, rect_height as int, px, py) && (py < draw_y || (py == draw_y && px < draw_x + 1)) {
                        color
                    } else {
                        start.pixel(px, py)
                    } by {
                        assert(before.in_frame(px, py));
                        assert(before.pixel(px, py) == if in_rect(x as int, y as int, rect_width as int, rect_height as int, px, py) && (py < draw_y || (py == draw_y && px < draw_x)) {
                            color
                        } else {
                            start.pixel(px, py)
                        });
                    }
                }
                draw_x += 1;
            }
            draw_y += 1;
        }
    }
}


/// Pixel `(px, py)` lies in the disc of radius `r` around `(cx, cy)`.
pub open spec fn in_disc(cx: int, cy: int, r: int, px: int, py: int) -> bool {
    let dx = px - cx;
    let dy = py - cy;
    -r <= dx <= r && -r <= dy <= r && dx * dx + dy * dy <= r * r
}

/// Rows of the 3x5 bitmap glyph of a character, top to bottom; each row
/// holds three bits, the leftmost column in the highest bit.
pub open spec fn glyph_rows(ch: char) -> Option<Seq<u8>> {
    match ch {
        '0' => Some(seq![0b111, 0b101, 0b101, 0b101, 0b111]),
        '1' => Some(seq![0b010, 0b110, 0b010, 0b010, 0b111]),
        '2' => Some(seq![0b111, 0b001, 0b111, 0b100, 0b111]),
        '3' => Some(seq![0b111, 0b001, 0b111, 0b001, 0b111]),
        '4' => Some(seq![0b101, 0b101, 0b111, 0b001, 0b001]),
        '5' => Some(seq![0b111, 0b100, 0b111, 0b001, 0b111]),
        '6' => Some(seq![0b111, 0b100, 0b111, 0b101, 0b111]),
        '7' => Some(seq![0b111, 0b001, 0b010, 0b010, 0b010]),
        '8' => Some(seq![0b111, 0b101, 0b111, 0b101, 0b111]),
        '9' => Some(seq![0b111, 0b101, 0b111, 0b001, 0b111]),
        'A' => Some(seq![0b010, 0b101, 0b111, 0b101, 0b101]),
        'B' => Some(seq![0b110, 0b101, 0b110, 0b101, 0b110]),
        'C' => Some(seq![0b111, 0b100, 0b100, 0b100, 0b111]),
        'D' => Some(seq![0b110, 0b101, 0b101, 0b101, 0b110]),
        'E' => Some(seq![0b111, 0b100, 0b110, 0b100, 0b111]),
        'F' => Some(seq![0b111, 0b100, 0b111, 0b100, 0b100]),
        'G' => Some(seq![0b111, 0b100, 0b101, 0b101, 0b111]),
        'H' => Some(seq![0b101, 0b101, 0b111, 0b101, 0b101]),
        'I' => Some(seq![0b111, 0b010, 0b010, 0b010, 0b111]),
        'J' => Some(seq![0b001, 0b001, 0b001, 0b101, 0b111]),
        'K' => Some(seq![0b101, 0b101, 0b110, 0b101, 0b101]),
        'L' => Some(seq![0b100, 0b100, 0b100, 0b100, 0b111]),
        'M' => Some(seq![0b101, 0b111, 0b111, 0b101, 0b101]),
        'N' => Some(seq![0b101, 0b111, 0b111, 0b111, 0b101]),
        'O' => Some(seq![0b111, 0b101, 0b101, 0b101, 0b111]),
        'P' => Some(seq![0b110, 0b101, 0b110, 0b100, 0b100]),
        'Q' => Some(seq![0b111, 0b101, 0b101, 0b111, 0b001]),
        'R' => Some(seq![0b110, 0b101, 0b110, 0b101, 0b101]),
        'S' => Some(seq![0b111, 0b100, 0b111, 0b001, 0b111]),
        'T' => Some(seq![0b111, 0b010, 0b010, 0b010, 0b010]),
        'U' => Some(seq![0b101, 0b101, 0b101, 0b101, 0b111]),
        'V' => Some(seq![0b101, 0b101, 0b101, 0b101, 0b010]),
        'W' => Some(seq![0b101, 0b101, 0b111, 0b111, 0b101]),
        'X' => Some(seq![0b101, 0b101, 0b010, 0b101, 0b101]),
        'Y' => Some(seq![0b101, 0b101, 0b010, 0b010, 0b010]),
        'Z' => Some(seq![0b111, 0b001, 0b010, 0b100, 0b111]),
        _ => None,
    }
}

/// The 3x5 font: the rows of each digit and capital letter, top row first,
/// the leftmost column the highest of the three bits; every other character
/// has no glyph and is left blank.
pub proof fn lemma_font_bitmaps()
    ensures
        glyph_rows('0') == Some(seq![0b111u8, 0b101u8, 0b101u8, 0b101u8, 0b111u8]),
        glyph_rows('1') == Some(seq![0b010u8, 0b110u8, 0b010u8, 0b010u8, 0b111u8]),
        glyph_rows('2') == Some(seq![0b111u8, 0b001u8, 0b111u8, 0b100u8, 0b111u8]),
        glyph_rows('3') == Some(seq![0b111u8, 0b001u8, 0b111u8, 0b001u8, 0b111u8]),
        glyph_rows('4') == Some(seq![0b101u8, 0b101u8, 0b111u8, 0b001u8, 0b001u8]),
        glyph_rows('5') == Some(seq![0b111u8, 0b100u8, 0b111u8, 0b001u8, 0b111u8]),
        glyph_rows('6') == Some(seq![0b111u8, 0b100u8, 0b111u8, 0b101u8, 0b111u8]),
        glyph_rows('7') == Some(seq![0b111u8, 0b001u8, 0b010u8, 0b010u8, 0b010u8]),
        glyph_rows('8') == Some(seq![0b111u8, 0b101u8, 0b111u8, 0b101u8, 0b111u8]),
        glyph_rows('9') == Some(seq![0b111u8, 0b101u8, 0b111u8, 0b001u8, 0b111u8]),
        glyph_rows('A') == Some(seq![0b010u8, 0b101u8, 0b111u8, 0b101u8, 0b101u8]),
        glyph_rows('B') == Some(seq![0b110u8, 0b101u8, 0b110u8, 0b101u8, 0b110u8]),
        glyph_rows('C') == Some(seq![0b111u8, 0b100u8, 0b100u8, 0b100u8, 0b111u8]),
        glyph_rows('D') == Some(seq![0b110u8, 0b101u8, 0b101u8, 0b101u8, 0b110u8]),
        glyph_rows('E') == Some(seq![0b111u8, 0b100u8, 0b110u8, 0b100u8, 0b111u8]),
        glyph_rows('F') == Some(seq![0b111u8, 0b100u8, 0b111u8, 0b100u8, 0b100u8]),
        glyph_rows('G') == Some(seq![0b111u8, 0b100u8, 0b101u8, 0b101u8, 0b111u8]),
        glyph_rows('H') == Some(seq![0b101u8, 0b101u8, 0b111u8, 0b101u8, 0b101u8]),
        glyph_rows('I') == Some(seq![0b111u8, 0b010u8, 0b010u8, 0b010u8, 0b111u8]),
        glyph_rows('J') == Some(seq![0b001u8, 0b001u8, 0b001u8, 0b101u8, 0b111u8]),
        glyph_rows('K') == Some(seq![0b101u8, 0b101u8, 0b110u8, 0b101u8, 0b101u8]),
        glyph_rows('L') == Some(seq![0b100u8, 0b100u8, 0b100u8, 0b100u8, 0b111u8]),
        glyph_rows('M') == Some(seq![0b101u8, 0b111u8, 0b111u8, 0b101u8, 0b101u8]),
        glyph_rows('N') == Some(seq![0b101u8, 0b111u8, 0b111u8, 0b111u8, 0b101u8]),
        glyph_rows('O') == Some(seq![0b111u8, 0b101u8, 0b101u8, 0b101u8, 0b111u8]),
        glyph_rows('P') == Some(seq![0b110u8, 0b101u8, 0b110u8, 0b100u8, 0b100u8]),
        glyph_rows('Q') == Some(seq![0b111u8, 0b101u8, 0b101u8, 0b111u8, 0b001u8]),
        glyph_rows('R') == Some(seq![0b110u8, 0b101u8, 0b110u8, 0b101u8, 0b101u8]),
        glyph_rows('S') == Some(seq![0b111u8, 0b100u8, 0b111u8, 0b001u8, 0b111u8]),
        glyph_rows('T') == Some(seq![0b111u8, 0b010u8, 0b010u8, 0b010u8, 0b010u8]),
        glyph_rows('U') == Some(seq![0b101u8, 0b101u8, 0b101u8, 0b101u8, 0b111u8]),
        glyph_rows('V') == Some(seq![0b101u8, 0b101u8, 0b101u8, 0b101u8, 0b010u8]),
        glyph_rows('W') == Some(seq![0b101u8, 0b101u8, 0b111u8, 0b111u8, 0b101u8]),
        glyph_rows('X') == Some(seq![0b101u8, 0b101u8, 0b010u8, 0b101u8, 0b101u8]),
        glyph_rows('Y') == Some(seq![0b101u8, 0b101u8, 0b010u8, 0b010u8, 0b010u8]),
        glyph_rows('Z') == Some(seq![0b111u8, 0b001u8, 0b010u8, 0b100u8, 0b111u8]),
        forall|c: char| !('0' <= c <= '9' || 'A' <= c <= 'Z') ==> glyph_rows(c) is None,
{
}

/// Column `col` (0 = left) of a glyph row is lit.
pub open spec fn row_bit(bits: u8, col: int) -> bool {
    if col == 0 {
        (bits as int / 4) % 2 == 1
    } else if col == 1 {
        (bits as int / 2) % 2 == 1
    } else {
        bits as int % 2 == 1
    }
}

/// Pixel `(px, py)` is lit when `ch` is drawn at `(x, y)` with square dots of side `scale`.
pub open spec fn in_glyph(ch: char, x: int, y: int, scale: int, px: int, py: int) -> bool {
    match glyph_rows(ch) {
        Some(rows) => exists|row: int, col: int|
            0 <= row < 5 && 0 <= col < 3 && #[trigger] row_bit(rows[row], col) && in_rect(
                x + col * scale,
                y + row * scale,
                scale,
                scale,
                px,
                py,
            ),
        None => false,
    }
}

/// Pixel `(px, py)` is lit when `text` is drawn at `(x, y)`: characters are
/// placed every `4 * scale` pixels.
pub open spec fn in_text(text: Seq<char>, x: int, y: int, scale: int, px: int, py: int) -> bool {
    exists|i: int| 0 <= i < text.len() && #[trigger] in_glyph(text[i], x + 4 * scale * i, y, scale, px, py)
}

/// Width in pixels of `len` characters at the given scale.
pub open spec fn text_width(len: int, scale: int) -> int {
    len * 4 * scale
}

/// Left edge that centres a text of the given pixel width in a frame.
pub open spec fn centered_x(frame_width: int, text_width: int) -> int {
    if frame_width > text_width {
        (frame_width - text_width) / 2
    } else {
        0
    }
}

/// Bitmap of a character, `None` for characters the font lacks.
fn glyph(ch: char) -> (g: Option<[u8; 5]>)
    ensures
        match g {
            Some(rows) => glyph_rows(ch) == Some(rows@),
            None => glyph_rows(ch) is None,
        },
{
    match ch {
        '0' => Some([0b111, 0b101, 0b101, 0b101, 0b111]),
        '1' => Some([0b010, 0b110, 0b010, 0b010, 0b111]),
        '2' => Some([0b111, 0b001, 0b111, 0b100, 0b111]),
        '3' => Some([0b111, 0b001, 0b111, 0b001, 0b111]),
        '4' => Some([0b101, 0b101, 0b111, 0b001, 0b001]),
        '5' => Some([0b111, 0b100, 0b111, 0b001, 0b111]),
        '6' => Some([0b111, 0b100, 0b111, 0b101, 0b111]),
        '7' => Some([0b111, 0b001, 0b010, 0b010, 0b010]),
        '8' => Some([0b111, 0b101, 0b111, 0b101, 0b111]),
        '9' => Some([0b111, 0b101, 0b111, 0b001, 0b111]),
        'A' => Some([0b010, 0b101, 0b111, 0b101, 0b101]),
        'B' => Some([0b110, 0b101, 0b110, 0b101, 0b110]),
        'C' => Some([0b111, 0b100, 0b100, 0b100, 0b111]),
        'D' => Some([0b110, 0b101, 0b101, 0b101, 0b110]),
        'E' => Some([0b111, 0b100, 0b110, 0b100, 0b111]),
        'F' => Some([0b111, 0b100, 0b111, 0b100, 0b100]),
        'G' => Some([0b111, 0b100, 0b101, 0b101, 0b111]),
        'H' => Some([0b101, 0b101, 0b111, 0b101, 0b101]),
        'I' => Some([0b111, 0b010, 0b010, 0b010, 0b111]),
        'J' => Some([0b001, 0b001, 0b001, 0b101, 0b111]),
        'K' => Some([0b101, 0b101, 0b110, 0b101, 0b101]),
        'L' => Some([0b100, 0b100, 0b100, 0b100, 0b111]),
        'M' => Some([0b101, 0b111, 0b111, 0b101, 0b101]),
        'N' => Some([0b101, 0b111, 0b111, 0b111, 0b101]),
        'O' => Some([0b111, 0b101, 0b101, 0b101, 0b111]),
        'P' => Some([0b110, 0b101, 0b110, 0b100, 0b100]),
        'Q' => Some([0b111, 0b101, 0b101, 0b111, 0b001]),
        'R' => Some([0b110, 0b101, 0b110, 0b101, 0b101]),
        'S' => Some([0b111, 0b100, 0b111, 0b001, 0b111]),
        'T' => Some([0b111, 0b010, 0b010, 0b010, 0b010]),
        'U' => Some([0b101, 0b101, 0b101, 0b101, 0b111]),
        'V' => Some([0b101, 0b101, 0b101, 0b101, 0b010]),
        'W' => Some([0b101, 0b101, 0b111, 0b111, 0b101]),
        'X' => Some([0b101, 0b101, 0b010, 0b101, 0b101]),
        'Y' => Some([0b101, 0b101, 0b010, 0b010, 0b010]),
        'Z' => Some([0b111, 0b001, 0b010, 0b100, 0b111]),
        _ => None,
    }
}

/// Pixel width of a text drawn with the bitmap font.
pub fn text_pixel_width(text: &str, scale: usize) -> (w: usize)
    requires
        text@.len() * 4 <= usize::MAX,
        text_width(text@.len() as int, scale as int) <= usize::MAX,
    ensures
        w == text_width(text@.len() as int, scale as int),
{
    let n = text.unicode_len();
    let per_char = n * 4;
    per_char * scale
}

impl Renderer {
    /// Fills a disc, clipped to the frame.
    pub fn fill_circle(&mut self, center_x: i32, center_y: i32, radius: i32, color: u32)
        requires
            old(self)@.wf(),
            2 * radius * radius <= i32::MAX,
            i32::MIN <= center_x - radius,
            center_x + radius <= i32::MAX,
            i32::MIN <= center_y - radius,
            center_y + radius <= i32::MAX,
        ensures
            final(self)@.wf(),
            final(self)@.painted(old(self)@, |px: int, py: int| in_disc(center_x as int, center_y as int, radius as int, px, py), color),
    {
        assert(-46341 < radius < 46341) by (nonlinear_arith)
            requires
                2 * radius * radius <= i32::MAX,
        ;
        if radius < 0 {
            return;
        }
        assert(radius * radius <= i32::MAX) by (nonlinear_arith)
            requires
                2 * radius * radius <= i32::MAX,
        ;
        let radius_sq = radius * radius;
        let ghost start = self@;
        let mut y = -radius;
        while y <= radius
            invariant
                self@.wf(),
                self@.width == start.width,
                self@.height == start.height,
                self@.background == start.background,
                radius_sq == radius * radius,
                2 * radius * radius <= i32::MAX,
                -46341 < radius < 46341,
                i32::MIN <= center_x - radius,
                center_x + radius <= i32::MAX,
                i32::MIN <= center_y - radius,
                center_y + radius <= i32::MAX,
                -radius <= y <= radius + 1,
                radius >= 0,
                forall|px: int, py: int| self@.in_frame(px, py) ==> #[trigger] self@.pixel(px, py) == if in_disc(center_x as int, center_y as int, radius as int, px, py) && py - center_y < y {
                    color
                } else {
                    start.pixel(px, py)
                },
            decreases radius + 1 - y,
        {
            let mut x = -radius;
            while x <= radius
                invariant
                    self@.wf(),
                    self@.width == start.width,
                    self@.height == start.height,
                    self@.background == start.background,
                    radius_sq == radius * radius,
                    2 * radius * radius <= i32::MAX,
                    -46341 < radius < 46341,
                    i32::MIN <= center_x - radius,
                    center_x + radius <= i32::MAX,
                    i32::MIN <= center_y - radius,
                    center_y + radius <= i32::MAX,
                    -radius <= y <= radius,
                    -radius <= x <= radius + 1,
                    radius >= 0,
                    forall|px: int, py: int| self@.in_frame(px, py) ==> #[trigger] self@.pixel(px, py) == if in_disc(center_x as int, center_y as int, radius as int, px, py) && (py - center_y < y || (py - center_y == y && px - center_x < x)) {
                        color
                    } else {
                        start.pixel(px, py)
                    },
                decreases radius + 1 - x,
            {
                assert(x * x + y * y <= 2 * radius * radius) by (nonlinear_arith)
                    requires
                        -radius <= x <= radius,
                        -radius <= y <= radius,
                ;
                assert(0 <= x * x && 0 <= y * y) by (nonlinear_arith);
                let ghost before = self@;
                if x * x + y * y <= radius_sq {
                    let px = center_x + x;
                    let py = center_y + y;
                    if px >= 0 && py >= 0 {
                        self.put_pixel(px as usize, py as usize, color);
                    }
                }
                proof {
                    assert forall|px: int, py: int| self@.in_frame(px, py) implies #[trigger] self@.pixel(px, py) == if in_disc(center_x as int, center_y as int, radius as int, px, py) && (py - center_y < y || (py - center_y == y && px - center_x < x + 1)) {
                        color
                    } else {
                        start.pixel(px, py)
                    } by {
                        assert(before.in_frame(px, py));
                        assert(before.pixel(px, py) == if in_disc(center_x as int, center_y as int, radius as int, px, py) && (py - center_y < y || (py - center_y == y && px - center_x < x)) {
                            color
                        } else {
                            start.pixel(px, py)
                        });
                    }
                }
                x += 1;
            }
            y += 1;
        }
    }
}


/// Dot `(row, col)` of a glyph is lit and covers pixel `(px, py)`.
pub open spec fn glyph_cell(rows: Seq<u8>, x: int, y: int, scale: int, row: int, col: int, px: int, py: int) -> bool {
    &&& 0 <= row < 5
    &&& 0 <= col < 3
    &&& row_bit(rows[row], col)
    &&& in_rect(x + col * scale, y + row * scale, scale, scale, px, py)
}

/// Pixel `(px, py)` is covered by one of the first `limit` dots, in reading order.
pub open spec fn glyph_part(rows: Seq<u8>, x: int, y: int, scale: int, limit: int, px: int, py: int) -> bool {
    exists|row: int, col: int| row * 3 + col < limit && #[trigger] glyph_cell(rows, x, y, scale, row, col, px, py)
}

/// Pixel `(px, py)` is covered by one of the first `n` characters of `text`.
pub open spec fn text_part(text: Seq<char>, x: int, y: int, scale: int, n: int, px: int, py: int) -> bool {
    exists|i: int| 0 <= i < n && #[trigger] in_glyph(text[i], x + 4 * scale * i, y, scale, px, py)
}

impl Renderer {
    /// Draws one character of the bitmap font; characters without a glyph draw nothing.
    pub fn draw_char(&mut self, x: usize, y: usize, ch: char, color: u32, scale: usize)
        requires
            old(self)@.wf(),
            x + 2 * scale <= usize::MAX,
            y + 4 * scale <= usize::MAX,
        ensures
            final(self)@.wf(),
            final(self)@.painted(old(self)@, |px: int, py: int| in_glyph(ch, x as int, y as int, scale as int, px, py), color),
    {
        let pattern = match glyph(ch) {
            Some(p) => p,
            None => {
                return;
            },
        };
        let ghost rows = pattern@;
        let ghost start = self@;
        let mut row: usize = 0;
        while row < 5
            invariant
                self@.wf(),
                self@.width == start.width,
                self@.height == start.height,
                self@.background == start.background,
                rows == pattern@,
                glyph_rows(ch) == Some(rows),
                x + 2 * scale <= usize::MAX,
                y + 4 * scale <= usize::MAX,
                row <= 5,
                forall|px: int, py: int| self@.in_frame(px, py) ==> #[trigger] self@.pixel(px, py) == if glyph_part(rows, x as int, y as int, scale as int, row * 3, px, py) {
                    color
                } else {
                    start.pixel(px, py)
                },
            decreases 5 - row,
        {
            let bits = pattern[row];
            let mut col: usize = 0;
            while col < 3
                invariant
                    self@.wf(),
                    self@.width == start.width,
                    self@.height == start.height,
                    self@.background == start.background,
                    rows == pattern@,
                    bits == rows[row as int],
                    x + 2 * scale <= usize::MAX,
                    y + 4 * scale <= usize::MAX,
                    row < 5,
                    col <= 3,
                    forall|px: int, py: int| self@.in_frame(px, py) ==> #[trigger] self@.pixel(px, py) == if glyph_part(rows, x as int, y as int, scale as int, row * 3 + col, px, py) {
                        color
                    } else {
                        start.pixel(px, py)
                    },
                decreases 3 - col,
            {
                let mask: u8 = if col == 0 {
                    4
                } else if col == 1 {
                    2
                } else {
                    1
                };
                assert((bits & mask != 0) == row_bit(bits, col as int)) by {
                    if col == 0 {
                        assert((bits & 4u8 != 0) == ((bits / 4) % 2 == 1)) by (bit_vector);
                    } else if col == 1 {
                        assert((bits & 2u8 != 0) == ((bits / 2) % 2 == 1)) by (bit_vector);
                    } else {
                        assert((bits & 1u8 != 0) == (bits % 2 == 1)) by (bit_vector);
                    }
                }
                let ghost before = self@;
                assert(col * scale <= 2 * scale && row * scale <= 4 * scale) by (nonlinear_arith)
                    requires
                        col < 3,
                        row < 5,
                ;
                if bits & mask != 0 {
                    self.fill_rect(x + col * scale, y + row * scale, scale, scale, color);
                }
                proof {
                    let k = row * 3 + col;
                    assert forall|px: int, py: int| self@.in_frame(px, py) implies #[trigger] self@.pixel(px, py) == if glyph_part(rows, x as int, y as int, scale as int, k + 1, px, py) {
                        color
                    } else {
                        start.pixel(px, py)
                    } by {
                        assert(before.in_frame(px, py));
                        let new_cell = glyph_cell(rows, x as int, y as int, scale as int, row as int, col as int, px, py);
                        if glyph_part(rows, x as int, y as int, scale as int, k + 1, px, py) {
                            let (r0, c0) = choose|r0: int, c0: int| r0 * 3 + c0 < k + 1 && #[trigger] glyph_cell(rows, x as int, y as int, scale as int, r0, c0, px, py);
                            if r0 * 3 + c0 < k {
                                assert(glyph_part(rows, x as int, y as int, scale as int, k, px, py));
                            } else {
                                assert(r0 == row && c0 == col);
                            }
                        } else {
                            if new_cell {
                                assert(glyph_part(rows, x as int, y as int, scale as int, k + 1, px, py));
                            }
                            if glyph_part(rows, x as int, y as int, scale as int, k, px, py) {
                                let (r0, c0) = choose|r0: int, c0: int| r0 * 3 + c0 < k && #[trigger] glyph_cell(rows, x as int, y as int, scale as int, r0, c0, px, py);
                                assert(glyph_part(rows, x as int, y as int, scale as int, k + 1, px, py));
                            }
                        }
                    }
                }
                col += 1;
            }
            row += 1;
        }
        proof {
            assert forall|px: int, py: int| self@.in_frame(px, py) implies #[trigger] self@.pixel(px, py) == if in_glyph(ch, x as int, y as int, scale as int, px, py) {
                color
            } else {
                start.pixel(px, py)
            } by {
                assert(glyph_rows(ch) == Some(rows));
                assert(self@.pixel(px, py) == if glyph_part(rows, x as int, y as int, scale as int, 15, px, py) {
                    color
                } else {
                    start.pixel(px, py)
                });
                if in_glyph(ch, x as int, y as int, scale as int, px, py) {
                    let (r0, c0) = choose|r0: int, c0: int| 0 <= r0 < 5 && 0 <= c0 < 3 && #[trigger] row_bit(rows[r0], c0) && in_rect(x + c0 * scale, y + r0 * scale, scale as int, scale as int, px, py);
                    assert(glyph_cell(rows, x as int, y as int, scale as int, r0, c0, px, py));
                }
                if glyph_part(rows, x as int, y as int, scale as int, 15, px, py) {
                    let (r0, c0) = choose|r0: int, c0: int| r0 * 3 + c0 < 15 && #[trigger] glyph_cell(rows, x as int, y as int, scale as int, r0, c0, px, py);
                    let rs = glyph_rows(ch)->0;
                    assert(rs == rows);
                    assert(row_bit(rs[r0], c0));
                    assert(in_glyph(ch, x as int, y as int, scale as int, px, py));
                }
            }
        }
    }
}


proof fn lemma_text_advance(scale: int, i: int, len: int)
    requires
        0 <= i < len,
        scale >= 0,
    ensures
        4 * scale * (i + 1) == 4 * scale * i + 4 * scale,
        4 * scale * i + 4 * scale <= text_width(len, scale),
        0 <= 4 * scale * i,
{
    assert(4 * scale * (i + 1) == 4 * scale * i + 4 * scale) by (nonlinear_arith);
    assert(4 * scale * (i + 1) <= 4 * scale * len) by (nonlinear_arith)
        requires
            i + 1 <= len,
            scale >= 0,
    ;
    assert(len * 4 * scale == 4 * scale * len) by (nonlinear_arith);
    assert(0 <= 4 * scale * i) by (nonlinear_arith)
        requires
            0 <= i,
            scale >= 0,
    ;
}

impl Renderer {
    /// Draws a line of text with the bitmap font, one character every `4 * scale` pixels.
    pub fn draw_text(&mut self, x: usize, y: usize, text: &str, color: u32, scale: usize)
        requires
            old(self)@.wf(),
            x + text_width(text@.len() as int, scale as int) <= usize::MAX,
            y + 4 * scale <= usize::MAX,
        ensures
            final(self)@.wf(),
            final(self)@.painted(old(self)@, |px: int, py: int| in_text(text@, x as int, y as int, scale as int, px, py), color),
    {
        let ghost start = self@;
        let mut cursor_x = x;
        for ch in it: text.chars()
            invariant
                self@.wf(),
                self@.width == start.width,
                self@.height == start.height,
                self@.background == start.background,
                it.seq() == text@,
                x + text_width(text@.len() as int, scale as int) <= usize::MAX,
                y + 4 * scale <= usize::MAX,
                cursor_x == x + 4 * scale * it.index(),
                forall|px: int, py: int| self@.in_frame(px, py) ==> #[trigger] self@.pixel(px, py) == if text_part(text@, x as int, y as int, scale as int, it.index() as int, px, py) {
                    color
                } else {
                    start.pixel(px, py)
                },
        {
            let ghost i = it.index() as int;
            assert(ch == text@[i]);
            proof {
                lemma_text_advance(scale as int, i, text@.len() as int);
            }
            let ghost before = self@;
            if ch != ' ' {
                self.draw_char(cursor_x, y, ch, color, scale);
            }
            proof {
                assert forall|px: int, py: int| self@.in_frame(px, py) implies #[trigger] self@.pixel(px, py) == if text_part(text@, x as int, y as int, scale as int, i + 1, px, py) {
                    color
                } else {
                    start.pixel(px, py)
                } by {
                    assert(before.in_frame(px, py));
                    if text_part(text@, x as int, y as int, scale as int, i + 1, px, py) {
                        let j = choose|j: int| 0 <= j < i + 1 && #[trigger] in_glyph(text@[j], x + 4 * scale * j, y as int, scale as int, px, py);
                        if j < i {
                            assert(text_part(text@, x as int, y as int, scale as int, i, px, py));
                        }
                    } else {
                        if in_glyph(ch, cursor_x as int, y as int, scale as int, px, py) {
                            assert(text_part(text@, x as int, y as int, scale as int, i + 1, px, py));
                        }
                        if text_part(text@, x as int, y as int, scale as int, i, px, py) {
                            let j = choose|j: int| 0 <= j < i && #[trigger] in_glyph(text@[j], x + 4 * scale * j, y as int, scale as int, px, py);
                            assert(text_part(text@, x as int, y as int, scale as int, i + 1, px, py));
                        }
                    }
                }
            }
            cursor_x += 4 * scale;
        }
        proof {
            assert forall|px: int, py: int| self@.in_frame(px, py) implies #[trigger] self@.pixel(px, py) == if in_text(text@, x as int, y as int, scale as int, px, py) {
                color
            } else {
                start.pixel(px, py)
            } by {
                if in_text(text@, x as int, y as int, scale as int, px, py) {
                    let j = choose|j: int| 0 <= j < text@.len() && #[trigger] in_glyph(text@[j], x + 4 * scale * j, y as int, scale as int, px, py);
                    assert(text_part(text@, x as int, y as int, scale as int, text@.len() as int, px, py));
                }
            }
        }
    }

    /// Draws a line of text centred horizontally in the frame.
    pub fn draw_centered_text(&mut self, y: usize, text: &str, color: u32, scale: usize)
        requires
            old(self)@.wf(),
            text@.len() * 4 <= usize::MAX,
            old(self)@.width + text_width(text@.len() as int, scale as int) <= usize::MAX,
            y + 4 * scale <= usize::MAX,
        ensures
            final(self)@.wf(),
            final(self)@.painted(
                old(self)@,
                |px: int, py: int| in_text(text@, centered_x(old(self)@.width, text_width(text@.len() as int, scale as int)), y as int, scale as int, px, py),
                color,
            ),
    {
        let text_width = text_pixel_width(text, scale);
        let x = self.width.saturating_sub(text_width) / 2;
        self.draw_text(x, y, text, color, scale);
    }
}


/// A shape drawn in one color.
pub enum Shape {
    Rect { x: int, y: int, w: int, h: int },
    Text { text: Seq<char>, x: int, y: int, scale: int },
    Disc { cx: int, cy: int, r: int },
}

/// Pixel `(px, py)` is covered by the shape.
pub open spec fn covers(shape: Shape, px: int, py: int) -> bool {
    match shape {
        Shape::Rect { x, y, w, h } => in_rect(x, y, w, h, px, py),
        Shape::Text { text, x, y, scale } => in_text(text, x, y, scale, px, py),
        Shape::Disc { cx, cy, r } => in_disc(cx, cy, r, px, py),
    }
}

/// One drawing step: the pixels of `shape` take `color`.
pub struct Layer {
    pub shape: Shape,
    pub color: u32,
}

/// Color of pixel `(px, py)` after drawing `layers` in order over `base`.
pub open spec fn layered(layers: Seq<Layer>, base: spec_fn(int, int) -> u32, px: int, py: int) -> u32
    decreases layers.len(),
{
    if layers.len() == 0 {
        base(px, py)
    } else {
        let top = layers.last();
        if covers(top.shape, px, py) {
            top.color
        } else {
            layered(layers.drop_last(), base, px, py)
        }
    }
}

pub open spec fn rect_layer(x: int, y: int, w: int, h: int, color: u32) -> Layer {
    Layer { shape: Shape::Rect { x, y, w, h }, color }
}

pub open spec fn text_layer(text: Seq<char>, x: int, y: int, scale: int, color: u32) -> Layer {
    Layer { shape: Shape::Text { text, x, y, scale }, color }
}

impl FrameModel {
    /// Every pixel of `self` is what `layers` give when drawn over `base`.
    pub open spec fn shows(self, layers: Seq<Layer>, base: spec_fn(int, int) -> u32) -> bool {
        forall|x: int, y: int| self.in_frame(x, y) ==> #[trigger] self.pixel(x, y) == layered(layers, base, x, y)
    }

    /// `self` is `before` with `layers` drawn over it.
    pub open spec fn drawn_over(self, before: FrameModel, layers: Seq<Layer>) -> bool {
        &&& self.wf()
        &&& self.width == before.width
        &&& self.height == before.height
        &&& self.background == before.background
        &&& self.shows(layers, |x: int, y: int| before.pixel(x, y))
    }
}

proof fn lemma_layered_base(layers: Seq<Layer>, f: spec_fn(int, int) -> u32, g: spec_fn(int, int) -> u32, px: int, py: int)
    requires
        f(px, py) == g(px, py),
    ensures
        layered(layers, f, px, py) == layered(layers, g, px, py),
    decreases layers.len(),
{
    if layers.len() > 0 {
        lemma_layered_base(layers.drop_last(), f, g, px, py);
    }
}

proof fn lemma_layered_concat(a: Seq<Layer>, b: Seq<Layer>, base: spec_fn(int, int) -> u32, px: int, py: int)
    ensures
        layered(a + b, base, px, py) == layered(b, |x: int, y: int| layered(a, base, x, y), px, py),
    decreases b.len(),
{
    if b.len() == 0 {
        assert(a + b == a);
    } else {
        assert((a + b).drop_last() == a + b.drop_last());
        assert((a + b).last() == b.last());
        lemma_layered_concat(a, b.drop_last(), base, px, py);
    }
}

/// Painting one more shape adds one layer.
proof fn lemma_paint_step(m0: FrameModel, m1: FrameModel, m2: FrameModel, layers: Seq<Layer>, layer: Layer)
    requires
        m1.drawn_over(m0, layers),
        m2.wf(),
        m2.painted(m1, |x: int, y: int| covers(layer.shape, x, y), layer.color),
    ensures
        m2.drawn_over(m0, layers.push(layer)),
{
    let l2 = layers.push(layer);
    assert forall|x: int, y: int| m2.in_frame(x, y) implies #[trigger] m2.pixel(x, y) == layered(l2, |a: int, b: int| m0.pixel(a, b), x, y) by {
        assert(l2.drop_last() == layers);
        assert(m1.in_frame(x, y));
    }
}

/// Drawing `b` after `a` draws `a + b`.
proof fn lemma_compose(m0: FrameModel, m1: FrameModel, m2: FrameModel, a: Seq<Layer>, b: Seq<Layer>)
    requires
        m1.drawn_over(m0, a),
        m2.drawn_over(m1, b),
    ensures
        m2.drawn_over(m0, a + b),
{
    assert forall|x: int, y: int| m2.in_frame(x, y) implies #[trigger] m2.pixel(x, y) == layered(a + b, |p: int, q: int| m0.pixel(p, q), x, y) by {
        assert(m1.in_frame(x, y));
        lemma_layered_base(b, |p: int, q: int| m1.pixel(p, q), |p: int, q: int| layered(a, |s: int, t: int| m0.pixel(s, t), p, q), x, y);
        lemma_layered_concat(a, b, |p: int, q: int| m0.pixel(p, q), x, y);
    }
}

/// A frame shows no layers over itself.
proof fn lemma_nothing_drawn(m: FrameModel)
    requires
        m.wf(),
    ensures
        m.drawn_over(m, seq![]),
{
}

/// Shade of row `y` on menu screens: brightening towards the middle, darkening below.
pub open spec fn menu_shade(height: int, y: int) -> int {
    if y < height / 2 {
        12 + y * 18 / height
    } else {
        let d = (y - height / 2) * 14 / height;
        if d < 24 {
            24 - d
        } else {
            0
        }
    }
}

pub open spec fn menu_row_color(height: int, y: int) -> u32 {
    let shade = menu_shade(height, y);
    pack_rgb(shade + 4, shade + 7, shade + 5) as u32
}

/// Menu backdrop: shaded rows, a faint grid every 48 columns and 36 rows, and
/// red bars along the top and bottom edges.
pub open spec fn menu_background_pixel(width: int, height: int, x: int, y: int) -> u32 {
    if in_rect(0, 0, width, 8, x, y) || in_rect(0, if height > 8 { height - 8 } else { 0 }, width, 8, x, y) {
        0x6e1c1c
    } else if y % 36 == 0 {
        0x141c22
    } else if x % 48 == 0 {
        0x172027
    } else {
        menu_row_color(height, y)
    }
}

impl Renderer {
    /// Paints the menu backdrop over the whole frame.
    pub fn draw_menu_background(&mut self)
        requires
            old(self)@.wf(),
        ensures
            final(self)@.wf(),
            final(self)@.width == old(self)@.width,
            final(self)@.height == old(self)@.height,
            final(self)@.background == old(self)@.background,
            forall|x: int, y: int| final(self)@.in_frame(x, y) ==> #[trigger] final(self)@.pixel(x, y) == menu_background_pixel(old(self)@.width, old(self)@.height, x, y),
    {
        let ghost start = self@;
        let width = self.width;
        let height = self.height;
        let mut y: usize = 0;
        while y < height
            invariant
                self@.wf(),
                self@.width == start.width == width,
                self@.height == start.height == height,
                self@.background == start.background,
                y <= height,
                forall|px: int, py: int| self@.in_frame(px, py) ==> #[trigger] self@.pixel(px, py) == if py < y {
                    menu_row_color(height as int, py)
                } else {
                    start.pixel(px, py)
                },
            decreases height - y,
        {
            let shade = if y < height / 2 {
                assert((y as int) * 18 / (height as int) <= 18) by (nonlinear_arith)
                    requires
                        y < height,
                ;
                12 + y as u32 * 18 / height as u32
            } else {
                assert((y as int - (height / 2) as int) * 14 <= height * 14) by (nonlinear_arith)
                    requires
                        y < height,
                ;
                24u32.saturating_sub((y - height / 2) as u32 * 14 / height as u32)
            };
            let color = rgb(shade + 4, shade + 7, shade + 5);
            assert(color == menu_row_color(height as int, y as int));
            let ghost before = self@;
            self.fill_rect(0, y, width, 1, color);
            proof {
                assert forall|px: int, py: int| self@.in_frame(px, py) implies #[trigger] self@.pixel(px, py) == if py < y + 1 {
                    menu_row_color(height as int, py)
                } else {
                    start.pixel(px, py)
                } by {
                    assert(before.in_frame(px, py));
                }
            }
            y += 1;
        }
        let ghost rows = self@;
        let mut x: usize = 0;
        while x < width
            invariant
                self@.wf(),
                self@.width == start.width == width,
                self@.height == start.height == height,
                self@.background == start.background,
                x % 48 == 0,
                x <= width + 48,
                width <= i32::MAX,
                forall|px: int, py: int| self@.in_frame(px, py) ==> #[trigger] self@.pixel(px, py) == if px % 48 == 0 && px < x {
                    0x172027u32
                } else {
                    menu_row_color(height as int, py)
                },
            decreases width + 48 - x,
        {
            let ghost before = self@;
            self.fill_rect(x, 0, 1, height, 0x172027);
            proof {
                assert forall|px: int, py: int| self@.in_frame(px, py) implies #[trigger] self@.pixel(px, py) == if px % 48 == 0 && px < x + 48 {
                    0x172027u32
                } else {
                    menu_row_color(height as int, py)
                } by {
                    assert(before.in_frame(px, py));
                }
            }
            x += 48;
        }
        let mut y: usize = 0;
        while y < height
            invariant
                self@.wf(),
                self@.width == start.width == width,
                self@.height == start.height == height,
                self@.background == start.background,
                y % 36 == 0,
                y <= height + 36,
                height <= i32::MAX,
                forall|px: int, py: int| self@.in_frame(px, py) ==> #[trigger] self@.pixel(px, py) == if py % 36 == 0 && py < y {
                    0x141c22u32
                } else if px % 48 == 0 {
                    0x172027u32
                } else {
                    menu_row_color(height as int, py)
                },
            decreases height + 36 - y,
        {
            let ghost before = self@;
            self.fill_rect(0, y, width, 1, 0x141c22);
            proof {
                assert forall|px: int, py: int| self@.in_frame(px, py) implies #[trigger] self@.pixel(px, py) == if py % 36 == 0 && py < y + 36 {
                    0x141c22u32
                } else if px % 48 == 0 {
                    0x172027u32
                } else {
                    menu_row_color(height as int, py)
                } by {
                    assert(before.in_frame(px, py));
                }
            }
            y += 36;
        }
        self.fill_rect(0, 0, width, 8, 0x6e1c1c);
        let ghost top = self@;
        self.fill_rect(0, height.saturating_sub(8), width, 8, 0x6e1c1c);
        proof {
            assert forall|px: int, py: int| self@.in_frame(px, py) implies #[trigger] self@.pixel(px, py) == menu_background_pixel(width as int, height as int, px, py) by {
                assert(top.in_frame(px, py));
            }
        }
    }
}


pub open spec fn sat_sub(a: int, b: int) -> int {
    if a > b {
        a - b
    } else {
        0
    }
}

/// Layers of a menu button: frame, face, side markers when selected, label.
pub open spec fn button_layers(x: int, y: int, w: int, h: int, label: Seq<char>, selected: bool) -> Seq<Layer> {
    let border: u32 = if selected { 0xffc857 } else { 0x4f6472 };
    let fill: u32 = if selected { 0x26313a } else { 0x141b21 };
    let text_color: u32 = if selected { 0xffffff } else { 0xb3c0c8 };
    let frame = seq![rect_layer(x, y, w, h, border), rect_layer(x + 3, y + 3, sat_sub(w, 6), sat_sub(h, 6), fill)];
    let markers = if selected {
        seq![
            rect_layer(x + 8, y + 8, 6, sat_sub(h, 16), 0xff5a1f),
            rect_layer(x + sat_sub(w, 14), y + 8, 6, sat_sub(h, 16), 0xff5a1f),
        ]
    } else {
        seq![]
    };
    let text_x = x + sat_sub(w, text_width(label.len() as int, 3)) / 2;
    let text_y = y + sat_sub(h, 15) / 2;
    frame + markers + seq![text_layer(label, text_x, text_y, 3, text_color)]
}

impl Renderer {
    /// Menu button with a highlighted frame when selected.
    fn draw_menu_button(&mut self, x: usize, y: usize, width: usize, height: usize, label: &str, selected: bool)
        requires
            old(self)@.wf(),
            label@.len() * 4 <= usize::MAX,
            x + 8 <= usize::MAX,
            selected ==> x + sat_sub(width as int, 14) <= usize::MAX,
            x + sat_sub(width as int, text_width(label@.len() as int, 3)) / 2 + text_width(label@.len() as int, 3) <= usize::MAX,
            y + 8 <= usize::MAX,
            y + sat_sub(height as int, 15) / 2 + 12 <= usize::MAX,
        ensures
            final(self)@.drawn_over(old(self)@, button_layers(x as int, y as int, width as int, height as int, label@, selected)),
    {
        let ghost m0 = self@;
        let border_color: u32 = if selected { 0xffc857 } else { 0x4f6472 };
        let fill_color: u32 = if selected { 0x26313a } else { 0x141b21 };
        let text_color: u32 = if selected { 0xffffff } else { 0xb3c0c8 };
        proof { lemma_nothing_drawn(m0); }
        let ghost l0: Seq<Layer> = seq![];
        self.fill_rect(x, y, width, height, border_color);
        let ghost l1 = l0.push(rect_layer(x as int, y as int, width as int, height as int, border_color));
        proof { lemma_paint_step(m0, m0, self@, l0, rect_layer(x as int, y as int, width as int, height as int, border_color)); }
        let ghost m1 = self@;
        self.fill_rect(x + 3, y + 3, width.saturating_sub(6), height.saturating_sub(6), fill_color);
        let ghost l2 = l1.push(rect_layer(x + 3, y + 3, sat_sub(width as int, 6), sat_sub(height as int, 6), fill_color));
        proof { lemma_paint_step(m0, m1, self@, l1, rect_layer(x + 3, y + 3, sat_sub(width as int, 6), sat_sub(height as int, 6), fill_color)); }
        let ghost mut lm = l2;
        if selected {
            let ghost m2 = self@;
            self.fill_rect(x + 8, y + 8, 6, height.saturating_sub(16), 0xff5a1f);
            proof { lemma_paint_step(m0, m2, self@, l2, rect_layer(x + 8, y + 8, 6, sat_sub(height as int, 16), 0xff5a1f)); }
            let ghost m3 = self@;
            let ghost l3 = l2.push(rect_layer(x + 8, y + 8, 6, sat_sub(height as int, 16), 0xff5a1f));
            self.fill_rect(x + width.saturating_sub(14), y + 8, 6, height.saturating_sub(16), 0xff5a1f);
            proof {
                lemma_paint_step(m0, m3, self@, l3, rect_layer(x + sat_sub(width as int, 14), y + 8, 6, sat_sub(height as int, 16), 0xff5a1f));
                lm = l3.push(rect_layer(x + sat_sub(width as int, 14), y + 8, 6, sat_sub(height as int, 16), 0xff5a1f));
            }
        }
        let scale: usize = 3;
        let text_x = x + width.saturating_sub(text_pixel_width(label, scale)) / 2;
        let text_y = y + height.saturating_sub(5 * scale) / 2;
        let ghost m4 = self@;
        self.draw_text(text_x, text_y, label, text_color, scale);
        proof {
            lemma_paint_step(m0, m4, self@, lm, text_layer(label@, text_x as int, text_y as int, 3, text_color));
            assert(lm.push(text_layer(label@, text_x as int, text_y as int, 3, text_color)) =~= button_layers(x as int, y as int, width as int, height as int, label@, selected));
        }
    }
}


/// Decimal digit character of `d`.
pub open spec fn digit_char(d: int) -> char {
    (48 + d) as char
}

/// Decimal notation of `n`, without leading zeros.
pub open spec fn decimal(n: nat) -> Seq<char>
    decreases n,
{
    if n < 10 {
        seq![digit_char(n as int)]
    } else {
        decimal(n / 10).push(digit_char((n % 10) as int))
    }
}

fn digit_str(d: u64) -> (s: &'static str)
    requires
        d < 10,
    ensures
        s@ == seq![digit_char(d as int)],
{
    proof {
        reveal_strlit("0");
        reveal_strlit("1");
        reveal_strlit("2");
        reveal_strlit("3");
        reveal_strlit("4");
        reveal_strlit("5");
        reveal_strlit("6");
        reveal_strlit("7");
        reveal_strlit("8");
        reveal_strlit("9");
    }
    match d {
        0 => "0",
        1 => "1",
        2 => "2",
        3 => "3",
        4 => "4",
        5 => "5",
        6 => "6",
        7 => "7",
        8 => "8",
        9 => "9",
        _ => "9",
    }
}

/// Decimal notation of `n`.
pub fn decimal_string(n: u64) -> (s: String)
    ensures
        s@ == decimal(n as nat),
    decreases n,
{
    if n < 10 {
        String::from_str(digit_str(n))
    } else {
        let mut s = decimal_string(n / 10);
        s.append(digit_str(n % 10));
        s
    }
}


pub open spec fn pow10(k: nat) -> nat
    decreases k,
{
    if k == 0 {
        1
    } else {
        10 * pow10((k - 1) as nat)
    }
}

proof fn lemma_decimal_len(n: nat, k: nat)
    requires
        k >= 1,
        n < pow10(k),
    ensures
        decimal(n).len() <= k,
    decreases k,
{
    if n >= 10 {
        assert(k >= 2) by {
            if k == 1 {
                assert(pow10(1) == 10) by {
                    reveal_with_fuel(pow10, 2);
                }
            }
        }
        assert(n / 10 < pow10((k - 1) as nat));
        lemma_decimal_len(n / 10, (k - 1) as nat);
    }
}

/// A `u64` has at most 20 decimal digits.
proof fn lemma_decimal_u64_len(n: u64)
    ensures
        decimal(n as nat).len() <= 20,
{
    assert(pow10(20) == 100000000000000000000) by {
        reveal_with_fuel(pow10, 21);
    }
    lemma_decimal_len(n as nat, 20);
}

/// Layer of a text centred horizontally in a frame of the given width.
pub open spec fn centered_text_layer(frame_width: int, text: Seq<char>, y: int, scale: int, color: u32) -> Layer {
    text_layer(text, centered_x(frame_width, text_width(text.len() as int, scale)), y, scale, color)
}

/// A column of menu buttons, `step` pixels apart, the `selected`-th highlighted.
pub open spec fn button_column(x: int, y: int, w: int, h: int, step: int, labels: Seq<Seq<char>>, selected: int) -> Seq<Layer>
    decreases labels.len(),
{
    if labels.len() == 0 {
        seq![]
    } else {
        let i = labels.len() - 1;
        button_column(x, y, w, h, step, labels.drop_last(), selected) + button_layers(x, y + step * i, w, h, labels.last(), i == selected)
    }
}

/// Each pixel of `m` is what `layers` give over `base`, knowing that `start`
/// showed `base` and `m` is `start` with `layers` drawn over it.
proof fn lemma_shows_over_base(start: FrameModel, m: FrameModel, layers: Seq<Layer>, base: spec_fn(int, int) -> u32)
    requires
        start.shows(seq![], base),
        m.drawn_over(start, layers),
    ensures
        m.shows(layers, base),
{
    assert forall|x: int, y: int| m.in_frame(x, y) implies #[trigger] m.pixel(x, y) == layered(layers, base, x, y) by {
        assert(start.in_frame(x, y));
        assert(layered(seq![], base, x, y) == base(x, y));
        lemma_layered_base(layers, |a: int, b: int| start.pixel(a, b), base, x, y);
    }
}

pub open spec fn main_menu_labels() -> Seq<Seq<char>> {
    seq!["JUGAR"@, "INSTRUCCIONES"@, "DE QUE TRATA"@, "SALIR"@]
}

/// The main menu: title, tagline, the four options with the `selected` one
/// highlighted, and a key hint at the bottom, over the menu backdrop.
pub open spec fn main_menu_layers(w: int, h: int, selected: int) -> Seq<Layer> {
    seq![
        centered_text_layer(w, "RUN FROM YE"@, 74, 10, 0xf5f3e7),
        centered_text_layer(w, "ESCAPA ANTES DE QUE LA PARED DESPIERTE"@, 140, 3, 0x9db4c4),
    ] + button_column(sat_sub(w, 360) / 2, 208, 360, 44, 58, main_menu_labels(), selected) + seq![
        centered_text_layer(w, "W S O FLECHAS MOVER    ENTER ELEGIR    ESC SALIR"@, sat_sub(h, 42), 2, 0x7f8c95),
    ]
}

pub open spec fn level_label(n: nat) -> Seq<char> {
    "LEVEL "@ + decimal(n)
}

/// The level list: heading, one button per level labelled from 1, and a key hint.
pub open spec fn level_select_layers(w: int, h: int, selected: int, level_count: nat) -> Seq<Layer> {
    seq![
        centered_text_layer(w, "SELECT LEVEL"@, 78, 7, 0xf5f3e7),
        centered_text_layer(w, "CHOOSE CONTAINMENT ROUTE"@, 136, 3, 0x9db4c4),
    ] + button_column(sat_sub(w, 340) / 2, 210, 340, 44, 58, Seq::new(level_count, |i: int| level_label((i + 1) as nat)), selected) + seq![
        centered_text_layer(w, "W S O FLECHAS MOVER    ENTER ELEGIR    ESC VOLVER"@, sat_sub(h, 42), 2, 0x7f8c95),
    ]
}

impl Renderer {
    /// Draws a centred text and records it as one more layer.
    fn centered_text_step(&mut self, y: usize, text: &str, color: u32, scale: usize, Ghost(m0): Ghost<FrameModel>, Ghost(layers): Ghost<Seq<Layer>>)
        requires
            old(self)@.drawn_over(m0, layers),
            text@.len() <= 1000,
            scale <= 16,
            y <= i32::MAX,
        ensures
            final(self)@.drawn_over(m0, layers.push(centered_text_layer(old(self)@.width, text@, y as int, scale as int, color))),
    {
        let ghost m1 = self@;
        assert(text@.len() * 4 * scale <= 64000) by (nonlinear_arith)
            requires
                text@.len() <= 1000,
                scale <= 16,
        ;
        self.draw_centered_text(y, text, color, scale);
        proof {
            lemma_paint_step(m0, m1, self@, layers, centered_text_layer(m1.width, text@, y as int, scale as int, color));
        }
    }

    /// Draws a menu button and records its layers.
    fn button_step(&mut self, x: usize, y: usize, width: usize, height: usize, label: &str, selected: bool, Ghost(m0): Ghost<FrameModel>, Ghost(layers): Ghost<Seq<Layer>>)
        requires
            old(self)@.drawn_over(m0, layers),
            label@.len() <= 1000,
            x + width + 12000 <= usize::MAX,
            y + 8 <= usize::MAX,
            y + sat_sub(height as int, 15) / 2 + 12 <= usize::MAX,
        ensures
            final(self)@.drawn_over(m0, layers + button_layers(x as int, y as int, width as int, height as int, label@, selected)),
    {
        let ghost m1 = self@;
        assert(label@.len() * 4 * 3 <= 12000) by (nonlinear_arith)
            requires
                label@.len() <= 1000,
        ;
        self.draw_menu_button(x, y, width, height, label, selected);
        proof {
            lemma_compose(m0, m1, self@, layers, button_layers(x as int, y as int, width as int, height as int, label@, selected));
        }
    }

    /// Main menu with the option `selected_index` highlighted.
    pub fn render_main_menu(&mut self, selected_index: usize)
        requires
            old(self)@.wf(),
        ensures
            final(self)@.wf(),
            final(self)@.width == old(self)@.width,
            final(self)@.height == old(self)@.height,
            final(self)@.background == old(self)@.background,
            final(self)@.shows(main_menu_layers(old(self)@.width, old(self)@.height, selected_index as int), |x: int, y: int| menu_background_pixel(old(self)@.width, old(self)@.height, x, y)),
    {
        proof {
            reveal_strlit("RUN FROM YE");
            reveal_strlit("ESCAPA ANTES DE QUE LA PARED DESPIERTE");
            reveal_strlit("JUGAR");
            reveal_strlit("INSTRUCCIONES");
            reveal_strlit("DE QUE TRATA");
            reveal_strlit("SALIR");
            reveal_strlit("W S O FLECHAS MOVER    ENTER ELEGIR    ESC SALIR");
        }
        self.draw_menu_background();
        let ghost m0 = self@;
        let ghost base = |x: int, y: int| menu_background_pixel(m0.width, m0.height, x, y);
        proof {
            lemma_nothing_drawn(m0);
        }
        let ghost none: Seq<Layer> = Seq::empty();
        self.centered_text_step(74, "RUN FROM YE", 0xf5f3e7, 10, Ghost(m0), Ghost(none));
        let ghost first = none.push(centered_text_layer(m0.width, "RUN FROM YE"@, 74, 10, 0xf5f3e7));
        self.centered_text_step(140, "ESCAPA ANTES DE QUE LA PARED DESPIERTE", 0x9db4c4, 3, Ghost(m0), Ghost(first));
        let ghost head = seq![
            centered_text_layer(m0.width, "RUN FROM YE"@, 74, 10, 0xf5f3e7),
            centered_text_layer(m0.width, "ESCAPA ANTES DE QUE LA PARED DESPIERTE"@, 140, 3, 0x9db4c4),
        ];
        assert(first.push(centered_text_layer(m0.width, "ESCAPA ANTES DE QUE LA PARED DESPIERTE"@, 140, 3, 0x9db4c4)) =~= head);
        let options = ["JUGAR", "INSTRUCCIONES", "DE QUE TRATA", "SALIR"];
        let ghost labels = main_menu_labels();
        assert(options@.map_values(|s: &str| s@) =~= labels);
        assert(forall|i: int| 0 <= i < 4 ==> #[trigger] labels[i].len() <= 1000);
        let button_width: usize = 360;
        let button_height: usize = 44;
        let button_x = self.width.saturating_sub(button_width) / 2;
        let mut button_y: usize = 208;
        let mut index: usize = 0;
        while index < 4
            invariant
                self@.drawn_over(m0, head + button_column(button_x as int, 208, 360, 44, 58, labels.take(index as int), selected_index as int)),
                m0.wf(),
                index <= 4,
                button_y == 208 + 58 * index,
                button_x == sat_sub(m0.width, 360) / 2,
                button_width == 360,
                button_height == 44,
                m0.width <= i32::MAX,
                options@.map_values(|s: &str| s@) == labels,
                labels == main_menu_labels(),
                forall|i: int| 0 <= i < 4 ==> #[trigger] labels[i].len() <= 1000,
                labels.len() == 4,
            decreases 4 - index,
        {
            let label = options[index];
            assert(label@ == labels[index as int]);
            let ghost before_layers = head + button_column(button_x as int, 208, 360, 44, 58, labels.take(index as int), selected_index as int);
            self.button_step(button_x, button_y, button_width, button_height, label, index == selected_index, Ghost(m0), Ghost(before_layers));
            proof {
                let t = labels.take(index + 1);
                assert(t.drop_last() == labels.take(index as int));
                assert(t.last() == label@);
                assert(before_layers + button_layers(button_x as int, button_y as int, 360, 44, label@, index == selected_index) =~= head + button_column(button_x as int, 208, 360, 44, 58, t, selected_index as int));
            }
            button_y += 58;
            index += 1;
        }
        let ghost body = head + button_column(button_x as int, 208, 360, 44, 58, labels, selected_index as int);
        assert(labels.take(4) == labels);
        let footer_y = self.height.saturating_sub(42);
        self.centered_text_step(footer_y, "W S O FLECHAS MOVER    ENTER ELEGIR    ESC SALIR", 0x7f8c95, 2, Ghost(m0), Ghost(body));
        proof {
            assert(body.push(centered_text_layer(m0.width, "W S O FLECHAS MOVER    ENTER ELEGIR    ESC SALIR"@, sat_sub(m0.height, 42), 2, 0x7f8c95)) =~= main_menu_layers(m0.width, m0.height, selected_index as int));
            lemma_shows_over_base(m0, self@, main_menu_layers(m0.width, m0.height, selected_index as int), base);
        }
    }
}


impl Renderer {
    /// Level list with one button per level, labelled from 1, the `selected_index`-th highlighted.
    pub fn render_level_select_screen(&mut self, selected_index: usize, level_count: usize)
        requires
            old(self)@.wf(),
            210 + 58 * level_count <= usize::MAX,
        ensures
            final(self)@.wf(),
            final(self)@.width == old(self)@.width,
            final(self)@.height == old(self)@.height,
            final(self)@.background == old(self)@.background,
            final(self)@.shows(level_select_layers(old(self)@.width, old(self)@.height, selected_index as int, level_count as nat), |x: int, y: int| menu_background_pixel(old(self)@.width, old(self)@.height, x, y)),
    {
        proof {
            reveal_strlit("SELECT LEVEL");
            reveal_strlit("CHOOSE CONTAINMENT ROUTE");
            reveal_strlit("LEVEL ");
            reveal_strlit("W S O FLECHAS MOVER    ENTER ELEGIR    ESC VOLVER");
        }
        self.draw_menu_background();
        let ghost m0 = self@;
        let ghost base = |x: int, y: int| menu_background_pixel(m0.width, m0.height, x, y);
        proof {
            lemma_nothing_drawn(m0);
        }
        let ghost none: Seq<Layer> = Seq::empty();
        self.centered_text_step(78, "SELECT LEVEL", 0xf5f3e7, 7, Ghost(m0), Ghost(none));
        let ghost first = none.push(centered_text_layer(m0.width, "SELECT LEVEL"@, 78, 7, 0xf5f3e7));
        self.centered_text_step(136, "CHOOSE CONTAINMENT ROUTE", 0x9db4c4, 3, Ghost(m0), Ghost(first));
        let ghost head = seq![
            centered_text_layer(m0.width, "SELECT LEVEL"@, 78, 7, 0xf5f3e7),
            centered_text_layer(m0.width, "CHOOSE CONTAINMENT ROUTE"@, 136, 3, 0x9db4c4),
        ];
        assert(first.push(centered_text_layer(m0.width, "CHOOSE CONTAINMENT ROUTE"@, 136, 3, 0x9db4c4)) =~= head);
        let ghost labels = Seq::new(level_count as nat, |i: int| level_label((i + 1) as nat));
        let button_width: usize = 340;
        let button_height: usize = 44;
        let button_x = self.width.saturating_sub(button_width) / 2;
        let mut button_y: usize = 210;
        let mut index: usize = 0;
        while index < level_count
            invariant
                self@.drawn_over(m0, head + button_column(button_x as int, 210, 340, 44, 58, labels.take(index as int), selected_index as int)),
                m0.wf(),
                index <= level_count,
                210 + 58 * level_count <= usize::MAX,
                button_y == 210 + 58 * index,
                button_x == sat_sub(m0.width, 340) / 2,
                button_width == 340,
                button_height == 44,
                m0.width <= i32::MAX,
                labels == Seq::new(level_count as nat, |i: int| level_label((i + 1) as nat)),
                "LEVEL "@.len() == 6,
            decreases level_count - index,
        {
            let mut label = String::from_str("LEVEL ");
            let number = decimal_string(index as u64 + 1);
            proof {
                lemma_decimal_u64_len((index + 1) as u64);
            }
            label.append(number.as_str());
            assert(label@ == labels[index as int]);
            let ghost before_layers = head + button_column(button_x as int, 210, 340, 44, 58, labels.take(index as int), selected_index as int);
            self.button_step(button_x, button_y, button_width, button_height, label.as_str(), index == selected_index, Ghost(m0), Ghost(before_layers));
            proof {
                let t = labels.take(index + 1);
                assert(t.drop_last() == labels.take(index as int));
                assert(t.last() == label@);
                assert(before_layers + button_layers(button_x as int, button_y as int, 340, 44, label@, index == selected_index) =~= head + button_column(button_x as int, 210, 340, 44, 58, t, selected_index as int));
            }
            button_y += 58;
            index += 1;
        }
        let ghost body = head + button_column(button_x as int, 210, 340, 44, 58, labels, selected_index as int);
        assert(labels.take(level_count as int) == labels);
        let footer_y = self.height.saturating_sub(42);
        self.centered_text_step(footer_y, "W S O FLECHAS MOVER    ENTER ELEGIR    ESC VOLVER", 0x7f8c95, 2, Ghost(m0), Ghost(body));
        proof {
            assert(body.push(centered_text_layer(m0.width, "W S O FLECHAS MOVER    ENTER ELEGIR    ESC VOLVER"@, sat_sub(m0.height, 42), 2, 0x7f8c95)) =~= level_select_layers(m0.width, m0.height, selected_index as int, level_count as nat));
            lemma_shows_over_base(m0, self@, level_select_layers(m0.width, m0.height, selected_index as int, level_count as nat), base);
        }
    }
}


/// Centred lines, `32` pixels apart from `y` downwards.
pub open spec fn line_column(frame_width: int, y: int, lines: Seq<Seq<char>>) -> Seq<Layer>
    decreases lines.len(),
{
    if lines.len() == 0 {
        seq![]
    } else {
        let i = lines.len() - 1;
        line_column(frame_width, y, lines.drop_last()).push(centered_text_layer(frame_width, lines.last(), y + 32 * i, 3, 0xbfd0d8))
    }
}

/// Information screen body: title, framed panel with the lines, and a hint to go back.
pub open spec fn info_panel_layers(w: int, h: int, title: Seq<char>, lines: Seq<Seq<char>>) -> Seq<Layer> {
    let pw = if 760 < sat_sub(w, 48) { 760 } else { sat_sub(w, 48) };
    let ph = if 300 < sat_sub(h, 180) { 300 } else { sat_sub(h, 180) };
    let px = sat_sub(w, pw) / 2;
    seq![
        centered_text_layer(w, title, 78, 6, 0xf5f3e7),
        rect_layer(px, 170, pw, ph, 0x4f6472),
        rect_layer(px + 3, 173, sat_sub(pw, 6), sat_sub(ph, 6), 0x10161b),
    ] + line_column(w, 202, lines) + seq![
        centered_text_layer(w, "ENTER O ESPACIO VOLVER"@, sat_sub(h, 48), 3, 0xffc857),
    ]
}

pub open spec fn instruction_lines() -> Seq<Seq<char>> {
    seq!["W O FLECHA ARRIBA AVANZAR"@, "S O FLECHA ABAJO RETROCEDER"@, "A D O FLECHAS MOVERSE LATERAL"@, "MOUSE GIRAR CAMARA"@, "Q EMITIR SONIDO"@, "BUSCA LA TARJETA ACTIVA EL TERMINAL"@, "ABRE LA PUERTA Y LLEGA A LA SALIDA"@]
}

pub open spec fn about_lines() -> Seq<Seq<char>> {
    seq!["ESTAS ATRAPADO EN UN COMPLEJO ABANDONADO"@, "UNA PARED ANOMALA DESPIERTA SI TE ACERCAS"@, "SI TE ALCANZA VUELVES AL INICIO"@, "RUN FROM YE ES UNA CARRERA DE TENSION"@, "EXPLORA RECOGE LA TARJETA Y ESCAPA"@]
}

/// Screen shown after a level is completed; it names the level when another one follows.
pub open spec fn level_success_layers(w: int, h: int, level_number: nat, has_next_level: bool) -> Seq<Layer> {
    let title = if has_next_level {
        "LEVEL "@ + decimal(level_number) + " SECURED"@
    } else {
        "ALL LEVELS SECURED"@
    };
    let subtitle = if has_next_level { "NEXT LEVEL READY"@ } else { "SITE FULLY CONTAINED"@ };
    let action = if has_next_level { "ENTER CONTINUE"@ } else { "ENTER MAIN MENU"@ };
    let pw = if 700 < sat_sub(w, 48) { 700 } else { sat_sub(w, 48) };
    let ph = if 180 < sat_sub(h, 220) { 180 } else { sat_sub(h, 220) };
    let px = sat_sub(w, pw) / 2;
    seq![
        centered_text_layer(w, title, 86, 7, 0xf5f3e7),
        centered_text_layer(w, subtitle, 150, 4, 0xffc857),
        rect_layer(px, 220, pw, ph, 0x4f6472),
        rect_layer(px + 3, 223, sat_sub(pw, 6), sat_sub(ph, 6), 0x10161b),
        rect_layer(px + 14, 234, 8, sat_sub(ph, 28), 0x52b788),
        rect_layer(px + sat_sub(pw, 22), 234, 8, sat_sub(ph, 28), 0x52b788),
        centered_text_layer(w, "ANOMALY ROUTE CLEARED"@, 268, 3, 0xbfd0d8),
        centered_text_layer(w, action, 310, 4, 0xffffff),
        centered_text_layer(w, "ESC MAIN MENU"@, sat_sub(h, 48), 3, 0x9db4c4),
    ]
}

/// The success screen's title: while another level follows it names the
/// level just secured, "LEVEL <n> SECURED"; after the last level it reads
/// "ALL LEVELS SECURED". Among the screen's layers, the first of these titles
/// (centered at row 86, scale 7, off-white) appears exactly when another level
/// follows, and the second exactly when none does.
pub proof fn lemma_success_title(w: int, h: int, n: nat, has_next_level: bool)
    ensures
        level_success_layers(w, h, n, has_next_level).contains(
            centered_text_layer(w, "LEVEL "@ + decimal(n) + " SECURED"@, 86, 7, 0xf5f3e7),
        ) <==> has_next_level,
        level_success_layers(w, h, n, has_next_level).contains(
            centered_text_layer(w, "ALL LEVELS SECURED"@, 86, 7, 0xf5f3e7),
        ) <==> !has_next_level,
{
    reveal_strlit("LEVEL ");
    reveal_strlit("ALL LEVELS SECURED");
    let layers = level_success_layers(w, h, n, has_next_level);
    let numbered: Seq<char> = "LEVEL "@ + decimal(n) + " SECURED"@;
    let all: Seq<char> = "ALL LEVELS SECURED"@;
    let numbered_layer = centered_text_layer(w, numbered, 86, 7, 0xf5f3e7);
    let all_layer = centered_text_layer(w, all, 86, 7, 0xf5f3e7);
    assert(numbered[0] == 'L');
    assert(all[0] == 'A');
    assert(numbered != all);
    if has_next_level {
        assert(layers[0] == numbered_layer);
        assert forall|j: int| 0 <= j < layers.len() implies layers[j] != all_layer by {
            if j == 0 {
                assert(layers[0].shape->text != all_layer.shape->text);
            }
        }
    } else {
        assert(layers[0] == all_layer);
        assert forall|j: int| 0 <= j < layers.len() implies layers[j] != numbered_layer by {
            if j == 0 {
                assert(layers[0].shape->text != numbered_layer.shape->text);
            }
        }
    }
}

impl Renderer {
    /// Fills a rectangle and records it as one more layer.
    fn rect_step(&mut self, x: usize, y: usize, w: usize, h: usize, color: u32, Ghost(m0): Ghost<FrameModel>, Ghost(layers): Ghost<Seq<Layer>>)
        requires
            old(self)@.drawn_over(m0, layers),
        ensures
            final(self)@.drawn_over(m0, layers.push(rect_layer(x as int, y as int, w as int, h as int, color))),
    {
        let ghost m1 = self@;
        self.fill_rect(x, y, w, h, color);
        proof {
            lemma_paint_step(m0, m1, self@, layers, rect_layer(x as int, y as int, w as int, h as int, color));
        }
    }

    /// Draws a text and records it as one more layer.
    fn text_step(&mut self, x: usize, y: usize, text: &str, color: u32, scale: usize, Ghost(m0): Ghost<FrameModel>, Ghost(layers): Ghost<Seq<Layer>>)
        requires
            old(self)@.drawn_over(m0, layers),
            x + text_width(text@.len() as int, scale as int) <= usize::MAX,
            y + 4 * scale <= usize::MAX,
        ensures
            final(self)@.drawn_over(m0, layers.push(text_layer(text@, x as int, y as int, scale as int, color))),
    {
        let ghost m1 = self@;
        self.draw_text(x, y, text, color, scale);
        proof {
            lemma_paint_step(m0, m1, self@, layers, text_layer(text@, x as int, y as int, scale as int, color));
        }
    }

    /// Title, framed panel with centred lines, and a hint to go back.
    fn draw_info_panel(&mut self, title: &str, lines: &[&str], Ghost(m0): Ghost<FrameModel>)
        requires
            m0.wf(),
            old(self)@.drawn_over(m0, seq![]),
            title@.len() <= 1000,
            lines@.len() <= 1000,
            forall|i: int| 0 <= i < lines@.len() ==> #[trigger] lines@[i]@.len() <= 1000,
        ensures
            final(self)@.drawn_over(m0, info_panel_layers(m0.width, m0.height, title@, lines@.map_values(|l: &str| l@))),
    {
        proof {
            reveal_strlit("ENTER O ESPACIO VOLVER");
        }
        let ghost none: Seq<Layer> = Seq::empty();
        self.centered_text_step(78, title, 0xf5f3e7, 6, Ghost(m0), Ghost(none));
        let ghost l1 = none.push(centered_text_layer(m0.width, title@, 78, 6, 0xf5f3e7));
        let panel_width = if 760 < self.width.saturating_sub(48) { 760 } else { self.width.saturating_sub(48) };
        let panel_height = if 300 < self.height.saturating_sub(180) { 300 } else { self.height.saturating_sub(180) };
        let panel_x = self.width.saturating_sub(panel_width) / 2;
        let panel_y: usize = 170;
        self.rect_step(panel_x, panel_y, panel_width, panel_height, 0x4f6472, Ghost(m0), Ghost(l1));
        let ghost l2 = l1.push(rect_layer(panel_x as int, 170, panel_width as int, panel_height as int, 0x4f6472));
        self.rect_step(panel_x + 3, panel_y + 3, panel_width.saturating_sub(6), panel_height.saturating_sub(6), 0x10161b, Ghost(m0), Ghost(l2));
        let ghost head = l2.push(rect_layer(panel_x + 3, 173, sat_sub(panel_width as int, 6), sat_sub(panel_height as int, 6), 0x10161b));
        let ghost all_lines = lines@.map_values(|l: &str| l@);
        let mut y = panel_y + 32;
        let mut index: usize = 0;
        while index < lines.len()
            invariant
                self@.drawn_over(m0, head + line_column(m0.width, 202, all_lines.take(index as int))),
                m0.wf(),
                index <= lines@.len(),
                lines@.len() <= 1000,
                y == 202 + 32 * index,
                all_lines == lines@.map_values(|l: &str| l@),
                forall|i: int| 0 <= i < lines@.len() ==> #[trigger] lines@[i]@.len() <= 1000,
            decreases lines@.len() - index,
        {
            let line = lines[index];
            assert(line@ == all_lines[index as int]);
            self.centered_text_step(y, line, 0xbfd0d8, 3, Ghost(m0), Ghost(head + line_column(m0.width, 202, all_lines.take(index as int))));
            proof {
                let t = all_lines.take(index + 1);
                assert(t.drop_last() == all_lines.take(index as int));
                assert((head + line_column(m0.width, 202, all_lines.take(index as int))).push(centered_text_layer(m0.width, line@, y as int, 3, 0xbfd0d8)) =~= head + line_column(m0.width, 202, t));
            }
            y += 32;
            index += 1;
        }
        assert(all_lines.take(lines@.len() as int) == all_lines);
        let ghost body = head + line_column(m0.width, 202, all_lines);
        let footer_y = self.height.saturating_sub(48);
        self.centered_text_step(footer_y, "ENTER O ESPACIO VOLVER", 0xffc857, 3, Ghost(m0), Ghost(body));
        proof {
            assert(body.push(centered_text_layer(m0.width, "ENTER O ESPACIO VOLVER"@, sat_sub(m0.height, 48), 3, 0xffc857)) =~= info_panel_layers(m0.width, m0.height, title@, all_lines));
        }
    }

    /// Controls and the immediate objective.
    pub fn render_instructions_screen(&mut self)
        requires
            old(self)@.wf(),
        ensures
            final(self)@.wf(),
            final(self)@.width == old(self)@.width,
            final(self)@.height == old(self)@.height,
            final(self)@.background == old(self)@.background,
            final(self)@.shows(info_panel_layers(old(self)@.width, old(self)@.height, "INSTRUCCIONES"@, instruction_lines()), |x: int, y: int| menu_background_pixel(old(self)@.width, old(self)@.height, x, y)),
    {
        proof {
            reveal_strlit("INSTRUCCIONES");
            reveal_strlit("W O FLECHA ARRIBA AVANZAR");
            reveal_strlit("S O FLECHA ABAJO RETROCEDER");
            reveal_strlit("A D O FLECHAS MOVERSE LATERAL");
            reveal_strlit("MOUSE GIRAR CAMARA");
            reveal_strlit("Q EMITIR SONIDO");
            reveal_strlit("BUSCA LA TARJETA ACTIVA EL TERMINAL");
            reveal_strlit("ABRE LA PUERTA Y LLEGA A LA SALIDA");
        }
        self.draw_menu_background();
        let ghost m0 = self@;
        proof {
            lemma_nothing_drawn(m0);
        }
        let lines = ["W O FLECHA ARRIBA AVANZAR", "S O FLECHA ABAJO RETROCEDER", "A D O FLECHAS MOVERSE LATERAL", "MOUSE GIRAR CAMARA", "Q EMITIR SONIDO", "BUSCA LA TARJETA ACTIVA EL TERMINAL", "ABRE LA PUERTA Y LLEGA A LA SALIDA"];
        assert(lines@.map_values(|l: &str| l@) =~= instruction_lines());
        self.draw_info_panel("INSTRUCCIONES", lines.as_slice(), Ghost(m0));
        proof {
            lemma_shows_over_base(m0, self@, info_panel_layers(m0.width, m0.height, "INSTRUCCIONES"@, instruction_lines()), |x: int, y: int| menu_background_pixel(m0.width, m0.height, x, y));
        }
    }

    /// What the game is about.
    pub fn render_about_screen(&mut self)
        requires
            old(self)@.wf(),
        ensures
            final(self)@.wf(),
            final(self)@.width == old(self)@.width,
            final(self)@.height == old(self)@.height,
            final(self)@.background == old(self)@.background,
            final(self)@.shows(info_panel_layers(old(self)@.width, old(self)@.height, "DE QUE TRATA"@, about_lines()), |x: int, y: int| menu_background_pixel(old(self)@.width, old(self)@.height, x, y)),
    {
        proof {
            reveal_strlit("DE QUE TRATA");
            reveal_strlit("ESTAS ATRAPADO EN UN COMPLEJO ABANDONADO");
            reveal_strlit("UNA PARED ANOMALA DESPIERTA SI TE ACERCAS");
            reveal_strlit("SI TE ALCANZA VUELVES AL INICIO");
            reveal_strlit("RUN FROM YE ES UNA CARRERA DE TENSION");
            reveal_strlit("EXPLORA RECOGE LA TARJETA Y ESCAPA");
        }
        self.draw_menu_background();
        let ghost m0 = self@;
        proof {
            lemma_nothing_drawn(m0);
        }
        let lines = ["ESTAS ATRAPADO EN UN COMPLEJO ABANDONADO", "UNA PARED ANOMALA DESPIERTA SI TE ACERCAS", "SI TE ALCANZA VUELVES AL INICIO", "RUN FROM YE ES UNA CARRERA DE TENSION", "EXPLORA RECOGE LA TARJETA Y ESCAPA"];
        assert(lines@.map_values(|l: &str| l@) =~= about_lines());
        self.draw_info_panel("DE QUE TRATA", lines.as_slice(), Ghost(m0));
        proof {
            lemma_shows_over_base(m0, self@, info_panel_layers(m0.width, m0.height, "DE QUE TRATA"@, about_lines()), |x: int, y: int| menu_background_pixel(m0.width, m0.height, x, y));
        }
    }

    /// Screen after completing a level; it names the level when another one follows.
    pub fn render_level_success_screen(&mut self, level_number: usize, has_next_level: bool)
        requires
            old(self)@.wf(),
        ensures
            final(self)@.wf(),
            final(self)@.width == old(self)@.width,
            final(self)@.height == old(self)@.height,
            final(self)@.background == old(self)@.background,
            final(self)@.shows(level_success_layers(old(self)@.width, old(self)@.height, level_number as nat, has_next_level), |x: int, y: int| menu_background_pixel(old(self)@.width, old(self)@.height, x, y)),
    {
        proof {
            reveal_strlit("LEVEL ");
            reveal_strlit(" SECURED");
            reveal_strlit("ALL LEVELS SECURED");
            reveal_strlit("NEXT LEVEL READY");
            reveal_strlit("SITE FULLY CONTAINED");
            reveal_strlit("ENTER CONTINUE");
            reveal_strlit("ENTER MAIN MENU");
            reveal_strlit("ANOMALY ROUTE CLEARED");
            reveal_strlit("ESC MAIN MENU");
        }
        self.draw_menu_background();
        let ghost m0 = self@;
        let ghost w = m0.width;
        let ghost h = m0.height;
        proof {
            lemma_nothing_drawn(m0);
        }
        let title = if has_next_level {
            let mut t = String::from_str("LEVEL ");
            let number = decimal_string(level_number as u64);
            proof {
                lemma_decimal_u64_len(level_number as u64);
            }
            t.append(number.as_str());
            t.append(" SECURED");
            t
        } else {
            String::from_str("ALL LEVELS SECURED")
        };
        let subtitle = if has_next_level { "NEXT LEVEL READY" } else { "SITE FULLY CONTAINED" };
        let action = if has_next_level { "ENTER CONTINUE" } else { "ENTER MAIN MENU" };
        let ghost none: Seq<Layer> = Seq::empty();
        self.centered_text_step(86, title.as_str(), 0xf5f3e7, 7, Ghost(m0), Ghost(none));
        let ghost l1 = none.push(centered_text_layer(w, title@, 86, 7, 0xf5f3e7));
        self.centered_text_step(150, subtitle, 0xffc857, 4, Ghost(m0), Ghost(l1));
        let ghost l2 = l1.push(centered_text_layer(w, subtitle@, 150, 4, 0xffc857));
        let panel_width = if 700 < self.width.saturating_sub(48) { 700 } else { self.width.saturating_sub(48) };
        let panel_height = if 180 < self.height.saturating_sub(220) { 180 } else { self.height.saturating_sub(220) };
        let panel_x = self.width.saturating_sub(panel_width) / 2;
        let panel_y: usize = 220;
        self.rect_step(panel_x, panel_y, panel_width, panel_height, 0x4f6472, Ghost(m0), Ghost(l2));
        let ghost l3 = l2.push(rect_layer(panel_x as int, 220, panel_width as int, panel_height as int, 0x4f6472));
        self.rect_step(panel_x + 3, panel_y + 3, panel_width.saturating_sub(6), panel_height.saturating_sub(6), 0x10161b, Ghost(m0), Ghost(l3));
        let ghost l4 = l3.push(rect_layer(panel_x + 3, 223, sat_sub(panel_width as int, 6), sat_sub(panel_height as int, 6), 0x10161b));
        self.rect_step(panel_x + 14, panel_y + 14, 8, panel_height.saturating_sub(28), 0x52b788, Ghost(m0), Ghost(l4));
        let ghost l5 = l4.push(rect_layer(panel_x + 14, 234, 8, sat_sub(panel_height as int, 28), 0x52b788));
        self.rect_step(panel_x + panel_width.saturating_sub(22), panel_y + 14, 8, panel_height.saturating_sub(28), 0x52b788, Ghost(m0), Ghost(l5));
        let ghost l6 = l5.push(rect_layer(panel_x + sat_sub(panel_width as int, 22), 234, 8, sat_sub(panel_height as int, 28), 0x52b788));
        self.centered_text_step(panel_y + 48, "ANOMALY ROUTE CLEARED", 0xbfd0d8, 3, Ghost(m0), Ghost(l6));
        let ghost l7 = l6.push(centered_text_layer(w, "ANOMALY ROUTE CLEARED"@, 268, 3, 0xbfd0d8));
        self.centered_text_step(panel_y + 90, action, 0xffffff, 4, Ghost(m0), Ghost(l7));
        let ghost l8 = l7.push(centered_text_layer(w, action@, 310, 4, 0xffffff));
        let footer_y = self.height.saturating_sub(48);
        self.centered_text_step(footer_y, "ESC MAIN MENU", 0x9db4c4, 3, Ghost(m0), Ghost(l8));
        proof {
            assert(l8.push(centered_text_layer(w, "ESC MAIN MENU"@, sat_sub(h, 48), 3, 0x9db4c4)) =~= level_success_layers(w, h, level_number as nat, has_next_level));
            lemma_shows_over_base(m0, self@, level_success_layers(w, h, level_number as nat, has_next_level), |x: int, y: int| menu_background_pixel(w, h, x, y));
        }
    }
}


/// Status line for the chaser.
pub open spec fn chaser_status_text(active: bool, repulsed: bool) -> Seq<char> {
    if repulsed {
        "ANOMALY REPULSED"@
    } else if active {
        "ANOMALY HUNTING"@
    } else {
        "ANOMALY DORMANT"@
    }
}

pub open spec fn chaser_status_color(active: bool, repulsed: bool) -> u32 {
    if repulsed {
        0xffc857
    } else if active {
        0xff6b6b
    } else {
        0xa9b4c4
    }
}

/// In-game overlay: frame rate, lives, card and door state, chaser state,
/// the current message and a key hint.
pub open spec fn hud_layers(h: int, fps: nat, lives: nat, has_key: bool, gate_open: bool, active: bool, repulsed: bool, message: Seq<char>) -> Seq<Layer> {
    seq![
        text_layer("FPS "@ + decimal(fps), 12, 12, 3, 0xffffff),
        text_layer("HP "@ + decimal(lives), 12, 34, 3, 0xfff0a3),
        text_layer(if has_key { "CARD YES"@ } else { "CARD NO"@ }, 12, 60, 2, 0xffdd57),
        text_layer(if gate_open { "DOOR OPEN"@ } else { "DOOR SHUT"@ }, 12, 78, 2, 0x9db4c4),
        text_layer(chaser_status_text(active, repulsed), 12, 96, 2, chaser_status_color(active, repulsed)),
        text_layer(message, 12, sat_sub(h, 34), 3, 0xffffff),
        text_layer("MOUSE TURN  A D STRAFE  Q SOUND  ESC EXIT"@, 12, sat_sub(h, 54), 2, 0xa9b4c4),
    ]
}

/// A lit pixel of a glyph lies in its 3 x 5 box of dots.
proof fn lemma_glyph_box(ch: char, x: int, y: int, s: int, px: int, py: int)
    requires
        s >= 0,
        in_glyph(ch, x, y, s, px, py),
    ensures
        x <= px < x + 3 * s,
        y <= py < y + 5 * s,
{
    let rows = glyph_rows(ch)->0;
    let (row, col) = choose|row: int, col: int|
        0 <= row < 5 && 0 <= col < 3 && #[trigger] row_bit(rows[row], col) && in_rect(x + col * s, y + row * s, s, s, px, py);
    assert(0 <= col * s && col * s + s <= 3 * s) by (nonlinear_arith)
        requires
            0 <= col < 3,
            s >= 0,
    ;
    assert(0 <= row * s && row * s + s <= 5 * s) by (nonlinear_arith)
        requires
            0 <= row < 5,
            s >= 0,
    ;
}

/// A lit pixel of a text lies in the box of one of its characters.
proof fn lemma_text_hit(text: Seq<char>, x: int, y: int, s: int, px: int, py: int) -> (i: int)
    requires
        s >= 0,
        in_text(text, x, y, s, px, py),
    ensures
        0 <= i < text.len(),
        in_glyph(text[i], x + 4 * s * i, y, s, px, py),
        x + 4 * s * i <= px < x + 4 * s * i + 3 * s,
        y <= py < y + 5 * s,
{
    let i = choose|i: int| 0 <= i < text.len() && #[trigger] in_glyph(text[i], x + 4 * s * i, y, s, px, py);
    lemma_glyph_box(text[i], x + 4 * s * i, y, s, px, py);
    i
}

/// A text layer drawn on other rows does not touch a pixel.
proof fn lemma_text_misses_row(text: Seq<char>, x: int, y: int, s: int, px: int, py: int)
    requires
        s >= 0,
        py < y || py >= y + 5 * s,
    ensures
        !covers(text_layer(text, x, y, s, 0).shape, px, py),
{
    if in_text(text, x, y, s, px, py) {
        lemma_text_hit(text, x, y, s, px, py);
    }
}

/// The card line of the HUD tells whether the access card is held: with the
/// card, "CARD YES" is drawn at (12, 60) in yellow, so the top-left dot of its
/// last letter, pixel (68, 60), turns yellow while pixel (54, 62), inside the
/// gap of its "Y", keeps what lay beneath; without the card "CARD NO" is
/// drawn, seven letters long, so (68, 60) keeps what lay beneath while (54,
/// 62), inside the "N", turns yellow. (The frame is tall enough that the
/// bottom lines do not reach the card line.)
pub proof fn lemma_hud_card_line(
    before: FrameModel,
    after: FrameModel,
    fps: nat,
    lives: nat,
    has_key: bool,
    gate_open: bool,
    active: bool,
    repulsed: bool,
    message: Seq<char>,
)
    requires
        after.drawn_over(before, hud_layers(before.height, fps, lives, has_key, gate_open, active, repulsed, message)),
        before.height >= 120,
        before.width >= 69,
    ensures
        after.pixel(68, 60) == if has_key { 0xffdd57u32 } else { before.pixel(68, 60) },
        after.pixel(54, 62) == if has_key { before.pixel(54, 62) } else { 0xffdd57u32 },
{
    reveal_strlit("CARD YES");
    reveal_strlit("CARD NO");
    let h = before.height;
    let layers = hud_layers(h, fps, lives, has_key, gate_open, active, repulsed, message);
    let base = |a: int, b: int| before.pixel(a, b);
    let card: Seq<char> = if has_key { "CARD YES"@ } else { "CARD NO"@ };
    assert(layers[2] == text_layer(card, 12, 60, 2, 0xffdd57));
    assert forall|j: int, qx: int, qy: int| 0 <= j < layers.len() && j != 2 && 60 <= qy <= 62 implies !#[trigger] covers(layers[j].shape, qx, qy) by {
        let l = layers[j];
        match l.shape {
            Shape::Text { text, x, y, scale } => {
                lemma_text_misses_row(text, x, y, scale, qx, qy);
            },
            _ => {},
        }
    }
    assert(after.in_frame(68, 60) && after.in_frame(54, 62));
    // Pixel (68, 60).
    if has_key {
        let rows_s = glyph_rows('S')->0;
        assert(row_bit(rows_s[0], 0) && in_rect(68int + 0int * 2, 60int + 0int * 2, 2, 2, 68, 60));
        assert(in_glyph(card[7], 12int + 4int * 2 * 7, 60, 2, 68, 60));
        assert(covers(layers[2].shape, 68, 60));
        lemma_layered_top(layers, base, 68, 60, 2);
    } else {
        if in_text(card, 12, 60, 2, 68, 60) {
            let i = lemma_text_hit(card, 12, 60, 2, 68, 60);
        }
        lemma_layered_uncovered(layers, base, 68, 60);
    }
    // Pixel (54, 62).
    if has_key {
        if in_text(card, 12, 60, 2, 54, 62) {
            let i = lemma_text_hit(card, 12, 60, 2, 54, 62);
            assert(i == 5);
            let rows_y = glyph_rows('Y')->0;
            let (row, col) = choose|row: int, col: int|
                0 <= row < 5 && 0 <= col < 3 && #[trigger] row_bit(rows_y[row], col) && in_rect(52 + col * 2, 60 + row * 2, 2, 2, 54, 62);
            assert(row == 1 && col == 1);
        }
        lemma_layered_uncovered(layers, base, 54, 62);
    } else {
        let rows_n = glyph_rows('N')->0;
        assert(row_bit(rows_n[1], 1) && in_rect(12int + 4int * 2 * 5 + 1int * 2, 60int + 1int * 2, 2, 2, 54, 62));
        assert(in_glyph(card[5], 12int + 4int * 2 * 5, 60, 2, 54, 62));
        assert(covers(layers[2].shape, 54, 62));
        lemma_layered_top(layers, base, 54, 62, 2);
    }
}

/// The HUD's status lines follow the state they report: the door line reads
/// "DOOR OPEN" exactly when the door is open and "DOOR SHUT" otherwise; the
/// chaser line reads "ANOMALY REPULSED" (amber) while it is repelled,
/// "ANOMALY HUNTING" (red) while it hunts and is not repelled, and "ANOMALY
/// DORMANT" (grey) otherwise; and the frame rate, the lives and the message
/// are always drawn.
pub proof fn lemma_hud_status_lines(h: int, fps: nat, lives: nat, has_key: bool, gate_open: bool, active: bool, repulsed: bool, message: Seq<char>)
    ensures
        hud_layers(h, fps, lives, has_key, gate_open, active, repulsed, message).contains(
            text_layer("DOOR OPEN"@, 12, 78, 2, 0x9db4c4),
        ) <==> gate_open,
        hud_layers(h, fps, lives, has_key, gate_open, active, repulsed, message).contains(
            text_layer("DOOR SHUT"@, 12, 78, 2, 0x9db4c4),
        ) <==> !gate_open,
        hud_layers(h, fps, lives, has_key, gate_open, active, repulsed, message).contains(
            text_layer("ANOMALY REPULSED"@, 12, 96, 2, 0xffc857),
        ) <==> repulsed,
        hud_layers(h, fps, lives, has_key, gate_open, active, repulsed, message).contains(
            text_layer("ANOMALY HUNTING"@, 12, 96, 2, 0xff6b6b),
        ) <==> (active && !repulsed),
        hud_layers(h, fps, lives, has_key, gate_open, active, repulsed, message).contains(
            text_layer("ANOMALY DORMANT"@, 12, 96, 2, 0xa9b4c4),
        ) <==> (!active && !repulsed),
        hud_layers(h, fps, lives, has_key, gate_open, active, repulsed, message).contains(
            text_layer("FPS "@ + decimal(fps), 12, 12, 3, 0xffffff),
        ),
        hud_layers(h, fps, lives, has_key, gate_open, active, repulsed, message).contains(
            text_layer("HP "@ + decimal(lives), 12, 34, 3, 0xfff0a3),
        ),
        hud_layers(h, fps, lives, has_key, gate_open, active, repulsed, message).contains(
            text_layer(message, 12, sat_sub(h, 34), 3, 0xffffff),
        ),
{
    reveal_strlit("DOOR OPEN");
    reveal_strlit("DOOR SHUT");
    reveal_strlit("ANOMALY REPULSED");
    reveal_strlit("ANOMALY HUNTING");
    reveal_strlit("ANOMALY DORMANT");
    reveal_strlit("MOUSE TURN  A D STRAFE  Q SOUND  ESC EXIT");
    let layers = hud_layers(h, fps, lives, has_key, gate_open, active, repulsed, message);
    let help: Seq<char> = "MOUSE TURN  A D STRAFE  Q SOUND  ESC EXIT"@;
    assert(layers[0] == text_layer("FPS "@ + decimal(fps), 12, 12, 3, 0xffffff));
    assert(layers[1] == text_layer("HP "@ + decimal(lives), 12, 34, 3, 0xfff0a3));
    assert(layers[5] == text_layer(message, 12, sat_sub(h, 34), 3, 0xffffff));
    let door = layers[3].shape->text;
    let status = layers[4].shape->text;
    assert(help[0] == 'M');
    let open: Seq<char> = "DOOR OPEN"@;
    let shut: Seq<char> = "DOOR SHUT"@;
    assert(open[5] == 'O' && shut[5] == 'S' && open[0] == 'D' && shut[0] == 'D');
    let rep: Seq<char> = "ANOMALY REPULSED"@;
    let hunt: Seq<char> = "ANOMALY HUNTING"@;
    let dorm: Seq<char> = "ANOMALY DORMANT"@;
    assert(rep[8] == 'R' && hunt[8] == 'H' && dorm[8] == 'D' && rep[0] == 'A' && hunt[0] == 'A' && dorm[0] == 'A');
    assert forall|j: int| 0 <= j < layers.len() && j != 3 && j != 4 implies !(#[trigger] layers[j].shape is Text
        && layers[j].shape->scale == 2 && (layers[j].shape->Text_y == 78 || layers[j].shape->Text_y == 96)
        && layers[j].shape->text.len() > 0 && layers[j].shape->text[0] != 'M') by {
        if j == 6 {
            assert(layers[6].shape->text == help);
        }
    }
    if gate_open {
        assert(door != shut) by { assert(door[5] != shut[5]); }
    } else {
        assert(door != open) by { assert(door[5] != open[5]); }
    }
    if repulsed {
        assert(status != hunt && status != dorm) by { assert(status[8] != hunt[8] && status[8] != dorm[8]); }
    } else if active {
        assert(status != rep && status != dorm) by { assert(status[8] != rep[8] && status[8] != dorm[8]); }
    } else {
        assert(status != rep && status != hunt) by { assert(status[8] != rep[8] && status[8] != hunt[8]); }
    }
    assert(layers[3] == text_layer(door, 12, 78, 2, 0x9db4c4));
    assert(layers[4] == text_layer(status, 12, 96, 2, chaser_status_color(active, repulsed)));
}

impl Renderer {
    /// Draws the in-game overlay.
    pub fn draw_hud(&mut self, map: &crate::map::GameMap, lives: u8, chaser_active: bool, chaser_repulsed: bool, fps: u32, message: &str)
        requires
            old(self)@.wf(),
            12 + text_width(message@.len() as int, 3) <= usize::MAX,
        ensures
            final(self)@.drawn_over(old(self)@, hud_layers(old(self)@.height, fps as nat, lives as nat, map@.has_key, map@.gate_open(), chaser_active, chaser_repulsed, message@)),
    {
        proof {
            reveal_strlit("FPS ");
            reveal_strlit("HP ");
            reveal_strlit("CARD YES");
            reveal_strlit("CARD NO");
            reveal_strlit("DOOR OPEN");
            reveal_strlit("DOOR SHUT");
            reveal_strlit("ANOMALY REPULSED");
            reveal_strlit("ANOMALY HUNTING");
            reveal_strlit("ANOMALY DORMANT");
            reveal_strlit("MOUSE TURN  A D STRAFE  Q SOUND  ESC EXIT");
            lemma_decimal_u64_len(fps as u64);
            lemma_decimal_u64_len(lives as u64);
        }
        let ghost m0 = self@;
        let ghost h = m0.height;
        proof {
            lemma_nothing_drawn(m0);
        }
        let mut fps_text = String::from_str("FPS ");
        let fps_digits = decimal_string(fps as u64);
        fps_text.append(fps_digits.as_str());
        let ghost none: Seq<Layer> = Seq::empty();
        self.text_step(12, 12, fps_text.as_str(), 0xffffff, 3, Ghost(m0), Ghost(none));
        let ghost l1 = none.push(text_layer(fps_text@, 12, 12, 3, 0xffffff));
        let mut lives_text = String::from_str("HP ");
        let lives_digits = decimal_string(lives as u64);
        lives_text.append(lives_digits.as_str());
        self.text_step(12, 34, lives_text.as_str(), 0xfff0a3, 3, Ghost(m0), Ghost(l1));
        let ghost l2 = l1.push(text_layer(lives_text@, 12, 34, 3, 0xfff0a3));
        let key_text = if map.has_key() { "CARD YES" } else { "CARD NO" };
        let gate_text = if map.gate_open() { "DOOR OPEN" } else { "DOOR SHUT" };
        self.text_step(12, 60, key_text, 0xffdd57, 2, Ghost(m0), Ghost(l2));
        let ghost l3 = l2.push(text_layer(key_text@, 12, 60, 2, 0xffdd57));
        self.text_step(12, 78, gate_text, 0x9db4c4, 2, Ghost(m0), Ghost(l3));
        let ghost l4 = l3.push(text_layer(gate_text@, 12, 78, 2, 0x9db4c4));
        let status_text = if chaser_repulsed {
            "ANOMALY REPULSED"
        } else if chaser_active {
            "ANOMALY HUNTING"
        } else {
            "ANOMALY DORMANT"
        };
        let status_color: u32 = if chaser_repulsed {
            0xffc857
        } else if chaser_active {
            0xff6b6b
        } else {
            0xa9b4c4
        };
        self.text_step(12, 96, status_text, status_color, 2, Ghost(m0), Ghost(l4));
        let ghost l5 = l4.push(text_layer(status_text@, 12, 96, 2, status_color));
        let message_y = self.height.saturating_sub(34);
        self.text_step(12, message_y, message, 0xffffff, 3, Ghost(m0), Ghost(l5));
        let ghost l6 = l5.push(text_layer(message@, 12, sat_sub(h, 34), 3, 0xffffff));
        let hint_y = self.height.saturating_sub(54);
        self.text_step(12, hint_y, "MOUSE TURN  A D STRAFE  Q SOUND  ESC EXIT", 0xa9b4c4, 2, Ghost(m0), Ghost(l6));
        proof {
            assert(l6.push(text_layer("MOUSE TURN  A D STRAFE  Q SOUND  ESC EXIT"@, 12, sat_sub(h, 54), 2, 0xa9b4c4)) =~= hud_layers(h, fps as nat, lives as nat, map@.has_key, map@.gate_open(), chaser_active, chaser_repulsed, message@));
        }
    }
}


/// Color of a tile on the minimap.
pub open spec fn minimap_color_spec(tile: u8) -> u32 {
    if tile == TILE_WALL {
        0x4a5a52
    } else if tile == TILE_GATE {
        0xffb703
    } else if tile == TILE_METAL {
        0x7c92a3
    } else if tile == TILE_RUINS {
        0x39b24a
    } else if tile == TILE_KEY {
        0xffdd57
    } else if tile == TILE_SWITCH {
        0x4cc9f0
    } else if tile == TILE_EXIT {
        0xb7efc5
    } else {
        0xc9d1c8
    }
}

/// Color of a tile on the minimap.
pub fn minimap_color(tile: u8) -> (c: u32)
    ensures
        c == minimap_color_spec(tile),
{
    if tile == TILE_WALL {
        0x4a5a52
    } else if tile == TILE_GATE {
        0xffb703
    } else if tile == TILE_METAL {
        0x7c92a3
    } else if tile == TILE_RUINS {
        0x39b24a
    } else if tile == TILE_KEY {
        0xffdd57
    } else if tile == TILE_SWITCH {
        0x4cc9f0
    } else if tile == TILE_EXIT {
        0xb7efc5
    } else {
        0xc9d1c8
    }
}

/// Minimap cell color: floor is dark, everything else by tile kind.
pub open spec fn minimap_cell_color(tile: u8) -> u32 {
    if tile == TILE_FLOOR {
        0x222834
    } else {
        minimap_color_spec(tile)
    }
}

/// Placement of the minimap in the top-right corner of the frame.
pub struct MinimapLayout {
    /// Pixels per map cell.
    pub scale: usize,
    pub origin_x: usize,
    pub origin_y: usize,
    /// Pixel width of the whole map.
    pub map_width: usize,
    /// Pixel height of the whole map.
    pub map_height: usize,
}

pub open spec fn max_int(a: int, b: int) -> int {
    if a > b {
        a
    } else {
        b
    }
}

pub open spec fn min_int(a: int, b: int) -> int {
    if a < b {
        a
    } else {
        b
    }
}

/// Largest cell size up to `MINIMAP_CELL_SIZE` pixels that fits the map in the frame (at least 1).
pub open spec fn minimap_scale(w: int, h: int, mw: int, mh: int) -> int {
    let fit_w = max_int(sat_sub(w, 2 * MINIMAP_PADDING), 1) / max_int(mw, 1);
    let fit_h = max_int(sat_sub(h, 2 * MINIMAP_PADDING), 1) / max_int(mh, 1);
    max_int(min_int(min_int(MINIMAP_CELL_SIZE as int, fit_w), fit_h), 1)
}

impl MinimapLayout {
    pub open spec fn is_layout_for(self, w: int, h: int, mw: int, mh: int) -> bool {
        &&& self.scale == minimap_scale(w, h, mw, mh)
        &&& self.map_width == mw * self.scale
        &&& self.map_height == mh * self.scale
        &&& self.origin_x == sat_sub(w, self.map_width + MINIMAP_PADDING)
        &&& self.origin_y == MINIMAP_PADDING
    }
}

/// One minimap cell.
pub open spec fn minimap_cell_layer(m: crate::map::MapModel, l: MinimapLayout, x: int, y: int) -> Layer {
    let cell = max_int(l.scale - 1, 1);
    rect_layer(l.origin_x + x * l.scale, l.origin_y + y * l.scale, cell, cell, minimap_cell_color(m.displayed_tile(x, y)))
}

/// Cells of the first `rows` map rows, row by row.
pub open spec fn minimap_cells(m: crate::map::MapModel, l: MinimapLayout, rows: nat) -> Seq<Layer>
    decreases rows,
{
    if rows == 0 {
        seq![]
    } else {
        minimap_cells(m, l, (rows - 1) as nat) + Seq::new(m.width as nat, |x: int| minimap_cell_layer(m, l, x, rows - 1))
    }
}

/// Dark frame behind the map, then one square per cell.
pub open spec fn minimap_layers(m: crate::map::MapModel, l: MinimapLayout) -> Seq<Layer> {
    seq![rect_layer(sat_sub(l.origin_x as int, 4), MINIMAP_PADDING - 4, l.map_width + 8, l.map_height + 8, 0x101319)] + minimap_cells(m, l, m.height as nat)
}

/// The last layer that covers a pixel gives its color.
proof fn lemma_layered_top(layers: Seq<Layer>, base: spec_fn(int, int) -> u32, px: int, py: int, k: int)
    requires
        0 <= k < layers.len(),
        covers(layers[k].shape, px, py),
        forall|j: int| k < j < layers.len() ==> !covers(#[trigger] layers[j].shape, px, py),
    ensures
        layered(layers, base, px, py) == layers[k].color,
    decreases layers.len(),
{
    if k < layers.len() - 1 {
        let rest = layers.drop_last();
        assert(!covers(layers[layers.len() - 1].shape, px, py));
        assert forall|j: int| k < j < rest.len() implies !covers(#[trigger] rest[j].shape, px, py) by {
            assert(rest[j] == layers[j]);
        }
        lemma_layered_top(rest, base, px, py, k);
    }
}

/// A pixel that no layer covers keeps its base color.
proof fn lemma_layered_uncovered(layers: Seq<Layer>, base: spec_fn(int, int) -> u32, px: int, py: int)
    requires
        forall|j: int| 0 <= j < layers.len() ==> !covers(#[trigger] layers[j].shape, px, py),
    ensures
        layered(layers, base, px, py) == base(px, py),
    decreases layers.len(),
{
    if layers.len() > 0 {
        let rest = layers.drop_last();
        assert(!covers(layers[layers.len() - 1].shape, px, py));
        assert forall|j: int| 0 <= j < rest.len() implies !covers(#[trigger] rest[j].shape, px, py) by {
            assert(rest[j] == layers[j]);
        }
        lemma_layered_uncovered(rest, base, px, py);
    }
}

/// The cells of the first `rows` rows, row by row: cell `(c, r)` is at index
/// `r * width + c`.
proof fn lemma_minimap_cells_index(m: crate::map::MapModel, l: MinimapLayout, rows: nat)
    requires
        m.width > 0,
    ensures
        minimap_cells(m, l, rows).len() == rows * m.width,
        forall|r: int, c: int|
            0 <= r < rows && 0 <= c < m.width ==> #[trigger] minimap_cells(m, l, rows)[r * m.width + c]
                == minimap_cell_layer(m, l, c, r),
    decreases rows,
{
    if rows > 0 {
        let prev = (rows - 1) as nat;
        lemma_minimap_cells_index(m, l, prev);
        let row = Seq::new(m.width as nat, |x: int| minimap_cell_layer(m, l, x, rows - 1));
        assert(minimap_cells(m, l, rows) == minimap_cells(m, l, prev) + row);
        assert(prev * m.width + m.width == rows * m.width) by (nonlinear_arith)
            requires
                prev == rows - 1,
        ;
        assert forall|r: int, c: int| 0 <= r < rows && 0 <= c < m.width implies #[trigger] minimap_cells(m, l, rows)[r * m.width + c]
            == minimap_cell_layer(m, l, c, r) by {
            if r < prev {
                assert(r * m.width + c < prev * m.width) by (nonlinear_arith)
                    requires
                        r < prev,
                        0 <= c < m.width,
                ;
            } else {
                assert(r == prev);
            }
        }
    }
}

/// The position of cell `(c, r)` in reading order follows that of `(x, y)`
/// exactly when its flat index is larger.
proof fn lemma_reading_order(w: int, x: int, y: int, c: int, r: int)
    requires
        0 <= x < w,
        0 <= c < w,
        r * w + c > y * w + x,
    ensures
        r > y || (r == y && c > x),
{
    if r < y {
        assert(r * w + c < y * w) by (nonlinear_arith)
            requires
                r < y,
                0 <= c < w,
        ;
    }
}

/// Each cell of the minimap shows the map: the top-left pixel of the square
/// drawn for cell `(x, y)` has the color of the tile displayed at `(x, y)`
/// (floor dark blue, wall grey-green, door amber, metal steel blue, ruins
/// green, card yellow, terminal cyan, exit pale green, anything else light
/// grey), whatever lay beneath.
pub proof fn lemma_minimap_cell_shows_tile(
    before: FrameModel,
    after: FrameModel,
    m: crate::map::MapModel,
    l: MinimapLayout,
    x: int,
    y: int,
)
    requires
        m.width > 0,
        l.is_layout_for(before.width, before.height, m.width, m.height),
        after.drawn_over(before, minimap_layers(m, l)),
        0 <= x < m.width,
        0 <= y < m.height,
        after.in_frame(l.origin_x + x * l.scale, l.origin_y + y * l.scale),
    ensures
        after.pixel(l.origin_x + x * l.scale, l.origin_y + y * l.scale) == {
            let t = m.displayed_tile(x, y);
            if t == TILE_FLOOR {
                0x222834u32
            } else if t == TILE_WALL {
                0x4a5a52u32
            } else if t == TILE_GATE {
                0xffb703u32
            } else if t == TILE_METAL {
                0x7c92a3u32
            } else if t == TILE_RUINS {
                0x39b24au32
            } else if t == TILE_KEY {
                0xffdd57u32
            } else if t == TILE_SWITCH {
                0x4cc9f0u32
            } else if t == TILE_EXIT {
                0xb7efc5u32
            } else {
                0xc9d1c8u32
            }
        },
{
    let w = m.width;
    let s = l.scale;
    let px = l.origin_x + x * s;
    let py = l.origin_y + y * s;
    let layers = minimap_layers(m, l);
    let cells = minimap_cells(m, l, m.height as nat);
    lemma_minimap_cells_index(m, l, m.height as nat);
    assert(s >= 1);
    let k = 1 + y * w + x;
    assert(y * w + x < m.height * w) by (nonlinear_arith)
        requires
            0 <= x < w,
            0 <= y < m.height,
    ;
    assert(0 <= y * w) by (nonlinear_arith)
        requires
            0 <= y,
            w > 0,
    ;
    assert(layers[k] == cells[y * w + x]);
    assert(covers(layers[k].shape, px, py));
    assert forall|j: int| k < j < layers.len() implies !covers(#[trigger] layers[j].shape, px, py) by {
        let t = j - 1;
        let r = t / w;
        let c = t % w;
        vstd::arithmetic::div_mod::lemma_fundamental_div_mod(t, w);
        vstd::arithmetic::div_mod::lemma_mod_pos_bound(t, w);
        assert(t == r * w + c) by (nonlinear_arith)
            requires
                t == w * r + c,
        ;
        assert(0 <= r < m.height) by (nonlinear_arith)
            requires
                t == r * w + c,
                0 <= c < w,
                0 <= t < m.height * w,
        ;
        assert(layers[j] == cells[r * w + c]);
        lemma_reading_order(w, x, y, c, r);
        if r > y {
            assert(r * s >= y * s + s) by (nonlinear_arith)
                requires
                    r >= y + 1,
                    s >= 1,
            ;
        } else {
            assert(c * s >= x * s + s) by (nonlinear_arith)
                requires
                    c >= x + 1,
                    s >= 1,
            ;
        }
    }
    lemma_layered_top(layers, |a: int, b: int| before.pixel(a, b), px, py, k);
}

proof fn lemma_minimap_extent(w: int, mw: int, scale: int, fit: int)
    requires
        w >= 0,
        mw >= 1,
        scale >= 1,
        fit == max_int(sat_sub(w, 2 * MINIMAP_PADDING), 1) / mw,
        scale == 1 || scale <= fit,
    ensures
        mw * scale <= max_int(w, mw),
        mw * scale >= mw,
{
    if scale > 1 {
        assert(scale * mw <= max_int(sat_sub(w, 2 * MINIMAP_PADDING), 1)) by (nonlinear_arith)
            requires
                scale <= fit,
                fit == max_int(sat_sub(w, 2 * MINIMAP_PADDING), 1) / mw,
                mw >= 1,
        ;
    }
    assert(mw * scale >= mw) by (nonlinear_arith)
        requires
            scale >= 1,
            mw >= 1,
    ;
}

impl Renderer {
    /// Draws the minimap grid and tells where it was placed.
    pub fn draw_minimap_grid(&mut self, map: &crate::map::GameMap) -> (layout: MinimapLayout)
        requires
            old(self)@.wf(),
        ensures
            layout.is_layout_for(old(self)@.width, old(self)@.height, map@.width, map@.height),
            final(self)@.drawn_over(old(self)@, minimap_layers(map@, layout)),
    {
        let ghost m0 = self@;
        let map_w = map.width();
        let map_h = map.height();
        let fit_w = (if self.width.saturating_sub(2 * MINIMAP_PADDING) > 1 { self.width.saturating_sub(2 * MINIMAP_PADDING) } else { 1 }) / map_w;
        let fit_h = (if self.height.saturating_sub(2 * MINIMAP_PADDING) > 1 { self.height.saturating_sub(2 * MINIMAP_PADDING) } else { 1 }) / map_h;
        let mut scale: usize = MINIMAP_CELL_SIZE;
        if fit_w < scale {
            scale = fit_w;
        }
        if fit_h < scale {
            scale = fit_h;
        }
        if scale < 1 {
            scale = 1;
        }
        proof {
            lemma_minimap_extent(m0.width, map_w as int, scale as int, fit_w as int);
            lemma_minimap_extent(m0.height, map_h as int, scale as int, fit_h as int);
        }
        let map_width = map_w * scale;
        let map_height = map_h * scale;
        let origin_x = self.width.saturating_sub(map_width + MINIMAP_PADDING);
        let origin_y: usize = MINIMAP_PADDING;
        let cell_size = if scale - 1 > 1 { scale - 1 } else { 1 };
        let layout = MinimapLayout { scale, origin_x, origin_y, map_width, map_height };
        proof {
            lemma_nothing_drawn(m0);
        }
        let ghost none: Seq<Layer> = Seq::empty();
        self.rect_step(origin_x.saturating_sub(4), origin_y - 4, map_width + 8, map_height + 8, 0x101319, Ghost(m0), Ghost(none));
        let ghost head = seq![rect_layer(sat_sub(origin_x as int, 4), MINIMAP_PADDING - 4, map_width + 8, map_height + 8, 0x101319)];
        assert(none.push(rect_layer(sat_sub(origin_x as int, 4), MINIMAP_PADDING - 4, map_width + 8, map_height + 8, 0x101319)) =~= head);
        let mut y: usize = 0;
        while y < map_h
            invariant
                self@.drawn_over(m0, head + minimap_cells(map@, layout, y as nat)),
                y <= map_h,
                map_w == map@.width,
                map_h == map@.height,
                map_w <= i32::MAX,
                map_h <= i32::MAX,
                m0.width <= i32::MAX,
                m0.height <= i32::MAX,
                scale >= 1,
                map_w * scale <= max_int(m0.width, map_w as int),
                map_h * scale <= max_int(m0.height, map_h as int),
                layout.scale == scale,
                layout.origin_x == origin_x,
                layout.origin_y == MINIMAP_PADDING,
                origin_y == MINIMAP_PADDING,
                origin_x <= m0.width,
                cell_size == max_int(scale - 1, 1),
            decreases map_h - y,
        {
            let mut x: usize = 0;
            while x < map_w
                invariant
                    self@.drawn_over(m0, head + minimap_cells(map@, layout, y as nat) + Seq::new(map_w as nat, |c: int| minimap_cell_layer(map@, layout, c, y as int)).take(x as int)),
                    x <= map_w,
                    y < map_h,
                    map_w == map@.width,
                    map_h == map@.height,
                    map_w <= i32::MAX,
                    map_h <= i32::MAX,
                    m0.width <= i32::MAX,
                    m0.height <= i32::MAX,
                    scale >= 1,
                    map_w * scale <= max_int(m0.width, map_w as int),
                    map_h * scale <= max_int(m0.height, map_h as int),
                    layout.scale == scale,
                    layout.origin_x == origin_x,
                    layout.origin_y == MINIMAP_PADDING,
                    origin_y == MINIMAP_PADDING,
                    origin_x <= m0.width,
                    cell_size == max_int(scale - 1, 1),
                decreases map_w - x,
            {
                let tile = map.displayed_tile_at(x as i32, y as i32);
                let color = if tile == TILE_FLOOR { 0x222834 } else { minimap_color(tile) };
                assert(x * scale <= map_w * scale && y * scale <= map_h * scale) by (nonlinear_arith)
                    requires
                        x < map_w,
                        y < map_h,
                        scale >= 1,
                ;
                let ghost row = Seq::new(map_w as nat, |c: int| minimap_cell_layer(map@, layout, c, y as int));
                let ghost before = head + minimap_cells(map@, layout, y as nat) + row.take(x as int);
                self.rect_step(origin_x + x * scale, origin_y + y * scale, cell_size, cell_size, color, Ghost(m0), Ghost(before));
                proof {
                    assert(row[x as int] == minimap_cell_layer(map@, layout, x as int, y as int));
                    assert(before.push(rect_layer((origin_x + x * scale) as int, (origin_y + y * scale) as int, cell_size as int, cell_size as int, color)) =~= head + minimap_cells(map@, layout, y as nat) + row.take(x + 1));
                }
                x += 1;
            }
            proof {
                let row = Seq::new(map_w as nat, |c: int| minimap_cell_layer(map@, layout, c, y as int));
                assert(row.take(map_w as int) == row);
                assert(head + minimap_cells(map@, layout, y as nat) + row =~= head + minimap_cells(map@, layout, (y + 1) as nat));
            }
            y += 1;
        }
        layout
    }
}


pub open spec fn abs_int(v: int) -> int {
    if v < 0 {
        -v
    } else {
        v
    }
}

/// One step of the integer line walk from `(x0, y0)` to `(x1, y1)`: the
/// state is the current pixel and the error term.
pub open spec fn line_step(x0: int, y0: int, x1: int, y1: int, s: (int, int, int)) -> (int, int, int) {
    let dx = abs_int(x1 - x0);
    let dy = -abs_int(y1 - y0);
    let sx = if x0 < x1 { 1int } else { -1int };
    let sy = if y0 < y1 { 1int } else { -1int };
    let e2 = 2 * s.2;
    let (x, err) = if e2 >= dy { (s.0 + sx, s.2 + dy) } else { (s.0, s.2) };
    let (y, err) = if e2 <= dx { (s.1 + sy, err + dx) } else { (s.1, err) };
    (x, y, err)
}

/// State of the line walk after `n` steps.
pub open spec fn line_walk(x0: int, y0: int, x1: int, y1: int, n: nat) -> (int, int, int)
    decreases n,
{
    if n == 0 {
        (x0, y0, abs_int(x1 - x0) - abs_int(y1 - y0))
    } else {
        line_step(x0, y0, x1, y1, line_walk(x0, y0, x1, y1, (n - 1) as nat))
    }
}

/// The walk has not reached `(x1, y1)` in its first `k` states.
pub open spec fn walk_open(x0: int, y0: int, x1: int, y1: int, k: nat) -> bool {
    forall|j: nat| j < k ==> #[trigger] line_walk(x0, y0, x1, y1, j).0 != x1 || line_walk(x0, y0, x1, y1, j).1 != y1
}

/// Pixel `(px, py)` lies on the line from `(x0, y0)` to `(x1, y1)`: the walk
/// passes it no later than its first arrival at `(x1, y1)`.
pub open spec fn on_line(x0: int, y0: int, x1: int, y1: int, px: int, py: int) -> bool {
    exists|k: nat| walk_open(x0, y0, x1, y1, k) && #[trigger] line_walk(x0, y0, x1, y1, k).0 == px && line_walk(x0, y0, x1, y1, k).1 == py
}

/// A step of the walk away from the end point moves at least one coordinate
/// towards it, never past it, and keeps the error term in range.
proof fn lemma_line_step(dx: int, ady: int, i: int, j: int, err: int)
    requires
        dx >= 0,
        ady >= 0,
        0 <= i <= dx,
        0 <= j <= ady,
        !(i == dx && j == ady),
        err == dx * (1 + j) - ady * (1 + i),
        -3 * ady <= 2 * err <= 3 * dx,
    ensures
        ({
            let e2 = 2 * err;
            let xs = e2 >= -ady;
            let ys = e2 <= dx;
            let i2 = if xs { i + 1 } else { i };
            let j2 = if ys { j + 1 } else { j };
            let err2 = err + (if xs { -ady } else { 0 }) + (if ys { dx } else { 0 });
            &&& xs || ys
            &&& i2 <= dx
            &&& j2 <= ady
            &&& err2 == dx * (1 + j2) - ady * (1 + i2)
            &&& -3 * ady <= 2 * err2 <= 3 * dx
        }),
{
    assert(dx * (1 + j) - ady * (1 + i) == dx + dx * j - ady - ady * i) by (nonlinear_arith);
    assert(dx * (1 + (j + 1)) == dx * (1 + j) + dx) by (nonlinear_arith);
    assert(ady * (1 + (i + 1)) == ady * (1 + i) + ady) by (nonlinear_arith);
    if i == dx {
        assert(dx * j <= dx * (ady - 1)) by (nonlinear_arith)
            requires
                j <= ady - 1,
                dx >= 0,
        ;
        assert(ady * dx == dx * ady) by (nonlinear_arith);
        assert(dx * (ady - 1) == dx * ady - dx) by (nonlinear_arith);
    }
    if j == ady {
        assert(ady * i <= ady * (dx - 1)) by (nonlinear_arith)
            requires
                i <= dx - 1,
                ady >= 0,
        ;
        assert(ady * (dx - 1) == ady * dx - ady) by (nonlinear_arith);
        assert(ady * dx == dx * ady) by (nonlinear_arith);
    }
}

impl Renderer {
    /// Draws the line from `(start_x, start_y)` to `(end_x, end_y)` with the
    /// integer error-term walk; pixels with a negative coordinate are skipped.
    pub fn draw_line(&mut self, start_x: i32, start_y: i32, end_x: i32, end_y: i32, color: u32)
        requires
            old(self)@.wf(),
            abs_int(end_x - start_x) <= 0x2aaa_aaaa,
            abs_int(end_y - start_y) <= 0x2aaa_aaaa,
        ensures
            final(self)@.wf(),
            final(self)@.painted(old(self)@, |px: int, py: int| px >= 0 && py >= 0 && on_line(start_x as int, start_y as int, end_x as int, end_y as int, px, py), color),
    {
        let ghost (x0, y0, x1, y1) = (start_x as int, start_y as int, end_x as int, end_y as int);
        let ghost start = self@;
        let mut x = start_x;
        let mut y = start_y;
        let dx = if end_x >= start_x { end_x - start_x } else { start_x - end_x };
        let sx: i32 = if start_x < end_x { 1 } else { -1 };
        let dy = if end_y >= start_y { start_y - end_y } else { end_y - start_y };
        let sy: i32 = if start_y < end_y { 1 } else { -1 };
        let mut err = dx + dy;
        let ghost mut n: nat = 0;
        let ghost mut i: int = 0;
        let ghost mut j: int = 0;
        let ghost ady: int = -dy;
        assert(err == dx * (1 + j) - ady * (1 + i)) by (nonlinear_arith)
            requires
                i == 0,
                j == 0,
                err == dx + dy,
                ady == -dy,
        ;
        loop
            invariant_except_break
                forall|px: int, py: int| self@.in_frame(px, py) ==> #[trigger] self@.pixel(px, py) == if px >= 0 && py >= 0 && exists|k: nat| k < n && #[trigger] line_walk(x0, y0, x1, y1, k).0 == px && line_walk(x0, y0, x1, y1, k).1 == py {
                    color
                } else {
                    start.pixel(px, py)
                },
            invariant
                self@.wf(),
                self@.width == start.width,
                self@.height == start.height,
                self@.background == start.background,
                x0 == start_x,
                y0 == start_y,
                x1 == end_x,
                y1 == end_y,
                dx == abs_int(x1 - x0),
                dy == -abs_int(y1 - y0),
                dx <= 0x2aaa_aaaa,
                ady <= 0x2aaa_aaaa,
                ady == -dy,
                sx == (if x0 < x1 { 1int } else { -1int }),
                sy == (if y0 < y1 { 1int } else { -1int }),
                (x as int, y as int, err as int) == line_walk(x0, y0, x1, y1, n),
                walk_open(x0, y0, x1, y1, n),
                0 <= i <= dx,
                0 <= j <= ady,
                x == x0 + sx * i,
                y == y0 + sy * j,
                err == dx * (1 + j) - ady * (1 + i),
                -3 * ady <= 2 * err <= 3 * dx,
            ensures
                self@.wf(),
                self@.width == start.width,
                self@.height == start.height,
                self@.background == start.background,
                forall|px: int, py: int| self@.in_frame(px, py) ==> #[trigger] self@.pixel(px, py) == if px >= 0 && py >= 0 && on_line(x0, y0, x1, y1, px, py) {
                    color
                } else {
                    start.pixel(px, py)
                },
            decreases (dx - i) + (ady - j),
        {
            let ghost before = self@;
            if x >= 0 && y >= 0 {
                self.put_pixel(x as usize, y as usize, color);
            }
            proof {
                assert forall|px: int, py: int| self@.in_frame(px, py) implies #[trigger] self@.pixel(px, py) == if px >= 0 && py >= 0 && exists|k: nat| k < n + 1 && #[trigger] line_walk(x0, y0, x1, y1, k).0 == px && line_walk(x0, y0, x1, y1, k).1 == py {
                    color
                } else {
                    start.pixel(px, py)
                } by {
                    assert(before.in_frame(px, py));
                    if px == x && py == y {
                        assert(line_walk(x0, y0, x1, y1, n).0 == px && line_walk(x0, y0, x1, y1, n).1 == py);
                    }
                    if exists|k: nat| k < n + 1 && #[trigger] line_walk(x0, y0, x1, y1, k).0 == px && line_walk(x0, y0, x1, y1, k).1 == py {
                        let k = choose|k: nat| k < n + 1 && #[trigger] line_walk(x0, y0, x1, y1, k).0 == px && line_walk(x0, y0, x1, y1, k).1 == py;
                        if k < n {
                        } else {
                            assert(k == n);
                        }
                    }
                }
            }
            if x == end_x && y == end_y {
                proof {
                    assert forall|px: int, py: int| self@.in_frame(px, py) implies #[trigger] self@.pixel(px, py) == if px >= 0 && py >= 0 && on_line(x0, y0, x1, y1, px, py) {
                        color
                    } else {
                        start.pixel(px, py)
                    } by {
                        if on_line(x0, y0, x1, y1, px, py) {
                            let k = choose|k: nat| walk_open(x0, y0, x1, y1, k) && #[trigger] line_walk(x0, y0, x1, y1, k).0 == px && line_walk(x0, y0, x1, y1, k).1 == py;
                            if k > n {
                                assert(line_walk(x0, y0, x1, y1, n).0 != x1 || line_walk(x0, y0, x1, y1, n).1 != y1);
                            }
                            assert(k < n + 1);
                        }
                        if exists|k: nat| k < n + 1 && #[trigger] line_walk(x0, y0, x1, y1, k).0 == px && line_walk(x0, y0, x1, y1, k).1 == py {
                            let k = choose|k: nat| k < n + 1 && #[trigger] line_walk(x0, y0, x1, y1, k).0 == px && line_walk(x0, y0, x1, y1, k).1 == py;
                            assert forall|jj: nat| jj < k implies #[trigger] line_walk(x0, y0, x1, y1, jj).0 != x1 || line_walk(x0, y0, x1, y1, jj).1 != y1 by {
                                assert(jj < n);
                            }
                            assert(walk_open(x0, y0, x1, y1, k));
                        }
                    }
                }
                break;
            }
            proof {
                assert(!(i == dx && j == ady)) by {
                    if i == dx && j == ady {
                        if x0 < x1 {
                            assert(sx * i == i);
                        } else {
                            assert(sx == -1);
                            assert(sx * i == -i) by (nonlinear_arith)
                                requires
                                    sx == -1,
                            ;
                        }
                        if y0 < y1 {
                            assert(sy * j == j);
                        } else {
                            assert(sy == -1);
                            assert(sy * j == -j) by (nonlinear_arith)
                                requires
                                    sy == -1,
                            ;
                        }
                        assert(x == x1 && y == y1);
                    }
                }
                lemma_line_step(dx as int, ady, i, j, err as int);
            }
            let twice_err = 2 * err;
            assert(sx * (i + 1) == sx * i + sx && sy * (j + 1) == sy * j + sy) by (nonlinear_arith);
            if twice_err >= dy {
                err += dy;
                x += sx;
                proof {
                    i = i + 1;
                }
            }
            if twice_err <= dx {
                err += dx;
                y += sy;
                proof {
                    j = j + 1;
                }
            }
            proof {
                assert forall|jj: nat| jj < n + 1 implies #[trigger] line_walk(x0, y0, x1, y1, jj).0 != x1 || line_walk(x0, y0, x1, y1, jj).1 != y1 by {
                    if jj < n {
                    }
                }
                n = n + 1;
            }
        }
    }
}

} // verus!
