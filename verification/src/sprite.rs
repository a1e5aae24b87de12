//! Billboard sprite images: color keying and nearest-neighbour sampling.

use vstd::prelude::*;
use crate::texture::{rgb, pack_rgb, is_color};

verus! {

/// Magenta marks transparent sprite pixels.
pub const TRANSPARENT_KEY: u32 = 0xff00ff;

/// Whether a sprite pixel is the transparent key color.
pub fn is_chaser_texture_transparent(color: u32) -> (b: bool)
    ensures
        b == (color == TRANSPARENT_KEY),
{
    color == TRANSPARENT_KEY
}

/// Packed sprite pixel of an RGBA sample: nearly transparent samples (alpha
/// below 16) become the transparent key, the rest keep their color.
pub open spec fn keyed_color(red: u8, green: u8, blue: u8, alpha: u8) -> int {
    if alpha < 16 {
        TRANSPARENT_KEY as int
    } else {
        pack_rgb(red as int, green as int, blue as int)
    }
}

/// Packed sprite pixel of an RGBA sample (see `keyed_color`).
pub fn sprite_pixel(red: u8, green: u8, blue: u8, alpha: u8) -> (c: u32)
    ensures
        c == keyed_color(red, green, blue, alpha),
{
    if alpha < 16 {
        TRANSPARENT_KEY
    } else {
        rgb(red as u32, green as u32, blue as u32)
    }
}

/// Red-shifted tint used while the chaser hunts: red raised by 42 (up to
/// 255), green and blue cut to 72%.
pub open spec fn alert_tint_spec(color: u32) -> int {
    let r = (color as int / 65536) % 256;
    let g = (color as int / 256) % 256;
    let b = color as int % 256;
    pack_rgb(r + 42, g * 72 / 100, b * 72 / 100)
}

pub fn alert_tint(color: u32) -> (c: u32)
    ensures
        c == alert_tint_spec(color),
        is_color(c),
{
    let r = (color >> 16) & 0xff;
    let g = (color >> 8) & 0xff;
    let b = color & 0xff;
    assert(r == (color as int / 65536) % 256 && g == (color as int / 256) % 256 && b == color as int % 256) by {
        assert((color >> 16) & 0xff == (color / 65536) % 256) by (bit_vector);
        assert((color >> 8) & 0xff == (color / 256) % 256) by (bit_vector);
        assert(color & 0xff == color % 256) by (bit_vector);
    }
    let red = if r + 42 < 255 { r + 42 } else { 255 };
    let green = if g * 72 / 100 < 255 { g * 72 / 100 } else { 255 };
    let blue = if b * 72 / 100 < 255 { b * 72 / 100 } else { 255 };
    rgb(red, green, blue)
}

/// Mathematical content of a sprite image.
pub struct SpriteModel {
    pub width: int,
    pub height: int,
    pub pixels: Seq<u32>,
}

impl SpriteModel {
    pub open spec fn wf(self) -> bool {
        &&& 0 < self.width <= i32::MAX
        &&& 0 < self.height <= i32::MAX
        &&& self.pixels.len() == self.width * self.height
        &&& self.width * self.height <= usize::MAX
    }

    /// Texel under local position `(lx, ly)` of a sprite drawn `size` pixels wide.
    pub open spec fn texel_at(self, lx: int, ly: int, size: int) -> u32 {
        let tx = min_int(lx * self.width / size, self.width - 1);
        let ty = min_int(ly * self.height / size, self.height - 1);
        self.pixels[ty * self.width + tx]
    }

    /// Color seen at local position `(lx, ly)`: `None` outside the square and
    /// where the texel is transparent.
    pub open spec fn sample_spec(self, lx: int, ly: int, size: int) -> Option<u32> {
        if lx < 0 || ly < 0 || lx >= size || ly >= size {
            None
        } else if self.texel_at(lx, ly, size) == TRANSPARENT_KEY {
            None
        } else {
            Some(self.texel_at(lx, ly, size))
        }
    }
}

/// The image row or column that nearest-neighbour scaling picks: `k` is the
/// pick for screen position `v` of a span `size` pixels long over `n` image
/// pixels exactly when `k * size <= v * n < (k + 1) * size`; that pick lies
/// inside the image for every `v` inside the span.
proof fn lemma_scaled_pick(v: int, n: int, size: int, k: int)
    requires
        0 <= v < size,
        n > 0,
        k * size <= v * n < (k + 1) * size,
    ensures
        k == v * n / size,
        0 <= k < n,
{
    assert((k + 1) * size == k * size + size) by (nonlinear_arith);
    vstd::arithmetic::div_mod::lemma_fundamental_div_mod_converse(v * n, size, k, v * n - k * size);
    assert(0 <= k < n) by (nonlinear_arith)
        requires
            0 <= v < size,
            n > 0,
            k * size <= v * n < (k + 1) * size,
    ;
}

/// Sampling a sprite drawn `size` pixels wide: outside the square nothing is
/// shown; inside, position `(lx, ly)` shows the image pixel in column `c` and
/// row `r` where `c * size <= lx * width < (c + 1) * size` and
/// `r * size <= ly * height < (r + 1) * size` (columns scale with the image
/// width, rows with its height), unless that pixel is the transparent key.
pub proof fn lemma_sample_picks_scaled_texel(m: SpriteModel, lx: int, ly: int, size: int, c: int, r: int)
    requires
        m.wf(),
        0 <= lx < size,
        0 <= ly < size,
        c * size <= lx * m.width < (c + 1) * size,
        r * size <= ly * m.height < (r + 1) * size,
    ensures
        0 <= c < m.width,
        0 <= r < m.height,
        m.sample_spec(lx, ly, size) == if m.pixels[r * m.width + c] == TRANSPARENT_KEY {
            None
        } else {
            Some(m.pixels[r * m.width + c])
        },
{
    lemma_scaled_pick(lx, m.width, size, c);
    lemma_scaled_pick(ly, m.height, size, r);
}

/// Nothing is shown outside the square of side `size`.
pub proof fn lemma_sample_outside_is_empty(m: SpriteModel, lx: int, ly: int, size: int)
    requires
        !(0 <= lx < size && 0 <= ly < size),
    ensures
        m.sample_spec(lx, ly, size) is None,
{
}

pub open spec fn min_int(a: int, b: int) -> int {
    if a < b {
        a
    } else {
        b
    }
}

/// Image used as a billboard sprite.
pub struct SpriteTexture {
    width: usize,
    height: usize,
    pixels: Vec<u32>,
}

impl View for SpriteTexture {
    type V = SpriteModel;

    closed spec fn view(&self) -> SpriteModel {
        SpriteModel { width: self.width as int, height: self.height as int, pixels: self.pixels@ }
    }
}

impl SpriteTexture {
    /// Wraps `width * height` packed pixels, row by row.
    pub fn new(width: usize, height: usize, pixels: Vec<u32>) -> (t: Self)
        requires
            0 < width <= i32::MAX,
            0 < height <= i32::MAX,
            pixels@.len() == width * height,
        ensures
            t@ == (SpriteModel { width: width as int, height: height as int, pixels: pixels@ }),
            t@.wf(),
    {
        let _ = pixels.len();
        SpriteTexture { width, height, pixels }
    }

    /// Image width in pixels.
    pub fn width(&self) -> (w: usize)
        ensures
            w == self@.width,
    {
        self.width
    }

    /// Image height in pixels.
    pub fn height(&self) -> (h: usize)
        ensures
            h == self@.height,
    {
        self.height
    }

    /// Nearest texel for local position `(local_x, local_y)` of a sprite drawn
    /// `size` pixels wide; `None` outside it and where the image is transparent.
    pub fn sample(&self, local_x: i32, local_y: i32, size: i32) -> (c: Option<u32>)
        requires
            self@.wf(),
            size * self@.width <= usize::MAX,
            size * self@.height <= usize::MAX,
        ensures
            c == self@.sample_spec(local_x as int, local_y as int, size as int),
    {
        if local_x < 0 || local_y < 0 || local_x >= size || local_y >= size {
            return None;
        }
        let divisor = size as usize;
        assert(local_x * self.width <= size * self.width && local_y * self.height <= size * self.height) by (nonlinear_arith)
            requires
                0 <= local_x < size,
                0 <= local_y < size,
        ;
        let scaled_x = local_x as usize * self.width / divisor;
        let scaled_y = local_y as usize * self.height / divisor;
        let texture_x = if scaled_x < self.width - 1 { scaled_x } else { self.width - 1 };
        let texture_y = if scaled_y < self.height - 1 { scaled_y } else { self.height - 1 };
        proof {
            crate::map::lemma_cell_idx_bounds(self.width as int, self.height as int, texture_x as int, texture_y as int);
        }
        let color = self.pixels[texture_y * self.width + texture_x];
        if is_chaser_texture_transparent(color) {
            None
        } else {
            Some(color)
        }
    }
}

/// Sprite of a decoded `width` x `height` image whose RGBA bytes are `rgba`,
/// row by row: each pixel keyed as `keyed_color` says.
pub open spec fn keyed_sprite(width: int, height: int, rgba: Seq<u8>) -> SpriteModel {
    SpriteModel {
        width,
        height,
        pixels: Seq::new(
            (width * height) as nat,
            |i: int| keyed_color(rgba[4 * i], rgba[4 * i + 1], rgba[4 * i + 2], rgba[4 * i + 3]) as u32,
        ),
    }
}

/// What the `image` crate decodes from the bytes of an image file, its format
/// told by its leading bytes: width, height and 8-bit RGBA bytes row by row,
/// or `None` where it reports an error.
pub uninterp spec fn decoded_rgba8(bytes: Seq<u8>) -> Option<(u32, u32, Seq<u8>)>;

/// Decodes an image file held in memory with the `image` crate: the format
/// comes from `image::guess_format` (the table of leading bytes only), the
/// decoding from `image::load_from_memory_with_format` with that built-in
/// format, and the pixels from `to_rgba8`, `dimensions` and `into_raw`. Neither
/// call reads the crate's run-time hook tables, which are reached only for
/// formats named by a file extension. Claimed: the result depends on the bytes
/// alone and is `None` exactly where the crate reports an error; nothing is
/// claimed of the dimensions or of the byte count.
#[verifier::external_body]
fn decode_rgba8(bytes: &[u8]) -> (image: Option<(u32, u32, Vec<u8>)>)
    ensures
        match image {
            Some(t) => decoded_rgba8(bytes@) == Some((t.0, t.1, t.2@)),
            None => decoded_rgba8(bytes@) is None,
        },
{
    let format = match image::guess_format(bytes) {
        Ok(format) => format,
        Err(_) => return None,
    };
    match image::load_from_memory_with_format(bytes, format) {
        Ok(decoded) => {
            let rgba = decoded.to_rgba8();
            let (width, height) = rgba.dimensions();
            Some((width, height, rgba.into_raw()))
        },
        Err(_) => None,
    }
}

/// Sprite of a decoded `width` x `height` image with 8-bit RGBA bytes `rgba`,
/// row by row: `None` when the image is empty, wider or taller than
/// `i32::MAX`, or when `rgba` does not hold four bytes per pixel.
pub fn sprite_from_rgba8(width: u32, height: u32, rgba: &[u8]) -> (t: Option<SpriteTexture>)
    ensures
        if 0 < width <= i32::MAX && 0 < height <= i32::MAX && rgba@.len() == 4 * width * height {
            (t matches Some(s) && s@ == keyed_sprite(width as int, height as int, rgba@))
        } else {
            t is None
        },
{
    let raw_len = rgba.len();
    if width == 0 || height == 0 || width > 0x7fff_ffff || height > 0x7fff_ffff {
        return None;
    }
    let w = width as usize;
    let h = height as usize;
    let count = match w.checked_mul(h) {
        Some(c) => c,
        None => {
            proof {
                assert(4 * w * h > usize::MAX) by (nonlinear_arith)
                    requires
                        w * h > usize::MAX,
                ;
            }
            return None;
        },
    };
    proof {
        assert(4 * w * h == count * 4) by (nonlinear_arith)
            requires
                count == w * h,
        ;
    }
    let bytes_needed = match count.checked_mul(4) {
        Some(b) => b,
        None => return None,
    };
    if raw_len != bytes_needed {
        return None;
    }
    let mut pixels: Vec<u32> = Vec::new();
    let mut i: usize = 0;
    while i < count
        invariant
            count == w * h,
            rgba@.len() == 4 * count,
            4 * count <= usize::MAX,
            i <= count,
            pixels@.len() == i,
            forall|k: int| 0 <= k < i ==> #[trigger] pixels@[k] == keyed_color(rgba@[4 * k], rgba@[4 * k + 1], rgba@[4 * k + 2], rgba@[4 * k + 3]),
        decreases count - i,
    {
        assert(4 * i + 3 < 4 * count);
        let at = 4 * i;
        let c = sprite_pixel(rgba[at], rgba[at + 1], rgba[at + 2], rgba[at + 3]);
        pixels.push(c);
        i += 1;
    }
    let texture = SpriteTexture::new(w, h, pixels);
    proof {
        let m = keyed_sprite(w as int, h as int, rgba@);
        assert(texture@.pixels =~= m.pixels);
    }
    Some(texture)
}

/// Sprite of an image file's bytes: `None` when the bytes do not decode,
/// otherwise the sprite of the decoded image (see `sprite_from_rgba8`).
pub fn sprite_from_bytes(bytes: &[u8]) -> (t: Option<SpriteTexture>)
    ensures
        match decoded_rgba8(bytes@) {
            None => t is None,
            Some(d) => if 0 < d.0 <= i32::MAX && 0 < d.1 <= i32::MAX && d.2.len() == 4 * d.0 * d.1 {
                (t matches Some(s) && s@ == keyed_sprite(d.0 as int, d.1 as int, d.2))
            } else {
                t is None
            },
        },
{
    match decode_rgba8(bytes) {
        None => None,
        Some((width, height, rgba)) => sprite_from_rgba8(width, height, rgba.as_slice()),
    }
}

} // verus!
