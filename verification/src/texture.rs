//! Procedural wall textures: each texel of a 64x64 tile is computed from its
//! coordinates, so no image files are needed for walls.

use vstd::prelude::*;
use vstd::wrapping::usize_specs::{wrapping_add, wrapping_mul};
use crate::map::{TILE_GATE, TILE_METAL, TILE_RUINS, TILE_WALL};

verus! {

/// Side of every square texture.
pub const TEXTURE_SIZE: usize = 64;

/// A channel value cut down to 255.
pub open spec fn channel(v: int) -> int {
    if v < 255 {
        v
    } else {
        255
    }
}

/// `0xRRGGBB` packing of three non-negative channels, each cut down to 255.
pub open spec fn pack_rgb(r: int, g: int, b: int) -> int {
    channel(r) * 65536 + channel(g) * 256 + channel(b)
}

/// A signed channel value clamped to `0..=255`.
pub open spec fn clamp_byte(v: int) -> int {
    if v < 0 {
        0
    } else if v > 255 {
        255
    } else {
        v
    }
}

/// Every packed color is a 24-bit `0xRRGGBB` value.
pub open spec fn is_color(c: u32) -> bool {
    c <= 0xff_ffff
}

/// Packs three channels, each cut down to 255, into `0xRRGGBB`.
pub fn rgb(r: u32, g: u32, b: u32) -> (c: u32)
    ensures
        c == pack_rgb(r as int, g as int, b as int),
        is_color(c),
{
    let r = if r < 255 {
        r
    } else {
        255
    };
    let g = if g < 255 {
        g
    } else {
        255
    };
    let b = if b < 255 {
        b
    } else {
        255
    };
    assert((r << 16) | (g << 8) | b == r * 65536 + g * 256 + b) by (bit_vector)
        requires
            r <= 255,
            g <= 255,
            b <= 255,
    ;
    (r << 16) | (g << 8) | b
}

/// Packs three signed channels, each clamped to `0..=255`.
pub fn rgb_i(r: i32, g: i32, b: i32) -> (c: u32)
    ensures
        c == pack_rgb(clamp_byte(r as int), clamp_byte(g as int), clamp_byte(b as int)),
        is_color(c),
{
    rgb(clamp_channel(r), clamp_channel(g), clamp_channel(b))
}

fn clamp_channel(v: i32) -> (c: u32)
    ensures
        c == clamp_byte(v as int),
{
    if v < 0 {
        0
    } else if v > 255 {
        255
    } else {
        v as u32
    }
}

/// Distance between two naturals.
fn gap(a: usize, b: usize) -> (d: usize)
    ensures
        d == if a >= b {
            a - b
        } else {
            b - a
        },
{
    if a >= b {
        a - b
    } else {
        b - a
    }
}

pub open spec fn gap_spec(a: int, b: int) -> int {
    if a >= b {
        a - b
    } else {
        b - a
    }
}

/// Small deterministic hash, in `0..16`, used to vary texel brightness.
pub open spec fn noise_spec(x: usize, y: usize, seed: usize) -> u8 {
    let v0 = wrapping_add(
        wrapping_add(wrapping_mul(x, 73_856_093), wrapping_mul(y, 19_349_663)),
        wrapping_mul(seed, 83_492_791),
    );
    let v1 = v0 ^ (v0 >> 13usize);
    let v2 = wrapping_mul(v1, 1_274_126_177);
    ((v2 >> 24usize) & 0x0f) as u8
}

fn noise(x: usize, y: usize, seed: usize) -> (n: u8)
    ensures
        n == noise_spec(x, y, seed),
        n < 16,
{
    let mut value = x.wrapping_mul(73_856_093).wrapping_add(y.wrapping_mul(19_349_663)).wrapping_add(
        seed.wrapping_mul(83_492_791),
    );
    value ^= value >> 13;
    value = value.wrapping_mul(1_274_126_177);
    let v = value;
    assert((v >> 24usize) & 0x0f < 16) by (bit_vector);
    ((value >> 24) & 0x0f) as u8
}

/// Truncating halving, as integer division rounds towards zero.
pub open spec fn half_toward_zero(v: int) -> int {
    if v >= 0 {
        v / 2
    } else {
        -((-v) / 2)
    }
}

/// Concrete blocks with mortar joints, every other row shifted by half a block.
pub open spec fn stone_brick_spec(x: int, y: int) -> int {
    let row = y / 16;
    let shifted_x = (x + (row % 2) * 16) % 64;
    let mortar = y % 16 == 0 || y % 16 == 15 || shifted_x % 32 == 0 || shifted_x % 32 == 31;
    let grain = noise_spec(x as usize, y as usize, 11) - 4;
    if mortar {
        pack_rgb(24, 27, 26)
    } else {
        pack_rgb(clamp_byte(118 + grain), clamp_byte(128 + grain), clamp_byte(118 + grain))
    }
}

/// Containment door: hazard-striped frame, rivets and a centre seam.
pub open spec fn gate_spec(x: int, y: int) -> int {
    let border = x < 4 || x > 59 || y < 4 || y > 59;
    let hazard_stripe = ((x + y) / 6) % 2 == 0;
    let rivet = gap_spec(x % 16, 8) <= 2 && gap_spec(y % 16, 8) <= 2;
    let center_seam = gap_spec(x, 32) < 2;
    if rivet {
        pack_rgb(255, 214, 74)
    } else if center_seam {
        pack_rgb(18, 18, 20)
    } else if border {
        if hazard_stripe {
            pack_rgb(255, 196, 0)
        } else {
            pack_rgb(20, 20, 22)
        }
    } else {
        pack_rgb(46, 49, 53)
    }
}

/// Maintenance panel with seams, rivets and scratches.
pub open spec fn metal_panel_spec(x: int, y: int) -> int {
    let seam = x % 32 == 0 || y % 32 == 0;
    let rivet_centered = gap_spec(x % 32, 16) <= 3 && gap_spec(y % 32, 16) <= 3;
    let scratch = (x * 3 + y * 5) % 29 == 0 || (x + y * 2) % 37 == 0;
    let grain = noise_spec(x as usize, y as usize, 29) - 5;
    if rivet_centered {
        pack_rgb(226, 232, 235)
    } else if seam {
        pack_rgb(28, 32, 35)
    } else if scratch {
        pack_rgb(200, 210, 214)
    } else {
        pack_rgb(clamp_byte(120 + grain), clamp_byte(130 + grain), clamp_byte(138 + grain))
    }
}

/// Collapsed sector with cracks and organic growth near the floor.
pub open spec fn cracked_ruins_spec(x: int, y: int) -> int {
    let block_line = x % 21 == 0 || y % 18 == 0;
    let crack = (x * 5 + y * 9) % 41 < 2 || gap_spec(x * 11, y * 7) % 53 < 2;
    let growth = y > 42 && noise_spec(x as usize, y as usize, 7) > 10;
    let grain = noise_spec(x as usize, y as usize, 43) - 7;
    if growth {
        pack_rgb(58, 138, 46)
    } else if crack {
        pack_rgb(8, 9, 8)
    } else if block_line {
        pack_rgb(46, 52, 46)
    } else {
        pack_rgb(
            clamp_byte(96 + half_toward_zero(grain)),
            clamp_byte(108 + grain),
            clamp_byte(96 + half_toward_zero(grain)),
        )
    }
}

/// Checkerboard for unknown tiles.
pub open spec fn fallback_spec(x: int, y: int) -> int {
    if (x / 8 + y / 8) % 2 == 0 {
        pack_rgb(210, 210, 210)
    } else {
        pack_rgb(180, 180, 180)
    }
}

/// Color of texel `(x, y)` of a blocking tile; coordinates wrap every 64 texels.
pub open spec fn wall_texel_spec(tile: u8, x: int, y: int) -> int {
    let x = x % 64;
    let y = y % 64;
    if tile == TILE_WALL {
        stone_brick_spec(x, y)
    } else if tile == TILE_GATE {
        gate_spec(x, y)
    } else if tile == TILE_METAL {
        metal_panel_spec(x, y)
    } else if tile == TILE_RUINS {
        cracked_ruins_spec(x, y)
    } else {
        fallback_spec(x, y)
    }
}

/// Color of texel `(x, y)` of a blocking tile; the texture repeats every 64
/// texels in both directions.
pub fn wall_texel(tile: u8, x: usize, y: usize) -> (c: u32)
    ensures
        c == wall_texel_spec(tile, x as int, y as int),
        is_color(c),
{
    let x = x % TEXTURE_SIZE;
    let y = y % TEXTURE_SIZE;
    if tile == TILE_WALL {
        stone_brick(x, y)
    } else if tile == TILE_GATE {
        gate(x, y)
    } else if tile == TILE_METAL {
        metal_panel(x, y)
    } else if tile == TILE_RUINS {
        cracked_ruins(x, y)
    } else {
        fallback(x, y)
    }
}

fn stone_brick(x: usize, y: usize) -> (c: u32)
    requires
        x < 64,
        y < 64,
    ensures
        c == stone_brick_spec(x as int, y as int),
        is_color(c),
{
    let row = y / 16;
    let shifted_x = (x + (row % 2) * 16) % TEXTURE_SIZE;
    let mortar = y % 16 == 0 || y % 16 == 15 || shifted_x % 32 == 0 || shifted_x % 32 == 31;
    let grain = noise(x, y, 11) as i32 - 4;
    if mortar {
        rgb(24, 27, 26)
    } else {
        rgb_i(118 + grain, 128 + grain, 118 + grain)
    }
}

fn gate(x: usize, y: usize) -> (c: u32)
    requires
        x < 64,
        y < 64,
    ensures
        c == gate_spec(x as int, y as int),
        is_color(c),
{
    let border = x < 4 || x > 59 || y < 4 || y > 59;
    let hazard_stripe = ((x as i32 + y as i32) / 6) % 2 == 0;
    let rivet = gap(x % 16, 8) <= 2 && gap(y % 16, 8) <= 2;
    let center_seam = gap(x, TEXTURE_SIZE / 2) < 2;
    if rivet {
        rgb(255, 214, 74)
    } else if center_seam {
        rgb(18, 18, 20)
    } else if border {
        if hazard_stripe {
            rgb(255, 196, 0)
        } else {
            rgb(20, 20, 22)
        }
    } else {
        rgb(46, 49, 53)
    }
}

fn metal_panel(x: usize, y: usize) -> (c: u32)
    requires
        x < 64,
        y < 64,
    ensures
        c == metal_panel_spec(x as int, y as int),
        is_color(c),
{
    let seam = x % 32 == 0 || y % 32 == 0;
    let rivet_centered = gap(x % 32, 16) <= 3 && gap(y % 32, 16) <= 3;
    let scratch = (x * 3 + y * 5) % 29 == 0 || (x + y * 2) % 37 == 0;
    let grain = noise(x, y, 29) as i32 - 5;
    if rivet_centered {
        rgb(226, 232, 235)
    } else if seam {
        rgb(28, 32, 35)
    } else if scratch {
        rgb(200, 210, 214)
    } else {
        rgb_i(120 + grain, 130 + grain, 138 + grain)
    }
}

fn cracked_ruins(x: usize, y: usize) -> (c: u32)
    requires
        x < 64,
        y < 64,
    ensures
        c == cracked_ruins_spec(x as int, y as int),
        is_color(c),
{
    let block_line = x % 21 == 0 || y % 18 == 0;
    let crack = (x * 5 + y * 9) % 41 < 2 || gap(x * 11, y * 7) % 53 < 2;
    let growth = y > 42 && noise(x, y, 7) > 10;
    let grain = noise(x, y, 43) as i32 - 7;
    if growth {
        rgb(58, 138, 46)
    } else if crack {
        rgb(8, 9, 8)
    } else if block_line {
        rgb(46, 52, 46)
    } else {
        rgb_i(96 + grain / 2, 108 + grain, 96 + grain / 2)
    }
}

fn fallback(x: usize, y: usize) -> (c: u32)
    requires
        x < 64,
        y < 64,
    ensures
        c == fallback_spec(x as int, y as int),
        is_color(c),
{
    if (x / 8 + y / 8) % 2 == 0 {
        rgb(210, 210, 210)
    } else {
        rgb(180, 180, 180)
    }
}

/// Textures repeat every 64 texels in both directions.
pub proof fn lemma_wall_texel_repeats(tile: u8, x: nat, y: nat)
    ensures
        wall_texel_spec(tile, x + 64int, y as int) == wall_texel_spec(tile, x as int, y as int),
        wall_texel_spec(tile, x as int, y + 64int) == wall_texel_spec(tile, x as int, y as int),
{
    assert((x + 64) % 64 == x % 64);
    assert((y + 64) % 64 == y % 64);
}

} // verus!
