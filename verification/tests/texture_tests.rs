use run_from_ye::map::{TILE_FLOOR, TILE_GATE, TILE_KEY, TILE_METAL, TILE_RUINS, TILE_WALL};
use run_from_ye::texture::{rgb, rgb_i, wall_texel, TEXTURE_SIZE};

// Independent model of the wall patterns, written from their description,
// used as an oracle over the whole texture.

fn pack(r: i64, g: i64, b: i64) -> u32 {
    let c = |v: i64| v.max(0).min(255) as u32;
    (c(r) << 16) | (c(g) << 8) | c(b)
}

fn hash_noise(x: usize, y: usize, seed: usize) -> i64 {
    let mut v = x
        .wrapping_mul(73_856_093)
        .wrapping_add(y.wrapping_mul(19_349_663))
        .wrapping_add(seed.wrapping_mul(83_492_791));
    v ^= v >> 13;
    v = v.wrapping_mul(1_274_126_177);
    ((v >> 24) & 15) as i64
}

fn dist(a: usize, b: usize) -> usize {
    if a > b {
        a - b
    } else {
        b - a
    }
}

fn oracle(tile: u8, x: usize, y: usize) -> u32 {
    let (x, y) = (x % 64, y % 64);
    if tile == TILE_WALL {
        let sx = (x + ((y / 16) % 2) * 16) % 64;
        let joint = y % 16 == 0 || y % 16 == 15 || sx % 32 == 0 || sx % 32 == 31;
        let n = hash_noise(x, y, 11) - 4;
        if joint {
            pack(24, 27, 26)
        } else {
            pack(118 + n, 128 + n, 118 + n)
        }
    } else if tile == TILE_GATE {
        if dist(x % 16, 8) <= 2 && dist(y % 16, 8) <= 2 {
            pack(255, 214, 74)
        } else if dist(x, 32) < 2 {
            pack(18, 18, 20)
        } else if x < 4 || x > 59 || y < 4 || y > 59 {
            if ((x + y) / 6) % 2 == 0 {
                pack(255, 196, 0)
            } else {
                pack(20, 20, 22)
            }
        } else {
            pack(46, 49, 53)
        }
    } else if tile == TILE_METAL {
        let n = hash_noise(x, y, 29) - 5;
        if dist(x % 32, 16) <= 3 && dist(y % 32, 16) <= 3 {
            pack(226, 232, 235)
        } else if x % 32 == 0 || y % 32 == 0 {
            pack(28, 32, 35)
        } else if (x * 3 + y * 5) % 29 == 0 || (x + y * 2) % 37 == 0 {
            pack(200, 210, 214)
        } else {
            pack(120 + n, 130 + n, 138 + n)
        }
    } else if tile == TILE_RUINS {
        let n = hash_noise(x, y, 43) - 7;
        if y > 42 && hash_noise(x, y, 7) > 10 {
            pack(58, 138, 46)
        } else if (x * 5 + y * 9) % 41 < 2 || dist(x * 11, y * 7) % 53 < 2 {
            pack(8, 9, 8)
        } else if x % 21 == 0 || y % 18 == 0 {
            pack(46, 52, 46)
        } else {
            // Integer division truncates toward zero for the halved grain.
            pack(96 + n / 2, 108 + n, 96 + n / 2)
        }
    } else if (x / 8 + y / 8) % 2 == 0 {
        pack(210, 210, 210)
    } else {
        pack(180, 180, 180)
    }
}

#[test]
fn every_texel_of_every_tile_matches_the_patterns() {
    for tile in 0u8..=12 {
        for y in 0..128usize {
            for x in 0..128usize {
                assert_eq!(wall_texel(tile, x, y), oracle(tile, x, y), "tile {} at ({}, {})", tile, x, y);
            }
        }
    }
}

#[test]
fn textures_repeat_every_texture_size() {
    for tile in [TILE_WALL, TILE_GATE, TILE_METAL, TILE_RUINS, TILE_FLOOR] {
        for (x, y) in [(0usize, 0usize), (5, 9), (63, 63), (31, 40)] {
            let base = wall_texel(tile, x, y);
            assert_eq!(wall_texel(tile, x + TEXTURE_SIZE, y), base);
            assert_eq!(wall_texel(tile, x, y + 3 * TEXTURE_SIZE), base);
            assert_eq!(wall_texel(tile, x + 1000 * TEXTURE_SIZE, y + 7 * TEXTURE_SIZE), base);
        }
    }
}

#[test]
fn texels_are_24_bit_colors() {
    for tile in 0u8..=12 {
        for y in 0..64usize {
            for x in 0..64usize {
                assert!(wall_texel(tile, x, y) <= 0xff_ffff);
            }
        }
    }
}

#[test]
fn known_texels() {
    // Mortar line at the top of every brick row.
    assert_eq!(wall_texel(TILE_WALL, 5, 0), 0x181b1a);
    // Rivet in the middle of a gate tile.
    assert_eq!(wall_texel(TILE_GATE, 8, 8), 0xffd64a);
    // Middle line of the door.
    assert_eq!(wall_texel(TILE_GATE, 31, 20), 0x121214);
    // Yellow and black bands on the door frame.
    assert_eq!(wall_texel(TILE_GATE, 0, 1), 0xffc400);
    assert_eq!(wall_texel(TILE_GATE, 1, 6), 0x141416);
    // Plain gate panel.
    assert_eq!(wall_texel(TILE_GATE, 20, 30), 0x2e3135);
    // Metal rivet and seam.
    assert_eq!(wall_texel(TILE_METAL, 16, 16), 0xe2e8eb);
    assert_eq!(wall_texel(TILE_METAL, 0, 5), 0x1c2023);
    // Fallback checkerboard for tiles that are not walls.
    assert_eq!(wall_texel(TILE_KEY, 0, 0), 0xd2d2d2);
    assert_eq!(wall_texel(TILE_KEY, 8, 0), 0xb4b4b4);
}

#[test]
fn rgb_packs_and_saturates_channels() {
    assert_eq!(rgb(0x12, 0x34, 0x56), 0x123456);
    assert_eq!(rgb(300, 255, 1000), 0xffffff);
    assert_eq!(rgb(0, 0, 0), 0);
    assert_eq!(rgb(u32::MAX, 0, 7), 0xff0007);
}

#[test]
fn rgb_i_clamps_to_the_byte_range() {
    assert_eq!(rgb_i(-5, 128, 300), 0x0080ff);
    assert_eq!(rgb_i(i32::MIN, i32::MAX, 17), 0x00ff11);
    assert_eq!(rgb_i(118, 128, 118), 0x768076);
}
