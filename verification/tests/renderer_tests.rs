use run_from_ye::map::{GameMap, TILE_EXIT, TILE_FLOOR, TILE_GATE, TILE_KEY, TILE_METAL, TILE_RUINS, TILE_SWITCH, TILE_WALL};
use run_from_ye::renderer::{decimal_string, minimap_color, text_pixel_width, Renderer};

fn px(r: &Renderer, x: usize, y: usize) -> u32 {
    r.buffer()[y * r.width() + x]
}

fn channels(r: u32, g: u32, b: u32) -> u32 {
    (r << 16) | (g << 8) | b
}

#[test]
fn new_frame_shows_the_gradient_background() {
    let r = Renderer::new(960, 540);
    assert_eq!(r.width(), 960);
    assert_eq!(r.height(), 540);
    assert_eq!(r.buffer().len(), 960 * 540);
    // Ceiling: 10 + y * 16 / 270, greenish.
    assert_eq!(px(&r, 0, 0), channels(10, 15, 12));
    assert_eq!(px(&r, 959, 0), channels(10, 15, 12));
    assert_eq!(px(&r, 3, 269), channels(25, 30, 27));
    // Floor: 26 - depth * 14 / 270, plus a tint.
    assert_eq!(px(&r, 0, 270), channels(32, 34, 32));
    assert_eq!(px(&r, 100, 539), channels(19, 21, 19));
    // Every row is flat.
    for y in 0..540 {
        let first = px(&r, 0, y);
        for x in 0..960 {
            assert_eq!(px(&r, x, y), first);
        }
    }
}

#[test]
fn empty_and_tiny_frames() {
    let r = Renderer::new(0, 0);
    assert!(r.buffer().is_empty());
    let r = Renderer::new(3, 2);
    let ceiling = channels(10, 15, 12);
    let floor = channels(32, 34, 32);
    assert_eq!(r.buffer().to_vec(), vec![ceiling, ceiling, ceiling, floor, floor, floor]);
}

#[test]
fn put_pixel_ignores_positions_outside() {
    let mut r = Renderer::new(4, 4);
    let before = r.buffer().to_vec();
    r.put_pixel(4, 0, 0x123456);
    r.put_pixel(0, 4, 0x123456);
    r.put_pixel(usize::MAX, usize::MAX, 0x123456);
    assert_eq!(r.buffer(), &before[..]);
    r.put_pixel(2, 3, 0xabcdef);
    assert_eq!(px(&r, 2, 3), 0xabcdef);
    let changed = r.buffer().iter().zip(before.iter()).filter(|(a, b)| a != b).count();
    assert_eq!(changed, 1);
}

#[test]
fn fill_rect_is_clipped_to_the_frame() {
    let mut r = Renderer::new(10, 8);
    let before = r.buffer().to_vec();
    r.fill_rect(7, 6, 100, usize::MAX, 0x00ff00);
    for y in 0..8 {
        for x in 0..10 {
            let inside = x >= 7 && y >= 6;
            let expected = if inside { 0x00ff00 } else { before[y * 10 + x] };
            assert_eq!(px(&r, x, y), expected);
        }
    }
    let snapshot = r.buffer().to_vec();
    r.fill_rect(10, 0, 5, 5, 0xff0000);
    r.fill_rect(0, 8, 5, 5, 0xff0000);
    r.fill_rect(0, 0, 0, 5, 0xff0000);
    assert_eq!(r.buffer(), &snapshot[..]);
}

#[test]
fn restore_background_undoes_drawing() {
    let mut r = Renderer::new(20, 10);
    let background = r.buffer().to_vec();
    r.fill_rect(0, 0, 20, 10, 0xffffff);
    r.draw_text(0, 0, "HI", 0x000000, 1);
    r.restore_background();
    assert_eq!(r.buffer(), &background[..]);
}

#[test]
fn fill_circle_paints_the_disc() {
    let mut r = Renderer::new(9, 9);
    let before = r.buffer().to_vec();
    r.fill_circle(4, 4, 2, 0x010203);
    for y in 0..9i32 {
        for x in 0..9i32 {
            let inside = (x - 4) * (x - 4) + (y - 4) * (y - 4) <= 4;
            let expected = if inside { 0x010203 } else { before[(y * 9 + x) as usize] };
            assert_eq!(px(&r, x as usize, y as usize), expected, "({}, {})", x, y);
        }
    }
    // A disc partly off the top-left corner is clipped.
    r.fill_circle(-1, -1, 2, 0x0a0b0c);
    assert_eq!(px(&r, 0, 0), 0x0a0b0c);
    assert_eq!(px(&r, 1, 0), before[1]);
    assert_eq!(px(&r, 0, 1), before[9]);
}

#[test]
fn draw_char_uses_the_bitmap_font() {
    let mut r = Renderer::new(8, 12);
    let before = r.buffer().to_vec();
    r.draw_char(1, 1, 'A', 0xffffff, 2);
    let rows = [0b010u8, 0b101, 0b111, 0b101, 0b101];
    for y in 0..12usize {
        for x in 0..8usize {
            let lit = x >= 1 && x < 7 && y >= 1 && y < 11 && {
                let col = (x - 1) / 2;
                let row = (y - 1) / 2;
                rows[row] & (1 << (2 - col)) != 0
            };
            let expected = if lit { 0xffffff } else { before[y * 8 + x] };
            assert_eq!(px(&r, x, y), expected, "({}, {})", x, y);
        }
    }
}

#[test]
fn unknown_characters_draw_nothing() {
    let mut r = Renderer::new(16, 8);
    let before = r.buffer().to_vec();
    r.draw_char(0, 0, 'a', 0xffffff, 1);
    r.draw_char(0, 0, '!', 0xffffff, 1);
    r.draw_text(0, 0, "  ", 0xffffff, 1);
    assert_eq!(r.buffer(), &before[..]);
}

#[test]
fn draw_text_advances_four_pixels_per_character() {
    let mut r = Renderer::new(16, 6);
    let before = r.buffer().to_vec();
    r.draw_text(0, 0, "1 1", 0x00ff00, 1);
    // '1' top row is 010: only the middle column is lit.
    assert_eq!(px(&r, 1, 0), 0x00ff00);
    assert_eq!(px(&r, 0, 0), before[0]);
    // The space is skipped; the second '1' starts at x = 8.
    assert_eq!(px(&r, 5, 0), before[5]);
    assert_eq!(px(&r, 9, 0), 0x00ff00);
    // Bottom row of '1' is 111.
    assert_eq!(px(&r, 8, 4), 0x00ff00);
    assert_eq!(px(&r, 10, 4), 0x00ff00);
}

#[test]
fn centered_text_is_centered() {
    let mut r = Renderer::new(20, 6);
    let before = r.buffer().to_vec();
    // "7" is 4 pixels wide: it starts at (20 - 4) / 2 = 8.
    r.draw_centered_text(0, "7", 0xff0000, 1);
    assert_eq!(px(&r, 8, 0), 0xff0000);
    assert_eq!(px(&r, 10, 0), 0xff0000);
    assert_eq!(px(&r, 7, 0), before[7]);
    assert_eq!(px(&r, 11, 0), before[11]);
}

#[test]
fn text_pixel_width_counts_characters() {
    assert_eq!(text_pixel_width("HP 3", 2), 32);
    assert_eq!(text_pixel_width("", 5), 0);
    assert_eq!(text_pixel_width("RUN FROM YE", 10), 440);
}

#[test]
fn decimal_string_writes_numbers() {
    assert_eq!(decimal_string(0), "0");
    assert_eq!(decimal_string(7), "7");
    assert_eq!(decimal_string(60), "60");
    assert_eq!(decimal_string(1234), "1234");
    assert_eq!(decimal_string(u64::MAX), u64::MAX.to_string());
}

#[test]
fn draw_line_paints_both_endpoints_and_the_cells_between() {
    let mut r = Renderer::new(10, 10);
    let before = r.buffer().to_vec();
    r.draw_line(1, 2, 6, 2, 0xfff36b);
    for x in 0..10 {
        let expected = if (1..=6).contains(&x) { 0xfff36b } else { before[20 + x] };
        assert_eq!(px(&r, x, 2), expected);
    }
    r.draw_line(0, 0, 3, 3, 0x123123);
    for i in 0..4 {
        assert_eq!(px(&r, i, i), 0x123123);
    }
    assert_eq!(px(&r, 1, 0), before[1]);
    // A single point.
    r.draw_line(9, 9, 9, 9, 0x999999);
    assert_eq!(px(&r, 9, 9), 0x999999);
    // Pixels with negative coordinates are skipped, the rest is drawn.
    r.draw_line(-3, 5, 2, 5, 0x555555);
    assert_eq!(px(&r, 0, 5), 0x555555);
    assert_eq!(px(&r, 2, 5), 0x555555);
    assert_eq!(px(&r, 3, 5), before[53]);
}

#[test]
fn steep_line_has_one_pixel_per_row() {
    let mut r = Renderer::new(10, 10);
    let before = r.buffer().to_vec();
    r.draw_line(2, 0, 4, 8, 0xabcdef);
    for y in 0..9 {
        let count = (0..10).filter(|&x| px(&r, x, y) == 0xabcdef).count();
        assert_eq!(count, 1, "row {}", y);
    }
    assert_eq!(px(&r, 2, 0), 0xabcdef);
    assert_eq!(px(&r, 4, 8), 0xabcdef);
    assert_eq!(px(&r, 0, 9), before[90]);
}

#[test]
fn minimap_colors_by_tile() {
    assert_eq!(minimap_color(TILE_WALL), 0x4a5a52);
    assert_eq!(minimap_color(TILE_GATE), 0xffb703);
    assert_eq!(minimap_color(TILE_METAL), 0x7c92a3);
    assert_eq!(minimap_color(TILE_RUINS), 0x39b24a);
    assert_eq!(minimap_color(TILE_KEY), 0xffdd57);
    assert_eq!(minimap_color(TILE_SWITCH), 0x4cc9f0);
    assert_eq!(minimap_color(TILE_EXIT), 0xb7efc5);
    assert_eq!(minimap_color(TILE_FLOOR), 0xc9d1c8);
    assert_eq!(minimap_color(42), 0xc9d1c8);
}

#[test]
fn minimap_grid_of_the_first_level() {
    let mut r = Renderer::new(960, 540);
    let map = GameMap::level_one();
    assert_eq!((map.width(), map.height()), (31, 25));
    let layout = r.draw_minimap_grid(&map);
    assert_eq!(layout.scale, 6);
    assert_eq!(layout.map_width, 186);
    assert_eq!(layout.map_height, 150);
    assert_eq!(layout.origin_x, 762);
    assert_eq!(layout.origin_y, 12);
    // Frame behind the map.
    assert_eq!(px(&r, 758, 8), 0x101319);
    assert_eq!(px(&r, 951, 165), 0x101319);
    assert_ne!(px(&r, 951, 166), 0x101319);
    assert_ne!(px(&r, 952, 100), 0x101319);
    // Cell (0, 0) is a wall, 5 pixels square; its sixth column is the frame.
    assert_eq!(px(&r, 762, 12), 0x4a5a52);
    assert_eq!(px(&r, 766, 16), 0x4a5a52);
    assert_eq!(px(&r, 767, 12), 0x101319);
    // Cell (1, 1) is floor.
    assert_eq!(px(&r, 768, 18), 0x222834);
}

#[test]
fn minimap_shrinks_cells_for_small_frames() {
    let mut r = Renderer::new(100, 100);
    let map = GameMap::level_one();
    let layout = r.draw_minimap_grid(&map);
    // (100 - 24) / 31 = 2 and (100 - 24) / 25 = 3.
    assert_eq!(layout.scale, 2);
    assert_eq!(layout.map_width, 62);
    assert_eq!(layout.map_height, 50);
    assert_eq!(layout.origin_x, 26);
    // Cells of one pixel.
    assert_eq!(px(&r, 26, 12), 0x4a5a52);
    assert_eq!(px(&r, 27, 12), 0x101319);
}

#[test]
fn hud_texts_and_colors() {
    let mut r = Renderer::new(960, 540);
    let map = GameMap::level_one();
    r.draw_hud(&map, 3, false, false, 60, "FIND ACCESS CARD");
    // "FPS 60" at (12, 12), scale 3: the top row of F is lit.
    assert_eq!(px(&r, 12, 12), 0xffffff);
    // "HP 3" at (12, 34): the top-left of H is lit.
    assert_eq!(px(&r, 12, 34), 0xfff0a3);
    // "CARD NO" at (12, 60), scale 2.
    assert_eq!(px(&r, 12, 60), 0xffdd57);
    // "DOOR SHUT" at (12, 78): top-left of D is lit.
    assert_eq!(px(&r, 12, 78), 0x9db4c4);
    // "ANOMALY DORMANT" at (12, 96): top-left of A is dark, its middle is lit.
    assert_eq!(px(&r, 14, 96), 0xa9b4c4);
    // The message at the bottom, scale 3.
    assert_eq!(px(&r, 12, 506), 0xffffff);
    // Help line.
    assert_eq!(px(&r, 12, 486), 0xa9b4c4);
}

#[test]
fn hud_chaser_status_colors() {
    let map = GameMap::level_one();
    let mut r = Renderer::new(960, 540);
    r.draw_hud(&map, 1, true, false, 0, "");
    assert_eq!(px(&r, 14, 96), 0xff6b6b);
    let mut r = Renderer::new(960, 540);
    r.draw_hud(&map, 1, true, true, 0, "");
    assert_eq!(px(&r, 14, 96), 0xffc857);
}

#[test]
fn main_menu_highlights_the_selected_button() {
    let mut r = Renderer::new(960, 540);
    r.render_main_menu(0);
    // Red bars at the top and the bottom.
    assert_eq!(px(&r, 5, 0), 0x6e1c1c);
    assert_eq!(px(&r, 5, 535), 0x6e1c1c);
    // Selected button: gold border, dark fill, orange marks.
    assert_eq!(px(&r, 300, 208), 0xffc857);
    assert_eq!(px(&r, 304, 212), 0x26313a);
    assert_eq!(px(&r, 308, 216), 0xff5a1f);
    assert_eq!(px(&r, 646, 216), 0xff5a1f);
    // Other buttons: grey border, darker fill.
    assert_eq!(px(&r, 300, 266), 0x4f6472);
    assert_eq!(px(&r, 304, 270), 0x141b21);
    assert_eq!(px(&r, 300, 382), 0x4f6472);
    r.render_main_menu(3);
    assert_eq!(px(&r, 300, 208), 0x4f6472);
    assert_eq!(px(&r, 300, 382), 0xffc857);
}

#[test]
fn menu_background_bands_and_lines() {
    let mut r = Renderer::new(960, 540);
    r.draw_menu_background();
    // Vertical lines every 48 pixels, horizontal every 36.
    assert_eq!(px(&r, 0, 20), 0x172027);
    assert_eq!(px(&r, 48, 20), 0x172027);
    assert_eq!(px(&r, 5, 36), 0x141c22);
    // Gradient: shade 12 + y * 18 / 540 in the upper half.
    assert_eq!(px(&r, 5, 10), channels(16, 19, 17));
    assert_eq!(px(&r, 5, 200), channels(22, 25, 23));
    // Lower half: 24 - (y - 270) * 14 / 540.
    assert_eq!(px(&r, 5, 500), channels(23, 26, 24));
}

#[test]
fn level_select_marks_the_chosen_level() {
    let mut r = Renderer::new(960, 540);
    r.render_level_select_screen(1, 3);
    assert_eq!(px(&r, 310, 210), 0x4f6472);
    assert_eq!(px(&r, 310, 268), 0xffc857);
    assert_eq!(px(&r, 318, 276), 0xff5a1f);
    assert_eq!(px(&r, 310, 326), 0x4f6472);
    // No fourth button.
    assert_ne!(px(&r, 310, 384), 0x4f6472);
}

#[test]
fn information_screens_draw_their_panel() {
    let mut r = Renderer::new(960, 540);
    r.render_instructions_screen();
    assert_eq!(px(&r, 100, 170), 0x4f6472);
    assert_eq!(px(&r, 103, 173), 0x10161b);
    let mut r = Renderer::new(960, 540);
    r.render_about_screen();
    assert_eq!(px(&r, 100, 170), 0x4f6472);
    assert_eq!(px(&r, 859, 469), 0x4f6472);
}

#[test]
fn success_screen_panel() {
    let mut r = Renderer::new(960, 540);
    r.render_level_success_screen(1, true);
    assert_eq!(px(&r, 130, 220), 0x4f6472);
    assert_eq!(px(&r, 133, 223), 0x10161b);
    assert_eq!(px(&r, 144, 234), 0x52b788);
    assert_eq!(px(&r, 808, 234), 0x52b788);
    let mut r = Renderer::new(960, 540);
    r.render_level_success_screen(3, false);
    assert_eq!(px(&r, 144, 234), 0x52b788);
}
