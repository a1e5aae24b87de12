use run_from_ye::chaser::{active_after, chaser_step, step_event, ChaserEvent, ChaserStep};
use run_from_ye::config::{BORDERLESS_FULLSCREEN, SCREEN_HEIGHT, SCREEN_WIDTH, STARTING_LIVES};
use run_from_ye::game::{chaser_event_message, current_goal_message, screen_size_from_metrics, window_size};
use run_from_ye::map::GameMap;
use run_from_ye::player::take_hit;
use run_from_ye::sprite::{alert_tint, is_chaser_texture_transparent, sprite_pixel, SpriteTexture, TRANSPARENT_KEY};

#[test]
fn completed_level_stops_the_chaser() {
    for active in [false, true] {
        for wake in [false, true] {
            for lose in [false, true] {
                assert!(chaser_step(true, active, wake, lose, true) == ChaserStep::Stand);
            }
        }
    }
    assert!(!active_after(&ChaserStep::Stand));
    assert!(step_event(&ChaserStep::Stand, true).is_none());
}

#[test]
fn dormant_chaser_wakes_only_in_range() {
    assert!(chaser_step(false, false, false, false, true) == ChaserStep::Doze);
    assert!(chaser_step(false, false, true, false, false) == ChaserStep::Wake);
    // Waking does not look at the losing distance.
    assert!(chaser_step(false, false, true, true, false) == ChaserStep::Wake);
    assert!(active_after(&ChaserStep::Wake));
    assert!(!active_after(&ChaserStep::Doze));
    assert!(step_event(&ChaserStep::Wake, false) == Some(ChaserEvent::Spotted));
    assert!(step_event(&ChaserStep::Doze, true).is_none());
}

#[test]
fn active_chaser_gives_up_or_pursues() {
    assert!(chaser_step(false, true, true, true, true) == ChaserStep::GiveUp);
    assert!(chaser_step(false, true, false, false, true) == ChaserStep::Pursue { replan: true });
    assert!(chaser_step(false, true, true, false, false) == ChaserStep::Pursue { replan: false });
    assert!(!active_after(&ChaserStep::GiveUp));
    assert!(active_after(&ChaserStep::Pursue { replan: false }));
    assert!(step_event(&ChaserStep::GiveUp, true) == Some(ChaserEvent::Lost));
    assert!(step_event(&ChaserStep::Pursue { replan: true }, true) == Some(ChaserEvent::HitPlayer));
    assert!(step_event(&ChaserStep::Pursue { replan: true }, false).is_none());
}

#[test]
fn chaser_event_messages() {
    assert_eq!(chaser_event_message(&ChaserEvent::Spotted), "ANOMALY DETECTED");
    assert_eq!(chaser_event_message(&ChaserEvent::Lost), "ANOMALY LOST");
    assert_eq!(chaser_event_message(&ChaserEvent::HitPlayer), "CONTACT REINITIALIZING");
}

#[test]
fn goal_message_follows_progress() {
    let mut map = GameMap::from_maze(&["#####", "#pk#", "#se#", "#d##"]);
    assert_eq!(current_goal_message(&map), "FIND ACCESS CARD");
    // Terminal before the card: still looking for the card.
    assert_eq!(map.update_player_interactions(1, 2), Some("NEED ACCESS CARD"));
    assert_eq!(current_goal_message(&map), "FIND ACCESS CARD");
    assert_eq!(map.update_player_interactions(2, 1), Some("ACCESS CARD FOUND"));
    assert_eq!(current_goal_message(&map), "ACTIVATE TERMINAL");
    assert_eq!(map.update_player_interactions(1, 2), Some("DOOR UNLOCKED"));
    assert_eq!(current_goal_message(&map), "REACH EXIT");
}

#[test]
fn lives_never_drop_below_zero() {
    assert_eq!(take_hit(STARTING_LIVES), (2, true));
    assert_eq!(take_hit(2), (1, true));
    assert_eq!(take_hit(1), (0, false));
    assert_eq!(take_hit(0), (0, false));
    assert_eq!(take_hit(255), (254, true));
    // Three hits from the start use every life.
    let mut lives = STARTING_LIVES;
    let mut respawns = 0;
    for _ in 0..5 {
        let (left, respawn) = take_hit(lives);
        lives = left;
        if respawn {
            respawns += 1;
        }
    }
    assert_eq!(lives, 0);
    assert_eq!(respawns, 2);
}

#[test]
fn screen_size_is_at_least_the_frame() {
    assert_eq!(screen_size_from_metrics(1920, 1080), (1920, 1080));
    assert_eq!(screen_size_from_metrics(800, 600), (SCREEN_WIDTH, 600));
    assert_eq!(screen_size_from_metrics(0, -5), (SCREEN_WIDTH, SCREEN_HEIGHT));
    assert_eq!(screen_size_from_metrics(960, 540), (960, 540));
}

#[test]
fn window_size_depends_on_the_window_mode() {
    let expected = if BORDERLESS_FULLSCREEN { (2560, 1440) } else { (SCREEN_WIDTH, SCREEN_HEIGHT) };
    assert_eq!(window_size((2560, 1440)), expected);
    assert!(BORDERLESS_FULLSCREEN);
}

#[test]
fn sprite_pixels_and_transparency() {
    assert_eq!(TRANSPARENT_KEY, 0xff00ff);
    assert_eq!(sprite_pixel(1, 2, 3, 255), 0x010203);
    assert_eq!(sprite_pixel(1, 2, 3, 16), 0x010203);
    assert_eq!(sprite_pixel(1, 2, 3, 15), 0xff00ff);
    assert_eq!(sprite_pixel(255, 255, 255, 0), 0xff00ff);
    assert!(is_chaser_texture_transparent(0xff00ff));
    assert!(!is_chaser_texture_transparent(0xff00fe));
}

#[test]
fn alert_tint_reddens() {
    // 200 + 42 = 242; 100 * 72 / 100 = 72; 50 * 72 / 100 = 36.
    assert_eq!(alert_tint(0xc86432), 0xf24824);
    // Red saturates; black stays dark apart from the red lift.
    assert_eq!(alert_tint(0xffffff), 0xffb7b7);
    assert_eq!(alert_tint(0x000000), 0x2a0000);
    // Bits above the color are ignored.
    assert_eq!(alert_tint(0xff00_0000), 0x2a0000);
}

#[test]
fn sprite_sampling_is_nearest_neighbour() {
    // 2 x 2 image: red, green / transparent, blue.
    let texture = SpriteTexture::new(2, 2, vec![0xff0000, 0x00ff00, 0xff00ff, 0x0000ff]);
    // Drawn 4 pixels wide: each texel covers 2 x 2 screen pixels.
    assert_eq!(texture.sample(0, 0, 4), Some(0xff0000));
    assert_eq!(texture.sample(1, 1, 4), Some(0xff0000));
    assert_eq!(texture.sample(2, 0, 4), Some(0x00ff00));
    assert_eq!(texture.sample(3, 1, 4), Some(0x00ff00));
    assert_eq!(texture.sample(0, 2, 4), None);
    assert_eq!(texture.sample(3, 3, 4), Some(0x0000ff));
    // Outside the sprite.
    assert_eq!(texture.sample(-1, 0, 4), None);
    assert_eq!(texture.sample(0, 4, 4), None);
    assert_eq!(texture.sample(4, 0, 4), None);
    assert_eq!(texture.sample(0, 0, 0), None);
    // Drawn 3 pixels wide: positions 0 and 1 map to texel 0, 2 to texel 1.
    assert_eq!(texture.sample(1, 0, 3), Some(0xff0000));
    assert_eq!(texture.sample(2, 0, 3), Some(0x00ff00));
}

#[test]
fn sprite_sampling_of_a_large_sprite_uses_the_last_texel() {
    let texture = SpriteTexture::new(3, 1, vec![1, 2, 3]);
    assert_eq!(texture.sample(0, 0, 1), Some(1));
    assert_eq!(texture.sample(99, 50, 100), Some(3));
    assert_eq!(texture.sample(66, 0, 100), Some(2));
    assert_eq!(texture.sample(67, 0, 100), Some(3));
}
