use run_from_ye::map::{
    GameMap, TILE_EXIT, TILE_FLOOR, TILE_GATE, TILE_KEY, TILE_METAL, TILE_RUINS, TILE_SWITCH,
    TILE_WALL,
};

#[test]
fn maze_symbols_are_converted_to_tiles_and_spawns() {
    let map = GameMap::from_maze(&["+dm", "|pke", "|srg"]);

    assert_eq!(map.width(), 4);
    assert_eq!(map.height(), 3);
    // Spawns are cells; the player and the chaser stand at their centers.
    // The view angle is not part of the level (the program keeps it).
    let (player_x, player_y) = map.player_spawn();
    assert_eq!((player_x as f32 + 0.5, player_y as f32 + 0.5), (1.5, 1.5));
    let (chaser_x, chaser_y) = map.chaser_spawn();
    assert_eq!((chaser_x as f32 + 0.5, chaser_y as f32 + 0.5), (3.5, 1.5));
    assert_eq!(map.tile_at(0, 0), TILE_WALL);
    assert_eq!(map.tile_at(1, 0), TILE_GATE);
    assert_eq!(map.tile_at(2, 0), TILE_METAL);
    assert_eq!(map.tile_at(2, 1), TILE_KEY);
    assert_eq!(map.tile_at(1, 2), TILE_SWITCH);
    assert_eq!(map.tile_at(2, 2), TILE_RUINS);
    assert_eq!(map.tile_at(3, 2), TILE_EXIT);
}

#[test]
fn short_rows_are_padded_with_wall_and_spawns_are_floor() {
    let map = GameMap::from_maze(&["+dm", "|pke", "|srg"]);
    assert_eq!(map.tile_at(3, 0), TILE_WALL);
    assert_eq!(map.tile_at(1, 1), TILE_FLOOR);
    assert_eq!(map.tile_at(3, 1), TILE_FLOOR);
}

#[test]
fn unknown_symbols_are_walls_and_uppercase_symbols_work() {
    let map = GameMap::from_maze(&["xDMRKSG", "# P  C "]);
    assert_eq!(map.tile_at(0, 0), TILE_WALL);
    assert_eq!(map.tile_at(1, 0), TILE_GATE);
    assert_eq!(map.tile_at(2, 0), TILE_METAL);
    assert_eq!(map.tile_at(3, 0), TILE_RUINS);
    assert_eq!(map.tile_at(4, 0), TILE_KEY);
    assert_eq!(map.tile_at(5, 0), TILE_SWITCH);
    assert_eq!(map.tile_at(6, 0), TILE_EXIT);
    assert_eq!(map.tile_at(0, 1), TILE_WALL);
    assert_eq!(map.player_spawn(), (2, 1));
    assert_eq!(map.chaser_spawn(), (5, 1));
}

#[test]
fn the_last_spawn_symbol_wins() {
    let map = GameMap::from_maze(&["p e", "e p"]);
    assert_eq!(map.player_spawn(), (2, 1));
    assert_eq!(map.chaser_spawn(), (0, 1));
}

#[test]
fn outside_the_grid_reads_as_wall() {
    let map = GameMap::from_maze(&[" pe "]);
    assert_eq!(map.tile_at(-1, 0), TILE_WALL);
    assert_eq!(map.tile_at(0, -1), TILE_WALL);
    assert_eq!(map.tile_at(4, 0), TILE_WALL);
    assert_eq!(map.tile_at(0, 1), TILE_WALL);
    assert!(!map.is_walkable_cell(-1, 0));
    assert!(!map.is_walkable_cell(4, 0));
    assert!(map.is_walkable_cell(0, 0));
}

#[test]
fn built_in_levels() {
    assert_eq!(GameMap::level_count(), 3);
    let one = GameMap::level(0).unwrap();
    assert_eq!((one.width(), one.height()), (31, 25));
    assert_eq!(one.player_spawn(), (2, 1));
    assert_eq!(one.chaser_spawn(), (27, 23));
    let two = GameMap::level(1).unwrap();
    assert_eq!(two.player_spawn(), (2, 1));
    assert_eq!(two.chaser_spawn(), (27, 21));
    let three = GameMap::level(2).unwrap();
    assert_eq!(three.player_spawn(), (28, 23));
    assert_eq!(three.chaser_spawn(), (3, 21));
    assert!(GameMap::level(3).is_none());
    assert_eq!(one.tile_at(17, 1), TILE_SWITCH);
    assert_eq!(one.tile_at(27, 5), TILE_KEY);
    assert_eq!(one.tile_at(29, 9), TILE_GATE);
    assert_eq!(one.tile_at(30, 9), TILE_EXIT);
    assert!(!one.has_key() && !one.switch_pressed() && !one.completed());
}

#[test]
fn objectives_are_taken_in_order() {
    // card at (1,0), terminal at (2,0), door at (3,0), exit at (4,0)
    let mut map = GameMap::from_maze(&["pksdg", "e    "]);
    assert!(!map.gate_open());
    assert_eq!(map.displayed_tile_at(3, 0), TILE_GATE);
    assert!(!map.is_walkable_cell(3, 0));

    assert_eq!(map.update_player_interactions(0, 0), None);
    assert_eq!(map.update_player_interactions(2, 0), Some("NEED ACCESS CARD"));
    assert!(!map.switch_pressed());
    assert_eq!(map.update_player_interactions(4, 0), Some("EXIT SEALED"));
    assert!(!map.completed());

    assert_eq!(map.update_player_interactions(1, 0), Some("ACCESS CARD FOUND"));
    assert!(map.has_key());
    assert_eq!(map.tile_at(1, 0), TILE_FLOOR);
    assert_eq!(map.update_player_interactions(1, 0), None);
    assert!(!map.gate_open());

    assert_eq!(map.update_player_interactions(2, 0), Some("DOOR UNLOCKED"));
    assert!(map.switch_pressed());
    assert!(map.gate_open());
    assert_eq!(map.displayed_tile_at(3, 0), TILE_FLOOR);
    assert_eq!(map.tile_at(3, 0), TILE_GATE);
    assert!(map.is_walkable_cell(3, 0));

    assert_eq!(map.update_player_interactions(4, 0), Some("SITE SECURED"));
    assert!(map.completed());
    assert_eq!(map.update_player_interactions(4, 0), None);
    assert_eq!(map.update_player_interactions(2, 0), None);
}

#[test]
fn standing_requires_all_four_corner_cells() {
    let map = GameMap::from_maze(&["#####", "#p e#", "#####"]);
    assert!(map.can_stand_at(1, 1, 1, 1));
    assert!(map.can_stand_at(1, 1, 2, 1));
    assert!(!map.can_stand_at(0, 1, 1, 1));
    assert!(!map.can_stand_at(1, 1, 1, 2));
    assert!(!map.can_stand_at(2, 0, 2, 1));
}
