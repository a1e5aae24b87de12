use run_from_ye::map::GameMap;
use run_from_ye::pathfinding::{cell_index, find_path};

fn is_route(map: &GameMap, start: (i32, i32), path: &[(i32, i32)]) -> bool {
    let mut previous = start;
    for &cell in path {
        let step = (cell.0 - previous.0).abs() + (cell.1 - previous.1).abs();
        if step != 1 || !map.is_walkable_cell(cell.0, cell.1) {
            return false;
        }
        previous = cell;
    }
    true
}

#[test]
fn straight_corridor() {
    let map = GameMap::from_maze(&["#######", "#p   e#", "#######"]);
    let path = find_path(&map, (1, 1), (5, 1));
    assert_eq!(path, vec![(2, 1), (3, 1), (4, 1), (5, 1)]);
}

#[test]
fn route_around_a_wall_is_shortest() {
    let map = GameMap::from_maze(&[
        "#######",
        "#p#  e#",
        "# # # #",
        "#   # #",
        "#######",
    ]);
    let path = find_path(&map, (1, 1), (5, 1));
    assert!(is_route(&map, (1, 1), &path));
    assert_eq!(path.last(), Some(&(5, 1)));
    // Down 2, right 2, up 2, right 2: the only route has 8 steps.
    assert_eq!(
        path,
        vec![(1, 2), (1, 3), (2, 3), (3, 3), (3, 2), (3, 1), (4, 1), (5, 1)]
    );
}

#[test]
fn no_route_when_walled_off() {
    let map = GameMap::from_maze(&["#####", "#p#e#", "#####"]);
    assert!(find_path(&map, (1, 1), (3, 1)).is_empty());
}

#[test]
fn no_route_to_a_wall_or_to_itself_or_from_outside() {
    let map = GameMap::from_maze(&["#####", "#p e#", "#####"]);
    assert!(find_path(&map, (1, 1), (0, 0)).is_empty());
    assert!(find_path(&map, (1, 1), (1, 1)).is_empty());
    assert!(find_path(&map, (-1, 1), (3, 1)).is_empty());
    assert_eq!(find_path(&map, (1, 1), (3, 1)), vec![(2, 1), (3, 1)]);
}

#[test]
fn start_cell_need_not_be_walkable() {
    let map = GameMap::from_maze(&["#####", "#p e#", "#####"]);
    assert_eq!(find_path(&map, (1, 0), (2, 1)), vec![(1, 1), (2, 1)]);
}

#[test]
fn closed_door_blocks_and_open_door_lets_through() {
    let mut map = GameMap::from_maze(&["#######", "#pks#e#", "#  d  #", "#######"]);
    assert!(find_path(&map, (1, 2), (5, 2)).is_empty());
    map.update_player_interactions(2, 1);
    map.update_player_interactions(3, 1);
    assert!(map.gate_open());
    let path = find_path(&map, (1, 2), (5, 2));
    assert_eq!(path.len(), 4);
    assert!(is_route(&map, (1, 2), &path));
}

#[test]
fn breadth_first_tie_break_prefers_right_then_left_then_down_then_up() {
    let map = GameMap::from_maze(&["####", "#p #", "#  #", "#e #", "####"]);
    let path = find_path(&map, (1, 1), (2, 2));
    assert_eq!(path, vec![(2, 1), (2, 2)]);
}

#[test]
fn cell_indices() {
    let map = GameMap::from_maze(&["####", "#pe#", "####"]);
    assert_eq!(cell_index(&map, 0, 0), Some(0));
    assert_eq!(cell_index(&map, 3, 2), Some(11));
    assert_eq!(cell_index(&map, 1, 1), Some(5));
    assert_eq!(cell_index(&map, 4, 0), None);
    assert_eq!(cell_index(&map, 0, -1), None);
}

#[test]
fn route_on_first_level_reaches_the_card() {
    let map = GameMap::level_one();
    let path = find_path(&map, (2, 1), (27, 5));
    assert!(!path.is_empty());
    assert!(is_route(&map, (2, 1), &path));
    assert_eq!(path.last(), Some(&(27, 5)));
}
