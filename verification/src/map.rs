//! Level grids: the ASCII maze format, tile rules and the objective
//! sequence (access card, terminal, door, exit).

use vstd::prelude::*;
use vstd::string::StrSliceExecFns;

verus! {

broadcast use vstd::string::group_string_axioms;

/// Walkable floor.
pub const TILE_FLOOR: u8 = 0;
/// Solid wall.
pub const TILE_WALL: u8 = 1;
/// Door that opens once the card is held and the terminal was activated.
pub const TILE_GATE: u8 = 2;
/// Metal obstacle.
pub const TILE_METAL: u8 = 3;
/// Ruins obstacle.
pub const TILE_RUINS: u8 = 5;
/// Access card.
pub const TILE_KEY: u8 = 7;
/// Terminal that unlocks the door when the card is held.
pub const TILE_SWITCH: u8 = 8;
/// Level exit.
pub const TILE_EXIT: u8 = 9;

/// Index of cell `(x, y)` in a row-major grid of the given width.
pub open spec fn cell_idx(width: int, x: int, y: int) -> int {
    y * width + x
}

/// Mathematical state of a level.
pub struct MapModel {
    pub width: int,
    pub height: int,
    pub tiles: Seq<u8>,
    pub has_key: bool,
    pub switch_pressed: bool,
    pub completed: bool,
    pub player_spawn: (int, int),
    pub chaser_spawn: (int, int),
}

/// Whether a tile stops a walking entity, given whether the door is open.
pub open spec fn tile_blocks(tile: u8, gate_open: bool) -> bool {
    if tile == TILE_FLOOR || tile == TILE_KEY || tile == TILE_SWITCH || tile == TILE_EXIT {
        false
    } else if tile == TILE_GATE {
        !gate_open
    } else {
        true
    }
}

impl MapModel {
    pub open spec fn in_bounds(self, x: int, y: int) -> bool {
        0 <= x < self.width && 0 <= y < self.height
    }

    /// Stored tile; everything outside the grid reads as wall.
    pub open spec fn tile(self, x: int, y: int) -> u8 {
        if self.in_bounds(x, y) {
            self.tiles[cell_idx(self.width, x, y)]
        } else {
            TILE_WALL
        }
    }

    pub open spec fn gate_open(self) -> bool {
        self.has_key && self.switch_pressed
    }

    /// Tile as drawn and as collided with: an open door reads as floor.
    pub open spec fn displayed_tile(self, x: int, y: int) -> u8 {
        if self.tile(x, y) == TILE_GATE && self.gate_open() {
            TILE_FLOOR
        } else {
            self.tile(x, y)
        }
    }

    pub open spec fn walkable(self, x: int, y: int) -> bool {
        !tile_blocks(self.displayed_tile(x, y), self.gate_open())
    }

    /// The objectives are taken in order: the terminal only after the card,
    /// completion only with the door open.
    pub open spec fn progress_consistent(self) -> bool {
        &&& self.switch_pressed ==> self.has_key
        &&& self.completed ==> self.gate_open()
    }

    /// Same grid with one cell replaced (out-of-grid writes change nothing).
    pub open spec fn with_tile(self, x: int, y: int, tile: u8) -> MapModel {
        if self.in_bounds(x, y) {
            MapModel { tiles: self.tiles.update(cell_idx(self.width, x, y), tile), ..self }
        } else {
            self
        }
    }

    /// State after the player stands on cell `(x, y)`.
    pub open spec fn after_interaction(self, x: int, y: int) -> MapModel {
        if self.completed {
            self
        } else if self.tile(x, y) == TILE_KEY {
            MapModel { has_key: true, ..self.with_tile(x, y, TILE_FLOOR) }
        } else if self.tile(x, y) == TILE_SWITCH && self.has_key {
            MapModel { switch_pressed: true, ..self }
        } else if self.tile(x, y) == TILE_EXIT && self.gate_open() {
            MapModel { completed: true, ..self }
        } else {
            self
        }
    }

    /// Message shown when the player stands on cell `(x, y)`.
    pub open spec fn interaction_message(self, x: int, y: int) -> Option<Seq<char>> {
        if self.completed {
            None
        } else if self.tile(x, y) == TILE_KEY {
            Some("ACCESS CARD FOUND"@)
        } else if self.tile(x, y) == TILE_SWITCH {
            if self.has_key {
                Some("DOOR UNLOCKED"@)
            } else {
                Some("NEED ACCESS CARD"@)
            }
        } else if self.tile(x, y) == TILE_EXIT {
            if self.gate_open() {
                Some("SITE SECURED"@)
            } else {
                Some("EXIT SEALED"@)
            }
        } else {
            None
        }
    }

    /// This state is the level described by the maze `rows`.
    pub open spec fn is_maze(self, rows: Seq<Seq<char>>) -> bool {
        &&& self.width == maze_width(rows)
        &&& self.height == rows.len()
        &&& self.tiles.len() == self.width * self.height
        &&& forall|x: int, y: int|
            self.in_bounds(x, y) ==> #[trigger] self.tile(x, y) == maze_tile(rows, x, y)
        &&& !self.has_key
        &&& !self.switch_pressed
        &&& !self.completed
        &&& is_last_mark(rows, self.player_spawn.0, self.player_spawn.1, true)
        &&& is_last_mark(rows, self.chaser_spawn.0, self.chaser_spawn.1, false)
    }
}

/// Tile that a maze symbol stands for.
pub open spec fn symbol_tile(c: char) -> u8 {
    if c == ' ' {
        TILE_FLOOR
    } else if c == '+' || c == '-' || c == '|' || c == '#' {
        TILE_WALL
    } else if c == 'd' || c == 'D' {
        TILE_GATE
    } else if c == 'm' || c == 'M' {
        TILE_METAL
    } else if c == 'r' || c == 'R' {
        TILE_RUINS
    } else if c == 'k' || c == 'K' {
        TILE_KEY
    } else if c == 's' || c == 'S' {
        TILE_SWITCH
    } else if c == 'g' || c == 'G' {
        TILE_EXIT
    } else if is_player_symbol(c) || is_chaser_symbol(c) {
        TILE_FLOOR
    } else {
        TILE_WALL
    }
}

pub open spec fn is_player_symbol(c: char) -> bool {
    c == 'p' || c == 'P'
}

pub open spec fn is_chaser_symbol(c: char) -> bool {
    c == 'e' || c == 'E' || c == 'c' || c == 'C'
}

/// Width of a maze: its longest row.
pub open spec fn maze_width(rows: Seq<Seq<char>>) -> int
    decreases rows.len(),
{
    if rows.len() == 0 {
        0
    } else {
        let rest = maze_width(rows.drop_last());
        if rows.last().len() > rest {
            rows.last().len() as int
        } else {
            rest
        }
    }
}

/// Tile of cell `(x, y)` of a maze; cells past the end of a short row are walls.
pub open spec fn maze_tile(rows: Seq<Seq<char>>, x: int, y: int) -> u8 {
    if 0 <= y < rows.len() && 0 <= x < rows[y].len() {
        symbol_tile(rows[y][x])
    } else {
        TILE_WALL
    }
}

/// Cell `(x, y)` holds a player spawn symbol (`player`) or a chaser spawn symbol.
pub open spec fn mark_at(rows: Seq<Seq<char>>, x: int, y: int, player: bool) -> bool {
    &&& 0 <= y < rows.len()
    &&& 0 <= x < rows[y].len()
    &&& if player {
        is_player_symbol(rows[y][x])
    } else {
        is_chaser_symbol(rows[y][x])
    }
}

/// Row-major reading order.
pub open spec fn before(x1: int, y1: int, x2: int, y2: int) -> bool {
    y1 < y2 || (y1 == y2 && x1 < x2)
}

pub open spec fn has_mark(rows: Seq<Seq<char>>, player: bool) -> bool {
    exists|x: int, y: int| #[trigger] mark_at(rows, x, y, player)
}

/// `(x, y)` is the last spawn symbol of its kind in reading order.
pub open spec fn is_last_mark(rows: Seq<Seq<char>>, x: int, y: int, player: bool) -> bool {
    &&& mark_at(rows, x, y, player)
    &&& forall|a: int, b: int| #[trigger] mark_at(rows, a, b, player) ==> !before(x, y, a, b)
}

pub open spec fn maze_chars(rows: Seq<&str>) -> Seq<Seq<char>> {
    rows.map_values(|r: &str| r@)
}

pub proof fn lemma_maze_width_bound(rows: Seq<Seq<char>>)
    ensures
        maze_width(rows) >= 0,
        forall|i: int| 0 <= i < rows.len() ==> #[trigger] rows[i].len() <= maze_width(rows),
    decreases rows.len(),
{
    if rows.len() > 0 {
        lemma_maze_width_bound(rows.drop_last());
        assert forall|i: int| 0 <= i < rows.len() implies #[trigger] rows[i].len() <= maze_width(
            rows,
        ) by {
            if i < rows.len() - 1 {
                assert(rows.drop_last()[i] == rows[i]);
            }
        }
    }
}

pub proof fn lemma_cell_idx_bounds(width: int, height: int, x: int, y: int)
    requires
        0 <= x < width,
        0 <= y < height,
    ensures
        0 <= cell_idx(width, x, y) < width * height,
{
    assert(0 <= y * width) by (nonlinear_arith)
        requires
            0 <= y,
            0 <= width,
    ;
    assert(y * width + x < width * height) by (nonlinear_arith)
        requires
            0 <= x < width,
            0 <= y < height,
    ;
}

pub proof fn lemma_cell_idx_injective(width: int, x1: int, y1: int, x2: int, y2: int)
    requires
        0 <= x1 < width,
        0 <= x2 < width,
        cell_idx(width, x1, y1) == cell_idx(width, x2, y2),
    ensures
        x1 == x2,
        y1 == y2,
{
    assert(y1 == y2) by (nonlinear_arith)
        requires
            0 <= x1 < width,
            0 <= x2 < width,
            y1 * width + x1 == y2 * width + x2,
    {
        if y1 < y2 {
            assert(y1 * width + width <= y2 * width);
        } else if y1 > y2 {
            assert(y2 * width + width <= y1 * width);
        }
    }
}

/// A level: its tile grid, the spawn cells and the objective flags.
pub struct GameMap {
    width: usize,
    height: usize,
    tiles: Vec<u8>,
    has_key: bool,
    switch_pressed: bool,
    completed: bool,
    player_spawn: (usize, usize),
    chaser_spawn: (usize, usize),
}

impl View for GameMap {
    type V = MapModel;

    closed spec fn view(&self) -> MapModel {
        MapModel {
            width: self.width as int,
            height: self.height as int,
            tiles: self.tiles@,
            has_key: self.has_key,
            switch_pressed: self.switch_pressed,
            completed: self.completed,
            player_spawn: (self.player_spawn.0 as int, self.player_spawn.1 as int),
            chaser_spawn: (self.chaser_spawn.0 as int, self.chaser_spawn.1 as int),
        }
    }
}

impl GameMap {
    #[verifier::type_invariant]
    closed spec fn inv(self) -> bool {
        &&& self.tiles@.len() == self.width * self.height
        &&& self.width <= i32::MAX
        &&& self.height <= i32::MAX
        &&& self.width * self.height <= usize::MAX
        &&& self@.in_bounds(self.player_spawn.0 as int, self.player_spawn.1 as int)
        &&& self@.in_bounds(self.chaser_spawn.0 as int, self.chaser_spawn.1 as int)
        &&& self@.progress_consistent()
    }
}


/// Reading state of the maze scan after all cells before `(x, y)` were read.
pub open spec fn spawn_scan(
    rows: Seq<Seq<char>>,
    found: Option<(usize, usize)>,
    x: int,
    y: int,
    player: bool,
) -> bool {
    match found {
        Some(p) => {
            &&& mark_at(rows, p.0 as int, p.1 as int, player)
            &&& before(p.0 as int, p.1 as int, x, y)
            &&& forall|a: int, b: int|
                #[trigger] mark_at(rows, a, b, player) && before(a, b, x, y) ==> !before(
                    p.0 as int,
                    p.1 as int,
                    a,
                    b,
                )
        },
        None => forall|a: int, b: int| #[trigger] mark_at(rows, a, b, player) ==> !before(a, b, x, y),
    }
}

pub open spec fn tiles_scan(rows: Seq<Seq<char>>, width: int, tiles: Seq<u8>, x: int, y: int) -> bool {
    &&& tiles.len() == width * rows.len()
    &&& forall|xx: int, yy: int|
        0 <= xx < width && 0 <= yy < rows.len() ==> #[trigger] tiles[cell_idx(width, xx, yy)] == if before(
            xx,
            yy,
            x,
            y,
        ) {
            maze_tile(rows, xx, yy)
        } else {
            TILE_WALL
        }
}

fn symbol_to_tile(c: char) -> (t: u8)
    ensures
        t == symbol_tile(c),
{
    if c == ' ' {
        TILE_FLOOR
    } else if c == '+' || c == '-' || c == '|' || c == '#' {
        TILE_WALL
    } else if c == 'd' || c == 'D' {
        TILE_GATE
    } else if c == 'm' || c == 'M' {
        TILE_METAL
    } else if c == 'r' || c == 'R' {
        TILE_RUINS
    } else if c == 'k' || c == 'K' {
        TILE_KEY
    } else if c == 's' || c == 'S' {
        TILE_SWITCH
    } else if c == 'g' || c == 'G' {
        TILE_EXIT
    } else if c == 'p' || c == 'P' || c == 'e' || c == 'E' || c == 'c' || c == 'C' {
        TILE_FLOOR
    } else {
        TILE_WALL
    }
}

impl GameMap {
    /// Builds a level from ASCII rows, one character per cell. Short rows are
    /// padded with wall; the player spawns on the last `p`/`P` and the chaser
    /// on the last `e`/`E`/`c`/`C` in reading order.
    pub fn from_maze(rows: &[&str]) -> (map: Self)
        requires
            rows@.len() <= i32::MAX,
            maze_width(maze_chars(rows@)) <= i32::MAX,
            maze_width(maze_chars(rows@)) * rows@.len() <= usize::MAX,
            has_mark(maze_chars(rows@), true),
            has_mark(maze_chars(rows@), false),
        ensures
            map@.is_maze(maze_chars(rows@)),
            map@.progress_consistent(),
    {
        let ghost m = maze_chars(rows@);
        proof {
            lemma_maze_width_bound(m);
        }
        let mut width: usize = 0;
        let mut i: usize = 0;
        while i < rows.len()
            invariant
                i <= rows@.len(),
                m == maze_chars(rows@),
                width == maze_width(m.take(i as int)),
                maze_width(m) <= i32::MAX,
            decreases rows.len() - i,
        {
            let len = rows[i].unicode_len();
            proof {
                assert(m.take(i + 1).drop_last() == m.take(i as int));
                assert(m.take(i + 1).last() == rows@[i as int]@);
            }
            if len > width {
                width = len;
            }
            i += 1;
        }
        assert(m.take(rows@.len() as int) == m);
        let height = rows.len();
        let mut tiles: Vec<u8> = vec![TILE_WALL; width * height];
        let mut player_spawn: Option<(usize, usize)> = None;
        let mut chaser_spawn: Option<(usize, usize)> = None;
        let mut y: usize = 0;
        assert(tiles_scan(m, width as int, tiles@, 0, 0)) by {
            assert forall|xx: int, yy: int|
                0 <= xx < width && 0 <= yy < m.len() implies #[trigger] tiles@[cell_idx(
                width as int,
                xx,
                yy,
            )] == TILE_WALL by {
                lemma_cell_idx_bounds(width as int, height as int, xx, yy);
            }
        }
        while y < height
            invariant
                y <= height,
                height == rows@.len(),
                m == maze_chars(rows@),
                width == maze_width(m),
                width <= i32::MAX,
                width * height <= usize::MAX,
                forall|i: int| 0 <= i < m.len() ==> #[trigger] m[i].len() <= maze_width(m),
                tiles_scan(m, width as int, tiles@, 0, y as int),
                spawn_scan(m, player_spawn, 0, y as int, true),
                spawn_scan(m, chaser_spawn, 0, y as int, false),
            decreases height - y,
        {
            let row: &str = rows[y];
            assert(m[y as int] == row@);
            let mut x: usize = 0;
            for ch in it: row.chars()
                invariant
                    y < height,
                    height == rows@.len(),
                    m == maze_chars(rows@),
                    width == maze_width(m),
                    width * height <= usize::MAX,
                    m[y as int] == row@,
                    row@.len() <= width,
                    it.seq() == row@,
                    x == it.index(),
                    tiles_scan(m, width as int, tiles@, x as int, y as int),
                    spawn_scan(m, player_spawn, x as int, y as int, true),
                    spawn_scan(m, chaser_spawn, x as int, y as int, false),
            {
                assert(ch == m[y as int][x as int]);
                let tile = symbol_to_tile(ch);
                proof {
                    lemma_cell_idx_bounds(width as int, height as int, x as int, y as int);
                }
                let index = y * width + x;
                let ghost old_tiles = tiles@;
                tiles.set(index, tile);
                if ch == 'p' || ch == 'P' {
                    player_spawn = Some((x, y));
                }
                if ch == 'e' || ch == 'E' || ch == 'c' || ch == 'C' {
                    chaser_spawn = Some((x, y));
                }
                proof {
                    assert forall|xx: int, yy: int|
                        0 <= xx < width && 0 <= yy < m.len() implies #[trigger] tiles@[cell_idx(
                        width as int,
                        xx,
                        yy,
                    )] == if before(xx, yy, x + 1, y as int) {
                        maze_tile(m, xx, yy)
                    } else {
                        TILE_WALL
                    } by {
                        lemma_cell_idx_bounds(width as int, height as int, xx, yy);
                        if xx == x && yy == y {
                        } else {
                            if cell_idx(width as int, xx, yy) == index {
                                lemma_cell_idx_injective(width as int, xx, yy, x as int, y as int);
                            }
                            assert(old_tiles[cell_idx(width as int, xx, yy)] == tiles@[cell_idx(
                                width as int,
                                xx,
                                yy,
                            )]);
                        }
                    }
                }
                x += 1;
            }
            proof {
                assert forall|xx: int, yy: int|
                    0 <= xx < width && 0 <= yy < m.len() implies #[trigger] tiles@[cell_idx(
                    width as int,
                    xx,
                    yy,
                )] == if before(xx, yy, 0, y + 1) {
                    maze_tile(m, xx, yy)
                } else {
                    TILE_WALL
                } by {
                    lemma_cell_idx_bounds(width as int, height as int, xx, yy);
                    assert(before(xx, yy, x as int, y as int) || !before(xx, yy, 0, y + 1) || (yy
                        == y && xx >= row@.len()));
                }
            }
            y += 1;
        }
        let player_spawn = match player_spawn {
            Some(p) => p,
            None => {
                proof {
                    let (a, b) = choose|a: int, b: int| #[trigger] mark_at(m, a, b, true);
                    assert(before(a, b, 0, height as int));
                }
                (0, 0)
            },
        };
        let chaser_spawn = match chaser_spawn {
            Some(p) => p,
            None => {
                proof {
                    let (a, b) = choose|a: int, b: int| #[trigger] mark_at(m, a, b, false);
                    assert(before(a, b, 0, height as int));
                }
                (0, 0)
            },
        };
        let map = GameMap {
            width,
            height,
            tiles,
            has_key: false,
            switch_pressed: false,
            completed: false,
            player_spawn,
            chaser_spawn,
        };
        proof {
            assert forall|xx: int, yy: int| map@.in_bounds(xx, yy) implies #[trigger] map@.tile(
                xx,
                yy,
            ) == maze_tile(m, xx, yy) by {
                assert(before(xx, yy, 0, height as int));
            }
            assert forall|a: int, b: int| #[trigger] mark_at(m, a, b, true) implies !before(
                player_spawn.0 as int,
                player_spawn.1 as int,
                a,
                b,
            ) by {
                assert(before(a, b, 0, height as int));
            }
            assert forall|a: int, b: int| #[trigger] mark_at(m, a, b, false) implies !before(
                chaser_spawn.0 as int,
                chaser_spawn.1 as int,
                a,
                b,
            ) by {
                assert(before(a, b, 0, height as int));
            }
        }
        map
    }
}


impl GameMap {
    /// Grid width in cells.
    pub fn width(&self) -> (w: usize)
        ensures
            w == self@.width,
            0 < w <= i32::MAX,
            self@.tiles.len() == self@.width * self@.height,
            self@.width * self@.height <= usize::MAX,
    {
        proof {
            use_type_invariant(self);
        }
        self.width
    }

    /// Grid height in cells.
    pub fn height(&self) -> (h: usize)
        ensures
            h == self@.height,
            0 < h <= i32::MAX,
            self@.tiles.len() == self@.width * self@.height,
            self@.width * self@.height <= usize::MAX,
    {
        proof {
            use_type_invariant(self);
        }
        self.height
    }

    /// Cell on which the player spawns.
    pub fn player_spawn(&self) -> (cell: (usize, usize))
        ensures
            cell.0 == self@.player_spawn.0,
            cell.1 == self@.player_spawn.1,
            self@.in_bounds(cell.0 as int, cell.1 as int),
    {
        proof {
            use_type_invariant(self);
        }
        self.player_spawn
    }

    /// Cell on which the chaser spawns.
    pub fn chaser_spawn(&self) -> (cell: (usize, usize))
        ensures
            cell.0 == self@.chaser_spawn.0,
            cell.1 == self@.chaser_spawn.1,
            self@.in_bounds(cell.0 as int, cell.1 as int),
    {
        proof {
            use_type_invariant(self);
        }
        self.chaser_spawn
    }

    /// Whether the access card was picked up.
    pub fn has_key(&self) -> (b: bool)
        ensures
            b == self@.has_key,
            self@.progress_consistent(),
    {
        proof {
            use_type_invariant(self);
        }
        self.has_key
    }

    /// Whether the terminal was activated.
    pub fn switch_pressed(&self) -> (b: bool)
        ensures
            b == self@.switch_pressed,
            self@.progress_consistent(),
    {
        proof {
            use_type_invariant(self);
        }
        self.switch_pressed
    }

    /// The door is open exactly when the card is held and the terminal was activated.
    pub fn gate_open(&self) -> (b: bool)
        ensures
            b == (self@.has_key && self@.switch_pressed),
            b == self@.gate_open(),
    {
        self.has_key && self.switch_pressed
    }

    /// Whether the level was completed.
    pub fn completed(&self) -> (b: bool)
        ensures
            b == self@.completed,
            self@.progress_consistent(),
    {
        proof {
            use_type_invariant(self);
        }
        self.completed
    }

    /// Tile stored at cell `(x, y)`; outside the grid reads as wall.
    pub fn tile_at(&self, x: i32, y: i32) -> (t: u8)
        ensures
            t == self@.tile(x as int, y as int),
    {
        proof {
            use_type_invariant(self);
        }
        if x < 0 || y < 0 || x >= self.width as i32 || y >= self.height as i32 {
            return TILE_WALL;
        }
        proof {
            lemma_cell_idx_bounds(self.width as int, self.height as int, x as int, y as int);
        }
        self.tiles[y as usize * self.width + x as usize]
    }

    /// Tile used for drawing and collision: an open door reads as floor.
    pub fn displayed_tile_at(&self, x: i32, y: i32) -> (t: u8)
        ensures
            t == self@.displayed_tile(x as int, y as int),
    {
        let tile = self.tile_at(x, y);
        if tile == TILE_GATE && self.gate_open() {
            TILE_FLOOR
        } else {
            tile
        }
    }

    /// Whether a body whose corners lie in the cells spanned by
    /// `(min_x, min_y)` and `(max_x, max_y)` fits: each of the four corner
    /// cells must be walkable.
    pub fn can_stand_at(&self, min_x: i32, min_y: i32, max_x: i32, max_y: i32) -> (b: bool)
        ensures
            b == (self@.walkable(min_x as int, min_y as int) && self@.walkable(
                max_x as int,
                min_y as int,
            ) && self@.walkable(min_x as int, max_y as int) && self@.walkable(
                max_x as int,
                max_y as int,
            )),
    {
        self.is_walkable_cell(min_x, min_y) && self.is_walkable_cell(max_x, min_y)
            && self.is_walkable_cell(min_x, max_y) && self.is_walkable_cell(max_x, max_y)
    }

    /// Whether walking entities may occupy cell `(x, y)`.
    pub fn is_walkable_cell(&self, x: i32, y: i32) -> (b: bool)
        ensures
            b == self@.walkable(x as int, y as int),
    {
        !self.blocks_player(self.displayed_tile_at(x, y))
    }

    /// Applies the effect of the player standing on cell `(tile_x, tile_y)`:
    /// the card is picked up, the terminal unlocks the door once the card is
    /// held, and the exit completes the level once the door is open.
    pub fn update_player_interactions(&mut self, tile_x: i32, tile_y: i32) -> (message: Option<
        &'static str,
    >)
        ensures
            final(self)@ == old(self)@.after_interaction(tile_x as int, tile_y as int),
            match message {
                Some(text) => old(self)@.interaction_message(tile_x as int, tile_y as int) == Some(
                    text@,
                ),
                None => old(self)@.interaction_message(tile_x as int, tile_y as int) is None,
            },
            final(self)@.progress_consistent(),
    {
        proof {
            use_type_invariant(&*self);
        }
        if self.completed {
            return None;
        }
        let tile = self.tile_at(tile_x, tile_y);
        if tile == TILE_KEY {
            self.set_tile(tile_x, tile_y, TILE_FLOOR);
            proof {
                use_type_invariant(&*self);
            }
            self.has_key = true;
            return Some("ACCESS CARD FOUND");
        }
        if tile == TILE_SWITCH {
            if self.has_key {
                self.switch_pressed = true;
                return Some("DOOR UNLOCKED");
            }
            return Some("NEED ACCESS CARD");
        }
        if tile == TILE_EXIT {
            if self.gate_open() {
                self.completed = true;
                return Some("SITE SECURED");
            }
            return Some("EXIT SEALED");
        }
        None
    }

    /// Collision rule for each kind of tile.
    fn blocks_player(&self, tile: u8) -> (b: bool)
        ensures
            b == tile_blocks(tile, self@.gate_open()),
    {
        if tile == TILE_FLOOR || tile == TILE_KEY || tile == TILE_SWITCH || tile == TILE_EXIT {
            false
        } else if tile == TILE_GATE {
            !self.gate_open()
        } else {
            true
        }
    }

    /// Replaces one cell if it lies inside the grid.
    fn set_tile(&mut self, x: i32, y: i32, tile: u8)
        ensures
            final(self)@ == old(self)@.with_tile(x as int, y as int, tile),
    {
        proof {
            use_type_invariant(&*self);
        }
        if x < 0 || y < 0 || x >= self.width as i32 || y >= self.height as i32 {
            return;
        }
        proof {
            lemma_cell_idx_bounds(self.width as int, self.height as int, x as int, y as int);
        }
        let index = y as usize * self.width + x as usize;
        self.tiles[index] = tile;
    }
}


/// First level.
pub const LEVEL_ONE_MAZE: [&'static str; 25] = [
    "+---+-------+---+---+---------+",
    "| p |       |   |s  |       m |",
    "+-+ +-- +-m | | | r | +---+ + |",
    "| |     |   | |   |   |   |   |",
    "| +-+--r| +-+ +---+ m-+ + +-- |",
    "|   |   | |   |     |     |k  |",
    "| +-+ | | | --+-----+ +-- | +-+",
    "| |   |   |           |   | | |",
    "| | +-+---+ --r-+m--+ | +-+ | |",
    "|   |     |     |   | m |    dg",
    "| |rm +-+ +-----+ | | | +-+m--+",
    "| |   | |       | | | |   |   |",
    "| | +-+ +-+---m | | | +-+ | | |",
    "| | |     |   |   | |   | | | |",
    "| | | + --r | +---+ +-- m | | |",
    "| | | m     |     | |   |   | |",
    "| | +------ | +-- | | --+---r |",
    "| | |       | | m   |       | |",
    "| | | +- -- | | |r--+m------+ |",
    "| |   |     |   |         m   |",
    "| +---r m-+-+-+ +-+ --+-- | --+",
    "|     |   |   |   |   |   |   |",
    "+---- +-- | | +--   | | r-+-- |",
    "|         | |       |      e  |",
    "+---------+-+-------+---------+",
];

/// Second level: the objectives lie at opposite ends.
pub const LEVEL_TWO_MAZE: [&'static str; 25] = [
    "+-----+-----------------------+",
    "| p   |         r             |",
    "| +r+ | m+    | + -- -- rs| + |",
    "|   r         |   m   m | |   |",
    "| + r   + r-- | mrm + --+ | + |",
    "|   |     r       |     |     |",
    "| + | + r | m --r | | | | --- |",
    "|     m   | |   |   | | |     |",
    "| ---r--+ | |r+ | +-r |   r-+ |",
    "|       | r   r   |     +   | |",
    "| m + | r + + +   r +r  r+  | |",
    "| |   |           m r       | |",
    "| +-  r-+-- | + + |   + +r -+ |",
    "| |     |   |     |          dg",
    "| |  -- |r+ r+r + +-r-- +---+r|",
    "| |             r       |   | |",
    "| |m+ +r| | + --m + + + | r | |",
    "|       | | m             |   |",
    "| r---r-+   +   + r-+ + +r| + |",
    "| |       |         |       r |",
    "| | -- +m-+---+ r+m |mm + |   |",
    "|       +     |   m   +   |e+ |",
    "| |k+     m+m +-- + | m+    r |",
    "| |                 |     |   |",
    "+-+-----------------+-----+---+",
];

/// Third level: the player starts on the opposite side.
pub const LEVEL_THREE_MAZE: [&'static str; 25] = [
    "+-----------------------+-----+",
    "|                       |     |",
    "+-- +r+r|   | m   |m+ rr| --- |",
    "|  s    | | |     |           |",
    "| +m| --r | | +r|mr ---   m-- |",
    "|   |     |     |     m   +   |",
    "| +   m  m|m -+ |   +--- +r m |",
    "|   |     |   | | | |     |  dg",
    "| +-+-- | |     +-+ | + | |   |",
    "| |     |   + |   m |   |   | |",
    "| | --r   m r +-- m m   | + +-+",
    "|       +                 m   |",
    "| + + | r m + --- +   r-- --+ |",
    "|     |               k   r | |",
    "| m+r+m+m--r+ r +-  +---- r | |",
    "| +             |   |       r |",
    "|   | | | --- + | | +---+-- | |",
    "|   | | |   r   | |     |   | |",
    "+---r     |   --r | --+ +- +r |",
    "|     | + | m         |       |",
    "|  +m-+   | | +-  --r rm+m -- |",
    "|  e    | | | |     + +       |",
    "| -- --r|   |   +   m m---  + |",
    "|               m           p |",
    "+-----------------------------+",
];

pub proof fn lemma_maze_width_at_most(rows: Seq<Seq<char>>, k: int)
    requires
        k >= 0,
        forall|i: int| 0 <= i < rows.len() ==> #[trigger] rows[i].len() <= k,
    ensures
        maze_width(rows) <= k,
    decreases rows.len(),
{
    if rows.len() > 0 {
        assert forall|i: int| 0 <= i < rows.len() - 1 implies #[trigger] rows.drop_last()[i].len()
            <= k by {
            assert(rows.drop_last()[i] == rows[i]);
        }
        lemma_maze_width_at_most(rows.drop_last(), k);
    }
}

/// The level-one maze is a valid level description.
proof fn lemma_level_one_maze()
    ensures
        maze_width(maze_chars(LEVEL_ONE_MAZE@)) <= 31,
        maze_chars(LEVEL_ONE_MAZE@).len() == 25,
        has_mark(maze_chars(LEVEL_ONE_MAZE@), true),
        has_mark(maze_chars(LEVEL_ONE_MAZE@), false),
{
    let m = maze_chars(LEVEL_ONE_MAZE@);
    assert forall|i: int| 0 <= i < m.len() implies #[trigger] m[i].len() <= 31 by {
        reveal_strlit("+---+-------+---+---+---------+");
        reveal_strlit("| p |       |   |s  |       m |");
        reveal_strlit("+-+ +-- +-m | | | r | +---+ + |");
        reveal_strlit("| |     |   | |   |   |   |   |");
        reveal_strlit("| +-+--r| +-+ +---+ m-+ + +-- |");
        reveal_strlit("|   |   | |   |     |     |k  |");
        reveal_strlit("| +-+ | | | --+-----+ +-- | +-+");
        reveal_strlit("| |   |   |           |   | | |");
        reveal_strlit("| | +-+---+ --r-+m--+ | +-+ | |");
        reveal_strlit("|   |     |     |   | m |    dg");
        reveal_strlit("| |rm +-+ +-----+ | | | +-+m--+");
        reveal_strlit("| |   | |       | | | |   |   |");
        reveal_strlit("| | +-+ +-+---m | | | +-+ | | |");
        reveal_strlit("| | |     |   |   | |   | | | |");
        reveal_strlit("| | | + --r | +---+ +-- m | | |");
        reveal_strlit("| | | m     |     | |   |   | |");
        reveal_strlit("| | +------ | +-- | | --+---r |");
        reveal_strlit("| | |       | | m   |       | |");
        reveal_strlit("| | | +- -- | | |r--+m------+ |");
        reveal_strlit("| |   |     |   |         m   |");
        reveal_strlit("| +---r m-+-+-+ +-+ --+-- | --+");
        reveal_strlit("|     |   |   |   |   |   |   |");
        reveal_strlit("+---- +-- | | +--   | | r-+-- |");
        reveal_strlit("|         | |       |      e  |");
        reveal_strlit("+---------+-+-------+---------+");
    }
    lemma_maze_width_at_most(m, 31);
    reveal_strlit("| p |       |   |s  |       m |");
    reveal_strlit("|         | |       |      e  |");
    assert(mark_at(m, 2, 1, true));
    assert(mark_at(m, 27, 23, false));
}

/// The level-two maze is a valid level description.
proof fn lemma_level_two_maze()
    ensures
        maze_width(maze_chars(LEVEL_TWO_MAZE@)) <= 31,
        maze_chars(LEVEL_TWO_MAZE@).len() == 25,
        has_mark(maze_chars(LEVEL_TWO_MAZE@), true),
        has_mark(maze_chars(LEVEL_TWO_MAZE@), false),
{
    let m = maze_chars(LEVEL_TWO_MAZE@);
    assert forall|i: int| 0 <= i < m.len() implies #[trigger] m[i].len() <= 31 by {
        reveal_strlit("+-----+-----------------------+");
        reveal_strlit("| p   |         r             |");
        reveal_strlit("| +r+ | m+    | + -- -- rs| + |");
        reveal_strlit("|   r         |   m   m | |   |");
        reveal_strlit("| + r   + r-- | mrm + --+ | + |");
        reveal_strlit("|   |     r       |     |     |");
        reveal_strlit("| + | + r | m --r | | | | --- |");
        reveal_strlit("|     m   | |   |   | | |     |");
        reveal_strlit("| ---r--+ | |r+ | +-r |   r-+ |");
        reveal_strlit("|       | r   r   |     +   | |");
        reveal_strlit("| m + | r + + +   r +r  r+  | |");
        reveal_strlit("| |   |           m r       | |");
        reveal_strlit("| +-  r-+-- | + + |   + +r -+ |");
        reveal_strlit("| |     |   |     |          dg");
        reveal_strlit("| |  -- |r+ r+r + +-r-- +---+r|");
        reveal_strlit("| |             r       |   | |");
        reveal_strlit("| |m+ +r| | + --m + + + | r | |");
        reveal_strlit("|       | | m             |   |");
        reveal_strlit("| r---r-+   +   + r-+ + +r| + |");
        reveal_strlit("| |       |         |       r |");
        reveal_strlit("| | -- +m-+---+ r+m |mm + |   |");
        reveal_strlit("|       +     |   m   +   |e+ |");
        reveal_strlit("| |k+     m+m +-- + | m+    r |");
        reveal_strlit("| |                 |     |   |");
        reveal_strlit("+-+-----------------+-----+---+");
    }
    lemma_maze_width_at_most(m, 31);
    reveal_strlit("| p   |         r             |");
    reveal_strlit("|       +     |   m   +   |e+ |");
    assert(mark_at(m, 2, 1, true));
    assert(mark_at(m, 27, 21, false));
}

/// The level-three maze is a valid level description.
proof fn lemma_level_three_maze()
    ensures
        maze_width(maze_chars(LEVEL_THREE_MAZE@)) <= 31,
        maze_chars(LEVEL_THREE_MAZE@).len() == 25,
        has_mark(maze_chars(LEVEL_THREE_MAZE@), true),
        has_mark(maze_chars(LEVEL_THREE_MAZE@), false),
{
    let m = maze_chars(LEVEL_THREE_MAZE@);
    assert forall|i: int| 0 <= i < m.len() implies #[trigger] m[i].len() <= 31 by {
        reveal_strlit("+-----------------------+-----+");
        reveal_strlit("|                       |     |");
        reveal_strlit("+-- +r+r|   | m   |m+ rr| --- |");
        reveal_strlit("|  s    | | |     |           |");
        reveal_strlit("| +m| --r | | +r|mr ---   m-- |");
        reveal_strlit("|   |     |     |     m   +   |");
        reveal_strlit("| +   m  m|m -+ |   +--- +r m |");
        reveal_strlit("|   |     |   | | | |     |  dg");
        reveal_strlit("| +-+-- | |     +-+ | + | |   |");
        reveal_strlit("| |     |   + |   m |   |   | |");
        reveal_strlit("| | --r   m r +-- m m   | + +-+");
        reveal_strlit("|       +                 m   |");
        reveal_strlit("| + + | r m + --- +   r-- --+ |");
        reveal_strlit("|     |               k   r | |");
        reveal_strlit("| m+r+m+m--r+ r +-  +---- r | |");
        reveal_strlit("| +             |   |       r |");
        reveal_strlit("|   | | | --- + | | +---+-- | |");
        reveal_strlit("|   | | |   r   | |     |   | |");
        reveal_strlit("+---r     |   --r | --+ +- +r |");
        reveal_strlit("|     | + | m         |       |");
        reveal_strlit("|  +m-+   | | +-  --r rm+m -- |");
        reveal_strlit("|  e    | | | |     + +       |");
        reveal_strlit("| -- --r|   |   +   m m---  + |");
        reveal_strlit("|               m           p |");
        reveal_strlit("+-----------------------------+");
    }
    lemma_maze_width_at_most(m, 31);
    reveal_strlit("|               m           p |");
    reveal_strlit("|  e    | | | |     + +       |");
    assert(mark_at(m, 28, 23, true));
    assert(mark_at(m, 3, 21, false));
}

impl GameMap {
    /// Number of built-in levels.
    pub fn level_count() -> (n: usize)
        ensures
            n == 3,
    {
        3
    }

    /// Built-in level by index; `None` past the last one.
    pub fn level(index: usize) -> (map: Option<Self>)
        ensures
            index == 0 ==> (map matches Some(m) && m@.is_maze(maze_chars(LEVEL_ONE_MAZE@))),
            index == 1 ==> (map matches Some(m) && m@.is_maze(maze_chars(LEVEL_TWO_MAZE@))),
            index == 2 ==> (map matches Some(m) && m@.is_maze(maze_chars(LEVEL_THREE_MAZE@))),
            index >= 3 ==> map is None,
    {
        match index {
            0 => Some(Self::level_one()),
            1 => Some(Self::level_two()),
            2 => Some(Self::level_three()),
            _ => None,
        }
    }

    /// Builds the level-one maze.
    pub fn level_one() -> (map: Self)
        ensures
            map@.is_maze(maze_chars(LEVEL_ONE_MAZE@)),
            map@.progress_consistent(),
    {
        proof {
            lemma_level_one_maze();
        }
        Self::from_maze(LEVEL_ONE_MAZE.as_slice())
    }

    /// Builds the level-two maze.
    pub fn level_two() -> (map: Self)
        ensures
            map@.is_maze(maze_chars(LEVEL_TWO_MAZE@)),
            map@.progress_consistent(),
    {
        proof {
            lemma_level_two_maze();
        }
        Self::from_maze(LEVEL_TWO_MAZE.as_slice())
    }

    /// Builds the level-three maze.
    pub fn level_three() -> (map: Self)
        ensures
            map@.is_maze(maze_chars(LEVEL_THREE_MAZE@)),
            map@.progress_consistent(),
    {
        proof {
            lemma_level_three_maze();
        }
        Self::from_maze(LEVEL_THREE_MAZE.as_slice())
    }
}


/// Interactions never undo progress: the card, the terminal and completion
/// stay once reached, the objective order is kept, and the grid keeps its
/// size and spawns.
pub proof fn lemma_interaction_keeps_progress(m: MapModel, x: int, y: int)
    requires
        m.progress_consistent(),
        m.tiles.len() == m.width * m.height,
    ensures
        m.after_interaction(x, y).progress_consistent(),
        m.has_key ==> m.after_interaction(x, y).has_key,
        m.switch_pressed ==> m.after_interaction(x, y).switch_pressed,
        m.completed ==> m.after_interaction(x, y).completed,
        m.after_interaction(x, y).width == m.width,
        m.after_interaction(x, y).height == m.height,
        m.after_interaction(x, y).tiles.len() == m.tiles.len(),
        m.after_interaction(x, y).player_spawn == m.player_spawn,
        m.after_interaction(x, y).chaser_spawn == m.chaser_spawn,
{
    if m.in_bounds(x, y) {
        lemma_cell_idx_bounds(m.width, m.height, x, y);
    }
}

/// Standing on a cell changes no other cell of the grid.
pub proof fn lemma_interaction_is_local(m: MapModel, x: int, y: int, a: int, b: int)
    requires
        m.tiles.len() == m.width * m.height,
        a != x || b != y,
    ensures
        m.after_interaction(x, y).tile(a, b) == m.tile(a, b),
{
    if m.in_bounds(a, b) && m.in_bounds(x, y) {
        lemma_cell_idx_bounds(m.width, m.height, a, b);
        lemma_cell_idx_bounds(m.width, m.height, x, y);
        if cell_idx(m.width, a, b) == cell_idx(m.width, x, y) {
            lemma_cell_idx_injective(m.width, a, b, x, y);
        }
    }
}

/// The card is picked up once: its cell turns to floor and standing there
/// again does nothing.
pub proof fn lemma_card_taken_once(m: MapModel, x: int, y: int)
    requires
        m.tiles.len() == m.width * m.height,
        m.tile(x, y) == TILE_KEY,
        !m.completed,
    ensures
        m.interaction_message(x, y) == Some("ACCESS CARD FOUND"@),
        m.after_interaction(x, y).has_key,
        m.after_interaction(x, y).tile(x, y) == TILE_FLOOR,
        m.after_interaction(x, y).interaction_message(x, y) is None,
        m.after_interaction(x, y).after_interaction(x, y) == m.after_interaction(x, y),
{
    lemma_cell_idx_bounds(m.width, m.height, x, y);
}

/// The terminal unlocks the door only for a player holding the card.
pub proof fn lemma_terminal_needs_card(m: MapModel, x: int, y: int)
    requires
        !m.switch_pressed,
        m.after_interaction(x, y).switch_pressed,
    ensures
        m.has_key,
        m.tile(x, y) == TILE_SWITCH,
        m.interaction_message(x, y) == Some("DOOR UNLOCKED"@),
{
}

/// The level is completed only on the exit with the door open.
pub proof fn lemma_exit_needs_open_door(m: MapModel, x: int, y: int)
    requires
        !m.completed,
        m.after_interaction(x, y).completed,
    ensures
        m.gate_open(),
        m.tile(x, y) == TILE_EXIT,
        m.interaction_message(x, y) == Some("SITE SECURED"@),
{
}

/// After completion nothing changes and no message is shown.
pub proof fn lemma_completed_is_final(m: MapModel, x: int, y: int)
    requires
        m.completed,
    ensures
        m.after_interaction(x, y) == m,
        m.interaction_message(x, y) is None,
{
}

/// An open door is drawn and walked through as floor; a closed one blocks.
pub proof fn lemma_door_passable_iff_open(m: MapModel, x: int, y: int)
    requires
        m.tile(x, y) == TILE_GATE,
    ensures
        m.walkable(x, y) == m.gate_open(),
        m.gate_open() ==> m.displayed_tile(x, y) == TILE_FLOOR,
        !m.gate_open() ==> m.displayed_tile(x, y) == TILE_GATE,
{
}

/// Nothing outside the grid can be walked on.
pub proof fn lemma_outside_is_wall(m: MapModel, x: int, y: int)
    requires
        !m.in_bounds(x, y),
    ensures
        m.tile(x, y) == TILE_WALL,
        m.displayed_tile(x, y) == TILE_WALL,
        !m.walkable(x, y),
{
}

} // verus!
