# run_from_ye

A first-person ray-casting maze game: find the access card, activate the
terminal, open the door and reach the exit while a wall that wakes up when
you come near hunts you through the maze.

The game logic is a library verified with Verus; the program around it is
ordinary Rust.

- `src/` — the verified library
  - `map.rs`: the ASCII level format, tile rules, collisions and the
    objective sequence, with the laws of that sequence
  - `pathfinding.rs`: breadth-first routes between cells, proved complete and
    shortest
  - `chaser.rs`: the chasing wall's decisions and events
  - `texture.rs`: the procedural wall textures
  - `renderer.rs`: the frame buffer, drawing primitives, bitmap font, menus,
    HUD and minimap grid, each specified as layers painted over the frame
  - `sprite.rs`: sprite images: decoding an image file's bytes (through the
    `image` crate, behind one trusted wrapper), color keying and
    nearest-neighbour sampling
  - `player.rs`, `game.rs`, `config.rs`: lives, messages, window size and
    constants
- `tests/` — tests of the library
- `app/` — the program: window and input (minifb), reading image files,
  the floating-point view (ray casting, sprite projection, shading) and
  the movement of the player and the chaser
