//! Global settings that are whole numbers: window size, frame rate and the
//! minimap placement.

use vstd::prelude::*;

verus! {

/// Width of the internal frame buffer.
pub const SCREEN_WIDTH: usize = 960;
/// Height of the internal frame buffer.
pub const SCREEN_HEIGHT: usize = 540;
/// Whether the window is a borderless window the size of the screen.
pub const BORDERLESS_FULLSCREEN: bool = true;
/// Frame rate the window tries to keep.
pub const TARGET_FPS: usize = 60;
/// Starting number of lives.
pub const STARTING_LIVES: u8 = 3;
/// Largest minimap cell, in pixels.
pub const MINIMAP_CELL_SIZE: usize = 6;
/// Gap between the minimap and the frame edge.
pub const MINIMAP_PADDING: usize = 12;

} // verus!
