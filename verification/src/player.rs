//! Lives of the player.

use vstd::prelude::*;

verus! {

/// Lives left after the chaser reaches the player (never below zero), and
/// whether the player goes back to the spawn point, which happens only while
/// lives remain.
pub fn take_hit(lives: u8) -> (result: (u8, bool))
    ensures
        result.0 == if lives > 0 {
            lives - 1
        } else {
            0
        },
        result.1 == (result.0 > 0),
{
    let remaining = lives.saturating_sub(1);
    (remaining, remaining > 0)
}

} // verus!
