//! Decisions of the chasing wall: when it wakes, gives up, re-plans its
//! route and catches the player.

use vstd::prelude::*;

verus! {

/// Something the chaser did this frame.
#[derive(PartialEq, Eq, Structural)]
pub enum ChaserEvent {
    /// The player came within waking range.
    Spotted,
    /// The player got far enough away.
    Lost,
    /// The chaser reached the player.
    HitPlayer,
}

/// What the chaser does this frame, before it moves.
#[derive(PartialEq, Eq, Structural)]
pub enum ChaserStep {
    /// The level is over: stop chasing and forget the route.
    Stand,
    /// Dormant and the player is out of range: nothing happens.
    Doze,
    /// Dormant and the player is in range: start chasing, plan a route, report `Spotted`.
    Wake,
    /// Chasing but the player is too far: stop, forget the route, report `Lost`.
    GiveUp,
    /// Keep chasing, re-planning the route first when it is due, then move.
    Pursue { replan: bool },
}

/// The chaser's decision from the level state, its own state and how far the
/// player is: `within_wake` when the player is within waking distance,
/// `beyond_lose` when at least the losing distance away, and `replan_due`
/// when the re-planning timer has run out.
pub open spec fn next_step(completed: bool, active: bool, within_wake: bool, beyond_lose: bool, replan_due: bool) -> ChaserStep {
    if completed {
        ChaserStep::Stand
    } else if !active {
        if within_wake {
            ChaserStep::Wake
        } else {
            ChaserStep::Doze
        }
    } else if beyond_lose {
        ChaserStep::GiveUp
    } else {
        ChaserStep::Pursue { replan: replan_due }
    }
}

/// Whether the chaser is chasing after taking `step`.
pub open spec fn chasing_after(step: ChaserStep) -> bool {
    step is Wake || step is Pursue
}

/// Event reported for `step`; after `Pursue` it depends on whether the
/// chaser reached the player.
pub open spec fn event_of(step: ChaserStep, reached_player: bool) -> Option<ChaserEvent> {
    match step {
        ChaserStep::Wake => Some(ChaserEvent::Spotted),
        ChaserStep::GiveUp => Some(ChaserEvent::Lost),
        ChaserStep::Pursue { .. } => if reached_player {
            Some(ChaserEvent::HitPlayer)
        } else {
            None
        },
        _ => None,
    }
}

/// The chaser's decision for this frame (see `next_step`).
pub fn chaser_step(completed: bool, active: bool, within_wake: bool, beyond_lose: bool, replan_due: bool) -> (step: ChaserStep)
    ensures
        step == next_step(completed, active, within_wake, beyond_lose, replan_due),
{
    if completed {
        return ChaserStep::Stand;
    }
    if !active {
        if within_wake {
            return ChaserStep::Wake;
        }
        return ChaserStep::Doze;
    }
    if beyond_lose {
        return ChaserStep::GiveUp;
    }
    ChaserStep::Pursue { replan: replan_due }
}

/// Whether the chaser is chasing after taking `step`.
pub fn active_after(step: &ChaserStep) -> (b: bool)
    ensures
        b == chasing_after(*step),
{
    match step {
        ChaserStep::Wake => true,
        ChaserStep::Pursue { .. } => true,
        _ => false,
    }
}

/// Event reported for `step` (see `event_of`).
pub fn step_event(step: &ChaserStep, reached_player: bool) -> (event: Option<ChaserEvent>)
    ensures
        event == event_of(*step, reached_player),
{
    match step {
        ChaserStep::Wake => Some(ChaserEvent::Spotted),
        ChaserStep::GiveUp => Some(ChaserEvent::Lost),
        ChaserStep::Pursue { .. } => {
            if reached_player {
                Some(ChaserEvent::HitPlayer)
            } else {
                None
            }
        },
        _ => None,
    }
}

/// Once the level is over the chaser stands still and reports nothing.
pub proof fn lemma_completed_level_stills_the_chaser(active: bool, within_wake: bool, beyond_lose: bool, replan_due: bool, reached_player: bool)
    ensures
        !chasing_after(next_step(true, active, within_wake, beyond_lose, replan_due)),
        event_of(next_step(true, active, within_wake, beyond_lose, replan_due), reached_player) is None,
{
}

/// Each event comes from one situation only: `Spotted` from a dormant chaser
/// with the player in waking range, `Lost` from a chasing one with the player
/// beyond the losing distance, `HitPlayer` from a chasing one that reached
/// the player while still in range; none of them once the level is over.
pub proof fn lemma_events_match_their_situation(completed: bool, active: bool, within_wake: bool, beyond_lose: bool, replan_due: bool, reached_player: bool)
    ensures
        event_of(next_step(completed, active, within_wake, beyond_lose, replan_due), reached_player)
            == Some(ChaserEvent::Spotted) <==> (!completed && !active && within_wake),
        event_of(next_step(completed, active, within_wake, beyond_lose, replan_due), reached_player)
            == Some(ChaserEvent::Lost) <==> (!completed && active && beyond_lose),
        event_of(next_step(completed, active, within_wake, beyond_lose, replan_due), reached_player)
            == Some(ChaserEvent::HitPlayer) <==> (!completed && active && !beyond_lose && reached_player),
{
}

/// Waking and losing use separate distances: a dormant chaser wakes whenever
/// the player is in waking range, and a chasing one keeps chasing until the
/// player is beyond the losing distance, in waking range or not.
pub proof fn lemma_chase_hysteresis(active: bool, within_wake: bool, beyond_lose: bool, replan_due: bool)
    ensures
        !active ==> (chasing_after(next_step(false, active, within_wake, beyond_lose, replan_due)) <==> within_wake),
        active ==> (chasing_after(next_step(false, active, within_wake, beyond_lose, replan_due)) <==> !beyond_lose),
{
}

} // verus!
