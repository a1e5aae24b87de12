//! Game flow decisions: the objective shown to the player, the messages for
//! chaser events, and the window size.

use vstd::prelude::*;
use crate::chaser::ChaserEvent;
use crate::config::{BORDERLESS_FULLSCREEN, SCREEN_HEIGHT, SCREEN_WIDTH};
use crate::map::GameMap;

verus! {

/// Objective shown when no recent event has a message of its own.
pub open spec fn goal_message(completed: bool, has_key: bool, switch_pressed: bool) -> Seq<char> {
    if completed {
        "SITE SECURED"@
    } else if !has_key {
        "FIND ACCESS CARD"@
    } else if !switch_pressed {
        "ACTIVATE TERMINAL"@
    } else {
        "REACH EXIT"@
    }
}

/// Objective shown when no recent event has a message of its own.
pub fn current_goal_message(map: &GameMap) -> (message: &'static str)
    ensures
        message@ == goal_message(map@.completed, map@.has_key, map@.switch_pressed),
{
    if map.completed() {
        "SITE SECURED"
    } else if !map.has_key() {
        "FIND ACCESS CARD"
    } else if !map.switch_pressed() {
        "ACTIVATE TERMINAL"
    } else {
        "REACH EXIT"
    }
}

pub open spec fn event_message(event: ChaserEvent) -> Seq<char> {
    match event {
        ChaserEvent::Spotted => "ANOMALY DETECTED"@,
        ChaserEvent::Lost => "ANOMALY LOST"@,
        ChaserEvent::HitPlayer => "CONTACT REINITIALIZING"@,
    }
}

/// Message shown for a chaser event.
pub fn chaser_event_message(event: &ChaserEvent) -> (message: &'static str)
    ensures
        message@ == event_message(*event),
{
    match event {
        ChaserEvent::Spotted => "ANOMALY DETECTED",
        ChaserEvent::Lost => "ANOMALY LOST",
        ChaserEvent::HitPlayer => "CONTACT REINITIALIZING",
    }
}

/// Size of the primary screen from the system metrics, never smaller than
/// the frame buffer.
pub fn screen_size_from_metrics(metric_width: i32, metric_height: i32) -> (size: (usize, usize))
    ensures
        size.0 == if metric_width > SCREEN_WIDTH as i32 { metric_width as int } else { SCREEN_WIDTH as int },
        size.1 == if metric_height > SCREEN_HEIGHT as i32 { metric_height as int } else { SCREEN_HEIGHT as int },
{
    let width = if metric_width > SCREEN_WIDTH as i32 { metric_width } else { SCREEN_WIDTH as i32 };
    let height = if metric_height > SCREEN_HEIGHT as i32 { metric_height } else { SCREEN_HEIGHT as i32 };
    (width as usize, height as usize)
}

/// Window size: the screen size when the window is borderless fullscreen,
/// the frame buffer size otherwise.
pub fn window_size(screen: (usize, usize)) -> (size: (usize, usize))
    ensures
        size == if BORDERLESS_FULLSCREEN { screen } else { (SCREEN_WIDTH, SCREEN_HEIGHT) },
{
    if BORDERLESS_FULLSCREEN {
        screen
    } else {
        (SCREEN_WIDTH, SCREEN_HEIGHT)
    }
}

} // verus!
