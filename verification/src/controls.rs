//! The two small rules by which a user drives the path finder: what the
//! mouse and the keys paint, and when a search that runs by itself takes
//! its next step.

use vstd::prelude::*;
use crate::grid::TileState;

verus! {

/// The fastest pace of a search that runs by itself: at this speed it takes
/// a step with every tick.
pub const MAX_AUTO_SPEED: usize = 20;

/// What the tile under the cursor becomes. The left button paints a wall,
/// the right button clears the tile, the key for a start makes it a start
/// and the key for a goal a goal; where several are down at once, the one
/// named last here has its way.
pub open spec fn painted(wall: bool, clear: bool, start: bool, goal: bool) -> Option<TileState> {
    if goal {
        Some(TileState::Goal)
    } else if start {
        Some(TileState::Start)
    } else if clear {
        Some(TileState::Empty)
    } else if wall {
        Some(TileState::Wall)
    } else {
        None
    }
}

/// Computes [`painted`].
pub fn brush(wall: bool, clear: bool, start: bool, goal: bool) -> (state: Option<TileState>)
    ensures
        state == painted(wall, clear, start, goal),
{
    let mut state = None;
    if wall {
        state = Some(TileState::Wall);
    }
    if clear {
        state = Some(TileState::Empty);
    }
    if start {
        state = Some(TileState::Start);
    }
    if goal {
        state = Some(TileState::Goal);
    }
    state
}

/// The count of ticks after one more tick, and whether the search takes a
/// step with it. A search that does not run by itself counts nothing and
/// takes no step. One that does takes a step, and counts anew, as soon as
/// it has counted as many ticks as its speed lacks to the fastest.
pub open spec fn ticked(enabled: bool, speed: usize, tick: usize) -> (usize, bool) {
    if !enabled {
        (0, false)
    } else if tick + 1 >= MAX_AUTO_SPEED - speed {
        (0, true)
    } else {
        ((tick + 1) as usize, false)
    }
}

/// Computes [`ticked`] for a speed up to [`MAX_AUTO_SPEED`] and a count of
/// ticks below it, as every count is that this function gave.
pub fn auto_tick(enabled: bool, speed: usize, tick: usize) -> (next: (usize, bool))
    requires
        speed <= MAX_AUTO_SPEED,
        tick < MAX_AUTO_SPEED,
    ensures
        next == ticked(enabled, speed, tick),
        next.0 < MAX_AUTO_SPEED,
{
    if !enabled {
        return (0, false);
    }
    let counted = tick + 1;
    if counted >= MAX_AUTO_SPEED - speed {
        (0, true)
    } else {
        (counted, false)
    }
}

} // verus!
