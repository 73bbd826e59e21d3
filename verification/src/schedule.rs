//! The fixed-timestep pacing decisions of the host loop: real time
//! advances in variable increments, and the timer decides when a fixed
//! simulation tick is due and, between ticks, when a redraw is due, so
//! that simulation speed never depends on frame rate.

use vstd::prelude::*;

verus! {

/// The fixed simulation step, in milliseconds.
pub const GAME_TICK_IN_MS: u64 = 250;

/// The wall-clock accumulator driving one simulation: when to tick and
/// when to redraw.
pub struct TickTimer {
    /// The fixed simulation step in milliseconds.
    pub game_tick_ms: u64,
    /// The target redraw interval in milliseconds.
    pub redraw_ms: u64,
    /// When the last tick was issued.
    pub game_tick_timer: u64,
    /// When the last redraw was issued.
    pub redraw_timer: u64,
}

impl TickTimer {
    /// A timer with both intervals, starting at time zero.
    pub fn new(game_tick_ms: u64, redraw_ms: u64) -> (r: TickTimer)
        ensures
            r.game_tick_ms == game_tick_ms,
            r.redraw_ms == redraw_ms,
            r.game_tick_timer == 0,
            r.redraw_timer == 0,
    {
        TickTimer { game_tick_ms, redraw_ms, game_tick_timer: 0, redraw_timer: 0 }
    }

    /// One pacing decision at wall-clock time `curr_time`: a tick is due
    /// once a whole step has accumulated since the last one; otherwise a
    /// redraw is due once the redraw interval has passed. The issued
    /// timer, and only that one, catches up to `curr_time`.
    pub fn advance(&mut self, curr_time: u64) -> (r: (bool, bool))
        requires
            old(self).game_tick_timer + old(self).game_tick_ms <= u64::MAX,
            old(self).redraw_timer + old(self).redraw_ms <= u64::MAX,
        ensures
            r.0 == (curr_time > old(self).game_tick_timer + old(self).game_tick_ms),
            r.1 == (!r.0 && curr_time > old(self).redraw_timer + old(self).redraw_ms),
            final(self).game_tick_ms == old(self).game_tick_ms,
            final(self).redraw_ms == old(self).redraw_ms,
            final(self).game_tick_timer == (if r.0 {
                curr_time
            } else {
                old(self).game_tick_timer
            }),
            final(self).redraw_timer == (if r.1 {
                curr_time
            } else {
                old(self).redraw_timer
            }),
    {
        if curr_time > self.game_tick_timer + self.game_tick_ms {
            self.game_tick_timer = curr_time;
            (true, false)
        } else if curr_time > self.redraw_timer + self.redraw_ms {
            self.redraw_timer = curr_time;
            (false, true)
        } else {
            (false, false)
        }
    }
}

} // verus!
