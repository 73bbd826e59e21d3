//! Simulation core of a 2D tile-based RPG engine: sparse region/tile
//! storage, behavior graphs interpreted once per entity per tick, an
//! instance lifecycle state machine, a fixed-step tick scheduler and a
//! pull-based update protocol, plus the integer pixel-buffer drawing
//! primitives the renderers build on.

pub mod behavior;
pub mod draw2d;
pub mod error;
pub mod gamedata;
pub mod instance;
pub mod interpreter;
pub mod laws;
pub mod region;
pub mod schedule;
pub mod tileset;
pub mod value;
pub mod widgets;

use vstd::prelude::*;

verus! {

/// Returns true if the given rect contains the given position.
pub fn contains_pos_for(pos: (usize, usize), rect: (usize, usize, usize, usize)) -> (r: bool)
    ensures
        r == (rect.0 <= pos.0 < rect.0 + rect.2 && rect.1 <= pos.1 < rect.1 + rect.3),
{
    pos.0 >= rect.0 && pos.0 - rect.0 < rect.2 && pos.1 >= rect.1 && pos.1 - rect.1 < rect.3
}

} // verus!
