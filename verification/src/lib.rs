//! A grid-based hazard-deduction puzzle: an agent moves through a hidden
//! grid of rooms, some of which hold hazards (pits, a wampus) or gold, and
//! each hazard announces itself by a cue felt in the adjacent rooms.  The
//! heart of the crate is an inference engine that accumulates these local
//! cues and derives which rooms are safe, which may hold a hazard, and
//! which definitely do.

pub mod board;
pub mod board_analyzer;
pub mod percepts;
pub mod player;
pub mod point;

use vstd::prelude::*;

verus! {

} // verus!
