//! A tick-by-tick simulator of a wave-based boss arena: spawn-code parsing,
//! arena geometry and line of sight, monster and player behaviour, damage
//! accounting with protection prayers, and tile scoring.
use vstd::prelude::*;

pub mod constants;
pub mod types;
pub mod events;
pub mod rng;
pub mod queue;
pub mod runtime;
pub mod loadout;
pub mod mechanics;
pub mod spawn;
pub mod scoring;
pub mod region;
pub mod sight;
pub mod damage;
pub mod prayer;
pub mod state;
pub mod setup;
pub mod lifecycle;
pub mod dig;
pub mod movement;
pub mod mob_attack;
pub mod player_attack;
pub mod tick;
pub mod run;
pub mod summary;
pub mod ranking;
pub mod tiles;
pub mod batch;

verus! {
} // verus!
