//! Procedural battlefield generation: terrain from noise and cellular
//! automata, a settlement network, roads between settlements and a village
//! layout per settlement. The pipeline is a state machine advanced in
//! bounded steps so a host can spread it across frames.

pub mod rng;
pub mod terrain;
pub mod roads;
pub mod astar;
pub mod noise;
pub mod layers;
pub mod network;
pub mod village;
pub mod gen;

pub use gen::{generate_battlefield, generate_battlefield_n, MapGen, MapLayout};
pub use village::{SettlementSpec, VillageTheme};

use vstd::prelude::*;

verus! {

/// Village layout ring around each zone center, in tiles. It starts beyond
/// the capture circle so the fighting ground stays open.
pub const VILLAGE_RING_MIN: u32 = 7;
pub const VILLAGE_RING_MAX: u32 = 10;
/// Largest building footprint half-extent placed on the ring.
pub const VILLAGE_MAX_FOOTPRINT: u32 = 2;
/// Cleared ground radius a village needs.
pub const VILLAGE_CLEAR_RADIUS: u32 = 13;

} // verus!
