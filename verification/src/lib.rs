//! Headless battlefield logic: terrain grid, flow-field navigation, combat
//! arithmetic, the recruit economy and opening position, procedural map
//! generation and the pure rendering helpers that every frontend shares.

pub mod grid;
pub mod unit;
pub mod zone;
pub mod combat;
pub mod heap;
pub mod flowfield;
pub mod building;
pub mod particle;
pub mod asset_manifest;
pub mod render_util;
pub mod rendering;
pub mod recruit;
pub mod start;
pub mod pawn;
pub mod sheep;
pub mod config;
pub mod mapgen;
pub mod setup;
