//! Defaults of the integer game-configuration fields.

use vstd::prelude::*;

verus! {

/// Side length of the playable map area in tiles.
pub fn default_playable_size() -> (r: u32)
    ensures
        r == crate::grid::PLAYABLE_SIZE,
{
    crate::grid::PLAYABLE_SIZE
}

/// Most peon deliveries a village can bank.
pub fn default_village_stock_cap() -> (r: u8)
    ensures
        r == 5,
{
    5
}

/// Number of enemy factions.
pub fn default_enemy_count() -> (r: u8)
    ensures
        r == 1,
{
    1
}

/// Standing garrison a village maintains.
pub fn default_garrison_cap() -> (r: u8)
    ensures
        r == 4,
{
    4
}

/// Zones a faction must control before the enemy manpower pool starts bleeding.
pub fn default_bleed_zone_threshold() -> (r: usize)
    ensures
        r == 4,
{
    4
}

} // verus!
