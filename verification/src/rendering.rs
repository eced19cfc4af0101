//! Sprite addressing shared by the frontends: which texture a draw call
//! needs, the metadata a backend reports, and the Y-sorted drawable tags.

use vstd::prelude::*;
use crate::unit::{Faction, UnitAnim, UnitKind};
use crate::zone::ZoneState;

verus! {

/// Identifies a loaded sprite or texture for backend lookup.
#[derive(Clone, Copy, Debug, PartialEq, Eq, Structural)]
pub enum SpriteKey {
    /// Unit animation sheet.
    Unit { faction: Faction, kind: UnitKind, anim: UnitAnim },
    /// Base building texture (index from `building_tex_index`).
    Building(usize),
    /// Tower color variant (0 = neutral, 1 = Blue, 2 = Red).
    Tower(usize),
    /// Neutral (black) building texture.
    NeutralBuilding(usize),
    Tree(usize),
    Rock(usize),
    Bush(usize),
    WaterRock(usize),
    GoldStone(usize),
    /// Particle effect (index from `particle_sprite_index`).
    Particle(usize),
    Arrow,
    /// Sheep animation (0 = Idle, 1 = Move, 2 = Grass).
    Sheep(usize),
    /// Pawn worker: color index × sheet count + sheet index.
    Pawn(usize),
    /// Unit avatar portrait (index from `avatar_index`).
    Avatar(usize),
    /// Resource icon (meat, gold, wood).
    ResourceIcon(usize),
}

/// Metadata a backend reports for a loaded sprite.
#[derive(Clone, Copy, Debug)]
pub struct SpriteInfo {
    pub frame_w: u32,
    pub frame_h: u32,
    pub frame_count: u32,
}

/// A drawable entity tag for Y-sorted rendering.
#[derive(Clone, Copy)]
pub enum Drawable {
    Unit(usize),
    Tree(u32, u32),
    WaterRock(u32, u32),
    GoldStone(u32, u32),
    BaseBuilding(usize),
    Particle(usize),
    Sheep(usize),
    Pawn(usize),
    ElevatedTile(u32, u32),
}

/// Faction whose colors a pawn wears: a village pawn follows the owner of its
/// zone (nobody while the zone is neutral or contested), a base pawn its own faction.
pub open spec fn pawn_owner(zone_id: Option<u8>, faction: Faction, zone_states: Seq<ZoneState>) -> Option<
    Faction,
> {
    match zone_id {
        None => Some(faction),
        Some(zid) => if (zid as int) < zone_states.len() {
            match zone_states[zid as int] {
                ZoneState::Controlled(f) => Some(f),
                ZoneState::Capturing(f) => Some(f),
                _ => None,
            }
        } else {
            None
        },
    }
}

/// Sprite color index of a pawn: Blue 0, Red 1, villagers and neutral
/// black 2, Yellow 3, Purple 4.
pub fn pawn_color_index(zone_id: Option<u8>, faction: Faction, zone_states: &[ZoneState]) -> (r:
    usize)
    ensures
        r == match pawn_owner(zone_id, faction, zone_states@) {
            Some(Faction::Blue) => 0usize,
            Some(Faction::Red) => 1usize,
            Some(Faction::Yellow) => 3usize,
            Some(Faction::Purple) => 4usize,
            Some(Faction::Villager) => 2usize,
            None => 2usize,
        },
{
    let owner = match zone_id {
        None => Some(faction),
        Some(zid) => {
            if (zid as usize) < zone_states.len() {
                match zone_states[zid as usize] {
                    ZoneState::Controlled(f) => Some(f),
                    ZoneState::Capturing(f) => Some(f),
                    _ => None,
                }
            } else {
                None
            }
        },
    };
    match owner {
        Some(Faction::Blue) => 0,
        Some(Faction::Red) => 1,
        Some(Faction::Yellow) => 3,
        Some(Faction::Purple) => 4,
        Some(Faction::Villager) | None => 2,
    }
}

} // verus!
