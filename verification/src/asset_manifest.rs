//! Asset metadata shared by every frontend: sprite filenames, frame sizes,
//! frame counts and texture-array indices.

use vstd::prelude::*;
use crate::building::BuildingKind;
use crate::particle::ParticleKind;
use crate::unit::{Faction, UnitAnim, UnitKind, two_sided};

verus! {

/// Sprite specification for one animation or texture.
pub struct SpriteSpec {
    pub filename: &'static str,
    pub frame_w: u32,
    pub frame_h: u32,
    pub frame_count: u32,
}

/// Index of the heal effect in the particle texture array.
pub const HEAL_EFFECT_INDEX: usize = 3;
pub const ROCK_VARIANTS: usize = 4;
pub const BUSH_VARIANTS: usize = 4;
pub const BUSH_FRAME_SIZE: u32 = 128;
pub const BUSH_FRAME_COUNT: u32 = 8;
pub const WATER_ROCK_VARIANTS: usize = 4;
pub const WATER_ROCK_FRAME_SIZE: u32 = 64;
pub const WATER_ROCK_FRAME_COUNT: u32 = 16;

/// Root folder of the art pack.
pub fn asset_base() -> (r: &'static str)
    ensures
        r@ == "assets/Tiny Swords (Free Pack)"@,
{
    "assets/Tiny Swords (Free Pack)"
}

/// Building sprite table: `(width, height, filename)` by slot.
pub open spec fn spec_building_spec(i: int) -> Option<(u32, u32, Seq<char>)> {
    if i == 0 {
        Some((192u32, 256u32, "Barracks.png"@))
    } else if i == 1 {
        Some((192u32, 256u32, "Archery.png"@))
    } else if i == 2 {
        Some((192u32, 320u32, "Monastery.png"@))
    } else if i == 3 {
        Some((320u32, 256u32, "Castle.png"@))
    } else if i == 4 {
        Some((128u32, 256u32, "Tower.png"@))
    } else if i == 5 {
        Some((128u32, 192u32, "House1.png"@))
    } else if i == 6 {
        Some((128u32, 192u32, "House2.png"@))
    } else if i == 7 {
        Some((128u32, 192u32, "House3.png"@))
    } else {
        None
    }
}

/// Building sprite `(width, height, filename)` by slot: kinds 0–4 (barracks,
/// archery, monastery, castle, tower), houses 5–7.
pub fn building_spec(i: usize) -> (r: Option<(u32, u32, &'static str)>)
    ensures
        r is Some <==> i < 8,
        r matches Some(t) ==> spec_building_spec(i as int) == Some((t.0, t.1, t.2@)),
{
    match i {
        0 => Some((192, 256, "Barracks.png")),
        1 => Some((192, 256, "Archery.png")),
        2 => Some((192, 320, "Monastery.png")),
        3 => Some((320, 256, "Castle.png")),
        4 => Some((128, 256, "Tower.png")),
        5 => Some((128, 192, "House1.png")),
        6 => Some((128, 192, "House2.png")),
        7 => Some((128, 192, "House3.png")),
        _ => None,
    }
}

/// Building art folders by faction slot.
pub open spec fn spec_building_faction_folder(i: int) -> Option<Seq<char>> {
    if i == 0 {
        Some("Blue Buildings"@)
    } else if i == 1 {
        Some("Red Buildings"@)
    } else {
        None
    }
}

/// Building art folder by faction slot: Blue 0, Red 1.
pub fn building_faction_folder(i: usize) -> (r: Option<&'static str>)
    ensures
        r is Some <==> i < 2,
        r matches Some(t) ==> spec_building_faction_folder(i as int) == Some(t@),
{
    match i {
        0 => Some("Blue Buildings"),
        1 => Some("Red Buildings"),
        _ => None,
    }
}

/// Tower art folders by color.
pub open spec fn spec_tower_color_folder(i: int) -> Option<Seq<char>> {
    if i == 0 {
        Some("Black Buildings"@)
    } else if i == 1 {
        Some("Blue Buildings"@)
    } else if i == 2 {
        Some("Red Buildings"@)
    } else {
        None
    }
}

/// Tower art folder by color: 0 neutral, 1 Blue, 2 Red.
pub fn tower_color_folder(i: usize) -> (r: Option<&'static str>)
    ensures
        r is Some <==> i < 3,
        r matches Some(t) ==> spec_tower_color_folder(i as int) == Some(t@),
{
    match i {
        0 => Some("Black Buildings"),
        1 => Some("Blue Buildings"),
        2 => Some("Red Buildings"),
        _ => None,
    }
}

/// Tree sheets by variant.
pub open spec fn spec_tree_spec(i: int) -> Option<(u32, u32, u32, Seq<char>)> {
    if i == 0 {
        Some((192u32, 256u32, 8u32, "Tree1.png"@))
    } else if i == 1 {
        Some((192u32, 256u32, 8u32, "Tree2.png"@))
    } else if i == 2 {
        Some((192u32, 192u32, 8u32, "Tree3.png"@))
    } else if i == 3 {
        Some((192u32, 192u32, 8u32, "Tree4.png"@))
    } else {
        None
    }
}

/// Tree sheet `(frame width, frame height, frame count, filename)` by variant.
pub fn tree_spec(i: usize) -> (r: Option<(u32, u32, u32, &'static str)>)
    ensures
        r is Some <==> i < 4,
        r matches Some(t) ==> spec_tree_spec(i as int) == Some((t.0, t.1, t.2, t.3@)),
{
    match i {
        0 => Some((192, 256, 8, "Tree1.png")),
        1 => Some((192, 256, 8, "Tree2.png")),
        2 => Some((192, 192, 8, "Tree3.png")),
        3 => Some((192, 192, 8, "Tree4.png")),
        _ => None,
    }
}

/// Particle sheets by slot.
pub open spec fn spec_particle_spec(i: int) -> Option<(u32, u32, Seq<char>)> {
    if i == 0 {
        Some((64u32, 8u32, "Dust_01.png"@))
    } else if i == 1 {
        Some((192u32, 8u32, "Explosion_01.png"@))
    } else if i == 2 {
        Some((192u32, 10u32, "Explosion_02.png"@))
    } else {
        None
    }
}

/// Particle sheet `(frame size, frame count, filename)` by slot of the
/// particle texture array; the heal effect follows them.
pub fn particle_spec(i: usize) -> (r: Option<(u32, u32, &'static str)>)
    ensures
        r is Some <==> i < 3,
        r matches Some(t) ==> spec_particle_spec(i as int) == Some((t.0, t.1, t.2@)),
{
    match i {
        0 => Some((64, 8, "Dust_01.png")),
        1 => Some((192, 8, "Explosion_01.png")),
        2 => Some((192, 10, "Explosion_02.png")),
        _ => None,
    }
}

/// The heal effect sheet `(frame size, frame count, filename)`, stored at
/// `HEAL_EFFECT_INDEX` after the particle sheets.
pub fn heal_effect_spec() -> (r: (u32, u32, &'static str))
    ensures
        r.0 == 192 && r.1 == 11 && r.2@ == "Heal_Effect.png"@,
{
    (192, 11, "Heal_Effect.png")
}

/// Sheep animations.
pub open spec fn spec_sheep_spec(i: int) -> Option<(Seq<char>, u32)> {
    if i == 0 {
        Some(("Sheep_Idle.png"@, 6u32))
    } else if i == 1 {
        Some(("Sheep_Move.png"@, 4u32))
    } else if i == 2 {
        Some(("Sheep_Grass.png"@, 12u32))
    } else {
        None
    }
}

/// Sheep animation `(filename, frame count)`: idle, move, grazing.
pub fn sheep_spec(i: usize) -> (r: Option<(&'static str, u32)>)
    ensures
        r is Some <==> i < 3,
        r matches Some(t) ==> spec_sheep_spec(i as int) == Some((t.0@, t.1)),
{
    match i {
        0 => Some(("Sheep_Idle.png", 6)),
        1 => Some(("Sheep_Move.png", 4)),
        2 => Some(("Sheep_Grass.png", 12)),
        _ => None,
    }
}

/// Pawn animations by sprite index.
pub open spec fn spec_pawn_spec(i: int) -> Option<(Seq<char>, u32)> {
    if i == 0 {
        Some(("Pawn_Idle.png"@, 8u32))
    } else if i == 1 {
        Some(("Pawn_Run.png"@, 6u32))
    } else if i == 2 {
        Some(("Pawn_Interact Axe.png"@, 6u32))
    } else if i == 3 {
        Some(("Pawn_Idle Wood.png"@, 8u32))
    } else if i == 4 {
        Some(("Pawn_Run Wood.png"@, 6u32))
    } else {
        None
    }
}

/// Pawn animation `(filename, frame count)` by sprite index; frames are
/// 192×192 and textures load at `sprite_index * 2 + faction_index`.
pub fn pawn_spec(i: usize) -> (r: Option<(&'static str, u32)>)
    ensures
        r is Some <==> i < 5,
        r matches Some(t) ==> spec_pawn_spec(i as int) == Some((t.0@, t.1)),
{
    match i {
        0 => Some(("Pawn_Idle.png", 8)),
        1 => Some(("Pawn_Run.png", 6)),
        2 => Some(("Pawn_Interact Axe.png", 6)),
        3 => Some(("Pawn_Idle Wood.png", 8)),
        4 => Some(("Pawn_Run Wood.png", 6)),
        _ => None,
    }
}

/// HUD portraits by avatar index.
pub open spec fn spec_avatar_file(i: int) -> Option<Seq<char>> {
    if i == 0 {
        Some("Avatars_01.png"@)
    } else if i == 1 {
        Some("Avatars_02.png"@)
    } else if i == 2 {
        Some("Avatars_03.png"@)
    } else if i == 3 {
        Some("Avatars_04.png"@)
    } else {
        None
    }
}

/// HUD portrait file by avatar index (see `avatar_index`).
pub fn avatar_file(i: usize) -> (r: Option<&'static str>)
    ensures
        r is Some <==> i < 4,
        r matches Some(t) ==> spec_avatar_file(i as int) == Some(t@),
{
    match i {
        0 => Some("Avatars_01.png"),
        1 => Some("Avatars_02.png"),
        2 => Some("Avatars_03.png"),
        3 => Some("Avatars_04.png"),
        _ => None,
    }
}

/// Multipliers of the position hash that picks the art variant of trees.
pub fn tree_variant_primes() -> (r: (u32, u32))
    ensures
        r == (31u32, 17u32),
{
    (31, 17)
}

/// Multipliers of the position hash that picks the art variant of water rocks.
pub fn water_rock_variant_primes() -> (r: (u32, u32))
    ensures
        r == (37u32, 19u32),
{
    (37, 19)
}

/// Multipliers of the position hash that picks the art variant of bushes.
pub fn bush_variant_primes() -> (r: (u32, u32))
    ensures
        r == (41u32, 23u32),
{
    (41, 23)
}

/// Multipliers of the position hash that picks the art variant of rocks.
pub fn rock_variant_primes() -> (r: (u32, u32))
    ensures
        r == (13u32, 29u32),
{
    (13, 29)
}

/// Asset folder of a unit kind.
pub fn unit_kind_folder(kind: UnitKind) -> (r: &'static str)
    ensures
        r@ == match kind {
            UnitKind::Warrior => "Warrior"@,
            UnitKind::Archer => "Archer"@,
            UnitKind::Lancer => "Lancer"@,
            UnitKind::Monk => "Monk"@,
        },
{
    match kind {
        UnitKind::Warrior => "Warrior",
        UnitKind::Archer => "Archer",
        UnitKind::Lancer => "Lancer",
        UnitKind::Monk => "Monk",
    }
}

/// Sheet filename and frame count of a (kind, animation) pair the art provides.
pub open spec fn spec_unit_sheet(kind: UnitKind, anim: UnitAnim) -> Option<(Seq<char>, u32)> {
    match (kind, anim) {
        (UnitKind::Warrior, UnitAnim::Idle) => Some(("Warrior_Idle.png"@, 8u32)),
        (UnitKind::Warrior, UnitAnim::Run) => Some(("Warrior_Run.png"@, 6u32)),
        (UnitKind::Warrior, UnitAnim::Attack) => Some(("Warrior_Attack1.png"@, 4u32)),
        (UnitKind::Warrior, UnitAnim::Attack2) => Some(("Warrior_Attack2.png"@, 4u32)),
        (UnitKind::Archer, UnitAnim::Idle) => Some(("Archer_Idle.png"@, 6u32)),
        (UnitKind::Archer, UnitAnim::Run) => Some(("Archer_Run.png"@, 4u32)),
        (UnitKind::Archer, UnitAnim::Attack) => Some(("Archer_Shoot.png"@, 8u32)),
        (UnitKind::Lancer, UnitAnim::Idle) => Some(("Lancer_Idle.png"@, 12u32)),
        (UnitKind::Lancer, UnitAnim::Run) => Some(("Lancer_Run.png"@, 6u32)),
        (UnitKind::Lancer, UnitAnim::Attack) => Some(("Lancer_Right_Attack.png"@, 3u32)),
        (UnitKind::Monk, UnitAnim::Idle) => Some(("Idle.png"@, 6u32)),
        (UnitKind::Monk, UnitAnim::Run) => Some(("Run.png"@, 4u32)),
        (UnitKind::Monk, UnitAnim::Attack) => Some(("Heal.png"@, 11u32)),
        _ => None,
    }
}

/// Sprite spec of a (kind, animation) pair; `None` where the art has no such sheet.
/// Frames are square, of the kind's frame size.
pub fn unit_sprite(kind: UnitKind, anim: UnitAnim) -> (r: Option<SpriteSpec>)
    ensures
        r is Some <==> spec_unit_sheet(kind, anim) is Some,
        r matches Some(s) ==> {
            &&& s.filename@ == spec_unit_sheet(kind, anim).unwrap().0
            &&& s.frame_count == spec_unit_sheet(kind, anim).unwrap().1
            &&& s.frame_w == kind.spec_frame_size()
            &&& s.frame_h == kind.spec_frame_size()
        },
{
    let fs = kind.frame_size();
    let (filename, frame_count): (&'static str, u32) = match (kind, anim) {
        (UnitKind::Warrior, UnitAnim::Idle) => ("Warrior_Idle.png", 8),
        (UnitKind::Warrior, UnitAnim::Run) => ("Warrior_Run.png", 6),
        (UnitKind::Warrior, UnitAnim::Attack) => ("Warrior_Attack1.png", 4),
        (UnitKind::Warrior, UnitAnim::Attack2) => ("Warrior_Attack2.png", 4),
        (UnitKind::Archer, UnitAnim::Idle) => ("Archer_Idle.png", 6),
        (UnitKind::Archer, UnitAnim::Run) => ("Archer_Run.png", 4),
        (UnitKind::Archer, UnitAnim::Attack) => ("Archer_Shoot.png", 8),
        (UnitKind::Lancer, UnitAnim::Idle) => ("Lancer_Idle.png", 12),
        (UnitKind::Lancer, UnitAnim::Run) => ("Lancer_Run.png", 6),
        (UnitKind::Lancer, UnitAnim::Attack) => ("Lancer_Right_Attack.png", 3),
        (UnitKind::Monk, UnitAnim::Idle) => ("Idle.png", 6),
        (UnitKind::Monk, UnitAnim::Run) => ("Run.png", 4),
        (UnitKind::Monk, UnitAnim::Attack) => ("Heal.png", 11),
        _ => {
            return None;
        },
    };
    Some(SpriteSpec { filename, frame_w: fs, frame_h: fs, frame_count })
}

pub open spec fn spec_building_tex_index(kind: BuildingKind, house_variant: u8, faction: Faction) -> int {
    let kind_index: int = match kind {
        BuildingKind::Barracks => 0,
        BuildingKind::Archery => 1,
        BuildingKind::Monastery => 2,
        BuildingKind::Castle => 3,
        BuildingKind::DefenseTower => 4,
        BuildingKind::House => 5 + house_variant,
    };
    let faction_index: int = match faction {
        Faction::Blue => 0,
        Faction::Red => 1,
        _ => 0,
    };
    kind_index * 2 + faction_index
}

/// Texture-array index of a building: `kind_index * 2 + faction_index`
/// (kinds 0–4, houses 5 + variant; Blue 0, Red 1). Building art exists for
/// the Blue and Red sides only.
pub fn building_tex_index(kind: BuildingKind, house_variant: u8, faction: Faction) -> (r: usize)
    requires
        two_sided(faction),
    ensures
        r == spec_building_tex_index(kind, house_variant, faction),
{
    let kind_index: usize = match kind {
        BuildingKind::Barracks => 0,
        BuildingKind::Archery => 1,
        BuildingKind::Monastery => 2,
        BuildingKind::Castle => 3,
        BuildingKind::DefenseTower => 4,
        BuildingKind::House => 5 + house_variant as usize,
    };
    let faction_index: usize = match faction {
        Faction::Blue => 0,
        Faction::Red => 1,
        _ => 0,
    };
    kind_index * 2 + faction_index
}

/// Index of a particle kind in the particle texture array.
pub fn particle_sprite_index(kind: ParticleKind) -> (r: usize)
    ensures
        r == match kind {
            ParticleKind::Dust => 0usize,
            ParticleKind::ExplosionLarge => 2usize,
            ParticleKind::HealEffect => HEAL_EFFECT_INDEX,
        },
{
    match kind {
        ParticleKind::Dust => 0,
        ParticleKind::ExplosionLarge => 2,
        ParticleKind::HealEffect => HEAL_EFFECT_INDEX,
    }
}

/// Avatar portrait index: Warrior 0, Lancer 1, Archer 2, Monk 3.
pub fn avatar_index(kind: UnitKind) -> (r: usize)
    ensures
        r == match kind {
            UnitKind::Warrior => 0usize,
            UnitKind::Lancer => 1usize,
            UnitKind::Archer => 2usize,
            UnitKind::Monk => 3usize,
        },
{
    match kind {
        UnitKind::Warrior => 0,
        UnitKind::Lancer => 1,
        UnitKind::Archer => 2,
        UnitKind::Monk => 3,
    }
}

/// Distinct buildings (kind, house variant among the three, faction) map to
/// distinct texture slots.
pub proof fn law_building_textures_distinct(
    k1: BuildingKind,
    v1: u8,
    f1: Faction,
    k2: BuildingKind,
    v2: u8,
    f2: Faction,
)
    requires
        v1 < 3,
        v2 < 3,
        two_sided(f1),
        two_sided(f2),
        spec_building_tex_index(k1, v1, f1) == spec_building_tex_index(k2, v2, f2),
    ensures
        k1 == k2,
        f1 == f2,
        k1 == BuildingKind::House ==> v1 == v2,
{
}

} // verus!
