use battlefield::asset_manifest::{
    asset_base, avatar_file, avatar_index, building_faction_folder, building_spec, building_tex_index,
    bush_variant_primes, heal_effect_spec, particle_spec, particle_sprite_index, pawn_spec,
    rock_variant_primes, sheep_spec, tower_color_folder, tree_spec, tree_variant_primes,
    unit_kind_folder, unit_sprite, water_rock_variant_primes,
};
use battlefield::building::{building_for_unit, BuildingKind};
use battlefield::particle::ParticleKind;
use battlefield::unit::{Faction, UnitAnim, UnitKind};

#[test]
fn building_for_unit_mapping() {
    assert_eq!(building_for_unit(UnitKind::Warrior), BuildingKind::Barracks);
    assert_eq!(building_for_unit(UnitKind::Lancer), BuildingKind::Barracks);
    assert_eq!(building_for_unit(UnitKind::Archer), BuildingKind::Archery);
    assert_eq!(building_for_unit(UnitKind::Monk), BuildingKind::Monastery);
}

#[test]
fn combat_buildings_fire_for_two() {
    assert!(BuildingKind::Castle.is_combat());
    assert!(BuildingKind::DefenseTower.is_combat());
    assert!(!BuildingKind::House.is_combat());
    assert_eq!(BuildingKind::Castle.attack_damage(), 2);
    assert_eq!(BuildingKind::Barracks.attack_damage(), 0);
}

#[test]
fn building_sprites_and_footprints() {
    assert_eq!(BuildingKind::Monastery.sprite_size(), (192, 320));
    assert_eq!(BuildingKind::Castle.footprint_offsets().len(), 5);
    assert_eq!(BuildingKind::House.footprint_offsets(), &[(0, -1)]);
    assert_eq!(BuildingKind::DefenseTower.asset_filename(), "Tower.png");
}

#[test]
fn building_texture_slots() {
    assert_eq!(building_tex_index(BuildingKind::Barracks, 0, Faction::Blue), 0);
    assert_eq!(building_tex_index(BuildingKind::Castle, 0, Faction::Red), 7);
    assert_eq!(building_tex_index(BuildingKind::House, 2, Faction::Red), 15);
}

#[test]
fn unit_sprite_specs() {
    let s = unit_sprite(UnitKind::Warrior, UnitAnim::Attack2).unwrap();
    assert_eq!(s.filename, "Warrior_Attack2.png");
    assert_eq!(s.frame_count, 4);
    assert_eq!(s.frame_w, s.frame_h);
    assert!(unit_sprite(UnitKind::Monk, UnitAnim::Attack2).is_none());
    assert_eq!(unit_kind_folder(UnitKind::Lancer), "Lancer");
    assert_eq!(avatar_index(UnitKind::Archer), 2);
}

#[test]
fn particle_metadata() {
    assert_eq!(ParticleKind::Dust.frame_count(), 8);
    assert_eq!(ParticleKind::ExplosionLarge.frame_size(), 192);
    assert_eq!(ParticleKind::HealEffect.asset_filename(), "Heal_Effect.png");
    assert_eq!(particle_sprite_index(ParticleKind::HealEffect), 3);
    assert_eq!(particle_sprite_index(ParticleKind::ExplosionLarge), 2);
}

#[test]
fn asset_tables_by_index() {
    assert_eq!(asset_base(), "assets/Tiny Swords (Free Pack)");
    assert_eq!(building_spec(2), Some((192, 320, "Monastery.png")));
    assert_eq!(building_spec(7), Some((128, 192, "House3.png")));
    assert_eq!(building_spec(8), None);
    assert_eq!(building_faction_folder(1), Some("Red Buildings"));
    assert_eq!(tower_color_folder(0), Some("Black Buildings"));
    assert_eq!(tree_spec(2), Some((192, 192, 8, "Tree3.png")));
    assert_eq!(particle_spec(2), Some((192, 10, "Explosion_02.png")));
    assert_eq!(heal_effect_spec(), (192, 11, "Heal_Effect.png"));
    assert_eq!(sheep_spec(2), Some(("Sheep_Grass.png", 12)));
    assert_eq!(pawn_spec(2), Some(("Pawn_Interact Axe.png", 6)));
    assert_eq!(pawn_spec(5), None);
    assert_eq!(avatar_file(avatar_index(UnitKind::Monk)), Some("Avatars_04.png"));
    assert_eq!(tree_variant_primes(), (31, 17));
    assert_eq!(water_rock_variant_primes(), (37, 19));
    assert_eq!(bush_variant_primes(), (41, 23));
    assert_eq!(rock_variant_primes(), (13, 29));
}
