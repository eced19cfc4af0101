use battlefield::mapgen::VillageTheme;
use battlefield::start::{
    army_spawn_tile, capital_control, distinct_themes, pawn_job, spawn_seed_next, village_sheep_seed,
    wave_unit, worker_theme, PawnJob, WAVE_SIZE,
};
use battlefield::unit::{Faction, UnitKind};
use battlefield::zone::ZoneState;

#[test]
fn starting_army_composition() {
    let mut counts = [0usize; 4];
    for i in 0..WAVE_SIZE {
        let k = wave_unit(i).unwrap();
        let slot = match k {
            UnitKind::Warrior => 0,
            UnitKind::Lancer => 1,
            UnitKind::Archer => 2,
            UnitKind::Monk => 3,
        };
        counts[slot] += 1;
    }
    assert_eq!(counts, [7, 4, 8, 2]);
    assert_eq!(wave_unit(3), Some(UnitKind::Monk));
    assert_eq!(wave_unit(WAVE_SIZE), None);
}

#[test]
fn starting_army_stands_in_rows_of_five() {
    assert_eq!(army_spawn_tile((50, 40), 0), (48, 39));
    assert_eq!(army_spawn_tile((50, 40), 4), (52, 39));
    assert_eq!(army_spawn_tile((50, 40), 7), (50, 40));
    assert_eq!(army_spawn_tile((1, 0), 20), (0, 4));
}

#[test]
fn each_side_starts_holding_its_capital() {
    let s = capital_control(5, &vec![Faction::Blue, Faction::Red, Faction::Yellow]);
    assert_eq!(s.len(), 5);
    assert_eq!(s[0], ZoneState::Controlled(Faction::Blue));
    assert_eq!(s[2], ZoneState::Controlled(Faction::Yellow));
    assert_eq!(s[3], ZoneState::Neutral);
    assert_eq!(s[4], ZoneState::Neutral);
}

#[test]
fn workers_take_turns_over_the_settlement_themes() {
    assert_eq!(pawn_job(VillageTheme::Gold), PawnJob::Mine);
    assert_eq!(pawn_job(VillageTheme::Wood), PawnJob::Chop);
    assert_eq!(pawn_job(VillageTheme::Meat), PawnJob::Herd);
    let themes = distinct_themes(&vec![
        VillageTheme::Wood,
        VillageTheme::Wood,
        VillageTheme::Gold,
        VillageTheme::Wood,
        VillageTheme::Meat,
    ]);
    assert_eq!(themes, vec![VillageTheme::Wood, VillageTheme::Gold, VillageTheme::Meat]);
    assert_eq!(worker_theme(&themes, VillageTheme::Gold, 4), VillageTheme::Gold);
    assert_eq!(worker_theme(&Vec::new(), VillageTheme::Meat, 4), VillageTheme::Meat);
}

#[test]
fn spawn_seeds_follow_the_sequence() {
    assert_eq!(spawn_seed_next(0), 12345);
    assert_eq!(spawn_seed_next(1), 1103527590);
    assert_eq!(village_sheep_seed(2, 3), 2 * 0x0065_B0A5 + 3);
    assert_eq!(village_sheep_seed(u32::MAX, 0), 0u32.wrapping_sub(0x0065_B0A5));
}
