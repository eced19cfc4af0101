use battlefield::combat::{calc_melee_damage, calc_ranged_damage, execute_heal, execute_melee};
use battlefield::grid::{Grid, TileKind, GRID_SIZE};
use battlefield::unit::{Faction, Unit, UnitAnim, UnitKind};

fn make_warrior(id: u32, faction: Faction, x: u32, y: u32) -> Unit {
    Unit::new(id, UnitKind::Warrior, faction, x, y, false)
}

fn make_archer(id: u32, faction: Faction, x: u32, y: u32) -> Unit {
    Unit::new(id, UnitKind::Archer, faction, x, y, false)
}

#[test]
fn melee_damage_calculation() {
    let grid = Grid::new_grass(GRID_SIZE, GRID_SIZE);
    let attacker = make_warrior(1, Faction::Blue, 5, 5);
    let defender = make_warrior(2, Faction::Red, 6, 5);
    // ATK 3 - DEF 3 = 0, but min 1
    assert_eq!(calc_melee_damage(&attacker, &defender, &grid), 1);
}

#[test]
fn melee_damage_vs_archer() {
    let grid = Grid::new_grass(GRID_SIZE, GRID_SIZE);
    let attacker = make_warrior(1, Faction::Blue, 5, 5);
    let defender = make_archer(2, Faction::Red, 6, 5);
    // ATK 3 - DEF 1 = 2
    assert_eq!(calc_melee_damage(&attacker, &defender, &grid), 2);
}

#[test]
fn terrain_defense_reduces_damage() {
    let mut grid = Grid::new_grass(GRID_SIZE, GRID_SIZE);
    grid.set(6, 5, TileKind::Forest);
    let attacker = make_warrior(1, Faction::Blue, 5, 5);
    let defender = make_archer(2, Faction::Red, 6, 5);
    // ATK 3 - DEF 1 - terrain 1 = 1
    assert_eq!(calc_melee_damage(&attacker, &defender, &grid), 1);
}

#[test]
fn execute_melee_kills_low_hp() {
    let grid = Grid::new_grass(GRID_SIZE, GRID_SIZE);
    let mut attacker = make_warrior(1, Faction::Blue, 5, 5);
    let mut defender = make_archer(2, Faction::Red, 6, 5);
    defender.hp = 1;
    let result = execute_melee(&mut attacker, &mut defender, &grid);
    assert!(result.target_killed);
    assert!(!defender.alive);
}

#[test]
fn ranged_damage_matches_melee_formula() {
    let grid = Grid::new_grass(GRID_SIZE, GRID_SIZE);
    let lancer = Unit::new(1, UnitKind::Lancer, Faction::Blue, 5, 5, false);
    let archer = make_archer(2, Faction::Red, 9, 5);
    // ATK 4 - DEF 1 = 3
    assert_eq!(calc_ranged_damage(&lancer, &archer, &grid), 3);
    assert_eq!(calc_melee_damage(&lancer, &archer, &grid), 3);
}

#[test]
fn execute_melee_wounds_and_alternates_warrior_swings() {
    let grid = Grid::new_grass(GRID_SIZE, GRID_SIZE);
    let mut attacker = make_warrior(1, Faction::Blue, 5, 5);
    let mut defender = make_archer(2, Faction::Red, 6, 5);
    let r1 = execute_melee(&mut attacker, &mut defender, &grid);
    assert_eq!(r1.damage, 2);
    assert!(!r1.target_killed);
    assert_eq!(defender.hp, defender.stats.max_hp - 2);
    assert_eq!(attacker.anim, UnitAnim::Attack);
    assert_eq!(attacker.attack_cooldown_ms, attacker.stats.cooldown_ms);
    execute_melee(&mut attacker, &mut defender, &grid);
    assert_eq!(attacker.anim, UnitAnim::Attack2);
}

#[test]
fn heal_is_capped_at_missing_hp() {
    let mut monk = Unit::new(1, UnitKind::Monk, Faction::Blue, 5, 5, false);
    let mut target = make_warrior(2, Faction::Blue, 6, 5);
    target.hp = target.stats.max_hp - 2;
    assert_eq!(execute_heal(&mut monk, &mut target, 5), 2);
    assert_eq!(target.hp, target.stats.max_hp);
    assert_eq!(execute_heal(&mut monk, &mut target, 5), 0);
    target.hp = 1;
    assert_eq!(execute_heal(&mut monk, &mut target, 3), 3);
    assert_eq!(target.hp, 4);
    assert_eq!(monk.anim, UnitAnim::Attack);
}

#[test]
fn negative_heal_takes_hp_away() {
    let mut monk = Unit::new(1, UnitKind::Monk, Faction::Blue, 5, 5, false);
    let mut target = make_warrior(2, Faction::Blue, 6, 5);
    target.hp = 10;
    assert_eq!(execute_heal(&mut monk, &mut target, -4), -4);
    assert_eq!(target.hp, 6);
    assert!(target.alive);
}
