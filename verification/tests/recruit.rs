use battlefield::recruit::{pick_recruit, recruit_faction, recruit_headroom, spend_recruit};
use battlefield::unit::{Faction, UnitKind};
use battlefield::zone::ZoneState;

fn three_buildings() -> Vec<(usize, UnitKind)> {
    vec![(3, UnitKind::Warrior), (5, UnitKind::Archer), (8, UnitKind::Monk)]
}

#[test]
fn recruits_come_from_held_and_neutral_settlements() {
    assert_eq!(recruit_faction(ZoneState::Controlled(Faction::Red)), Some(Faction::Red));
    assert_eq!(recruit_faction(ZoneState::Neutral), Some(Faction::Villager));
    assert_eq!(recruit_faction(ZoneState::Contested), None);
    assert_eq!(recruit_faction(ZoneState::Capturing(Faction::Blue)), None);
}

#[test]
fn headroom_counts_walkers_against_the_caps() {
    // Armies: soldiers plus walking recruits against the army cap.
    assert!(recruit_headroom(Faction::Blue, 10, 4, 15, 99, 99, 0));
    assert!(!recruit_headroom(Faction::Blue, 10, 5, 15, 0, 0, 9));
    assert!(!recruit_headroom(Faction::Purple, 20, 0, 15, 0, 0, 9));
    // Villagers: local militia plus walkers against the garrison cap.
    assert!(recruit_headroom(Faction::Villager, 999, 999, 0, 2, 1, 4));
    assert!(!recruit_headroom(Faction::Villager, 0, 0, 100, 3, 1, 4));
}

#[test]
fn embattled_or_starved_settlements_raise_no_one() {
    let prod = three_buildings();
    let all = vec![true, true, true];
    assert_eq!(pick_recruit(ZoneState::Contested, 5, true, &prod, &all, 0, 0), None);
    assert_eq!(pick_recruit(ZoneState::Capturing(Faction::Red), 5, true, &prod, &all, 0, 0), None);
    assert_eq!(pick_recruit(ZoneState::Controlled(Faction::Red), 0, true, &prod, &all, 0, 0), None);
    assert_eq!(pick_recruit(ZoneState::Controlled(Faction::Red), 5, false, &prod, &all, 0, 0), None);
    assert_eq!(pick_recruit(ZoneState::Neutral, 5, true, &Vec::new(), &Vec::new(), 0, 0), None);
    // Six walkers already for three buildings.
    assert_eq!(pick_recruit(ZoneState::Neutral, 5, true, &prod, &all, 6, 0), None);
    assert_eq!(pick_recruit(ZoneState::Neutral, 5, true, &prod, &all, 5, 0), Some(3));
    // Nothing affordable.
    let none = vec![false, false, false];
    assert_eq!(pick_recruit(ZoneState::Neutral, 5, true, &prod, &none, 0, 0), None);
}

#[test]
fn affordable_buildings_take_turns() {
    let prod = three_buildings();
    let some = vec![true, false, true];
    let owner = ZoneState::Controlled(Faction::Blue);
    assert_eq!(pick_recruit(owner, 1, true, &prod, &some, 0, 0), Some(3));
    assert_eq!(pick_recruit(owner, 1, true, &prod, &some, 0, 1), Some(8));
    assert_eq!(pick_recruit(owner, 1, true, &prod, &some, 0, 2), Some(3));
    assert_eq!(pick_recruit(owner, 1, true, &prod, &some, 0, 7), Some(8));
}

#[test]
fn raising_spends_meat_and_turns_the_counter() {
    assert_eq!(spend_recruit(5, 7), (4, 8));
    assert_eq!(spend_recruit(1, u32::MAX), (0, 0));
}

#[test]
fn army_and_pool_slots() {
    assert_eq!(Faction::Blue.army_idx(), Some(0));
    assert_eq!(Faction::Purple.army_idx(), Some(3));
    assert_eq!(Faction::Villager.army_idx(), None);
    assert_eq!(Faction::Yellow.pool_idx(), 2);
    assert_eq!(Faction::Villager.pool_idx(), 4);
}
