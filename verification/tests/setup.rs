use battlefield::building::{BasePlacer, BuildingKind, BuildingSite};
use battlefield::grid::{Decoration, Grid, TileKind, PLAYABLE_SIZE};
use battlefield::mapgen::{generate_battlefield, SettlementSpec, VillageTheme};
use battlefield::pawn::{find_nearest_tree, sprite_index, PawnState};
use battlefield::setup::{
    find_nearest_passable, gold_stone_variant, mark_footprints, paint_road_around_buildings,
    place_gold_stones, prepare_ground, water_adjacency, zone_building_sites,
};
use battlefield::sheep::SheepState;
use battlefield::unit::{Faction, UnitKind};
use battlefield::zone::SettlementTier;

fn site(kind: BuildingKind, x: u32, y: u32) -> BuildingSite {
    BuildingSite {
        kind,
        faction: Faction::Blue,
        grid_x: x,
        grid_y: y,
        zone_id: None,
        produces: None,
        house_variant: 0,
    }
}

fn village(zone_idx: u8, theme: VillageTheme) -> SettlementSpec {
    SettlementSpec {
        zone_idx,
        tier: SettlementTier::Village,
        theme,
        houses: vec![(30, 30), (32, 30), (34, 30), (36, 30)],
        production: vec![
            ((40, 40), BuildingKind::Barracks),
            ((44, 40), BuildingKind::Castle),
            ((48, 40), BuildingKind::Monastery),
        ],
        resources: vec![(50, 50), (51, 50)],
    }
}

#[test]
fn shore_tiles_touch_water_on_a_side() {
    let mut g = Grid::new_grass(3, 3);
    g.set(1, 1, TileKind::Water);
    let adj = water_adjacency(&g);
    assert_eq!(adj.len(), 9);
    let expected = [false, true, false, true, false, true, false, true, false];
    assert_eq!(adj, expected.to_vec());
}

#[test]
fn gold_stone_variants_follow_the_formula() {
    assert_eq!(gold_stone_variant(1, 1), 0);
    assert_eq!(gold_stone_variant(2, 1), 1);
    assert_eq!(gold_stone_variant(0, 1), 5);
    assert_eq!(gold_stone_variant(0, 0), 0);
    // 31·0x1000_0000 wraps to 0xF000_0000 = 4026531840 ≡ 0 (mod 6).
    assert_eq!(gold_stone_variant(0x1000_0000, 0), 0);
    for x in 0..40 {
        for y in 0..40 {
            assert!(gold_stone_variant(x, y) < 6);
        }
    }
}

#[test]
fn gold_settlements_get_stones_on_their_resources() {
    let mut g = Grid::new_grass(60, 60);
    let vs = vec![village(0, VillageTheme::Gold), {
        let mut w = village(1, VillageTheme::Wood);
        w.resources = vec![(10, 10)];
        w
    }];
    place_gold_stones(&mut g, &vs);
    assert_eq!(
        g.decoration(50, 50),
        Some(Decoration::GoldStone(gold_stone_variant(50, 50)))
    );
    assert_eq!(
        g.decoration(51, 50),
        Some(Decoration::GoldStone(gold_stone_variant(51, 50)))
    );
    assert_eq!(g.decoration(10, 10), None, "groves are terrain, not stones");
}

#[test]
fn zone_sites_list_towers_then_villages() {
    let centers = vec![(10, 10), (20, 20)];
    let vs = vec![village(0, VillageTheme::Gold), village(1, VillageTheme::Meat)];
    let sites = zone_building_sites(&centers, &vs);
    // 2 towers + 2 × (4 houses + 2 trained production buildings)
    assert_eq!(sites.len(), 14);
    assert_eq!(sites[0].kind, BuildingKind::DefenseTower);
    assert_eq!((sites[0].grid_x, sites[0].grid_y), (10, 10));
    assert_eq!(sites[1].zone_id, Some(1));
    assert_eq!(sites[2].kind, BuildingKind::House);
    let variants: Vec<u8> = sites[2..6].iter().map(|s| s.house_variant).collect();
    assert_eq!(variants, vec![0, 1, 2, 0]);
    assert_eq!(sites[6].kind, BuildingKind::Barracks);
    assert_eq!(sites[6].produces, Some(UnitKind::Warrior));
    assert_eq!(sites[7].kind, BuildingKind::Monastery, "a castle trains nobody");
    assert_eq!(sites[7].produces, Some(UnitKind::Monk));
    assert_eq!(sites[13].zone_id, Some(1));
}

#[test]
fn castle_footprint_blocks_its_row() {
    let mut g = Grid::new_grass(12, 12);
    mark_footprints(&mut g, &[site(BuildingKind::Castle, 5, 5)]);
    for x in 0..12 {
        for y in 0..12 {
            let expected = y == 4 && (3..=7).contains(&x);
            assert_eq!(!g.is_passable(x, y), expected, "cell ({x},{y})");
        }
    }
}

#[test]
fn footprints_at_the_edge_stay_on_the_grid() {
    let mut g = Grid::new_grass(4, 4);
    mark_footprints(&mut g, &[site(BuildingKind::Castle, 0, 0)]);
    for x in 0..4 {
        for y in 0..4 {
            assert!(g.is_passable(x, y), "footprint row above the grid");
        }
    }
}

#[test]
fn apron_paves_flat_ground_and_spares_the_rest() {
    let mut g = Grid::new_grass(12, 12);
    g.set(3, 2, TileKind::Water);
    g.set(7, 6, TileKind::Forest);
    g.set_elevation(4, 3, 1);
    g.set_decoration(6, 6, Some(Decoration::Bush));
    let protected = vec![(5, 5)];
    paint_road_around_buildings(&mut g, &[site(BuildingKind::House, 5, 5)], &protected);
    // House footprint box is (5, 4); the apron spans x 3..=7, y 2..=6.
    for x in 0..12u32 {
        for y in 0..12u32 {
            let in_apron = (3..=7).contains(&x) && (2..=6).contains(&y);
            let t = g.get(x, y);
            if (x, y) == (3, 2) {
                assert_eq!(t, TileKind::Water);
            } else if (x, y) == (4, 3) || (x, y) == (5, 5) {
                assert_eq!(t, TileKind::Grass);
            } else if in_apron {
                assert_eq!(t, TileKind::Road, "cell ({x},{y})");
            } else {
                assert_eq!(t, TileKind::Grass);
            }
        }
    }
    assert_eq!(g.decoration(6, 6), None, "paving clears decorations");
}

#[test]
fn apron_painting_is_idempotent() {
    let mut g = Grid::new_grass(20, 20);
    g.set(9, 9, TileKind::Forest);
    let sites = [site(BuildingKind::Barracks, 8, 8), site(BuildingKind::Castle, 12, 12)];
    let protected = vec![(10, 10)];
    paint_road_around_buildings(&mut g, &sites, &protected);
    let once = g.tiles.clone();
    paint_road_around_buildings(&mut g, &sites, &protected);
    assert_eq!(g.tiles, once);
}

#[test]
fn generated_map_ground_keeps_resources_and_blocks_footprints() {
    for seed in [3u32, 11, 42] {
        let (mut grid, layout) = generate_battlefield(seed, PLAYABLE_SIZE);
        let before = grid.tiles.clone();
        let sites = prepare_ground(&mut grid, &layout, &[]);
        assert_eq!(sites.len() >= layout.zone_centers.len(), true);
        for v in &layout.settlements {
            for &(x, y) in &v.resources {
                let i = (y * grid.width + x) as usize;
                assert_eq!(grid.tiles[i], before[i], "resource tile paved");
                if v.theme == VillageTheme::Gold {
                    assert_eq!(
                        grid.decoration(x, y),
                        Some(Decoration::GoldStone(gold_stone_variant(x, y)))
                    );
                }
            }
        }
        for s in &sites {
            for &(dx, dy) in s.kind.footprint_offsets() {
                let x = s.grid_x as i32 + dx;
                let y = s.grid_y as i32 + dy;
                if grid.in_bounds(x, y) {
                    assert!(!grid.is_passable(x as u32, y as u32));
                }
            }
        }
    }
}

#[test]
fn nearest_passable_searches_rings_inside_out() {
    let mut g = Grid::new_grass(20, 20);
    // Ring 1 around (10, 10): all water.
    for dy in -1i32..=1 {
        for dx in -1i32..=1 {
            if dx != 0 || dy != 0 {
                g.set((10 + dx) as u32, (10 + dy) as u32, TileKind::Water);
            }
        }
    }
    // First cell of ring 2 in row order is (8, 8).
    assert_eq!(find_nearest_passable(&g, 10, 10), Some((8, 8)));
    g.set(8, 8, TileKind::Rock);
    assert_eq!(find_nearest_passable(&g, 10, 10), Some((9, 8)));
    // With ring 1 open, its top-left cell wins.
    let open = Grid::new_grass(20, 20);
    assert_eq!(find_nearest_passable(&open, 10, 10), Some((9, 9)));
    // Corner of the grid: rows above and columns left are off the grid.
    assert_eq!(find_nearest_passable(&open, 0, 0), Some((1, 0)));
}

#[test]
fn nearest_passable_gives_up_when_everything_is_blocked() {
    let mut g = Grid::new_grass(3, 3);
    for x in 0..3 {
        for y in 0..3 {
            g.set(x, y, TileKind::Water);
        }
    }
    g.set(1, 1, TileKind::Grass);
    assert_eq!(find_nearest_passable(&g, 1, 1), None, "the center itself is not searched");
}

#[test]
fn nearest_tree_prefers_distance_then_row_order() {
    let mut g = Grid::new_grass(60, 60);
    assert_eq!(find_nearest_tree(&g, 30, 30), None);
    g.set(35, 30, TileKind::Forest);
    g.set(30, 27, TileKind::Forest);
    assert_eq!(find_nearest_tree(&g, 30, 30), Some((30, 27)));
    // Equal distance 3: (27, 30) comes after (30, 27) in row order.
    g.set(27, 30, TileKind::Forest);
    assert_eq!(find_nearest_tree(&g, 30, 30), Some((30, 27)));
    // Outside the 20-tile window along an axis: ignored.
    let mut far = Grid::new_grass(60, 60);
    far.set(51, 30, TileKind::Forest);
    assert_eq!(find_nearest_tree(&far, 30, 30), None);
    far.set(50, 50, TileKind::Forest);
    assert_eq!(find_nearest_tree(&far, 30, 30), Some((50, 50)));
    // A position off the grid still finds trees inside the window.
    assert_eq!(find_nearest_tree(&far, 45, 65), Some((50, 50)));
}

#[test]
fn pawn_and_sheep_animation_tables() {
    assert_eq!(PawnState::Idle.anim_frame_count(), 8);
    assert_eq!(PawnState::WalkingToTree.anim_frame_count(), 6);
    assert_eq!(PawnState::WalkingHome.anim_frame_count(), 6);
    assert_eq!(PawnState::Chopping.anim_frame_count(), 6);
    assert_eq!(sprite_index(PawnState::Idle, false), 0);
    assert_eq!(sprite_index(PawnState::Idle, true), 3);
    assert_eq!(sprite_index(PawnState::WalkingToTree, true), 1);
    assert_eq!(sprite_index(PawnState::Chopping, false), 2);
    assert_eq!(sprite_index(PawnState::WalkingHome, true), 4);
    assert_eq!(SheepState::Idle.anim_frame_count(), 6);
    assert_eq!(SheepState::Grazing.anim_frame_count(), 12);
    assert_eq!(SheepState::Fleeing.anim_frame_count(), 4);
    assert_eq!(SheepState::Idle.sprite_index(), 0);
    assert_eq!(SheepState::Fleeing.sprite_index(), 1);
    assert_eq!(SheepState::Grazing.sprite_index(), 2);
}

#[test]
fn base_placer_keeps_buildings_apart_and_in_band() {
    let mut p = BasePlacer::new(Faction::Red, 50, 50, 160);
    assert_eq!(p.bounds, (16, 176));
    assert!(p.try_place(BuildingKind::Castle, 55, 50));
    // Overlaps the castle's block (x 51..59, y 47..52).
    assert!(!p.try_place(BuildingKind::House, 55, 54));
    // Just clear of it: house block is y 52..55 at y = 54 → overlaps row 52.
    assert!(!p.try_place(BuildingKind::House, 50, 54));
    assert!(p.try_place(BuildingKind::House, 50, 55));
    // Outside the band circle of radius 17.
    assert!(!p.try_place(BuildingKind::House, 50, 68));
    assert!(p.try_place(BuildingKind::House, 50, 67), "on the band edge");
    // Outside the playable area.
    let mut edge = BasePlacer::new(Faction::Blue, 20, 20, 160);
    assert!(!edge.try_place(BuildingKind::House, 15, 20));
    assert!(edge.try_place(BuildingKind::House, 16, 20));
    let placed = p.finish();
    assert_eq!(placed[0].kind, BuildingKind::Castle);
    assert_eq!(placed[0].faction, Faction::Red);
    assert_eq!((placed[1].grid_x, placed[1].grid_y), (50, 55));
}

#[test]
fn exclusion_blocks_are_listed_row_by_row() {
    let cells = BasePlacer::exclusion(BuildingKind::House, 10, 10);
    assert_eq!(cells.len(), 4 * 5);
    assert_eq!(cells[0], (8, 8));
    assert_eq!(cells[4], (12, 8));
    assert_eq!(cells[5], (8, 9));
    assert_eq!(cells[19], (12, 11));
    let castle = BasePlacer::exclusion(BuildingKind::Castle, 0, 0);
    assert_eq!(castle.len(), 6 * 9);
    assert_eq!(castle[0], (-4, -3));
    assert_eq!(castle[53], (4, 2));
}

#[test]
fn placer_marks_producers_and_house_variants() {
    let mut p = BasePlacer::new(Faction::Blue, 50, 50, 160);
    assert!(p.try_place(BuildingKind::Barracks, 55, 50));
    p.set_last_produces(UnitKind::Warrior);
    assert!(p.try_place(BuildingKind::House, 42, 50));
    p.set_last_house_variant(4);
    let placed = p.finish();
    assert_eq!(placed[0].produces, Some(UnitKind::Warrior));
    assert_eq!(placed[0].house_variant, 0);
    assert_eq!(placed[1].produces, None);
    assert_eq!(placed[1].house_variant, 1);
    assert_eq!((placed[1].grid_x, placed[1].grid_y), (42, 50));
}
