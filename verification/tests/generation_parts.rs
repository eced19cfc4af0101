use battlefield::grid::{Decoration, Grid, TileKind};
use battlefield::heap::MinHeap;
use battlefield::mapgen::astar::RoadAstarJob;
use battlefield::mapgen::layers::{
    apply_water_changes, heightmap_rows, tree_ca_rows, water_scan_rows,
};
use battlefield::mapgen::network::{choose_capitals, place_field};
use battlefield::mapgen::noise::{octave, raw};
use battlefield::mapgen::rng::Rng;
use battlefield::mapgen::roads::{clear_road_borders, paint_road_path, plan_road_edges};
use battlefield::mapgen::terrain::{
    clear_circle, count_neighbors, in_border, near_cliff, terrain_damage,
};
use battlefield::mapgen::village::{plan_one, plan_settlements, VillageTheme};
use battlefield::building::BuildingKind;
use battlefield::zone::SettlementTier;

#[test]
fn xorshift_sequence() {
    let mut rng = Rng::new(1);
    assert_eq!(rng.next(), 270369);
    assert_eq!(rng.next(), 67634689);
    assert_eq!(rng.next(), 2647435461);
    let mut zero = Rng::new(0);
    assert_eq!(zero.next(), 270369, "a zero seed behaves like 1");
}

#[test]
fn chance_compares_the_low_bits() {
    let mut rng = Rng::new(1);
    // 270369 & 0xFFFFFF = 270369.
    assert!(rng.chance(270370));
    let mut rng = Rng::new(1);
    assert!(!rng.chance(270369));
}

#[test]
fn shuffle_keeps_the_elements() {
    let mut rng = Rng::new(99);
    let mut v: Vec<u32> = (0..16).collect();
    rng.shuffle(&mut v);
    let mut sorted = v.clone();
    sorted.sort();
    assert_eq!(sorted, (0..16).collect::<Vec<u32>>());
}

#[test]
fn heap_pops_in_order() {
    let mut h = MinHeap::new();
    for e in [(5, 1, 1), (2, 9, 9), (2, 3, 4), (7, 0, 0)] {
        h.push(e);
    }
    assert_eq!(h.len(), 4);
    assert_eq!(h.pop(), Some((2, 3, 4)));
    assert_eq!(h.pop(), Some((2, 9, 9)));
    assert_eq!(h.pop(), Some((5, 1, 1)));
    assert_eq!(h.pop(), Some((7, 0, 0)));
    assert!(h.is_empty());
    assert_eq!(h.pop(), None);
}

#[test]
fn noise_values() {
    assert_eq!(raw(42, 0, 0), 1278);
    assert_eq!(raw(42, 128, 0), 1506);
    assert_eq!(raw(42, 300, 700), 1093);
    assert_eq!(octave(42, 0, 0, 1), 254);
    assert_eq!(octave(42, 1000, 2000, 4), 200);
    assert_eq!(octave(7, 12345, 6789, 3), 153);
    for x in 0..50 {
        let v = octave(3, x * 97, x * 31, 4);
        assert!((-1024..=1024).contains(&v));
    }
}

#[test]
fn border_ring() {
    assert!(in_border(0, 0));
    assert!(!in_border(16, 16));
    assert!(!in_border(175, 20));
    assert!(in_border(176, 20));
    assert!(in_border(20, 191));
}

#[test]
fn cliffs_and_clearing() {
    let mut g = Grid::new_grass(10, 10);
    g.set_elevation(5, 5, 2);
    assert!(near_cliff(&g, 5, 5));
    assert!(near_cliff(&g, 4, 5));
    assert!(!near_cliff(&g, 3, 5));
    g.set(2, 2, TileKind::Water);
    g.set_decoration(2, 3, Some(Decoration::Bush));
    clear_circle(&mut g, 3, 3, 1);
    assert_eq!(g.get(2, 2), TileKind::Water, "diagonal cell is outside radius 1");
    assert_eq!(g.decoration(2, 3), None);
    clear_circle(&mut g, 5, 5, 2);
    assert_eq!(g.elevation(5, 5), 0);
}

#[test]
fn damage_counts_water_cliffs_and_off_map() {
    let g = Grid::new_grass(40, 40);
    assert_eq!(terrain_damage(&g, 20, 20), 0);
    // Centred on a corner: three quarters of the disk of radius 13 are off the map.
    let corner = terrain_damage(&g, 0, 0);
    let mut disk = 0;
    let mut inside = 0;
    for dy in -13i32..=13 {
        for dx in -13i32..=13 {
            if dx * dx + dy * dy <= 169 {
                disk += 1;
                if dx >= 0 && dy >= 0 {
                    inside += 1;
                }
            }
        }
    }
    assert_eq!(corner, disk - inside);
    let mut w = Grid::new_grass(40, 40);
    w.set(20, 20, TileKind::Water);
    w.set_elevation(21, 20, 2);
    assert_eq!(terrain_damage(&w, 20, 20), 2);
}

#[test]
fn neighbour_count_treats_outside_as_live() {
    let cells = vec![false; 9];
    assert_eq!(count_neighbors(&cells, 3, 3, 0, 0), 5);
    assert_eq!(count_neighbors(&cells, 3, 3, 1, 1), 0);
    let full = vec![true; 9];
    assert_eq!(count_neighbors(&full, 3, 3, 1, 1), 8);
}

#[test]
fn road_edges_tree_plus_loops() {
    assert!(plan_road_edges(&[(0, 0)]).is_empty());
    assert_eq!(plan_road_edges(&[(0, 0), (5, 5)]), vec![(0, 1)]);
    assert_eq!(
        plan_road_edges(&[(0, 0), (10, 0), (20, 0)]),
        vec![(0, 1), (1, 2), (0, 2)]
    );
    let square = [(0, 0), (10, 0), (0, 10), (10, 10)];
    let e = plan_road_edges(&square);
    for v in 0..4 {
        let d = e.iter().filter(|&&(a, b)| a == v || b == v).count();
        assert!(d >= 2, "node {v} has degree {d}");
    }
    for &(a, b) in &e {
        assert!(a < b && b < 4);
    }
}

#[test]
fn painting_and_verges() {
    let mut g = Grid::new_grass(8, 8);
    g.set(3, 1, TileKind::Forest);
    g.set_elevation(3, 2, 2);
    paint_road_path(&mut g, &[(1, 1)]);
    assert_eq!(g.get(1, 1), TileKind::Road);
    assert_eq!(g.get(2, 2), TileKind::Road);
    assert_eq!(g.get(3, 3), TileKind::Grass);
    clear_road_borders(&mut g);
    assert_eq!(g.get(3, 1), TileKind::Grass, "forest beside the road is cleared");
    assert_eq!(g.elevation(3, 2), 0, "high ground beside the road is levelled");
}

fn run_to_end(job: &mut RoadAstarJob, g: &Grid) -> Option<Vec<(u32, u32)>> {
    loop {
        if let Some(r) = job.run(g, 7) {
            return r;
        }
    }
}

#[test]
fn astar_routes_a_road() {
    let g = Grid::new_grass(12, 12);
    let mut job = RoadAstarJob::new(&g, (1, 1), (9, 1));
    let path = run_to_end(&mut job, &g).expect("open ground is routable");
    assert_eq!(path[0], (1, 1));
    assert_eq!(*path.last().unwrap(), (9, 1));
    for w in path.windows(2) {
        let dx = (w[0].0 as i32 - w[1].0 as i32).abs();
        let dy = (w[0].1 as i32 - w[1].1 as i32).abs();
        assert!(dx <= 1 && dy <= 1);
    }
}

fn link_cost(g: &Grid, a: (u32, u32), b: (u32, u32)) -> u32 {
    if a == b {
        return 0;
    }
    let water = |x: i32, y: i32| g.in_bounds(x, y) && g.get(x as u32, y as u32) == TileKind::Water;
    let (bx, by) = (b.0 as i32, b.1 as i32);
    let tile = if g.elevation(b.0, b.1) > 1 {
        12
    } else if water(bx, by - 1) || water(bx, by + 1) || water(bx - 1, by) || water(bx + 1, by) {
        15
    } else {
        match g.get(b.0, b.1) {
            TileKind::Road => 1,
            TileKind::Forest => 8,
            _ => 3,
        }
    };
    let diagonal = a.0 != b.0 && a.1 != b.1;
    tile * if diagonal { 3 } else { 2 }
}

#[test]
fn astar_prefers_the_cheapest_route() {
    let mut g = Grid::new_grass(12, 12);
    for x in 2..=8 {
        g.set(x, 5, TileKind::Forest);
    }
    let mut job = RoadAstarJob::new(&g, (1, 5), (9, 5));
    let path = run_to_end(&mut job, &g).expect("routable");
    let cost: u32 = path.windows(2).map(|w| link_cost(&g, w[0], w[1])).sum();
    // Two diagonals round the forest row and six straight grass steps.
    assert_eq!(cost, 2 * 9 + 6 * 6);
    assert!(path.iter().all(|&(x, y)| g.get(x, y) != TileKind::Forest));
    // Roads are followed when they pay off.
    let mut r = Grid::new_grass(12, 12);
    for x in 1..=9 {
        r.set(x, 8, TileKind::Road);
    }
    let mut job = RoadAstarJob::new(&r, (1, 8), (9, 8));
    let path = run_to_end(&mut job, &r).expect("routable");
    let cost: u32 = path.windows(2).map(|w| link_cost(&r, w[0], w[1])).sum();
    assert_eq!(cost, 8 * 2);
}

#[test]
fn astar_route_never_repeats_a_cell_in_a_row() {
    let mut g = Grid::new_grass(16, 16);
    for y in 2..14 {
        g.set(7, y, TileKind::Water);
    }
    g.set(3, 3, TileKind::Forest);
    let mut job = RoadAstarJob::new(&g, (2, 8), (12, 8));
    let path = run_to_end(&mut job, &g).expect("the lake can be walked round");
    for w in path.windows(2) {
        assert_ne!(w[0], w[1]);
        let dx = (w[0].0 as i32 - w[1].0 as i32).abs();
        let dy = (w[0].1 as i32 - w[1].1 as i32).abs();
        assert!(dx <= 1 && dy <= 1);
        assert_ne!(g.get(w[1].0, w[1].1), TileKind::Water);
    }
    // A search from a cell to itself gives that cell twice.
    let mut job = RoadAstarJob::new(&g, (4, 4), (4, 4));
    assert_eq!(run_to_end(&mut job, &g), Some(vec![(4, 4), (4, 4)]));
}

#[test]
fn astar_reports_water_barriers() {
    let mut g = Grid::new_grass(12, 12);
    for y in 0..12 {
        g.set(5, y, TileKind::Water);
    }
    let mut job = RoadAstarJob::new(&g, (1, 1), (9, 1));
    assert_eq!(run_to_end(&mut job, &g), None);
}

#[test]
fn astar_respects_the_step_budget() {
    let g = Grid::new_grass(30, 30);
    let mut job = RoadAstarJob::new(&g, (0, 0), (29, 29));
    assert!(job.run(&g, 1).is_none(), "one expansion cannot reach a far target");
}

#[test]
fn water_smoothing_rules() {
    let mut g = Grid::new_grass(5, 5);
    g.set(2, 2, TileKind::Water);
    let mut changes = Vec::new();
    water_scan_rows(&g, &mut changes, 0, 5);
    assert_eq!(changes, vec![(2, 2, false)], "a lone water cell dries");
    apply_water_changes(&mut g, &mut changes);
    assert!(changes.is_empty());
    assert_eq!(g.get(2, 2), TileKind::Grass);

    let mut lake = Grid::new_grass(5, 5);
    for y in 0..5 {
        for x in 0..5 {
            if (x, y) != (2, 2) {
                lake.set(x, y, TileKind::Water);
            }
        }
    }
    lake.set_elevation(2, 2, 2);
    let mut changes = Vec::new();
    water_scan_rows(&lake, &mut changes, 0, 5);
    assert!(changes.contains(&(2, 2, true)), "an island inside a lake floods");
    apply_water_changes(&mut lake, &mut changes);
    assert_eq!(lake.get(2, 2), TileKind::Water);
    assert_eq!(lake.elevation(2, 2), 0);
}

#[test]
fn tree_automaton_rules() {
    // 4×4 interior block: an empty cell with four live neighbours is born,
    // a live cell with one live neighbour dies.
    let w = 6;
    let h = 6;
    let mut cur = vec![false; 36];
    for &(x, y) in &[(1usize, 1usize), (2, 1), (3, 1), (1, 2)] {
        cur[y * w + x] = true;
    }
    cur[4 * w + 4] = true;
    cur[4 * w + 3] = true;
    let mut next = vec![false; 36];
    tree_ca_rows(&cur, &mut next, w as u32, h as u32, 0, h as u32);
    assert!(next[2 * w + 2], "four neighbours give birth");
    assert!(next[1 * w + 1], "a cell with two neighbours survives");
    assert!(!next[4 * w + 4], "a cell with one neighbour dies");
}

#[test]
fn heightmap_only_floods_or_raises() {
    let mut g = Grid::new_grass(64, 64);
    heightmap_rows(&mut g, 42, 0, 64);
    for y in 0..64 {
        for x in 0..64 {
            let t = g.get(x, y);
            let e = g.elevation(x, y);
            assert!(t == TileKind::Grass || t == TileKind::Water);
            assert!(e == 0 || e == 2);
            assert!(!(t == TileKind::Water && e == 2));
        }
    }
}

#[test]
fn capitals_and_countryside_keep_their_distance() {
    let g = Grid::new_grass(192, 192);
    let mut rng = Rng::new(5);
    let caps = choose_capitals(&g, &mut rng, 160, 3);
    assert!(caps.len() >= 2 && caps.len() <= 3);
    for &(x, y) in &caps {
        assert!(x >= 37 && x < 155 && y >= 37 && y < 155);
    }
    let field = place_field(&g, &mut rng, 160, &caps, 8, false);
    assert!(field.len() <= 8);
    for (i, &a) in field.iter().enumerate() {
        for &b in field.iter().skip(i + 1) {
            let dx = a.0 as i64 - b.0 as i64;
            let dy = a.1 as i64 - b.1 as i64;
            assert!(dx * dx + dy * dy >= 676);
        }
        for &c in &caps {
            let dx = a.0 as i64 - c.0 as i64;
            let dy = a.1 as i64 - c.1 as i64;
            assert!(dx * dx + dy * dy >= 1024);
        }
    }
}

#[test]
fn mirrored_countryside_comes_in_pairs() {
    let g = Grid::new_grass(192, 192);
    let caps = vec![(50, 60), (140, 130)];
    let mut rng = Rng::new(11);
    let field = place_field(&g, &mut rng, 160, &caps, 6, true);
    assert_eq!(field.len() % 2, 0);
    for k in 0..field.len() / 2 {
        let a = field[2 * k];
        let b = field[2 * k + 1];
        assert_eq!(a.0 + b.0, 190);
        assert_eq!(a.1 + b.1, 190);
    }
}

#[test]
fn settlements_are_planned_per_zone() {
    let mut g = Grid::new_grass(120, 120);
    let zones = [(30, 30), (90, 30), (60, 90)];
    let tiers = [SettlementTier::City, SettlementTier::Town, SettlementTier::Hamlet];
    let specs = plan_settlements(&mut g, &zones, &tiers, 17);
    assert_eq!(specs.len(), 3);
    let mut themes: Vec<VillageTheme> = specs.iter().map(|s| s.theme).collect();
    themes.sort_by_key(|t| *t as u8);
    themes.dedup();
    assert_eq!(themes.len(), 3, "three zones work all three themes");
    assert!(specs[0].houses.is_empty() && specs[0].production.is_empty());
    assert_eq!(specs[1].tier, SettlementTier::Town);
    assert!(specs[1].production.len() <= 3);
    assert!(specs[2].production.len() <= 1);
    for s in &specs {
        for &(p, kind) in &s.production {
            assert!(
                kind == BuildingKind::Barracks
                    || kind == BuildingKind::Archery
                    || kind == BuildingKind::Monastery
            );
            assert_ne!(g.get(p.0, p.1), TileKind::Road);
        }
        if s.theme == VillageTheme::Wood {
            for &(x, y) in &s.resources {
                assert_eq!(g.get(x, y), TileKind::Forest, "groves are planted");
            }
        }
    }
    assert_eq!(VillageTheme::Gold.production_building(), BuildingKind::Barracks);
    assert_eq!(VillageTheme::Wood.production_building(), BuildingKind::Archery);
    assert_eq!(VillageTheme::Meat.production_building(), BuildingKind::Monastery);
}

#[test]
fn road_edges_repeat_nothing_and_lead_with_the_tree() {
    let nodes = [(0, 0), (10, 0), (20, 0), (0, 10), (30, 30), (5, 25)];
    let e = plan_road_edges(&nodes);
    let n = nodes.len();
    for i in 0..e.len() {
        for j in (i + 1)..e.len() {
            assert_ne!(e[i], e[j]);
        }
    }
    // The first n - 1 edges alone connect everything.
    let mut seen = vec![false; n];
    seen[0] = true;
    let mut changed = true;
    while changed {
        changed = false;
        for &(a, b) in &e[..n - 1] {
            if seen[a] != seen[b] {
                seen[a] = true;
                seen[b] = true;
                changed = true;
            }
        }
    }
    assert!(seen.iter().all(|&s| s));
    // Every later edge had an end with fewer than two edges before it.
    for k in (n - 1)..e.len() {
        let (a, b) = e[k];
        let deg = |v: usize| e[..k].iter().filter(|&&(x, y)| x == v || y == v).count();
        assert!(deg(a) < 2 || deg(b) < 2);
    }
}

#[test]
fn open_ground_village_gets_its_full_house_count() {
    let mut grid = Grid::new_grass(60, 60);
    let seed = 1234u32;
    // Replay the draws planning makes before it rolls the house count.
    let mut replay = Rng::new(seed);
    let mut slots: Vec<u32> = (0..16).collect();
    replay.shuffle(&mut slots);
    let roll = replay.next();
    let mut rng = Rng::new(seed);
    let sp = plan_one(&mut grid, 4, 30, 30, SettlementTier::Town, VillageTheme::Wood, &mut rng);
    assert_eq!(sp.zone_idx, 4);
    assert_eq!(sp.houses.len() as u32, SettlementTier::Town.house_count(roll));
    assert_eq!(sp.production.len(), 3);
    let kinds: Vec<BuildingKind> = sp.production.iter().map(|p| p.1).collect();
    assert_eq!(kinds, vec![BuildingKind::Archery, BuildingKind::Monastery, BuildingKind::Barracks]);
}

#[test]
fn road_tree_has_least_total_length() {
    let sets: [&[(u32, u32)]; 3] = [
        &[(0, 0), (10, 0), (20, 0), (0, 10), (30, 30), (5, 25)],
        &[(3, 4), (50, 2), (48, 40), (10, 33), (25, 25), (60, 60), (1, 59)],
        &[(0, 0), (7, 1), (2, 9), (14, 14), (9, 3)],
    ];
    for nodes in sets {
        let n = nodes.len();
        let d = |a: usize, b: usize| {
            let dx = nodes[a].0 as i64 - nodes[b].0 as i64;
            let dy = nodes[a].1 as i64 - nodes[b].1 as i64;
            dx * dx + dy * dy
        };
        let e = plan_road_edges(nodes);
        let tree: i64 = e[..n - 1].iter().map(|&(a, b)| d(a, b)).sum();
        // Prim's algorithm for the least total length.
        let mut in_tree = vec![false; n];
        in_tree[0] = true;
        let mut best: i64 = 0;
        for _ in 1..n {
            let mut pick = (i64::MAX, 0usize);
            for u in 0..n {
                if in_tree[u] {
                    for v in 0..n {
                        if !in_tree[v] && d(u, v) < pick.0 {
                            pick = (d(u, v), v);
                        }
                    }
                }
            }
            best += pick.0;
            in_tree[pick.1] = true;
        }
        assert_eq!(tree, best);
    }
}

#[test]
fn settlement_themes_follow_the_seed() {
    let zones = [(20u32, 20u32), (60, 20), (20, 60), (60, 60), (40, 40)];
    let tiers = [SettlementTier::Village; 5];
    let mut seen = std::collections::HashSet::new();
    for seed in 0u32..12 {
        let mut grid = Grid::new_grass(80, 80);
        let specs = plan_settlements(&mut grid, &zones, &tiers, seed);
        let themes: Vec<u8> = specs
            .iter()
            .map(|s| match s.theme {
                VillageTheme::Gold => 0,
                VillageTheme::Wood => 1,
                VillageTheme::Meat => 2,
            })
            .collect();
        seen.insert(themes);
    }
    assert!(seen.len() > 1, "every seed dealt the same themes");
}

#[test]
fn far_apart_settlements_are_still_joined() {
    let nodes = [(0u32, 0u32), (32_767, 0), (0, 32_767), (32_767, 32_767)];
    let edges = plan_road_edges(&nodes);
    // The four sides of the square are shorter than its diagonals.
    assert_eq!(edges.len(), 4);
    for &(a, b) in &edges {
        let (pa, pb) = (nodes[a], nodes[b]);
        assert!(pa.0 == pb.0 || pa.1 == pb.1, "no diagonal edge");
    }
}

#[test]
fn every_wood_grove_is_forest_whatever_the_seed() {
    let zones = [(20u32, 20u32), (60, 20), (20, 60), (60, 60)];
    let tiers = [SettlementTier::City, SettlementTier::Village, SettlementTier::Town, SettlementTier::Hamlet];
    for seed in 0u32..8 {
        let mut grid = Grid::new_grass(80, 80);
        let specs = plan_settlements(&mut grid, &zones, &tiers, seed);
        let mut wood = 0;
        for s in &specs {
            if s.theme == VillageTheme::Wood {
                wood += 1;
                for &(x, y) in &s.resources {
                    assert_eq!(grid.get(x, y), TileKind::Forest);
                }
            }
        }
        assert!(wood >= 1);
    }
}
