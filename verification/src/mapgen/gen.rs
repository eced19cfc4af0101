//! The budgeted generation pipeline: a state machine whose every step does
//! a bounded band of rows (or part of one road search), and the layout it
//! produces.

use vstd::prelude::*;
use crate::grid::{Grid, TileKind, Decoration, BORDER_SIZE, MAX_SIDE};
use crate::zone::SettlementTier;
use super::rng::Rng;
use super::astar::{RoadAstarJob, road_route, no_road, cheapest_route, no_stutter};
use super::roads::{
    plan_road_edges,
    paint_road_path,
    painted_as,
    stamped,
    verge_blocker,
    road_adjacent,
    clear_road_borders,
    degree,
    connected,
    graph_walk,
    joins,
    joined,
    MAX_NODES,
};
use super::network::{
    pool_point,
    opening_pair,
    extra_choice,
    placed_field,
    xs_n,
    POOL_SIZE,
    choose_capitals,
    place_field,
    field_ok,
    inside,
    CITY_MARGIN,
    FIELD_MARGIN,
    MAX_FIELD,
};
use super::village::{
    SettlementSpec,
    plan_settlements,
    anchors_clear,
    theme_worked,
    only_groves,
    resources_in_grid,
    production_from_theme,
    clear_radius,
    settlements_planned,
    groves_planted,
};
use super::layers::{
    heightmap_rows,
    water_scan_rows,
    apply_water_changes,
    tree_seed_rows,
    tree_ca_rows,
    tree_place_rows,
    rock_rows,
    bush_rows,
    water_rock_rows,
    height_applied,
    scan_start,
    scan_end,
    band_changes,
    applied_tiles,
    applied_elevations,
    applied_decorations,
    tree_seed,
    tree_next,
    state_all,
    state_water,
    draw_hits,
    open_ground,
    ROCK_THRESHOLD,
    BUSH_THRESHOLD,
    WATER_ROCK_THRESHOLD,
};
use super::terrain::{clear_circle, in_disk, spec_in_border};
use super::VILLAGE_CLEAR_RADIUS;

verus! {

/// Rough tile budget per generation step: row-banded stages size their
/// bands from it.
pub const STEP_TILES: u32 = 32_768;
/// A* expansions per step while routing a road.
pub const ROAD_POPS_PER_STEP: u32 = 20_000;
/// Smoothing passes over the water and automaton steps over the trees.
pub const WATER_PASSES: u32 = 3;
pub const TREE_STEPS: u32 = 5;
/// Playable sides the generator accepts: room for the capital margins, and
/// a grid within `MAX_SIDE`, which keeps every cell index, signed coordinate,
/// squared distance and road score of the generator inside its 32-bit
/// arithmetic.
pub const MIN_PLAYABLE: u32 = 43;
pub const MAX_PLAYABLE: u32 = 8160;

/// The layout of a generated map.
pub struct MapLayout {
    pub blue_base: (u32, u32),
    pub red_base: (u32, u32),
    pub zone_centers: Vec<(u32, u32)>,
    /// Rally point for Blue: its capital.
    pub blue_gather: (u32, u32),
    /// Rally point for Red: its capital.
    pub red_gather: (u32, u32),
    /// Zone indices that are home zones for Blue.
    pub blue_home_zones: Vec<u8>,
    /// Zone indices that are home zones for Red.
    pub red_home_zones: Vec<u8>,
    /// Adjacency: `connections[i]` lists the zones connected to zone `i` by road.
    pub connections: Vec<Vec<u8>>,
    /// One settlement per zone, in zone order.
    pub settlements: Vec<SettlementSpec>,
    /// Capitals beyond the first two, for third and fourth factions.
    pub extra_bases: Vec<(u32, u32)>,
}

/// Where the pipeline stands.
pub enum GenStage {
    Heightmap { row: u32 },
    WaterScan { pass: u32, row: u32 },
    WaterApply { pass: u32 },
    TreeSeed { row: u32 },
    TreeCa { iter: u32, row: u32 },
    TreePlace { row: u32 },
    Rocks { row: u32 },
    Bushes { row: u32 },
    WaterRocks { row: u32 },
    Network,
    Clearing,
    RoadsPlan,
    RoadEdge { i: usize },
    RoadsBorder,
    Settlements,
    Done,
}

/// Number of capitals actually placed for a request: 2 to 4.
pub open spec fn clamp_capitals(n: u32) -> int {
    if n < 2 {
        2
    } else if n > 4 {
        4
    } else {
        n as int
    }
}

/// Countryside settlements wanted: the total scales with the playable area
/// (one per 3500 tiles, at least five more than the capitals), less the
/// capitals, within 5 to 24, rounded up to even on two-capital maps.
pub open spec fn field_target(p: int, nc: int, ncaps: int) -> int {
    let area_total = p * p / 3500;
    let total = if area_total > nc + 5 {
        area_total
    } else {
        nc + 5
    };
    let f0 = total - ncaps;
    let f1 = if f0 < 5 {
        5
    } else if f0 > MAX_FIELD {
        MAX_FIELD as int
    } else {
        f0
    };
    if nc == 2 {
        f1 + f1 % 2
    } else {
        f1
    }
}

/// Tier of countryside settlement `i`: per group of four one town, two
/// villages and a hamlet; mirrored pairs share their tier.
pub open spec fn field_tier(i: int, mirrored: bool) -> SettlementTier {
    let group = if mirrored {
        i / 2
    } else {
        i
    };
    if group % 4 == 0 {
        SettlementTier::Town
    } else if group % 4 == 3 {
        SettlementTier::Hamlet
    } else {
        SettlementTier::Village
    }
}

/// The settlement network as planned: capitals first, then the
/// countryside, with their tiers, obeying the placement rules.
pub open spec fn network_ok(
    zc: Seq<(u32, u32)>,
    tiers: Seq<SettlementTier>,
    ncaps: int,
    p: int,
    nc: int,
) -> bool {
    let caps = zc.take(ncaps);
    let field = zc.skip(ncaps);
    &&& 2 <= ncaps <= nc
    &&& ncaps <= zc.len()
    &&& forall|k: int| 0 <= k < ncaps ==> inside(#[trigger] zc[k], p, CITY_MARGIN as int)
    &&& field_ok(field, caps, p, nc == 2)
    &&& field.len() <= field_target(p, nc, ncaps)
    &&& tiers.len() == zc.len()
    &&& forall|k: int| 0 <= k < ncaps ==> #[trigger] tiers[k] == SettlementTier::City
    &&& forall|i: int| 0 <= i < field.len() ==> #[trigger] tiers[ncaps + i] == field_tier(i, nc == 2)
}

/// Every planned settlement lies at least the countryside margin inside
/// the playable square.
pub proof fn lemma_network_inside(
    zc: Seq<(u32, u32)>,
    tiers: Seq<SettlementTier>,
    ncaps: int,
    p: int,
    nc: int,
)
    requires
        network_ok(zc, tiers, ncaps, p, nc),
    ensures
        forall|k: int| 0 <= k < zc.len() ==> inside(#[trigger] zc[k], p, FIELD_MARGIN as int),
{
    assert forall|k: int| 0 <= k < zc.len() implies inside(#[trigger] zc[k], p, FIELD_MARGIN as int) by {
        if k < ncaps {
            assert(inside(zc[k], p, CITY_MARGIN as int));
        } else {
            let field = zc.skip(ncaps);
            assert(field[k - ncaps] == zc[k]);
            assert(inside(field[k - ncaps], p, FIELD_MARGIN as int));
        }
    }
}

/// Every road edge joins two distinct zones, smaller index first, and no
/// edge repeats; every zone has road degree at least 2 (1 with only two
/// zones); the first `n - 1` edges already connect every zone to every
/// other, and each later edge was added while one of its ends had fewer than
/// two edges.
pub open spec fn edges_ok(edges: Seq<(usize, usize)>, n: int) -> bool {
    &&& forall|t: int| 0 <= t < edges.len() ==> #[trigger] edges[t].0 < edges[t].1 < n
    &&& n >= 2 ==> forall|v: int|
        0 <= v < n ==> #[trigger] degree(edges, v) >= if n >= 3 {
            2int
        } else {
            1int
        }
    &&& forall|a: int, b: int| 0 <= a < n && 0 <= b < n ==> #[trigger] connected(edges, a, b)
    &&& edges.no_duplicates()
    &&& n >= 2 ==> edges.len() >= n - 1
    &&& n >= 2 ==> forall|a: int, b: int|
        0 <= a < n && 0 <= b < n ==> #[trigger] connected(edges.take(n - 1), a, b)
    &&& n >= 2 ==> forall|k: int|
        n - 1 <= k < edges.len() ==> degree(edges.take(k), (#[trigger] edges[k]).0 as int) < 2
            || degree(edges.take(k), edges[k].1 as int) < 2
}

/// Zone `u` is listed among the road neighbours of zone `v`.
pub open spec fn adjacency(edges: Seq<(usize, usize)>, v: int) -> Seq<u8>
    decreases edges.len(),
{
    if edges.len() == 0 {
        Seq::empty()
    } else {
        let e = edges.last();
        let rest = adjacency(edges.drop_last(), v);
        if e.0 == v {
            rest.push(e.1 as u8)
        } else if e.1 == v {
            rest.push(e.0 as u8)
        } else {
            rest
        }
    }
}


/// Road neighbours of each zone, in edge order.
pub open spec fn all_adjacency(edges: Seq<(usize, usize)>, n: int) -> Seq<Seq<u8>> {
    Seq::new(n as nat, |v: int| adjacency(edges, v))
}

/// Tiers of the planned settlements.
pub open spec fn tiers_of(specs: Seq<SettlementSpec>) -> Seq<SettlementTier> {
    Seq::new(specs.len(), |i: int| specs[i].tier)
}

/// No cell of the grid is built on.
pub open spec fn no_buildings(g: Grid) -> bool {
    forall|i: int| 0 <= i < g.buildings@.len() ==> !#[trigger] g.buildings@[i]
}

/// Half-side of the square around each zone center that stays open ground.
pub const ZONE_CORE: u32 = 3;

/// Cell `(x, y)` lies within `ZONE_CORE` tiles, on both axes, of `c`.
pub open spec fn in_core(c: (u32, u32), x: int, y: int) -> bool {
    &&& c.0 - ZONE_CORE <= x <= c.0 + ZONE_CORE
    &&& c.1 - ZONE_CORE <= y <= c.1 + ZONE_CORE
}

/// Every grid cell in the core of a zone center is walkable terrain.
pub open spec fn cores_walkable(g: Grid, zc: Seq<(u32, u32)>) -> bool {
    forall|k: int, x: int, y: int|
        #![trigger zc[k], g.tile(x, y)]
        0 <= k < zc.len() && g.in_grid(x, y) && in_core(zc[k], x, y) ==> g.tile(
            x,
            y,
        ).spec_walkable()
}

/// What a finished layout promises on the grid it came with.
pub open spec fn layout_ok(l: MapLayout, g: Grid, p: int, nc: int) -> bool {
    let zc = l.zone_centers@;
    let ncaps = l.extra_bases@.len() + 2int;
    &&& ncaps <= zc.len()
    &&& zc.len() <= 4 + MAX_FIELD
    &&& l.blue_base == zc[0]
    &&& l.red_base == zc[1]
    &&& l.blue_gather == zc[0]
    &&& l.red_gather == zc[1]
    &&& forall|k: int| 0 <= k < l.extra_bases@.len() ==> #[trigger] l.extra_bases@[k] == zc[2 + k]
    &&& l.blue_home_zones@.len() == 0
    &&& l.red_home_zones@.len() == 0
    &&& l.settlements@.len() == zc.len()
    &&& network_ok(zc, tiers_of(l.settlements@), ncaps, p, nc)
    &&& l.connections@.len() == zc.len()
    &&& resources_in_grid(g, l.settlements@)
    &&& no_buildings(g)
    &&& decorations_placed(g)
    &&& cores_walkable(g, zc)
    &&& exists|edges: Seq<(usize, usize)>|
        edges_ok(edges, zc.len() as int) && forall|v: int|
            0 <= v < zc.len() ==> (#[trigger] l.connections@[v])@ == adjacency(edges, v)
    &&& forall|i: int|
        0 <= i < l.settlements@.len() ==> {
            &&& (#[trigger] l.settlements@[i]).zone_idx == i
            &&& anchors_clear(g, l.settlements@[i])
            &&& l.settlements@[i].tier == SettlementTier::City ==> l.settlements@[i].houses@.len()
                == 0 && l.settlements@[i].production@.len() == 0
            &&& production_from_theme(l.settlements@[i])
        }
    &&& zc.len() >= 3 ==> forall|t: super::village::VillageTheme| #[trigger] theme_worked(
        l.settlements@,
        t,
    )
}

/// Budgeted map generation. The pipeline is a state machine advanced by
/// `step`, each step bounded to roughly `STEP_TILES` tiles of work or
/// `ROAD_POPS_PER_STEP` expansions of one road search, so a host can spread
/// generation across frames.
pub struct MapGen {
    seed: u32,
    playable: u32,
    n_capitals: u32,
    w: u32,
    h: u32,
    rows_per_step: u32,
    grid: Grid,
    rng: Rng,
    stage: GenStage,
    water_changes: Vec<(u32, u32, bool)>,
    tree_cur: Vec<bool>,
    tree_next: Vec<bool>,
    zone_centers: Vec<(u32, u32)>,
    tiers: Vec<SettlementTier>,
    capitals: Vec<(u32, u32)>,
    road_edges: Vec<(usize, usize)>,
    road_job: Option<RoadAstarJob>,
    result: Option<MapLayout>,
    steps_done: u32,
    steps_total: u32,
}

/// Order of the stages, later ones lower; repeated passes count down too.
pub open spec fn stage_rank(s: GenStage) -> nat {
    match s {
        GenStage::Heightmap { .. } => 40,
        GenStage::WaterScan { pass, .. } => (20 + 2 * (3 - pass)) as nat,
        GenStage::WaterApply { pass } => (19 + 2 * (3 - pass)) as nat,
        GenStage::TreeSeed { .. } => 19,
        GenStage::TreeCa { iter, .. } => (12 + (5 - iter)) as nat,
        GenStage::TreePlace { .. } => 11,
        GenStage::Rocks { .. } => 10,
        GenStage::Bushes { .. } => 9,
        GenStage::WaterRocks { .. } => 8,
        GenStage::Network => 7,
        GenStage::Clearing => 6,
        GenStage::RoadsPlan => 5,
        GenStage::RoadEdge { .. } => 4,
        GenStage::RoadsBorder => 3,
        GenStage::Settlements => 2,
        GenStage::Done => 0,
    }
}

/// The row a banded stage resumes at.
pub open spec fn stage_row(s: GenStage) -> Option<u32> {
    match s {
        GenStage::Heightmap { row } => Some(row),
        GenStage::WaterScan { row, .. } => Some(row),
        GenStage::TreeSeed { row } => Some(row),
        GenStage::TreeCa { row, .. } => Some(row),
        GenStage::TreePlace { row } => Some(row),
        GenStage::Rocks { row } => Some(row),
        GenStage::Bushes { row } => Some(row),
        GenStage::WaterRocks { row } => Some(row),
        _ => None,
    }
}

/// Counters of a stage stay in range.
pub open spec fn stage_bounds(s: GenStage, h: int) -> bool {
    &&& stage_row(s) matches Some(row) ==> row < h
    &&& s matches GenStage::WaterScan { pass, .. } ==> pass < WATER_PASSES
    &&& s matches GenStage::WaterApply { pass } ==> pass < WATER_PASSES
    &&& s matches GenStage::TreeCa { iter, .. } ==> iter < TREE_STEPS
}

/// Lexicographic order on the four progress measures.
pub open spec fn lex_lt(a: (nat, nat, nat, nat), b: (nat, nat, nat, nat)) -> bool {
    a.0 < b.0 || (a.0 == b.0 && (a.1 < b.1 || (a.1 == b.1 && (a.2 < b.2 || (a.2 == b.2 && a.3
        < b.3)))))
}

/// Water changes scanned from the rows a scan step starting at `y0` and
/// ending at `y1` covers, appended to `c0`, give `c`.
pub open spec fn water_scan_band(
    g: Grid,
    c0: Seq<(u32, u32, bool)>,
    c: Seq<(u32, u32, bool)>,
    y0: int,
    y1: int,
) -> bool {
    let ys = scan_start(y0);
    let ye = scan_end(g, y1);
    c == c0 + band_changes(g, ys, if ye < ys {
        ys
    } else {
        ye
    })
}

/// The scanned water changes `cs` applied to `g0` give `g`.
pub open spec fn water_applied(g0: Grid, g: Grid, cs: Seq<(u32, u32, bool)>) -> bool {
    &&& g.tiles@ == applied_tiles(g0, cs)
    &&& g.elevations@ == applied_elevations(g0, cs)
    &&& g.decorations@ == applied_decorations(g0, cs)
}

/// The tree layer `c` is `c0` with rows `[y0, y1)` of a `w × h` grid seeded.
pub open spec fn tree_seed_band(
    c0: Seq<bool>,
    c: Seq<bool>,
    w: int,
    h: int,
    seed: u32,
    y0: int,
    y1: int,
) -> bool {
    forall|x: int, y: int|
        0 <= x < w && 0 <= y < h ==> #[trigger] c[y * w + x] == if y0 <= y < y1 {
            tree_seed(seed, x, y)
        } else {
            c0[y * w + x]
        }
}

/// The buffer `n` is `n0` with rows `[y0, y1)` of the next automaton
/// generation of `cur` written in.
pub open spec fn tree_step_band(
    cur: Seq<bool>,
    n0: Seq<bool>,
    n: Seq<bool>,
    w: int,
    h: int,
    y0: int,
    y1: int,
) -> bool {
    forall|x: int, y: int|
        0 <= x < w && 0 <= y < h ==> #[trigger] n[y * w + x] == if y0 <= y < y1 {
            tree_next(cur, w, h, x, y)
        } else {
            n0[y * w + x]
        }
}

/// Forest planted over rows `[y0, y1)` of `g0` where the tree layer `cells`
/// is live on open ground gives the ground of `g`.
pub open spec fn forest_band(g0: Grid, g: Grid, cells: Seq<bool>, y0: int, y1: int) -> bool {
    forall|x: int, y: int|
        #![trigger g.tile(x, y)]
        g.in_grid(x, y) ==> g.tile(x, y) == if y0 <= y < y1 && cells[y * g0.width + x]
            && open_ground(g0, x, y) {
            TileKind::Forest
        } else {
            g0.tile(x, y)
        }
}

/// Generator state the settlement network of a map seeded `seed` starts from.
pub open spec fn network_state(seed: u32) -> u32 {
    let s = vstd::wrapping::u32_specs::wrapping_add(seed, 0xC17Eu32);
    if s == 0 {
        1u32
    } else {
        s
    }
}

/// The settlement network of a `p`-wide playable square on grid `g`, for
/// `nc` capitals and generator state `st`: the capitals `caps` come from a
/// pool of sampled points, the first two as the opening pair and each
/// further one as the best extra choice (or the pool ran out), and the
/// countryside is the field placed around them from the state that sampling
/// left; the zone centers `zc` are the capitals, then the countryside.
pub open spec fn network_planned(
    g: Grid,
    p: int,
    nc: int,
    st: u32,
    caps: Seq<(u32, u32)>,
    zc: Seq<(u32, u32)>,
) -> bool {
    let pool = Seq::new(POOL_SIZE as nat, |i: int| pool_point(st, p, i));
    &&& 2 <= caps.len() <= nc
    &&& exists|ia: int, ja: int|
        opening_pair(g, pool, p, ia, ja) && caps[0] == pool[ia] && caps[1] == pool[ja]
    &&& forall|k: int| 2 <= k < caps.len() ==> extra_choice(g, pool, caps.take(k), #[trigger] caps[k])
    &&& caps.len() < nc ==> forall|t: int| 0 <= t < pool.len() ==> caps.contains(pool[t])
    &&& zc == caps + placed_field(
        g,
        p,
        caps,
        field_target(p, nc, caps.len() as int),
        nc == 2,
        xs_n(st, (2 * POOL_SIZE) as nat),
    ).0
}

/// Cell `(x, y)` lies in the cleared ground of one of the first `n` zones.
pub open spec fn in_clearing(zc: Seq<(u32, u32)>, tiers: Seq<SettlementTier>, n: int, x: int, y: int) -> bool {
    exists|k: int|
        0 <= k < n && #[trigger] in_disk(zc[k].0 as int, zc[k].1 as int, clear_radius(tiers[k]), x, y)
}

/// Clearing the ground of the first `n` zones of `g0` gives `g`: flat,
/// undecorated grass in every clearing, everything else as it was.
pub open spec fn clearings_cut(
    g0: Grid,
    g: Grid,
    zc: Seq<(u32, u32)>,
    tiers: Seq<SettlementTier>,
    n: int,
) -> bool {
    forall|x: int, y: int|
        #![trigger g.tile(x, y)]
        g.in_grid(x, y) ==> if in_clearing(zc, tiers, n, x, y) {
            &&& g.tile(x, y) == TileKind::Grass
            &&& g.elev(x, y) == 0
            &&& g.deco(x, y) is None
        } else {
            &&& g.tile(x, y) == g0.tile(x, y)
            &&& g.elev(x, y) == g0.elev(x, y)
            &&& g.deco(x, y) == g0.deco(x, y)
        }
}

/// Road verges of `g0` cleared give `g`: every blocking cell next to a road
/// turns to flat, undecorated grass (roads stay roads); the rest stays.
pub open spec fn verges_cleared(g0: Grid, g: Grid) -> bool {
    forall|x: int, y: int|
        #![trigger g.tile(x, y)]
        g.in_grid(x, y) ==> if verge_blocker(g0, x, y) && road_adjacent(g0, x, y) {
            &&& g.tile(x, y) == if g0.tile(x, y) == TileKind::Road {
                TileKind::Road
            } else {
                TileKind::Grass
            }
            &&& g.deco(x, y) is None
            &&& g.elev(x, y) == 0
        } else {
            &&& g.tile(x, y) == g0.tile(x, y)
            &&& g.deco(x, y) == g0.deco(x, y)
            &&& g.elev(x, y) == g0.elev(x, y)
        }
}

/// Decorations stand where they belong: bushes on grass, flat unless in the
/// border ring; rocks in the water in water; gold stones on grass.
pub open spec fn decorations_placed(g: Grid) -> bool {
    forall|x: int, y: int|
        #![trigger g.deco(x, y)]
        g.in_grid(x, y) ==> {
            &&& g.deco(x, y) == Some(Decoration::Bush) ==> g.tile(x, y) == TileKind::Grass && (g.elev(
                x,
                y,
            ) == 0 || spec_in_border(x, y))
            &&& g.deco(x, y) == Some(Decoration::WaterRock) ==> g.tile(x, y) == TileKind::Water
            &&& g.deco(x, y) matches Some(Decoration::GoldStone(_)) ==> g.tile(x, y)
                == TileKind::Grass
        }
}

/// No cell of `g` is decorated.
pub open spec fn undecorated(g: Grid) -> bool {
    forall|x: int, y: int| #![trigger g.deco(x, y)] g.in_grid(x, y) ==> g.deco(x, y) is None
}

/// The cleared ground around every zone is undecorated.
pub open spec fn clearings_bare(g: Grid, zc: Seq<(u32, u32)>, tiers: Seq<SettlementTier>) -> bool {
    forall|k: int, x: int, y: int|
        #![trigger zc[k], g.deco(x, y)]
        0 <= k < zc.len() && k < tiers.len() && g.in_grid(x, y) && in_disk(
            zc[k].0 as int,
            zc[k].1 as int,
            clear_radius(tiers[k]),
            x,
            y,
        ) ==> g.deco(x, y) is None
}

/// Decorations that stay undisturbed stay undecorated.
proof fn lemma_undecorated_kept(g0: Grid, g: Grid)
    requires
        undecorated(g0),
        g.same_shape(&g0),
        g.decorations@ == g0.decorations@,
    ensures
        undecorated(g),
        decorations_placed(g),
{
    assert forall|x: int, y: int| #![trigger g.deco(x, y)] g.in_grid(x, y) implies g.deco(x, y)
        is None by {
        assert(g0.deco(x, y) is None);
    }
}

/// Where every cell either loses its decoration or keeps its ground,
/// elevation and decoration, decorations stay in place and bare clearings
/// stay bare.
proof fn lemma_keep_or_clear(
    g0: Grid,
    g: Grid,
    zc: Seq<(u32, u32)>,
    tiers: Seq<SettlementTier>,
)
    requires
        g.same_shape(&g0),
        forall|x: int, y: int|
            #![trigger g.deco(x, y)]
            g.in_grid(x, y) ==> g.deco(x, y) is None || (g.tile(x, y) == g0.tile(x, y) && g.deco(
                x,
                y,
            ) == g0.deco(x, y) && g.elev(x, y) == g0.elev(x, y)),
        decorations_placed(g0),
    ensures
        decorations_placed(g),
        clearings_bare(g0, zc, tiers) ==> clearings_bare(g, zc, tiers),
{
    assert forall|x: int, y: int| #![trigger g.deco(x, y)] g.in_grid(x, y) implies {
        &&& g.deco(x, y) == Some(Decoration::Bush) ==> g.tile(x, y) == TileKind::Grass && (g.elev(
            x,
            y,
        ) == 0 || spec_in_border(x, y))
        &&& g.deco(x, y) == Some(Decoration::WaterRock) ==> g.tile(x, y) == TileKind::Water
        &&& g.deco(x, y) matches Some(Decoration::GoldStone(_)) ==> g.tile(x, y) == TileKind::Grass
    } by {
        assert(g0.in_grid(x, y));
        let _ = g0.deco(x, y);
    }
    if clearings_bare(g0, zc, tiers) {
        assert forall|k: int, x: int, y: int|
            #![trigger zc[k], g.deco(x, y)]
            0 <= k < zc.len() && k < tiers.len() && g.in_grid(x, y) && in_disk(
                zc[k].0 as int,
                zc[k].1 as int,
                clear_radius(tiers[k]),
                x,
                y,
            ) implies g.deco(x, y) is None by {
            assert(g0.in_grid(x, y));
            let _ = g0.deco(x, y);
        }
    }
}

/// Applying water changes to an undecorated grid leaves it undecorated.
proof fn lemma_applied_undecorated(g: Grid, cs: Seq<(u32, u32, bool)>)
    requires
        g.wf(),
        undecorated(g),
        forall|i: int|
            0 <= i < cs.len() ==> g.in_grid((#[trigger] cs[i]).0 as int, cs[i].1 as int),
    ensures
        applied_decorations(g, cs).len() == g.decorations@.len(),
        forall|x: int, y: int|
            g.in_grid(x, y) ==> #[trigger] applied_decorations(g, cs)[g.index(x, y)] is None,
    decreases cs.len(),
{
    if cs.len() > 0 {
        let c = cs.last();
        assert forall|i: int|
            0 <= i < cs.drop_last().len() implies g.in_grid(
            (#[trigger] cs.drop_last()[i]).0 as int,
            cs.drop_last()[i].1 as int,
        ) by {
            assert(cs.drop_last()[i] == cs[i]);
        }
        lemma_applied_undecorated(g, cs.drop_last());
        assert(g.in_grid(c.0 as int, c.1 as int));
        crate::grid::lemma_cell_index(g.width as int, g.height as int, c.0 as int, c.1 as int);
        assert forall|x: int, y: int| g.in_grid(x, y) implies #[trigger] applied_decorations(
            g,
            cs,
        )[g.index(x, y)] is None by {
            crate::grid::lemma_cell_index(g.width as int, g.height as int, x, y);
            assert(applied_decorations(g, cs.drop_last())[g.index(x, y)] is None);
        }
    } else {
        assert forall|x: int, y: int| g.in_grid(x, y) implies #[trigger] applied_decorations(
            g,
            cs,
        )[g.index(x, y)] is None by {
            assert(g.deco(x, y) is None);
        }
    }
}

/// The heightmap applied to rows `[y0, y1)` of `g0` gives `g`; other rows
/// keep their ground and elevation.
pub open spec fn heightmap_band(g0: Grid, g: Grid, seed: u32, y0: int, y1: int) -> bool {
    forall|x: int, y: int|
        #![trigger g.tile(x, y)]
        g.in_grid(x, y) ==> if y0 <= y < y1 {
            height_applied(g0, g, seed, x, y)
        } else {
            g.tile(x, y) == g0.tile(x, y) && g.elev(x, y) == g0.elev(x, y)
        }
}

/// Rocks scattered over rows `[y0, y1)` of `g0` from generator state `s0`
/// give the ground of `g`.
pub open spec fn rock_band(g0: Grid, g: Grid, s0: u32, y0: int, y1: int) -> bool {
    forall|x: int, y: int|
        #![trigger g.tile(x, y)]
        g.in_grid(x, y) ==> g.tile(x, y) == if y0 <= y < y1 && draw_hits(
            state_all(s0, g0.width as int, y0, x, y),
            ROCK_THRESHOLD,
        ) && open_ground(g0, x, y) {
            TileKind::Rock
        } else {
            g0.tile(x, y)
        }
}

/// Bushes scattered over rows `[y0, y1)` of `g0` from generator state `s0`
/// give the decorations of `g`.
pub open spec fn bush_band(g0: Grid, g: Grid, s0: u32, y0: int, y1: int) -> bool {
    forall|x: int, y: int|
        #![trigger g.deco(x, y)]
        g.in_grid(x, y) ==> g.deco(x, y) == if y0 <= y < y1 && draw_hits(
            state_all(s0, g0.width as int, y0, x, y),
            BUSH_THRESHOLD,
        ) && open_ground(g0, x, y) {
            Some(Decoration::Bush)
        } else {
            g0.deco(x, y)
        }
}

/// Rocks in the water over rows `[y0, y1)` of `g0` from generator state
/// `s0` give the decorations of `g`.
pub open spec fn water_rock_band(g0: Grid, g: Grid, s0: u32, y0: int, y1: int) -> bool {
    forall|x: int, y: int|
        #![trigger g.deco(x, y)]
        g.in_grid(x, y) ==> g.deco(x, y) == if y0 <= y < y1 && g0.tile(x, y) == TileKind::Water
            && draw_hits(state_water(g0, s0, y0, x, y), WATER_ROCK_THRESHOLD) {
            Some(Decoration::WaterRock)
        } else {
            g0.deco(x, y)
        }
}

/// Road edge `(a, b)` between zone centers `zc` is done on `g0`, giving
/// `g`: either no road walk joins the two centers and nothing changes, or a
/// cheapest road route joins them, cell by cell, and is painted (2×2
/// stamps; water stays).
pub open spec fn road_edge_painted(
    g0: Grid,
    g: Grid,
    zc: Seq<(u32, u32)>,
    e: (usize, usize),
) -> bool {
    let from = zc[e.0 as int];
    let to = zc[e.1 as int];
    ||| no_road(g0, from, to) && g == g0
    ||| exists|p: Seq<(u32, u32)>|
        #![trigger road_route(g0, from, to, p)]
        {
            &&& road_route(g0, from, to, p)
            &&& cheapest_route(g0, from, to, p)
            &&& from != to ==> no_stutter(p)
            &&& forall|x: int, y: int|
                #![trigger g.tile(x, y)]
                g.in_grid(x, y) ==> painted_as(g0, g, x, y, stamped(p, p.len() as int, x, y))
        }
}

/// The stage that follows `s` once its current chunk of work is done, with
/// bands of `rps` rows on an `h`-row grid and `n_edges` road edges.
pub open spec fn stage_after(s: GenStage, rps: int, h: int, n_edges: int) -> GenStage {
    match s {
        GenStage::Heightmap { row } => if row + rps >= h {
            GenStage::WaterScan { pass: 0, row: 0 }
        } else {
            GenStage::Heightmap { row: (row + rps) as u32 }
        },
        GenStage::WaterScan { pass, row } => if row + rps >= h - 1 {
            GenStage::WaterApply { pass }
        } else {
            GenStage::WaterScan { pass, row: (row + rps) as u32 }
        },
        GenStage::WaterApply { pass } => if pass + 1 < WATER_PASSES {
            GenStage::WaterScan { pass: (pass + 1) as u32, row: 0 }
        } else {
            GenStage::TreeSeed { row: 0 }
        },
        GenStage::TreeSeed { row } => if row + rps >= h {
            GenStage::TreeCa { iter: 0, row: 0 }
        } else {
            GenStage::TreeSeed { row: (row + rps) as u32 }
        },
        GenStage::TreeCa { iter, row } => if row + rps >= h {
            if iter + 1 < TREE_STEPS {
                GenStage::TreeCa { iter: (iter + 1) as u32, row: 0 }
            } else {
                GenStage::TreePlace { row: 0 }
            }
        } else {
            GenStage::TreeCa { iter, row: (row + rps) as u32 }
        },
        GenStage::TreePlace { row } => if row + rps >= h {
            GenStage::Rocks { row: 0 }
        } else {
            GenStage::TreePlace { row: (row + rps) as u32 }
        },
        GenStage::Rocks { row } => if row + rps >= h {
            GenStage::Bushes { row: 0 }
        } else {
            GenStage::Rocks { row: (row + rps) as u32 }
        },
        GenStage::Bushes { row } => if row + rps >= h {
            GenStage::WaterRocks { row: 0 }
        } else {
            GenStage::Bushes { row: (row + rps) as u32 }
        },
        GenStage::WaterRocks { row } => if row + rps >= h {
            GenStage::Network
        } else {
            GenStage::WaterRocks { row: (row + rps) as u32 }
        },
        GenStage::Network => GenStage::Clearing,
        GenStage::Clearing => GenStage::RoadsPlan,
        GenStage::RoadsPlan => GenStage::RoadEdge { i: 0 },
        GenStage::RoadEdge { i } => if i + 1 < n_edges {
            GenStage::RoadEdge { i: (i + 1) as usize }
        } else {
            GenStage::RoadsBorder
        },
        GenStage::RoadsBorder => GenStage::Settlements,
        GenStage::Settlements => GenStage::Done,
        GenStage::Done => GenStage::Done,
    }
}

/// What one step of the pipeline does, from state `o` to state `f`,
/// returning `done`.
pub open spec fn step_effect(o: MapGen, f: MapGen, done: bool) -> bool {
    &&& f.same_config(o)
    &&& done == f.spec_done()
    &&& done == (o.spec_stage() is Settlements || o.spec_stage() is Done)
    &&& o.spec_done() ==> done
    &&& !done ==> lex_lt(f.measure(), o.measure())
    &&& f.spec_steps_done() == if o.spec_steps_done() < u32::MAX {
        o.spec_steps_done() + 1
    } else {
        o.spec_steps_done() as int
    }
    &&& o.spec_done() ==> {
        &&& f.spec_stage() == o.spec_stage()
        &&& f.spec_grid() == o.spec_grid()
        &&& f.spec_result() == o.spec_result()
    }
    &&& o.spec_stage() matches GenStage::Heightmap { row } ==> heightmap_band(
        o.spec_grid(),
        f.spec_grid(),
        o.spec_seed(),
        row as int,
        o.spec_band_end(row),
    )
    &&& o.spec_stage() matches GenStage::WaterScan { row, .. } ==> f.spec_grid()
        == o.spec_grid() && water_scan_band(
        o.spec_grid(),
        o.spec_water_changes(),
        f.spec_water_changes(),
        row as int,
        o.spec_band_end(row),
    )
    &&& o.spec_stage() is WaterApply ==> water_applied(
        o.spec_grid(),
        f.spec_grid(),
        o.spec_water_changes(),
    ) && f.spec_water_changes().len() == 0
    &&& o.spec_stage() matches GenStage::TreeSeed { row } ==> tree_seed_band(
        o.spec_tree_layer(),
        f.spec_tree_layer(),
        o.spec_grid().width as int,
        o.spec_grid().height as int,
        o.spec_seed(),
        row as int,
        o.spec_band_end(row),
    )
    &&& o.spec_stage() matches GenStage::TreeCa { row, .. } ==> {
        let last = row + o.spec_rows_per_step() >= o.spec_grid().height;
        &&& tree_step_band(
            o.spec_tree_layer(),
            o.spec_tree_scratch(),
            if last {
                f.spec_tree_layer()
            } else {
                f.spec_tree_scratch()
            },
            o.spec_grid().width as int,
            o.spec_grid().height as int,
            row as int,
            o.spec_band_end(row),
        )
        &&& last ==> f.spec_tree_scratch() == o.spec_tree_layer()
    }
    &&& o.spec_stage() matches GenStage::TreePlace { row } ==> forest_band(
        o.spec_grid(),
        f.spec_grid(),
        o.spec_tree_layer(),
        row as int,
        o.spec_band_end(row),
    )
    &&& o.spec_stage() is Network ==> f.spec_grid() == o.spec_grid()
        && network_planned(
        o.spec_grid(),
        o.spec_playable() as int,
        clamp_capitals(o.spec_n_capitals()),
        network_state(o.spec_seed()),
        f.spec_capitals(),
        f.spec_zone_centers(),
    )
    &&& o.spec_stage() is Settlements ==> only_groves(
        o.spec_grid(),
        f.spec_grid(),
    ) && forall|x: int, y: int|
        #![trigger f.spec_grid().tile(x, y)]
        f.spec_grid().in_grid(x, y) && f.spec_grid().tile(x, y) != o.spec_grid().tile(x, y)
            ==> in_clearing(
            o.spec_zone_centers(),
            o.spec_tiers(),
            o.spec_zone_centers().len() as int,
            x,
            y,
        )
    &&& o.spec_stage() is Settlements ==> (f.spec_result() matches Some(l) && l.zone_centers@
        == o.spec_zone_centers() && settlements_planned(
        o.spec_grid(),
        f.spec_grid(),
        o.spec_zone_centers(),
        o.spec_seed(),
        l.settlements@,
    ) && groves_planted(f.spec_grid(), l.settlements@))
    &&& o.spec_stage() is Clearing ==> clearings_cut(
        o.spec_grid(),
        f.spec_grid(),
        o.spec_zone_centers(),
        o.spec_tiers(),
        o.spec_zone_centers().len() as int,
    )
    &&& o.spec_stage() is RoadsPlan ==> f.spec_grid() == o.spec_grid()
        && edges_ok(f.spec_road_edges(), o.spec_zone_centers().len() as int)
    &&& o.spec_stage() is RoadsBorder ==> verges_cleared(
        o.spec_grid(),
        f.spec_grid(),
    )
    &&& o.spec_stage() matches GenStage::Rocks { row } ==> rock_band(
        o.spec_grid(),
        f.spec_grid(),
        o.spec_rng_state(),
        row as int,
        o.spec_band_end(row),
    )
    &&& o.spec_stage() matches GenStage::Bushes { row } ==> bush_band(
        o.spec_grid(),
        f.spec_grid(),
        o.spec_rng_state(),
        row as int,
        o.spec_band_end(row),
    )
    &&& o.spec_stage() matches GenStage::WaterRocks { row } ==> water_rock_band(
        o.spec_grid(),
        f.spec_grid(),
        o.spec_rng_state(),
        row as int,
        o.spec_band_end(row),
    )
    &&& o.spec_stage() matches GenStage::RoadEdge { i } ==> if f.spec_stage()
        == o.spec_stage() {
        f.spec_grid() == o.spec_grid()
    } else {
        i < o.spec_road_edges().len() ==> road_edge_painted(
            o.spec_grid(),
            f.spec_grid(),
            o.spec_zone_centers(),
            o.spec_road_edges()[i as int],
        )
    }
    &&& o.spec_stage() is RoadEdge ==> f.spec_stage() == o.spec_stage() || f.spec_stage()
        == stage_after(
        o.spec_stage(),
        o.spec_rows_per_step() as int,
        o.spec_grid().height as int,
        o.spec_road_edges().len() as int,
    )
    &&& !(o.spec_stage() is RoadEdge) ==> f.spec_stage() == stage_after(
        o.spec_stage(),
        o.spec_rows_per_step() as int,
        o.spec_grid().height as int,
        o.spec_road_edges().len() as int,
    )
    &&& f.spec_rows_per_step() == o.spec_rows_per_step()
    &&& f.spec_grid().height == o.spec_grid().height
    &&& f.spec_grid().width == o.spec_grid().width
}

/// A pipeline just started for `seed`, a `p`-wide playable square and `n`
/// capitals: all-grass ground, an empty tree layer, no water changes, the
/// generator seeded from `seed`, at the first heightmap row.
pub open spec fn fresh(g: MapGen, seed: u32, p: u32, n: u32) -> bool {
    &&& g.inv()
    &&& g.spec_seed() == seed
    &&& g.spec_playable() == p
    &&& g.spec_n_capitals() == n
    &&& g.spec_stage() == (GenStage::Heightmap { row: 0 })
    &&& g.spec_steps_done() == 0
    &&& g.spec_rng_state() == if seed == 0 {
        1u32
    } else {
        seed
    }
    &&& g.spec_rows_per_step() == if STEP_TILES as int / (p + 2 * BORDER_SIZE) > 1 {
        STEP_TILES as int / (p + 2 * BORDER_SIZE)
    } else {
        1
    }
    &&& g.spec_grid().width == p + 2 * BORDER_SIZE
    &&& g.spec_grid().height == p + 2 * BORDER_SIZE
    &&& forall|x: int, y: int|
        #![trigger g.spec_grid().tile(x, y)]
        g.spec_grid().in_grid(x, y) ==> g.spec_grid().tile(x, y) == TileKind::Grass && g.spec_grid().elev(
            x,
            y,
        ) == 0 && g.spec_grid().deco(x, y) is None
    &&& g.spec_water_changes().len() == 0
    &&& g.spec_tree_layer().len() == g.spec_grid().width * g.spec_grid().height
    &&& forall|i: int| 0 <= i < g.spec_tree_layer().len() ==> !#[trigger] g.spec_tree_layer()[i]
    &&& g.spec_tree_scratch() == g.spec_tree_layer()
}

/// `run` drains a pipeline started for `seed`, `p` and `n`: its first state
/// is fresh, each later state is one step after the one before, and only
/// the last is done.
pub open spec fn drained_run(run: Seq<MapGen>, seed: u32, p: u32, n: u32) -> bool {
    &&& run.len() >= 1
    &&& fresh(run[0], seed, p, n)
    &&& forall|k: int|
        #![trigger run[k]]
        0 <= k < run.len() - 1 ==> step_effect(run[k], run[k + 1], run[k + 1].spec_done())
            && !run[k].spec_done()
    &&& run.last().spec_done()
}

impl MapGen {
    pub closed spec fn spec_seed(&self) -> u32 {
        self.seed
    }

    pub closed spec fn spec_playable(&self) -> u32 {
        self.playable
    }

    pub closed spec fn spec_n_capitals(&self) -> u32 {
        self.n_capitals
    }

    pub closed spec fn spec_steps_done(&self) -> u32 {
        self.steps_done
    }

    pub closed spec fn spec_steps_total(&self) -> u32 {
        self.steps_total
    }

    pub open spec fn spec_done(&self) -> bool {
        self.spec_stage() is Done
    }

    pub closed spec fn spec_stage(&self) -> GenStage {
        self.stage
    }

    /// The grid as generated so far.
    pub closed spec fn spec_grid(&self) -> Grid {
        self.grid
    }

    pub closed spec fn spec_result(&self) -> Option<MapLayout> {
        self.result
    }

    /// State of the generator that scatters rocks, bushes and water rocks.
    pub closed spec fn spec_rng_state(&self) -> u32 {
        self.rng.state
    }

    /// The tree layer the automaton steps from.
    pub closed spec fn spec_tree_layer(&self) -> Seq<bool> {
        self.tree_cur@
    }

    /// The buffer the automaton writes its next generation into.
    pub closed spec fn spec_tree_scratch(&self) -> Seq<bool> {
        self.tree_next@
    }

    /// Water changes scanned and not yet applied.
    pub closed spec fn spec_water_changes(&self) -> Seq<(u32, u32, bool)> {
        self.water_changes@
    }

    pub closed spec fn spec_rows_per_step(&self) -> u32 {
        self.rows_per_step
    }

    pub closed spec fn spec_zone_centers(&self) -> Seq<(u32, u32)> {
        self.zone_centers@
    }

    /// Settlement tiers of the planned zones, in zone order.
    pub closed spec fn spec_tiers(&self) -> Seq<SettlementTier> {
        self.tiers@
    }

    pub closed spec fn spec_capitals(&self) -> Seq<(u32, u32)> {
        self.capitals@
    }

    pub closed spec fn spec_road_edges(&self) -> Seq<(usize, usize)> {
        self.road_edges@
    }

    /// End of the band of rows a step starting at `row` covers.
    pub open spec fn spec_band_end(&self, row: u32) -> int {
        let h = self.spec_grid().height as int;
        if row + self.spec_rows_per_step() < h {
            row + self.spec_rows_per_step()
        } else {
            h
        }
    }

    /// Progress measures: stage rank, rows or road edges left, whether the
    /// current road search still has to start, and that search's work left.
    pub closed spec fn m1(&self) -> nat {
        stage_rank(self.stage)
    }

    pub closed spec fn m2(&self) -> nat {
        match self.stage {
            GenStage::RoadEdge { i } => (self.road_edges@.len() - i) as nat,
            _ => match stage_row(self.stage) {
                Some(row) => (self.h - row) as nat,
                None => 0,
            },
        }
    }

    pub closed spec fn m3(&self) -> nat {
        if self.stage is RoadEdge && self.road_job is None {
            1
        } else {
            0
        }
    }

    pub closed spec fn m4(&self) -> nat {
        match self.road_job {
            Some(j) => j.measure(),
            None => 0,
        }
    }

    pub open spec fn measure(&self) -> (nat, nat, nat, nat) {
        (self.m1(), self.m2(), self.m3(), self.m4())
    }

    /// The pipeline's invariant.
    pub closed spec fn inv(&self) -> bool {
        let w = self.w as int;
        let h = self.h as int;
        let zc = self.zone_centers@;
        let nc = clamp_capitals(self.n_capitals);
        &&& MIN_PLAYABLE <= self.playable <= MAX_PLAYABLE
        &&& w == self.playable + 2 * BORDER_SIZE
        &&& h == w
        &&& 1 <= self.rows_per_step <= STEP_TILES
        &&& self.grid.wf()
        &&& self.grid.width == w
        &&& self.grid.height == h
        &&& no_buildings(self.grid)
        &&& (2 <= stage_rank(self.stage) <= 5 ==> cores_walkable(self.grid, zc))
        &&& self.tree_cur@.len() == w * h
        &&& self.tree_next@.len() == w * h
        &&& forall|i: int|
            0 <= i < self.water_changes@.len() ==> self.grid.in_grid(
                (#[trigger] self.water_changes@[i]).0 as int,
                self.water_changes@[i].1 as int,
            )
        &&& stage_bounds(self.stage, h)
        &&& (2 <= stage_rank(self.stage) <= 6 ==> {
            &&& network_ok(zc, self.tiers@, self.capitals@.len() as int, self.playable as int, nc)
            &&& zc.take(self.capitals@.len() as int) == self.capitals@
            &&& zc.len() <= 4 + MAX_FIELD
        })
        &&& (2 <= stage_rank(self.stage) <= 4 ==> edges_ok(self.road_edges@, zc.len() as int))
        &&& (self.stage matches GenStage::RoadEdge { i } ==> i <= self.road_edges@.len())
        &&& (self.road_job matches Some(j) ==> self.stage matches GenStage::RoadEdge { i } && i
            < self.road_edges@.len() && j.inv(self.grid) && j.spec_from()
            == zc[self.road_edges@[i as int].0 as int] && j.spec_to()
            == zc[self.road_edges@[i as int].1 as int])
        &&& (stage_rank(self.stage) >= 10 ==> undecorated(self.grid))
        &&& decorations_placed(self.grid)
        &&& (2 <= stage_rank(self.stage) <= 5 ==> clearings_bare(self.grid, zc, self.tiers@))
        &&& (self.stage is Done) == (self.result is Some)
        &&& (self.result matches Some(l) ==> layout_ok(l, self.grid, self.playable as int, nc))
    }

    /// Start a pipeline for a `playable_size` square with `n_capitals`
    /// factions (clamped to 2..4).
    pub fn new(seed: u32, playable_size: u32, n_capitals: u32) -> (g: MapGen)
        requires
            MIN_PLAYABLE <= playable_size <= MAX_PLAYABLE,
        ensures
            g.inv(),
            g.spec_seed() == seed,
            g.spec_playable() == playable_size,
            g.spec_n_capitals() == n_capitals,
            !g.spec_done(),
            g.spec_stage() == (GenStage::Heightmap { row: 0 }),
            g.spec_steps_done() == 0,
            g.spec_rng_state() == if seed == 0 {
                1u32
            } else {
                seed
            },
            g.spec_rows_per_step() == if STEP_TILES as int / (playable_size + 2 * BORDER_SIZE) > 1 {
                STEP_TILES as int / (playable_size + 2 * BORDER_SIZE)
            } else {
                1
            },
            g.spec_grid().width == playable_size + 2 * BORDER_SIZE,
            g.spec_grid().height == playable_size + 2 * BORDER_SIZE,
            forall|x: int, y: int|
                #![trigger g.spec_grid().tile(x, y)]
                g.spec_grid().in_grid(x, y) ==> g.spec_grid().tile(x, y) == TileKind::Grass
                    && g.spec_grid().elev(x, y) == 0 && g.spec_grid().deco(x, y) is None,
            g.spec_water_changes().len() == 0,
            g.spec_tree_layer().len() == g.spec_grid().width * g.spec_grid().height,
            forall|i: int| 0 <= i < g.spec_tree_layer().len() ==> !#[trigger] g.spec_tree_layer()[i],
            g.spec_tree_scratch() == g.spec_tree_layer(),
            fresh(g, seed, playable_size, n_capitals),
    {
        let w = playable_size + 2 * BORDER_SIZE;
        let h = playable_size + 2 * BORDER_SIZE;
        proof {
            crate::grid::lemma_side_product(w as int, h as int);
        }
        let size = (w * h) as usize;
        let rows_per_step = if STEP_TILES / w > 1 {
            STEP_TILES / w
        } else {
            1
        };
        let bands = (h + rows_per_step - 1) / rows_per_step;
        proof {
            assert(playable_size * playable_size <= 8192 * 8192) by (nonlinear_arith)
                requires
                    playable_size <= 8192,
            ;
        }
        let area_total = (playable_size as usize * playable_size as usize) / 3500;
        let est_zones: u32 = if area_total < 9 {
            9
        } else if area_total > 28 {
            28
        } else {
            area_total as u32
        };
        let steps_total = bands * 13 + 3 + est_zones * 3 / 2 + 3;
        let mut tree_cur: Vec<bool> = Vec::with_capacity(size);
        let mut tree_next: Vec<bool> = Vec::with_capacity(size);
        let mut i: usize = 0;
        while i < size
            invariant
                i <= size,
                tree_cur@.len() == i,
                tree_next@.len() == i,
                forall|j: int| 0 <= j < i ==> !#[trigger] tree_cur@[j],
                tree_next@ == tree_cur@,
            decreases size - i,
        {
            tree_cur.push(false);
            tree_next.push(false);
            i = i + 1;
        }
        let grid = Grid::new_grass(w, h);
        proof {
            assert forall|x: int, y: int| #[trigger] grid.in_grid(x, y) implies grid.tile(x, y)
                == TileKind::Grass && grid.elev(x, y) == 0 && grid.deco(x, y) is None by {
                crate::grid::lemma_cell_index(w as int, h as int, x, y);
            }
        }
        MapGen {
            seed,
            playable: playable_size,
            n_capitals,
            w,
            h,
            rows_per_step,
            grid,
            rng: Rng::new(seed),
            stage: GenStage::Heightmap { row: 0 },
            water_changes: Vec::new(),
            tree_cur,
            tree_next,
            zone_centers: Vec::new(),
            tiers: Vec::new(),
            capitals: Vec::new(),
            road_edges: Vec::new(),
            road_job: None,
            result: None,
            steps_done: 0,
            steps_total,
        }
    }

    /// Configuration that never changes during generation.
    pub closed spec fn same_config(&self, o: MapGen) -> bool {
        &&& self.seed == o.seed
        &&& self.playable == o.playable
        &&& self.n_capitals == o.n_capitals
    }

    /// End of the band of rows starting at `row`.
    fn band_end(&self, row: u32) -> (e: u32)
        requires
            self.inv(),
            row < self.h,
        ensures
            row < e <= self.h,
            e == if row + self.rows_per_step < self.h {
                row + self.rows_per_step
            } else {
                self.h as int
            },
    {
        if row + self.rows_per_step < self.h {
            row + self.rows_per_step
        } else {
            self.h
        }
    }

    fn step_heightmap(&mut self, row: u32)
        requires
            old(self).inv(),
            old(self).stage == (GenStage::Heightmap { row }),
        ensures
            final(self).inv(),
            final(self).same_config(*old(self)),
            final(self).steps_done == old(self).steps_done,
            final(self).stage == stage_after(
                old(self).stage,
                old(self).rows_per_step as int,
                old(self).h as int,
                old(self).road_edges@.len() as int,
            ),
            final(self).rows_per_step == old(self).rows_per_step,
            final(self).h == old(self).h,
            lex_lt(final(self).measure(), old(self).measure()),
            !final(self).spec_done(),
            heightmap_band(
                old(self).grid,
                final(self).grid,
                old(self).seed,
                row as int,
                old(self).spec_band_end(row),
            ),
    {
        let end = self.band_end(row);
        heightmap_rows(&mut self.grid, self.seed, row, end);
        proof {
            lemma_undecorated_kept(old(self).grid, self.grid);
        }
        self.stage = if row + self.rows_per_step >= self.h {
            GenStage::WaterScan { pass: 0, row: 0 }
        } else {
            GenStage::Heightmap { row: row + self.rows_per_step }
        };
    }

    fn step_water_scan(&mut self, pass: u32, row: u32)
        requires
            old(self).inv(),
            old(self).stage == (GenStage::WaterScan { pass, row }),
        ensures
            final(self).inv(),
            final(self).same_config(*old(self)),
            final(self).steps_done == old(self).steps_done,
            final(self).stage == stage_after(
                old(self).stage,
                old(self).rows_per_step as int,
                old(self).h as int,
                old(self).road_edges@.len() as int,
            ),
            final(self).rows_per_step == old(self).rows_per_step,
            final(self).h == old(self).h,
            lex_lt(final(self).measure(), old(self).measure()),
            !final(self).spec_done(),
            final(self).grid == old(self).grid,
            water_scan_band(
                old(self).grid,
                old(self).water_changes@,
                final(self).water_changes@,
                row as int,
                old(self).spec_band_end(row),
            ),
    {
        let end = self.band_end(row);
        let ghost c0 = self.water_changes@;
        water_scan_rows(&self.grid, &mut self.water_changes, row, end);
        proof {
            let g = self.grid;
            let ys = super::layers::scan_start(row as int);
            let ye0 = super::layers::scan_end(g, end as int);
            let ye = if ye0 < ys {
                ys
            } else {
                ye0
            };
            super::layers::lemma_band_changes_in_grid(g, ys, ye);
            assert forall|i: int| 0 <= i < self.water_changes@.len() implies self.grid.in_grid(
                (#[trigger] self.water_changes@[i]).0 as int,
                self.water_changes@[i].1 as int,
            ) by {
                if i >= c0.len() {
                    assert(self.water_changes@[i] == super::layers::band_changes(g, ys, ye)[i
                        - c0.len()]);
                }
            }
        }
        self.stage = if row + self.rows_per_step >= self.h - 1 {
            GenStage::WaterApply { pass }
        } else {
            GenStage::WaterScan { pass, row: row + self.rows_per_step }
        };
    }

    fn step_water_apply(&mut self, pass: u32)
        requires
            old(self).inv(),
            old(self).stage == (GenStage::WaterApply { pass }),
        ensures
            final(self).inv(),
            final(self).same_config(*old(self)),
            final(self).steps_done == old(self).steps_done,
            final(self).stage == stage_after(
                old(self).stage,
                old(self).rows_per_step as int,
                old(self).h as int,
                old(self).road_edges@.len() as int,
            ),
            final(self).rows_per_step == old(self).rows_per_step,
            final(self).h == old(self).h,
            lex_lt(final(self).measure(), old(self).measure()),
            !final(self).spec_done(),
            water_applied(old(self).grid, final(self).grid, old(self).water_changes@),
            final(self).water_changes@.len() == 0,
    {
        apply_water_changes(&mut self.grid, &mut self.water_changes);
        proof {
            let g0 = old(self).grid;
            lemma_applied_undecorated(g0, old(self).water_changes@);
            assert forall|x: int, y: int| #![trigger self.grid.deco(x, y)] self.grid.in_grid(
                x,
                y,
            ) implies self.grid.deco(x, y) is None by {
                assert(applied_decorations(g0, old(self).water_changes@)[g0.index(x, y)] is None);
            }
        }
        self.stage = if pass + 1 < WATER_PASSES {
            GenStage::WaterScan { pass: pass + 1, row: 0 }
        } else {
            GenStage::TreeSeed { row: 0 }
        };
    }

    fn step_tree_seed(&mut self, row: u32)
        requires
            old(self).inv(),
            old(self).stage == (GenStage::TreeSeed { row }),
        ensures
            final(self).inv(),
            final(self).same_config(*old(self)),
            final(self).steps_done == old(self).steps_done,
            final(self).stage == stage_after(
                old(self).stage,
                old(self).rows_per_step as int,
                old(self).h as int,
                old(self).road_edges@.len() as int,
            ),
            final(self).rows_per_step == old(self).rows_per_step,
            final(self).h == old(self).h,
            lex_lt(final(self).measure(), old(self).measure()),
            !final(self).spec_done(),
            tree_seed_band(
                old(self).tree_cur@,
                final(self).tree_cur@,
                old(self).w as int,
                old(self).h as int,
                old(self).seed,
                row as int,
                old(self).spec_band_end(row),
            ),
    {
        let end = self.band_end(row);
        tree_seed_rows(&mut self.tree_cur, self.w, self.h, self.seed, row, end);
        self.stage = if row + self.rows_per_step >= self.h {
            GenStage::TreeCa { iter: 0, row: 0 }
        } else {
            GenStage::TreeSeed { row: row + self.rows_per_step }
        };
    }

    fn step_tree_ca(&mut self, iter: u32, row: u32)
        requires
            old(self).inv(),
            old(self).stage == (GenStage::TreeCa { iter, row }),
        ensures
            final(self).inv(),
            final(self).same_config(*old(self)),
            final(self).steps_done == old(self).steps_done,
            final(self).stage == stage_after(
                old(self).stage,
                old(self).rows_per_step as int,
                old(self).h as int,
                old(self).road_edges@.len() as int,
            ),
            final(self).rows_per_step == old(self).rows_per_step,
            final(self).h == old(self).h,
            lex_lt(final(self).measure(), old(self).measure()),
            !final(self).spec_done(),
            tree_step_band(
                old(self).tree_cur@,
                old(self).tree_next@,
                if row + old(self).rows_per_step >= old(self).h {
                    final(self).tree_cur@
                } else {
                    final(self).tree_next@
                },
                old(self).w as int,
                old(self).h as int,
                row as int,
                old(self).spec_band_end(row),
            ),
            row + old(self).rows_per_step >= old(self).h ==> final(self).tree_next@
                == old(self).tree_cur@,
    {
        let end = self.band_end(row);
        tree_ca_rows(&self.tree_cur, &mut self.tree_next, self.w, self.h, row, end);
        if row + self.rows_per_step >= self.h {
            std::mem::swap(&mut self.tree_cur, &mut self.tree_next);
            self.stage = if iter + 1 < TREE_STEPS {
                GenStage::TreeCa { iter: iter + 1, row: 0 }
            } else {
                GenStage::TreePlace { row: 0 }
            };
        } else {
            self.stage = GenStage::TreeCa { iter, row: row + self.rows_per_step };
        }
    }

    fn step_tree_place(&mut self, row: u32)
        requires
            old(self).inv(),
            old(self).stage == (GenStage::TreePlace { row }),
        ensures
            final(self).inv(),
            final(self).same_config(*old(self)),
            final(self).steps_done == old(self).steps_done,
            final(self).stage == stage_after(
                old(self).stage,
                old(self).rows_per_step as int,
                old(self).h as int,
                old(self).road_edges@.len() as int,
            ),
            final(self).rows_per_step == old(self).rows_per_step,
            final(self).h == old(self).h,
            lex_lt(final(self).measure(), old(self).measure()),
            !final(self).spec_done(),
            forest_band(
                old(self).grid,
                final(self).grid,
                old(self).tree_cur@,
                row as int,
                old(self).spec_band_end(row),
            ),
    {
        let end = self.band_end(row);
        tree_place_rows(&mut self.grid, &self.tree_cur, row, end);
        proof {
            lemma_undecorated_kept(old(self).grid, self.grid);
        }
        self.stage = if row + self.rows_per_step >= self.h {
            GenStage::Rocks { row: 0 }
        } else {
            GenStage::TreePlace { row: row + self.rows_per_step }
        };
    }

    fn step_rocks(&mut self, row: u32)
        requires
            old(self).inv(),
            old(self).stage == (GenStage::Rocks { row }),
        ensures
            final(self).inv(),
            final(self).same_config(*old(self)),
            final(self).steps_done == old(self).steps_done,
            final(self).stage == stage_after(
                old(self).stage,
                old(self).rows_per_step as int,
                old(self).h as int,
                old(self).road_edges@.len() as int,
            ),
            final(self).rows_per_step == old(self).rows_per_step,
            final(self).h == old(self).h,
            lex_lt(final(self).measure(), old(self).measure()),
            !final(self).spec_done(),
            rock_band(
                old(self).grid,
                final(self).grid,
                old(self).rng.state,
                row as int,
                old(self).spec_band_end(row),
            ),
    {
        let end = self.band_end(row);
        rock_rows(&mut self.grid, &mut self.rng, row, end);
        proof {
            lemma_undecorated_kept(old(self).grid, self.grid);
        }
        self.stage = if row + self.rows_per_step >= self.h {
            GenStage::Bushes { row: 0 }
        } else {
            GenStage::Rocks { row: row + self.rows_per_step }
        };
    }

    fn step_bushes(&mut self, row: u32)
        requires
            old(self).inv(),
            old(self).stage == (GenStage::Bushes { row }),
        ensures
            final(self).inv(),
            final(self).same_config(*old(self)),
            final(self).steps_done == old(self).steps_done,
            final(self).stage == stage_after(
                old(self).stage,
                old(self).rows_per_step as int,
                old(self).h as int,
                old(self).road_edges@.len() as int,
            ),
            final(self).rows_per_step == old(self).rows_per_step,
            final(self).h == old(self).h,
            lex_lt(final(self).measure(), old(self).measure()),
            !final(self).spec_done(),
            bush_band(
                old(self).grid,
                final(self).grid,
                old(self).rng.state,
                row as int,
                old(self).spec_band_end(row),
            ),
    {
        let end = self.band_end(row);
        bush_rows(&mut self.grid, &mut self.rng, row, end);
        self.stage = if row + self.rows_per_step >= self.h {
            GenStage::WaterRocks { row: 0 }
        } else {
            GenStage::Bushes { row: row + self.rows_per_step }
        };
    }

    fn step_water_rocks(&mut self, row: u32)
        requires
            old(self).inv(),
            old(self).stage == (GenStage::WaterRocks { row }),
        ensures
            final(self).inv(),
            final(self).same_config(*old(self)),
            final(self).steps_done == old(self).steps_done,
            final(self).stage == stage_after(
                old(self).stage,
                old(self).rows_per_step as int,
                old(self).h as int,
                old(self).road_edges@.len() as int,
            ),
            final(self).rows_per_step == old(self).rows_per_step,
            final(self).h == old(self).h,
            lex_lt(final(self).measure(), old(self).measure()),
            !final(self).spec_done(),
            water_rock_band(
                old(self).grid,
                final(self).grid,
                old(self).rng.state,
                row as int,
                old(self).spec_band_end(row),
            ),
    {
        let end = self.band_end(row);
        water_rock_rows(&mut self.grid, &mut self.rng, row, end);
        self.stage = if row + self.rows_per_step >= self.h {
            GenStage::Network
        } else {
            GenStage::WaterRocks { row: row + self.rows_per_step }
        };
    }

    /// Settlement network: capitals by the opening-pair search, then the
    /// countryside by best-candidate sampling. Zone ids: capitals first.
    fn plan_network(&mut self)
        requires
            old(self).inv(),
            old(self).stage is Network,
        ensures
            final(self).grid == old(self).grid,
            final(self).stage == old(self).stage,
            final(self).same_config(*old(self)),
            final(self).inv_without_network(*old(self)),
            network_ok(
                final(self).zone_centers@,
                final(self).tiers@,
                final(self).capitals@.len() as int,
                final(self).playable as int,
                clamp_capitals(final(self).n_capitals),
            ),
            final(self).zone_centers@.take(final(self).capitals@.len() as int) == final(self).capitals@,
            final(self).zone_centers@.len() <= 4 + MAX_FIELD,
            network_planned(
                old(self).grid,
                old(self).playable as int,
                clamp_capitals(old(self).n_capitals),
                network_state(old(self).seed),
                final(self).capitals@,
                final(self).zone_centers@,
            ),
    {
        let p = self.playable;
        let mut net_rng = Rng::new(self.seed.wrapping_add(0xC17E));
        let nc: usize = if self.n_capitals < 2 {
            2
        } else if self.n_capitals > 4 {
            4
        } else {
            self.n_capitals as usize
        };
        let capitals = choose_capitals(&self.grid, &mut net_rng, p, nc);
        proof {
            assert(p * p <= 8192 * 8192) by (nonlinear_arith)
                requires
                    p <= 8192,
            ;
        }
        let area_total = (p as usize * p as usize) / 3500;
        let total = if area_total > nc + 5 {
            area_total
        } else {
            nc + 5
        };
        let f0 = total - capitals.len();
        let mut n_field: usize = if f0 < 5 {
            5
        } else if f0 > MAX_FIELD {
            MAX_FIELD
        } else {
            f0
        };
        if nc == 2 {
            n_field = n_field + n_field % 2;
        }
        let mirrored = nc == 2;
        let field = place_field(&self.grid, &mut net_rng, p, &capitals, n_field, mirrored);
        let mut zone_centers: Vec<(u32, u32)> = Vec::new();
        let mut tiers: Vec<SettlementTier> = Vec::new();
        let mut k: usize = 0;
        while k < capitals.len()
            invariant
                k <= capitals@.len(),
                zone_centers@ == capitals@.take(k as int),
                tiers@.len() == k,
                forall|j: int| 0 <= j < k ==> #[trigger] tiers@[j] == SettlementTier::City,
            decreases capitals@.len() - k,
        {
            zone_centers.push(capitals[k]);
            tiers.push(SettlementTier::City);
            proof {
                assert(capitals@.take(k + 1) =~= capitals@.take(k as int).push(capitals@[k as int]));
            }
            k = k + 1;
        }
        let mut i: usize = 0;
        proof {
            assert(capitals@.take(capitals@.len() as int) =~= capitals@);
            assert(field@.take(0) =~= Seq::<(u32, u32)>::empty());
        }
        while i < field.len()
            invariant
                i <= field@.len(),
                field@.len() <= MAX_FIELD,
                zone_centers@ == capitals@ + field@.take(i as int),
                tiers@.len() == capitals@.len() + i,
                forall|j: int| 0 <= j < capitals@.len() ==> #[trigger] tiers@[j] == SettlementTier::City,
                forall|j: int|
                    0 <= j < i ==> #[trigger] tiers@[capitals@.len() + j] == field_tier(j, mirrored),
            decreases field@.len() - i,
        {
            zone_centers.push(field[i]);
            let group = if mirrored {
                i / 2
            } else {
                i
            };
            let tier = if group % 4 == 0 {
                SettlementTier::Town
            } else if group % 4 == 3 {
                SettlementTier::Hamlet
            } else {
                SettlementTier::Village
            };
            tiers.push(tier);
            proof {
                assert(field@.take(i + 1) =~= field@.take(i as int).push(field@[i as int]));
                assert(capitals@ + field@.take(i + 1) =~= (capitals@ + field@.take(i as int)).push(
                    field@[i as int],
                ));
            }
            i = i + 1;
        }
        proof {
            let ncaps = capitals@.len() as int;
            assert(field@.take(field@.len() as int) =~= field@);
            assert(zone_centers@.take(ncaps) =~= capitals@);
            assert(zone_centers@.skip(ncaps) =~= field@);
            assert forall|k2: int| 0 <= k2 < ncaps implies inside(
                #[trigger] zone_centers@[k2],
                p as int,
                CITY_MARGIN as int,
            ) by {
                assert(zone_centers@[k2] == capitals@[k2]);
            }
            assert(n_field == field_target(p as int, nc as int, ncaps));
            assert(nc == clamp_capitals(self.n_capitals));
        }
        self.zone_centers = zone_centers;
        self.tiers = tiers;
        self.capitals = capitals;
    }

    /// Unchanged configuration keeps its spec accessors.
    pub proof fn lemma_config_kept(&self, o: MapGen)
        requires
            self.same_config(o),
        ensures
            self.spec_seed() == o.spec_seed(),
            self.spec_playable() == o.spec_playable(),
            self.spec_n_capitals() == o.spec_n_capitals(),
    {
    }

    /// Everything of the invariant that the network stage leaves alone.
    closed spec fn inv_without_network(&self, o: MapGen) -> bool {
        &&& self.w == o.w
        &&& self.h == o.h
        &&& self.rows_per_step == o.rows_per_step
        &&& self.rng == o.rng
        &&& self.water_changes == o.water_changes
        &&& self.tree_cur == o.tree_cur
        &&& self.tree_next == o.tree_next
        &&& self.road_edges == o.road_edges
        &&& self.road_job == o.road_job
        &&& self.result == o.result
        &&& self.steps_done == o.steps_done
        &&& self.steps_total == o.steps_total
    }

    /// Every field but the grid is as in `o`.
    closed spec fn same_except_grid(&self, o: MapGen) -> bool {
        &&& self.seed == o.seed
        &&& self.playable == o.playable
        &&& self.n_capitals == o.n_capitals
        &&& self.w == o.w
        &&& self.h == o.h
        &&& self.rows_per_step == o.rows_per_step
        &&& self.rng == o.rng
        &&& self.stage == o.stage
        &&& self.water_changes == o.water_changes
        &&& self.tree_cur == o.tree_cur
        &&& self.tree_next == o.tree_next
        &&& self.zone_centers == o.zone_centers
        &&& self.tiers == o.tiers
        &&& self.capitals == o.capitals
        &&& self.road_edges == o.road_edges
        &&& self.road_job == o.road_job
        &&& self.result == o.result
        &&& self.steps_done == o.steps_done
        &&& self.steps_total == o.steps_total
    }

    fn step_network(&mut self)
        requires
            old(self).inv(),
            old(self).stage is Network,
        ensures
            final(self).grid == old(self).grid,
            network_planned(
                old(self).grid,
                old(self).playable as int,
                clamp_capitals(old(self).n_capitals),
                network_state(old(self).seed),
                final(self).capitals@,
                final(self).zone_centers@,
            ),
            final(self).inv(),
            final(self).same_config(*old(self)),
            final(self).steps_done == old(self).steps_done,
            final(self).stage == stage_after(
                old(self).stage,
                old(self).rows_per_step as int,
                old(self).h as int,
                old(self).road_edges@.len() as int,
            ),
            final(self).rows_per_step == old(self).rows_per_step,
            final(self).h == old(self).h,
            lex_lt(final(self).measure(), old(self).measure()),
            !final(self).spec_done(),
    {
        self.plan_network();
        self.stage = GenStage::Clearing;
    }

    /// Clear settlement ground: a wide disk for cities, the village
    /// clearing for the rest.
    fn step_clearing(&mut self)
        requires
            old(self).inv(),
            old(self).stage is Clearing,
        ensures
            clearings_cut(
                old(self).grid,
                final(self).grid,
                old(self).zone_centers@,
                old(self).tiers@,
                old(self).zone_centers@.len() as int,
            ),
            final(self).zone_centers == old(self).zone_centers,
            final(self).tiers == old(self).tiers,
            final(self).inv(),
            final(self).same_config(*old(self)),
            final(self).steps_done == old(self).steps_done,
            final(self).stage == stage_after(
                old(self).stage,
                old(self).rows_per_step as int,
                old(self).h as int,
                old(self).road_edges@.len() as int,
            ),
            final(self).rows_per_step == old(self).rows_per_step,
            final(self).h == old(self).h,
            lex_lt(final(self).measure(), old(self).measure()),
            !final(self).spec_done(),
    {
        let n = self.zone_centers.len();
        let ghost g0 = self.grid;
        proof {
            lemma_network_inside(
                self.zone_centers@,
                self.tiers@,
                self.capitals@.len() as int,
                self.playable as int,
                clamp_capitals(self.n_capitals),
            );
        }
        let mut i: usize = 0;
        while i < n
            invariant
                n == self.zone_centers@.len(),
                n == self.tiers@.len(),
                self.grid.wf(),
                self.grid.same_shape(&g0),
                self.same_except_grid(*old(self)),
                forall|k: int|
                    0 <= k < n ==> (#[trigger] self.zone_centers@[k]).0 < MAX_SIDE
                        && self.zone_centers@[k].1 < MAX_SIDE,
                no_buildings(self.grid),
                i <= n,
                forall|k: int, x: int, y: int|
                    #![trigger self.zone_centers@[k], self.grid.tile(x, y)]
                    0 <= k < i && self.grid.in_grid(x, y) && in_core(self.zone_centers@[k], x, y)
                        ==> self.grid.tile(x, y).spec_walkable(),
                decorations_placed(self.grid),
                clearings_bare(self.grid, self.zone_centers@.take(i as int), self.tiers@),
                clearings_cut(g0, self.grid, self.zone_centers@, self.tiers@, i as int),
            decreases n - i,
        {
            let (cx, cy) = self.zone_centers[i];
            let r: i32 = if self.tiers[i] == SettlementTier::City {
                crate::building::BASE_BAND_RADIUS + 4
            } else {
                VILLAGE_CLEAR_RADIUS as i32
            };
            let ghost before = self.grid;
            clear_circle(&mut self.grid, cx, cy, r);
            proof {
                let g = self.grid;
                assert(r == clear_radius(self.tiers@[i as int]));
                assert forall|x: int, y: int| #![trigger g.deco(x, y)] g.in_grid(x, y) implies g.deco(
                    x,
                    y,
                ) is None || (g.tile(x, y) == before.tile(x, y) && g.deco(x, y) == before.deco(x, y)
                    && g.elev(x, y) == before.elev(x, y)) by {
                    let _ = g.tile(x, y);
                }
                lemma_keep_or_clear(before, g, self.zone_centers@.take(i as int), self.tiers@);
                let zc = self.zone_centers@;
                let tz = self.tiers@;
                assert forall|x: int, y: int| #![trigger g.tile(x, y)] g.in_grid(x, y) implies if in_clearing(
                    zc,
                    tz,
                    i + 1,
                    x,
                    y,
                ) {
                    &&& g.tile(x, y) == TileKind::Grass
                    &&& g.elev(x, y) == 0
                    &&& g.deco(x, y) is None
                } else {
                    &&& g.tile(x, y) == g0.tile(x, y)
                    &&& g.elev(x, y) == g0.elev(x, y)
                    &&& g.deco(x, y) == g0.deco(x, y)
                } by {
                    let _ = before.tile(x, y);
                    if in_disk(cx as int, cy as int, r as int, x, y) {
                        assert(zc[i as int] == (cx, cy));
                        assert(in_disk(zc[i as int].0 as int, zc[i as int].1 as int, clear_radius(tz[i as int]), x, y));
                    } else if in_clearing(zc, tz, i as int, x, y) {
                        let k = choose|k: int| 0 <= k < i && #[trigger] in_disk(zc[k].0 as int, zc[k].1 as int, clear_radius(tz[k]), x, y);
                        assert(in_disk(zc[k].0 as int, zc[k].1 as int, clear_radius(tz[k]), x, y));
                    } else {
                        assert(zc[i as int] == (cx, cy));
                        assert(!in_disk(zc[i as int].0 as int, zc[i as int].1 as int, clear_radius(tz[i as int]), x, y));
                        assert forall|k: int| 0 <= k < i + 1 implies !#[trigger] in_disk(zc[k].0 as int, zc[k].1 as int, clear_radius(tz[k]), x, y) by {
                            if k < i {
                                if in_disk(zc[k].0 as int, zc[k].1 as int, clear_radius(tz[k]), x, y) {
                                    assert(in_clearing(zc, tz, i as int, x, y));
                                }
                            }
                        }
                    }
                }
                let zt = self.zone_centers@.take(i + 1);
                assert forall|k: int, x: int, y: int|
                    #![trigger zt[k], g.deco(x, y)]
                    0 <= k < zt.len() && k < self.tiers@.len() && g.in_grid(x, y) && in_disk(
                        zt[k].0 as int,
                        zt[k].1 as int,
                        clear_radius(self.tiers@[k]),
                        x,
                        y,
                    ) implies g.deco(x, y) is None by {
                    let _ = g.tile(x, y);
                    if k < i {
                        assert(zt[k] == self.zone_centers@.take(i as int)[k]);
                    } else {
                        assert(zt[k] == (cx, cy));
                    }
                }
            }
            proof {
                assert forall|k: int, x: int, y: int|
                    #![trigger self.zone_centers@[k], self.grid.tile(x, y)]
                    0 <= k < i + 1 && self.grid.in_grid(x, y) && in_core(
                        self.zone_centers@[k],
                        x,
                        y,
                    ) implies self.grid.tile(x, y).spec_walkable() by {
                    if k == i {
                        assert(self.zone_centers@[k] == (cx, cy));
                        assert(in_disk(cx as int, cy as int, r as int, x, y)) by (nonlinear_arith)
                            requires
                                cx - 3 <= x <= cx + 3,
                                cy - 3 <= y <= cy + 3,
                                r >= 13,
                        ;
                    } else {
                        assert(before.tile(x, y).spec_walkable());
                    }
                }
            }
            i = i + 1;
        }
        proof {
            assert(self.zone_centers@.take(n as int) =~= self.zone_centers@);
        }
        self.stage = GenStage::RoadsPlan;
    }

    fn step_roads_plan(&mut self)
        requires
            old(self).inv(),
            old(self).stage is RoadsPlan,
        ensures
            final(self).grid == old(self).grid,
            final(self).zone_centers == old(self).zone_centers,
            edges_ok(final(self).road_edges@, final(self).zone_centers@.len() as int),
            final(self).inv(),
            final(self).same_config(*old(self)),
            final(self).steps_done == old(self).steps_done,
            final(self).stage == stage_after(
                old(self).stage,
                old(self).rows_per_step as int,
                old(self).h as int,
                old(self).road_edges@.len() as int,
            ),
            final(self).rows_per_step == old(self).rows_per_step,
            final(self).h == old(self).h,
            lex_lt(final(self).measure(), old(self).measure()),
            !final(self).spec_done(),
    {
        proof {
            lemma_network_inside(
                self.zone_centers@,
                self.tiers@,
                self.capitals@.len() as int,
                self.playable as int,
                clamp_capitals(self.n_capitals),
            );
        }
        self.road_edges = plan_road_edges(self.zone_centers.as_slice());
        // The progress estimate now knows the real edge count.
        self.steps_total = self.steps_done.saturating_add(self.road_edges.len() as u32).saturating_add(2);
        self.stage = GenStage::RoadEdge { i: 0 };
    }

    /// Route road `i`: start its search if needed, expand it within the
    /// step budget, and paint the road once found.
    fn step_road_edge(&mut self, i: usize)
        requires
            old(self).inv(),
            old(self).stage == (GenStage::RoadEdge { i }),
        ensures
            final(self).inv(),
            final(self).same_config(*old(self)),
            final(self).steps_done == old(self).steps_done,
            final(self).stage == old(self).stage || final(self).stage == stage_after(
                old(self).stage,
                old(self).rows_per_step as int,
                old(self).h as int,
                old(self).road_edges@.len() as int,
            ),
            final(self).rows_per_step == old(self).rows_per_step,
            final(self).h == old(self).h,
            lex_lt(final(self).measure(), old(self).measure()),
            !final(self).spec_done(),
            final(self).stage == old(self).stage ==> final(self).grid == old(self).grid,
            final(self).stage != old(self).stage && i < old(self).road_edges@.len()
                ==> road_edge_painted(
                old(self).grid,
                final(self).grid,
                old(self).zone_centers@,
                old(self).road_edges@[i as int],
            ),
    {
        if i < self.road_edges.len() {
            let (a, b) = self.road_edges[i];
            proof {
                lemma_network_inside(
                    self.zone_centers@,
                    self.tiers@,
                    self.capitals@.len() as int,
                    self.playable as int,
                    clamp_capitals(self.n_capitals),
                );
                assert(inside(self.zone_centers@[a as int], self.playable as int, FIELD_MARGIN as int));
                assert(inside(self.zone_centers@[b as int], self.playable as int, FIELD_MARGIN as int));
            }
            let mut taken: Option<RoadAstarJob> = None;
            std::mem::swap(&mut taken, &mut self.road_job);
            let mut job = match taken {
                Some(j) => j,
                None => RoadAstarJob::new(&self.grid, self.zone_centers[a], self.zone_centers[b]),
            };
            let ghost m_before = job.measure();
            match job.run(&self.grid, ROAD_POPS_PER_STEP) {
                None => {
                    self.road_job = Some(job);
                    return;
                },
                Some(found) => {
                    if let Some(path) = found {
                        proof {
                            assert forall|t: int| 0 <= t < path@.len() implies path@[t].0 < MAX_SIDE
                                && path@[t].1 < MAX_SIDE by {
                                assert(self.grid.in_grid(path@[t].0 as int, path@[t].1 as int));
                            }
                        }
                        let ghost gp = self.grid;
                        paint_road_path(&mut self.grid, path.as_slice());
                        proof {
                            let g = self.grid;
                            assert forall|x: int, y: int| #![trigger g.deco(x, y)] g.in_grid(
                                x,
                                y,
                            ) implies g.deco(x, y) is None || (g.tile(x, y) == gp.tile(x, y)
                                && g.deco(x, y) == gp.deco(x, y) && g.elev(x, y) == gp.elev(x, y)) by {
                                let _ = g.tile(x, y);
                            }
                            lemma_keep_or_clear(gp, g, self.zone_centers@, self.tiers@);
                        }
                    }
                },
            }
        }
        self.stage = if i < self.road_edges.len() && i + 1 < self.road_edges.len() {
            GenStage::RoadEdge { i: i + 1 }
        } else {
            GenStage::RoadsBorder
        };
    }

    fn step_roads_border(&mut self)
        requires
            old(self).inv(),
            old(self).stage is RoadsBorder,
        ensures
            verges_cleared(old(self).grid, final(self).grid),
            final(self).inv(),
            final(self).same_config(*old(self)),
            final(self).steps_done == old(self).steps_done,
            final(self).stage == stage_after(
                old(self).stage,
                old(self).rows_per_step as int,
                old(self).h as int,
                old(self).road_edges@.len() as int,
            ),
            final(self).rows_per_step == old(self).rows_per_step,
            final(self).h == old(self).h,
            lex_lt(final(self).measure(), old(self).measure()),
            !final(self).spec_done(),
    {
        clear_road_borders(&mut self.grid);
        proof {
            let g0 = old(self).grid;
            let g = self.grid;
            assert forall|x: int, y: int| #![trigger g.deco(x, y)] g.in_grid(x, y) implies g.deco(x, y)
                is None || (g.tile(x, y) == g0.tile(x, y) && g.deco(x, y) == g0.deco(x, y) && g.elev(
                x,
                y,
            ) == g0.elev(x, y)) by {
                let _ = g.tile(x, y);
            }
            lemma_keep_or_clear(g0, g, self.zone_centers@, self.tiers@);
        }
        self.stage = GenStage::Settlements;
    }

    /// Assemble the layout: road adjacency per zone, the capitals, and a
    /// planned settlement per zone.
    fn step_settlements(&mut self)
        requires
            old(self).inv(),
            old(self).stage is Settlements,
        ensures
            final(self).result matches Some(l) && l.zone_centers@ == old(self).zone_centers@
                && settlements_planned(
                old(self).grid,
                final(self).grid,
                old(self).zone_centers@,
                old(self).seed,
                l.settlements@,
            ) && groves_planted(final(self).grid, l.settlements@),
            only_groves(old(self).grid, final(self).grid),
            forall|x: int, y: int|
                #![trigger final(self).grid.tile(x, y)]
                final(self).grid.in_grid(x, y) && final(self).grid.tile(x, y) != old(self).grid.tile(
                    x,
                    y,
                ) ==> in_clearing(
                    old(self).zone_centers@,
                    old(self).tiers@,
                    old(self).zone_centers@.len() as int,
                    x,
                    y,
                ),
            final(self).inv(),
            final(self).same_config(*old(self)),
            final(self).steps_done == old(self).steps_done,
            final(self).stage == stage_after(
                old(self).stage,
                old(self).rows_per_step as int,
                old(self).h as int,
                old(self).road_edges@.len() as int,
            ),
            final(self).rows_per_step == old(self).rows_per_step,
            final(self).h == old(self).h,
            final(self).spec_done(),
    {
        let n = self.zone_centers.len();
        let ghost edges = self.road_edges@;
        let mut connections: Vec<Vec<u8>> = Vec::new();
        let mut v: usize = 0;
        while v < n
            invariant
                v <= n,
                edges == self.road_edges@,
                n <= 4 + MAX_FIELD,
                forall|t: int| 0 <= t < edges.len() ==> #[trigger] edges[t].0 < edges[t].1 < n,
                connections@.len() == v,
                forall|v2: int| 0 <= v2 < v ==> (#[trigger] connections@[v2])@ == adjacency(edges, v2),
            decreases n - v,
        {
            let mut list: Vec<u8> = Vec::new();
            let mut t: usize = 0;
            proof {
                assert(edges.take(0) =~= Seq::<(usize, usize)>::empty());
            }
            while t < self.road_edges.len()
                invariant
                    v < n,
                    n <= 4 + MAX_FIELD,
                    edges == self.road_edges@,
                    forall|t2: int| 0 <= t2 < edges.len() ==> #[trigger] edges[t2].0 < edges[t2].1 < n,
                    t <= edges.len(),
                    list@ == adjacency(edges.take(t as int), v as int),
                decreases edges.len() - t,
            {
                let (a, b) = self.road_edges[t];
                proof {
                    assert(edges.take(t + 1).drop_last() =~= edges.take(t as int));
                    assert(edges.take(t + 1).last() == edges[t as int]);
                }
                if a == v {
                    list.push(b as u8);
                } else if b == v {
                    list.push(a as u8);
                }
                t = t + 1;
            }
            proof {
                assert(edges.take(edges.len() as int) =~= edges);
            }
            connections.push(list);
            v = v + 1;
        }
        let mut zone_centers: Vec<(u32, u32)> = Vec::new();
        std::mem::swap(&mut zone_centers, &mut self.zone_centers);
        let blue = self.capitals[0];
        let red = self.capitals[1];
        let mut extra_bases: Vec<(u32, u32)> = Vec::new();
        let mut k: usize = 2;
        while k < self.capitals.len()
            invariant
                2 <= k <= self.capitals@.len(),
                extra_bases@.len() == k - 2,
                forall|j: int| 0 <= j < k - 2 ==> #[trigger] extra_bases@[j] == self.capitals@[2 + j],
            decreases self.capitals@.len() - k,
        {
            extra_bases.push(self.capitals[k]);
            k = k + 1;
        }
        proof {
            lemma_network_inside(
                zone_centers@,
                self.tiers@,
                self.capitals@.len() as int,
                self.playable as int,
                clamp_capitals(self.n_capitals),
            );
            assert forall|i: int| 0 <= i < zone_centers@.len() implies (#[trigger] zone_centers@[i]).0
                < MAX_SIDE && zone_centers@[i].1 < MAX_SIDE by {
                assert(inside(zone_centers@[i], self.playable as int, FIELD_MARGIN as int));
            }
        }
        let ghost gs = self.grid;
        proof {
            assert(clearings_bare(gs, zone_centers@, self.tiers@));
        }
        let settlements = plan_settlements(
            &mut self.grid,
            zone_centers.as_slice(),
            self.tiers.as_slice(),
            self.seed,
        );
        proof {
            let g = self.grid;
            let zc = zone_centers@;
            assert forall|x: int, y: int| #![trigger g.deco(x, y)] g.in_grid(x, y) implies g.deco(x, y)
                is None || (g.tile(x, y) == gs.tile(x, y) && g.deco(x, y) == gs.deco(x, y) && g.elev(
                x,
                y,
            ) == gs.elev(x, y)) by {
                let _ = g.tile(x, y);
                if g.tile(x, y) != gs.tile(x, y) {
                    let i = choose|i: int|
                        0 <= i < settlements@.len() && #[trigger] in_disk(
                            zc[i].0 as int,
                            zc[i].1 as int,
                            clear_radius(settlements@[i].tier),
                            x,
                            y,
                        );
                    assert(settlements@[i].tier == self.tiers@[i]);
                    let _ = zc[i];
                    assert(gs.deco(x, y) is None);
                }
            }
            assert forall|x: int, y: int|
                #![trigger g.tile(x, y)]
                g.in_grid(x, y) && g.tile(x, y) != gs.tile(x, y) implies in_clearing(
                zc,
                self.tiers@,
                zc.len() as int,
                x,
                y,
            ) by {
                let i = choose|i: int|
                    0 <= i < settlements@.len() && #[trigger] in_disk(
                        zc[i].0 as int,
                        zc[i].1 as int,
                        clear_radius(settlements@[i].tier),
                        x,
                        y,
                    );
                assert(settlements@[i].tier == self.tiers@[i]);
                assert(in_disk(zc[i].0 as int, zc[i].1 as int, clear_radius(self.tiers@[i]), x, y));
            }
            lemma_keep_or_clear(gs, g, zc, self.tiers@);
        }
        let layout = MapLayout {
            blue_base: blue,
            red_base: red,
            zone_centers,
            blue_gather: blue,
            red_gather: red,
            blue_home_zones: Vec::new(),
            red_home_zones: Vec::new(),
            connections,
            settlements,
            extra_bases,
        };
        proof {
            let zc = layout.zone_centers@;
            let ncaps = self.capitals@.len() as int;
            assert(zc.take(ncaps) == self.capitals@);
            assert(zc[0] == zc.take(ncaps)[0]);
            assert(zc[1] == zc.take(ncaps)[1]);
            assert forall|j: int| 0 <= j < layout.extra_bases@.len() implies #[trigger] layout.extra_bases@[j]
                == zc[2 + j] by {
                assert(zc.take(ncaps)[2 + j] == zc[2 + j]);
            }
            assert(tiers_of(layout.settlements@) =~= self.tiers@);
            assert(resources_in_grid(self.grid, layout.settlements@));
            assert(edges_ok(edges, zc.len() as int));
            assert forall|v2: int| 0 <= v2 < zc.len() implies (#[trigger] layout.connections@[v2])@
                == adjacency(edges, v2) by {}
        }
        self.result = Some(layout);
        self.stage = GenStage::Done;
    }

    /// Advance one bounded chunk of work. Returns whether generation is
    /// complete, which the step that assembles the settlements is the first
    /// to report; once it is, further steps only count themselves.
    pub fn step(&mut self) -> (done: bool)
        requires
            old(self).inv(),
        ensures
            final(self).inv(),
            step_effect(*old(self), *final(self), done),
    {
        self.steps_done = self.steps_done.saturating_add(1);
        match self.stage {
            GenStage::Heightmap { row } => self.step_heightmap(row),
            GenStage::WaterScan { pass, row } => self.step_water_scan(pass, row),
            GenStage::WaterApply { pass } => self.step_water_apply(pass),
            GenStage::TreeSeed { row } => self.step_tree_seed(row),
            GenStage::TreeCa { iter, row } => self.step_tree_ca(iter, row),
            GenStage::TreePlace { row } => self.step_tree_place(row),
            GenStage::Rocks { row } => self.step_rocks(row),
            GenStage::Bushes { row } => self.step_bushes(row),
            GenStage::WaterRocks { row } => self.step_water_rocks(row),
            GenStage::Network => self.step_network(),
            GenStage::Clearing => self.step_clearing(),
            GenStage::RoadsPlan => self.step_roads_plan(),
            GenStage::RoadEdge { i } => self.step_road_edge(i),
            GenStage::RoadsBorder => self.step_roads_border(),
            GenStage::Settlements => self.step_settlements(),
            GenStage::Done => {},
        }
        self.is_done()
    }

    /// The grid and layout of a finished pipeline.
    pub fn take_result(self) -> (r: (Grid, MapLayout))
        requires
            self.inv(),
            self.spec_done(),
        ensures
            r.0.wf(),
            r.0.width == self.spec_playable() + 2 * BORDER_SIZE,
            r.0.height == self.spec_playable() + 2 * BORDER_SIZE,
            layout_ok(r.1, r.0, self.spec_playable() as int, clamp_capitals(self.spec_n_capitals())),
            r.0 == self.spec_grid(),
            self.spec_result() == Some(r.1),
    {
        match self.result {
            Some(layout) => (self.grid, layout),
            None => {
                proof {
                    assert(false);
                }
                (self.grid, MapLayout {
                    blue_base: (0, 0),
                    red_base: (0, 0),
                    zone_centers: Vec::new(),
                    blue_gather: (0, 0),
                    red_gather: (0, 0),
                    blue_home_zones: Vec::new(),
                    red_home_zones: Vec::new(),
                    connections: Vec::new(),
                    settlements: Vec::new(),
                    extra_bases: Vec::new(),
                })
            },
        }
    }
} // impl

impl MapGen {
    pub fn seed(&self) -> (s: u32)
        ensures
            s == self.spec_seed(),
    {
        self.seed
    }

    pub fn is_done(&self) -> (d: bool)
        ensures
            d == self.spec_done(),
    {
        matches!(self.stage, GenStage::Done)
    }

    /// Steps taken and the current estimate of steps in all, for a progress bar.
    pub fn step_counts(&self) -> (r: (u32, u32))
        ensures
            r.0 == self.spec_steps_done(),
            r.1 == self.spec_steps_total(),
    {
        (self.steps_done, self.steps_total)
    }
}


/// Generate a battlefield with `n_capitals` faction capitals (clamped to
/// 2..4) by draining the budgeted pipeline: the result is the grid and
/// layout of a run of `MapGen::new(seed, ..)` stepped until done, and its
/// settlements are the ones planned from `seed`, every wood grove among
/// them standing as forest.
pub fn generate_battlefield_n(seed: u32, playable_size: u32, n_capitals: u32) -> (r: (Grid, MapLayout))
    requires
        MIN_PLAYABLE <= playable_size <= MAX_PLAYABLE,
    ensures
        r.0.wf(),
        r.0.width == playable_size + 2 * BORDER_SIZE,
        r.0.height == playable_size + 2 * BORDER_SIZE,
        layout_ok(r.1, r.0, playable_size as int, clamp_capitals(n_capitals)),
        exists|run: Seq<MapGen>|
            drained_run(run, seed, playable_size, n_capitals) && r.0 == run.last().spec_grid()
                && run.last().spec_result() == Some(r.1),
        exists|g: Grid| settlements_planned(g, r.0, r.1.zone_centers@, seed, r.1.settlements@),
        groves_planted(r.0, r.1.settlements@),
{
    let mut job = MapGen::new(seed, playable_size, n_capitals);
    let mut done = false;
    let ghost mut run: Seq<MapGen> = seq![job];
    while !done
        invariant
            job.inv(),
            done == job.spec_done(),
            job.spec_playable() == playable_size,
            job.spec_n_capitals() == n_capitals,
            run.len() >= 1,
            fresh(run[0], seed, playable_size, n_capitals),
            forall|k: int|
                #![trigger run[k]]
                0 <= k < run.len() - 1 ==> step_effect(run[k], run[k + 1], run[k + 1].spec_done())
                    && !run[k].spec_done(),
            run.last() == job,
        decreases if done {
            0int
        } else {
            1int
        }, job.m1(), job.m2(), job.m3(), job.m4(),
    {
        let ghost before = job;
        done = job.step();
        proof {
            let run0 = run;
            run = run.push(job);
            assert forall|k: int|
                #![trigger run[k]]
                0 <= k < run.len() - 1 implies step_effect(run[k], run[k + 1], run[k + 1].spec_done())
                && !run[k].spec_done() by {
                if k < run0.len() - 1 {
                    assert(run[k] == run0[k] && run[k + 1] == run0[k + 1]);
                } else {
                    assert(run[k] == before);
                    assert(run[k + 1] == job);
                }
            }
            assert(run[0] == run0[0]);
            assert(job.spec_playable() == before.spec_playable()) by {
                job.lemma_config_kept(before);
            }
        }
    }
    let r = job.take_result();
    proof {
        assert(drained_run(run, seed, playable_size, n_capitals));
        assert(!run[0].spec_done());
        let k = run.len() - 2;
        assert(step_effect(run[k], run[k + 1], run[k + 1].spec_done()) && !run[k].spec_done());
        assert(run[k + 1] == run.last());
        assert(run[k].spec_stage() is Settlements);
        assert(run[k].spec_seed() == seed) by {
            assert forall|i: int| 0 <= i < run.len() implies #[trigger] run[i].spec_seed() == seed by {
                lemma_seed_kept(run, seed, playable_size, n_capitals, i);
            }
        }
        assert(settlements_planned(run[k].spec_grid(), r.0, r.1.zone_centers@, seed, r.1.settlements@));
        assert(groves_planted(r.0, r.1.settlements@));
    }
    r
}

/// Every state of a drained run keeps the seed it started with.
proof fn lemma_seed_kept(run: Seq<MapGen>, seed: u32, p: u32, n: u32, i: int)
    requires
        drained_run(run, seed, p, n),
        0 <= i < run.len(),
    ensures
        run[i].spec_seed() == seed,
    decreases i,
{
    if i > 0 {
        lemma_seed_kept(run, seed, p, n, i - 1);
        assert(step_effect(run[i - 1], run[i], run[i].spec_done()));
        run[i].lemma_config_kept(run[i - 1]);
    }
}

/// Generate a two-capital battlefield.
pub fn generate_battlefield(seed: u32, playable_size: u32) -> (r: (Grid, MapLayout))
    requires
        MIN_PLAYABLE <= playable_size <= MAX_PLAYABLE,
    ensures
        r.0.wf(),
        r.0.width == playable_size + 2 * BORDER_SIZE,
        r.0.height == playable_size + 2 * BORDER_SIZE,
        layout_ok(r.1, r.0, playable_size as int, 2),
        exists|run: Seq<MapGen>|
            drained_run(run, seed, playable_size, 2) && r.0 == run.last().spec_grid()
                && run.last().spec_result() == Some(r.1),
        exists|g: Grid| settlements_planned(g, r.0, r.1.zone_centers@, seed, r.1.settlements@),
        groves_planted(r.0, r.1.settlements@),
{
    generate_battlefield_n(seed, playable_size, 2)
}


// ---------------------------------------------------------------------------
// What every generated layout guarantees
// ---------------------------------------------------------------------------

/// Edge `e` joins zone `v` to the zone numbered `x`.
pub open spec fn links(e: (usize, usize), v: int, x: u8) -> bool {
    (e.0 == v && e.1 as u8 == x) || (e.1 == v && e.0 as u8 == x)
}

proof fn lemma_adjacency_contains(edges: Seq<(usize, usize)>, v: int, x: u8)
    ensures
        adjacency(edges, v).contains(x) <==> exists|t: int|
            0 <= t < edges.len() && #[trigger] links(edges[t], v, x),
    decreases edges.len(),
{
    if edges.len() > 0 {
        let rest = edges.drop_last();
        lemma_adjacency_contains(rest, v, x);
        let e = edges.last();
        let a = adjacency(rest, v);
        if adjacency(edges, v).contains(x) {
            let i = choose|i: int| 0 <= i < adjacency(edges, v).len() && adjacency(edges, v)[i] == x;
            if i < a.len() {
                assert(a[i] == x);
                assert(a.contains(x));
                let t = choose|t: int| 0 <= t < rest.len() && #[trigger] links(rest[t], v, x);
                assert(edges[t] == rest[t]);
                assert(links(edges[t], v, x));
            } else {
                assert(edges[edges.len() - 1] == e);
                assert(links(edges[edges.len() - 1], v, x));
            }
        }
        if exists|t: int| 0 <= t < edges.len() && #[trigger] links(edges[t], v, x) {
            let t = choose|t: int| 0 <= t < edges.len() && #[trigger] links(edges[t], v, x);
            if t < rest.len() {
                assert(rest[t] == edges[t]);
                assert(links(rest[t], v, x));
                assert(a.contains(x));
                let i = choose|i: int| 0 <= i < a.len() && a[i] == x;
                assert(adjacency(edges, v)[i] == x);
            } else {
                assert(adjacency(edges, v).last() == x);
            }
        }
    }
}

proof fn lemma_links_symmetric(e: (usize, usize), v: int, u: int, n: int)
    requires
        e.0 < e.1 < n,
        n <= 256,
        0 <= v < n,
        0 <= u < n,
    ensures
        links(e, v, u as u8) <==> links(e, u, v as u8),
{
    assert((e.0 as u8) as int == e.0);
    assert((e.1 as u8) as int == e.1);
    assert((u as u8) as int == u);
    assert((v as u8) as int == v);
}

proof fn lemma_adjacency_len(edges: Seq<(usize, usize)>, v: int)
    requires
        forall|t: int| 0 <= t < edges.len() ==> #[trigger] edges[t].0 < edges[t].1,
    ensures
        adjacency(edges, v).len() == degree(edges, v),
    decreases edges.len(),
{
    if edges.len() > 0 {
        lemma_adjacency_len(edges.drop_last(), v);
    }
}

/// Road adjacency is symmetric: zone `u` is listed as a road neighbour of
/// zone `v` exactly when `v` is listed for `u`.
pub proof fn law_connections_symmetric(l: MapLayout, g: Grid, p: int, nc: int, v: int, u: int)
    requires
        layout_ok(l, g, p, nc),
        0 <= v < l.zone_centers@.len(),
        0 <= u < l.zone_centers@.len(),
    ensures
        l.connections@[v]@.contains(u as u8) <==> l.connections@[u]@.contains(v as u8),
{
    let n = l.zone_centers@.len() as int;
    let edges = choose|edges: Seq<(usize, usize)>|
        edges_ok(edges, n) && forall|v2: int|
            0 <= v2 < n ==> (#[trigger] l.connections@[v2])@ == adjacency(edges, v2);
    assert(l.connections@[v]@ == adjacency(edges, v));
    assert(l.connections@[u]@ == adjacency(edges, u));
    lemma_adjacency_contains(edges, v, u as u8);
    lemma_adjacency_contains(edges, u, v as u8);
    if adjacency(edges, v).contains(u as u8) {
        let t = choose|t: int| 0 <= t < edges.len() && #[trigger] links(edges[t], v, u as u8);
        lemma_links_symmetric(edges[t], v, u, n);
        assert(links(edges[t], u, v as u8));
    }
    if adjacency(edges, u).contains(v as u8) {
        let t = choose|t: int| 0 <= t < edges.len() && #[trigger] links(edges[t], u, v as u8);
        lemma_links_symmetric(edges[t], v, u, n);
        assert(links(edges[t], v, u as u8));
    }
}

/// Every zone lies on the road network: with two zones each has a road
/// neighbour, with three or more at least two.
pub proof fn law_every_zone_on_a_road(l: MapLayout, g: Grid, p: int, nc: int, v: int)
    requires
        layout_ok(l, g, p, nc),
        0 <= v < l.zone_centers@.len(),
    ensures
        l.connections@[v]@.len() >= if l.zone_centers@.len() >= 3 {
            2int
        } else {
            1int
        },
{
    let n = l.zone_centers@.len() as int;
    let edges = choose|edges: Seq<(usize, usize)>|
        edges_ok(edges, n) && forall|v2: int|
            0 <= v2 < n ==> (#[trigger] l.connections@[v2])@ == adjacency(edges, v2);
    assert(l.connections@[v]@ == adjacency(edges, v));
    lemma_adjacency_len(edges, v);
    assert(degree(edges, v) >= if n >= 3 {
        2int
    } else {
        1int
    });
}

/// Every settlement stays at least `BORDER_SIZE + FIELD_MARGIN` tiles
/// inside the grid edge on both axes.
pub proof fn law_zones_inside_playable(l: MapLayout, g: Grid, p: int, nc: int, k: int)
    requires
        layout_ok(l, g, p, nc),
        0 <= k < l.zone_centers@.len(),
    ensures
        inside(l.zone_centers@[k], p, FIELD_MARGIN as int),
{
    lemma_network_inside(
        l.zone_centers@,
        tiers_of(l.settlements@),
        l.extra_bases@.len() + 2int,
        p,
        nc,
    );
}

/// The planned road network connects every pair of zones: from zone `a`
/// a chain of zones, each listed among the road neighbours of the one
/// before, leads to zone `b`.
pub proof fn law_roads_connect_all_zones(l: MapLayout, g: Grid, p: int, nc: int, a: int, b: int)
    requires
        layout_ok(l, g, p, nc),
        0 <= a < l.zone_centers@.len(),
        0 <= b < l.zone_centers@.len(),
    ensures
        exists|path: Seq<int>|
            path.len() >= 1 && path[0] == a && path.last() == b && forall|i: int|
                0 <= i < path.len() - 1 ==> 0 <= #[trigger] path[i] < l.connections@.len()
                    && l.connections@[path[i]]@.contains(path[i + 1] as u8),
{
    let n = l.zone_centers@.len() as int;
    let edges = choose|edges: Seq<(usize, usize)>|
        edges_ok(edges, n) && forall|v: int|
            0 <= v < n ==> (#[trigger] l.connections@[v])@ == adjacency(edges, v);
    assert(connected(edges, a, b));
    let path = choose|q: Seq<int>| #[trigger] graph_walk(edges, q) && q[0] == a && q.last() == b;
    assert forall|i: int| 0 <= i < path.len() - 1 implies 0 <= #[trigger] path[i] < l.connections@.len()
        && l.connections@[path[i]]@.contains(path[i + 1] as u8) by {
        assert(joined(edges, path[i], path[i + 1]));
        let t = choose|t: int| 0 <= t < edges.len() && #[trigger] joins(edges[t], path[i], path[i + 1]);
        assert(edges[t].0 < edges[t].1 < n);
        assert(links(edges[t], path[i], path[i + 1] as u8));
        lemma_adjacency_contains(edges, path[i], path[i + 1] as u8);
    }
}

/// Every zone center stands on open ground: each cell within three tiles of
/// it on both axes lies on the map and can be stood on.
pub proof fn law_zone_centers_clear(l: MapLayout, g: Grid, p: int, nc: int, k: int, x: int, y: int)
    requires
        layout_ok(l, g, p, nc),
        g.wf(),
        g.width == p + 2 * BORDER_SIZE,
        g.height == p + 2 * BORDER_SIZE,
        0 <= k < l.zone_centers@.len(),
        in_core(l.zone_centers@[k], x, y),
    ensures
        g.in_grid(x, y),
        g.passable(x, y),
{
    law_zones_inside_playable(l, g, p, nc, k);
    assert(g.tile(x, y).spec_walkable());
    crate::grid::lemma_cell_index(g.width as int, g.height as int, x, y);
    assert(!g.buildings@[g.index(x, y)]);
}

/// Two settlements of which at least one is in the countryside are at
/// least 26 tiles apart (32 when the other is a capital).
pub proof fn law_settlement_spacing(l: MapLayout, g: Grid, p: int, nc: int, i: int, j: int)
    requires
        layout_ok(l, g, p, nc),
        0 <= i < j < l.zone_centers@.len(),
        j >= l.extra_bases@.len() + 2,
    ensures
        super::network::spec_d2(l.zone_centers@[i], l.zone_centers@[j]) >= super::network::MIN_GAP,
        i < l.extra_bases@.len() + 2 ==> super::network::spec_d2(
            l.zone_centers@[i],
            l.zone_centers@[j],
        ) >= super::network::CAPITAL_GAP,
{
    let zc = l.zone_centers@;
    let ncaps = l.extra_bases@.len() + 2int;
    let caps = zc.take(ncaps);
    let field = zc.skip(ncaps);
    assert(field[j - ncaps] == zc[j]);
    if i < ncaps {
        assert(super::network::far_from(caps, field[j - ncaps], super::network::CAPITAL_GAP as int));
        assert(caps[i] == zc[i]);
        assert(super::network::spec_d2(caps[i], field[j - ncaps]) >= super::network::CAPITAL_GAP);
    } else {
        assert(field[i - ncaps] == zc[i]);
        assert(super::network::spec_d2(field[i - ncaps], field[j - ncaps]) >= super::network::MIN_GAP);
    }
}

/// On two-capital maps the countryside is mirror-fair: the point mirrored
/// through the midpoint of the two capitals of every countryside
/// settlement is a countryside settlement too.
pub proof fn law_mirror_fair(l: MapLayout, g: Grid, p: int, v: int)
    requires
        layout_ok(l, g, p, 2),
        2 <= v < l.zone_centers@.len(),
    ensures
        exists|u: int|
            2 <= u < l.zone_centers@.len() && #[trigger] super::network::mirrored_about(
                l.zone_centers@[0],
                l.zone_centers@[1],
                l.zone_centers@[v],
                l.zone_centers@[u],
            ),
{
    let zc = l.zone_centers@;
    let ncaps = l.extra_bases@.len() + 2int;
    assert(ncaps == 2);
    let caps = zc.take(2);
    let field = zc.skip(2);
    let f = v - 2;
    let k = f / 2;
    assert(0 <= k < field.len() / 2);
    assert(super::network::mirrored_about(caps[0], caps[1], field[2 * k], field[2 * k + 1]));
    assert(caps[0] == zc[0] && caps[1] == zc[1]);
    assert(field[2 * k] == zc[2 + 2 * k]);
    assert(field[2 * k + 1] == zc[3 + 2 * k]);
    if f == 2 * k {
        assert(super::network::mirrored_about(zc[0], zc[1], zc[v], zc[v + 1]));
    } else {
        assert(super::network::mirrored_about(zc[0], zc[1], zc[v], zc[v - 1]));
    }
}

} // verus!
