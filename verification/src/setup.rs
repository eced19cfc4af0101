//! Battle setup on a generated map: the buildings that the map plan puts on
//! the ground, their footprints, the dirt aprons painted around them, gold
//! stone variants and the shoreline cache used for foam.

use vstd::prelude::*;
use crate::building::{spec_building_for_unit, BuildingKind, BuildingSite};
use crate::unit::Faction;
use crate::grid::{Decoration, Grid, TileKind, BORDER_SIZE};
use crate::mapgen::{MapLayout, SettlementSpec, VillageTheme};
use crate::mapgen::gen::{law_zones_inside_playable, layout_ok};
use crate::mapgen::village::anchor_clear;
use crate::mapgen::village::{contains_tile, resources_in_grid};
use crate::unit::UnitKind;

verus! {

// ---------------------------------------------------------------------------
// Shoreline
// ---------------------------------------------------------------------------

/// Cell `(x, y)` lies in the grid and is open water.
pub open spec fn water_at(g: Grid, x: int, y: int) -> bool {
    g.in_grid(x, y) && g.tile(x, y) == TileKind::Water
}

/// A land cell with open water directly above, right of, below or left of it.
pub open spec fn shore(g: Grid, x: int, y: int) -> bool {
    &&& g.tile(x, y) != TileKind::Water
    &&& {
        ||| water_at(g, x, y - 1)
        ||| water_at(g, x + 1, y)
        ||| water_at(g, x, y + 1)
        ||| water_at(g, x - 1, y)
    }
}

/// Cells before `(gx, gy)` in row-major order have smaller indices.
proof fn lemma_row_major_before(w: int, x: int, y: int, gx: int, gy: int)
    requires
        0 <= x < w,
        0 <= gx < w,
        0 <= y,
        y < gy || (y == gy && x < gx),
    ensures
        y * w + x < gy * w + gx,
{
    if y < gy {
        assert(y * w + x < gy * w + gx) by (nonlinear_arith)
            requires
                0 <= x < w,
                0 <= gx,
                y < gy,
        ;
    }
}

/// Per cell, row-major: whether the cell is land touching water on a side
/// (the tiles that get a foam fringe).
pub fn water_adjacency(grid: &Grid) -> (r: Vec<bool>)
    requires
        grid.wf(),
    ensures
        r@.len() == grid.width * grid.height,
        forall|x: int, y: int|
            #![trigger grid.index(x, y)]
            grid.in_grid(x, y) ==> r@[grid.index(x, y)] == shore(*grid, x, y),
{
    let w = grid.width;
    let h = grid.height;
    let mut out: Vec<bool> = Vec::new();
    let mut gy: u32 = 0;
    while gy < h
        invariant
            grid.wf(),
            w == grid.width,
            h == grid.height,
            gy <= h,
            out@.len() == gy * w,
            forall|x: int, y: int|
                #![trigger grid.index(x, y)]
                grid.in_grid(x, y) && y < gy ==> out@[grid.index(x, y)] == shore(*grid, x, y),
        decreases h - gy,
    {
        let mut gx: u32 = 0;
        while gx < w
            invariant
                grid.wf(),
                w == grid.width,
                h == grid.height,
                gy < h,
                gx <= w,
                out@.len() == gy * w + gx,
                forall|x: int, y: int|
                    #![trigger grid.index(x, y)]
                    grid.in_grid(x, y) && (y < gy || (y == gy && x < gx)) ==> out@[grid.index(
                        x,
                        y,
                    )] == shore(*grid, x, y),
            decreases w - gx,
        {
            let land = grid.get(gx, gy).is_land();
            let has = land && ((gy > 0 && grid.get(gx, gy - 1) == TileKind::Water) || (gx + 1 < w
                && grid.get(gx + 1, gy) == TileKind::Water) || (gy + 1 < h && grid.get(gx, gy + 1)
                == TileKind::Water) || (gx > 0 && grid.get(gx - 1, gy) == TileKind::Water));
            proof {
                assert(has == shore(*grid, gx as int, gy as int));
                assert forall|x: int, y: int|
                    #![trigger grid.index(x, y)]
                    grid.in_grid(x, y) && (y < gy || (y == gy && x < gx)) implies grid.index(x, y)
                    < out@.len() by {
                    lemma_row_major_before(w as int, x, y, gx as int, gy as int);
                }
            }
            out.push(has);
            gx = gx + 1;
        }
        proof {
            assert(gy * w + w == (gy + 1) * w) by (nonlinear_arith);
        }
        gy = gy + 1;
    }
    proof {
        assert(h * w == w * h) by (nonlinear_arith);
    }
    out
}

// ---------------------------------------------------------------------------
// Nearest standable tile
// ---------------------------------------------------------------------------

/// Chebyshev distance of the offset `(dx, dy)`: the square ring it lies on.
pub open spec fn ring_of(dx: int, dy: int) -> int {
    let ax = if dx < 0 {
        -dx
    } else {
        dx
    };
    let ay = if dy < 0 {
        -dy
    } else {
        dy
    };
    if ax < ay {
        ay
    } else {
        ax
    }
}

/// Largest ring searched for a standable tile.
pub const MAX_SEARCH_RING: i32 = 15;

/// The offset `(dx, dy)` from `(cx, cy)` lies on one of the searched rings
/// and reaches a passable cell of the grid.
pub open spec fn ring_free(g: Grid, cx: int, cy: int, dx: int, dy: int) -> bool {
    &&& 1 <= ring_of(dx, dy) <= MAX_SEARCH_RING
    &&& g.in_grid(cx + dx, cy + dy)
    &&& g.passable(cx + dx, cy + dy)
}

/// Search order of the rings: inner rings first, then row by row, left to
/// right.
pub open spec fn ring_before(dx1: int, dy1: int, dx2: int, dy2: int) -> bool {
    ||| ring_of(dx1, dy1) < ring_of(dx2, dy2)
    ||| ring_of(dx1, dy1) == ring_of(dx2, dy2) && (dy1 < dy2 || (dy1 == dy2 && dx1 < dx2))
}

/// The first passable cell on the square rings of radius 1 to 15 around
/// `(cx, cy)`, inner rings first and each ring row by row; `None` when all
/// of them are blocked or off the grid.
pub fn find_nearest_passable(grid: &Grid, cx: u32, cy: u32) -> (r: Option<(u32, u32)>)
    requires
        grid.wf(),
        cx <= 0x4000_0000,
        cy <= 0x4000_0000,
    ensures
        r is None <==> forall|dx: int, dy: int| !#[trigger] ring_free(*grid, cx as int, cy as int, dx, dy),
        r matches Some(t) ==> {
            &&& ring_free(*grid, cx as int, cy as int, t.0 - cx, t.1 - cy)
            &&& forall|dx: int, dy: int|
                #![trigger ring_free(*grid, cx as int, cy as int, dx, dy)]
                ring_before(dx, dy, t.0 - cx, t.1 - cy) ==> !ring_free(
                    *grid,
                    cx as int,
                    cy as int,
                    dx,
                    dy,
                )
        },
{
    let mut radius: i32 = 1;
    while radius <= MAX_SEARCH_RING
        invariant
            grid.wf(),
            cx <= 0x4000_0000,
            cy <= 0x4000_0000,
            1 <= radius <= MAX_SEARCH_RING + 1,
            forall|dx: int, dy: int|
                #![trigger ring_free(*grid, cx as int, cy as int, dx, dy)]
                ring_of(dx, dy) < radius ==> !ring_free(*grid, cx as int, cy as int, dx, dy),
        decreases MAX_SEARCH_RING + 1 - radius,
    {
        let mut dy: i32 = -radius;
        while dy <= radius
            invariant
                grid.wf(),
                cx <= 0x4000_0000,
                cy <= 0x4000_0000,
                1 <= radius <= MAX_SEARCH_RING,
                -radius <= dy <= radius + 1,
                forall|ex: int, ey: int|
                    #![trigger ring_free(*grid, cx as int, cy as int, ex, ey)]
                    ring_of(ex, ey) < radius || (ring_of(ex, ey) == radius && ey < dy) ==> !ring_free(
                        *grid,
                        cx as int,
                        cy as int,
                        ex,
                        ey,
                    ),
            decreases radius + 1 - dy,
        {
            let mut dx: i32 = -radius;
            while dx <= radius
                invariant
                    grid.wf(),
                    cx <= 0x4000_0000,
                    cy <= 0x4000_0000,
                    1 <= radius <= MAX_SEARCH_RING,
                    -radius <= dy <= radius,
                    -radius <= dx <= radius + 1,
                    forall|ex: int, ey: int|
                        #![trigger ring_free(*grid, cx as int, cy as int, ex, ey)]
                        ring_of(ex, ey) < radius || (ring_of(ex, ey) == radius && (ey < dy || (ey
                            == dy && ex < dx))) ==> !ring_free(*grid, cx as int, cy as int, ex, ey),
                decreases radius + 1 - dx,
            {
                let ax = if dx < 0 {
                    -dx
                } else {
                    dx
                };
                let ay = if dy < 0 {
                    -dy
                } else {
                    dy
                };
                if ax != radius && ay != radius {
                    dx = dx + 1;
                    continue;
                }
                let nx = cx as i32 + dx;
                let ny = cy as i32 + dy;
                if grid.in_bounds(nx, ny) && grid.is_passable(nx as u32, ny as u32) {
                    proof {
                        assert(ring_of(dx as int, dy as int) == radius);
                        assert(ring_free(*grid, cx as int, cy as int, dx as int, dy as int));
                    }
                    return Some((nx as u32, ny as u32));
                }
                proof {
                    assert(!ring_free(*grid, cx as int, cy as int, dx as int, dy as int));
                }
                dx = dx + 1;
            }
            dy = dy + 1;
        }
        radius = radius + 1;
    }
    None
}

// ---------------------------------------------------------------------------
// Gold stones
// ---------------------------------------------------------------------------

/// Sprite variant of the gold stone on tile `(x, y)`: `31·x + 17·y` in
/// wrapping 32-bit arithmetic, modulo 6.
pub open spec fn spec_gold_stone_variant(x: u32, y: u32) -> u8 {
    (vstd::wrapping::u32_specs::wrapping_add(
        vstd::wrapping::u32_specs::wrapping_mul(x, 31u32),
        vstd::wrapping::u32_specs::wrapping_mul(y, 17u32),
    ) % 6) as u8
}

/// The sprite variant (0 to 5) of the gold stone placed on tile `(x, y)`.
pub fn gold_stone_variant(x: u32, y: u32) -> (r: u8)
    ensures
        r == spec_gold_stone_variant(x, y),
        r < 6,
{
    (x.wrapping_mul(31).wrapping_add(y.wrapping_mul(17)) % 6) as u8
}

/// Tile `(x, y)` is a resource tile of one of the first `n` gold settlements.
pub open spec fn gold_tile_before(vs: Seq<SettlementSpec>, n: int, x: int, y: int) -> bool {
    exists|k: int|
        0 <= k < n && (#[trigger] vs[k]).theme == VillageTheme::Gold && vs[k].resources@.contains(
            (x as u32, y as u32),
        )
}

/// Put a gold stone, with its tile's sprite variant, on every resource tile
/// of the gold-mining settlements; groves are terrain already and pens stay
/// open ground. Nothing else changes.
pub fn place_gold_stones(grid: &mut Grid, settlements: &[SettlementSpec])
    requires
        old(grid).wf(),
        resources_in_grid(*old(grid), settlements@),
    ensures
        final(grid).wf(),
        final(grid).same_shape(old(grid)),
        final(grid).tiles@ == old(grid).tiles@,
        final(grid).elevations@ == old(grid).elevations@,
        final(grid).buildings@ == old(grid).buildings@,
        forall|x: int, y: int|
            #![trigger final(grid).deco(x, y)]
            final(grid).in_grid(x, y) ==> final(grid).deco(x, y) == if gold_tile_before(
                settlements@,
                settlements@.len() as int,
                x,
                y,
            ) {
                Some(Decoration::GoldStone(spec_gold_stone_variant(x as u32, y as u32)))
            } else {
                old(grid).deco(x, y)
            },
{
    let ghost g0 = *grid;
    let mut k: usize = 0;
    while k < settlements.len()
        invariant
            g0.wf(),
            grid.wf(),
            grid.same_shape(&g0),
            grid.tiles@ == g0.tiles@,
            grid.elevations@ == g0.elevations@,
            grid.buildings@ == g0.buildings@,
            resources_in_grid(g0, settlements@),
            k <= settlements@.len(),
            forall|x: int, y: int|
                #![trigger grid.deco(x, y)]
                grid.in_grid(x, y) ==> grid.deco(x, y) == if gold_tile_before(
                    settlements@,
                    k as int,
                    x,
                    y,
                ) {
                    Some(Decoration::GoldStone(spec_gold_stone_variant(x as u32, y as u32)))
                } else {
                    g0.deco(x, y)
                },
        decreases settlements@.len() - k,
    {
        let v = &settlements[k];
        if v.theme == VillageTheme::Gold {
            let mut j: usize = 0;
            while j < v.resources.len()
                invariant
                    g0.wf(),
                    grid.wf(),
                    grid.same_shape(&g0),
                    grid.tiles@ == g0.tiles@,
                    grid.elevations@ == g0.elevations@,
                    grid.buildings@ == g0.buildings@,
                    resources_in_grid(g0, settlements@),
                    k < settlements@.len(),
                    *v == settlements@[k as int],
                    v.theme == VillageTheme::Gold,
                    j <= v.resources@.len(),
                    forall|x: int, y: int|
                        #![trigger grid.deco(x, y)]
                        grid.in_grid(x, y) ==> grid.deco(x, y) == if gold_tile_before(
                            settlements@,
                            k as int,
                            x,
                            y,
                        ) || v.resources@.take(j as int).contains((x as u32, y as u32)) {
                            Some(Decoration::GoldStone(spec_gold_stone_variant(x as u32, y as u32)))
                        } else {
                            g0.deco(x, y)
                        },
                decreases v.resources@.len() - j,
            {
                let (x0, y0) = v.resources[j];
                let ghost before = *grid;
                proof {
                    assert(g0.in_grid(v.resources@[j as int].0 as int, v.resources@[j as int].1 as int));
                }
                let variant = gold_stone_variant(x0, y0);
                grid.set_decoration(x0, y0, Some(Decoration::GoldStone(variant)));
                proof {
                    assert forall|x: int, y: int|
                        #![trigger grid.deco(x, y)]
                        grid.in_grid(x, y) implies grid.deco(x, y) == if gold_tile_before(
                            settlements@,
                            k as int,
                            x,
                            y,
                        ) || v.resources@.take(j + 1).contains((x as u32, y as u32)) {
                            Some(Decoration::GoldStone(spec_gold_stone_variant(x as u32, y as u32)))
                        } else {
                            g0.deco(x, y)
                        } by {
                        crate::grid::lemma_index_distinct(before, x, y, x0 as int, y0 as int);
                        let t1 = v.resources@.take(j + 1);
                        assert(t1 =~= v.resources@.take(j as int).push((x0, y0)));
                        if x == x0 && y == y0 {
                            assert(t1.contains((x as u32, y as u32))) by {
                                assert(t1[j as int] == (x0, y0));
                            }
                        } else {
                            assert(grid.deco(x, y) == before.deco(x, y));
                            assert((x as u32, y as u32) != (x0, y0));
                            if t1.contains((x as u32, y as u32)) {
                                let t = choose|t: int| 0 <= t < t1.len() && t1[t] == (x as u32, y as u32);
                                assert(t != j);
                                assert(v.resources@.take(j as int)[t] == (x as u32, y as u32));
                            }
                        }
                    }
                }
                j = j + 1;
            }
            proof {
                assert(v.resources@.take(j as int) =~= v.resources@);
                assert forall|x: int, y: int|
                    #![trigger grid.deco(x, y)]
                    grid.in_grid(x, y) implies grid.deco(x, y) == if gold_tile_before(
                        settlements@,
                        k + 1,
                        x,
                        y,
                    ) {
                        Some(Decoration::GoldStone(spec_gold_stone_variant(x as u32, y as u32)))
                    } else {
                        g0.deco(x, y)
                    } by {
                    if v.resources@.contains((x as u32, y as u32)) {
                        assert(settlements@[k as int].resources@.contains((x as u32, y as u32)));
                    }
                    if gold_tile_before(settlements@, k + 1, x, y) {
                        let t = choose|t: int|
                            0 <= t < k + 1 && (#[trigger] settlements@[t]).theme == VillageTheme::Gold
                                && settlements@[t].resources@.contains((x as u32, y as u32));
                        if t < k {
                            assert(gold_tile_before(settlements@, k as int, x, y));
                        }
                    }
                }
            }
        } else {
            proof {
                assert forall|x: int, y: int|
                    #![trigger grid.deco(x, y)]
                    grid.in_grid(x, y) implies grid.deco(x, y) == if gold_tile_before(
                        settlements@,
                        k + 1,
                        x,
                        y,
                    ) {
                        Some(Decoration::GoldStone(spec_gold_stone_variant(x as u32, y as u32)))
                    } else {
                        g0.deco(x, y)
                    } by {
                    if gold_tile_before(settlements@, k + 1, x, y) {
                        let t = choose|t: int|
                            0 <= t < k + 1 && (#[trigger] settlements@[t]).theme == VillageTheme::Gold
                                && settlements@[t].resources@.contains((x as u32, y as u32));
                        if t < k {
                            assert(gold_tile_before(settlements@, k as int, x, y));
                        }
                    }
                }
            }
        }
        k = k + 1;
    }
}

// ---------------------------------------------------------------------------
// Buildings from the map plan
// ---------------------------------------------------------------------------

/// The soldier a village production building trains; other kinds train none.
pub open spec fn spec_trained_unit(kind: BuildingKind) -> Option<UnitKind> {
    match kind {
        BuildingKind::Barracks => Some(UnitKind::Warrior),
        BuildingKind::Archery => Some(UnitKind::Archer),
        BuildingKind::Monastery => Some(UnitKind::Monk),
        _ => None,
    }
}

/// The soldier a village production building trains.
pub fn trained_unit(kind: BuildingKind) -> (r: Option<UnitKind>)
    ensures
        r == spec_trained_unit(kind),
{
    match kind {
        BuildingKind::Barracks => Some(UnitKind::Warrior),
        BuildingKind::Archery => Some(UnitKind::Archer),
        BuildingKind::Monastery => Some(UnitKind::Monk),
        _ => None,
    }
}

/// The defense tower standing at the center of zone `i`.
pub open spec fn tower_site(c: (u32, u32), i: int) -> BuildingSite {
    BuildingSite {
        kind: BuildingKind::DefenseTower,
        faction: Faction::Blue,
        grid_x: c.0,
        grid_y: c.1,
        zone_id: Some(i as u8),
        produces: None,
        house_variant: 0,
    }
}

/// One defense tower per zone center, in zone order.
pub open spec fn tower_sites(zc: Seq<(u32, u32)>) -> Seq<BuildingSite> {
    Seq::new(zc.len(), |i: int| tower_site(zc[i], i))
}

/// House `i` of a settlement; variants cycle through the three house sprites.
pub open spec fn house_site(v: SettlementSpec, i: int) -> BuildingSite {
    BuildingSite {
        kind: BuildingKind::House,
        faction: Faction::Blue,
        grid_x: v.houses@[i].0,
        grid_y: v.houses@[i].1,
        zone_id: Some(v.zone_idx),
        produces: None,
        house_variant: (i % 3) as u8,
    }
}

/// The houses of a settlement, in plan order.
pub open spec fn house_sites(v: SettlementSpec) -> Seq<BuildingSite> {
    Seq::new(v.houses@.len(), |i: int| house_site(v, i))
}

/// The production buildings of a settlement that train a soldier, in plan
/// order.
pub open spec fn production_sites(p: Seq<((u32, u32), BuildingKind)>, zone: u8) -> Seq<
    BuildingSite,
>
    decreases p.len(),
{
    if p.len() == 0 {
        Seq::empty()
    } else {
        let rest = production_sites(p.drop_last(), zone);
        let (pos, kind) = p.last();
        match spec_trained_unit(kind) {
            Some(u) => rest.push(
                BuildingSite {
                    kind,
                    faction: Faction::Blue,
                    grid_x: pos.0,
                    grid_y: pos.1,
                    zone_id: Some(zone),
                    produces: Some(u),
                    house_variant: 0,
                },
            ),
            None => rest,
        }
    }
}

/// A settlement's buildings: its houses, then its production buildings.
pub open spec fn village_sites(v: SettlementSpec) -> Seq<BuildingSite> {
    house_sites(v) + production_sites(v.production@, v.zone_idx)
}

/// The buildings of every settlement, in settlement order.
pub open spec fn all_village_sites(vs: Seq<SettlementSpec>) -> Seq<BuildingSite>
    decreases vs.len(),
{
    if vs.len() == 0 {
        Seq::empty()
    } else {
        all_village_sites(vs.drop_last()) + village_sites(vs.last())
    }
}

/// A site that trains a soldier stands on the kind of building that trains it.
pub open spec fn trains_own_kind(s: BuildingSite) -> bool {
    s.produces matches Some(u) ==> spec_building_for_unit(u) == s.kind
}

/// Every zone center and settlement anchor lies within the coordinate range
/// that setup handles.
pub open spec fn plan_in_range(zc: Seq<(u32, u32)>, vs: Seq<SettlementSpec>) -> bool {
    &&& forall|i: int|
        0 <= i < zc.len() ==> (#[trigger] zc[i]).0 <= MAX_SITE_COORD && zc[i].1 <= MAX_SITE_COORD
    &&& forall|k: int, j: int|
        0 <= k < vs.len() && 0 <= j < vs[k].houses@.len() ==> (
        #[trigger] vs[k].houses@[j]).0 <= MAX_SITE_COORD && vs[k].houses@[j].1 <= MAX_SITE_COORD
    &&& forall|k: int, j: int|
        0 <= k < vs.len() && 0 <= j < vs[k].production@.len() ==> (
        #[trigger] vs[k].production@[j]).0.0 <= MAX_SITE_COORD && vs[k].production@[j].0.1
            <= MAX_SITE_COORD
}

/// The buildings that the map plan puts on the ground: a defense tower at
/// every zone center, then each settlement's houses and the production
/// buildings that train a soldier. They follow their zone's owner, so their
/// recorded faction is only a placeholder (Blue).
pub fn zone_building_sites(zone_centers: &[(u32, u32)], settlements: &[SettlementSpec]) -> (r: Vec<
    BuildingSite,
>)
    requires
        zone_centers@.len() <= 256,
    ensures
        r@ == tower_sites(zone_centers@) + all_village_sites(settlements@),
        forall|i: int| 0 <= i < r@.len() ==> trains_own_kind(#[trigger] r@[i]),
        plan_in_range(zone_centers@, settlements@) ==> forall|i: int|
            0 <= i < r@.len() ==> site_in_range(#[trigger] r@[i]),
{
    let mut out: Vec<BuildingSite> = Vec::new();
    let mut i: usize = 0;
    while i < zone_centers.len()
        invariant
            zone_centers@.len() <= 256,
            i <= zone_centers@.len(),
            out@.len() == i,
            forall|j: int| 0 <= j < i ==> #[trigger] out@[j] == tower_site(zone_centers@[j], j),
            plan_in_range(zone_centers@, settlements@) ==> forall|j: int|
                0 <= j < out@.len() ==> site_in_range(#[trigger] out@[j]),
        decreases zone_centers@.len() - i,
    {
        let c = zone_centers[i];
        proof {
            if plan_in_range(zone_centers@, settlements@) {
                assert(zone_centers@[i as int] == c);
            }
        }
        out.push(
            BuildingSite {
                kind: BuildingKind::DefenseTower,
                faction: Faction::Blue,
                grid_x: c.0,
                grid_y: c.1,
                zone_id: Some(i as u8),
                produces: None,
                house_variant: 0,
            },
        );
        i = i + 1;
    }
    let ghost towers = out@;
    proof {
        assert(towers =~= tower_sites(zone_centers@));
        assert(settlements@.take(0) =~= Seq::<SettlementSpec>::empty());
        assert(out@ =~= towers + all_village_sites(settlements@.take(0)));
    }
    let mut k: usize = 0;
    while k < settlements.len()
        invariant
            k <= settlements@.len(),
            towers == tower_sites(zone_centers@),
            out@ == towers + all_village_sites(settlements@.take(k as int)),
            forall|j: int| 0 <= j < out@.len() ==> trains_own_kind(#[trigger] out@[j]),
            plan_in_range(zone_centers@, settlements@) ==> forall|j: int|
                0 <= j < out@.len() ==> site_in_range(#[trigger] out@[j]),
        decreases settlements@.len() - k,
    {
        let v = &settlements[k];
        let ghost base = out@;
        let mut j: usize = 0;
        while j < v.houses.len()
            invariant
                j <= v.houses@.len(),
                out@ == base + Seq::new(j as nat, |t: int| house_site(*v, t)),
                forall|t: int| 0 <= t < out@.len() ==> trains_own_kind(#[trigger] out@[t]),
                k < settlements@.len(),
                *v == settlements@[k as int],
                plan_in_range(zone_centers@, settlements@) ==> forall|t: int|
                    0 <= t < out@.len() ==> site_in_range(#[trigger] out@[t]),
            decreases v.houses@.len() - j,
        {
            let h = v.houses[j];
            proof {
                if plan_in_range(zone_centers@, settlements@) {
                    assert(settlements@[k as int].houses@[j as int] == h);
                }
            }
            out.push(
                BuildingSite {
                    kind: BuildingKind::House,
                    faction: Faction::Blue,
                    grid_x: h.0,
                    grid_y: h.1,
                    zone_id: Some(v.zone_idx),
                    produces: None,
                    house_variant: (j % 3) as u8,
                },
            );
            proof {
                assert(out@ =~= base + Seq::new((j + 1) as nat, |t: int| house_site(*v, t)));
            }
            j = j + 1;
        }
        let ghost mid = out@;
        proof {
            assert(Seq::new(j as nat, |t: int| house_site(*v, t)) =~= house_sites(*v));
            assert(v.production@.take(0) =~= Seq::<((u32, u32), BuildingKind)>::empty());
            assert(out@ =~= mid + production_sites(v.production@.take(0), v.zone_idx));
        }
        let mut m: usize = 0;
        while m < v.production.len()
            invariant
                m <= v.production@.len(),
                out@ == mid + production_sites(v.production@.take(m as int), v.zone_idx),
                forall|t: int| 0 <= t < out@.len() ==> trains_own_kind(#[trigger] out@[t]),
                k < settlements@.len(),
                *v == settlements@[k as int],
                plan_in_range(zone_centers@, settlements@) ==> forall|t: int|
                    0 <= t < out@.len() ==> site_in_range(#[trigger] out@[t]),
            decreases v.production@.len() - m,
        {
            let (pos, kind) = v.production[m];
            proof {
                if plan_in_range(zone_centers@, settlements@) {
                    assert(settlements@[k as int].production@[m as int] == (pos, kind));
                }
            }
            let ghost p1 = v.production@.take(m + 1);
            proof {
                assert(p1.drop_last() =~= v.production@.take(m as int));
                assert(p1.last() == v.production@[m as int]);
            }
            match trained_unit(kind) {
                Some(u) => {
                    out.push(
                        BuildingSite {
                            kind,
                            faction: Faction::Blue,
                            grid_x: pos.0,
                            grid_y: pos.1,
                            zone_id: Some(v.zone_idx),
                            produces: Some(u),
                            house_variant: 0,
                        },
                    );
                    proof {
                        assert(out@ =~= mid + production_sites(p1, v.zone_idx));
                    }
                },
                None => {
                    proof {
                        assert(out@ =~= mid + production_sites(p1, v.zone_idx));
                    }
                },
            }
            m = m + 1;
        }
        proof {
            let s1 = settlements@.take(k + 1);
            assert(s1.drop_last() =~= settlements@.take(k as int));
            assert(s1.last() == settlements@[k as int]);
            assert(v.production@.take(m as int) =~= v.production@);
            assert(out@ =~= towers + all_village_sites(s1));
        }
        k = k + 1;
    }
    proof {
        assert(settlements@.take(k as int) =~= settlements@);
    }
    out
}

// ---------------------------------------------------------------------------
// Footprints
// ---------------------------------------------------------------------------

/// Largest anchor coordinate a building site may have: footprints and their
/// aprons must stay within signed 32-bit tile coordinates.
pub const MAX_SITE_COORD: u32 = 0x7FFF_0000;

/// The site's anchor lies within the coordinate range that setup handles.
pub open spec fn site_in_range(s: BuildingSite) -> bool {
    s.grid_x <= MAX_SITE_COORD && s.grid_y <= MAX_SITE_COORD
}

/// Footprint cell `j` of a site, in absolute tile coordinates.
pub open spec fn footprint_cell(s: BuildingSite, j: int) -> (int, int) {
    let d = s.kind.spec_footprint()[j];
    (s.grid_x + d.0, s.grid_y + d.1)
}

/// Cell `(x, y)` is one of the first `n` footprint cells of the site.
pub open spec fn covers_upto(s: BuildingSite, n: int, x: int, y: int) -> bool {
    exists|j: int| 0 <= j < n && #[trigger] footprint_cell(s, j) == (x, y)
}

/// Cell `(x, y)` is a footprint cell of the site.
pub open spec fn covers(s: BuildingSite, x: int, y: int) -> bool {
    covers_upto(s, s.kind.spec_footprint().len() as int, x, y)
}

/// Cell `(x, y)` is a footprint cell of one of the first `n` sites.
pub open spec fn covered_before(sites: Seq<BuildingSite>, n: int, x: int, y: int) -> bool {
    exists|i: int| 0 <= i < n && #[trigger] covers(sites[i], x, y)
}

/// Every footprint offset is at most two tiles left or right of the anchor,
/// on the row above it.
proof fn lemma_footprint_offsets(k: BuildingKind)
    ensures
        k.spec_footprint().len() >= 1,
        forall|j: int|
            0 <= j < k.spec_footprint().len() ==> -2 <= (#[trigger] k.spec_footprint()[j]).0 <= 2
                && k.spec_footprint()[j].1 == -1,
{
}

/// Mark every footprint cell of the sites that lies in the grid as built on;
/// nothing else changes.
pub fn mark_footprints(grid: &mut Grid, sites: &[BuildingSite])
    requires
        old(grid).wf(),
        forall|i: int| 0 <= i < sites@.len() ==> site_in_range(#[trigger] sites@[i]),
    ensures
        final(grid).wf(),
        final(grid).same_shape(old(grid)),
        final(grid).tiles@ == old(grid).tiles@,
        final(grid).elevations@ == old(grid).elevations@,
        final(grid).decorations@ == old(grid).decorations@,
        forall|x: int, y: int|
            #![trigger final(grid).has_building(x, y)]
            final(grid).in_grid(x, y) ==> final(grid).has_building(x, y) == (old(grid).has_building(
                x,
                y,
            ) || covered_before(sites@, sites@.len() as int, x, y)),
{
    let ghost g0 = *grid;
    let mut i: usize = 0;
    while i < sites.len()
        invariant
            g0.wf(),
            grid.wf(),
            grid.same_shape(&g0),
            grid.tiles@ == g0.tiles@,
            grid.elevations@ == g0.elevations@,
            grid.decorations@ == g0.decorations@,
            i <= sites@.len(),
            forall|t: int| 0 <= t < sites@.len() ==> site_in_range(#[trigger] sites@[t]),
            forall|x: int, y: int|
                #![trigger grid.has_building(x, y)]
                grid.in_grid(x, y) ==> grid.has_building(x, y) == (g0.has_building(x, y)
                    || covered_before(sites@, i as int, x, y)),
        decreases sites@.len() - i,
    {
        let b = sites[i];
        let offs = b.kind.footprint_offsets();
        proof {
            lemma_footprint_offsets(b.kind);
        }
        let mut j: usize = 0;
        while j < offs.len()
            invariant
                g0.wf(),
                grid.wf(),
                grid.same_shape(&g0),
                grid.tiles@ == g0.tiles@,
                grid.elevations@ == g0.elevations@,
                grid.decorations@ == g0.decorations@,
                i < sites@.len(),
                b == sites@[i as int],
                site_in_range(b),
                offs@ == b.kind.spec_footprint(),
                j <= offs@.len(),
                forall|t: int|
                    0 <= t < b.kind.spec_footprint().len() ==> -2 <= (
                    #[trigger] b.kind.spec_footprint()[t]).0 <= 2 && b.kind.spec_footprint()[t].1
                        == -1,
                forall|x: int, y: int|
                    #![trigger grid.has_building(x, y)]
                    grid.in_grid(x, y) ==> grid.has_building(x, y) == (g0.has_building(x, y)
                        || covered_before(sites@, i as int, x, y) || covers_upto(
                        b,
                        j as int,
                        x,
                        y,
                    )),
            decreases offs@.len() - j,
        {
            let (dx, dy) = offs[j];
            let fx = b.grid_x as i32 + dx;
            let fy = b.grid_y as i32 + dy;
            let ghost before = *grid;
            proof {
                assert(footprint_cell(b, j as int) == (fx as int, fy as int));
            }
            if grid.in_bounds(fx, fy) {
                grid.mark_building(fx as u32, fy as u32);
                proof {
                    assert forall|x: int, y: int|
                        #![trigger grid.has_building(x, y)]
                        grid.in_grid(x, y) implies grid.has_building(x, y) == (g0.has_building(x, y)
                            || covered_before(sites@, i as int, x, y) || covers_upto(
                            b,
                            j + 1,
                            x,
                            y,
                        )) by {
                        crate::grid::lemma_index_distinct(before, x, y, fx as int, fy as int);
                        if x == fx && y == fy {
                            assert(footprint_cell(b, j as int) == (x, y));
                        } else {
                            assert(before.has_building(x, y) == grid.has_building(x, y));
                            if covers_upto(b, j + 1, x, y) {
                                let t = choose|t: int| 0 <= t < j + 1 && #[trigger] footprint_cell(b, t) == (x, y);
                                assert(t != j);
                                assert(covers_upto(b, j as int, x, y));
                            }
                        }
                    }
                }
            } else {
                proof {
                    assert forall|x: int, y: int|
                        #![trigger grid.has_building(x, y)]
                        grid.in_grid(x, y) implies grid.has_building(x, y) == (g0.has_building(x, y)
                            || covered_before(sites@, i as int, x, y) || covers_upto(
                            b,
                            j + 1,
                            x,
                            y,
                        )) by {
                        if covers_upto(b, j + 1, x, y) {
                            let t = choose|t: int| 0 <= t < j + 1 && #[trigger] footprint_cell(b, t) == (x, y);
                            if t == j {
                                assert(false);
                            }
                            assert(covers_upto(b, j as int, x, y));
                        }
                    }
                }
            }
            j = j + 1;
        }
        proof {
            assert forall|x: int, y: int|
                #![trigger grid.has_building(x, y)]
                grid.in_grid(x, y) implies grid.has_building(x, y) == (g0.has_building(x, y)
                    || covered_before(sites@, i + 1, x, y)) by {
                if covers(b, x, y) {
                    assert(covers(sites@[i as int], x, y));
                }
                if covered_before(sites@, i + 1, x, y) {
                    let t = choose|t: int| 0 <= t < i + 1 && #[trigger] covers(sites@[t], x, y);
                    if t < i {
                        assert(covered_before(sites@, i as int, x, y));
                    }
                }
            }
        }
        i = i + 1;
    }
}

// ---------------------------------------------------------------------------
// Dirt aprons
// ---------------------------------------------------------------------------

/// Bounding box `(min dx, max dx, min dy, max dy)` of the kind's footprint
/// offsets.
pub open spec fn footprint_box(k: BuildingKind) -> (int, int, int, int) {
    match k {
        BuildingKind::Castle => (-2, 2, -1, -1),
        BuildingKind::DefenseTower => (0, 0, -1, -1),
        BuildingKind::House => (0, 0, -1, -1),
        _ => (-1, 1, -1, -1),
    }
}

/// `footprint_box` is the bounding box of the footprint: it holds every
/// offset and each of its sides is reached.
proof fn lemma_footprint_box(k: BuildingKind)
    ensures
        k.spec_footprint().len() >= 1,
        forall|j: int|
            0 <= j < k.spec_footprint().len() ==> footprint_box(k).0 <= (
            #[trigger] k.spec_footprint()[j]).0 <= footprint_box(k).1 && footprint_box(k).2
                <= k.spec_footprint()[j].1 <= footprint_box(k).3,
        k.spec_footprint()[0].0 == footprint_box(k).0,
        k.spec_footprint()[k.spec_footprint().len() - 1].0 == footprint_box(k).1,
        k.spec_footprint()[0].1 == footprint_box(k).2,
        k.spec_footprint()[0].1 == footprint_box(k).3,
{
}

/// The bounding box of the kind's footprint offsets.
fn footprint_bounds(kind: BuildingKind) -> (r: (i32, i32, i32, i32))
    ensures
        r.0 == footprint_box(kind).0,
        r.1 == footprint_box(kind).1,
        r.2 == footprint_box(kind).2,
        r.3 == footprint_box(kind).3,
{
    let offs = kind.footprint_offsets();
    proof {
        lemma_footprint_box(kind);
    }
    let mut min_x = i32::MAX;
    let mut max_x = i32::MIN;
    let mut min_y = i32::MAX;
    let mut max_y = i32::MIN;
    let mut j: usize = 0;
    while j < offs.len()
        invariant
            offs@ == kind.spec_footprint(),
            j <= offs@.len(),
            forall|t: int|
                0 <= t < kind.spec_footprint().len() ==> footprint_box(kind).0 <= (
                #[trigger] kind.spec_footprint()[t]).0 <= footprint_box(kind).1 && footprint_box(
                    kind,
                ).2 <= kind.spec_footprint()[t].1 <= footprint_box(kind).3,
            kind.spec_footprint()[0].0 == footprint_box(kind).0,
            kind.spec_footprint()[kind.spec_footprint().len() - 1].0 == footprint_box(kind).1,
            kind.spec_footprint()[0].1 == footprint_box(kind).2,
            kind.spec_footprint()[0].1 == footprint_box(kind).3,
            j == 0 ==> min_x == i32::MAX && max_x == i32::MIN && min_y == i32::MAX && max_y
                == i32::MIN,
            j > 0 ==> footprint_box(kind).0 <= min_x <= offs@[0].0 && offs@[j - 1].0 <= max_x
                <= footprint_box(kind).1 && min_y == footprint_box(kind).2 && max_y
                == footprint_box(kind).3,
        decreases offs@.len() - j,
    {
        let (dx, dy) = offs[j];
        if dx < min_x {
            min_x = dx;
        }
        if dx > max_x {
            max_x = dx;
        }
        if dy < min_y {
            min_y = dy;
        }
        if dy > max_y {
            max_y = dy;
        }
        j = j + 1;
    }
    (min_x, max_x, min_y, max_y)
}

/// Cell `(x, y)` lies within two tiles of the site's footprint box.
pub open spec fn in_apron(s: BuildingSite, x: int, y: int) -> bool {
    let b = footprint_box(s.kind);
    &&& s.grid_x + b.0 - 2 <= x <= s.grid_x + b.1 + 2
    &&& s.grid_y + b.2 - 2 <= y <= s.grid_y + b.3 + 2
}

/// Cell `(x, y)` lies in the apron of one of the first `n` sites.
pub open spec fn apron_before(sites: Seq<BuildingSite>, n: int, x: int, y: int) -> bool {
    exists|i: int| 0 <= i < n && #[trigger] in_apron(sites[i], x, y)
}

/// Cell `(x, y)` of `g` may become road: not protected, flat grass or forest.
pub open spec fn paintable(g: Grid, protected: Seq<(u32, u32)>, x: int, y: int) -> bool {
    &&& !protected.contains((x as u32, y as u32))
    &&& g.tile(x, y) == TileKind::Grass || g.tile(x, y) == TileKind::Forest
    &&& g.elev(x, y) == 0
}

/// Cell `(x, y)` of `g1` is painted exactly when `done` and the cell of `g0`
/// was paintable; painted cells are road without decoration, the others as in
/// `g0`.
pub open spec fn painted_as(g0: Grid, g1: Grid, protected: Seq<(u32, u32)>, x: int, y: int, done: bool) -> bool {
    if done && paintable(g0, protected, x, y) {
        g1.tile(x, y) == TileKind::Road && g1.deco(x, y) is None
    } else {
        g1.tile(x, y) == g0.tile(x, y) && g1.deco(x, y) == g0.deco(x, y)
    }
}

/// Paint road on the flat grass and forest within two tiles of every
/// building's footprint box, clearing decorations there; tiles listed in
/// `protected` (village resources) are spared, and elevations and building
/// occupancy are untouched.
pub fn paint_road_around_buildings(
    grid: &mut Grid,
    sites: &[BuildingSite],
    protected: &Vec<(u32, u32)>,
)
    requires
        old(grid).wf(),
        forall|i: int| 0 <= i < sites@.len() ==> site_in_range(#[trigger] sites@[i]),
    ensures
        final(grid).wf(),
        final(grid).same_shape(old(grid)),
        final(grid).elevations@ == old(grid).elevations@,
        final(grid).buildings@ == old(grid).buildings@,
        forall|x: int, y: int|
            #![trigger final(grid).tile(x, y)]
            #![trigger final(grid).deco(x, y)]
            final(grid).in_grid(x, y) ==> painted_as(
                *old(grid),
                *final(grid),
                protected@,
                x,
                y,
                apron_before(sites@, sites@.len() as int, x, y),
            ),
{
    let ghost g0 = *grid;
    let mut i: usize = 0;
    while i < sites.len()
        invariant
            g0.wf(),
            grid.wf(),
            grid.same_shape(&g0),
            grid.elevations@ == g0.elevations@,
            grid.buildings@ == g0.buildings@,
            i <= sites@.len(),
            forall|t: int| 0 <= t < sites@.len() ==> site_in_range(#[trigger] sites@[t]),
            forall|x: int, y: int|
                #![trigger grid.tile(x, y)]
                #![trigger grid.deco(x, y)]
                grid.in_grid(x, y) ==> painted_as(
                    g0,
                    *grid,
                    protected@,
                    x,
                    y,
                    apron_before(sites@, i as int, x, y),
                ),
        decreases sites@.len() - i,
    {
        let b = sites[i];
        let (lo_x, hi_x, lo_y, hi_y) = footprint_bounds(b.kind);
        let min_x = b.grid_x as i32 + lo_x;
        let max_x = b.grid_x as i32 + hi_x;
        let min_y = b.grid_y as i32 + lo_y;
        let max_y = b.grid_y as i32 + hi_y;
        let border: i32 = 2;
        let mut ry = min_y - border;
        while ry <= max_y + border
            invariant
                g0.wf(),
                grid.wf(),
                grid.same_shape(&g0),
                grid.elevations@ == g0.elevations@,
                grid.buildings@ == g0.buildings@,
                i < sites@.len(),
                b == sites@[i as int],
                site_in_range(b),
                min_x == b.grid_x + footprint_box(b.kind).0,
                max_x == b.grid_x + footprint_box(b.kind).1,
                min_y == b.grid_y + footprint_box(b.kind).2,
                max_y == b.grid_y + footprint_box(b.kind).3,
                border == 2,
                min_y - border <= ry <= max_y + border + 1,
                forall|x: int, y: int|
                    #![trigger grid.tile(x, y)]
                    #![trigger grid.deco(x, y)]
                    grid.in_grid(x, y) ==> painted_as(
                        g0,
                        *grid,
                        protected@,
                        x,
                        y,
                        apron_before(sites@, i as int, x, y) || (in_apron(b, x, y) && y < ry),
                    ),
            decreases max_y + border + 1 - ry,
        {
            let mut rx = min_x - border;
            while rx <= max_x + border
                invariant
                    g0.wf(),
                    grid.wf(),
                    grid.same_shape(&g0),
                    grid.elevations@ == g0.elevations@,
                    grid.buildings@ == g0.buildings@,
                    i < sites@.len(),
                    b == sites@[i as int],
                    site_in_range(b),
                    min_x == b.grid_x + footprint_box(b.kind).0,
                    max_x == b.grid_x + footprint_box(b.kind).1,
                    min_y == b.grid_y + footprint_box(b.kind).2,
                    max_y == b.grid_y + footprint_box(b.kind).3,
                    border == 2,
                    min_y - border <= ry <= max_y + border,
                    min_x - border <= rx <= max_x + border + 1,
                    forall|x: int, y: int|
                        #![trigger grid.tile(x, y)]
                        #![trigger grid.deco(x, y)]
                        grid.in_grid(x, y) ==> painted_as(
                            g0,
                            *grid,
                            protected@,
                            x,
                            y,
                            apron_before(sites@, i as int, x, y) || (in_apron(b, x, y) && (y < ry
                                || (y == ry && x < rx))),
                        ),
                decreases max_x + border + 1 - rx,
            {
                let ghost before = *grid;
                let ghost done_before = |x: int, y: int|
                    apron_before(sites@, i as int, x, y) || (in_apron(b, x, y) && (y < ry || (y
                        == ry && x < rx)));
                proof {
                    assert(in_apron(b, rx as int, ry as int));
                }
                if grid.in_bounds(rx, ry) {
                    let ux = rx as u32;
                    let uy = ry as u32;
                    if !contains_tile(protected, (ux, uy)) {
                        let tile = grid.get(ux, uy);
                        if (tile == TileKind::Grass || tile == TileKind::Forest) && grid.elevation(
                            ux,
                            uy,
                        ) == 0 {
                            grid.set(ux, uy, TileKind::Road);
                            grid.set_decoration(ux, uy, None);
                            proof {
                                assert forall|x: int, y: int|
                                    #![trigger grid.tile(x, y)]
                                    #![trigger grid.deco(x, y)]
                                    grid.in_grid(x, y) implies painted_as(
                                        g0,
                                        *grid,
                                        protected@,
                                        x,
                                        y,
                                        apron_before(sites@, i as int, x, y) || (in_apron(b, x, y)
                                            && (y < ry || (y == ry && x < rx + 1))),
                                    ) by {
                                    crate::grid::lemma_index_distinct(
                                        before,
                                        x,
                                        y,
                                        rx as int,
                                        ry as int,
                                    );
                                    assert(painted_as(g0, before, protected@, x, y, done_before(x, y)));
                                    if x == rx && y == ry {
                                        if done_before(x, y) && paintable(g0, protected@, x, y) {
                                            assert(before.tile(x, y) == TileKind::Road);
                                        }
                                    } else {
                                        assert(grid.tile(x, y) == before.tile(x, y));
                                        assert(grid.deco(x, y) == before.deco(x, y));
                                    }
                                }
                            }
                        } else {
                            proof {
                                assert forall|x: int, y: int|
                                    #![trigger grid.tile(x, y)]
                                    #![trigger grid.deco(x, y)]
                                    grid.in_grid(x, y) implies painted_as(
                                        g0,
                                        *grid,
                                        protected@,
                                        x,
                                        y,
                                        apron_before(sites@, i as int, x, y) || (in_apron(b, x, y)
                                            && (y < ry || (y == ry && x < rx + 1))),
                                    ) by {
                                    assert(painted_as(g0, before, protected@, x, y, done_before(x, y)));
                                }
                            }
                        }
                    } else {
                        proof {
                            assert forall|x: int, y: int|
                                #![trigger grid.tile(x, y)]
                                #![trigger grid.deco(x, y)]
                                grid.in_grid(x, y) implies painted_as(
                                    g0,
                                    *grid,
                                    protected@,
                                    x,
                                    y,
                                    apron_before(sites@, i as int, x, y) || (in_apron(b, x, y) && (y
                                        < ry || (y == ry && x < rx + 1))),
                                ) by {
                                assert(painted_as(g0, before, protected@, x, y, done_before(x, y)));
                            }
                        }
                    }
                } else {
                    proof {
                        assert forall|x: int, y: int|
                            #![trigger grid.tile(x, y)]
                            #![trigger grid.deco(x, y)]
                            grid.in_grid(x, y) implies painted_as(
                                g0,
                                *grid,
                                protected@,
                                x,
                                y,
                                apron_before(sites@, i as int, x, y) || (in_apron(b, x, y) && (y
                                    < ry || (y == ry && x < rx + 1))),
                            ) by {
                            assert(painted_as(g0, before, protected@, x, y, done_before(x, y)));
                        }
                    }
                }
                rx = rx + 1;
            }
            ry = ry + 1;
        }
        proof {
            assert forall|x: int, y: int|
                #![trigger grid.tile(x, y)]
                #![trigger grid.deco(x, y)]
                grid.in_grid(x, y) implies painted_as(
                    g0,
                    *grid,
                    protected@,
                    x,
                    y,
                    apron_before(sites@, i + 1, x, y),
                ) by {
                let d = apron_before(sites@, i as int, x, y) || (in_apron(b, x, y) && y < ry);
                assert(painted_as(g0, *grid, protected@, x, y, d));
                if in_apron(b, x, y) {
                    assert(in_apron(sites@[i as int], x, y));
                }
                if apron_before(sites@, i + 1, x, y) {
                    let t = choose|t: int| 0 <= t < i + 1 && #[trigger] in_apron(sites@[t], x, y);
                    if t < i {
                        assert(apron_before(sites@, i as int, x, y));
                    }
                }
                assert(d == apron_before(sites@, i + 1, x, y));
            }
        }
        i = i + 1;
    }
}

// ---------------------------------------------------------------------------
// Ground preparation
// ---------------------------------------------------------------------------

/// The resource tiles of every settlement, in settlement order.
pub open spec fn all_resources(vs: Seq<SettlementSpec>) -> Seq<(u32, u32)>
    decreases vs.len(),
{
    if vs.len() == 0 {
        Seq::empty()
    } else {
        all_resources(vs.drop_last()) + vs.last().resources@
    }
}

/// A resource tile of any settlement is among `all_resources`.
proof fn lemma_all_resources_contains(vs: Seq<SettlementSpec>, k: int, j: int)
    requires
        0 <= k < vs.len(),
        0 <= j < vs[k].resources@.len(),
    ensures
        all_resources(vs).contains(vs[k].resources@[j]),
    decreases vs.len(),
{
    let rest = all_resources(vs.drop_last());
    let whole = all_resources(vs);
    if k == vs.len() - 1 {
        assert(whole[rest.len() + j] == vs[k].resources@[j]);
    } else {
        lemma_all_resources_contains(vs.drop_last(), k, j);
        let t = choose|t: int| 0 <= t < rest.len() && rest[t] == vs[k].resources@[j];
        assert(whole[t] == rest[t]);
    }
}

/// The resource tiles of every settlement, which road painting spares.
fn collect_resources(settlements: &[SettlementSpec]) -> (r: Vec<(u32, u32)>)
    ensures
        r@ == all_resources(settlements@),
{
    let mut out: Vec<(u32, u32)> = Vec::new();
    let mut k: usize = 0;
    proof {
        assert(settlements@.take(0) =~= Seq::<SettlementSpec>::empty());
    }
    while k < settlements.len()
        invariant
            k <= settlements@.len(),
            out@ == all_resources(settlements@.take(k as int)),
        decreases settlements@.len() - k,
    {
        let v = &settlements[k];
        let ghost base = out@;
        let mut j: usize = 0;
        while j < v.resources.len()
            invariant
                j <= v.resources@.len(),
                out@ == base + v.resources@.take(j as int),
            decreases v.resources@.len() - j,
        {
            out.push(v.resources[j]);
            proof {
                assert(out@ =~= base + v.resources@.take(j + 1));
            }
            j = j + 1;
        }
        proof {
            let s1 = settlements@.take(k + 1);
            assert(s1.drop_last() =~= settlements@.take(k as int));
            assert(s1.last() == settlements@[k as int]);
            assert(v.resources@.take(j as int) =~= v.resources@);
        }
        k = k + 1;
    }
    proof {
        assert(settlements@.take(k as int) =~= settlements@);
    }
    out
}

/// What setup does to the ground of grid `g0`, giving `g1`, for the
/// settlements `vs` and the buildings `sites`: footprints become built on,
/// flat grass and forest near a building becomes road unless it is a
/// resource tile, and gold settlements get their gold stones. Elevations never
/// change.
pub open spec fn ground_prepared(
    g0: Grid,
    g1: Grid,
    vs: Seq<SettlementSpec>,
    sites: Seq<BuildingSite>,
) -> bool {
    &&& g1.wf()
    &&& g1.same_shape(&g0)
    &&& g1.elevations@ == g0.elevations@
    &&& forall|x: int, y: int|
        #![trigger g1.has_building(x, y)]
        g1.in_grid(x, y) ==> g1.has_building(x, y) == (g0.has_building(x, y) || covered_before(
            sites,
            sites.len() as int,
            x,
            y,
        ))
    &&& forall|x: int, y: int|
        #![trigger g1.tile(x, y)]
        g1.in_grid(x, y) ==> g1.tile(x, y) == if apron_before(sites, sites.len() as int, x, y)
            && paintable(g0, all_resources(vs), x, y) {
            TileKind::Road
        } else {
            g0.tile(x, y)
        }
    &&& forall|x: int, y: int|
        #![trigger g1.deco(x, y)]
        g1.in_grid(x, y) ==> g1.deco(x, y) == if gold_tile_before(vs, vs.len() as int, x, y) {
            Some(Decoration::GoldStone(spec_gold_stone_variant(x as u32, y as u32)))
        } else if apron_before(sites, sites.len() as int, x, y) && paintable(
            g0,
            all_resources(vs),
            x,
            y,
        ) {
            None
        } else {
            g0.deco(x, y)
        }
}

/// Put the map plan's buildings on the ground, after the capitals' own
/// buildings: mark every footprint as built on, pave the flat grass and
/// forest around each building (sparing every settlement's resource tiles)
/// and set the gold stones. Returns all buildings: the capitals' first, then
/// one tower per zone, then each settlement's houses and production.
pub fn prepare_ground(grid: &mut Grid, layout: &MapLayout, capital_sites: &[BuildingSite]) -> (r:
    Vec<BuildingSite>)
    requires
        old(grid).wf(),
        layout.zone_centers@.len() <= 256,
        plan_in_range(layout.zone_centers@, layout.settlements@),
        forall|i: int| 0 <= i < capital_sites@.len() ==> site_in_range(#[trigger] capital_sites@[i]),
        resources_in_grid(*old(grid), layout.settlements@),
    ensures
        r@ == capital_sites@ + tower_sites(layout.zone_centers@) + all_village_sites(
            layout.settlements@,
        ),
        ground_prepared(*old(grid), *final(grid), layout.settlements@, r@),
{
    let zone_sites = zone_building_sites(&layout.zone_centers, &layout.settlements);
    let mut all: Vec<BuildingSite> = Vec::new();
    let mut i: usize = 0;
    while i < capital_sites.len()
        invariant
            i <= capital_sites@.len(),
            all@ == capital_sites@.take(i as int),
        decreases capital_sites@.len() - i,
    {
        all.push(capital_sites[i]);
        proof {
            assert(all@ =~= capital_sites@.take(i + 1));
        }
        i = i + 1;
    }
    let mut j: usize = 0;
    proof {
        assert(all@ =~= capital_sites@ + zone_sites@.take(0));
    }
    while j < zone_sites.len()
        invariant
            j <= zone_sites@.len(),
            all@ == capital_sites@ + zone_sites@.take(j as int),
        decreases zone_sites@.len() - j,
    {
        all.push(zone_sites[j]);
        proof {
            assert(all@ =~= capital_sites@ + zone_sites@.take(j + 1));
        }
        j = j + 1;
    }
    proof {
        assert(zone_sites@.take(j as int) =~= zone_sites@);
        assert(all@ =~= capital_sites@ + tower_sites(layout.zone_centers@) + all_village_sites(
            layout.settlements@,
        ));
        assert forall|t: int| 0 <= t < all@.len() implies site_in_range(#[trigger] all@[t]) by {
            if t >= capital_sites@.len() {
                assert(all@[t] == zone_sites@[t - capital_sites@.len()]);
            }
        }
    }
    let ghost g0 = *grid;
    mark_footprints(grid, &all);
    let ghost g1 = *grid;
    let protected = collect_resources(&layout.settlements);
    paint_road_around_buildings(grid, &all, &protected);
    let ghost g2 = *grid;
    proof {
        assert forall|k: int, t: int|
            0 <= k < layout.settlements@.len() && 0 <= t < layout.settlements@[k].resources@.len()
                implies g2.in_grid(
            (#[trigger] layout.settlements@[k].resources@[t]).0 as int,
            layout.settlements@[k].resources@[t].1 as int,
        ) by {}
    }
    place_gold_stones(grid, &layout.settlements);
    proof {
        assert forall|x: int, y: int| #![trigger grid.tile(x, y)] grid.in_grid(x, y) implies grid.tile(x, y)
            == if apron_before(all@, all@.len() as int, x, y) && paintable(
            g0,
            all_resources(layout.settlements@),
            x,
            y,
        ) {
            TileKind::Road
        } else {
            g0.tile(x, y)
        } by {
            assert(g1.tile(x, y) == g0.tile(x, y));
            assert(g1.elev(x, y) == g0.elev(x, y));
            assert(g2.tile(x, y) == grid.tile(x, y));
            assert(painted_as(g1, g2, protected@, x, y, apron_before(all@, all@.len() as int, x, y)));
        }
        assert forall|x: int, y: int| #![trigger grid.deco(x, y)] grid.in_grid(x, y) implies grid.deco(x, y)
            == if gold_tile_before(layout.settlements@, layout.settlements@.len() as int, x, y) {
            Some(Decoration::GoldStone(spec_gold_stone_variant(x as u32, y as u32)))
        } else if apron_before(all@, all@.len() as int, x, y) && paintable(
            g0,
            all_resources(layout.settlements@),
            x,
            y,
        ) {
            None
        } else {
            g0.deco(x, y)
        } by {
            assert(g1.tile(x, y) == g0.tile(x, y));
            assert(g1.elev(x, y) == g0.elev(x, y));
            assert(g1.deco(x, y) == g0.deco(x, y));
            assert(painted_as(g1, g2, protected@, x, y, apron_before(all@, all@.len() as int, x, y)));
        }
        assert forall|x: int, y: int| #![trigger grid.has_building(x, y)] grid.in_grid(x, y) implies grid.has_building(x, y)
            == (g0.has_building(x, y) || covered_before(all@, all@.len() as int, x, y)) by {
            assert(g1.has_building(x, y) == grid.has_building(x, y));
        }
    }
    all
}

/// Ground preparation never paves a settlement's resource tile: groves,
/// gold stones and pen ground keep their terrain.
pub proof fn law_resources_never_paved(
    g0: Grid,
    g1: Grid,
    vs: Seq<SettlementSpec>,
    sites: Seq<BuildingSite>,
    k: int,
    j: int,
)
    requires
        ground_prepared(g0, g1, vs, sites),
        0 <= k < vs.len(),
        0 <= j < vs[k].resources@.len(),
        g1.in_grid(vs[k].resources@[j].0 as int, vs[k].resources@[j].1 as int),
    ensures
        g1.tile(vs[k].resources@[j].0 as int, vs[k].resources@[j].1 as int) == g0.tile(
            vs[k].resources@[j].0 as int,
            vs[k].resources@[j].1 as int,
        ),
{
    lemma_all_resources_contains(vs, k, j);
    let t = vs[k].resources@[j];
    let x = t.0 as int;
    let y = t.1 as int;
    assert((x as u32, y as u32) == t);
    assert(!paintable(g0, all_resources(vs), x, y));
}

/// After ground preparation no unit can stand on a building's footprint.
pub proof fn law_footprints_block_movement(
    g0: Grid,
    g1: Grid,
    vs: Seq<SettlementSpec>,
    sites: Seq<BuildingSite>,
    i: int,
    x: int,
    y: int,
)
    requires
        ground_prepared(g0, g1, vs, sites),
        0 <= i < sites.len(),
        covers(sites[i], x, y),
        g1.in_grid(x, y),
    ensures
        !g1.passable(x, y),
{
    assert(covered_before(sites, sites.len() as int, x, y));
    assert(g1.has_building(x, y));
}

/// A generated map is ready for setup: few enough zones for byte zone ids,
/// every zone center and building anchor within range, and every resource
/// tile on the grid.
pub proof fn law_generated_layout_fits_setup(l: MapLayout, g: Grid, p: int, nc: int)
    requires
        layout_ok(l, g, p, nc),
        g.wf(),
        g.width == p + 2 * BORDER_SIZE,
    ensures
        l.zone_centers@.len() <= 256,
        plan_in_range(l.zone_centers@, l.settlements@),
        resources_in_grid(g, l.settlements@),
{
    let zc = l.zone_centers@;
    let vs = l.settlements@;
    assert forall|i: int| 0 <= i < zc.len() implies (#[trigger] zc[i]).0 <= MAX_SITE_COORD
        && zc[i].1 <= MAX_SITE_COORD by {
        law_zones_inside_playable(l, g, p, nc, i);
    }
    assert forall|k: int, j: int| 0 <= k < vs.len() && 0 <= j < vs[k].houses@.len() implies (
    #[trigger] vs[k].houses@[j]).0 <= MAX_SITE_COORD && vs[k].houses@[j].1 <= MAX_SITE_COORD by {
        assert(anchor_clear(g, vs[k].houses@[j]));
    }
    assert forall|k: int, j: int| 0 <= k < vs.len() && 0 <= j < vs[k].production@.len() implies (
    #[trigger] vs[k].production@[j]).0.0 <= MAX_SITE_COORD && vs[k].production@[j].0.1
        <= MAX_SITE_COORD by {
        assert(anchor_clear(g, vs[k].production@[j].0));
    }
}

/// Painting the aprons a second time changes nothing.
pub proof fn law_apron_painting_idempotent(
    g0: Grid,
    g1: Grid,
    g2: Grid,
    sites: Seq<BuildingSite>,
    protected: Seq<(u32, u32)>,
)
    requires
        g0.wf(),
        g1.same_shape(&g0),
        g2.same_shape(&g1),
        g1.elevations@ == g0.elevations@,
        forall|x: int, y: int|
            g1.in_grid(x, y) ==> #[trigger] painted_as(
                g0,
                g1,
                protected,
                x,
                y,
                apron_before(sites, sites.len() as int, x, y),
            ),
        forall|x: int, y: int|
            g2.in_grid(x, y) ==> #[trigger] painted_as(
                g1,
                g2,
                protected,
                x,
                y,
                apron_before(sites, sites.len() as int, x, y),
            ),
    ensures
        forall|x: int, y: int|
            g2.in_grid(x, y) ==> #[trigger] g2.tile(x, y) == g1.tile(x, y) && g2.deco(x, y)
                == g1.deco(x, y),
{
    assert forall|x: int, y: int| g2.in_grid(x, y) implies #[trigger] g2.tile(x, y) == g1.tile(x, y)
        && g2.deco(x, y) == g1.deco(x, y) by {
        assert(g1.in_grid(x, y));
        assert(painted_as(g0, g1, protected, x, y, apron_before(sites, sites.len() as int, x, y)));
        assert(painted_as(g1, g2, protected, x, y, apron_before(sites, sites.len() as int, x, y)));
        assert(g1.elev(x, y) == g0.elev(x, y));
    }
}

} // verus!
