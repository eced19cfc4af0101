//! Village layout for every zone: houses and production buildings on a ring
//! around the zone center, and a worked resource cluster on the side away
//! from the road, described as data for setup to spawn. Wood groves are
//! terrain and are painted into the grid here.

use vstd::prelude::*;
use crate::building::BuildingKind;
use crate::grid::{Grid, TileKind, MAX_SIDE};
use crate::zone::SettlementTier;
use super::rng::{Rng, xorshift, shuffled};
use super::{VILLAGE_CLEAR_RADIUS, VILLAGE_RING_MAX, VILLAGE_RING_MIN};
use super::terrain::in_disk;

verus! {

/// The resource a village works.
#[derive(Clone, Copy, Debug, PartialEq, Eq, Structural)]
pub enum VillageTheme {
    Gold,
    Wood,
    Meat,
}

impl VillageTheme {
    pub open spec fn spec_production_building(self) -> BuildingKind {
        match self {
            VillageTheme::Gold => BuildingKind::Barracks,
            VillageTheme::Wood => BuildingKind::Archery,
            VillageTheme::Meat => BuildingKind::Monastery,
        }
    }

    /// The production building that goes with the theme.
    pub fn production_building(self) -> (k: BuildingKind)
        ensures
            k == self.spec_production_building(),
    {
        match self {
            VillageTheme::Gold => BuildingKind::Barracks,
            VillageTheme::Wood => BuildingKind::Archery,
            VillageTheme::Meat => BuildingKind::Monastery,
        }
    }
}

/// The planned layout of one settlement.
pub struct SettlementSpec {
    pub zone_idx: u8,
    pub tier: SettlementTier,
    pub theme: VillageTheme,
    /// House anchor tiles.
    pub houses: Vec<(u32, u32)>,
    /// Production building anchors with their kind.
    pub production: Vec<((u32, u32), BuildingKind)>,
    /// Resource cluster tiles (gold stones, grove trees or pen ground).
    pub resources: Vec<(u32, u32)>,
}

/// Directions on the building ring.
pub const ANGLES: u32 = 16;

// ---------------------------------------------------------------------------
// Ring and direction tables
// ---------------------------------------------------------------------------

/// Rounded `radius · (cos, sin)` of ring directions 0..3 (0°, 22.5°, 45°,
/// 67.5°) for radii 7 to 10.
pub open spec fn ring_quarter(k: int, r: int) -> (int, int) {
    if k == 0 {
        (r, 0)
    } else if k == 1 {
        if r == 7 {
            (6, 3)
        } else if r == 8 {
            (7, 3)
        } else if r == 9 {
            (8, 3)
        } else {
            (9, 4)
        }
    } else if k == 2 {
        if r == 7 {
            (5, 5)
        } else if r == 8 || r == 9 {
            (6, 6)
        } else {
            (7, 7)
        }
    } else {
        if r == 7 {
            (3, 6)
        } else if r == 8 {
            (3, 7)
        } else if r == 9 {
            (3, 8)
        } else {
            (4, 9)
        }
    }
}

/// `v` turned by `q` quarter turns.
pub open spec fn quarter_turn(v: (int, int), q: int) -> (int, int) {
    if q == 0 {
        v
    } else if q == 1 {
        (-v.1, v.0)
    } else if q == 2 {
        (-v.0, -v.1)
    } else {
        (v.1, -v.0)
    }
}

/// Offset of ring direction `slot` (of 16) at `radius`, rounded to tiles.
pub open spec fn ring_offset(slot: int, radius: int) -> (int, int) {
    quarter_turn(ring_quarter(slot % 4, radius), slot / 4)
}

fn ring_offset_exec(slot: u32, radius: u32) -> (r: (i32, i32))
    requires
        slot < ANGLES,
        VILLAGE_RING_MIN <= radius <= VILLAGE_RING_MAX,
    ensures
        (r.0 as int, r.1 as int) == ring_offset(slot as int, radius as int),
{
    let k = slot % 4;
    let r = radius as i32;
    let base: (i32, i32) = if k == 0 {
        (r, 0)
    } else if k == 1 {
        if r == 7 {
            (6, 3)
        } else if r == 8 {
            (7, 3)
        } else if r == 9 {
            (8, 3)
        } else {
            (9, 4)
        }
    } else if k == 2 {
        if r == 7 {
            (5, 5)
        } else if r == 8 || r == 9 {
            (6, 6)
        } else {
            (7, 7)
        }
    } else {
        if r == 7 {
            (3, 6)
        } else if r == 8 {
            (3, 7)
        } else if r == 9 {
            (3, 8)
        } else {
            (4, 9)
        }
    };
    let q = slot / 4;
    if q == 0 {
        base
    } else if q == 1 {
        (-base.1, base.0)
    } else if q == 2 {
        (-base.0, -base.1)
    } else {
        (base.1, -base.0)
    }
}

/// `1024 · cos(k · 2π / 64)` for `k` in 0..16, rounded.
pub open spec fn cos_quarter(k: int) -> int {
    if k == 0 {
        1024
    } else if k == 1 {
        1019
    } else if k == 2 {
        1004
    } else if k == 3 {
        980
    } else if k == 4 {
        946
    } else if k == 5 {
        903
    } else if k == 6 {
        851
    } else if k == 7 {
        792
    } else if k == 8 {
        724
    } else if k == 9 {
        650
    } else if k == 10 {
        569
    } else if k == 11 {
        483
    } else if k == 12 {
        392
    } else if k == 13 {
        297
    } else if k == 14 {
        200
    } else if k == 15 {
        100
    } else {
        0
    }
}

/// Unit direction `k` of 64, scaled by 1024 and rounded.
pub open spec fn dir64(k: int) -> (int, int) {
    let r = k % 16;
    quarter_turn((cos_quarter(r), cos_quarter(16 - r)), k / 16)
}

fn cos_quarter_exec(k: u32) -> (r: i32)
    requires
        k <= 16,
    ensures
        r as int == cos_quarter(k as int),
{
    match k {
        0 => 1024,
        1 => 1019,
        2 => 1004,
        3 => 980,
        4 => 946,
        5 => 903,
        6 => 851,
        7 => 792,
        8 => 724,
        9 => 650,
        10 => 569,
        11 => 483,
        12 => 392,
        13 => 297,
        14 => 200,
        15 => 100,
        _ => 0,
    }
}

fn dir64_exec(k: u32) -> (r: (i32, i32))
    requires
        k < 64,
    ensures
        (r.0 as int, r.1 as int) == dir64(k as int),
        -1024 <= r.0 <= 1024,
        -1024 <= r.1 <= 1024,
{
    let rr = k % 16;
    let base = (cos_quarter_exec(rr), cos_quarter_exec(16 - rr));
    let q = k / 16;
    if q == 0 {
        base
    } else if q == 1 {
        (-base.1, base.0)
    } else if q == 2 {
        (-base.0, -base.1)
    } else {
        (base.1, -base.0)
    }
}

// ---------------------------------------------------------------------------
// Building placement
// ---------------------------------------------------------------------------

/// Tiles a building blocks: its footprint around the anchor, then the anchor.
#[verifier::opaque]
pub open spec fn spec_block(kind: BuildingKind, x: int, y: int) -> Seq<(i32, i32)> {
    let fp = kind.spec_footprint();
    Seq::new(
        fp.len() + 1,
        |i: int|
            if i < fp.len() {
                ((x + fp[i].0) as i32, (y + fp[i].1) as i32)
            } else {
                (x as i32, y as i32)
            },
    )
}

/// Tiles a building blocks for placement: footprint plus the anchor tile.
fn block_tiles(kind: BuildingKind, x: i32, y: i32) -> (v: Vec<(i32, i32)>)
    requires
        -(MAX_SIDE as int) <= x <= 2 * MAX_SIDE,
        -(MAX_SIDE as int) <= y <= 2 * MAX_SIDE,
    ensures
        v@ == spec_block(kind, x as int, y as int),
{
    let fp = kind.footprint_offsets();
    let mut v: Vec<(i32, i32)> = Vec::new();
    let mut i: usize = 0;
    proof {
        reveal(spec_block);
        assert forall|j: int| 0 <= j < fp@.len() implies -2 <= (#[trigger] fp@[j]).0 <= 2 && -1
            <= fp@[j].1 <= 0 by {}
    }
    while i < fp.len()
        invariant
            fp@ == kind.spec_footprint(),
            -(MAX_SIDE as int) <= x <= 2 * MAX_SIDE,
            -(MAX_SIDE as int) <= y <= 2 * MAX_SIDE,
            forall|j: int| 0 <= j < fp@.len() ==> -2 <= (#[trigger] fp@[j]).0 <= 2 && -1 <= fp@[j].1 <= 0,
            i <= fp@.len(),
            v@.len() == i,
            forall|j: int| 0 <= j < i ==> #[trigger] v@[j] == spec_block(kind, x as int, y as int)[j],
        decreases fp@.len() - i,
    {
        let (dx, dy) = fp[i];
        v.push((x + dx, y + dy));
        proof {
            reveal(spec_block);
        }
        i = i + 1;
    }
    v.push((x, y));
    proof {
        reveal(spec_block);
        assert(v@ =~= spec_block(kind, x as int, y as int));
    }
    v
}

/// The 3×3 apron around `(tx, ty)` is on the grid, flat, and free of
/// roads and water.
pub open spec fn apron_ok(g: Grid, tx: int, ty: int) -> bool {
    forall|ax: int, ay: int|
        tx - 1 <= ax <= tx + 1 && ty - 1 <= ay <= ty + 1 ==> {
            &&& g.in_grid(ax, ay)
            &&& #[trigger] g.tile(ax, ay) != TileKind::Road
            &&& g.tile(ax, ay) != TileKind::Water
            &&& g.elev(ax, ay) == 0
        }
}

/// Some occupied tile lies within Chebyshev distance `d` of `(tx, ty)`.
pub open spec fn near_occupied(occ: Seq<(i32, i32)>, tx: int, ty: int, d: int) -> bool {
    exists|k: int|
        0 <= k < occ.len() && -d <= (#[trigger] occ[k]).0 - tx <= d && -d <= occ[k].1 - ty <= d
}

/// A building of `kind` anchored at `(x, y)` fits: every blocked tile has a
/// clear apron and keeps two tiles from everything occupied.
pub open spec fn spec_fits(g: Grid, kind: BuildingKind, x: int, y: int, occ: Seq<(i32, i32)>) -> bool {
    let b = spec_block(kind, x, y);
    forall|i: int|
        0 <= i < b.len() ==> apron_ok(g, (#[trigger] b[i]).0 as int, b[i].1 as int) && !near_occupied(
            occ,
            b[i].0 as int,
            b[i].1 as int,
            2,
        )
}

fn apron_clear(grid: &Grid, tx: i32, ty: i32) -> (r: bool)
    requires
        grid.wf(),
        -(MAX_SIDE as int) <= tx <= 2 * MAX_SIDE,
        -(MAX_SIDE as int) <= ty <= 2 * MAX_SIDE,
    ensures
        r == apron_ok(*grid, tx as int, ty as int),
{
    let mut dy: i32 = -1;
    while dy <= 1
        invariant
            grid.wf(),
            -(MAX_SIDE as int) <= tx <= 2 * MAX_SIDE,
            -(MAX_SIDE as int) <= ty <= 2 * MAX_SIDE,
            -1 <= dy <= 2,
            forall|ax: int, ay: int|
                tx - 1 <= ax <= tx + 1 && ty - 1 <= ay < ty + dy ==> {
                    &&& grid.in_grid(ax, ay)
                    &&& #[trigger] grid.tile(ax, ay) != TileKind::Road
                    &&& grid.tile(ax, ay) != TileKind::Water
                    &&& grid.elev(ax, ay) == 0
                },
        decreases 2 - dy,
    {
        let mut dx: i32 = -1;
        while dx <= 1
            invariant
                grid.wf(),
                -(MAX_SIDE as int) <= tx <= 2 * MAX_SIDE,
                -(MAX_SIDE as int) <= ty <= 2 * MAX_SIDE,
                -1 <= dy <= 1,
                -1 <= dx <= 2,
                forall|ax: int, ay: int|
                    (tx - 1 <= ax <= tx + 1 && ty - 1 <= ay < ty + dy) || (tx - 1 <= ax < tx + dx
                        && ay == ty + dy) ==> {
                        &&& grid.in_grid(ax, ay)
                        &&& #[trigger] grid.tile(ax, ay) != TileKind::Road
                        &&& grid.tile(ax, ay) != TileKind::Water
                        &&& grid.elev(ax, ay) == 0
                    },
            decreases 2 - dx,
        {
            let ax = tx + dx;
            let ay = ty + dy;
            if !grid.in_bounds(ax, ay) {
                proof {
                    if apron_ok(*grid, tx as int, ty as int) {
                        let t = grid.tile(ax as int, ay as int);
                        assert(t != TileKind::Road);
                        assert(grid.in_grid(ax as int, ay as int));
                    }
                }
                return false;
            }
            let t = grid.get(ax as u32, ay as u32);
            if t == TileKind::Road || t == TileKind::Water {
                return false;
            }
            if grid.elevation(ax as u32, ay as u32) > 0 {
                return false;
            }
            dx = dx + 1;
        }
        dy = dy + 1;
    }
    true
}

fn is_near_occupied(occ: &Vec<(i32, i32)>, tx: i32, ty: i32, d: i32) -> (r: bool)
    requires
        0 <= d <= 2,
        -(MAX_SIDE as int) <= tx <= 2 * MAX_SIDE,
        -(MAX_SIDE as int) <= ty <= 2 * MAX_SIDE,
        forall|k: int|
            0 <= k < occ@.len() ==> -(MAX_SIDE as int) <= (#[trigger] occ@[k]).0 <= 2 * MAX_SIDE
                && -(MAX_SIDE as int) <= occ@[k].1 <= 2 * MAX_SIDE,
    ensures
        r == near_occupied(occ@, tx as int, ty as int, d as int),
{
    let mut k: usize = 0;
    while k < occ.len()
        invariant
            k <= occ@.len(),
            0 <= d <= 2,
            -(MAX_SIDE as int) <= tx <= 2 * MAX_SIDE,
            -(MAX_SIDE as int) <= ty <= 2 * MAX_SIDE,
            forall|k2: int|
                0 <= k2 < occ@.len() ==> -(MAX_SIDE as int) <= (#[trigger] occ@[k2]).0 <= 2 * MAX_SIDE
                    && -(MAX_SIDE as int) <= occ@[k2].1 <= 2 * MAX_SIDE,
            forall|k2: int|
                0 <= k2 < k ==> !(-d <= (#[trigger] occ@[k2]).0 - tx <= d && -d <= occ@[k2].1 - ty
                    <= d),
        decreases occ@.len() - k,
    {
        let (ox, oy) = occ[k];
        if -d <= ox - tx && ox - tx <= d && -d <= oy - ty && oy - ty <= d {
            return true;
        }
        k = k + 1;
    }
    false
}

/// Tiles keep to the grid's neighbourhood, so coordinate arithmetic stays small.
pub open spec fn occupied_ok(occ: Seq<(i32, i32)>) -> bool {
    forall|k: int|
        0 <= k < occ.len() ==> -(MAX_SIDE as int) <= (#[trigger] occ[k]).0 <= 2 * MAX_SIDE && -(
        MAX_SIDE as int) <= occ[k].1 <= 2 * MAX_SIDE
}

fn fits(grid: &Grid, kind: BuildingKind, x: i32, y: i32, occupied: &Vec<(i32, i32)>) -> (r: bool)
    requires
        grid.wf(),
        -(MAX_SIDE as int) + 4 <= x <= 2 * MAX_SIDE - 4,
        -(MAX_SIDE as int) + 4 <= y <= 2 * MAX_SIDE - 4,
        occupied_ok(occupied@),
    ensures
        r == spec_fits(*grid, kind, x as int, y as int, occupied@),
{
    let block = block_tiles(kind, x, y);
    let ghost b = spec_block(kind, x as int, y as int);
    proof {
        reveal(spec_block);
        assert forall|i: int| 0 <= i < b.len() implies -(MAX_SIDE as int) <= (#[trigger] b[i]).0 <= 2
            * MAX_SIDE && -(MAX_SIDE as int) <= b[i].1 <= 2 * MAX_SIDE by {
            let fp = kind.spec_footprint();
            if i < fp.len() {
                assert(-2 <= fp[i].0 <= 2 && -1 <= fp[i].1 <= 0);
            }
        }
    }
    let mut i: usize = 0;
    while i < block.len()
        invariant
            grid.wf(),
            block@ == b,
            b == spec_block(kind, x as int, y as int),
            occupied_ok(occupied@),
            forall|j: int| 0 <= j < b.len() ==> -(MAX_SIDE as int) <= (#[trigger] b[j]).0 <= 2
                * MAX_SIDE && -(MAX_SIDE as int) <= b[j].1 <= 2 * MAX_SIDE,
            i <= b.len(),
            forall|j: int|
                0 <= j < i ==> apron_ok(*grid, (#[trigger] b[j]).0 as int, b[j].1 as int)
                    && !near_occupied(occupied@, b[j].0 as int, b[j].1 as int, 2),
        decreases b.len() - i,
    {
        let (tx, ty) = block[i];
        proof {
            assert(b[i as int] == block@[i as int]);
        }
        if !apron_clear(grid, tx, ty) {
            proof {
                if spec_fits(*grid, kind, x as int, y as int, occupied@) {
                    let e = b[i as int];
                    assert(apron_ok(*grid, e.0 as int, e.1 as int));
                }
            }
            return false;
        }
        if is_near_occupied(occupied, tx, ty, 2) {
            proof {
                if spec_fits(*grid, kind, x as int, y as int, occupied@) {
                    let e = b[i as int];
                    assert(!near_occupied(occupied@, e.0 as int, e.1 as int, 2));
                }
            }
            return false;
        }
        i = i + 1;
    }
    true
}

/// The anchor at ring position `(slot index s, radius r)` around `(cx, cy)`.
pub open spec fn ring_anchor(slots: Seq<u32>, cx: int, cy: int, s: int, r: int) -> (int, int) {
    let o = ring_offset(slots[s] as int, r);
    (cx + o.0, cy + o.1)
}

/// Ring position `(s1, r1)` is tried before `(s2, r2)`.
pub open spec fn ring_before(s1: int, r1: int, s2: int, r2: int) -> bool {
    s1 < s2 || (s1 == s2 && r1 < r2)
}

pub open spec fn ring_fits(
    g: Grid,
    kind: BuildingKind,
    occ: Seq<(i32, i32)>,
    slots: Seq<u32>,
    cx: int,
    cy: int,
    s: int,
    r: int,
) -> bool {
    let a = ring_anchor(slots, cx, cy, s, r);
    spec_fits(g, kind, a.0, a.1, occ)
}

pub open spec fn ring_pos(slots: Seq<u32>, s: int, r: int) -> bool {
    0 <= s < slots.len() && VILLAGE_RING_MIN <= r <= VILLAGE_RING_MAX
}

/// `(s, r)` is the first ring position, in trying order, where the building fits.
pub open spec fn first_fit(
    g: Grid,
    kind: BuildingKind,
    occ: Seq<(i32, i32)>,
    slots: Seq<u32>,
    cx: int,
    cy: int,
    s: int,
    r: int,
) -> bool {
    &&& ring_pos(slots, s, r)
    &&& ring_fits(g, kind, occ, slots, cx, cy, s, r)
    &&& forall|s2: int, r2: int|
        ring_pos(slots, s2, r2) && ring_before(s2, r2, s, r) ==> !ring_fits(
            g,
            kind,
            occ,
            slots,
            cx,
            cy,
            s2,
            r2,
        )
}

/// Try ring positions (shuffled slots, then radii 7 to 10) and take the
/// first where the building fits, marking its tiles occupied.
fn place_on_ring(
    grid: &Grid,
    cx: i32,
    cy: i32,
    kind: BuildingKind,
    occupied: &mut Vec<(i32, i32)>,
    slots: &Vec<u32>,
) -> (r: Option<(u32, u32)>)
    requires
        grid.wf(),
        0 <= cx < MAX_SIDE,
        0 <= cy < MAX_SIDE,
        occupied_ok(old(occupied)@),
        forall|k: int| 0 <= k < slots@.len() ==> #[trigger] slots@[k] < ANGLES,
    ensures
        occupied_ok(final(occupied)@),
        r is None ==> final(occupied)@ == old(occupied)@ && forall|s: int, rr: int|
            ring_pos(slots@, s, rr) ==> !ring_fits(*grid, kind, old(occupied)@, slots@, cx as int, cy as int, s, rr),
        r matches Some(pos) ==> exists|s: int, rr: int|
            #[trigger] first_fit(*grid, kind, old(occupied)@, slots@, cx as int, cy as int, s, rr)
                && ring_anchor(slots@, cx as int, cy as int, s, rr) == (pos.0 as int, pos.1 as int)
                && final(occupied)@ == old(occupied)@ + spec_block(kind, pos.0 as int, pos.1 as int),
{
    let ghost occ0 = occupied@;
    let mut s: usize = 0;
    while s < slots.len()
        invariant
            grid.wf(),
            0 <= cx < MAX_SIDE,
            0 <= cy < MAX_SIDE,
            occupied@ == occ0,
            occ0 == old(occupied)@,
            occupied_ok(occ0),
            forall|k: int| 0 <= k < slots@.len() ==> #[trigger] slots@[k] < ANGLES,
            s <= slots@.len(),
            forall|s2: int, r2: int|
                ring_pos(slots@, s2, r2) && s2 < s ==> !ring_fits(*grid, kind, occ0, slots@, cx as int, cy as int, s2, r2),
        decreases slots@.len() - s,
    {
        let slot = slots[s];
        let mut radius: u32 = VILLAGE_RING_MIN;
        while radius <= VILLAGE_RING_MAX
            invariant
                grid.wf(),
                0 <= cx < MAX_SIDE,
                0 <= cy < MAX_SIDE,
                occupied@ == occ0,
                occ0 == old(occupied)@,
                occupied_ok(occ0),
                forall|k: int| 0 <= k < slots@.len() ==> #[trigger] slots@[k] < ANGLES,
                s < slots@.len(),
                slot == slots@[s as int],
                VILLAGE_RING_MIN <= radius <= VILLAGE_RING_MAX + 1,
                forall|s2: int, r2: int|
                    ring_pos(slots@, s2, r2) && ring_before(s2, r2, s as int, radius as int) ==> !ring_fits(
                        *grid,
                        kind,
                        occ0,
                        slots@,
                        cx as int,
                        cy as int,
                        s2,
                        r2,
                    ),
            decreases VILLAGE_RING_MAX + 1 - radius,
        {
            let (ox, oy) = ring_offset_exec(slot, radius);
            let x = cx + ox;
            let y = cy + oy;
            if fits(grid, kind, x, y, occupied) {
                let block = block_tiles(kind, x, y);
                proof {
                    reveal(spec_block);
                    assert(apron_ok(*grid, x as int, y as int)) by {
                        let b = spec_block(kind, x as int, y as int);
                        assert(b[b.len() - 1] == (x, y));
                    }
                    assert(grid.tile(x as int, y as int) != TileKind::Road);
                    assert(grid.in_grid(x as int, y as int));
                    let b = spec_block(kind, x as int, y as int);
                    assert forall|j: int| 0 <= j < b.len() implies -(MAX_SIDE as int) <= (
                    #[trigger] b[j]).0 <= 2 * MAX_SIDE && -(MAX_SIDE as int) <= b[j].1 <= 2
                        * MAX_SIDE by {
                        let fp = kind.spec_footprint();
                        if j < fp.len() {
                            assert(-2 <= fp[j].0 <= 2 && -1 <= fp[j].1 <= 0);
                        }
                    }
                }
                let mut i: usize = 0;
                let ghost before = occupied@;
                while i < block.len()
                    invariant
                        i <= block@.len(),
                        block@ == spec_block(kind, x as int, y as int),
                        occupied_ok(before),
                        occupied@ == before + block@.take(i as int),
                        forall|j: int|
                            0 <= j < block@.len() ==> -(MAX_SIDE as int) <= (#[trigger] block@[j]).0
                                <= 2 * MAX_SIDE && -(MAX_SIDE as int) <= block@[j].1 <= 2 * MAX_SIDE,
                    decreases block@.len() - i,
                {
                    occupied.push(block[i]);
                    proof {
                        assert(block@.take(i + 1) =~= block@.take(i as int).push(block@[i as int]));
                    }
                    i = i + 1;
                }
                proof {
                    assert(block@.take(block@.len() as int) =~= block@);
                    assert forall|k: int| 0 <= k < occupied@.len() implies -(MAX_SIDE as int) <= (
                    #[trigger] occupied@[k]).0 <= 2 * MAX_SIDE && -(MAX_SIDE as int) <= occupied@[k].1
                        <= 2 * MAX_SIDE by {
                        if k >= before.len() {
                            assert(occupied@[k] == block@[k - before.len()]);
                        }
                    }
                    assert(ring_anchor(slots@, cx as int, cy as int, s as int, radius as int) == (
                        x as int,
                        y as int,
                    ));
                    assert((x as u32) as int == x as int);
                    assert((y as u32) as int == y as int);
                    assert(ring_pos(slots@, s as int, radius as int));
                    assert(ring_fits(*grid, kind, occ0, slots@, cx as int, cy as int, s as int, radius as int));
                    assert(occupied@ == occ0 + spec_block(kind, (x as u32) as int, (y as u32) as int));
                    let sx = s as int;
                    let rx = radius as int;
                    assert(forall|s2: int, r2: int|
                        ring_pos(slots@, s2, r2) && ring_before(s2, r2, sx, rx) ==> !ring_fits(
                            *grid,
                            kind,
                            occ0,
                            slots@,
                            cx as int,
                            cy as int,
                            s2,
                            r2,
                        ));
                    let pos = (x as u32, y as u32);
                    assert(first_fit(*grid, kind, occ0, slots@, cx as int, cy as int, sx, rx));
                    assert(occ0 == old(occupied)@);
                    assert(first_fit(*grid, kind, old(occupied)@, slots@, cx as int, cy as int, sx, rx)
                        && ring_anchor(slots@, cx as int, cy as int, sx, rx) == (pos.0 as int, pos.1 as int)
                        && occupied@ == old(occupied)@ + spec_block(kind, pos.0 as int, pos.1 as int));
                    assert(ring_pos(slots@, sx, rx) && ring_anchor(slots@, cx as int, cy as int, sx, rx)
                        == (pos.0 as int, pos.1 as int) && ring_fits(
                        *grid,
                        kind,
                        occ0,
                        slots@,
                        cx as int,
                        cy as int,
                        sx,
                        rx,
                    ) && occupied@ == occ0 + spec_block(kind, pos.0 as int, pos.1 as int));
                }
                return Some((x as u32, y as u32));
            }
            radius = radius + 1;
        }
        s = s + 1;
    }
    None
}


// ---------------------------------------------------------------------------
// Resources
// ---------------------------------------------------------------------------

/// Summed offsets from `(cx, cy)` to the road tiles of row `dy` of the
/// square of radius `r`, over columns `dx < upto`, the center excluded.
pub open spec fn road_row_sum(g: Grid, cx: int, cy: int, r: int, dy: int, upto: int) -> (int, int)
    decreases upto + r,
{
    if upto <= -r {
        (0, 0)
    } else {
        let s = road_row_sum(g, cx, cy, r, dy, upto - 1);
        let dx = upto - 1;
        if !(dx == 0 && dy == 0) && g.in_grid(cx + dx, cy + dy) && g.tile(cx + dx, cy + dy)
            == TileKind::Road {
            (s.0 + dx, s.1 + dy)
        } else {
            s
        }
    }
}

/// Summed offsets to the road tiles of the square of radius `r` over rows `dy < upto`.
pub open spec fn road_sum(g: Grid, cx: int, cy: int, r: int, upto: int) -> (int, int)
    decreases upto + r,
{
    if upto <= -r {
        (0, 0)
    } else {
        let s = road_sum(g, cx, cy, r, upto - 1);
        let t = road_row_sum(g, cx, cy, r, upto - 1, r + 1);
        (s.0 + t.0, s.1 + t.1)
    }
}

/// Where the road runs through a village: the summed offsets to the road
/// tiles within the clearing radius, or `None` when they cancel out or
/// there is no road.
pub open spec fn spec_road_direction(g: Grid, cx: int, cy: int) -> Option<(i32, i32)> {
    let r = VILLAGE_CLEAR_RADIUS as int;
    let s = road_sum(g, cx, cy, r, r + 1);
    if s.0 == 0 && s.1 == 0 {
        None
    } else {
        Some((s.0 as i32, s.1 as i32))
    }
}

/// Direction of the road near the center `(cx, cy)`.
fn road_direction(grid: &Grid, cx: i32, cy: i32) -> (r: Option<(i32, i32)>)
    requires
        grid.wf(),
        0 <= cx < MAX_SIDE,
        0 <= cy < MAX_SIDE,
    ensures
        r == spec_road_direction(*grid, cx as int, cy as int),
        r matches Some(v) ==> -100_000 <= v.0 <= 100_000 && -100_000 <= v.1 <= 100_000,
{
    let r: i32 = VILLAGE_CLEAR_RADIUS as i32;
    let ghost ri = r as int;
    let mut sx: i32 = 0;
    let mut sy: i32 = 0;
    let mut dy: i32 = -r;
    while dy <= r
        invariant
            grid.wf(),
            r == VILLAGE_CLEAR_RADIUS,
            ri == r,
            -r <= dy <= r + 1,
            0 <= cx < MAX_SIDE,
            0 <= cy < MAX_SIDE,
            (sx as int, sy as int) == road_sum(*grid, cx as int, cy as int, ri, dy as int),
            -(dy + r) * 27 * 13 <= sx <= (dy + r) * 27 * 13,
            -(dy + r) * 27 * 13 <= sy <= (dy + r) * 27 * 13,
        decreases r + 1 - dy,
    {
        let mut dx: i32 = -r;
        let ghost base = (sx as int, sy as int);
        let mut rx: i32 = 0;
        let mut ry: i32 = 0;
        while dx <= r
            invariant
                grid.wf(),
                r == VILLAGE_CLEAR_RADIUS,
                ri == r,
                -r <= dy <= r,
                -r <= dx <= r + 1,
                0 <= cx < MAX_SIDE,
                0 <= cy < MAX_SIDE,
                (rx as int, ry as int) == road_row_sum(*grid, cx as int, cy as int, ri, dy as int, dx as int),
                -(dx + r) * 13 <= rx <= (dx + r) * 13,
                -(dx + r) * 13 <= ry <= (dx + r) * 13,
            decreases r + 1 - dx,
        {
            if !(dx == 0 && dy == 0) {
                let x = cx + dx;
                let y = cy + dy;
                if grid.in_bounds(x, y) && grid.get(x as u32, y as u32) == TileKind::Road {
                    rx = rx + dx;
                    ry = ry + dy;
                }
            }
            dx = dx + 1;
        }
        sx = sx + rx;
        sy = sy + ry;
        dy = dy + 1;
    }
    if sx == 0 && sy == 0 {
        None
    } else {
        Some((sx, sy))
    }
}

pub open spec fn dot64(k: int, v: (int, int)) -> int {
    dir64(k).0 * v.0 + dir64(k).1 * v.1
}

/// `k` is the first of the 64 directions that points most along `v`.
pub open spec fn best_slot(v: (int, int), k: int) -> bool {
    &&& 0 <= k < 64
    &&& forall|k2: int|
        0 <= k2 < 64 ==> #[trigger] dot64(k2, v) <= dot64(k, v) && (k2 < k ==> dot64(k2, v) < dot64(
            k,
            v,
        ))
}

fn best_slot_exec(vx: i32, vy: i32) -> (k: u32)
    requires
        -100_000 <= vx <= 100_000,
        -100_000 <= vy <= 100_000,
    ensures
        best_slot((vx as int, vy as int), k as int),
{
    let ghost v = (vx as int, vy as int);
    let mut best: u32 = 0;
    let (d0x, d0y) = dir64_exec(0);
    proof {
        assert(-1024 * 100_000 <= d0x * vx <= 1024 * 100_000) by (nonlinear_arith)
            requires
                -1024 <= d0x <= 1024,
                -100_000 <= vx <= 100_000,
        ;
        assert(-1024 * 100_000 <= d0y * vy <= 1024 * 100_000) by (nonlinear_arith)
            requires
                -1024 <= d0y <= 1024,
                -100_000 <= vy <= 100_000,
        ;
    }
    let mut best_dot: i64 = d0x as i64 * vx as i64 + d0y as i64 * vy as i64;
    let mut k: u32 = 1;
    while k < 64
        invariant
            -100_000 <= vx <= 100_000,
            -100_000 <= vy <= 100_000,
            v == (vx as int, vy as int),
            1 <= k <= 64,
            best < k,
            best_dot == dot64(best as int, v),
            forall|k2: int|
                0 <= k2 < k ==> #[trigger] dot64(k2, v) <= best_dot && (k2 < best ==> dot64(k2, v)
                    < best_dot),
        decreases 64 - k,
    {
        let (dx, dy) = dir64_exec(k);
        proof {
            assert(-1024 * 100_000 <= dx * vx <= 1024 * 100_000) by (nonlinear_arith)
                requires
                    -1024 <= dx <= 1024,
                    -100_000 <= vx <= 100_000,
            ;
            assert(-1024 * 100_000 <= dy * vy <= 1024 * 100_000) by (nonlinear_arith)
                requires
                    -1024 <= dy <= 1024,
                    -100_000 <= vy <= 100_000,
            ;
        }
        let d = dx as i64 * vx as i64 + dy as i64 * vy as i64;
        if d > best_dot {
            best = k;
            best_dot = d;
        }
        k = k + 1;
    }
    best
}

/// `v` rounded half away from zero after dividing by `2^20`.
pub open spec fn round_shift20(v: int) -> int {
    if v >= 0 {
        (v + 524288) / 1048576
    } else {
        -((-v + 524288) / 1048576)
    }
}

fn round_shift20_exec(v: i64) -> (r: i32)
    requires
        -0x100_0000_0000 <= v <= 0x100_0000_0000,
    ensures
        r as int == round_shift20(v as int),
        -0x10_0001 <= r <= 0x10_0001,
{
    if v >= 0 {
        ((v + 524288) / 1048576) as i32
    } else {
        -(((-v + 524288) / 1048576) as i32)
    }
}

/// Count of resource tiles a theme wants, given the first draw.
pub open spec fn resource_target(theme: VillageTheme, draw: u32) -> int {
    match theme {
        VillageTheme::Gold => 3 + draw % 3,
        VillageTheme::Wood => 4 + draw % 3,
        VillageTheme::Meat => 4,
    }
}

/// `g1` is `g0` with some grass turned to forest and nothing else changed.
pub open spec fn only_groves(g0: Grid, g1: Grid) -> bool {
    &&& g1.wf()
    &&& g1.same_shape(&g0)
    &&& g1.elevations@ == g0.elevations@
    &&& g1.decorations@ == g0.decorations@
    &&& g1.buildings@ == g0.buildings@
    &&& forall|x: int, y: int|
        #![trigger g1.tile(x, y)]
        g1.in_grid(x, y) ==> g1.tile(x, y) == g0.tile(x, y) || (g0.tile(x, y) == TileKind::Grass
            && g1.tile(x, y) == TileKind::Forest)
}

/// A resource tile chosen on grid `g0` next to the occupied tiles `occ`.
pub open spec fn resource_ok(g0: Grid, occ: Seq<(i32, i32)>, t: (u32, u32)) -> bool {
    &&& g0.in_grid(t.0 as int, t.1 as int)
    &&& g0.tile(t.0 as int, t.1 as int) == TileKind::Grass
    &&& g0.elev(t.0 as int, t.1 as int) == 0
    &&& !near_occupied(occ, t.0 as int, t.1 as int, 1)
}

/// Points as signed tiles.
pub open spec fn as_tiles(s: Seq<(u32, u32)>) -> Seq<(i32, i32)> {
    Seq::new(s.len(), |i: int| (s[i].0 as i32, s[i].1 as i32))
}

/// `best_slot` picks at most one slot.
proof fn lemma_best_slot_unique(v: (int, int), k1: int, k2: int)
    requires
        best_slot(v, k1),
        best_slot(v, k2),
    ensures
        k1 == k2,
{
    assert(dot64(k1, v) <= dot64(k2, v));
    assert(dot64(k2, v) <= dot64(k1, v));
}

/// State after the draw that fixes how many resource tiles are wanted: gold
/// and wood draw once, pastures not at all.
pub open spec fn after_count(theme: VillageTheme, st: u32) -> u32 {
    match theme {
        VillageTheme::Meat => st,
        _ => xorshift(st),
    }
}

/// Base direction slot of the cluster: the slot facing most directly away
/// from the road, or a drawn quarter-step slot for a roadless settlement.
pub open spec fn base_slot(road_dir: Option<(i32, i32)>, st: u32) -> int {
    match road_dir {
        Some(v) => choose|k: int| #[trigger] best_slot((-v.0 as int, -v.1 as int), k),
        None => ((xorshift(st) % ANGLES) * 4) as int,
    }
}

/// State after choosing the base slot.
pub open spec fn after_base(road_dir: Option<(i32, i32)>, st: u32) -> u32 {
    match road_dir {
        Some(_) => st,
        None => xorshift(st),
    }
}

/// Width of the radius band, at least one tile.
pub open spec fn span_of(r_min: int, r_max: int) -> int {
    if r_max - r_min > 1 {
        r_max - r_min
    } else {
        1
    }
}

/// The tile one try aims at, from its direction draw `jv` and radius draw
/// `rv`: a slot jittered up to 29 steps (about 160°) round from `base + 50`,
/// at a radius in `[r_min, r_min + span)` tiles in 1/1024 steps.
pub open spec fn try_tile(cx: int, cy: int, base: int, r_min: int, span: int, jv: u32, rv: u32) -> (
    int,
    int,
) {
    let slot = (base + 50 + (jv % 1000) * 29 / 1000) % 64;
    let rad = r_min * 1024 + (rv % 1000) * 1024 * span / 1000;
    let d = dir64(slot);
    (cx + round_shift20(d.0 * rad), cy + round_shift20(d.1 * rad))
}

/// A try keeps tile `t`: flat grass of `g0` not next to anything occupied
/// and not kept already.
pub open spec fn tile_takes(g0: Grid, occ: Seq<(i32, i32)>, out: Seq<(u32, u32)>, t: (int, int)) -> bool {
    &&& g0.in_grid(t.0, t.1)
    &&& g0.tile(t.0, t.1) == TileKind::Grass
    &&& g0.elev(t.0, t.1) == 0
    &&& !near_occupied(occ, t.0, t.1, 1)
    &&& !out.contains((t.0 as u32, t.1 as u32))
}

/// The tries from try number `tries` on, with tiles `out` kept so far and
/// generator state `st`: each try draws twice and keeps its tile if it
/// takes, until `count` tiles are kept or 200 tries are made. Gives the kept
/// tiles and the final state.
pub open spec fn resource_tries(
    g0: Grid,
    occ: Seq<(i32, i32)>,
    cx: int,
    cy: int,
    base: int,
    r_min: int,
    span: int,
    count: int,
    st: u32,
    out: Seq<(u32, u32)>,
    tries: int,
) -> (Seq<(u32, u32)>, u32)
    decreases 200 - tries,
{
    if out.len() < count && tries < 200 {
        let jv = xorshift(st);
        let rv = xorshift(jv);
        let t = try_tile(cx, cy, base, r_min, span, jv, rv);
        resource_tries(
            g0,
            occ,
            cx,
            cy,
            base,
            r_min,
            span,
            count,
            rv,
            if tile_takes(g0, occ, out, t) {
                out.push((t.0 as u32, t.1 as u32))
            } else {
                out
            },
            tries + 1,
        )
    } else {
        (out, st)
    }
}

/// The resource cluster around `(cx, cy)` on grid `g0`, with occupied tiles
/// `occ` and generator state `st`: its tiles and the final state.
pub open spec fn resource_cluster(
    g0: Grid,
    occ: Seq<(i32, i32)>,
    cx: int,
    cy: int,
    theme: VillageTheme,
    road_dir: Option<(i32, i32)>,
    st: u32,
    r_min: int,
    r_max: int,
) -> (Seq<(u32, u32)>, u32) {
    let s1 = after_count(theme, st);
    resource_tries(
        g0,
        occ,
        cx,
        cy,
        base_slot(road_dir, s1),
        r_min,
        span_of(r_min, r_max),
        resource_target(theme, xorshift(st)),
        after_base(road_dir, s1),
        Seq::empty(),
        0,
    )
}

/// Every direction of the 64-step compass is about 1024 long.
proof fn lemma_dir64_len(k: int)
    requires
        0 <= k < 64,
    ensures
        dir64(k).0 * dir64(k).0 + dir64(k).1 * dir64(k).1 <= 1_049_800,
{
    let r = k % 16;
    let c = cos_quarter(r);
    let s = cos_quarter(16 - r);
    assert(c * c + s * s <= 1_049_800) by {
        if r == 0 {
        } else if r == 1 {
        } else if r == 2 {
        } else if r == 3 {
        } else if r == 4 {
        } else if r == 5 {
        } else if r == 6 {
        } else if r == 7 {
        } else if r == 8 {
        } else if r == 9 {
        } else if r == 10 {
        } else if r == 11 {
        } else if r == 12 {
        } else if r == 13 {
        } else if r == 14 {
        } else {
            assert(r == 15);
        }
    }
    let d = dir64(k);
    assert(d.0 * d.0 + d.1 * d.1 == c * c + s * s) by (nonlinear_arith)
        requires
            d == (c, s) || d == (-s, c) || d == (-c, -s) || d == (s, -c),
    ;
}

/// Rounding a shifted value loses at most half a step.
proof fn lemma_round_shift20_abs(v: int)
    ensures
        v >= 0 ==> 0 <= round_shift20(v) && round_shift20(v) * 1_048_576 <= v + 524_288,
        v < 0 ==> round_shift20(v) <= 0 && -round_shift20(v) * 1_048_576 <= -v + 524_288,
{
}

/// A direction of length about 1024 scaled by `rad <= rm` and rounded lands
/// within `r` of the origin, when the constants leave room for the rounding.
proof fn lemma_round_pair_in_disk(d0: int, d1: int, rad: int, rm: int, k: int, r: int)
    requires
        d0 * d0 + d1 * d1 <= 1_049_800,
        0 <= rad <= rm,
        0 <= k,
        2 * (rm * rm * 1_049_800) <= k * k * 1_099_511_627_776,
        rm * rm * 1_049_800 + k * 1_099_511_627_776 + 549_755_813_888 < (r * r + 1)
            * 1_099_511_627_776,
    ensures
        round_shift20(d0 * rad) * round_shift20(d0 * rad) + round_shift20(d1 * rad)
            * round_shift20(d1 * rad) <= r * r,
{
    let a0 = if d0 >= 0 { d0 } else { -d0 };
    let a1 = if d1 >= 0 { d1 } else { -d1 };
    let a = a0 * rad;
    let b = a1 * rad;
    let x = round_shift20(d0 * rad);
    let y = round_shift20(d1 * rad);
    let ax = if x >= 0 { x } else { -x };
    let ay = if y >= 0 { y } else { -y };
    lemma_round_shift20_abs(d0 * rad);
    lemma_round_shift20_abs(d1 * rad);
    assert(d0 * rad >= 0 ==> d0 * rad == a && x == ax) by (nonlinear_arith)
        requires
            rad >= 0,
            a == a0 * rad,
            a0 == (if d0 >= 0 { d0 } else { -d0 }),
            d0 * rad >= 0 ==> 0 <= x,
            ax == (if x >= 0 { x } else { -x }),
    ;
    assert(d0 * rad < 0 ==> -(d0 * rad) == a && -x == ax) by (nonlinear_arith)
        requires
            rad >= 0,
            a == a0 * rad,
            a0 == (if d0 >= 0 { d0 } else { -d0 }),
            d0 * rad < 0 ==> x <= 0,
            ax == (if x >= 0 { x } else { -x }),
    ;
    assert(d1 * rad >= 0 ==> d1 * rad == b && y == ay) by (nonlinear_arith)
        requires
            rad >= 0,
            b == a1 * rad,
            a1 == (if d1 >= 0 { d1 } else { -d1 }),
            d1 * rad >= 0 ==> 0 <= y,
            ay == (if y >= 0 { y } else { -y }),
    ;
    assert(d1 * rad < 0 ==> -(d1 * rad) == b && -y == ay) by (nonlinear_arith)
        requires
            rad >= 0,
            b == a1 * rad,
            a1 == (if d1 >= 0 { d1 } else { -d1 }),
            d1 * rad < 0 ==> y <= 0,
            ay == (if y >= 0 { y } else { -y }),
    ;
    assert(0 <= ax * 1_048_576 <= a + 524_288);
    assert(0 <= ay * 1_048_576 <= b + 524_288);
    assert(ax * ax * 1_099_511_627_776 <= (a + 524_288) * (a + 524_288)) by (nonlinear_arith)
        requires
            0 <= ax * 1_048_576 <= a + 524_288,
    ;
    assert(ay * ay * 1_099_511_627_776 <= (b + 524_288) * (b + 524_288)) by (nonlinear_arith)
        requires
            0 <= ay * 1_048_576 <= b + 524_288,
    ;
    assert(a0 * a0 == d0 * d0 && a1 * a1 == d1 * d1) by (nonlinear_arith)
        requires
            a0 == (if d0 >= 0 { d0 } else { -d0 }),
            a1 == (if d1 >= 0 { d1 } else { -d1 }),
    ;
    assert(a * a + b * b <= rm * rm * 1_049_800) by (nonlinear_arith)
        requires
            a == a0 * rad,
            b == a1 * rad,
            a0 * a0 == d0 * d0,
            a1 * a1 == d1 * d1,
            d0 * d0 + d1 * d1 <= 1_049_800,
            0 <= rad <= rm,
    ;
    assert(a >= 0 && b >= 0) by (nonlinear_arith)
        requires
            a == a0 * rad,
            b == a1 * rad,
            a0 >= 0,
            a1 >= 0,
            rad >= 0,
    ;
    assert((a + b) * (a + b) <= 2 * (a * a + b * b)) by (nonlinear_arith);
    assert(a + b <= k * 1_048_576) by (nonlinear_arith)
        requires
            (a + b) * (a + b) <= k * k * 1_099_511_627_776,
            a + b >= 0,
            k >= 0,
    ;
    assert((ax * ax + ay * ay) * 1_099_511_627_776 < (r * r + 1) * 1_099_511_627_776)
        by (nonlinear_arith)
        requires
            ax * ax * 1_099_511_627_776 <= (a + 524_288) * (a + 524_288),
            ay * ay * 1_099_511_627_776 <= (b + 524_288) * (b + 524_288),
            a * a + b * b <= rm * rm * 1_049_800,
            a + b <= k * 1_048_576,
            rm * rm * 1_049_800 + k * 1_099_511_627_776 + 549_755_813_888 < (r * r + 1)
                * 1_099_511_627_776,
    ;
    assert(x * x == ax * ax && y * y == ay * ay) by (nonlinear_arith)
        requires
            ax == (if x >= 0 { x } else { -x }),
            ay == (if y >= 0 { y } else { -y }),
    ;
    assert(ax * ax + ay * ay < r * r + 1) by (nonlinear_arith)
        requires
            (ax * ax + ay * ay) * 1_099_511_627_776 < (r * r + 1) * 1_099_511_627_776,
    ;
}

/// Every try of a village cluster (radii 7 to 12) lands within the village
/// clearing of radius 13, and every try of a capital's cluster (radii 18 to
/// 20) within its clearing of radius 21.
proof fn lemma_try_tile_in_disk(
    cx: int,
    cy: int,
    base: int,
    r_min: int,
    span: int,
    jv: u32,
    rv: u32,
    r: int,
)
    requires
        (r_min == 7 && span == 5 && r == 13) || (r_min == 18 && span == 2 && r == 21),
    ensures
        in_disk(
            cx,
            cy,
            r,
            try_tile(cx, cy, base, r_min, span, jv, rv).0,
            try_tile(cx, cy, base, r_min, span, jv, rv).1,
        ),
{
    let slot = (base + 50 + (jv % 1000) * 29 / 1000) % 64;
    let rad = r_min * 1024 + (rv % 1000) * 1024 * span / 1000;
    lemma_dir64_len(slot);
    let d = dir64(slot);
    let rvm = rv % 1000;
    if r_min == 7 {
        assert(0 <= rad <= 12287) by (nonlinear_arith)
            requires
                rad == 7 * 1024 + rvm * 1024 * 5 / 1000,
                0 <= rvm < 1000,
        ;
        lemma_round_pair_in_disk(d.0, d.1, rad, 12287, 17, 13);
    } else {
        assert(0 <= rad <= 20477) by (nonlinear_arith)
            requires
                rad == 18 * 1024 + rvm * 1024 * 2 / 1000,
                0 <= rvm < 1000,
        ;
        lemma_round_pair_in_disk(d.0, d.1, rad, 20477, 29, 21);
    }
}

/// The tiles a cluster keeps all lie in the clearing its tries land in.
proof fn lemma_tries_in_disk(
    g0: Grid,
    occ: Seq<(i32, i32)>,
    cx: int,
    cy: int,
    base: int,
    r_min: int,
    span: int,
    count: int,
    st: u32,
    out: Seq<(u32, u32)>,
    tries: int,
    r: int,
)
    requires
        (r_min == 7 && span == 5 && r == 13) || (r_min == 18 && span == 2 && r == 21),
        forall|i: int|
            0 <= i < out.len() ==> in_disk(cx, cy, r, (#[trigger] out[i]).0 as int, out[i].1 as int),
    ensures
        forall|i: int|
            0 <= i < resource_tries(g0, occ, cx, cy, base, r_min, span, count, st, out, tries).0.len()
                ==> in_disk(
                cx,
                cy,
                r,
                (#[trigger] resource_tries(g0, occ, cx, cy, base, r_min, span, count, st, out, tries).0[i]).0 as int,
                resource_tries(g0, occ, cx, cy, base, r_min, span, count, st, out, tries).0[i].1 as int,
            ),
    decreases 200 - tries,
{
    if out.len() < count && tries < 200 {
        let jv = xorshift(st);
        let rv = xorshift(jv);
        let t = try_tile(cx, cy, base, r_min, span, jv, rv);
        lemma_try_tile_in_disk(cx, cy, base, r_min, span, jv, rv, r);
        if tile_takes(g0, occ, out, t) {
            let out2 = out.push((t.0 as u32, t.1 as u32));
            assert(0 <= t.0 < g0.width && 0 <= t.1 < g0.height);
            assert((t.0 as u32) as int == t.0 && (t.1 as u32) as int == t.1);
            assert(in_disk(cx, cy, r, t.0, t.1));
            assert forall|i: int| 0 <= i < out2.len() implies in_disk(
                cx,
                cy,
                r,
                (#[trigger] out2[i]).0 as int,
                out2[i].1 as int,
            ) by {
                if i < out.len() {
                    assert(out2[i] == out[i]);
                } else {
                    assert(out2[i] == (t.0 as u32, t.1 as u32));
                }
            }
            lemma_tries_in_disk(g0, occ, cx, cy, base, r_min, span, count, rv, out2, tries + 1, r);
            assert(resource_tries(g0, occ, cx, cy, base, r_min, span, count, st, out, tries)
                == resource_tries(g0, occ, cx, cy, base, r_min, span, count, rv, out2, tries + 1));
        } else {
            lemma_tries_in_disk(g0, occ, cx, cy, base, r_min, span, count, rv, out, tries + 1, r);
            assert(resource_tries(g0, occ, cx, cy, base, r_min, span, count, st, out, tries)
                == resource_tries(g0, occ, cx, cy, base, r_min, span, count, rv, out, tries + 1));
        }
    }
}

/// Radius of the ground cleared around a settlement of `tier`.
pub open spec fn clear_radius(tier: SettlementTier) -> int {
    if tier == SettlementTier::City {
        crate::building::BASE_BAND_RADIUS + 4
    } else {
        VILLAGE_CLEAR_RADIUS as int
    }
}

/// A village's resource cluster: on the ring from the village ring's inner
/// radius out to just inside its cleared ground.
fn place_resources(
    grid: &mut Grid,
    cx: i32,
    cy: i32,
    theme: VillageTheme,
    road_dir: Option<(i32, i32)>,
    occupied: &mut Vec<(i32, i32)>,
    rng: &mut Rng,
) -> (out: Vec<(u32, u32)>)
    requires
        old(grid).wf(),
        0 <= cx < MAX_SIDE,
        0 <= cy < MAX_SIDE,
        occupied_ok(old(occupied)@),
        road_dir matches Some(v) ==> -100_000 <= v.0 <= 100_000 && -100_000 <= v.1 <= 100_000,
    ensures
        only_groves(*old(grid), *final(grid)),
        out@.len() <= resource_target(theme, xorshift(old(rng).state)),
        forall|i: int| 0 <= i < out@.len() ==> resource_ok(*old(grid), old(occupied)@, #[trigger] out@[i]),
        forall|i: int, j: int| 0 <= i < j < out@.len() ==> out@[i] != out@[j],
        forall|x: int, y: int|
            #![trigger final(grid).tile(x, y)]
            final(grid).in_grid(x, y) && final(grid).tile(x, y) != old(grid).tile(x, y) ==> theme
                == VillageTheme::Wood && out@.contains((x as u32, y as u32)),
        final(occupied)@ == old(occupied)@ + as_tiles(out@),
        occupied_ok(final(occupied)@),
        out@ == resource_cluster(
            *old(grid),
            old(occupied)@,
            cx as int,
            cy as int,
            theme,
            road_dir,
            old(rng).state,
            VILLAGE_RING_MIN as int,
            VILLAGE_CLEAR_RADIUS - 1,
        ).0,
        final(rng).state == resource_cluster(
            *old(grid),
            old(occupied)@,
            cx as int,
            cy as int,
            theme,
            road_dir,
            old(rng).state,
            VILLAGE_RING_MIN as int,
            VILLAGE_CLEAR_RADIUS - 1,
        ).1,
        theme == VillageTheme::Wood ==> forall|i: int|
            0 <= i < out@.len() ==> final(grid).tile((#[trigger] out@[i]).0 as int, out@[i].1 as int)
                == TileKind::Forest,
{
    place_resources_ring(
        grid,
        cx,
        cy,
        theme,
        road_dir,
        occupied,
        rng,
        VILLAGE_RING_MIN as i32,
        (VILLAGE_CLEAR_RADIUS - 1) as i32,
    )
}

/// Place the resource cluster on the arc away from the road: up to the
/// theme's target count of distinct grass tiles, flat, not touching
/// anything occupied, at jittered directions within 80° of the base
/// direction and radii in `[r_min, r_max]`; at most 200 tries. Wood groves
/// are planted as forest. The tiles are then marked occupied.
fn place_resources_ring(
    grid: &mut Grid,
    cx: i32,
    cy: i32,
    theme: VillageTheme,
    road_dir: Option<(i32, i32)>,
    occupied: &mut Vec<(i32, i32)>,
    rng: &mut Rng,
    r_min: i32,
    r_max: i32,
) -> (out: Vec<(u32, u32)>)
    requires
        old(grid).wf(),
        0 <= cx < MAX_SIDE,
        0 <= cy < MAX_SIDE,
        0 <= r_min <= r_max <= 32,
        occupied_ok(old(occupied)@),
        road_dir matches Some(v) ==> -100_000 <= v.0 <= 100_000 && -100_000 <= v.1 <= 100_000,
    ensures
        only_groves(*old(grid), *final(grid)),
        out@.len() <= resource_target(theme, xorshift(old(rng).state)),
        forall|i: int| 0 <= i < out@.len() ==> resource_ok(*old(grid), old(occupied)@, #[trigger] out@[i]),
        forall|i: int, j: int| 0 <= i < j < out@.len() ==> out@[i] != out@[j],
        forall|x: int, y: int|
            #![trigger final(grid).tile(x, y)]
            final(grid).in_grid(x, y) && final(grid).tile(x, y) != old(grid).tile(x, y) ==> theme
                == VillageTheme::Wood && out@.contains((x as u32, y as u32)),
        final(occupied)@ == old(occupied)@ + as_tiles(out@),
        occupied_ok(final(occupied)@),
        out@ == resource_cluster(
            *old(grid),
            old(occupied)@,
            cx as int,
            cy as int,
            theme,
            road_dir,
            old(rng).state,
            r_min as int,
            r_max as int,
        ).0,
        final(rng).state == resource_cluster(
            *old(grid),
            old(occupied)@,
            cx as int,
            cy as int,
            theme,
            road_dir,
            old(rng).state,
            r_min as int,
            r_max as int,
        ).1,
        theme == VillageTheme::Wood ==> forall|i: int|
            0 <= i < out@.len() ==> final(grid).tile((#[trigger] out@[i]).0 as int, out@[i].1 as int)
                == TileKind::Forest,
{
    let ghost g0 = *grid;
    let ghost occ0 = occupied@;
    let count: u32 = match theme {
        VillageTheme::Gold => 3 + rng.next() % 3,
        VillageTheme::Wood => 4 + rng.next() % 3,
        VillageTheme::Meat => 4,
    };
    proof {
        assert(count <= resource_target(theme, xorshift(old(rng).state)));
    }
    let ghost s1 = rng.state;
    proof {
        assert(s1 == after_count(theme, old(rng).state));
        assert(count == resource_target(theme, xorshift(old(rng).state)));
    }
    let base: u32 = match road_dir {
        Some((sx, sy)) => best_slot_exec(-sx, -sy),
        None => (rng.next() % ANGLES) * 4,
    };
    proof {
        if let Some(v) = road_dir {
            let k = choose|k: int| #[trigger] best_slot((-v.0 as int, -v.1 as int), k);
            lemma_best_slot_unique((-v.0 as int, -v.1 as int), k, base as int);
        }
        assert(base == base_slot(road_dir, s1));
        assert(rng.state == after_base(road_dir, s1));
    }
    let span: i64 = if r_max - r_min > 1 {
        (r_max - r_min) as i64
    } else {
        1
    };
    let mut out: Vec<(u32, u32)> = Vec::new();
    let mut tries: u32 = 0;
    proof {
        assert(out@ =~= Seq::<(u32, u32)>::empty());
    }
    while (out.len() as u32) < count && tries < 200
        invariant
            resource_tries(
                g0,
                occ0,
                cx as int,
                cy as int,
                base as int,
                r_min as int,
                span as int,
                count as int,
                rng.state,
                out@,
                tries as int,
            ) == resource_cluster(
                g0,
                occ0,
                cx as int,
                cy as int,
                theme,
                road_dir,
                old(rng).state,
                r_min as int,
                r_max as int,
            ),
            span == span_of(r_min as int, r_max as int),
            theme == VillageTheme::Wood ==> forall|i: int|
                0 <= i < out@.len() ==> grid.tile((#[trigger] out@[i]).0 as int, out@[i].1 as int)
                    == TileKind::Forest,
            grid.wf(),
            g0.wf(),
            occupied@ == occ0,
            occupied_ok(occ0),
            0 <= cx < MAX_SIDE,
            0 <= cy < MAX_SIDE,
            0 <= r_min <= r_max <= 32,
            1 <= span <= 32,
            base < 64,
            count <= 6,
            out@.len() <= count,
            only_groves(g0, *grid),
            forall|i: int| 0 <= i < out@.len() ==> resource_ok(g0, occ0, #[trigger] out@[i]),
            forall|i: int, j: int| 0 <= i < j < out@.len() ==> out@[i] != out@[j],
            forall|x: int, y: int|
                #![trigger grid.tile(x, y)]
                grid.in_grid(x, y) && grid.tile(x, y) != g0.tile(x, y) ==> theme == VillageTheme::Wood
                    && out@.contains((x as u32, y as u32)),
        decreases 200 - tries,
    {
        let ghost st_b = rng.state;
        let ghost out_b = out@;
        let ghost grid_b = *grid;
        tries = tries + 1;
        let jv = rng.next();
        let slot = (base + 50 + (jv % 1000) * 29 / 1000) % 64;
        let rv = rng.next();
        proof {
            assert((rv % 1000) * 1024 * span <= 999 * 1024 * 32) by (nonlinear_arith)
                requires
                    0 <= rv % 1000 <= 999,
                    1 <= span <= 32,
            ;
            assert((rv % 1000) * 1024 * span >= 0) by (nonlinear_arith)
                requires
                    0 <= rv % 1000 <= 999,
                    1 <= span <= 32,
            ;
        }
        let rad: i64 = r_min as i64 * 1024 + (rv % 1000) as i64 * 1024 * span / 1000;
        let (dx, dy) = dir64_exec(slot);
        proof {
            assert(0 <= rad <= 64 * 1024);
            assert(-1024 * 65536 <= dx * rad <= 1024 * 65536) by (nonlinear_arith)
                requires
                    -1024 <= dx <= 1024,
                    0 <= rad <= 65536,
            ;
            assert(-1024 * 65536 <= dy * rad <= 1024 * 65536) by (nonlinear_arith)
                requires
                    -1024 <= dy <= 1024,
                    0 <= rad <= 65536,
            ;
        }
        let ox = round_shift20_exec(dx as i64 * rad);
        let oy = round_shift20_exec(dy as i64 * rad);
        proof {
            assert(-100 <= ox <= 100 && -100 <= oy <= 100);
        }
        let x = cx + ox;
        let y = cy + oy;
        if grid.in_bounds(x, y) {
            let ux = x as u32;
            let uy = y as u32;
            if grid.get(ux, uy) == TileKind::Grass && grid.elevation(ux, uy) == 0 && !is_near_occupied(
                occupied,
                x,
                y,
                1,
            ) && !contains_tile(&out, (ux, uy)) {
                let ghost gb = *grid;
                let ghost ob = out@;
                proof {
                    assert(g0.tile(x as int, y as int) == TileKind::Grass) by {
                        assert(gb.tile(x as int, y as int) == g0.tile(x as int, y as int) || gb.tile(
                            x as int,
                            y as int,
                        ) == TileKind::Forest);
                    }
                }
                if theme == VillageTheme::Wood {
                    grid.set(ux, uy, TileKind::Forest);
                }
                out.push((ux, uy));
                proof {
                    assert(out@ =~= ob.push((ux, uy)));
                    assert forall|x2: int, y2: int|
                        #![trigger grid.tile(x2, y2)]
                        grid.in_grid(x2, y2) implies grid.tile(x2, y2) == g0.tile(x2, y2) || (g0.tile(
                            x2,
                            y2,
                        ) == TileKind::Grass && grid.tile(x2, y2) == TileKind::Forest) by {
                        crate::grid::lemma_index_distinct(gb, x2, y2, x as int, y as int);
                        assert(gb.tile(x2, y2) == g0.tile(x2, y2) || (g0.tile(x2, y2) == TileKind::Grass
                            && gb.tile(x2, y2) == TileKind::Forest));
                    }
                    assert forall|x2: int, y2: int|
                        #![trigger grid.tile(x2, y2)]
                        grid.in_grid(x2, y2) && grid.tile(x2, y2) != g0.tile(x2, y2) implies theme
                            == VillageTheme::Wood && out@.contains((x2 as u32, y2 as u32)) by {
                        crate::grid::lemma_index_distinct(gb, x2, y2, x as int, y as int);
                        if x2 == x && y2 == y {
                            assert(out@[ob.len() as int] == (ux, uy));
                        } else {
                            assert(gb.tile(x2, y2) == grid.tile(x2, y2));
                            let k = choose|k: int| 0 <= k < ob.len() && ob[k] == (x2 as u32, y2 as u32);
                            assert(out@[k] == ob[k]);
                        }
                    }
                    assert forall|i: int, j: int| 0 <= i < j < out@.len() implies out@[i] != out@[j] by {
                        if j == ob.len() {
                            assert(!ob.contains((ux, uy)));
                            assert(out@[i] == ob[i]);
                        }
                    }
                    assert forall|i: int| 0 <= i < out@.len() implies resource_ok(
                        g0,
                        occ0,
                        #[trigger] out@[i],
                    ) by {
                        if i < ob.len() {
                            assert(out@[i] == ob[i]);
                        } else {
                            assert(gb.elev(x as int, y as int) == g0.elev(x as int, y as int));
                        }
                    }
                    assert forall|i: int|
                        0 <= i < out@.len() && theme == VillageTheme::Wood implies grid.tile(
                        (#[trigger] out@[i]).0 as int,
                        out@[i].1 as int,
                    ) == TileKind::Forest by {
                        if i < ob.len() {
                            assert(out@[i] == ob[i]);
                            assert(resource_ok(g0, occ0, ob[i]));
                            crate::grid::lemma_index_distinct(
                                gb,
                                ob[i].0 as int,
                                ob[i].1 as int,
                                x as int,
                                y as int,
                            );
                            assert(gb.tile(ob[i].0 as int, ob[i].1 as int) == TileKind::Forest);
                        } else {
                            assert(out@[i] == (ux, uy));
                            crate::grid::lemma_index_distinct(gb, x as int, y as int, x as int, y as int);
                            assert(grid.tile(x as int, y as int) == TileKind::Forest);
                        }
                    }
                }
            }
        }
        proof {
            let t = try_tile(cx as int, cy as int, base as int, r_min as int, span as int, jv, rv);
            assert(jv == xorshift(st_b));
            assert(rv == xorshift(jv));
            assert(t == (x as int, y as int));
            if tile_takes(g0, occ0, out_b, t) {
                assert(out@ == out_b.push((x as u32, y as u32)));
            } else {
                if g0.in_grid(x as int, y as int) && g0.tile(x as int, y as int) == TileKind::Grass
                    && out@ =~= out_b.push((x as u32, y as u32)) {
                    assert(false);
                }
                if out@.len() != out_b.len() {
                    assert(grid_b.tile(x as int, y as int) == g0.tile(x as int, y as int));
                }
                assert(out@ == out_b);
            }
        }
    }
    // Resources block building placement for later settlements.
    let mut i: usize = 0;
    while i < out.len()
        invariant
            i <= out@.len(),
            occupied_ok(occ0),
            forall|j: int| 0 <= j < out@.len() ==> resource_ok(g0, occ0, #[trigger] out@[j]),
            g0.wf(),
            occupied@ == occ0 + as_tiles(out@).take(i as int),
            occupied_ok(occupied@),
        decreases out@.len() - i,
    {
        let (x, y) = out[i];
        proof {
            assert(resource_ok(g0, occ0, out@[i as int]));
        }
        occupied.push((x as i32, y as i32));
        proof {
            assert(as_tiles(out@).take(i + 1) =~= as_tiles(out@).take(i as int).push(
                (x as i32, y as i32),
            ));
        }
        i = i + 1;
    }
    proof {
        assert(as_tiles(out@).take(out@.len() as int) =~= as_tiles(out@));
    }
    out
}

pub(crate) fn contains_tile(s: &Vec<(u32, u32)>, t: (u32, u32)) -> (r: bool)
    ensures
        r == s@.contains(t),
{
    let mut k: usize = 0;
    while k < s.len()
        invariant
            k <= s@.len(),
            forall|k2: int| 0 <= k2 < k ==> s@[k2] != t,
        decreases s@.len() - k,
    {
        if s[k].0 == t.0 && s[k].1 == t.1 {
            proof {
                assert(s@[k as int] == t);
            }
            return true;
        }
        k = k + 1;
    }
    false
}


// ---------------------------------------------------------------------------
// Settlements
// ---------------------------------------------------------------------------

/// Production kinds a village of `theme` tries, in order: its own building
/// first, then the other two.
pub open spec fn theme_kinds(theme: VillageTheme) -> Seq<BuildingKind> {
    match theme {
        VillageTheme::Gold => seq![BuildingKind::Barracks, BuildingKind::Archery, BuildingKind::Monastery],
        VillageTheme::Wood => seq![BuildingKind::Archery, BuildingKind::Monastery, BuildingKind::Barracks],
        VillageTheme::Meat => seq![BuildingKind::Monastery, BuildingKind::Barracks, BuildingKind::Archery],
    }
}

fn theme_kind(theme: VillageTheme, k: usize) -> (r: BuildingKind)
    requires
        k < 3,
    ensures
        r == theme_kinds(theme)[k as int],
{
    let second = match theme {
        VillageTheme::Gold => BuildingKind::Archery,
        VillageTheme::Wood => BuildingKind::Monastery,
        VillageTheme::Meat => BuildingKind::Barracks,
    };
    let third = match theme {
        VillageTheme::Gold => BuildingKind::Monastery,
        VillageTheme::Wood => BuildingKind::Barracks,
        VillageTheme::Meat => BuildingKind::Archery,
    };
    if k == 0 {
        theme.production_building()
    } else if k == 1 {
        second
    } else {
        third
    }
}

/// A building anchor on grid `g` sits on the grid, off roads and water.
pub open spec fn anchor_clear(g: Grid, pos: (u32, u32)) -> bool {
    &&& g.in_grid(pos.0 as int, pos.1 as int)
    &&& g.tile(pos.0 as int, pos.1 as int) != TileKind::Road
    &&& g.tile(pos.0 as int, pos.1 as int) != TileKind::Water
}

/// Every resource tile of every settlement lies in the grid.
pub open spec fn resources_in_grid(g: Grid, vs: Seq<SettlementSpec>) -> bool {
    forall|k: int, j: int|
        0 <= k < vs.len() && 0 <= j < vs[k].resources@.len() ==> g.in_grid(
            (#[trigger] vs[k].resources@[j]).0 as int,
            vs[k].resources@[j].1 as int,
        )
}

/// Every resource tile of every wood settlement is forest in grid `g`.
pub open spec fn groves_planted(g: Grid, vs: Seq<SettlementSpec>) -> bool {
    forall|k: int, j: int|
        0 <= k < vs.len() && vs[k].theme == VillageTheme::Wood && 0 <= j < vs[k].resources@.len()
            ==> g.tile(
            (#[trigger] vs[k].resources@[j]).0 as int,
            vs[k].resources@[j].1 as int,
        ) == TileKind::Forest
}

/// Planting more groves keeps the forest already planted.
proof fn lemma_groves_kept(g0: Grid, g1: Grid, vs: Seq<SettlementSpec>)
    requires
        groves_planted(g0, vs),
        resources_in_grid(g0, vs),
        only_groves(g0, g1),
    ensures
        groves_planted(g1, vs),
{
    assert forall|k: int, j: int|
        0 <= k < vs.len() && vs[k].theme == VillageTheme::Wood && 0 <= j < vs[k].resources@.len()
            implies g1.tile(
            (#[trigger] vs[k].resources@[j]).0 as int,
            vs[k].resources@[j].1 as int,
        ) == TileKind::Forest by {
        let t = vs[k].resources@[j];
        assert(g0.in_grid(t.0 as int, t.1 as int));
        assert(g1.in_grid(t.0 as int, t.1 as int));
        assert(g1.tile(t.0 as int, t.1 as int) == g0.tile(t.0 as int, t.1 as int) || g1.tile(
            t.0 as int,
            t.1 as int,
        ) == TileKind::Forest);
    }
}

/// Every house and production anchor of the settlement is clear on `g`.
pub open spec fn anchors_clear(g: Grid, sp: SettlementSpec) -> bool {
    &&& forall|i: int| 0 <= i < sp.houses@.len() ==> anchor_clear(g, #[trigger] sp.houses@[i])
    &&& forall|i: int| 0 <= i < sp.production@.len() ==> anchor_clear(g, (#[trigger] sp.production@[i]).0)
}

/// A fitting building's anchor is clear.
proof fn lemma_fit_anchor(g: Grid, kind: BuildingKind, x: int, y: int, occ: Seq<(i32, i32)>)
    requires
        spec_fits(g, kind, x, y, occ),
        -(MAX_SIDE as int) <= x <= 2 * MAX_SIDE,
        -(MAX_SIDE as int) <= y <= 2 * MAX_SIDE,
    ensures
        g.in_grid(x, y),
        g.tile(x, y) != TileKind::Road,
        g.tile(x, y) != TileKind::Water,
{
    reveal(spec_block);
    let b = spec_block(kind, x, y);
    let last = b.len() - 1;
    assert(b[last] == (x as i32, y as i32));
    assert(apron_ok(g, b[last].0 as int, b[last].1 as int));
    assert(g.tile(x, y) != TileKind::Road);
}

/// A clear anchor stays clear when only groves are planted.
proof fn lemma_anchor_groves(g0: Grid, g1: Grid, pos: (u32, u32))
    requires
        anchor_clear(g0, pos),
        only_groves(g0, g1),
    ensures
        anchor_clear(g1, pos),
{
    assert(g1.tile(pos.0 as int, pos.1 as int) == g0.tile(pos.0 as int, pos.1 as int) || g1.tile(
        pos.0 as int,
        pos.1 as int,
    ) == TileKind::Forest);
}

proof fn lemma_groves_trans(g0: Grid, g1: Grid, g2: Grid)
    requires
        only_groves(g0, g1),
        only_groves(g1, g2),
    ensures
        only_groves(g0, g2),
{
    assert forall|x: int, y: int|
        #![trigger g2.tile(x, y)]
        g2.in_grid(x, y) implies g2.tile(x, y) == g0.tile(x, y) || (g0.tile(x, y) == TileKind::Grass
            && g2.tile(x, y) == TileKind::Forest) by {
        assert(g1.tile(x, y) == g0.tile(x, y) || (g0.tile(x, y) == TileKind::Grass && g1.tile(x, y)
            == TileKind::Forest));
    }
}

/// Ring directions in order, before shuffling.
pub open spec fn ordered_slots() -> Seq<u32> {
    Seq::new(ANGLES as nat, |j: int| j as u32)
}

/// Order in which a settlement planned from generator state `s0` tries
/// the ring directions.
pub open spec fn ring_order(s0: u32) -> Seq<u32> {
    shuffled(ordered_slots(), s0, ANGLES - 1).0
}

/// The roll that sets the house count of a settlement planned from
/// generator state `s0`.
pub open spec fn house_roll(s0: u32) -> u32 {
    xorshift(shuffled(ordered_slots(), s0, ANGLES - 1).1)
}

/// The two center cells every settlement keeps free.
pub open spec fn center_cells(cx: u32, cy: u32) -> Seq<(i32, i32)> {
    seq![(cx as i32, cy as i32), (cx as i32, (cy - 1) as i32)]
}

/// Cells claimed by the planned production buildings, in order.
pub open spec fn production_blocks(ps: Seq<((u32, u32), BuildingKind)>) -> Seq<(i32, i32)>
    decreases ps.len(),
{
    if ps.len() == 0 {
        Seq::empty()
    } else {
        production_blocks(ps.drop_last()) + spec_block(
            ps.last().1,
            ps.last().0.0 as int,
            ps.last().0.1 as int,
        )
    }
}

/// Cells claimed by the planned houses, in order.
pub open spec fn house_blocks(hs: Seq<(u32, u32)>) -> Seq<(i32, i32)>
    decreases hs.len(),
{
    if hs.len() == 0 {
        Seq::empty()
    } else {
        house_blocks(hs.drop_last()) + spec_block(
            BuildingKind::House,
            hs.last().0 as int,
            hs.last().1 as int,
        )
    }
}

/// `pos` is where a `kind` building first fits on the ring of `(cx, cy)`
/// with `occ` taken.
pub open spec fn first_fit_at(
    g: Grid,
    kind: BuildingKind,
    occ: Seq<(i32, i32)>,
    slots: Seq<u32>,
    cx: int,
    cy: int,
    pos: (u32, u32),
) -> bool {
    exists|s: int, r: int|
        #[trigger] first_fit(g, kind, occ, slots, cx, cy, s, r) && ring_anchor(slots, cx, cy, s, r)
            == (pos.0 as int, pos.1 as int)
}

/// No ring position of `(cx, cy)` takes a `kind` building with `occ` taken.
pub open spec fn ring_full(
    g: Grid,
    kind: BuildingKind,
    occ: Seq<(i32, i32)>,
    slots: Seq<u32>,
    cx: int,
    cy: int,
) -> bool {
    forall|s: int, r: int| ring_pos(slots, s, r) ==> !ring_fits(g, kind, occ, slots, cx, cy, s, r)
}

/// Try to place a building of `kind` on the ring; returns its anchor, clear on `g`.
fn place_building(
    grid: &Grid,
    cx: i32,
    cy: i32,
    kind: BuildingKind,
    occupied: &mut Vec<(i32, i32)>,
    slots: &Vec<u32>,
) -> (r: Option<(u32, u32)>)
    requires
        grid.wf(),
        0 <= cx < MAX_SIDE,
        0 <= cy < MAX_SIDE,
        occupied_ok(old(occupied)@),
        forall|k: int| 0 <= k < slots@.len() ==> #[trigger] slots@[k] < ANGLES,
    ensures
        occupied_ok(final(occupied)@),
        r is None ==> final(occupied)@ == old(occupied)@ && forall|s: int, rr: int|
            ring_pos(slots@, s, rr) ==> !ring_fits(*grid, kind, old(occupied)@, slots@, cx as int, cy as int, s, rr),
        r matches Some(pos) ==> exists|s: int, rr: int|
            #[trigger] first_fit(*grid, kind, old(occupied)@, slots@, cx as int, cy as int, s, rr)
                && ring_anchor(slots@, cx as int, cy as int, s, rr) == (pos.0 as int, pos.1 as int)
                && final(occupied)@ == old(occupied)@ + spec_block(kind, pos.0 as int, pos.1 as int),
        r matches Some(pos) ==> anchor_clear(*grid, pos),
{
    let r = place_on_ring(grid, cx, cy, kind, occupied, slots);
    proof {
        if let Some(pos) = r {
            let (sw, rw) = choose|sw: int, rw: int|
                #[trigger] first_fit(*grid, kind, old(occupied)@, slots@, cx as int, cy as int, sw, rw)
                    && ring_anchor(slots@, cx as int, cy as int, sw, rw) == (pos.0 as int, pos.1 as int)
                    && occupied@ == old(occupied)@ + spec_block(kind, pos.0 as int, pos.1 as int);
            lemma_fit_anchor(*grid, kind, pos.0 as int, pos.1 as int, old(occupied)@);
        }
    }
    r
}

/// A ring that takes no `kind` building with `occ` taken takes none with
/// more taken either.
proof fn lemma_ring_full_grows(
    g: Grid,
    kind: BuildingKind,
    occ: Seq<(i32, i32)>,
    more: Seq<(i32, i32)>,
    slots: Seq<u32>,
    cx: int,
    cy: int,
)
    requires
        ring_full(g, kind, occ, slots, cx, cy),
    ensures
        ring_full(g, kind, occ + more, slots, cx, cy),
{
    assert forall|s: int, r: int| ring_pos(slots, s, r) implies !ring_fits(
        g,
        kind,
        occ + more,
        slots,
        cx,
        cy,
        s,
        r,
    ) by {
        assert(!ring_fits(g, kind, occ, slots, cx, cy, s, r));
        let a = ring_anchor(slots, cx, cy, s, r);
        let b = spec_block(kind, a.0, a.1);
        let i = choose|i: int|
            0 <= i < b.len() && !(apron_ok(g, (#[trigger] b[i]).0 as int, b[i].1 as int)
                && !near_occupied(occ, b[i].0 as int, b[i].1 as int, 2));
        if near_occupied(occ, b[i].0 as int, b[i].1 as int, 2) {
            let k = choose|k: int|
                0 <= k < occ.len() && -2 <= (#[trigger] occ[k]).0 - b[i].0 <= 2 && -2 <= occ[k].1
                    - b[i].1 <= 2;
            assert((occ + more)[k] == occ[k]);
        }
    }
}

/// Inner and outer radius of a settlement's resource ring.
pub open spec fn resource_radii(tier: SettlementTier) -> (int, int) {
    if tier == SettlementTier::City {
        (crate::building::BASE_BAND_RADIUS + 1, crate::building::BASE_BAND_RADIUS + 3)
    } else {
        (VILLAGE_RING_MIN as int, VILLAGE_CLEAR_RADIUS - 1)
    }
}

/// Generator state a settlement planned from state `s0` draws its
/// resources from: after the ring shuffle, and for villages the house roll.
pub open spec fn resource_state(tier: SettlementTier, s0: u32) -> u32 {
    if tier == SettlementTier::City {
        shuffled(ordered_slots(), s0, ANGLES - 1).1
    } else {
        house_roll(s0)
    }
}

/// The resource cluster of settlement `sp`, planned around `(cx, cy)` on
/// grid `g` from generator state `s0`: its tiles and the generator state
/// after it.
pub open spec fn settlement_resources(
    g: Grid,
    cx: u32,
    cy: u32,
    tier: SettlementTier,
    theme: VillageTheme,
    s0: u32,
    sp: SettlementSpec,
) -> (Seq<(u32, u32)>, u32) {
    resource_cluster(
        g,
        center_cells(cx, cy) + production_blocks(sp.production@) + house_blocks(sp.houses@),
        cx as int,
        cy as int,
        theme,
        spec_road_direction(g, cx as int, cy as int),
        resource_state(tier, s0),
        resource_radii(tier).0,
        resource_radii(tier).1,
    )
}

/// Most resource tiles a settlement of `theme` gets: 5 gold stones, 6 grove
/// trees or 4 pen tiles.
pub open spec fn resource_cap(theme: VillageTheme) -> int {
    match theme {
        VillageTheme::Gold => 5,
        VillageTheme::Wood => 6,
        VillageTheme::Meat => 4,
    }
}

/// Settlement `sp` at `(cx, cy)` is what planning from generator state `s0`
/// on grid `g0` gives, leaving grid `g1` and state `s1`: production
/// buildings and houses each at the first ring position that fits, the
/// tier's production kinds and house count unless the ring is full, the
/// resource cluster drawn after them, and groves planted on its wood tiles
/// and nowhere else.
#[verifier::opaque]
pub open spec fn settlement_planned(
    g0: Grid,
    g1: Grid,
    cx: u32,
    cy: u32,
    tier: SettlementTier,
    theme: VillageTheme,
    s0: u32,
    s1: u32,
    sp: SettlementSpec,
) -> bool {
    let order = ring_order(s0);
    let occ_p = center_cells(cx, cy) + production_blocks(sp.production@);
    let occ_h = occ_p + house_blocks(sp.houses@);
    &&& sp.tier == tier
    &&& sp.theme == theme
    &&& tier == SettlementTier::City ==> sp.houses@.len() == 0 && sp.production@.len() == 0
    &&& forall|i: int|
        0 <= i < sp.production@.len() ==> first_fit_at(
            g0,
            (#[trigger] sp.production@[i]).1,
            center_cells(cx, cy) + production_blocks(sp.production@.take(i)),
            order,
            cx as int,
            cy as int,
            sp.production@[i].0,
        )
    &&& tier != SettlementTier::City ==> forall|k: int|
        0 <= k < tier.spec_production_count() && !(exists|i: int|
            0 <= i < sp.production@.len() && #[trigger] sp.production@[i].1 == theme_kinds(theme)[k])
            ==> ring_full(g0, #[trigger] theme_kinds(theme)[k], occ_p, order, cx as int, cy as int)
    &&& forall|i: int|
        0 <= i < sp.houses@.len() ==> first_fit_at(
            g0,
            BuildingKind::House,
            occ_p + house_blocks(sp.houses@.take(i)),
            order,
            cx as int,
            cy as int,
            #[trigger] sp.houses@[i],
        )
    &&& tier != SettlementTier::City ==> sp.houses@.len() <= tier.spec_house_count(house_roll(s0))
    &&& tier != SettlementTier::City && sp.houses@.len() < tier.spec_house_count(house_roll(s0))
        ==> ring_full(g0, BuildingKind::House, occ_h, order, cx as int, cy as int)
    &&& sp.resources@ == settlement_resources(g0, cx, cy, tier, theme, s0, sp).0
    &&& s1 == settlement_resources(g0, cx, cy, tier, theme, s0, sp).1
    &&& sp.resources@.len() <= resource_cap(theme)
    &&& forall|i: int, j: int|
        0 <= i < j < sp.resources@.len() ==> #[trigger] sp.resources@[i] != #[trigger] sp.resources@[j]
    &&& forall|i: int|
        0 <= i < sp.resources@.len() ==> {
            let t = #[trigger] sp.resources@[i];
            &&& g0.in_grid(t.0 as int, t.1 as int)
            &&& g0.tile(t.0 as int, t.1 as int) == TileKind::Grass
            &&& g0.elev(t.0 as int, t.1 as int) == 0
        }
    &&& only_groves(g0, g1)
    &&& forall|x: int, y: int|
        #![trigger g1.tile(x, y)]
        g1.in_grid(x, y) && g1.tile(x, y) != g0.tile(x, y) ==> theme == VillageTheme::Wood
            && sp.resources@.contains((x as u32, y as u32))
    &&& theme == VillageTheme::Wood ==> forall|i: int|
        0 <= i < sp.resources@.len() ==> g1.tile(
            (#[trigger] sp.resources@[i]).0 as int,
            sp.resources@[i].1 as int,
        ) == TileKind::Forest
}

/// A village, town or hamlet gets at least two houses and a production
/// building unless its ring has no room left for them.
pub proof fn law_village_livable(
    g0: Grid,
    g1: Grid,
    cx: u32,
    cy: u32,
    tier: SettlementTier,
    theme: VillageTheme,
    s0: u32,
    s1: u32,
    sp: SettlementSpec,
)
    requires
        settlement_planned(g0, g1, cx, cy, tier, theme, s0, s1, sp),
        tier != SettlementTier::City,
    ensures
        sp.houses@.len() >= 2 || ring_full(
            g0,
            BuildingKind::House,
            center_cells(cx, cy) + production_blocks(sp.production@) + house_blocks(sp.houses@),
            ring_order(s0),
            cx as int,
            cy as int,
        ),
        sp.production@.len() >= 1 || ring_full(
            g0,
            theme_kinds(theme)[0],
            center_cells(cx, cy) + production_blocks(sp.production@),
            ring_order(s0),
            cx as int,
            cy as int,
        ),
{
    reveal(settlement_planned);
    assert(tier.spec_house_count(house_roll(s0)) >= 2);
    assert(tier.spec_production_count() >= 1);
    if sp.production@.len() == 0 {
        let k = 0int;
        assert(!(exists|i: int| 0 <= i < sp.production@.len() && #[trigger] sp.production@[i].1
            == theme_kinds(theme)[k]));
        assert(ring_full(
            g0,
            theme_kinds(theme)[k],
            center_cells(cx, cy) + production_blocks(sp.production@),
            ring_order(s0),
            cx as int,
            cy as int,
        ));
    }
}

/// Plan one settlement around `(cx, cy)`: for villages, production
/// buildings from the theme's list (as many as the tier allows), then the
/// tier's house count, drawn from a roll, each on the first ring position
/// that still fits (fewer only once the ring is full); for every tier a
/// resource cluster away from the road, inside the settlement's cleared
/// ground.
#[verifier::spinoff_prover]
#[verifier::rlimit(60)]
pub fn plan_one(
    grid: &mut Grid,
    zone_idx: u8,
    cx: u32,
    cy: u32,
    tier: SettlementTier,
    theme: VillageTheme,
    rng: &mut Rng,
) -> (sp: SettlementSpec)
    requires
        old(grid).wf(),
        cx < MAX_SIDE,
        cy < MAX_SIDE,
    ensures
        sp.zone_idx == zone_idx,
        sp.tier == tier,
        sp.theme == theme,
        tier == SettlementTier::City ==> sp.houses@.len() == 0 && sp.production@.len() == 0,
        sp.production@.len() <= tier.spec_production_count(),
        forall|i: int| 0 <= i < sp.production@.len() ==> theme_kinds(theme).contains(
            (#[trigger] sp.production@[i]).1,
        ),
        anchors_clear(*final(grid), sp),
        only_groves(*old(grid), *final(grid)),
        forall|i: int|
            0 <= i < sp.resources@.len() ==> {
                let t = #[trigger] sp.resources@[i];
                &&& old(grid).in_grid(t.0 as int, t.1 as int)
                &&& old(grid).tile(t.0 as int, t.1 as int) == TileKind::Grass
                &&& old(grid).elev(t.0 as int, t.1 as int) == 0
            },
        forall|i: int, j: int|
            0 <= i < j < sp.production@.len() ==> (#[trigger] sp.production@[i]).1
                != (#[trigger] sp.production@[j]).1,
        forall|i: int|
            0 <= i < sp.production@.len() ==> theme_kinds(theme).take(
                tier.spec_production_count() as int,
            ).contains((#[trigger] sp.production@[i]).1),
        forall|i: int|
            0 <= i < sp.production@.len() ==> first_fit_at(
                *old(grid),
                (#[trigger] sp.production@[i]).1,
                center_cells(cx, cy) + production_blocks(sp.production@.take(i)),
                ring_order(old(rng).state),
                cx as int,
                cy as int,
                sp.production@[i].0,
            ),
        forall|x: int, y: int|
            #![trigger final(grid).tile(x, y)]
            final(grid).in_grid(x, y) && final(grid).tile(x, y) != old(grid).tile(x, y)
                ==> sp.resources@.contains((x as u32, y as u32)),
        theme == VillageTheme::Wood ==> forall|i: int|
            0 <= i < sp.resources@.len() ==> final(grid).tile(
                (#[trigger] sp.resources@[i]).0 as int,
                sp.resources@[i].1 as int,
            ) == TileKind::Forest,
        forall|i: int|
            0 <= i < sp.resources@.len() ==> in_disk(
                cx as int,
                cy as int,
                clear_radius(tier),
                (#[trigger] sp.resources@[i]).0 as int,
                sp.resources@[i].1 as int,
            ),
        tier != SettlementTier::City ==> sp.houses@.len() <= tier.spec_house_count(
            house_roll(old(rng).state),
        ),
        forall|i: int|
            0 <= i < sp.houses@.len() ==> first_fit_at(
                *old(grid),
                BuildingKind::House,
                center_cells(cx, cy) + production_blocks(sp.production@) + house_blocks(
                    sp.houses@.take(i),
                ),
                ring_order(old(rng).state),
                cx as int,
                cy as int,
                #[trigger] sp.houses@[i],
            ),
        tier != SettlementTier::City && sp.houses@.len() < tier.spec_house_count(
            house_roll(old(rng).state),
        ) ==> ring_full(
            *old(grid),
            BuildingKind::House,
            center_cells(cx, cy) + production_blocks(sp.production@) + house_blocks(sp.houses@),
            ring_order(old(rng).state),
            cx as int,
            cy as int,
        ),
        tier != SettlementTier::City ==> forall|k: int|
            0 <= k < tier.spec_production_count() && !(exists|i: int|
                0 <= i < sp.production@.len() && #[trigger] sp.production@[i].1 == theme_kinds(
                    theme,
                )[k]) ==> ring_full(
                *old(grid),
                #[trigger] theme_kinds(theme)[k],
                center_cells(cx, cy) + production_blocks(sp.production@),
                ring_order(old(rng).state),
                cx as int,
                cy as int,
            ),
        sp.resources@ == settlement_resources(*old(grid), cx, cy, tier, theme, old(rng).state, sp).0,
        final(rng).state == settlement_resources(
            *old(grid),
            cx,
            cy,
            tier,
            theme,
            old(rng).state,
            sp,
        ).1,
        settlement_planned(
            *old(grid),
            *final(grid),
            cx,
            cy,
            tier,
            theme,
            old(rng).state,
            final(rng).state,
            sp,
        ),
{
    let ghost g0 = *grid;
    let ghost s0 = rng.state;
    let icx = cx as i32;
    let icy = cy as i32;
    let mut occupied: Vec<(i32, i32)> = Vec::new();
    occupied.push((icx, icy));
    occupied.push((icx, icy - 1));
    let road_dir = road_direction(grid, icx, icy);
    let mut slots: Vec<u32> = Vec::new();
    let mut k: u32 = 0;
    while k < ANGLES
        invariant
            k <= ANGLES,
            slots@.len() == k,
            forall|j: int| 0 <= j < k ==> #[trigger] slots@[j] == j,
        decreases ANGLES - k,
    {
        slots.push(k);
        k = k + 1;
    }
    let ghost ordered = slots@;
    proof {
        assert(ordered =~= ordered_slots());
        assert(occupied@ =~= center_cells(cx, cy));
    }
    rng.shuffle(&mut slots);
    proof {
        broadcast use vstd::seq_lib::group_to_multiset_ensures;
        assert forall|j: int| 0 <= j < slots@.len() implies #[trigger] slots@[j] < ANGLES by {
            assert(slots@.contains(slots@[j]));
            assert(slots@.to_multiset().count(slots@[j]) > 0);
            assert(ordered.to_multiset().count(slots@[j]) > 0);
            assert(ordered.contains(slots@[j]));
        }
    }
    let mut production: Vec<((u32, u32), BuildingKind)> = Vec::new();
    let mut houses: Vec<(u32, u32)> = Vec::new();
    let ghost order = slots@;
    proof {
        assert(order == ring_order(s0));
        assert(production_blocks(production@) =~= Seq::<(i32, i32)>::empty());
        assert(occupied@ =~= center_cells(cx, cy) + production_blocks(production@));
    }
    // Which entry of the theme's list each production building is.
    let ghost mut pk: Seq<int> = Seq::empty();
    if tier != SettlementTier::City {
        let pc = tier.production_count();
        let mut k: usize = 0;
        while k < pc && k < 3
            invariant
                grid.wf(),
                *grid == g0,
                0 <= icx < MAX_SIDE,
                0 <= icy < MAX_SIDE,
                occupied_ok(occupied@),
                forall|j: int| 0 <= j < slots@.len() ==> #[trigger] slots@[j] < ANGLES,
                pc == tier.spec_production_count(),
                k <= 3,
                k <= pc,
                production@.len() <= k,
                forall|i: int| 0 <= i < production@.len() ==> anchor_clear(g0, (#[trigger] production@[i]).0),
                forall|i: int| 0 <= i < production@.len() ==> theme_kinds(theme).contains(
                    (#[trigger] production@[i]).1,
                ),
                slots@ == order,
                icx == cx && icy == cy,
                occupied@ == center_cells(cx, cy) + production_blocks(production@),
                pk.len() == production@.len(),
                forall|i: int|
                    0 <= i < production@.len() ==> 0 <= #[trigger] pk[i] < k && (
                    production@[i]).1 == theme_kinds(theme)[pk[i]],
                forall|i: int, j: int| 0 <= i < j < pk.len() ==> #[trigger] pk[i] < #[trigger] pk[j],
                forall|k2: int|
                    0 <= k2 < k && !pk.contains(k2) ==> ring_full(
                        g0,
                        #[trigger] theme_kinds(theme)[k2],
                        occupied@,
                        order,
                        cx as int,
                        cy as int,
                    ),
                forall|i: int|
                    0 <= i < production@.len() ==> first_fit_at(
                        g0,
                        (#[trigger] production@[i]).1,
                        center_cells(cx, cy) + production_blocks(production@.take(i)),
                        order,
                        cx as int,
                        cy as int,
                        production@[i].0,
                    ),
            decreases 3 - k,
        {
            let kind = theme_kind(theme, k);
            let ghost p0 = production@;
            let ghost occ0 = occupied@;
            let ghost pk0 = pk;
            let placed = place_building(grid, icx, icy, kind, &mut occupied, &slots);
            if let Some(pos) = placed {
                production.push((pos, kind));
                proof {
                    let pk0 = pk;
                    pk = pk.push(k as int);
                    assert(production@.drop_last() == p0);
                    assert(production@.take(p0.len() as int) =~= p0);
                    assert(occupied@ =~= center_cells(cx, cy) + production_blocks(production@));
                    assert forall|i: int|
                        0 <= i < production@.len() implies 0 <= #[trigger] pk[i] < k + 1 && (
                        production@[i]).1 == theme_kinds(theme)[pk[i]] by {
                        if i < p0.len() {
                            assert(production@[i] == p0[i]);
                            assert(pk[i] == pk0[i]);
                        }
                    }
                    assert forall|i: int|
                        0 <= i < production@.len() implies first_fit_at(
                        g0,
                        (#[trigger] production@[i]).1,
                        center_cells(cx, cy) + production_blocks(production@.take(i)),
                        order,
                        cx as int,
                        cy as int,
                        production@[i].0,
                    ) by {
                        if i < p0.len() {
                            assert(production@[i] == p0[i]);
                            assert(production@.take(i) =~= p0.take(i));
                        } else {
                            assert(production@.take(i) =~= p0);
                        }
                    }
                    assert(theme_kinds(theme)[k as int] == kind);
                    assert forall|i: int| 0 <= i < production@.len() implies theme_kinds(
                        theme,
                    ).contains((#[trigger] production@[i]).1) && anchor_clear(g0, production@[i].0) by {
                        if i < p0.len() {
                            assert(production@[i] == p0[i]);
                        }
                    }
                }
            }
            proof {
                let more: Seq<(i32, i32)> = match placed {
                    Some(pos) => spec_block(kind, pos.0 as int, pos.1 as int),
                    None => Seq::empty(),
                };
                assert(occupied@ =~= occ0 + more);
                assert(placed is None ==> pk == pk0);
                assert(placed is Some ==> pk == pk0.push(k as int));
                assert forall|k2: int| 0 <= k2 < k + 1 && !pk.contains(k2) implies ring_full(
                    g0,
                    #[trigger] theme_kinds(theme)[k2],
                    occupied@,
                    order,
                    cx as int,
                    cy as int,
                ) by {
                    if k2 < k {
                        if pk0.contains(k2) {
                            let j = choose|j: int| 0 <= j < pk0.len() && pk0[j] == k2;
                            assert(pk[j] == pk0[j]);
                        }
                        assert(ring_full(g0, theme_kinds(theme)[k2], occ0, order, cx as int, cy as int));
                        lemma_ring_full_grows(g0, theme_kinds(theme)[k2], occ0, more, order, cx as int, cy as int);
                    } else {
                        if placed is Some {
                            assert(pk[pk.len() - 1] == k);
                        }
                        assert(placed is None);
                        assert(theme_kinds(theme)[k2] == kind);
                        assert(ring_full(g0, kind, occ0, order, cx as int, cy as int));
                        lemma_ring_full_grows(g0, kind, occ0, more, order, cx as int, cy as int);
                    }
                }
            }
            k = k + 1;
        }
        proof {
            assert forall|i: int, j: int|
                0 <= i < j < production@.len() implies (#[trigger] production@[i]).1
                != (#[trigger] production@[j]).1 by {
                assert(pk[i] < pk[j]);
                assert(0 <= pk[i] < k && 0 <= pk[j] < k);
            }
            assert forall|i: int| 0 <= i < production@.len() implies theme_kinds(theme).take(
                pc as int,
            ).contains((#[trigger] production@[i]).1) by {
                assert(0 <= pk[i] < k);
                assert(theme_kinds(theme).take(pc as int)[pk[i]] == production@[i].1);
            }
        }
        let roll = rng.next();
        proof {
            assert(roll == house_roll(s0));
        }
        let house_count = tier.house_count(roll);
        let ghost occ_h = occupied@;
        proof {
            assert(house_blocks(houses@) =~= Seq::<(i32, i32)>::empty());
            assert(occupied@ =~= occ_h + house_blocks(houses@));
        }
        let mut hk: u32 = 0;
        while hk < house_count
            invariant
                grid.wf(),
                *grid == g0,
                0 <= icx < MAX_SIDE,
                0 <= icy < MAX_SIDE,
                occupied_ok(occupied@),
                forall|j: int| 0 <= j < slots@.len() ==> #[trigger] slots@[j] < ANGLES,
                hk <= house_count,
                forall|i: int| 0 <= i < houses@.len() ==> anchor_clear(g0, #[trigger] houses@[i]),
                slots@ == order,
                icx == cx && icy == cy,
                occupied@ == occ_h + house_blocks(houses@),
                houses@.len() <= hk,
                houses@.len() == hk || ring_full(
                    g0,
                    BuildingKind::House,
                    occupied@,
                    order,
                    cx as int,
                    cy as int,
                ),
                forall|i: int|
                    0 <= i < houses@.len() ==> first_fit_at(
                        g0,
                        BuildingKind::House,
                        occ_h + house_blocks(houses@.take(i)),
                        order,
                        cx as int,
                        cy as int,
                        #[trigger] houses@[i],
                    ),
            decreases house_count - hk,
        {
            let ghost h0 = houses@;
            let ghost occ0 = occupied@;
            if let Some(pos) = place_building(grid, icx, icy, BuildingKind::House, &mut occupied, &slots) {
                houses.push(pos);
                proof {
                    let (sw, rw) = choose|sw: int, rw: int|
                        #[trigger] first_fit(g0, BuildingKind::House, occ0, order, cx as int, cy as int, sw, rw)
                            && ring_anchor(order, cx as int, cy as int, sw, rw) == (pos.0 as int, pos.1 as int);
                    assert(ring_pos(order, sw, rw));
                    assert(houses@.drop_last() == h0);
                    assert(houses@.take(h0.len() as int) =~= h0);
                    assert(occupied@ =~= occ_h + house_blocks(houses@));
                    assert forall|i: int|
                        0 <= i < houses@.len() implies first_fit_at(
                        g0,
                        BuildingKind::House,
                        occ_h + house_blocks(houses@.take(i)),
                        order,
                        cx as int,
                        cy as int,
                        #[trigger] houses@[i],
                    ) by {
                        if i < h0.len() {
                            assert(houses@[i] == h0[i]);
                            assert(houses@.take(i) =~= h0.take(i));
                        } else {
                            assert(houses@.take(i) =~= h0);
                        }
                    }
                    assert forall|i: int| 0 <= i < houses@.len() implies anchor_clear(
                        g0,
                        #[trigger] houses@[i],
                    ) by {
                        if i < h0.len() {
                            assert(houses@[i] == h0[i]);
                        }
                    }
                }
            }
            hk = hk + 1;
        }
    }
    let ghost g_r = *grid;
    let ghost occ_r = occupied@;
    let ghost st_r = rng.state;
    let resources = if tier == SettlementTier::City {
        place_resources_ring(
            grid,
            icx,
            icy,
            theme,
            road_dir,
            &mut occupied,
            rng,
            crate::building::BASE_BAND_RADIUS + 1,
            crate::building::BASE_BAND_RADIUS + 3,
        )
    } else {
        place_resources(grid, icx, icy, theme, road_dir, &mut occupied, rng)
    };
    proof {
        let r_min: int = if tier == SettlementTier::City {
            18
        } else {
            7
        };
        let r_max: int = if tier == SettlementTier::City {
            20
        } else {
            12
        };
        let s1 = after_count(theme, st_r);
        assert(resources@ == resource_cluster(
            g_r,
            occ_r,
            cx as int,
            cy as int,
            theme,
            road_dir,
            st_r,
            r_min,
            r_max,
        ).0);
        lemma_tries_in_disk(
            g_r,
            occ_r,
            cx as int,
            cy as int,
            base_slot(road_dir, s1),
            r_min,
            span_of(r_min, r_max),
            resource_target(theme, xorshift(st_r)),
            after_base(road_dir, s1),
            Seq::empty(),
            0,
            clear_radius(tier),
        );
    }
    let sp = SettlementSpec { zone_idx, tier, theme, houses, production, resources };
    proof {
        assert forall|i: int| 0 <= i < sp.houses@.len() implies anchor_clear(
            *grid,
            #[trigger] sp.houses@[i],
        ) by {
            lemma_anchor_groves(g0, *grid, sp.houses@[i]);
        }
        assert forall|i: int| 0 <= i < sp.production@.len() implies anchor_clear(
            *grid,
            (#[trigger] sp.production@[i]).0,
        ) by {
            lemma_anchor_groves(g0, *grid, sp.production@[i].0);
        }
    }
    proof {
        assert(settlement_planned(
            g0,
            *grid,
            cx,
            cy,
            tier,
            theme,
            s0,
            rng.state,
            sp,
        )) by {
            reveal(settlement_planned);
        }
    }
    sp
}


/// Some settlement of `specs` works theme `t`.
pub open spec fn theme_worked(specs: Seq<SettlementSpec>, t: VillageTheme) -> bool {
    exists|i: int| 0 <= i < specs.len() && #[trigger] specs[i].theme == t
}

/// The production buildings of a settlement are of distinct kinds, each
/// among the first entries of its theme's list that its tier builds.
pub open spec fn production_from_theme(sp: SettlementSpec) -> bool {
    &&& sp.production@.len() <= sp.tier.spec_production_count()
    &&& forall|i: int, j: int|
        0 <= i < j < sp.production@.len() ==> (#[trigger] sp.production@[i]).1
            != (#[trigger] sp.production@[j]).1
    &&& forall|i: int|
        0 <= i < sp.production@.len() ==> theme_kinds(sp.theme).take(
            sp.tier.spec_production_count() as int,
        ).contains((#[trigger] sp.production@[i]).1)
}

/// Theme pool before shuffling: the three themes, repeated.
pub open spec fn theme_pool() -> Seq<VillageTheme> {
    seq![
        VillageTheme::Gold,
        VillageTheme::Wood,
        VillageTheme::Meat,
        VillageTheme::Gold,
        VillageTheme::Wood,
        VillageTheme::Meat,
        VillageTheme::Gold,
    ]
}

/// Generator state settlement planning for a map seeded `seed` starts from.
pub open spec fn settlement_seed_state(seed: u32) -> u32 {
    let s = vstd::wrapping::u32_specs::wrapping_add(
        vstd::wrapping::u32_specs::wrapping_mul(seed, 0x9E37_79B9u32),
        0x5EEDu32,
    );
    if s == 0 {
        1u32
    } else {
        s
    }
}

/// Themes dealt to the settlements of `n` zones on a map seeded `seed`: the
/// pool cut to `n` entries (3 to 7) and shuffled; with the generator state
/// the shuffle leaves.
pub open spec fn theme_deal(seed: u32, n: int) -> (Seq<VillageTheme>, u32) {
    let keep = if n > 3 {
        n
    } else {
        3
    };
    let pool = theme_pool().take(if keep < 7 {
        keep
    } else {
        7
    });
    shuffled(pool, settlement_seed_state(seed), pool.len() - 1)
}

/// `specs` is what planning the settlements of zones `zc` on grid `g0` for a
/// map seeded `seed` gives, leaving grid `g1`: themes dealt from the
/// shuffled pool in zone order, each settlement planned in turn, from the
/// generator state and grid the one before it left, and every wood
/// settlement's grove standing as forest in `g1`.
#[verifier::opaque]
pub open spec fn settlements_planned(
    g0: Grid,
    g1: Grid,
    zc: Seq<(u32, u32)>,
    seed: u32,
    specs: Seq<SettlementSpec>,
) -> bool {
    &&& forall|i: int|
        0 <= i < specs.len() ==> (#[trigger] specs[i]).theme == theme_deal(
            seed,
            zc.len() as int,
        ).0[i % (theme_deal(seed, zc.len() as int).0.len() as int)]
    &&& exists|states: Seq<u32>, grids: Seq<Grid>|
        {
            &&& states.len() == specs.len() + 1
            &&& grids.len() == specs.len() + 1
            &&& states[0] == theme_deal(seed, zc.len() as int).1
            &&& grids[0] == g0
            &&& grids[specs.len() as int] == g1
            &&& forall|i: int|
                0 <= i < specs.len() ==> settlement_planned(
                    grids[i],
                    grids[i + 1],
                    zc[i].0,
                    zc[i].1,
                    specs[i].tier,
                    specs[i].theme,
                    states[i],
                    states[i + 1],
                    #[trigger] specs[i],
                )
        }
    &&& groves_planted(g1, specs)
}

/// Plan a settlement for every zone, in zone order; a settlement records its
/// zone index as a byte, so indices wrap at 256. Themes come from a shuffled
/// pool holding every theme, so with three or more zones every theme is
/// worked somewhere. Groves are painted into the grid, inside the cleared
/// ground of their settlement; nothing else of it changes.
pub fn plan_settlements(
    grid: &mut Grid,
    zone_centers: &[(u32, u32)],
    tiers: &[SettlementTier],
    seed: u32,
) -> (specs: Vec<SettlementSpec>)
    requires
        old(grid).wf(),
        forall|i: int|
            0 <= i < zone_centers@.len() ==> (#[trigger] zone_centers@[i]).0 < MAX_SIDE
                && zone_centers@[i].1 < MAX_SIDE,
    ensures
        specs@.len() == zone_centers@.len(),
        only_groves(*old(grid), *final(grid)),
        forall|i: int|
            0 <= i < specs@.len() ==> {
                &&& (#[trigger] specs@[i]).zone_idx == i % 256
                &&& specs@[i].tier == if i < tiers@.len() {
                    tiers@[i]
                } else {
                    SettlementTier::Village
                }
                &&& anchors_clear(*final(grid), specs@[i])
                &&& specs@[i].tier == SettlementTier::City ==> specs@[i].houses@.len() == 0
                    && specs@[i].production@.len() == 0
                &&& production_from_theme(specs@[i])
            },
        resources_in_grid(*final(grid), specs@),
        groves_planted(*final(grid), specs@),
        zone_centers@.len() >= 3 ==> forall|t: VillageTheme| #[trigger] theme_worked(specs@, t),
        forall|x: int, y: int|
            #![trigger final(grid).tile(x, y)]
            final(grid).in_grid(x, y) && final(grid).tile(x, y) != old(grid).tile(x, y)
                ==> exists|i: int|
                0 <= i < specs@.len() && #[trigger] in_disk(
                    zone_centers@[i].0 as int,
                    zone_centers@[i].1 as int,
                    clear_radius(specs@[i].tier),
                    x,
                    y,
                ),
        settlements_planned(*old(grid), *final(grid), zone_centers@, seed, specs@),
{
    let ghost g0 = *grid;
    let mut rng = Rng::new(seed.wrapping_mul(0x9E37_79B9).wrapping_add(0x5EED));
    proof {
        assert(rng.state == settlement_seed_state(seed));
    }
    let mut themes: Vec<VillageTheme> = vec![
        VillageTheme::Gold,
        VillageTheme::Wood,
        VillageTheme::Meat,
        VillageTheme::Gold,
        VillageTheme::Wood,
        VillageTheme::Meat,
        VillageTheme::Gold,
    ];
    let n = zone_centers.len();
    let keep = if n > 3 {
        n
    } else {
        3
    };
    themes.truncate(keep);
    let ghost before = themes@;
    proof {
        assert(before.len() >= 3);
        assert(before[0] == VillageTheme::Gold && before[1] == VillageTheme::Wood && before[2]
            == VillageTheme::Meat);
    }
    proof {
        assert(before =~= theme_pool().take(if keep < 7 {
            keep as int
        } else {
            7
        }));
    }
    rng.shuffle(&mut themes);
    let tl = themes.len();
    proof {
        broadcast use vstd::seq_lib::group_to_multiset_ensures;
        assert(themes@ == theme_deal(seed, n as int).0);
        assert(rng.state == theme_deal(seed, n as int).1);
        assert(tl <= 7);
        assert(n >= 3 ==> tl <= n);
        assert forall|t: VillageTheme| #[trigger] themes@.contains(t) by {
            let q: int = match t {
                VillageTheme::Gold => 0,
                VillageTheme::Wood => 1,
                VillageTheme::Meat => 2,
            };
            assert(before[q] == t);
            assert(before.contains(t));
            assert(before.to_multiset().count(t) > 0);
            assert(themes@.to_multiset().count(t) > 0);
        }
    }
    let mut specs: Vec<SettlementSpec> = Vec::new();
    let mut zi: usize = 0;
    let ghost mut states: Seq<u32> = seq![rng.state];
    let ghost mut grids: Seq<Grid> = seq![*grid];
    while zi < n
        invariant
            grid.wf(),
            g0.wf(),
            n == zone_centers@.len(),
            themes@ == theme_deal(seed, n as int).0,
            states.len() == zi + 1,
            grids.len() == zi + 1,
            states[0] == theme_deal(seed, n as int).1,
            grids[0] == g0,
            states[zi as int] == rng.state,
            grids[zi as int] == *grid,
            forall|i: int|
                0 <= i < zi ==> settlement_planned(
                    grids[i],
                    grids[i + 1],
                    zone_centers@[i].0,
                    zone_centers@[i].1,
                    specs@[i].tier,
                    specs@[i].theme,
                    states[i],
                    states[i + 1],
                    #[trigger] specs@[i],
                ),
            forall|i: int|
                0 <= i < zone_centers@.len() ==> (#[trigger] zone_centers@[i]).0 < MAX_SIDE
                    && zone_centers@[i].1 < MAX_SIDE,
            tl == themes@.len(),
            1 <= tl <= 7,
            n >= 3 ==> tl <= n,
            forall|t: VillageTheme| #[trigger] themes@.contains(t),
            zi <= n,
            specs@.len() == zi,
            only_groves(g0, *grid),
            resources_in_grid(g0, specs@),
            groves_planted(*grid, specs@),
            forall|x: int, y: int|
                #![trigger grid.tile(x, y)]
                grid.in_grid(x, y) && grid.tile(x, y) != g0.tile(x, y) ==> exists|i: int|
                    0 <= i < specs@.len() && #[trigger] in_disk(
                        zone_centers@[i].0 as int,
                        zone_centers@[i].1 as int,
                        clear_radius(specs@[i].tier),
                        x,
                        y,
                    ),
            forall|i: int|
                0 <= i < zi ==> {
                    &&& (#[trigger] specs@[i]).zone_idx == i % 256
                    &&& specs@[i].tier == if i < tiers@.len() {
                        tiers@[i]
                    } else {
                        SettlementTier::Village
                    }
                    &&& specs@[i].theme == themes@[i % tl as int]
                    &&& anchors_clear(*grid, specs@[i])
                    &&& specs@[i].tier == SettlementTier::City ==> specs@[i].houses@.len() == 0
                        && specs@[i].production@.len() == 0
                    &&& production_from_theme(specs@[i])
                },
        decreases n - zi,
    {
        let (cx, cy) = zone_centers[zi];
        let tier = if zi < tiers.len() {
            tiers[zi]
        } else {
            SettlementTier::Village
        };
        let theme = themes[zi % tl];
        let ghost g1 = *grid;
        let ghost s0 = specs@;
        let sp = plan_one(grid, (zi % 256) as u8, cx, cy, tier, theme, &mut rng);
        specs.push(sp);
        proof {
            let states0 = states;
            let grids0 = grids;
            states = states.push(rng.state);
            grids = grids.push(*grid);
            assert forall|i: int|
                0 <= i < zi + 1 implies settlement_planned(
                grids[i],
                grids[i + 1],
                zone_centers@[i].0,
                zone_centers@[i].1,
                specs@[i].tier,
                specs@[i].theme,
                states[i],
                states[i + 1],
                #[trigger] specs@[i],
            ) by {
                if i < zi {
                    assert(specs@[i] == s0[i]);
                    assert(grids[i] == grids0[i] && grids[i + 1] == grids0[i + 1]);
                    assert(states[i] == states0[i] && states[i + 1] == states0[i + 1]);
                } else {
                    assert(specs@[i] == sp);
                    assert(zone_centers@[i] == (cx, cy));
                }
            }
            lemma_groves_trans(g0, g1, *grid);
            assert(resources_in_grid(g1, s0)) by {
                assert forall|k: int, j: int|
                    0 <= k < s0.len() && 0 <= j < s0[k].resources@.len() implies g1.in_grid(
                    (#[trigger] s0[k].resources@[j]).0 as int,
                    s0[k].resources@[j].1 as int,
                ) by {
                    assert(g0.in_grid(s0[k].resources@[j].0 as int, s0[k].resources@[j].1 as int));
                }
            }
            lemma_groves_kept(g1, *grid, s0);
            assert(groves_planted(*grid, specs@)) by {
                assert forall|k: int, j: int|
                    0 <= k < specs@.len() && specs@[k].theme == VillageTheme::Wood && 0 <= j
                        < specs@[k].resources@.len() implies grid.tile(
                    (#[trigger] specs@[k].resources@[j]).0 as int,
                    specs@[k].resources@[j].1 as int,
                ) == TileKind::Forest by {
                    if k < zi {
                        assert(specs@[k] == s0[k]);
                    } else {
                        assert(specs@[k] == sp);
                    }
                }
            }
            assert forall|x: int, y: int|
                #![trigger grid.tile(x, y)]
                grid.in_grid(x, y) && grid.tile(x, y) != g0.tile(x, y) implies exists|i: int|
                    0 <= i < specs@.len() && #[trigger] in_disk(
                        zone_centers@[i].0 as int,
                        zone_centers@[i].1 as int,
                        clear_radius(specs@[i].tier),
                        x,
                        y,
                    ) by {
                if grid.tile(x, y) != g1.tile(x, y) {
                    assert(sp.resources@.contains((x as u32, y as u32)));
                    let j = choose|j: int| 0 <= j < sp.resources@.len() && sp.resources@[j] == (
                    x as u32, y as u32);
                    assert(in_disk(cx as int, cy as int, clear_radius(tier), (sp.resources@[j]).0 as int, sp.resources@[j].1 as int));
                    assert(specs@[zi as int] == sp);
                    assert(in_disk(
                        zone_centers@[zi as int].0 as int,
                        zone_centers@[zi as int].1 as int,
                        clear_radius(specs@[zi as int].tier),
                        x,
                        y,
                    ));
                } else {
                    assert(g1.in_grid(x, y));
                    assert(g1.tile(x, y) != g0.tile(x, y));
                    let i = choose|i: int|
                        0 <= i < s0.len() && #[trigger] in_disk(
                            zone_centers@[i].0 as int,
                            zone_centers@[i].1 as int,
                            clear_radius(s0[i].tier),
                            x,
                            y,
                        );
                    assert(specs@[i] == s0[i]);
                }
            }
            assert forall|k: int, j: int|
                0 <= k < specs@.len() && 0 <= j < specs@[k].resources@.len() implies g0.in_grid(
                (#[trigger] specs@[k].resources@[j]).0 as int,
                specs@[k].resources@[j].1 as int,
            ) by {
                if k < zi {
                    assert(specs@[k] == s0[k]);
                } else {
                    assert(specs@[k] == sp);
                    assert(g1.in_grid(sp.resources@[j].0 as int, sp.resources@[j].1 as int));
                }
            }
            assert forall|i: int|
                0 <= i < zi + 1 implies {
                    &&& (#[trigger] specs@[i]).zone_idx == i % 256
                    &&& specs@[i].tier == if i < tiers@.len() {
                        tiers@[i]
                    } else {
                        SettlementTier::Village
                    }
                    &&& specs@[i].theme == themes@[i % tl as int]
                    &&& anchors_clear(*grid, specs@[i])
                    &&& specs@[i].tier == SettlementTier::City ==> specs@[i].houses@.len() == 0
                        && specs@[i].production@.len() == 0
                    &&& production_from_theme(specs@[i])
                } by {
                if i < zi {
                    assert(specs@[i] == s0[i]);
                    let sp_i = s0[i];
                    assert(anchors_clear(g1, sp_i));
                    assert forall|j: int| 0 <= j < sp_i.houses@.len() implies anchor_clear(
                        *grid,
                        #[trigger] sp_i.houses@[j],
                    ) by {
                        lemma_anchor_groves(g1, *grid, sp_i.houses@[j]);
                    }
                    assert forall|j: int| 0 <= j < sp_i.production@.len() implies anchor_clear(
                        *grid,
                        (#[trigger] sp_i.production@[j]).0,
                    ) by {
                        lemma_anchor_groves(g1, *grid, sp_i.production@[j].0);
                    }
                }
            }
        }
        zi = zi + 1;
    }
    proof {
        reveal(settlements_planned);
        assert forall|i: int| 0 <= i < specs@.len() implies (#[trigger] specs@[i]).theme
            == theme_deal(seed, n as int).0[i % (theme_deal(seed, n as int).0.len() as int)] by {
            assert(specs@[i].theme == themes@[i % tl as int]);
        }
        assert(grids[specs@.len() as int] == *grid);
        assert forall|k: int, j: int|
            0 <= k < specs@.len() && 0 <= j < specs@[k].resources@.len() implies grid.in_grid(
            (#[trigger] specs@[k].resources@[j]).0 as int,
            specs@[k].resources@[j].1 as int,
        ) by {
            assert(g0.in_grid(specs@[k].resources@[j].0 as int, specs@[k].resources@[j].1 as int));
        }
        if n >= 3 {
            assert forall|t: VillageTheme| #[trigger] theme_worked(specs@, t) by {
                assert(themes@.contains(t));
                let p = choose|p: int| 0 <= p < tl && themes@[p] == t;
                assert(p % tl as int == p) by {
                    vstd::arithmetic::div_mod::lemma_small_mod(p as nat, tl as nat);
                }
                assert(specs@[p].theme == themes@[p]);
            }
        }
    }
    specs
}

} // verus!
