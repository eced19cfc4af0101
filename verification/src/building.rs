//! Building kinds: sprite metadata, ground footprints, combat stats, which
//! building trains which unit, and the placer that lays out a base while
//! keeping its structures apart.

use vstd::prelude::*;
use crate::grid::BORDER_SIZE;
use crate::unit::{Faction, UnitKind};

verus! {

/// The type of building.
#[derive(Clone, Copy, Debug, PartialEq, Eq, Structural)]
pub enum BuildingKind {
    /// Trains warriors and lancers.
    Barracks,
    /// Trains archers.
    Archery,
    /// Trains monks.
    Monastery,
    /// Defensive; fires like four archers.
    Castle,
    /// Defensive; fires like two archers.
    DefenseTower,
    /// Decorative only.
    House,
}

/// A building on the map as setup places it: kind, owner, anchor tile, the
/// zone whose owner it follows, the unit it trains and its house sprite
/// variant. Attack and training timers are live game state.
#[derive(Clone, Copy, Debug, PartialEq, Eq, Structural)]
pub struct BuildingSite {
    pub kind: BuildingKind,
    pub faction: Faction,
    pub grid_x: u32,
    pub grid_y: u32,
    pub zone_id: Option<u8>,
    pub produces: Option<UnitKind>,
    pub house_variant: u8,
}

/// Buildings sit within this radius of the base center; the map generator
/// clears one tile more.
pub const BASE_BAND_RADIUS: i32 = 17;

impl BuildingKind {
    pub open spec fn spec_sprite_size(self) -> (u32, u32) {
        match self {
            BuildingKind::Barracks => (192u32, 256u32),
            BuildingKind::Archery => (192u32, 256u32),
            BuildingKind::Monastery => (192u32, 320u32),
            BuildingKind::Castle => (320u32, 256u32),
            BuildingKind::DefenseTower => (128u32, 256u32),
            BuildingKind::House => (128u32, 192u32),
        }
    }

    /// Sprite dimensions (width, height) in pixels.
    pub fn sprite_size(self) -> (r: (u32, u32))
        ensures
            r == self.spec_sprite_size(),
    {
        match self {
            BuildingKind::Barracks | BuildingKind::Archery => (192, 256),
            BuildingKind::Monastery => (192, 320),
            BuildingKind::Castle => (320, 256),
            BuildingKind::DefenseTower => (128, 256),
            BuildingKind::House => (128, 192),
        }
    }

    /// Ground footprint offsets `(dx, dy)` relative to the anchor tile: the
    /// visible walls, not the roof or transparent padding.
    pub open spec fn spec_footprint(self) -> Seq<(i32, i32)> {
        match self {
            BuildingKind::Barracks => seq![(-1i32, -1i32), (0i32, -1i32), (1i32, -1i32)],
            BuildingKind::Archery => seq![(-1i32, -1i32), (0i32, -1i32), (1i32, -1i32)],
            BuildingKind::Monastery => seq![(-1i32, -1i32), (0i32, -1i32), (1i32, -1i32)],
            BuildingKind::Castle => seq![
                (-2i32, -1i32),
                (-1i32, -1i32),
                (0i32, -1i32),
                (1i32, -1i32),
                (2i32, -1i32),
            ],
            BuildingKind::DefenseTower => seq![(0i32, -1i32)],
            BuildingKind::House => seq![(0i32, -1i32)],
        }
    }

    pub fn footprint_offsets(self) -> (r: &'static [(i32, i32)])
        ensures
            r@ == self.spec_footprint(),
    {
        match self {
            BuildingKind::Barracks | BuildingKind::Archery | BuildingKind::Monastery => {
                let r: &'static [(i32, i32)] = &[(-1, -1), (0, -1), (1, -1)];
                assert(r@ =~= self.spec_footprint());
                r
            },
            BuildingKind::Castle => {
                let r: &'static [(i32, i32)] = &[(-2, -1), (-1, -1), (0, -1), (1, -1), (2, -1)];
                assert(r@ =~= self.spec_footprint());
                r
            },
            BuildingKind::DefenseTower | BuildingKind::House => {
                let r: &'static [(i32, i32)] = &[(0, -1)];
                assert(r@ =~= self.spec_footprint());
                r
            },
        }
    }

    /// Asset filename of the kind's sprite.
    pub fn asset_filename(self) -> (r: &'static str)
        ensures
            r@ == match self {
                BuildingKind::Barracks => "Barracks.png"@,
                BuildingKind::Archery => "Archery.png"@,
                BuildingKind::Monastery => "Monastery.png"@,
                BuildingKind::Castle => "Castle.png"@,
                BuildingKind::DefenseTower => "Tower.png"@,
                BuildingKind::House => "House1.png"@,
            },
    {
        match self {
            BuildingKind::Barracks => "Barracks.png",
            BuildingKind::Archery => "Archery.png",
            BuildingKind::Monastery => "Monastery.png",
            BuildingKind::Castle => "Castle.png",
            BuildingKind::DefenseTower => "Tower.png",
            BuildingKind::House => "House1.png",
        }
    }

    pub open spec fn spec_is_combat(self) -> bool {
        self == BuildingKind::Castle || self == BuildingKind::DefenseTower
    }

    /// Damage per hit: an archer's two points for combat buildings, else nothing.
    pub fn attack_damage(self) -> (r: i32)
        ensures
            r == if self.spec_is_combat() {
                2i32
            } else {
                0i32
            },
    {
        match self {
            BuildingKind::Castle | BuildingKind::DefenseTower => 2,
            _ => 0,
        }
    }

    /// Whether the kind fires at enemies.
    pub fn is_combat(self) -> (r: bool)
        ensures
            r == self.spec_is_combat(),
    {
        match self {
            BuildingKind::Castle | BuildingKind::DefenseTower => true,
            _ => false,
        }
    }
}

pub open spec fn spec_building_for_unit(kind: UnitKind) -> BuildingKind {
    match kind {
        UnitKind::Warrior => BuildingKind::Barracks,
        UnitKind::Lancer => BuildingKind::Barracks,
        UnitKind::Archer => BuildingKind::Archery,
        UnitKind::Monk => BuildingKind::Monastery,
    }
}

/// Which building trains a given unit kind.
pub fn building_for_unit(kind: UnitKind) -> (b: BuildingKind)
    ensures
        b == spec_building_for_unit(kind),
{
    match kind {
        UnitKind::Warrior | UnitKind::Lancer => BuildingKind::Barracks,
        UnitKind::Archer => BuildingKind::Archery,
        UnitKind::Monk => BuildingKind::Monastery,
    }
}

// ---------------------------------------------------------------------------
// Base placement
// ---------------------------------------------------------------------------

/// Horizontal half-width and vertical range (relative to the anchor) of the
/// cells a building keeps to itself: its footprint plus two clear tiles to
/// the next structure. Castles keep a wide block, production buildings,
/// towers and houses narrow ones so a base's bands fit across its width.
pub open spec fn exclusion_extent(k: BuildingKind) -> (int, int, int) {
    match k {
        BuildingKind::Castle => (4, -3, 2),
        BuildingKind::DefenseTower => (2, -2, 2),
        BuildingKind::House => (2, -2, 1),
        _ => (3, -2, 2),
    }
}

/// Number of cells in the exclusion block of a kind.
pub open spec fn exclusion_len(k: BuildingKind) -> int {
    let (hw, vlo, vhi) = exclusion_extent(k);
    (vhi - vlo + 1) * (2 * hw + 1)
}

/// Cell `i` of the exclusion block of a building anchored at `(bx, by)`,
/// row by row from the top.
pub open spec fn exclusion_cell(k: BuildingKind, bx: int, by: int, i: int) -> (i32, i32) {
    let (hw, vlo, vhi) = exclusion_extent(k);
    let cols = 2 * hw + 1;
    ((bx - hw + i % cols) as i32, (by + vlo + i / cols) as i32)
}

/// The exclusion block of a building anchored at `(bx, by)`, row by row.
pub open spec fn spec_exclusion(k: BuildingKind, bx: int, by: int) -> Seq<(i32, i32)> {
    Seq::new(exclusion_len(k) as nat, |i: int| exclusion_cell(k, bx, by, i))
}

/// Cell `c` lies in the exclusion block of a building anchored at `(bx, by)`.
pub open spec fn in_exclusion(k: BuildingKind, bx: int, by: int, c: (i32, i32)) -> bool {
    let (hw, vlo, vhi) = exclusion_extent(k);
    &&& bx - hw <= c.0 <= bx + hw
    &&& by + vlo <= c.1 <= by + vhi
}

/// A coordinate far enough from the `i32` limits for base placement.
pub open spec fn coord_ok(v: int) -> bool {
    -0x4000_0000 <= v <= 0x4000_0000
}

/// The exclusion block holds exactly the cells of its box.
proof fn lemma_exclusion_contains(k: BuildingKind, bx: int, by: int, c: (i32, i32))
    requires
        coord_ok(bx),
        coord_ok(by),
    ensures
        spec_exclusion(k, bx, by).contains(c) == in_exclusion(k, bx, by, c),
{
    let (hw, vlo, vhi) = exclusion_extent(k);
    let cols = 2 * hw + 1;
    let rows = vhi - vlo + 1;
    let s = spec_exclusion(k, bx, by);
    if in_exclusion(k, bx, by, c) {
        let q = c.1 - by - vlo;
        let r = c.0 - bx + hw;
        let i = q * cols + r;
        vstd::arithmetic::div_mod::lemma_fundamental_div_mod_converse(i, cols, q, r);
        assert(i < rows * cols) by (nonlinear_arith)
            requires
                0 <= q < rows,
                0 <= r < cols,
                i == q * cols + r,
        ;
        assert(0 <= i);
        assert(s[i] == c);
    }
    if s.contains(c) {
        let i = choose|i: int| 0 <= i < s.len() && s[i] == c;
        vstd::arithmetic::div_mod::lemma_fundamental_div_mod(i, cols);
        let q = i / cols;
        let r = i % cols;
        assert(0 <= q < rows) by (nonlinear_arith)
            requires
                0 <= i < rows * cols,
                cols > 0,
                i == cols * q + r,
                0 <= r < cols,
        ;
    }
}

/// The exclusion blocks of two buildings share no cell.
pub open spec fn exclusions_disjoint(a: BuildingSite, b: BuildingSite) -> bool {
    let (ha, la, ua) = exclusion_extent(a.kind);
    let (hb, lb, ub) = exclusion_extent(b.kind);
    ||| a.grid_x + ha < b.grid_x - hb
    ||| b.grid_x + hb < a.grid_x - ha
    ||| a.grid_y + ua < b.grid_y + lb
    ||| b.grid_y + ub < a.grid_y + la
}

/// The exclusion block of a placed building.
pub open spec fn site_exclusion(s: BuildingSite) -> Seq<(i32, i32)> {
    spec_exclusion(s.kind, s.grid_x as int, s.grid_y as int)
}

/// The exclusion blocks of the placed buildings, in placement order.
pub open spec fn occ_of(out: Seq<BuildingSite>) -> Seq<(i32, i32)>
    decreases out.len(),
{
    if out.len() == 0 {
        Seq::empty()
    } else {
        occ_of(out.drop_last()) + site_exclusion(out.last())
    }
}

/// A cell in the exclusion block of a placed building is occupied.
proof fn lemma_occ_contains(out: Seq<BuildingSite>, i: int, c: (i32, i32))
    requires
        0 <= i < out.len(),
        forall|t: int|
            0 <= t < out.len() ==> (#[trigger] out[t]).grid_x <= 0x4000_0000 && out[t].grid_y
                <= 0x4000_0000,
        in_exclusion(out[i].kind, out[i].grid_x as int, out[i].grid_y as int, c),
    ensures
        occ_of(out).contains(c),
    decreases out.len(),
{
    let rest = occ_of(out.drop_last());
    let whole = occ_of(out);
    if i == out.len() - 1 {
        let s = out[i];
        lemma_exclusion_contains(s.kind, s.grid_x as int, s.grid_y as int, c);
        let j = choose|j: int| 0 <= j < site_exclusion(s).len() && site_exclusion(s)[j] == c;
        assert(whole[rest.len() + j] == c);
    } else {
        assert(out.drop_last()[i] == out[i]);
        lemma_occ_contains(out.drop_last(), i, c);
        let j = choose|j: int| 0 <= j < rest.len() && rest[j] == c;
        assert(whole[j] == c);
    }
}

/// Whether `c` is among the cells of `s`.
fn contains_cell(s: &Vec<(i32, i32)>, c: (i32, i32)) -> (r: bool)
    ensures
        r == s@.contains(c),
{
    let mut k: usize = 0;
    while k < s.len()
        invariant
            k <= s@.len(),
            forall|k2: int| 0 <= k2 < k ==> s@[k2] != c,
        decreases s@.len() - k,
    {
        if s[k].0 == c.0 && s[k].1 == c.1 {
            proof {
                assert(s@[k as int] == c);
            }
            return true;
        }
        k = k + 1;
    }
    false
}

/// Places the buildings of one faction's base: each stays inside the
/// cleared circle around the base center and the playable area, and no two
/// exclusion blocks overlap.
pub struct BasePlacer {
    pub faction: Faction,
    pub cx: i32,
    pub cy: i32,
    /// Playable-area bounds in tiles, minimum inclusive, maximum exclusive.
    pub bounds: (i32, i32),
    /// Cells claimed by the exclusion blocks placed so far.
    pub occupied: Vec<(i32, i32)>,
    /// The buildings placed so far.
    pub out: Vec<BuildingSite>,
}

impl BasePlacer {
    /// `(bx, by)` lies in the cleared circle and inside the playable area.
    pub open spec fn in_band(&self, bx: int, by: int) -> bool {
        &&& (bx - self.cx) * (bx - self.cx) + (by - self.cy) * (by - self.cy) <= BASE_BAND_RADIUS
            * BASE_BAND_RADIUS
        &&& self.bounds.0 <= bx < self.bounds.1
        &&& self.bounds.0 <= by < self.bounds.1
    }

    pub open spec fn wf(&self) -> bool {
        &&& coord_ok(self.cx as int)
        &&& coord_ok(self.cy as int)
        &&& self.bounds.0 == BORDER_SIZE
        &&& BORDER_SIZE <= self.bounds.1 <= 0x4000_0000
        &&& self.occupied@ == occ_of(self.out@)
        &&& forall|i: int|
            0 <= i < self.out@.len() ==> (#[trigger] self.out@[i]).faction == self.faction
                && self.in_band(self.out@[i].grid_x as int, self.out@[i].grid_y as int)
        &&& forall|i: int, j: int|
            0 <= i < j < self.out@.len() ==> exclusions_disjoint(
                #[trigger] self.out@[i],
                #[trigger] self.out@[j],
            )
    }

    /// A `kind` building may go at `(bx, by)`: in the band, and none of its
    /// exclusion cells is taken.
    pub open spec fn spec_allowed(&self, kind: BuildingKind, bx: int, by: int) -> bool {
        &&& self.in_band(bx, by)
        &&& forall|c: (i32, i32)| in_exclusion(kind, bx, by, c) ==> !self.occupied@.contains(c)
    }

    /// An empty placer for the base centered at `(cx, cy)` on a map whose
    /// playable square is `playable_size` tiles wide.
    pub fn new(faction: Faction, cx: i32, cy: i32, playable_size: u32) -> (p: BasePlacer)
        requires
            coord_ok(cx as int),
            coord_ok(cy as int),
            playable_size <= 0x4000_0000 - BORDER_SIZE,
        ensures
            p.wf(),
            p.faction == faction,
            p.cx == cx,
            p.cy == cy,
            p.bounds == (BORDER_SIZE as i32, (BORDER_SIZE + playable_size) as i32),
            p.out@.len() == 0,
    {
        let b = BORDER_SIZE as i32;
        let p = BasePlacer {
            faction,
            cx,
            cy,
            bounds: (b, b + playable_size as i32),
            occupied: Vec::new(),
            out: Vec::new(),
        };
        proof {
            assert(p.occupied@ =~= occ_of(p.out@));
        }
        p
    }

    /// The exclusion block of a `kind` building anchored at `(bx, by)`, row
    /// by row from the top.
    pub fn exclusion(kind: BuildingKind, bx: i32, by: i32) -> (cells: Vec<(i32, i32)>)
        requires
            coord_ok(bx as int),
            coord_ok(by as int),
        ensures
            cells@ == spec_exclusion(kind, bx as int, by as int),
    {
        let (hw, vlo, vhi): (i32, i32, i32) = match kind {
            BuildingKind::Castle => (4, -3, 2),
            BuildingKind::Barracks | BuildingKind::Archery | BuildingKind::Monastery => (3, -2, 2),
            BuildingKind::DefenseTower => (2, -2, 2),
            BuildingKind::House => (2, -2, 1),
        };
        let ghost cols = 2 * hw + 1;
        let mut cells: Vec<(i32, i32)> = Vec::new();
        let mut dy = vlo;
        while dy <= vhi
            invariant
                (hw as int, vlo as int, vhi as int) == exclusion_extent(kind),
                cols == 2 * hw + 1,
                coord_ok(bx as int),
                coord_ok(by as int),
                vlo <= dy <= vhi + 1,
                cells@.len() == (dy - vlo) * cols,
                forall|t: int| 0 <= t < cells@.len() ==> #[trigger] cells@[t] == exclusion_cell(kind, bx as int, by as int, t),
            decreases vhi + 1 - dy,
        {
            let mut dx = -hw;
            while dx <= hw
                invariant
                    (hw as int, vlo as int, vhi as int) == exclusion_extent(kind),
                    cols == 2 * hw + 1,
                    coord_ok(bx as int),
                    coord_ok(by as int),
                    vlo <= dy <= vhi,
                    -hw <= dx <= hw + 1,
                    cells@.len() == (dy - vlo) * cols + (dx + hw),
                    forall|t: int| 0 <= t < cells@.len() ==> #[trigger] cells@[t] == exclusion_cell(kind, bx as int, by as int, t),
                decreases hw + 1 - dx,
            {
                proof {
                    let i = cells@.len() as int;
                    vstd::arithmetic::div_mod::lemma_fundamental_div_mod_converse(
                        i,
                        cols,
                        dy - vlo,
                        dx + hw,
                    );
                }
                cells.push((bx + dx, by + dy));
                dx = dx + 1;
            }
            proof {
                assert((dy - vlo) * cols + cols == (dy + 1 - vlo) * cols) by (nonlinear_arith);
            }
            dy = dy + 1;
        }
        proof {
            assert(cells@ =~= spec_exclusion(kind, bx as int, by as int));
        }
        cells
    }

    /// Place a `kind` building at `(bx, by)` if it fits: inside the cleared
    /// circle and the playable area, with no exclusion cell taken. Returns
    /// whether it was placed; a refused placement changes nothing.
    pub fn try_place(&mut self, kind: BuildingKind, bx: i32, by: i32) -> (placed: bool)
        requires
            old(self).wf(),
            coord_ok(bx as int),
            coord_ok(by as int),
            (bx - old(self).cx) * (bx - old(self).cx) + (by - old(self).cy) * (by - old(self).cy)
                <= i32::MAX,
        ensures
            final(self).wf(),
            placed == old(self).spec_allowed(kind, bx as int, by as int),
            final(self).faction == old(self).faction,
            final(self).cx == old(self).cx,
            final(self).cy == old(self).cy,
            final(self).bounds == old(self).bounds,
            placed ==> final(self).out@ == old(self).out@.push(
                BuildingSite {
                    kind,
                    faction: old(self).faction,
                    grid_x: bx as u32,
                    grid_y: by as u32,
                    zone_id: None,
                    produces: None,
                    house_variant: 0,
                },
            ),
            placed ==> final(self).occupied@ == old(self).occupied@ + spec_exclusion(
                kind,
                bx as int,
                by as int,
            ),
            !placed ==> final(self).out@ == old(self).out@,
            !placed ==> final(self).occupied@ == old(self).occupied@,
    {
        proof {
            let ex = bx - self.cx;
            let ey = by - self.cy;
            assert(-46341 < ex < 46341 && -46341 < ey < 46341 && ex * ex <= i32::MAX && ey * ey
                <= i32::MAX) by (nonlinear_arith)
                requires
                    ex * ex + ey * ey <= i32::MAX,
            ;
        }
        let dx = bx - self.cx;
        let dy = by - self.cy;
        proof {
            assert(dx * dx + dy * dy <= i32::MAX);
            assert(0 <= dx * dx <= i32::MAX && 0 <= dy * dy <= i32::MAX) by (nonlinear_arith)
                requires
                    dx * dx + dy * dy <= i32::MAX,
            ;
        }
        if dx * dx + dy * dy > BASE_BAND_RADIUS * BASE_BAND_RADIUS {
            return false;
        }
        let (lo, hi) = self.bounds;
        if bx < lo || bx >= hi || by < lo || by >= hi {
            return false;
        }
        let cells = Self::exclusion(kind, bx, by);
        let mut t: usize = 0;
        while t < cells.len()
            invariant
                cells@ == spec_exclusion(kind, bx as int, by as int),
                coord_ok(bx as int),
                coord_ok(by as int),
                *self == *old(self),
                self.wf(),
                t <= cells@.len(),
                forall|t2: int| 0 <= t2 < t ==> !self.occupied@.contains(#[trigger] cells@[t2]),
            decreases cells@.len() - t,
        {
            if contains_cell(&self.occupied, cells[t]) {
                proof {
                    lemma_exclusion_contains(kind, bx as int, by as int, cells@[t as int]);
                    assert(spec_exclusion(kind, bx as int, by as int).contains(cells@[t as int]));
                }
                return false;
            }
            t = t + 1;
        }
        proof {
            assert forall|c: (i32, i32)| in_exclusion(kind, bx as int, by as int, c) implies !self.occupied@.contains(c) by {
                lemma_exclusion_contains(kind, bx as int, by as int, c);
                let j = choose|j: int| 0 <= j < cells@.len() && cells@[j] == c;
                assert(!self.occupied@.contains(cells@[j]));
            }
        }
        let ghost old_self_occ = self.occupied@;
        let ghost old_out = self.out@;
        let mut u: usize = 0;
        while u < cells.len()
            invariant
                cells@ == spec_exclusion(kind, bx as int, by as int),
                u <= cells@.len(),
                self.occupied@ == old_self_occ + cells@.take(u as int),
                self.out@ == old_out,
                self.faction == old(self).faction,
                self.cx == old(self).cx,
                self.cy == old(self).cy,
                self.bounds == old(self).bounds,
            decreases cells@.len() - u,
        {
            self.occupied.push(cells[u]);
            proof {
                assert(self.occupied@ =~= old_self_occ + cells@.take(u + 1));
            }
            u = u + 1;
        }
        let site = BuildingSite {
            kind,
            faction: self.faction,
            grid_x: bx as u32,
            grid_y: by as u32,
            zone_id: None,
            produces: None,
            house_variant: 0,
        };
        self.out.push(site);
        proof {
            assert(cells@.take(u as int) =~= cells@);
            let out = self.out@;
            assert(out.drop_last() =~= old_out);
            assert(site_exclusion(site) == spec_exclusion(kind, bx as int, by as int));
            assert(self.occupied@ == occ_of(out));
            assert forall|i: int, j: int|
                0 <= i < j < out.len() implies exclusions_disjoint(
                #[trigger] out[i],
                #[trigger] out[j],
            ) by {
                if j == out.len() - 1 {
                    let o = out[i];
                    if !exclusions_disjoint(o, site) {
                        let (ho, lo_o, uo) = exclusion_extent(o.kind);
                        let (hs, ls, us) = exclusion_extent(kind);
                        let cxm: int = if o.grid_x - ho > bx - hs {
                            o.grid_x - ho
                        } else {
                            bx - hs
                        };
                        let cym: int = if o.grid_y + lo_o > by + ls {
                            o.grid_y + lo_o
                        } else {
                            by + ls
                        };
                        let c: (i32, i32) = (cxm as i32, cym as i32);
                        assert(in_exclusion(kind, bx as int, by as int, c));
                        assert(old_out[i] == o);
                        lemma_occ_contains(old_out, i, c);
                        assert(false);
                    }
                } else {
                    assert(out[i] == old_out[i] && out[j] == old_out[j]);
                }
            }
        }
        true
    }

    /// Rewrite the last building placed with `edit` in place of it; its
    /// kind, side and position stay, so the placement rules still hold.
    fn edit_last(&mut self, edit: BuildingSite)
        requires
            old(self).wf(),
            old(self).out@.len() > 0,
            edit.kind == old(self).out@.last().kind,
            edit.faction == old(self).out@.last().faction,
            edit.grid_x == old(self).out@.last().grid_x,
            edit.grid_y == old(self).out@.last().grid_y,
        ensures
            final(self).wf(),
            final(self).faction == old(self).faction,
            final(self).cx == old(self).cx,
            final(self).cy == old(self).cy,
            final(self).bounds == old(self).bounds,
            final(self).occupied@ == old(self).occupied@,
            final(self).out@ == old(self).out@.update(old(self).out@.len() - 1, edit),
    {
        let ghost out0 = self.out@;
        let last = self.out.len() - 1;
        self.out.set(last, edit);
        proof {
            let out1 = self.out@;
            assert(out1.drop_last() =~= out0.drop_last());
            assert(occ_of(out1) == occ_of(out1.drop_last()) + site_exclusion(out1.last()));
            assert(occ_of(out0) == occ_of(out0.drop_last()) + site_exclusion(out0.last()));
            assert forall|i: int, j: int|
                0 <= i < j < out1.len() implies exclusions_disjoint(
                #[trigger] out1[i],
                #[trigger] out1[j],
            ) by {
                assert(exclusions_disjoint(out0[i], out0[j]));
            }
            assert forall|i: int| 0 <= i < out1.len() implies (#[trigger] out1[i]).faction
                == self.faction && self.in_band(out1[i].grid_x as int, out1[i].grid_y as int) by {
                assert(out0[i].faction == self.faction);
            }
        }
    }

    /// Mark the last building placed as the trainer of `unit`.
    pub fn set_last_produces(&mut self, unit: UnitKind)
        requires
            old(self).wf(),
            old(self).out@.len() > 0,
        ensures
            final(self).wf(),
            final(self).faction == old(self).faction,
            final(self).cx == old(self).cx,
            final(self).cy == old(self).cy,
            final(self).bounds == old(self).bounds,
            final(self).out@ == old(self).out@.update(
                old(self).out@.len() - 1,
                BuildingSite { produces: Some(unit), ..old(self).out@.last() },
            ),
    {
        let b = self.out[self.out.len() - 1];
        self.edit_last(BuildingSite { produces: Some(unit), ..b });
    }

    /// Give the last building placed, a house, the art variant that cycles
    /// with the count `houses` of houses placed before it.
    pub fn set_last_house_variant(&mut self, houses: u8)
        requires
            old(self).wf(),
            old(self).out@.len() > 0,
        ensures
            final(self).wf(),
            final(self).faction == old(self).faction,
            final(self).cx == old(self).cx,
            final(self).cy == old(self).cy,
            final(self).bounds == old(self).bounds,
            final(self).out@ == old(self).out@.update(
                old(self).out@.len() - 1,
                BuildingSite { house_variant: (houses % 3) as u8, ..old(self).out@.last() },
            ),
    {
        let b = self.out[self.out.len() - 1];
        self.edit_last(BuildingSite { house_variant: houses % 3, ..b });
    }

    /// The buildings placed, in placement order.
    pub fn finish(self) -> (r: Vec<BuildingSite>)
        ensures
            r@ == self.out@,
    {
        self.out
    }
}

/// No two buildings of a base claim the same cell: their exclusion blocks
/// are apart, which keeps two clear tiles between structures.
pub proof fn law_base_buildings_keep_apart(p: BasePlacer, i: int, j: int)
    requires
        p.wf(),
        0 <= i < j < p.out@.len(),
    ensures
        exclusions_disjoint(p.out@[i], p.out@[j]),
        forall|c: (i32, i32)|
            !(in_exclusion(p.out@[i].kind, p.out@[i].grid_x as int, p.out@[i].grid_y as int, c)
                && in_exclusion(p.out@[j].kind, p.out@[j].grid_x as int, p.out@[j].grid_y as int, c)),
{
}

/// Every building of a base lies in the cleared circle around its center and
/// inside the playable area.
pub proof fn law_base_buildings_in_band(p: BasePlacer, i: int)
    requires
        p.wf(),
        0 <= i < p.out@.len(),
    ensures
        p.in_band(p.out@[i].grid_x as int, p.out@[i].grid_y as int),
{
}

/// Every unit kind is trained by a production building, never by a combat
/// building or a house.
pub proof fn law_every_unit_has_a_producer(kind: UnitKind)
    ensures
        !spec_building_for_unit(kind).spec_is_combat(),
        spec_building_for_unit(kind) != BuildingKind::House,
{
}

} // verus!
