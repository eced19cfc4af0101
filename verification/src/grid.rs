//! The tile grid: terrain kind, elevation, decorations and building
//! occupancy per cell, stored row-major.

use vstd::prelude::*;

verus! {

/// Width of the vegetated border ring around the playable area, in tiles.
pub const BORDER_SIZE: u32 = 16;
/// Side length of the default playable area, in tiles.
pub const PLAYABLE_SIZE: u32 = 160;
/// Side length of the default grid (playable area plus border on both sides).
pub const GRID_SIZE: u32 = 192;
/// Largest side length a grid may have: on a larger grid a road search's
/// 32-bit path scores (45 at most per cell entered) could wrap.
pub const MAX_SIDE: u32 = 8192;
/// Largest number of cells a grid may hold (`MAX_SIDE²`).
pub const MAX_CELLS: u32 = 67_108_864;

/// Terrain kind of one tile.
#[derive(Clone, Copy, Debug, PartialEq, Eq, Structural)]
pub enum TileKind {
    Grass,
    Water,
    Forest,
    Rock,
    Road,
}

impl TileKind {
    /// Movement cost multiplier of the terrain; `None` for terrain nobody can enter.
    pub open spec fn spec_movement_cost(self) -> Option<u32> {
        match self {
            TileKind::Grass => Some(1u32),
            TileKind::Road => Some(1u32),
            TileKind::Forest => Some(2u32),
            TileKind::Water => None,
            TileKind::Rock => None,
        }
    }

    /// Defense bonus a defender standing on this terrain receives.
    pub open spec fn spec_defense_bonus(self) -> i32 {
        match self {
            TileKind::Forest => 1i32,
            _ => 0i32,
        }
    }

    /// Whether units can stand on this terrain at all.
    pub open spec fn spec_walkable(self) -> bool {
        self.spec_movement_cost() is Some
    }

    pub fn movement_cost(self) -> (r: Option<u32>)
        ensures
            r == self.spec_movement_cost(),
    {
        match self {
            TileKind::Grass => Some(1),
            TileKind::Road => Some(1),
            TileKind::Forest => Some(2),
            TileKind::Water => None,
            TileKind::Rock => None,
        }
    }

    pub fn defense_bonus(self) -> (r: i32)
        ensures
            r == self.spec_defense_bonus(),
    {
        match self {
            TileKind::Forest => 1,
            _ => 0,
        }
    }

    /// Everything but open water is land.
    pub fn is_land(self) -> (r: bool)
        ensures
            r == (self != TileKind::Water),
    {
        !matches!(self, TileKind::Water)
    }
}

/// Decoration drawn on top of a tile.
#[derive(Clone, Copy, Debug, PartialEq, Eq, Structural)]
pub enum Decoration {
    Bush,
    WaterRock,
    /// Gold stone with its sprite variant.
    GoldStone(u8),
}

/// Row-major terrain grid. Cell `(x, y)` lives at index `y * width + x`.
pub struct Grid {
    pub width: u32,
    pub height: u32,
    pub tiles: Vec<TileKind>,
    pub elevations: Vec<u8>,
    pub decorations: Vec<Option<Decoration>>,
    pub buildings: Vec<bool>,
}

/// `y * w + x` is a valid index of a `w × h` grid when `x < w` and `y < h`.
pub proof fn lemma_cell_index(w: int, h: int, x: int, y: int)
    requires
        0 <= x < w,
        0 <= y < h,
    ensures
        0 <= y * w + x < w * h,
        y * w + x < (y + 1) * w,
{
    assert(0 <= y * w + x < w * h) by (nonlinear_arith)
        requires
            0 <= x < w,
            0 <= y < h,
    ;
    assert(y * w + x < (y + 1) * w) by (nonlinear_arith)
        requires
            0 <= x < w,
    ;
}

/// Distinct cells of a grid have distinct indices.
pub proof fn lemma_cell_index_injective(w: int, x1: int, y1: int, x2: int, y2: int)
    requires
        0 <= x1 < w,
        0 <= x2 < w,
        0 <= y1,
        0 <= y2,
        y1 * w + x1 == y2 * w + x2,
    ensures
        x1 == x2,
        y1 == y2,
{
    if y1 < y2 {
        assert(y1 * w + x1 < y2 * w + x2) by (nonlinear_arith)
            requires
                0 <= x1 < w,
                0 <= x2,
                y1 < y2,
        ;
    } else if y2 < y1 {
        assert(y2 * w + x2 < y1 * w + x1) by (nonlinear_arith)
            requires
                0 <= x2 < w,
                0 <= x1,
                y2 < y1,
        ;
    }
}

/// Two cells of a grid are equal exactly when their indices are, and both
/// indices are in range.
pub proof fn lemma_index_distinct(g: Grid, x1: int, y1: int, x2: int, y2: int)
    requires
        g.in_grid(x1, y1),
        g.in_grid(x2, y2),
    ensures
        0 <= g.index(x1, y1) < g.width * g.height,
        0 <= g.index(x2, y2) < g.width * g.height,
        (g.index(x1, y1) == g.index(x2, y2)) == (x1 == x2 && y1 == y2),
{
    lemma_cell_index(g.width as int, g.height as int, x1, y1);
    lemma_cell_index(g.width as int, g.height as int, x2, y2);
    if g.index(x1, y1) == g.index(x2, y2) {
        lemma_cell_index_injective(g.width as int, x1, y1, x2, y2);
    }
}

/// Sides of at most `MAX_SIDE` give at most `MAX_CELLS` cells.
pub proof fn lemma_side_product(w: int, h: int)
    requires
        0 <= w <= MAX_SIDE,
        0 <= h <= MAX_SIDE,
    ensures
        w * h <= MAX_CELLS,
{
    assert(w * h <= 8192 * 8192) by (nonlinear_arith)
        requires
            0 <= w <= 8192,
            0 <= h <= 8192,
    ;
}

impl Grid {
    pub open spec fn wf(&self) -> bool {
        &&& self.width <= MAX_SIDE
        &&& self.height <= MAX_SIDE
        &&& self.width * self.height <= MAX_CELLS
        &&& self.tiles@.len() == self.width * self.height
        &&& self.elevations@.len() == self.width * self.height
        &&& self.decorations@.len() == self.width * self.height
        &&& self.buildings@.len() == self.width * self.height
    }

    pub open spec fn in_grid(&self, x: int, y: int) -> bool {
        0 <= x < self.width && 0 <= y < self.height
    }

    pub open spec fn index(&self, x: int, y: int) -> int {
        y * self.width + x
    }

    pub open spec fn tile(&self, x: int, y: int) -> TileKind {
        self.tiles@[self.index(x, y)]
    }

    pub open spec fn elev(&self, x: int, y: int) -> u8 {
        self.elevations@[self.index(x, y)]
    }

    pub open spec fn deco(&self, x: int, y: int) -> Option<Decoration> {
        self.decorations@[self.index(x, y)]
    }

    pub open spec fn has_building(&self, x: int, y: int) -> bool {
        self.buildings@[self.index(x, y)]
    }

    /// A unit may enter the cell: walkable terrain with no building on it.
    pub open spec fn passable(&self, x: int, y: int) -> bool {
        self.tile(x, y).spec_walkable() && !self.has_building(x, y)
    }

    /// Corner-cutting rule: a diagonal step needs both orthogonal cells passable.
    pub open spec fn diagonal_ok(&self, x: int, y: int, dx: int, dy: int) -> bool {
        dx == 0 || dy == 0 || (self.in_grid(x + dx, y) && self.in_grid(x, y + dy) && self.passable(
            x + dx,
            y,
        ) && self.passable(x, y + dy))
    }

    /// Both grids have the same shape.
    pub open spec fn same_shape(&self, other: &Grid) -> bool {
        self.width == other.width && self.height == other.height
    }

    /// An all-grass grid of the given size: elevation 0, no decorations, no buildings.
    pub fn new_grass(width: u32, height: u32) -> (g: Grid)
        requires
            width <= MAX_SIDE,
            height <= MAX_SIDE,
        ensures
            g.wf(),
            g.width == width,
            g.height == height,
            forall|i: int| 0 <= i < width * height ==> #[trigger] g.tiles@[i] == TileKind::Grass,
            forall|i: int| 0 <= i < width * height ==> #[trigger] g.elevations@[i] == 0,
            forall|i: int| 0 <= i < width * height ==> #[trigger] g.decorations@[i] is None,
            forall|i: int| 0 <= i < width * height ==> !#[trigger] g.buildings@[i],
    {
        proof {
            lemma_side_product(width as int, height as int);
        }
        let n: usize = (width * height) as usize;
        let mut tiles: Vec<TileKind> = Vec::with_capacity(n);
        let mut elevations: Vec<u8> = Vec::with_capacity(n);
        let mut decorations: Vec<Option<Decoration>> = Vec::with_capacity(n);
        let mut buildings: Vec<bool> = Vec::with_capacity(n);
        let mut i: usize = 0;
        while i < n
            invariant
                i <= n,
                n == width * height,
                tiles@.len() == i,
                elevations@.len() == i,
                decorations@.len() == i,
                buildings@.len() == i,
                forall|j: int| 0 <= j < i ==> #[trigger] tiles@[j] == TileKind::Grass,
                forall|j: int| 0 <= j < i ==> #[trigger] elevations@[j] == 0,
                forall|j: int| 0 <= j < i ==> #[trigger] decorations@[j] is None,
                forall|j: int| 0 <= j < i ==> !#[trigger] buildings@[j],
            decreases n - i,
        {
            tiles.push(TileKind::Grass);
            elevations.push(0);
            decorations.push(None);
            buildings.push(false);
            i = i + 1;
        }
        Grid { width, height, tiles, elevations, decorations, buildings }
    }

    /// Whether signed coordinates fall inside the grid.
    pub fn in_bounds(&self, x: i32, y: i32) -> (r: bool)
        ensures
            r == self.in_grid(x as int, y as int),
    {
        x >= 0 && y >= 0 && (x as u32) < self.width && (y as u32) < self.height
    }

    fn cell_index(&self, x: u32, y: u32) -> (i: usize)
        requires
            self.wf(),
            self.in_grid(x as int, y as int),
        ensures
            i == self.index(x as int, y as int),
            i < self.width * self.height,
    {
        proof {
            lemma_cell_index(self.width as int, self.height as int, x as int, y as int);
        }
        (y * self.width + x) as usize
    }

    pub fn get(&self, x: u32, y: u32) -> (t: TileKind)
        requires
            self.wf(),
            self.in_grid(x as int, y as int),
        ensures
            t == self.tile(x as int, y as int),
    {
        let i = self.cell_index(x, y);
        self.tiles[i]
    }

    pub fn elevation(&self, x: u32, y: u32) -> (e: u8)
        requires
            self.wf(),
            self.in_grid(x as int, y as int),
        ensures
            e == self.elev(x as int, y as int),
    {
        let i = self.cell_index(x, y);
        self.elevations[i]
    }

    pub fn decoration(&self, x: u32, y: u32) -> (d: Option<Decoration>)
        requires
            self.wf(),
            self.in_grid(x as int, y as int),
        ensures
            d == self.deco(x as int, y as int),
    {
        let i = self.cell_index(x, y);
        self.decorations[i]
    }

    pub fn set(&mut self, x: u32, y: u32, t: TileKind)
        requires
            old(self).wf(),
            old(self).in_grid(x as int, y as int),
        ensures
            final(self).wf(),
            final(self).same_shape(old(self)),
            final(self).tiles@ == old(self).tiles@.update(old(self).index(x as int, y as int), t),
            final(self).elevations@ == old(self).elevations@,
            final(self).decorations@ == old(self).decorations@,
            final(self).buildings@ == old(self).buildings@,
    {
        let i = self.cell_index(x, y);
        self.tiles[i] = t;
    }

    pub fn set_elevation(&mut self, x: u32, y: u32, e: u8)
        requires
            old(self).wf(),
            old(self).in_grid(x as int, y as int),
        ensures
            final(self).wf(),
            final(self).same_shape(old(self)),
            final(self).elevations@ == old(self).elevations@.update(
                old(self).index(x as int, y as int),
                e,
            ),
            final(self).tiles@ == old(self).tiles@,
            final(self).decorations@ == old(self).decorations@,
            final(self).buildings@ == old(self).buildings@,
    {
        let i = self.cell_index(x, y);
        self.elevations[i] = e;
    }

    pub fn set_decoration(&mut self, x: u32, y: u32, d: Option<Decoration>)
        requires
            old(self).wf(),
            old(self).in_grid(x as int, y as int),
        ensures
            final(self).wf(),
            final(self).same_shape(old(self)),
            final(self).decorations@ == old(self).decorations@.update(
                old(self).index(x as int, y as int),
                d,
            ),
            final(self).tiles@ == old(self).tiles@,
            final(self).elevations@ == old(self).elevations@,
            final(self).buildings@ == old(self).buildings@,
    {
        let i = self.cell_index(x, y);
        self.decorations[i] = d;
    }

    /// Mark a cell as occupied by a building footprint.
    pub fn mark_building(&mut self, x: u32, y: u32)
        requires
            old(self).wf(),
            old(self).in_grid(x as int, y as int),
        ensures
            final(self).wf(),
            final(self).same_shape(old(self)),
            final(self).buildings@ == old(self).buildings@.update(
                old(self).index(x as int, y as int),
                true,
            ),
            final(self).tiles@ == old(self).tiles@,
            final(self).elevations@ == old(self).elevations@,
            final(self).decorations@ == old(self).decorations@,
    {
        let i = self.cell_index(x, y);
        self.buildings[i] = true;
    }

    pub fn is_passable(&self, x: u32, y: u32) -> (r: bool)
        requires
            self.wf(),
            self.in_grid(x as int, y as int),
        ensures
            r == self.passable(x as int, y as int),
    {
        let i = self.cell_index(x, y);
        self.tiles[i].movement_cost().is_some() && !self.buildings[i]
    }

    /// Whether a step from `(x, y)` by `(dx, dy)` obeys the corner-cutting rule.
    /// Cardinal steps always do; a diagonal step needs both orthogonal cells passable.
    pub fn can_move_diagonal(&self, x: u32, y: u32, dx: i32, dy: i32) -> (r: bool)
        requires
            self.wf(),
            self.in_grid(x as int, y as int),
            -1 <= dx <= 1,
            -1 <= dy <= 1,
        ensures
            r == self.diagonal_ok(x as int, y as int, dx as int, dy as int),
    {
        if dx == 0 || dy == 0 {
            return true;
        }
        let sx = x as i32 + dx;
        let sy = y as i32 + dy;
        if !self.in_bounds(sx, y as i32) || !self.in_bounds(x as i32, sy) {
            return false;
        }
        self.is_passable(sx as u32, y) && self.is_passable(x, sy as u32)
    }

    /// Whether two cells sit at different elevations (a cliff separates them).
    pub fn is_cliff_between(&self, x1: u32, y1: u32, x2: u32, y2: u32) -> (r: bool)
        requires
            self.wf(),
            self.in_grid(x1 as int, y1 as int),
            self.in_grid(x2 as int, y2 as int),
        ensures
            r == (self.elev(x1 as int, y1 as int) != self.elev(x2 as int, y2 as int)),
    {
        self.elevation(x1, y1) != self.elevation(x2, y2)
    }
}

} // verus!
