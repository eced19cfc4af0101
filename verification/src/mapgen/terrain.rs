//! Small terrain queries and edits used by the generation stages.

use vstd::prelude::*;
use crate::grid::{Grid, TileKind, Decoration, BORDER_SIZE, PLAYABLE_SIZE, MAX_SIDE, lemma_cell_index};
use crate::render_util::{nb_dx, nb_dy, nb_offset};

verus! {

/// The tile lies in the border ring around the default playable area.
pub open spec fn spec_in_border(x: int, y: int) -> bool {
    x < BORDER_SIZE || y < BORDER_SIZE || x >= BORDER_SIZE + PLAYABLE_SIZE || y >= BORDER_SIZE
        + PLAYABLE_SIZE
}

/// Whether the tile is in the border ring (outside the default playable area).
pub fn in_border(x: u32, y: u32) -> (r: bool)
    ensures
        r == spec_in_border(x as int, y as int),
{
    x < BORDER_SIZE || y < BORDER_SIZE || x >= BORDER_SIZE + PLAYABLE_SIZE || y >= BORDER_SIZE
        + PLAYABLE_SIZE
}

/// A 4-neighbour of `(x, y)` inside the grid sits at another elevation.
pub open spec fn spec_near_cliff(g: Grid, x: int, y: int) -> bool {
    let e = g.elev(x, y);
    ||| (g.in_grid(x, y - 1) && g.elev(x, y - 1) != e)
    ||| (g.in_grid(x, y + 1) && g.elev(x, y + 1) != e)
    ||| (g.in_grid(x - 1, y) && g.elev(x - 1, y) != e)
    ||| (g.in_grid(x + 1, y) && g.elev(x + 1, y) != e)
}

/// True if the tile is on or next to an elevation step.
pub fn near_cliff(grid: &Grid, x: u32, y: u32) -> (r: bool)
    requires
        grid.wf(),
        grid.in_grid(x as int, y as int),
    ensures
        r == spec_near_cliff(*grid, x as int, y as int),
{
    let e = grid.elevation(x, y);
    let xi = x as i32;
    let yi = y as i32;
    if grid.in_bounds(xi, yi - 1) && grid.elevation(x, y - 1) != e {
        return true;
    }
    if grid.in_bounds(xi, yi + 1) && grid.elevation(x, y + 1) != e {
        return true;
    }
    if grid.in_bounds(xi - 1, yi) && grid.elevation(x - 1, y) != e {
        return true;
    }
    if grid.in_bounds(xi + 1, yi) && grid.elevation(x + 1, y) != e {
        return true;
    }
    false
}

/// A cell a clearing would bulldoze: off the map, water, or elevated.
pub open spec fn damaged(g: Grid, x: int, y: int) -> bool {
    !g.in_grid(x, y) || g.tile(x, y) == TileKind::Water || g.elev(x, y) > 0
}

/// Damaged cells of row `dy` of the disk of radius `r` around `(cx, cy)`, among offsets `dx < upto`.
pub open spec fn row_damage(g: Grid, cx: int, cy: int, r: int, dy: int, upto: int) -> int
    decreases upto + r,
{
    if upto <= -r {
        0
    } else {
        row_damage(g, cx, cy, r, dy, upto - 1) + if (upto - 1) * (upto - 1) + dy * dy <= r * r
            && damaged(g, cx + upto - 1, cy + dy) {
            1int
        } else {
            0int
        }
    }
}

/// Damaged cells of the disk of radius `r` around `(cx, cy)`, among rows `dy < upto`.
pub open spec fn disk_damage(g: Grid, cx: int, cy: int, r: int, upto: int) -> int
    decreases upto + r,
{
    if upto <= -r {
        0
    } else {
        disk_damage(g, cx, cy, r, upto - 1) + row_damage(g, cx, cy, r, upto - 1, r + 1)
    }
}

/// Water, cliff and off-map cells that a village clearing at `(cx, cy)` would bulldoze.
pub fn terrain_damage(grid: &Grid, cx: i32, cy: i32) -> (d: u32)
    requires
        grid.wf(),
        -(MAX_SIDE as int) <= cx <= 2 * MAX_SIDE,
        -(MAX_SIDE as int) <= cy <= 2 * MAX_SIDE,
    ensures
        d == disk_damage(*grid, cx as int, cy as int, super::VILLAGE_CLEAR_RADIUS as int, super::VILLAGE_CLEAR_RADIUS as int + 1),
        d <= 729,
{
    let r: i32 = super::VILLAGE_CLEAR_RADIUS as i32;
    let ghost ri = r as int;
    let mut damage: u32 = 0;
    let mut dy: i32 = -r;
    while dy <= r
        invariant
            grid.wf(),
            r == super::VILLAGE_CLEAR_RADIUS,
            ri == r,
            -r <= dy <= r + 1,
            -(MAX_SIDE as int) <= cx <= 2 * MAX_SIDE,
            -(MAX_SIDE as int) <= cy <= 2 * MAX_SIDE,
            damage == disk_damage(*grid, cx as int, cy as int, ri, dy as int),
            damage <= (dy + r) * (2 * r + 1),
        decreases r + 1 - dy,
    {
        let mut dx: i32 = -r;
        let ghost base = damage;
        while dx <= r
            invariant
                grid.wf(),
                r == super::VILLAGE_CLEAR_RADIUS,
                ri == r,
                -r <= dy <= r,
                -r <= dx <= r + 1,
                -(MAX_SIDE as int) <= cx <= 2 * MAX_SIDE,
                -(MAX_SIDE as int) <= cy <= 2 * MAX_SIDE,
                base == disk_damage(*grid, cx as int, cy as int, ri, dy as int),
                base <= (dy + r) * (2 * r + 1),
                damage == base + row_damage(*grid, cx as int, cy as int, ri, dy as int, dx as int),
                damage <= base + (dx + r),
            decreases r + 1 - dx,
        {
            proof {
                assert(0 <= dx * dx <= 196 && 0 <= dy * dy <= 196) by (nonlinear_arith)
                    requires
                        -13 <= dx <= 14,
                        -13 <= dy <= 13,
                ;
                assert(base <= 27 * 27) by (nonlinear_arith)
                    requires
                        base <= (dy + r) * (2 * r + 1),
                        -13 <= dy <= 13,
                        r == 13,
                ;
            }
            if dx * dx + dy * dy <= r * r {
                let x = cx + dx;
                let y = cy + dy;
                if !grid.in_bounds(x, y) {
                    damage = damage + 1;
                } else if grid.get(x as u32, y as u32) == TileKind::Water || grid.elevation(
                    x as u32,
                    y as u32,
                ) > 0 {
                    damage = damage + 1;
                }
            }
            dx = dx + 1;
        }
        proof {
            assert(damage <= (dy + 1 + r) * (2 * r + 1)) by (nonlinear_arith)
                requires
                    damage <= base + (r + 1 + r),
                    base <= (dy + r) * (2 * r + 1),
            ;
        }
        dy = dy + 1;
    }
    damage
}

/// The cell lies in the disk of radius `r` around `(cx, cy)`.
pub open spec fn in_disk(cx: int, cy: int, r: int, x: int, y: int) -> bool {
    (x - cx) * (x - cx) + (y - cy) * (y - cy) <= r * r
}

/// Cells of a disk lie within `r` of its center on both axes.
pub proof fn lemma_disk_bounds(cx: int, cy: int, r: int, x: int, y: int)
    requires
        r >= 0,
        in_disk(cx, cy, r, x, y),
    ensures
        -r <= x - cx <= r,
        -r <= y - cy <= r,
{
    let a = x - cx;
    let b = y - cy;
    assert(-r <= a <= r && -r <= b <= r) by (nonlinear_arith)
        requires
            a * a + b * b <= r * r,
            r >= 0,
    ;
}

/// Clear a disk to bare grass: in-grid cells of the disk become grass at
/// elevation 0 without decoration; every other cell is unchanged.
pub fn clear_circle(grid: &mut Grid, cx: u32, cy: u32, radius: i32)
    requires
        old(grid).wf(),
        cx < MAX_SIDE,
        cy < MAX_SIDE,
        0 <= radius <= MAX_SIDE,
    ensures
        final(grid).wf(),
        final(grid).same_shape(old(grid)),
        final(grid).buildings@ == old(grid).buildings@,
        forall|x: int, y: int|
            #![trigger final(grid).tile(x, y)]
            final(grid).in_grid(x, y) ==> if in_disk(cx as int, cy as int, radius as int, x, y) {
                &&& final(grid).tile(x, y) == TileKind::Grass
                &&& final(grid).elev(x, y) == 0
                &&& final(grid).deco(x, y) is None
            } else {
                &&& final(grid).tile(x, y) == old(grid).tile(x, y)
                &&& final(grid).elev(x, y) == old(grid).elev(x, y)
                &&& final(grid).deco(x, y) == old(grid).deco(x, y)
            },
{
    let ghost g0 = *grid;
    let mut dy: i32 = -radius;
    proof {
        assert forall|x: int, y: int|
            #![trigger grid.tile(x, y)]
            grid.in_grid(x, y) implies !(in_disk(cx as int, cy as int, radius as int, x, y) && y
                - cy < dy) by {
            if in_disk(cx as int, cy as int, radius as int, x, y) {
                lemma_disk_bounds(cx as int, cy as int, radius as int, x, y);
            }
        }
    }
    while dy <= radius
        invariant
            grid.wf(),
            grid.same_shape(&g0),
            g0.wf(),
            grid.buildings@ == g0.buildings@,
            cx < MAX_SIDE,
            cy < MAX_SIDE,
            0 <= radius <= MAX_SIDE,
            -radius <= dy <= radius + 1,
            forall|x: int, y: int|
                #![trigger grid.tile(x, y)]
                grid.in_grid(x, y) ==> if in_disk(cx as int, cy as int, radius as int, x, y) && y
                    - cy < dy {
                    &&& grid.tile(x, y) == TileKind::Grass
                    &&& grid.elev(x, y) == 0
                    &&& grid.deco(x, y) is None
                } else {
                    &&& grid.tile(x, y) == g0.tile(x, y)
                    &&& grid.elev(x, y) == g0.elev(x, y)
                    &&& grid.deco(x, y) == g0.deco(x, y)
                },
        decreases radius + 1 - dy,
    {
        let mut dx: i32 = -radius;
        proof {
            assert forall|x: int, y: int|
                #![trigger grid.tile(x, y)]
                grid.in_grid(x, y) && in_disk(cx as int, cy as int, radius as int, x, y) && (y - cy
                    < dy || (y - cy == dy && x - cx < dx)) implies y - cy < dy by {
                lemma_disk_bounds(cx as int, cy as int, radius as int, x, y);
            }
        }
        while dx <= radius
            invariant
                grid.wf(),
                grid.same_shape(&g0),
                g0.wf(),
                grid.buildings@ == g0.buildings@,
                cx < MAX_SIDE,
                cy < MAX_SIDE,
                0 <= radius <= MAX_SIDE,
                -radius <= dy <= radius,
                -radius <= dx <= radius + 1,
                forall|x: int, y: int|
                    #![trigger grid.tile(x, y)]
                    grid.in_grid(x, y) ==> if in_disk(cx as int, cy as int, radius as int, x, y)
                        && (y - cy < dy || (y - cy == dy && x - cx < dx)) {
                        &&& grid.tile(x, y) == TileKind::Grass
                        &&& grid.elev(x, y) == 0
                        &&& grid.deco(x, y) is None
                    } else {
                        &&& grid.tile(x, y) == g0.tile(x, y)
                        &&& grid.elev(x, y) == g0.elev(x, y)
                        &&& grid.deco(x, y) == g0.deco(x, y)
                    },
            decreases radius + 1 - dx,
        {
            proof {
                assert(0 <= dx * dx <= 8193 * 8193 && 0 <= dy * dy <= 8193 * 8193 && 0 <= radius
                    * radius <= 8193 * 8193) by (nonlinear_arith)
                    requires
                        -8193 <= dx <= 8193,
                        -8193 <= dy <= 8193,
                        0 <= radius <= 8193,
                ;
            }
            if dx * dx + dy * dy <= radius * radius {
                let nx = cx as i32 + dx;
                let ny = cy as i32 + dy;
                if grid.in_bounds(nx, ny) {
                    let ghost g1 = *grid;
                    grid.set(nx as u32, ny as u32, TileKind::Grass);
                    grid.set_elevation(nx as u32, ny as u32, 0);
                    grid.set_decoration(nx as u32, ny as u32, None);
                    proof {
                        lemma_cell_index(g1.width as int, g1.height as int, nx as int, ny as int);
                        assert forall|x: int, y: int| #![trigger grid.tile(x, y)] grid.in_grid(x, y) && (x != nx || y != ny) implies
                            grid.tile(x, y) == g1.tile(x, y) && grid.elev(x, y) == g1.elev(x, y)
                                && grid.deco(x, y) == g1.deco(x, y) by {
                            lemma_cell_index(g1.width as int, g1.height as int, x, y);
                            if g1.index(x, y) == g1.index(nx as int, ny as int) {
                                crate::grid::lemma_cell_index_injective(
                                    g1.width as int,
                                    x,
                                    y,
                                    nx as int,
                                    ny as int,
                                );
                            }
                        }
                    }
                }
            }
            dx = dx + 1;
        }
        proof {
            assert forall|x: int, y: int|
                #![trigger grid.tile(x, y)]
                grid.in_grid(x, y) && in_disk(cx as int, cy as int, radius as int, x, y) && y - cy
                    < dy + 1 implies (y - cy < dy || (y - cy == dy && x - cx < dx)) by {
                lemma_disk_bounds(cx as int, cy as int, radius as int, x, y);
            }
        }
        dy = dy + 1;
    }
    proof {
        assert forall|x: int, y: int|
            #![trigger grid.tile(x, y)]
            grid.in_grid(x, y) && in_disk(cx as int, cy as int, radius as int, x, y) implies y - cy
                < dy by {
            lemma_disk_bounds(cx as int, cy as int, radius as int, x, y);
        }
    }
}

/// Live cells among the eight around `(x, y)`; neighbours off the grid count as live.
pub open spec fn neighbor_live(cells: Seq<bool>, w: int, h: int, x: int, y: int, k: int) -> bool {
    let nx = x + nb_dx(k);
    let ny = y + nb_dy(k);
    !(0 <= nx < w && 0 <= ny < h) || cells[ny * w + nx]
}

pub open spec fn live_count_upto(cells: Seq<bool>, w: int, h: int, x: int, y: int, k: int) -> int
    decreases k,
{
    if k <= 0 {
        0
    } else {
        live_count_upto(cells, w, h, x, y, k - 1) + if neighbor_live(cells, w, h, x, y, k - 1) {
            1int
        } else {
            0int
        }
    }
}

/// Count live cells in the Moore neighbourhood; the outside of the grid counts as live.
pub fn count_neighbors(cells: &[bool], w: u32, h: u32, x: u32, y: u32) -> (r: u32)
    requires
        w <= MAX_SIDE,
        h <= MAX_SIDE,
        x < w,
        y < h,
        cells@.len() >= w * h,
    ensures
        r == live_count_upto(cells@, w as int, h as int, x as int, y as int, 8),
        r <= 8,
{
    proof {
        crate::grid::lemma_side_product(w as int, h as int);
    }
    let mut count: u32 = 0;
    let mut k: usize = 0;
    while k < 8
        invariant
            k <= 8,
            w <= MAX_SIDE,
            h <= MAX_SIDE,
            w * h <= crate::grid::MAX_CELLS,
            x < w,
            y < h,
            cells@.len() >= w * h,
            count == live_count_upto(cells@, w as int, h as int, x as int, y as int, k as int),
            count <= k,
        decreases 8 - k,
    {
        let (dx, dy) = nb_offset(k);
        let nx = x as i32 + dx;
        let ny = y as i32 + dy;
        if nx >= 0 && ny >= 0 && (nx as u32) < w && (ny as u32) < h {
            proof {
                lemma_cell_index(w as int, h as int, nx as int, ny as int);
            }
            if cells[(ny as u32 * w + nx as u32) as usize] {
                count = count + 1;
            }
        } else {
            count = count + 1;
        }
        k = k + 1;
    }
    count
}

} // verus!
