//! The terrain layers of map generation, each applied to a band of rows so
//! a generation step stays bounded: heightmap, water smoothing, tree
//! growth and the random scatter of rocks, bushes and water rocks.

use vstd::prelude::*;
use crate::grid::{Grid, TileKind, Decoration, BORDER_SIZE, MAX_SIDE, lemma_index_distinct, lemma_cell_index};
use super::noise::{octave, spec_octave, NOISE_ONE};
use super::rng::{Rng, xorshift};
use super::terrain::{spec_in_border, in_border, spec_near_cliff, near_cliff, live_count_upto, count_neighbors};
use crate::render_util::{nb_dx, nb_dy, nb_offset};

verus! {

/// `(x, y)` lies in rows `[y0, cy)` or in row `cy` before column `cx`.
pub open spec fn done_before(y0: int, cx: int, cy: int, x: int, y: int) -> bool {
    y0 <= y && (y < cy || (y == cy && x < cx))
}

// ---------------------------------------------------------------------------
// Heightmap
// ---------------------------------------------------------------------------

/// Distance of a cell from the nearest grid edge.
pub open spec fn edge_distance(w: int, h: int, x: int, y: int) -> int {
    let ex = if x < w - 1 - x {
        x
    } else {
        w - 1 - x
    };
    let ey = if y < h - 1 - y {
        y
    } else {
        h - 1 - y
    };
    if ex < ey {
        ex
    } else {
        ey
    }
}

/// Quadratic rise toward the grid edge: 0 from `BORDER_SIZE` tiles inward,
/// `NOISE_ONE` on the outermost ring.
pub open spec fn edge_bias(w: int, h: int, x: int, y: int) -> int {
    let e = edge_distance(w, h, x, y) * NOISE_ONE / BORDER_SIZE as int;
    let e1 = if e > NOISE_ONE {
        NOISE_ONE as int
    } else {
        e
    };
    let t = NOISE_ONE - e1;
    t * t / NOISE_ONE as int
}

/// Terrain height: four octaves of noise at 0.04 per tile plus the edge bias.
#[verifier::opaque]
pub open spec fn height_value(seed: u32, w: int, h: int, x: int, y: int) -> int {
    spec_octave(seed, (x * 256 / 25) as u32, (y * 256 / 25) as u32, 4) + edge_bias(w, h, x, y)
}

/// Height below -0.3: a lake.
pub open spec fn is_lake(seed: u32, w: int, h: int, x: int, y: int) -> bool {
    height_value(seed, w, h, x, y) * 10 < -3 * NOISE_ONE
}

/// Height above 0.45: high ground.
pub open spec fn is_high(seed: u32, w: int, h: int, x: int, y: int) -> bool {
    height_value(seed, w, h, x, y) * 100 > 45 * NOISE_ONE
}

/// The heightmap applied to cell `(x, y)` of `g0` gives `g` there.
pub open spec fn height_applied(g0: Grid, g: Grid, seed: u32, x: int, y: int) -> bool {
    let w = g0.width as int;
    let h = g0.height as int;
    &&& g.tile(x, y) == if is_lake(seed, w, h, x, y) {
        TileKind::Water
    } else {
        g0.tile(x, y)
    }
    &&& g.elev(x, y) == if !is_lake(seed, w, h, x, y) && is_high(seed, w, h, x, y) {
        2u8
    } else {
        g0.elev(x, y)
    }
}

fn height_at(seed: u32, w: u32, h: u32, x: u32, y: u32) -> (v: i32)
    requires
        1 <= w <= MAX_SIDE,
        1 <= h <= MAX_SIDE,
        x < w,
        y < h,
    ensures
        v as int == height_value(seed, w as int, h as int, x as int, y as int),
        -NOISE_ONE <= v <= 2 * NOISE_ONE,
{
    let val = octave(seed, x * 256 / 25, y * 256 / 25, 4);
    let ex = if x < w - 1 - x {
        x
    } else {
        w - 1 - x
    };
    let ey = if y < h - 1 - y {
        y
    } else {
        h - 1 - y
    };
    let d = if ex < ey {
        ex
    } else {
        ey
    };
    let e = d * 1024 / BORDER_SIZE;
    let e1 = if e > 1024 {
        1024
    } else {
        e
    };
    let t = 1024 - e1;
    proof {
        assert(t * t <= 1024 * 1024) by (nonlinear_arith)
            requires
                t <= 1024,
        ;
    }
    let bias = (t * t / 1024) as i32;
    proof {
        reveal(height_value);
    }
    val + bias
}

/// Heightmap over rows `[y0, y1)`: lakes become water, high ground gets
/// elevation 2; every other cell and all decorations and buildings stay.
pub fn heightmap_rows(grid: &mut Grid, seed: u32, y0: u32, y1: u32)
    requires
        old(grid).wf(),
        old(grid).width >= 1,
        y0 <= y1 <= old(grid).height,
    ensures
        final(grid).wf(),
        final(grid).same_shape(old(grid)),
        final(grid).decorations@ == old(grid).decorations@,
        final(grid).buildings@ == old(grid).buildings@,
        forall|x: int, y: int|
            #![trigger final(grid).tile(x, y)]
            final(grid).in_grid(x, y) ==> if y0 <= y < y1 {
                height_applied(*old(grid), *final(grid), seed, x, y)
            } else {
                final(grid).tile(x, y) == old(grid).tile(x, y) && final(grid).elev(x, y) == old(
                    grid,
                ).elev(x, y)
            },
{
    let ghost g0 = *grid;
    let w = grid.width;
    let h = grid.height;
    let mut y = y0;
    while y < y1
        invariant
            grid.wf(),
            grid.same_shape(&g0),
            g0.wf(),
            w == g0.width,
            h == g0.height,
            w >= 1,
            y0 <= y <= y1 <= h,
            grid.decorations@ == g0.decorations@,
            grid.buildings@ == g0.buildings@,
            forall|x2: int, y2: int|
                #![trigger grid.tile(x2, y2)]
                grid.in_grid(x2, y2) ==> if done_before(y0 as int, 0, y as int, x2, y2) {
                    height_applied(g0, *grid, seed, x2, y2)
                } else {
                    grid.tile(x2, y2) == g0.tile(x2, y2) && grid.elev(x2, y2) == g0.elev(x2, y2)
                },
        decreases y1 - y,
    {
        let mut x: u32 = 0;
        while x < w
            invariant
                grid.wf(),
                grid.same_shape(&g0),
                g0.wf(),
                w == g0.width,
                h == g0.height,
                w >= 1,
                y0 <= y < y1 <= h,
                x <= w,
                grid.decorations@ == g0.decorations@,
                grid.buildings@ == g0.buildings@,
                forall|x2: int, y2: int|
                    #![trigger grid.tile(x2, y2)]
                    grid.in_grid(x2, y2) ==> if done_before(y0 as int, x as int, y as int, x2, y2) {
                        height_applied(g0, *grid, seed, x2, y2)
                    } else {
                        grid.tile(x2, y2) == g0.tile(x2, y2) && grid.elev(x2, y2) == g0.elev(
                            x2,
                            y2,
                        )
                    },
            decreases w - x,
        {
            let v = height_at(seed, w, h, x, y);
            let ghost g1 = *grid;
            assert(g1.tile(x as int, y as int) == g0.tile(x as int, y as int) && g1.elev(
                x as int,
                y as int,
            ) == g0.elev(x as int, y as int));
            if v * 10 < -3 * NOISE_ONE {
                grid.set(x, y, TileKind::Water);
            } else if v * 100 > 45 * NOISE_ONE {
                grid.set_elevation(x, y, 2);
            }
            proof {
                lemma_index_distinct(g1, x as int, y as int, x as int, y as int);
                assert(height_applied(g0, *grid, seed, x as int, y as int));
                assert forall|x2: int, y2: int|
                    #![trigger grid.tile(x2, y2)]
                    grid.in_grid(x2, y2) implies if done_before(
                        y0 as int,
                        x + 1,
                        y as int,
                        x2,
                        y2,
                    ) {
                        height_applied(g0, *grid, seed, x2, y2)
                    } else {
                        grid.tile(x2, y2) == g0.tile(x2, y2) && grid.elev(x2, y2) == g0.elev(x2, y2)
                    } by {
                    if x2 != x || y2 != y {
                        lemma_index_distinct(g1, x2, y2, x as int, y as int);
                        assert(grid.tile(x2, y2) == g1.tile(x2, y2));
                        assert(grid.elev(x2, y2) == g1.elev(x2, y2));
                        assert(g1.tile(x2, y2) == g1.tile(x2, y2));
                    }
                }
            }
            x = x + 1;
        }
        y = y + 1;
    }
}


// ---------------------------------------------------------------------------
// Water smoothing
// ---------------------------------------------------------------------------

/// Water cells among the first `k` of the eight neighbours of `(x, y)`.
pub open spec fn water_count(g: Grid, x: int, y: int, k: int) -> int
    decreases k,
{
    if k <= 0 {
        0
    } else {
        water_count(g, x, y, k - 1) + if g.tile(x + nb_dx(k - 1), y + nb_dy(k - 1))
            == TileKind::Water {
            1int
        } else {
            0int
        }
    }
}

/// Smoothing rule of an interior cell: water with fewer than 3 water
/// neighbours dries (`Some(false)`), land with 5 or more floods
/// (`Some(true)`), anything else stays (`None`).
pub open spec fn water_decision(g: Grid, x: int, y: int) -> Option<bool> {
    let n = water_count(g, x, y, 8);
    if g.tile(x, y) == TileKind::Water && n < 3 {
        Some(false)
    } else if g.tile(x, y) != TileKind::Water && n >= 5 {
        Some(true)
    } else {
        None
    }
}

/// Decisions of row `y` for columns `[1, x1)`, in column order.
pub open spec fn row_changes(g: Grid, y: int, x1: int) -> Seq<(u32, u32, bool)>
    decreases x1,
{
    if x1 <= 1 {
        Seq::empty()
    } else {
        row_changes(g, y, x1 - 1) + match water_decision(g, x1 - 1, y) {
            Some(b) => seq![((x1 - 1) as u32, y as u32, b)],
            None => Seq::empty(),
        }
    }
}

/// Decisions of the interior cells of rows `[ys, y)`, in row-major order.
pub open spec fn band_changes(g: Grid, ys: int, y: int) -> Seq<(u32, u32, bool)>
    decreases y - ys,
{
    if y <= ys {
        Seq::empty()
    } else {
        band_changes(g, ys, y - 1) + row_changes(g, y - 1, g.width - 1)
    }
}

/// First interior row of the band `[y0, y1)`.
pub open spec fn scan_start(y0: int) -> int {
    if y0 < 1 {
        1
    } else {
        y0
    }
}

/// End of the interior rows of the band `[y0, y1)`.
pub open spec fn scan_end(g: Grid, y1: int) -> int {
    if y1 < g.height - 1 {
        y1
    } else {
        g.height - 1
    }
}

/// Scan the interior cells of rows `[y0, y1)` and append their smoothing
/// decisions, in row-major order, to `changes`. The grid is only read.
pub fn water_scan_rows(grid: &Grid, changes: &mut Vec<(u32, u32, bool)>, y0: u32, y1: u32)
    requires
        grid.wf(),
        grid.width >= 2,
        grid.height >= 2,
        y0 <= y1,
    ensures
        final(changes)@ == old(changes)@ + band_changes(
            *grid,
            scan_start(y0 as int),
            if scan_end(*grid, y1 as int) < scan_start(y0 as int) {
                scan_start(y0 as int)
            } else {
                scan_end(*grid, y1 as int)
            },
        ),
{
    let w = grid.width;
    let h = grid.height;
    let ys = if y0 < 1 {
        1
    } else {
        y0
    };
    let ye0 = if y1 < h - 1 {
        y1
    } else {
        h - 1
    };
    let ye = if ye0 < ys {
        ys
    } else {
        ye0
    };
    let mut y = ys;
    proof {
        assert(band_changes(*grid, ys as int, ys as int) =~= Seq::<(u32, u32, bool)>::empty());
        assert(old(changes)@ + Seq::<(u32, u32, bool)>::empty() =~= old(changes)@);
    }
    while y < ye
        invariant
            grid.wf(),
            w == grid.width,
            h == grid.height,
            w >= 2,
            h >= 2,
            1 <= ys <= y <= ye,
            ye <= h - 1 || ye == ys,
            changes@ == old(changes)@ + band_changes(*grid, ys as int, y as int),
        decreases ye - y,
    {
        let ghost before = changes@;
        let mut x: u32 = 1;
        proof {
            assert(row_changes(*grid, y as int, 1) =~= Seq::<(u32, u32, bool)>::empty());
            assert(before + Seq::<(u32, u32, bool)>::empty() =~= before);
        }
        while x < w - 1
            invariant
                grid.wf(),
                w == grid.width,
                h == grid.height,
                w >= 2,
                1 <= y < h - 1,
                1 <= x <= w - 1,
                changes@ == before + row_changes(*grid, y as int, x as int),
            decreases w - 1 - x,
        {
            let mut n: u32 = 0;
            let mut k: usize = 0;
            while k < 8
                invariant
                    grid.wf(),
                    w == grid.width,
                    h == grid.height,
                    1 <= y < h - 1,
                    1 <= x < w - 1,
                    k <= 8,
                    n == water_count(*grid, x as int, y as int, k as int),
                    n <= k,
                decreases 8 - k,
            {
                let (dx, dy) = nb_offset(k);
                if grid.get((x as i32 + dx) as u32, (y as i32 + dy) as u32) == TileKind::Water {
                    n = n + 1;
                }
                k = k + 1;
            }
            let is_water = grid.get(x, y) == TileKind::Water;
            let ghost c0 = changes@;
            if is_water && n < 3 {
                changes.push((x, y, false));
            } else if !is_water && n >= 5 {
                changes.push((x, y, true));
            }
            proof {
                let r1 = row_changes(*grid, y as int, x + 1);
                assert(r1 == row_changes(*grid, y as int, x as int) + match water_decision(
                    *grid,
                    x as int,
                    y as int,
                ) {
                    Some(b) => seq![(x, y, b)],
                    None => Seq::empty(),
                });
                match water_decision(*grid, x as int, y as int) {
                    Some(b) => {
                        assert(changes@ =~= c0.push((x, y, b)));
                        assert(before + r1 =~= before + row_changes(*grid, y as int, x as int)
                            + seq![(x, y, b)]);
                    },
                    None => {
                        assert(before + r1 =~= before + row_changes(*grid, y as int, x as int));
                    },
                }
            }
            x = x + 1;
        }
        proof {
            assert(band_changes(*grid, ys as int, y + 1) == band_changes(*grid, ys as int, y as int)
                + row_changes(*grid, y as int, w - 1));
            assert(old(changes)@ + band_changes(*grid, ys as int, y + 1) =~= old(changes)@
                + band_changes(*grid, ys as int, y as int) + row_changes(*grid, y as int, w - 1));
        }
        y = y + 1;
    }
}

/// Tiles after applying smoothing decisions in order: flooding sets water,
/// drying sets grass.
pub open spec fn applied_tiles(g: Grid, cs: Seq<(u32, u32, bool)>) -> Seq<TileKind>
    decreases cs.len(),
{
    if cs.len() == 0 {
        g.tiles@
    } else {
        let c = cs.last();
        applied_tiles(g, cs.drop_last()).update(
            g.index(c.0 as int, c.1 as int),
            if c.2 {
                TileKind::Water
            } else {
                TileKind::Grass
            },
        )
    }
}

/// Elevations after applying smoothing decisions: flooded cells drop to 0.
pub open spec fn applied_elevations(g: Grid, cs: Seq<(u32, u32, bool)>) -> Seq<u8>
    decreases cs.len(),
{
    if cs.len() == 0 {
        g.elevations@
    } else {
        let c = cs.last();
        let e = applied_elevations(g, cs.drop_last());
        if c.2 {
            e.update(g.index(c.0 as int, c.1 as int), 0u8)
        } else {
            e
        }
    }
}

/// Decorations after applying smoothing decisions: flooded cells lose theirs.
pub open spec fn applied_decorations(g: Grid, cs: Seq<(u32, u32, bool)>) -> Seq<
    Option<Decoration>,
>
    decreases cs.len(),
{
    if cs.len() == 0 {
        g.decorations@
    } else {
        let c = cs.last();
        let d = applied_decorations(g, cs.drop_last());
        if c.2 {
            d.update(g.index(c.0 as int, c.1 as int), None)
        } else {
            d
        }
    }
}

/// Apply the collected smoothing decisions in order and empty the list.
pub fn apply_water_changes(grid: &mut Grid, changes: &mut Vec<(u32, u32, bool)>)
    requires
        old(grid).wf(),
        forall|i: int|
            0 <= i < old(changes)@.len() ==> old(grid).in_grid(
                (#[trigger] old(changes)@[i]).0 as int,
                old(changes)@[i].1 as int,
            ),
    ensures
        final(grid).wf(),
        final(grid).same_shape(old(grid)),
        final(grid).buildings@ == old(grid).buildings@,
        final(grid).tiles@ == applied_tiles(*old(grid), old(changes)@),
        final(grid).elevations@ == applied_elevations(*old(grid), old(changes)@),
        final(grid).decorations@ == applied_decorations(*old(grid), old(changes)@),
        final(changes)@.len() == 0,
{
    let ghost g0 = *grid;
    let ghost cs = changes@;
    let n = changes.len();
    let mut i: usize = 0;
    while i < n
        invariant
            grid.wf(),
            grid.same_shape(&g0),
            g0.wf(),
            n == cs.len(),
            changes@ == cs,
            i <= n,
            forall|j: int| 0 <= j < cs.len() ==> g0.in_grid((#[trigger] cs[j]).0 as int, cs[j].1 as int),
            grid.buildings@ == g0.buildings@,
            grid.tiles@ == applied_tiles(g0, cs.take(i as int)),
            grid.elevations@ == applied_elevations(g0, cs.take(i as int)),
            grid.decorations@ == applied_decorations(g0, cs.take(i as int)),
        decreases n - i,
    {
        let (x, y, make_water) = changes[i];
        proof {
            assert(cs.take(i + 1).drop_last() =~= cs.take(i as int));
            assert(cs.take(i + 1).last() == cs[i as int]);
            assert(g0.in_grid(cs[i as int].0 as int, cs[i as int].1 as int));
        }
        if make_water {
            grid.set(x, y, TileKind::Water);
            grid.set_elevation(x, y, 0);
            grid.set_decoration(x, y, None);
        } else {
            grid.set(x, y, TileKind::Grass);
        }
        i = i + 1;
    }
    proof {
        assert(cs.take(n as int) =~= cs);
    }
    changes.clear();
}


// ---------------------------------------------------------------------------
// Trees
// ---------------------------------------------------------------------------

/// A tree seed: three octaves of noise at 0.07 per tile, offset by 100
/// tiles, normalised to `[0, 1]` and below 0.3.
pub open spec fn tree_seed(seed: u32, x: int, y: int) -> bool {
    spec_octave(seed, (x * 448 / 25 + 25600) as u32, (y * 448 / 25 + 25600) as u32, 3) * 10 < -4
        * NOISE_ONE
}

/// Seed the tree layer over rows `[y0, y1)` of a `w × h` grid.
pub fn tree_seed_rows(cells: &mut Vec<bool>, w: u32, h: u32, seed: u32, y0: u32, y1: u32)
    requires
        w <= MAX_SIDE,
        h <= MAX_SIDE,
        old(cells)@.len() == w * h,
        y0 <= y1 <= h,
    ensures
        final(cells)@.len() == w * h,
        forall|x: int, y: int|
            0 <= x < w && 0 <= y < h ==> #[trigger] final(cells)@[y * w + x] == if y0 <= y < y1 {
                tree_seed(seed, x, y)
            } else {
                old(cells)@[y * w + x]
            },
{
    let ghost c0 = cells@;
    let mut y = y0;
    while y < y1
        invariant
            w <= MAX_SIDE,
            h <= MAX_SIDE,
            c0.len() == w * h,
            cells@.len() == w * h,
            y0 <= y <= y1 <= h,
            forall|x2: int, y2: int|
                0 <= x2 < w && 0 <= y2 < h ==> #[trigger] cells@[y2 * w + x2] == if done_before(
                    y0 as int,
                    0,
                    y as int,
                    x2,
                    y2,
                ) {
                    tree_seed(seed, x2, y2)
                } else {
                    c0[y2 * w + x2]
                },
        decreases y1 - y,
    {
        let mut x: u32 = 0;
        while x < w
            invariant
                w <= MAX_SIDE,
                h <= MAX_SIDE,
                c0.len() == w * h,
                cells@.len() == w * h,
                y0 <= y < y1 <= h,
                x <= w,
                forall|x2: int, y2: int|
                    0 <= x2 < w && 0 <= y2 < h ==> #[trigger] cells@[y2 * w + x2] == if done_before(
                        y0 as int,
                        x as int,
                        y as int,
                        x2,
                        y2,
                    ) {
                        tree_seed(seed, x2, y2)
                    } else {
                        c0[y2 * w + x2]
                    },
            decreases w - x,
        {
            let v = octave(seed, x * 448 / 25 + 25600, y * 448 / 25 + 25600, 3);
            proof {
                lemma_cell_index(w as int, h as int, x as int, y as int);
                crate::grid::lemma_side_product(w as int, h as int);
            }
            let i = (y * w + x) as usize;
            let ghost c1 = cells@;
            cells.set(i, v * 10 < -4 * NOISE_ONE);
            proof {
                assert forall|x2: int, y2: int|
                    0 <= x2 < w && 0 <= y2 < h && (x2 != x || y2 != y) implies #[trigger] cells@[y2
                    * w + x2] == c1[y2 * w + x2] by {
                    lemma_cell_index(w as int, h as int, x2, y2);
                    if y2 * w + x2 == i {
                        crate::grid::lemma_cell_index_injective(w as int, x2, y2, x as int, y as int);
                    }
                }
            }
            x = x + 1;
        }
        y = y + 1;
    }
}

/// Cellular automaton rule for trees: a live cell survives with 2 or more
/// live neighbours, an empty one is born with 4 or more (off-grid
/// neighbours count as live).
pub open spec fn tree_next(cur: Seq<bool>, w: int, h: int, x: int, y: int) -> bool {
    let n = live_count_upto(cur, w, h, x, y, 8);
    if cur[y * w + x] {
        n >= 2
    } else {
        n >= 4
    }
}

/// One automaton step over rows `[y0, y1)`, reading `cur` and writing `next`.
pub fn tree_ca_rows(cur: &Vec<bool>, next: &mut Vec<bool>, w: u32, h: u32, y0: u32, y1: u32)
    requires
        w <= MAX_SIDE,
        h <= MAX_SIDE,
        cur@.len() == w * h,
        old(next)@.len() == w * h,
        y0 <= y1 <= h,
    ensures
        final(next)@.len() == w * h,
        forall|x: int, y: int|
            0 <= x < w && 0 <= y < h ==> #[trigger] final(next)@[y * w + x] == if y0 <= y < y1 {
                tree_next(cur@, w as int, h as int, x, y)
            } else {
                old(next)@[y * w + x]
            },
{
    let ghost c0 = next@;
    let mut y = y0;
    while y < y1
        invariant
            w <= MAX_SIDE,
            h <= MAX_SIDE,
            cur@.len() == w * h,
            c0.len() == w * h,
            next@.len() == w * h,
            y0 <= y <= y1 <= h,
            forall|x2: int, y2: int|
                0 <= x2 < w && 0 <= y2 < h ==> #[trigger] next@[y2 * w + x2] == if done_before(
                    y0 as int,
                    0,
                    y as int,
                    x2,
                    y2,
                ) {
                    tree_next(cur@, w as int, h as int, x2, y2)
                } else {
                    c0[y2 * w + x2]
                },
        decreases y1 - y,
    {
        let mut x: u32 = 0;
        while x < w
            invariant
                w <= MAX_SIDE,
                h <= MAX_SIDE,
                cur@.len() == w * h,
                c0.len() == w * h,
                next@.len() == w * h,
                y0 <= y < y1 <= h,
                x <= w,
                forall|x2: int, y2: int|
                    0 <= x2 < w && 0 <= y2 < h ==> #[trigger] next@[y2 * w + x2] == if done_before(
                        y0 as int,
                        x as int,
                        y as int,
                        x2,
                        y2,
                    ) {
                        tree_next(cur@, w as int, h as int, x2, y2)
                    } else {
                        c0[y2 * w + x2]
                    },
            decreases w - x,
        {
            let n = count_neighbors(cur.as_slice(), w, h, x, y);
            proof {
                lemma_cell_index(w as int, h as int, x as int, y as int);
                crate::grid::lemma_side_product(w as int, h as int);
            }
            let i = (y * w + x) as usize;
            let alive = if cur[i] {
                n >= 2
            } else {
                n >= 4
            };
            let ghost c1 = next@;
            next.set(i, alive);
            proof {
                assert forall|x2: int, y2: int|
                    0 <= x2 < w && 0 <= y2 < h && (x2 != x || y2 != y) implies #[trigger] next@[y2
                    * w + x2] == c1[y2 * w + x2] by {
                    lemma_cell_index(w as int, h as int, x2, y2);
                    if y2 * w + x2 == i {
                        crate::grid::lemma_cell_index_injective(w as int, x2, y2, x as int, y as int);
                    }
                }
            }
            x = x + 1;
        }
        y = y + 1;
    }
}

/// Ground that takes trees, rocks and bushes: grass, flat unless in the
/// border ring, and not next to a cliff.
pub open spec fn open_ground(g: Grid, x: int, y: int) -> bool {
    &&& g.tile(x, y) == TileKind::Grass
    &&& (g.elev(x, y) == 0 || spec_in_border(x, y))
    &&& !spec_near_cliff(g, x, y)
}

fn is_open_ground(grid: &Grid, x: u32, y: u32) -> (r: bool)
    requires
        grid.wf(),
        grid.in_grid(x as int, y as int),
    ensures
        r == open_ground(*grid, x as int, y as int),
{
    grid.get(x, y) == TileKind::Grass && (grid.elevation(x, y) == 0 || in_border(x, y))
        && !near_cliff(grid, x, y)
}

/// Plant forest over rows `[y0, y1)` where the tree layer is live on open
/// ground.
pub fn tree_place_rows(grid: &mut Grid, cells: &Vec<bool>, y0: u32, y1: u32)
    requires
        old(grid).wf(),
        cells@.len() == old(grid).width * old(grid).height,
        y0 <= y1 <= old(grid).height,
    ensures
        final(grid).wf(),
        final(grid).same_shape(old(grid)),
        final(grid).elevations@ == old(grid).elevations@,
        final(grid).decorations@ == old(grid).decorations@,
        final(grid).buildings@ == old(grid).buildings@,
        forall|x: int, y: int|
            #![trigger final(grid).tile(x, y)]
            final(grid).in_grid(x, y) ==> final(grid).tile(x, y) == if y0 <= y < y1 && cells@[y
                * old(grid).width + x] && open_ground(*old(grid), x, y) {
                TileKind::Forest
            } else {
                old(grid).tile(x, y)
            },
{
    let ghost g0 = *grid;
    let w = grid.width;
    let h = grid.height;
    let mut y = y0;
    while y < y1
        invariant
            grid.wf(),
            grid.same_shape(&g0),
            g0.wf(),
            w == g0.width,
            h == g0.height,
            cells@.len() == w * h,
            y0 <= y <= y1 <= h,
            grid.elevations@ == g0.elevations@,
            grid.decorations@ == g0.decorations@,
            grid.buildings@ == g0.buildings@,
            forall|x2: int, y2: int|
                #![trigger grid.tile(x2, y2)]
                grid.in_grid(x2, y2) ==> grid.tile(x2, y2) == if done_before(
                    y0 as int,
                    0,
                    y as int,
                    x2,
                    y2,
                ) && cells@[y2 * w + x2] && open_ground(g0, x2, y2) {
                    TileKind::Forest
                } else {
                    g0.tile(x2, y2)
                },
        decreases y1 - y,
    {
        let mut x: u32 = 0;
        while x < w
            invariant
                grid.wf(),
                grid.same_shape(&g0),
                g0.wf(),
                w == g0.width,
                h == g0.height,
                cells@.len() == w * h,
                y0 <= y < y1 <= h,
                x <= w,
                grid.elevations@ == g0.elevations@,
                grid.decorations@ == g0.decorations@,
                grid.buildings@ == g0.buildings@,
                forall|x2: int, y2: int|
                    #![trigger grid.tile(x2, y2)]
                    grid.in_grid(x2, y2) ==> grid.tile(x2, y2) == if done_before(
                        y0 as int,
                        x as int,
                        y as int,
                        x2,
                        y2,
                    ) && cells@[y2 * w + x2] && open_ground(g0, x2, y2) {
                        TileKind::Forest
                    } else {
                        g0.tile(x2, y2)
                    },
            decreases w - x,
        {
            proof {
                lemma_cell_index(w as int, h as int, x as int, y as int);
            }
            let i = (y * w + x) as usize;
            let ghost g1 = *grid;
            assert(g1.tile(x as int, y as int) == g0.tile(x as int, y as int));
            proof {
                // Only this cell's tile has changed so far near it; the test reads
                // elevations, which this layer never writes.
                assert(spec_near_cliff(g1, x as int, y as int) == spec_near_cliff(g0, x as int, y as int));
            }
            if cells[i] && is_open_ground(grid, x, y) {
                grid.set(x, y, TileKind::Forest);
            }
            proof {
                assert(open_ground(g1, x as int, y as int) == open_ground(g0, x as int, y as int));
                assert forall|x2: int, y2: int|
                    #![trigger grid.tile(x2, y2)]
                    grid.in_grid(x2, y2) && (x2 != x || y2 != y) implies grid.tile(x2, y2)
                        == g1.tile(x2, y2) by {
                    lemma_index_distinct(g1, x2, y2, x as int, y as int);
                }
                lemma_index_distinct(g1, x as int, y as int, x as int, y as int);
            }
            x = x + 1;
        }
        y = y + 1;
    }
}


// ---------------------------------------------------------------------------
// Random scatter
// ---------------------------------------------------------------------------

/// Draw thresholds over the low 24 bits: rocks 3%, bushes 4%, water rocks 12%.
pub const ROCK_THRESHOLD: u32 = 503_317;
pub const BUSH_THRESHOLD: u32 = 671_089;
pub const WATER_ROCK_THRESHOLD: u32 = 2_013_266;

/// Generator state before cell `(x, y)` of a `w`-wide band starting at row
/// `y0` when every cell draws once, starting from state `s0`.
pub open spec fn state_all(s0: u32, w: int, y0: int, x: int, y: int) -> u32
    decreases y - y0, x,
{
    if y <= y0 && x <= 0 {
        s0
    } else if x <= 0 {
        state_all(s0, w, y0, w, y - 1)
    } else {
        xorshift(state_all(s0, w, y0, x - 1, y))
    }
}

/// Generator state before cell `(x, y)` when only water cells draw.
pub open spec fn state_water(g: Grid, s0: u32, y0: int, x: int, y: int) -> u32
    decreases y - y0, x,
{
    if y <= y0 && x <= 0 {
        s0
    } else if x <= 0 {
        state_water(g, s0, y0, g.width as int, y - 1)
    } else {
        let s = state_water(g, s0, y0, x - 1, y);
        if g.tile(x - 1, y) == TileKind::Water {
            xorshift(s)
        } else {
            s
        }
    }
}

/// A draw from state `s` succeeds under `threshold`.
pub open spec fn draw_hits(s: u32, threshold: u32) -> bool {
    (xorshift(s) & 0x00FF_FFFFu32) < threshold
}

/// Scatter rocks over rows `[y0, y1)`: every cell draws once and open ground
/// whose draw hits the rock threshold becomes rock.
pub fn rock_rows(grid: &mut Grid, rng: &mut Rng, y0: u32, y1: u32)
    requires
        old(grid).wf(),
        y0 <= y1 <= old(grid).height,
    ensures
        final(grid).wf(),
        final(grid).same_shape(old(grid)),
        final(grid).elevations@ == old(grid).elevations@,
        final(grid).decorations@ == old(grid).decorations@,
        final(grid).buildings@ == old(grid).buildings@,
        final(rng).state == state_all(old(rng).state, old(grid).width as int, y0 as int, 0, y1 as int),
        forall|x: int, y: int|
            #![trigger final(grid).tile(x, y)]
            final(grid).in_grid(x, y) ==> final(grid).tile(x, y) == if y0 <= y < y1 && draw_hits(
                state_all(old(rng).state, old(grid).width as int, y0 as int, x, y),
                ROCK_THRESHOLD,
            ) && open_ground(*old(grid), x, y) {
                TileKind::Rock
            } else {
                old(grid).tile(x, y)
            },
{
    let ghost g0 = *grid;
    let ghost s0 = rng.state;
    let w = grid.width;
    let h = grid.height;
    let mut y = y0;
    while y < y1
        invariant
            grid.wf(),
            grid.same_shape(&g0),
            g0.wf(),
            w == g0.width,
            h == g0.height,
            y0 <= y <= y1 <= h,
            grid.elevations@ == g0.elevations@,
            grid.decorations@ == g0.decorations@,
            grid.buildings@ == g0.buildings@,
            rng.state == state_all(s0, w as int, y0 as int, 0, y as int),
            forall|x2: int, y2: int|
                #![trigger grid.tile(x2, y2)]
                grid.in_grid(x2, y2) ==> grid.tile(x2, y2) == if done_before(
                    y0 as int,
                    0,
                    y as int,
                    x2,
                    y2,
                ) && draw_hits(state_all(s0, w as int, y0 as int, x2, y2), ROCK_THRESHOLD)
                    && open_ground(g0, x2, y2) {
                    TileKind::Rock
                } else {
                    g0.tile(x2, y2)
                },
        decreases y1 - y,
    {
        let mut x: u32 = 0;
        while x < w
            invariant
                grid.wf(),
                grid.same_shape(&g0),
                g0.wf(),
                w == g0.width,
                h == g0.height,
                y0 <= y < y1 <= h,
                x <= w,
                grid.elevations@ == g0.elevations@,
                grid.decorations@ == g0.decorations@,
                grid.buildings@ == g0.buildings@,
                rng.state == state_all(s0, w as int, y0 as int, x as int, y as int),
                forall|x2: int, y2: int|
                    #![trigger grid.tile(x2, y2)]
                    grid.in_grid(x2, y2) ==> grid.tile(x2, y2) == if done_before(
                        y0 as int,
                        x as int,
                        y as int,
                        x2,
                        y2,
                    ) && draw_hits(state_all(s0, w as int, y0 as int, x2, y2), ROCK_THRESHOLD)
                        && open_ground(g0, x2, y2) {
                        TileKind::Rock
                    } else {
                        g0.tile(x2, y2)
                    },
            decreases w - x,
        {
            let ghost g1 = *grid;
            let ghost st = rng.state;
            assert(g1.tile(x as int, y as int) == g0.tile(x as int, y as int));
            proof {
                assert(spec_near_cliff(g1, x as int, y as int) == spec_near_cliff(g0, x as int, y as int));
                assert(open_ground(g1, x as int, y as int) == open_ground(g0, x as int, y as int));
            }
            if rng.chance(ROCK_THRESHOLD) && is_open_ground(grid, x, y) {
                grid.set(x, y, TileKind::Rock);
            }
            proof {
                assert(rng.state == state_all(s0, w as int, y0 as int, x + 1, y as int));
                assert forall|x2: int, y2: int|
                    #![trigger grid.tile(x2, y2)]
                    grid.in_grid(x2, y2) && (x2 != x || y2 != y) implies grid.tile(x2, y2)
                        == g1.tile(x2, y2) by {
                    lemma_index_distinct(g1, x2, y2, x as int, y as int);
                }
                lemma_index_distinct(g1, x as int, y as int, x as int, y as int);
            }
            x = x + 1;
        }
        proof {
            assert(state_all(s0, w as int, y0 as int, 0, y + 1) == state_all(
                s0,
                w as int,
                y0 as int,
                w as int,
                y as int,
            ));
        }
        y = y + 1;
    }
}

/// Scatter bushes over rows `[y0, y1)`: every cell draws once and open
/// ground whose draw hits the bush threshold gets a bush.
pub fn bush_rows(grid: &mut Grid, rng: &mut Rng, y0: u32, y1: u32)
    requires
        old(grid).wf(),
        y0 <= y1 <= old(grid).height,
    ensures
        final(grid).wf(),
        final(grid).same_shape(old(grid)),
        final(grid).tiles@ == old(grid).tiles@,
        final(grid).elevations@ == old(grid).elevations@,
        final(grid).buildings@ == old(grid).buildings@,
        final(rng).state == state_all(old(rng).state, old(grid).width as int, y0 as int, 0, y1 as int),
        forall|x: int, y: int|
            #![trigger final(grid).deco(x, y)]
            final(grid).in_grid(x, y) ==> final(grid).deco(x, y) == if y0 <= y < y1 && draw_hits(
                state_all(old(rng).state, old(grid).width as int, y0 as int, x, y),
                BUSH_THRESHOLD,
            ) && open_ground(*old(grid), x, y) {
                Some(Decoration::Bush)
            } else {
                old(grid).deco(x, y)
            },
{
    let ghost g0 = *grid;
    let ghost s0 = rng.state;
    let w = grid.width;
    let h = grid.height;
    let mut y = y0;
    while y < y1
        invariant
            grid.wf(),
            grid.same_shape(&g0),
            g0.wf(),
            w == g0.width,
            h == g0.height,
            y0 <= y <= y1 <= h,
            grid.tiles@ == g0.tiles@,
            grid.elevations@ == g0.elevations@,
            grid.buildings@ == g0.buildings@,
            rng.state == state_all(s0, w as int, y0 as int, 0, y as int),
            forall|x2: int, y2: int|
                #![trigger grid.deco(x2, y2)]
                grid.in_grid(x2, y2) ==> grid.deco(x2, y2) == if done_before(
                    y0 as int,
                    0,
                    y as int,
                    x2,
                    y2,
                ) && draw_hits(state_all(s0, w as int, y0 as int, x2, y2), BUSH_THRESHOLD)
                    && open_ground(g0, x2, y2) {
                    Some(Decoration::Bush)
                } else {
                    g0.deco(x2, y2)
                },
        decreases y1 - y,
    {
        let mut x: u32 = 0;
        while x < w
            invariant
                grid.wf(),
                grid.same_shape(&g0),
                g0.wf(),
                w == g0.width,
                h == g0.height,
                y0 <= y < y1 <= h,
                x <= w,
                grid.tiles@ == g0.tiles@,
                grid.elevations@ == g0.elevations@,
                grid.buildings@ == g0.buildings@,
                rng.state == state_all(s0, w as int, y0 as int, x as int, y as int),
                forall|x2: int, y2: int|
                    #![trigger grid.deco(x2, y2)]
                    grid.in_grid(x2, y2) ==> grid.deco(x2, y2) == if done_before(
                        y0 as int,
                        x as int,
                        y as int,
                        x2,
                        y2,
                    ) && draw_hits(state_all(s0, w as int, y0 as int, x2, y2), BUSH_THRESHOLD)
                        && open_ground(g0, x2, y2) {
                        Some(Decoration::Bush)
                    } else {
                        g0.deco(x2, y2)
                    },
            decreases w - x,
        {
            let ghost g1 = *grid;
            proof {
                assert(spec_near_cliff(g1, x as int, y as int) == spec_near_cliff(g0, x as int, y as int));
                assert(open_ground(g1, x as int, y as int) == open_ground(g0, x as int, y as int));
            }
            if rng.chance(BUSH_THRESHOLD) && is_open_ground(grid, x, y) {
                grid.set_decoration(x, y, Some(Decoration::Bush));
            }
            proof {
                assert(g1.deco(x as int, y as int) == g0.deco(x as int, y as int));
                assert(rng.state == state_all(s0, w as int, y0 as int, x + 1, y as int));
                assert forall|x2: int, y2: int|
                    #![trigger grid.deco(x2, y2)]
                    grid.in_grid(x2, y2) && (x2 != x || y2 != y) implies grid.deco(x2, y2)
                        == g1.deco(x2, y2) by {
                    lemma_index_distinct(g1, x2, y2, x as int, y as int);
                }
                lemma_index_distinct(g1, x as int, y as int, x as int, y as int);
            }
            x = x + 1;
        }
        proof {
            assert(state_all(s0, w as int, y0 as int, 0, y + 1) == state_all(
                s0,
                w as int,
                y0 as int,
                w as int,
                y as int,
            ));
        }
        y = y + 1;
    }
}

/// Scatter rocks in water over rows `[y0, y1)`: only water cells draw, and
/// those whose draw hits the threshold get a water rock.
pub fn water_rock_rows(grid: &mut Grid, rng: &mut Rng, y0: u32, y1: u32)
    requires
        old(grid).wf(),
        y0 <= y1 <= old(grid).height,
    ensures
        final(grid).wf(),
        final(grid).same_shape(old(grid)),
        final(grid).tiles@ == old(grid).tiles@,
        final(grid).elevations@ == old(grid).elevations@,
        final(grid).buildings@ == old(grid).buildings@,
        final(rng).state == state_water(*old(grid), old(rng).state, y0 as int, 0, y1 as int),
        forall|x: int, y: int|
            #![trigger final(grid).deco(x, y)]
            final(grid).in_grid(x, y) ==> final(grid).deco(x, y) == if y0 <= y < y1 && old(
                grid,
            ).tile(x, y) == TileKind::Water && draw_hits(
                state_water(*old(grid), old(rng).state, y0 as int, x, y),
                WATER_ROCK_THRESHOLD,
            ) {
                Some(Decoration::WaterRock)
            } else {
                old(grid).deco(x, y)
            },
{
    let ghost g0 = *grid;
    let ghost s0 = rng.state;
    let w = grid.width;
    let h = grid.height;
    let mut y = y0;
    while y < y1
        invariant
            grid.wf(),
            grid.same_shape(&g0),
            g0.wf(),
            w == g0.width,
            h == g0.height,
            y0 <= y <= y1 <= h,
            grid.tiles@ == g0.tiles@,
            grid.elevations@ == g0.elevations@,
            grid.buildings@ == g0.buildings@,
            rng.state == state_water(g0, s0, y0 as int, 0, y as int),
            forall|x2: int, y2: int|
                #![trigger grid.deco(x2, y2)]
                grid.in_grid(x2, y2) ==> grid.deco(x2, y2) == if done_before(
                    y0 as int,
                    0,
                    y as int,
                    x2,
                    y2,
                ) && g0.tile(x2, y2) == TileKind::Water && draw_hits(
                    state_water(g0, s0, y0 as int, x2, y2),
                    WATER_ROCK_THRESHOLD,
                ) {
                    Some(Decoration::WaterRock)
                } else {
                    g0.deco(x2, y2)
                },
        decreases y1 - y,
    {
        let mut x: u32 = 0;
        while x < w
            invariant
                grid.wf(),
                grid.same_shape(&g0),
                g0.wf(),
                w == g0.width,
                h == g0.height,
                y0 <= y < y1 <= h,
                x <= w,
                grid.tiles@ == g0.tiles@,
                grid.elevations@ == g0.elevations@,
                grid.buildings@ == g0.buildings@,
                rng.state == state_water(g0, s0, y0 as int, x as int, y as int),
                forall|x2: int, y2: int|
                    #![trigger grid.deco(x2, y2)]
                    grid.in_grid(x2, y2) ==> grid.deco(x2, y2) == if done_before(
                        y0 as int,
                        x as int,
                        y as int,
                        x2,
                        y2,
                    ) && g0.tile(x2, y2) == TileKind::Water && draw_hits(
                        state_water(g0, s0, y0 as int, x2, y2),
                        WATER_ROCK_THRESHOLD,
                    ) {
                        Some(Decoration::WaterRock)
                    } else {
                        g0.deco(x2, y2)
                    },
            decreases w - x,
        {
            let ghost g1 = *grid;
            if grid.get(x, y) == TileKind::Water && rng.chance(WATER_ROCK_THRESHOLD) {
                grid.set_decoration(x, y, Some(Decoration::WaterRock));
            }
            proof {
                assert(g1.deco(x as int, y as int) == g0.deco(x as int, y as int));
                assert(g1.tile(x as int, y as int) == g0.tile(x as int, y as int));
                assert(rng.state == state_water(g0, s0, y0 as int, x + 1, y as int));
                assert forall|x2: int, y2: int|
                    #![trigger grid.deco(x2, y2)]
                    grid.in_grid(x2, y2) && (x2 != x || y2 != y) implies grid.deco(x2, y2)
                        == g1.deco(x2, y2) by {
                    lemma_index_distinct(g1, x2, y2, x as int, y as int);
                }
                lemma_index_distinct(g1, x as int, y as int, x as int, y as int);
            }
            x = x + 1;
        }
        proof {
            assert(state_water(g0, s0, y0 as int, 0, y + 1) == state_water(
                g0,
                s0,
                y0 as int,
                w as int,
                y as int,
            ));
        }
        y = y + 1;
    }
}


/// Every decision of a band names an interior cell of the grid.
pub proof fn lemma_band_changes_in_grid(g: Grid, ys: int, y: int)
    requires
        1 <= ys,
        y <= g.height - 1 || y <= ys,
    ensures
        forall|i: int|
            0 <= i < band_changes(g, ys, y).len() ==> g.in_grid(
                (#[trigger] band_changes(g, ys, y)[i]).0 as int,
                band_changes(g, ys, y)[i].1 as int,
            ),
    decreases y - ys,
{
    if y > ys {
        lemma_band_changes_in_grid(g, ys, y - 1);
        lemma_row_changes_in_grid(g, y - 1, g.width - 1);
        let a = band_changes(g, ys, y - 1);
        let b = row_changes(g, y - 1, g.width - 1);
        assert forall|i: int| 0 <= i < (a + b).len() implies g.in_grid(
            (#[trigger] (a + b)[i]).0 as int,
            (a + b)[i].1 as int,
        ) by {
            if i >= a.len() {
                assert((a + b)[i] == b[i - a.len()]);
            }
        }
    }
}

proof fn lemma_row_changes_in_grid(g: Grid, y: int, x1: int)
    requires
        1 <= y < g.height - 1,
        x1 <= g.width - 1,
    ensures
        forall|i: int|
            0 <= i < row_changes(g, y, x1).len() ==> g.in_grid(
                (#[trigger] row_changes(g, y, x1)[i]).0 as int,
                row_changes(g, y, x1)[i].1 as int,
            ),
    decreases x1,
{
    if x1 > 1 {
        lemma_row_changes_in_grid(g, y, x1 - 1);
        let a = row_changes(g, y, x1 - 1);
        let b: Seq<(u32, u32, bool)> = match water_decision(g, x1 - 1, y) {
            Some(v) => seq![((x1 - 1) as u32, y as u32, v)],
            None => Seq::empty(),
        };
        assert forall|i: int| 0 <= i < (a + b).len() implies g.in_grid(
            (#[trigger] (a + b)[i]).0 as int,
            (a + b)[i].1 as int,
        ) by {
            if i >= a.len() {
                assert((a + b)[i] == b[i - a.len()]);
            }
        }
    }
}

} // verus!
