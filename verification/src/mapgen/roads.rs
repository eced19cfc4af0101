//! Roads: which settlements to connect, routing each road with a resumable
//! A* search, painting the 2-wide road and clearing its verges.

use vstd::prelude::*;
use crate::grid::{Grid, TileKind, MAX_SIDE, lemma_cell_index, lemma_cell_index_injective};
use crate::render_util::{nb_dx, nb_dy, nb_offset};

verus! {

// ---------------------------------------------------------------------------
// Painting
// ---------------------------------------------------------------------------

/// Terrain a road may be painted over.
pub open spec fn paintable(t: TileKind) -> bool {
    t == TileKind::Grass || t == TileKind::Forest || t == TileKind::Rock
}

/// Cell `(x, y)` is covered by the 2×2 stamp of one of the first `n` path cells.
pub open spec fn stamped(path: Seq<(u32, u32)>, n: int, x: int, y: int) -> bool {
    exists|t: int|
        #![trigger path[t]]
        0 <= t < n && path[t].0 <= x <= path[t].0 + 1 && path[t].1 <= y <= path[t].1 + 1
}

/// What painting makes of one cell, given whether a stamp covers it.
pub open spec fn painted_as(g0: Grid, g: Grid, x: int, y: int, covered: bool) -> bool {
    if covered && paintable(g0.tile(x, y)) {
        &&& g.tile(x, y) == TileKind::Road
        &&& g.deco(x, y) is None
        &&& g.elev(x, y) == 0
    } else {
        &&& g.tile(x, y) == g0.tile(x, y)
        &&& g.deco(x, y) == g0.deco(x, y)
        &&& g.elev(x, y) == g0.elev(x, y)
    }
}

/// Paint one cell of a road stamp.
fn paint_cell(grid: &mut Grid, x: i32, y: i32)
    requires
        old(grid).wf(),
    ensures
        final(grid).wf(),
        final(grid).same_shape(old(grid)),
        final(grid).buildings@ == old(grid).buildings@,
        forall|x2: int, y2: int|
            #![trigger final(grid).tile(x2, y2)]
            final(grid).in_grid(x2, y2) ==> painted_as(
                *old(grid),
                *final(grid),
                x2,
                y2,
                x2 == x && y2 == y,
            ),
{
    let ghost g0 = *grid;
    if grid.in_bounds(x, y) {
        let ux = x as u32;
        let uy = y as u32;
        let tile = grid.get(ux, uy);
        if tile == TileKind::Grass || tile == TileKind::Forest || tile == TileKind::Rock {
            grid.set(ux, uy, TileKind::Road);
            grid.set_decoration(ux, uy, None);
            if grid.elevation(ux, uy) > 0 {
                grid.set_elevation(ux, uy, 0);
            }
            proof {
                lemma_cell_index(g0.width as int, g0.height as int, x as int, y as int);
                assert forall|x2: int, y2: int|
                    #![trigger grid.tile(x2, y2)]
                    grid.in_grid(x2, y2) implies painted_as(g0, *grid, x2, y2, x2 == x && y2 == y) by {
                    lemma_cell_index(g0.width as int, g0.height as int, x2, y2);
                    if g0.index(x2, y2) == g0.index(x as int, y as int) {
                        lemma_cell_index_injective(g0.width as int, x2, y2, x as int, y as int);
                    }
                }
            }
        }
    }
}

/// Paint a 2-tile-wide road along a path: every grass, forest or rock cell
/// covered by the 2×2 stamp of a path cell becomes bare road at elevation 0;
/// every other cell (water, existing road, cells off the path) is unchanged.
pub fn paint_road_path(grid: &mut Grid, path: &[(u32, u32)])
    requires
        old(grid).wf(),
        forall|t: int| 0 <= t < path@.len() ==> path@[t].0 < MAX_SIDE && path@[t].1 < MAX_SIDE,
    ensures
        final(grid).wf(),
        final(grid).same_shape(old(grid)),
        final(grid).buildings@ == old(grid).buildings@,
        forall|x: int, y: int|
            #![trigger final(grid).tile(x, y)]
            final(grid).in_grid(x, y) ==> painted_as(
                *old(grid),
                *final(grid),
                x,
                y,
                stamped(path@, path@.len() as int, x, y),
            ),
{
    let ghost g0 = *grid;
    let mut t: usize = 0;
    while t < path.len()
        invariant
            grid.wf(),
            grid.same_shape(&g0),
            grid.buildings@ == g0.buildings@,
            t <= path@.len(),
            forall|i: int| 0 <= i < path@.len() ==> path@[i].0 < MAX_SIDE && path@[i].1 < MAX_SIDE,
            forall|x: int, y: int|
                #![trigger grid.tile(x, y)]
                grid.in_grid(x, y) ==> painted_as(g0, *grid, x, y, stamped(path@, t as int, x, y)),
        decreases path@.len() - t,
    {
        let (px, py) = path[t];
        let xi = px as i32;
        let yi = py as i32;
        let ghost ga = *grid;
        paint_cell(grid, xi, yi);
        let ghost gb = *grid;
        paint_cell(grid, xi + 1, yi);
        let ghost gc = *grid;
        paint_cell(grid, xi, yi + 1);
        let ghost gd = *grid;
        paint_cell(grid, xi + 1, yi + 1);
        proof {
            assert forall|x: int, y: int|
                #![trigger grid.tile(x, y)]
                grid.in_grid(x, y) implies painted_as(
                g0,
                *grid,
                x,
                y,
                stamped(path@, t + 1, x, y),
            ) by {
                assert(ga.tile(x, y) == ga.tile(x, y));
                assert(gb.tile(x, y) == gb.tile(x, y));
                assert(gc.tile(x, y) == gc.tile(x, y));
                assert(gd.tile(x, y) == gd.tile(x, y));
                let here = px <= x <= px + 1 && py <= y <= py + 1;
                if stamped(path@, t as int, x, y) {
                    let t0 = choose|t0: int| #![trigger path@[t0]]
                        0 <= t0 < t && path@[t0].0 <= x <= path@[t0].0 + 1 && path@[t0].1 <= y
                            <= path@[t0].1 + 1;
                    assert(stamped(path@, t + 1, x, y)) by {
                        assert(0 <= t0 < t + 1);
                    }
                } else if here {
                    assert(stamped(path@, t + 1, x, y)) by {
                        assert(path@[t as int] == (px, py));
                    }
                } else {
                    assert(!stamped(path@, t + 1, x, y)) by {
                        if stamped(path@, t + 1, x, y) {
                            let t0 = choose|t0: int| #![trigger path@[t0]]
                                0 <= t0 < t + 1 && path@[t0].0 <= x <= path@[t0].0 + 1
                                    && path@[t0].1 <= y <= path@[t0].1 + 1;
                            if t0 < t {
                                assert(stamped(path@, t as int, x, y));
                            }
                        }
                    }
                }
            }
        }
        t = t + 1;
    }
}

// ---------------------------------------------------------------------------
// Verges
// ---------------------------------------------------------------------------

/// Terrain that must not touch a road: forest, rock or any elevation.
pub open spec fn verge_blocker(g: Grid, x: int, y: int) -> bool {
    g.tile(x, y) == TileKind::Forest || g.tile(x, y) == TileKind::Rock || g.elev(x, y) > 0
}

/// One of the eight neighbours of `(x, y)` is road.
pub open spec fn road_adjacent(g: Grid, x: int, y: int) -> bool {
    exists|k: int|
        0 <= k < 8 && g.in_grid(x + nb_dx(k), y + nb_dy(k)) && g.tile(x + nb_dx(k), y + nb_dy(k))
            == TileKind::Road
}

fn has_road_neighbor(grid: &Grid, x: u32, y: u32) -> (r: bool)
    requires
        grid.wf(),
        grid.in_grid(x as int, y as int),
    ensures
        r == road_adjacent(*grid, x as int, y as int),
{
    let mut k: usize = 0;
    while k < 8
        invariant
            grid.wf(),
            grid.in_grid(x as int, y as int),
            k <= 8,
            forall|k2: int|
                0 <= k2 < k ==> !(grid.in_grid(x + nb_dx(k2), y + nb_dy(k2)) && grid.tile(
                    x + nb_dx(k2),
                    y + nb_dy(k2),
                ) == TileKind::Road),
        decreases 8 - k,
    {
        let (dx, dy) = nb_offset(k);
        let nx = x as i32 + dx;
        let ny = y as i32 + dy;
        if grid.in_bounds(nx, ny) && grid.get(nx as u32, ny as u32) == TileKind::Road {
            return true;
        }
        k = k + 1;
    }
    false
}

/// Give every road a one-tile verge: each forest, rock or elevated cell
/// next to a road (as the grid stood before the call) loses its decoration and
/// elevation, and turns to grass unless it is road itself. Other cells are unchanged.
pub fn clear_road_borders(grid: &mut Grid)
    requires
        old(grid).wf(),
    ensures
        final(grid).wf(),
        final(grid).same_shape(old(grid)),
        final(grid).buildings@ == old(grid).buildings@,
        forall|x: int, y: int|
            #![trigger final(grid).tile(x, y)]
            final(grid).in_grid(x, y) ==> if verge_blocker(*old(grid), x, y) && road_adjacent(
                *old(grid),
                x,
                y,
            ) {
                &&& final(grid).tile(x, y) == if old(grid).tile(x, y) == TileKind::Road {
                    TileKind::Road
                } else {
                    TileKind::Grass
                }
                &&& final(grid).deco(x, y) is None
                &&& final(grid).elev(x, y) == 0
            } else {
                &&& final(grid).tile(x, y) == old(grid).tile(x, y)
                &&& final(grid).deco(x, y) == old(grid).deco(x, y)
                &&& final(grid).elev(x, y) == old(grid).elev(x, y)
            },
{
    let ghost g0 = *grid;
    let w = grid.width;
    let h = grid.height;
    // Decide every verge cell on the untouched grid first.
    let n: usize = (w * h) as usize;
    let mut marks: Vec<bool> = Vec::with_capacity(n);
    let mut gy: u32 = 0;
    while gy < h
        invariant
            *grid == g0,
            grid.wf(),
            w == grid.width,
            h == grid.height,
            gy <= h,
            marks@.len() == gy * w,
            forall|x: int, y: int|
                #![trigger marks@[y * w + x]]
                0 <= x < w && 0 <= y < gy ==> marks@[y * w + x] == (verge_blocker(g0, x, y)
                    && road_adjacent(g0, x, y)),
        decreases h - gy,
    {
        let mut gx: u32 = 0;
        while gx < w
            invariant
                *grid == g0,
                grid.wf(),
                w == grid.width,
                h == grid.height,
                gy < h,
                gx <= w,
                marks@.len() == gy * w + gx,
                forall|x: int, y: int|
                    #![trigger marks@[y * w + x]]
                    0 <= x < w && 0 <= y < h && (y < gy || (y == gy && x < gx)) ==> marks@[y * w
                        + x] == (verge_blocker(g0, x, y) && road_adjacent(g0, x, y)),
            decreases w - gx,
        {
            let tile = grid.get(gx, gy);
            let blocker = tile == TileKind::Forest || tile == TileKind::Rock || grid.elevation(gx, gy)
                > 0;
            let mark = blocker && has_road_neighbor(grid, gx, gy);
            let ghost m0 = marks@;
            marks.push(mark);
            proof {
                lemma_cell_index(w as int, h as int, gx as int, gy as int);
                assert forall|x: int, y: int|
                    #![trigger marks@[y * w + x]]
                    0 <= x < w && 0 <= y < h && (y < gy || (y == gy && x < gx + 1)) implies marks@[y
                        * w + x] == (verge_blocker(g0, x, y) && road_adjacent(g0, x, y)) by {
                    lemma_cell_index(w as int, h as int, x, y);
                    if x == gx && y == gy {
                    } else {
                        if y * w + x == gy * w + gx {
                            lemma_cell_index_injective(w as int, x, y, gx as int, gy as int);
                        }
                        assert(y * w + x < gy * w + gx) by (nonlinear_arith)
                            requires
                                0 <= x < w,
                                0 <= y,
                                y < gy || (y == gy && x < gx),
                        ;
                        assert(marks@[y * w + x] == m0[y * w + x]);
                    }
                }
                assert((gy * w + gx) + 1 == gy * w + (gx + 1));
            }
            gx = gx + 1;
        }
        proof {
            assert(gy * w + w == (gy + 1) * w) by (nonlinear_arith);
        }
        gy = gy + 1;
    }
    // Apply.
    let mut gy: u32 = 0;
    while gy < h
        invariant
            grid.wf(),
            grid.same_shape(&g0),
            g0.wf(),
            grid.buildings@ == g0.buildings@,
            w == grid.width,
            h == grid.height,
            gy <= h,
            marks@.len() == h * w,
            forall|x: int, y: int|
                #![trigger marks@[y * w + x]]
                0 <= x < w && 0 <= y < h ==> marks@[y * w + x] == (verge_blocker(g0, x, y)
                    && road_adjacent(g0, x, y)),
            forall|x: int, y: int|
                #![trigger grid.tile(x, y)]
                grid.in_grid(x, y) ==> if verge_blocker(g0, x, y) && road_adjacent(g0, x, y) && y
                    < gy {
                    &&& grid.tile(x, y) == if g0.tile(x, y) == TileKind::Road {
                        TileKind::Road
                    } else {
                        TileKind::Grass
                    }
                    &&& grid.deco(x, y) is None
                    &&& grid.elev(x, y) == 0
                } else {
                    &&& grid.tile(x, y) == g0.tile(x, y)
                    &&& grid.deco(x, y) == g0.deco(x, y)
                    &&& grid.elev(x, y) == g0.elev(x, y)
                },
        decreases h - gy,
    {
        let mut gx: u32 = 0;
        while gx < w
            invariant
                grid.wf(),
                grid.same_shape(&g0),
                g0.wf(),
                grid.buildings@ == g0.buildings@,
                w == grid.width,
                h == grid.height,
                gy < h,
                gx <= w,
                marks@.len() == h * w,
                forall|x: int, y: int|
                    #![trigger marks@[y * w + x]]
                    0 <= x < w && 0 <= y < h ==> marks@[y * w + x] == (verge_blocker(g0, x, y)
                        && road_adjacent(g0, x, y)),
                forall|x: int, y: int|
                    #![trigger grid.tile(x, y)]
                    grid.in_grid(x, y) ==> if verge_blocker(g0, x, y) && road_adjacent(g0, x, y)
                        && (y < gy || (y == gy && x < gx)) {
                        &&& grid.tile(x, y) == if g0.tile(x, y) == TileKind::Road {
                            TileKind::Road
                        } else {
                            TileKind::Grass
                        }
                        &&& grid.deco(x, y) is None
                        &&& grid.elev(x, y) == 0
                    } else {
                        &&& grid.tile(x, y) == g0.tile(x, y)
                        &&& grid.deco(x, y) == g0.deco(x, y)
                        &&& grid.elev(x, y) == g0.elev(x, y)
                    },
            decreases w - gx,
        {
            proof {
                lemma_cell_index(w as int, h as int, gx as int, gy as int);
                assert(gy * w + gx < h * w) by (nonlinear_arith)
                    requires
                        gy < h,
                        gx < w,
                ;
            }
            let i = (gy * w + gx) as usize;
            if marks[i] {
                let ghost g1 = *grid;
                if grid.get(gx, gy) != TileKind::Road {
                    grid.set(gx, gy, TileKind::Grass);
                }
                grid.set_decoration(gx, gy, None);
                grid.set_elevation(gx, gy, 0);
                proof {
                    assert(marks@[gy * w + gx] == (verge_blocker(g0, gx as int, gy as int)
                        && road_adjacent(g0, gx as int, gy as int)));
                    assert forall|x: int, y: int|
                        #![trigger grid.tile(x, y)]
                        grid.in_grid(x, y) && (x != gx || y != gy) implies grid.tile(x, y)
                            == g1.tile(x, y) && grid.deco(x, y) == g1.deco(x, y) && grid.elev(x, y)
                            == g1.elev(x, y) by {
                        lemma_cell_index(w as int, h as int, x, y);
                        if g1.index(x, y) == g1.index(gx as int, gy as int) {
                            lemma_cell_index_injective(w as int, x, y, gx as int, gy as int);
                        }
                    }
                }
            } else {
                proof {
                    assert(marks@[gy * w + gx] == (verge_blocker(g0, gx as int, gy as int)
                        && road_adjacent(g0, gx as int, gy as int)));
                }
            }
            gx = gx + 1;
        }
        gy = gy + 1;
    }
}


// ---------------------------------------------------------------------------
// Road network planning
// ---------------------------------------------------------------------------

/// Most settlements a road network connects: every candidate pair and every
/// edge count then fits the 32-bit counters.
pub const MAX_NODES: usize = 65_536;

/// Settlement coordinates stay below this, so that a squared length between
/// two settlements fits a signed 32-bit value.
pub const MAX_NODE_COORD: u32 = 32_768;

/// Number of edges of `s` that touch node `v`.
pub open spec fn degree(s: Seq<(usize, usize)>, v: int) -> int
    decreases s.len(),
{
    if s.len() == 0 {
        0
    } else {
        degree(s.drop_last(), v) + if s.last().0 == v || s.last().1 == v {
            1int
        } else {
            0int
        }
    }
}

proof fn lemma_degree_push(s: Seq<(usize, usize)>, e: (usize, usize), v: int)
    ensures
        degree(s.push(e), v) == degree(s, v) + if e.0 == v || e.1 == v {
            1int
        } else {
            0int
        },
{
    assert(s.push(e).drop_last() =~= s);
}

/// Two different positions of `s` touching `v` give it degree at least 2;
/// one gives degree at least 1.
proof fn lemma_degree_lower(s: Seq<(usize, usize)>, v: int, i: int, j: int)
    requires
        0 <= i < s.len(),
        0 <= j < s.len(),
        s[i].0 == v || s[i].1 == v,
        s[j].0 == v || s[j].1 == v,
    ensures
        degree(s, v) >= 1,
        i != j ==> degree(s, v) >= 2,
    decreases s.len(),
{
    let last = s.len() - 1;
    lemma_degree_nonneg(s.drop_last(), v);
    if i == last && j == last {
    } else if i == last {
        lemma_degree_lower(s.drop_last(), v, j, j);
    } else if j == last {
        lemma_degree_lower(s.drop_last(), v, i, i);
    } else {
        lemma_degree_lower(s.drop_last(), v, i, j);
    }
}

proof fn lemma_degree_upper(s: Seq<(usize, usize)>, v: int)
    ensures
        0 <= degree(s, v) <= s.len(),
    decreases s.len(),
{
    if s.len() > 0 {
        lemma_degree_upper(s.drop_last(), v);
    }
}

proof fn lemma_degree_nonneg(s: Seq<(usize, usize)>, v: int)
    ensures
        degree(s, v) >= 0,
    decreases s.len(),
{
    if s.len() > 0 {
        lemma_degree_nonneg(s.drop_last(), v);
    }
}

pub open spec fn is_pair_of(e: (usize, usize, u32), i: int, j: int) -> bool {
    e.0 == i && e.1 == j
}

/// Some candidate of `s` joins `i` to `j`.
pub open spec fn has_pair(s: Seq<(usize, usize, u32)>, i: int, j: int) -> bool {
    exists|t: int| 0 <= t < s.len() && #[trigger] is_pair_of(s[t], i, j)
}

/// Candidates in order of squared length.
pub open spec fn sorted_by_length(s: Seq<(usize, usize, u32)>) -> bool {
    forall|a: int, b: int| #![trigger s[a], s[b]] 0 <= a < b < s.len() ==> s[a].2 <= s[b].2
}

/// Insertion sort of candidate edges by squared length (stable, as the
/// swaps only pass strictly longer edges).
fn sort_edges(edges: &mut Vec<(usize, usize, u32)>)
    ensures
        final(edges)@.len() == old(edges)@.len(),
        final(edges)@.to_multiset() =~= old(edges)@.to_multiset(),
        sorted_by_length(final(edges)@),
{
    let n = edges.len();
    if n == 0 {
        return;
    }
    let mut k: usize = 1;
    while k < n
        invariant
            1 <= k <= n,
            edges@.len() == n,
            edges@.to_multiset() =~= old(edges)@.to_multiset(),
            forall|a: int, b: int|
                #![trigger edges@[a], edges@[b]]
                0 <= a < b < k ==> edges@[a].2 <= edges@[b].2,
        decreases n - k,
    {
        let mut j = k;
        while j > 0 && edges[j - 1].2 > edges[j].2
            invariant
                edges@.len() == n,
                j <= k < n,
                edges@.to_multiset() =~= old(edges)@.to_multiset(),
                forall|a: int, b: int|
                    #![trigger edges@[a], edges@[b]]
                    0 <= a < b <= k && a != j && b != j ==> edges@[a].2 <= edges@[b].2,
                forall|b: int| j < b <= k ==> edges@[j as int].2 <= #[trigger] edges@[b].2,
            decreases j,
        {
            let ghost s = edges@;
            let a = edges[j - 1];
            let b = edges[j];
            edges.set(j - 1, b);
            edges.set(j, a);
            proof {
                super::rng::lemma_swap_keeps_multiset(s, (j - 1) as int, j as int);
                assert(edges@ =~= s.update((j - 1) as int, s[j as int]).update(
                    j as int,
                    s[(j - 1) as int],
                ));
                assert forall|x: int, y: int|
                    #![trigger edges@[x], edges@[y]]
                    0 <= x < y <= k && x != j - 1 && y != j - 1 implies edges@[x].2 <= edges@[y].2 by {
                    if y == j {
                        assert(s[x].2 <= s[(j - 1) as int].2);
                    } else if x == j {
                        assert(s[(j - 1) as int].2 <= s[y].2);
                    } else {
                        assert(s[x].2 <= s[y].2);
                    }
                }
                assert forall|y: int| j - 1 < y <= k implies edges@[j - 1].2 <= #[trigger] edges@[y].2 by {
                    if y > j {
                        assert(s[j as int].2 <= s[y].2);
                    }
                }
            }
            j = j - 1;
        }
        proof {
            assert forall|x: int, y: int|
                #![trigger edges@[x], edges@[y]]
                0 <= x < y < k + 1 implies edges@[x].2 <= edges@[y].2 by {
                if y == j && x < j {
                    assert(edges@[x].2 <= edges@[j - 1].2 || x == j - 1);
                    assert(edges@[(j - 1) as int].2 <= edges@[j as int].2);
                } else if x == j {
                    assert(edges@[x].2 <= edges@[y].2);
                }
            }
        }
        k = k + 1;
    }
}

// ---------------------------------------------------------------------------
// Connectivity
// ---------------------------------------------------------------------------

/// The edge joins `a` and `b`, in either orientation.
pub open spec fn joins(e: (usize, usize), a: int, b: int) -> bool {
    (e.0 == a && e.1 == b) || (e.0 == b && e.1 == a)
}

/// Some edge of the list joins `a` and `b`.
pub open spec fn joined(edges: Seq<(usize, usize)>, a: int, b: int) -> bool {
    exists|t: int| 0 <= t < edges.len() && #[trigger] joins(edges[t], a, b)
}

/// `p` walks the graph: consecutive nodes are joined by an edge.
pub open spec fn graph_walk(edges: Seq<(usize, usize)>, p: Seq<int>) -> bool {
    &&& p.len() >= 1
    &&& forall|i: int| 0 <= i < p.len() - 1 ==> joined(edges, #[trigger] p[i], p[i + 1])
}

/// Some walk of the graph leads from `a` to `b`.
pub open spec fn connected(edges: Seq<(usize, usize)>, a: int, b: int) -> bool {
    exists|p: Seq<int>| #[trigger] graph_walk(edges, p) && p[0] == a && p.last() == b
}

proof fn lemma_connected_refl(edges: Seq<(usize, usize)>, a: int)
    ensures
        connected(edges, a, a),
{
    let p = seq![a];
    assert(graph_walk(edges, p));
}

proof fn lemma_connected_edge(edges: Seq<(usize, usize)>, a: int, b: int)
    requires
        joined(edges, a, b),
    ensures
        connected(edges, a, b),
{
    let p = seq![a, b];
    assert(p[0] == a && p[1] == b);
    assert(graph_walk(edges, p));
}

proof fn lemma_connected_sym(edges: Seq<(usize, usize)>, a: int, b: int)
    requires
        connected(edges, a, b),
    ensures
        connected(edges, b, a),
{
    let p = choose|p: Seq<int>| #[trigger] graph_walk(edges, p) && p[0] == a && p.last() == b;
    let n = p.len();
    let q = Seq::new(n, |i: int| p[n - 1 - i]);
    assert forall|i: int| 0 <= i < q.len() - 1 implies joined(edges, #[trigger] q[i], q[i + 1]) by {
        let j = n - 2 - i;
        assert(joined(edges, p[j], p[j + 1]));
        let t = choose|t: int| 0 <= t < edges.len() && #[trigger] joins(edges[t], p[j], p[j + 1]);
        assert(joins(edges[t], q[i], q[i + 1]));
    }
    assert(graph_walk(edges, q));
}

proof fn lemma_connected_trans(edges: Seq<(usize, usize)>, a: int, b: int, c: int)
    requires
        connected(edges, a, b),
        connected(edges, b, c),
    ensures
        connected(edges, a, c),
{
    let p1 = choose|p: Seq<int>| #[trigger] graph_walk(edges, p) && p[0] == a && p.last() == b;
    let p2 = choose|p: Seq<int>| #[trigger] graph_walk(edges, p) && p[0] == b && p.last() == c;
    let q = p1 + p2.skip(1);
    let n1 = p1.len();
    assert forall|i: int| 0 <= i < q.len() - 1 implies joined(edges, #[trigger] q[i], q[i + 1]) by {
        if i < n1 - 1 {
            assert(q[i] == p1[i] && q[i + 1] == p1[i + 1]);
            assert(joined(edges, p1[i], p1[i + 1]));
        } else {
            let j = i - n1 + 1;
            assert(q[i] == p2[j]) by {
                if i == n1 - 1 {
                    assert(q[i] == p1.last());
                }
            }
            assert(q[i + 1] == p2[j + 1]);
            assert(joined(edges, p2[j], p2[j + 1]));
        }
    }
    assert(graph_walk(edges, q));
    if p2.len() == 1 {
        assert(q.last() == p1.last());
    } else {
        assert(q.last() == p2.last());
    }
}

/// A walk of a graph is a walk of any graph holding its edges.
proof fn lemma_connected_sub(e1: Seq<(usize, usize)>, e2: Seq<(usize, usize)>, a: int, b: int)
    requires
        connected(e1, a, b),
        forall|t: int| 0 <= t < e1.len() ==> #[trigger] e2.contains(e1[t]),
    ensures
        connected(e2, a, b),
{
    let p = choose|p: Seq<int>| #[trigger] graph_walk(e1, p) && p[0] == a && p.last() == b;
    assert forall|i: int| 0 <= i < p.len() - 1 implies joined(e2, #[trigger] p[i], p[i + 1]) by {
        assert(joined(e1, p[i], p[i + 1]));
        let t = choose|t: int| 0 <= t < e1.len() && #[trigger] joins(e1[t], p[i], p[i + 1]);
        assert(e2.contains(e1[t]));
        let t2 = choose|t2: int| 0 <= t2 < e2.len() && e2[t2] == e1[t];
        assert(joins(e2[t2], p[i], p[i + 1]));
    }
    assert(graph_walk(e2, p));
}

/// Number of nodes below `k` that carry their own label.
pub open spec fn reps(c: Seq<usize>, k: int) -> int
    decreases k,
{
    if k <= 0 {
        0
    } else {
        reps(c, k - 1) + if c[k - 1] == k - 1 {
            1int
        } else {
            0int
        }
    }
}

proof fn lemma_reps_identity(c: Seq<usize>, k: int)
    requires
        0 <= k <= c.len(),
        forall|u: int| 0 <= u < k ==> #[trigger] c[u] == u,
    ensures
        reps(c, k) == k,
    decreases k,
{
    if k > 0 {
        lemma_reps_identity(c, k - 1);
    }
}

proof fn lemma_reps_mono(c: Seq<usize>, j: int, k: int)
    requires
        0 <= j <= k,
    ensures
        0 <= reps(c, j) <= reps(c, k),
    decreases k,
{
    if k > j {
        lemma_reps_mono(c, j, k - 1);
    } else if j > 0 {
        lemma_reps_mono(c, 0, j - 1);
        lemma_reps_mono(c, j - 1, j - 1);
    }
}

/// Two nodes carrying their own distinct labels make at least two
/// representatives.
proof fn lemma_two_reps(c: Seq<usize>, k: int, r1: int, r2: int)
    requires
        0 <= r1 < r2 < k,
        c[r1] == r1,
        c[r2] == r2,
    ensures
        reps(c, k) >= 2,
{
    lemma_reps_mono(c, r2 + 1, k);
    lemma_reps_mono(c, r1 + 1, r2);
    lemma_reps_mono(c, 0, r1);
}

/// Relabelling the representative `ca` to the representative `cb` removes
/// exactly one representative.
proof fn lemma_reps_relabel(old: Seq<usize>, new: Seq<usize>, ca: int, cb: int, k: int)
    requires
        0 <= k <= old.len(),
        new.len() == old.len(),
        0 <= ca < old.len(),
        0 <= cb < old.len(),
        ca != cb,
        old[ca] == ca,
        old[cb] == cb,
        forall|u: int| 0 <= u < old.len() ==> #[trigger] new[u] == if old[u] == ca {
            cb as usize
        } else {
            old[u]
        },
    ensures
        reps(new, k) == reps(old, k) - if ca < k {
            1int
        } else {
            0int
        },
    decreases k,
{
    if k > 0 {
        lemma_reps_relabel(old, new, ca, cb, k - 1);
        let u = k - 1;
        if u != ca && old[u] == ca {
            assert(u != cb);
        }
    }
}

/// Gives every node labelled `from` the label `to`.
fn relabel(comp: &mut Vec<usize>, from: usize, to: usize)
    ensures
        final(comp)@.len() == old(comp)@.len(),
        forall|u: int|
            0 <= u < old(comp)@.len() ==> #[trigger] final(comp)@[u] == if old(comp)@[u] == from {
                to
            } else {
                old(comp)@[u]
            },
{
    let n = comp.len();
    let mut u: usize = 0;
    while u < n
        invariant
            comp@.len() == n == old(comp)@.len(),
            u <= n,
            forall|u2: int|
                0 <= u2 < u ==> #[trigger] comp@[u2] == if old(comp)@[u2] == from {
                    to
                } else {
                    old(comp)@[u2]
                },
            forall|u2: int| u <= u2 < n ==> #[trigger] comp@[u2] == old(comp)@[u2],
        decreases n - u,
    {
        if comp[u] == from {
            comp.set(u, to);
        }
        u = u + 1;
    }
}

/// No two candidates join the same ordered pair.
pub open spec fn pairs_distinct(s: Seq<(usize, usize, u32)>) -> bool {
    forall|t1: int, t2: int|
        #![trigger s[t1], s[t2]]
        0 <= t1 < t2 < s.len() ==> s[t1].0 != s[t2].0 || s[t1].1 != s[t2].1
}

/// Reordering candidates whose pairs are distinct keeps them distinct.
proof fn lemma_permuted_pairs_distinct(u: Seq<(usize, usize, u32)>, s: Seq<(usize, usize, u32)>)
    requires
        pairs_distinct(u),
        s.to_multiset() =~= u.to_multiset(),
    ensures
        pairs_distinct(s),
{
    broadcast use vstd::seq_lib::group_to_multiset_ensures;

    assert forall|i: int, j: int| 0 <= i < u.len() && 0 <= j < u.len() && i != j implies u[i]
        != u[j] by {
        if i < j {
            assert(u[i].0 != u[j].0 || u[i].1 != u[j].1);
        } else {
            assert(u[j].0 != u[i].0 || u[j].1 != u[i].1);
        }
    }
    u.lemma_multiset_has_no_duplicates();
    s.lemma_multiset_has_no_duplicates_conv();
    assert forall|t1: int, t2: int| 0 <= t1 < t2 < s.len() implies s[t1].0 != s[t2].0 || s[t1].1
        != s[t2].1 by {
        assert(s.contains(s[t1]));
        assert(s.contains(s[t2]));
        assert(u.to_multiset().count(s[t1]) > 0);
        assert(u.to_multiset().count(s[t2]) > 0);
        assert(u.contains(s[t1]));
        assert(u.contains(s[t2]));
        let i1 = choose|i: int| 0 <= i < u.len() && u[i] == s[t1];
        let i2 = choose|i: int| 0 <= i < u.len() && u[i] == s[t2];
        assert(s[t1] != s[t2]);
        if i1 < i2 {
            assert(u[i1].0 != u[i2].0 || u[i1].1 != u[i2].1);
        } else if i2 < i1 {
            assert(u[i2].0 != u[i1].0 || u[i2].1 != u[i1].1);
        }
    }
}

proof fn lemma_reps_none(c: Seq<usize>, k: int)
    requires
        0 <= k,
        forall|u: int| 0 <= u < k ==> #[trigger] c[u] != u,
    ensures
        reps(c, k) == 0,
    decreases k,
{
    if k > 0 {
        lemma_reps_none(c, k - 1);
    }
}

/// One class left means at most one representative.
proof fn lemma_reps_one_class(c: Seq<usize>, k: int)
    requires
        0 <= k <= c.len(),
        forall|u: int, v: int| 0 <= u < k && 0 <= v < k ==> c[u] == c[v],
    ensures
        reps(c, k) <= 1,
    decreases k,
{
    if k > 0 {
        if c[k - 1] == k - 1 {
            assert forall|u: int| 0 <= u < k - 1 implies #[trigger] c[u] != u by {
                assert(c[u] == c[k - 1]);
            }
            lemma_reps_none(c, k - 1);
        } else {
            lemma_reps_one_class(c, k - 1);
        }
    }
}

/// Squared straight-line length between nodes `i` and `j`.
pub open spec fn sq_len(nodes: Seq<(u32, u32)>, i: int, j: int) -> int {
    (nodes[i].0 - nodes[j].0) * (nodes[i].0 - nodes[j].0) + (nodes[i].1 - nodes[j].1) * (
    nodes[i].1 - nodes[j].1)
}

/// `c` lists the candidate road edges between `nodes`: every pair `i < j`
/// exactly once, with its squared length, shortest first.
pub open spec fn road_candidates(nodes: Seq<(u32, u32)>, c: Seq<(usize, usize, u32)>) -> bool {
    &&& forall|t: int|
        0 <= t < c.len() ==> #[trigger] c[t].0 < c[t].1 < nodes.len() && c[t].2 == sq_len(
            nodes,
            c[t].0 as int,
            c[t].1 as int,
        )
    &&& forall|a: int, b: int| 0 <= a < b < nodes.len() ==> #[trigger] has_pair(c, a, b)
    &&& pairs_distinct(c)
    &&& sorted_by_length(c)
}

/// Kruskal's rule over the candidates `c` from position `t` on, with the
/// tree `picked` so far: a candidate joins the tree when the tree does not
/// already connect its ends, until the tree has `n - 1` edges.
pub open spec fn kruskal(c: Seq<(usize, usize, u32)>, n: int, t: int, picked: Seq<(usize, usize)>) -> Seq<
    (usize, usize),
>
    decreases c.len() - t,
{
    if t >= c.len() || t < 0 || picked.len() >= n - 1 {
        picked
    } else if connected(picked, c[t].0 as int, c[t].1 as int) {
        kruskal(c, n, t + 1, picked)
    } else {
        kruskal(c, n, t + 1, picked.push((c[t].0, c[t].1)))
    }
}

/// Cycle optimality of `tree` over the candidates `c`: every candidate pair
/// the tree leaves out already has its ends connected by a prefix of the
/// tree whose edges are all no longer than it. By the cycle property, a
/// spanning tree with this certificate has the least total length.
pub open spec fn cycle_optimal(nodes: Seq<(u32, u32)>, c: Seq<(usize, usize, u32)>, tree: Seq<(usize, usize)>) -> bool {
    forall|t: int|
        0 <= t < c.len() && !tree.contains((#[trigger] c[t].0, c[t].1)) ==> exists|j: int|
            0 <= j <= tree.len() && connected(tree.take(j), c[t].0 as int, c[t].1 as int) && forall|k: int|
                0 <= k < j ==> sq_len(nodes, (#[trigger] tree[k]).0 as int, tree[k].1 as int) <= c[t].2
}

/// Kruskal's result keeps the tree it started from as its prefix.
proof fn lemma_kruskal_extends(c: Seq<(usize, usize, u32)>, n: int, t: int, picked: Seq<(usize, usize)>)
    ensures
        kruskal(c, n, t, picked).len() >= picked.len(),
        kruskal(c, n, t, picked).take(picked.len() as int) == picked,
    decreases c.len() - t,
{
    if t >= c.len() || t < 0 || picked.len() >= n - 1 {
        assert(picked.take(picked.len() as int) =~= picked);
    } else if connected(picked, c[t].0 as int, c[t].1 as int) {
        lemma_kruskal_extends(c, n, t + 1, picked);
    } else {
        let p2 = picked.push((c[t].0, c[t].1));
        lemma_kruskal_extends(c, n, t + 1, p2);
        let r = kruskal(c, n, t + 1, p2);
        assert(r.take(picked.len() as int) =~= p2.take(picked.len() as int));
        assert(p2.take(picked.len() as int) =~= picked);
    }
}

/// Every candidate from `t` on that Kruskal's rule leaves out of `full` is
/// bridged by a prefix of `full` of edges no longer than it, when `full`
/// connects every node and the tree so far is no longer than what remains.
proof fn lemma_kruskal_certificate(
    nodes: Seq<(u32, u32)>,
    c: Seq<(usize, usize, u32)>,
    n: int,
    t: int,
    picked: Seq<(usize, usize)>,
    full: Seq<(usize, usize)>,
)
    requires
        road_candidates(nodes, c),
        n == nodes.len(),
        0 <= t <= c.len(),
        kruskal(c, n, t, picked) == full,
        forall|a: int, b: int| 0 <= a < n && 0 <= b < n ==> #[trigger] connected(full, a, b),
        forall|k: int, t2: int|
            0 <= k < picked.len() && t <= t2 < c.len() ==> sq_len(
                nodes,
                (#[trigger] picked[k]).0 as int,
                picked[k].1 as int,
            ) <= (#[trigger] c[t2]).2,
    ensures
        forall|t2: int|
            t <= t2 < c.len() && !full.contains((#[trigger] c[t2].0, c[t2].1)) ==> exists|j: int|
                0 <= j <= full.len() && connected(full.take(j), c[t2].0 as int, c[t2].1 as int)
                    && forall|k: int|
                    0 <= k < j ==> sq_len(nodes, (#[trigger] full[k]).0 as int, full[k].1 as int)
                        <= c[t2].2,
    decreases c.len() - t,
{
    lemma_kruskal_extends(c, n, t, picked);
    if t >= c.len() || picked.len() >= n - 1 {
        assert forall|t2: int|
            t <= t2 < c.len() && !full.contains((#[trigger] c[t2].0, c[t2].1)) implies exists|j: int|
                0 <= j <= full.len() && connected(full.take(j), c[t2].0 as int, c[t2].1 as int)
                    && forall|k: int|
                    0 <= k < j ==> sq_len(nodes, (#[trigger] full[k]).0 as int, full[k].1 as int)
                        <= c[t2].2 by {
            assert(full == picked);
            assert(full.take(full.len() as int) =~= full);
            assert(c[t2].0 < c[t2].1 < n);
            assert(connected(full, c[t2].0 as int, c[t2].1 as int));
            assert forall|k: int| 0 <= k < full.len() implies sq_len(
                nodes,
                (#[trigger] full[k]).0 as int,
                full[k].1 as int,
            ) <= c[t2].2 by {
                assert(full[k] == picked[k]);
            }
        }
    } else if connected(picked, c[t].0 as int, c[t].1 as int) {
        lemma_kruskal_certificate(nodes, c, n, t + 1, picked, full);
        assert forall|t2: int|
            t <= t2 < c.len() && !full.contains((#[trigger] c[t2].0, c[t2].1)) implies exists|j: int|
                0 <= j <= full.len() && connected(full.take(j), c[t2].0 as int, c[t2].1 as int)
                    && forall|k: int|
                    0 <= k < j ==> sq_len(nodes, (#[trigger] full[k]).0 as int, full[k].1 as int)
                        <= c[t2].2 by {
            if t2 == t {
                let j = picked.len() as int;
                assert(full.take(j) == picked);
                assert forall|k: int| 0 <= k < j implies sq_len(
                    nodes,
                    (#[trigger] full[k]).0 as int,
                    full[k].1 as int,
                ) <= c[t2].2 by {
                    assert(full[k] == full.take(j)[k]);
                    assert(full.take(j)[k] == picked[k]);
                }
            }
        }
    } else {
        let p2 = picked.push((c[t].0, c[t].1));
        assert forall|k: int, t2: int|
            0 <= k < p2.len() && t + 1 <= t2 < c.len() implies sq_len(
            nodes,
            (#[trigger] p2[k]).0 as int,
            p2[k].1 as int,
        ) <= (#[trigger] c[t2]).2 by {
            if k < picked.len() {
                assert(p2[k] == picked[k]);
            } else {
                assert(c[t].2 <= c[t2].2);
                assert(c[t].2 == sq_len(nodes, c[t].0 as int, c[t].1 as int));
            }
        }
        lemma_kruskal_certificate(nodes, c, n, t + 1, p2, full);
        lemma_kruskal_extends(c, n, t + 1, p2);
        assert(full.take(p2.len() as int) == p2);
        assert(full[picked.len() as int] == full.take(p2.len() as int)[picked.len() as int]);
        assert(full.contains((c[t].0, c[t].1)));
    }
}

/// Along a walk of edges whose ends share a class, the class stays the same.
proof fn lemma_walk_same_class(
    s: Seq<(usize, usize)>,
    comp: Seq<usize>,
    n: int,
    p: Seq<int>,
    i: int,
)
    requires
        graph_walk(s, p),
        0 <= i < p.len(),
        0 <= p[0] < n,
        comp.len() == n,
        forall|k: int|
            0 <= k < s.len() ==> (#[trigger] s[k]).0 < n && s[k].1 < n && comp[s[k].0 as int]
                == comp[s[k].1 as int],
    ensures
        0 <= p[i] < n,
        comp[p[i]] == comp[p[0]],
    decreases i,
{
    if i > 0 {
        lemma_walk_same_class(s, comp, n, p, i - 1);
        assert(joined(s, p[i - 1], p[i]));
        let t = choose|t: int| 0 <= t < s.len() && #[trigger] joins(s[t], p[i - 1], p[i]);
        assert(comp[s[t].0 as int] == comp[s[t].1 as int]);
    }
}

fn contains_pair(list: &Vec<(usize, usize)>, upto: usize, a: usize, b: usize) -> (r: bool)
    requires
        upto <= list@.len(),
    ensures
        r == exists|t: int| 0 <= t < upto && (#[trigger] list@[t]).0 == a && list@[t].1 == b,
{
    let mut t: usize = 0;
    while t < upto
        invariant
            upto <= list@.len(),
            t <= upto,
            forall|t2: int| 0 <= t2 < t ==> !((#[trigger] list@[t2]).0 == a && list@[t2].1 == b),
        decreases upto - t,
    {
        if list[t].0 == a && list[t].1 == b {
            return true;
        }
        t = t + 1;
    }
    false
}

/// Road edges between settlements: a spanning tree built by Kruskal's rule
/// over the candidate pairs sorted by squared length, then extra edges in
/// the same order so that every settlement reaches two connections where it
/// can. Every edge `(i, j)` has `i < j` and none repeats; with at least two
/// settlements the first `n - 1` edges already connect every settlement to
/// every other, an edge after them is added only while one of its ends has
/// fewer than two edges, and every settlement gets at least `min(2, n - 1)`
/// edges. The list is also the settlement adjacency.
pub fn plan_road_edges(nodes: &[(u32, u32)]) -> (r: Vec<(usize, usize)>)
    requires
        nodes@.len() <= MAX_NODES,
        forall|i: int| 0 <= i < nodes@.len() ==> nodes@[i].0 < MAX_NODE_COORD && nodes@[i].1 < MAX_NODE_COORD,
    ensures
        forall|t: int| 0 <= t < r@.len() ==> #[trigger] r@[t].0 < r@[t].1 < nodes@.len(),
        r@.len() <= nodes@.len() * nodes@.len(),
        nodes@.len() < 2 ==> r@.len() == 0,
        nodes@.len() >= 2 ==> forall|v: int|
            0 <= v < nodes@.len() ==> #[trigger] degree(r@, v) >= if nodes@.len() >= 3 {
                2int
            } else {
                1int
            },
        forall|a: int, b: int|
            0 <= a < nodes@.len() && 0 <= b < nodes@.len() ==> #[trigger] connected(r@, a, b),
        r@.no_duplicates(),
        nodes@.len() >= 2 ==> r@.len() >= nodes@.len() - 1,
        nodes@.len() >= 2 ==> forall|a: int, b: int|
            0 <= a < nodes@.len() && 0 <= b < nodes@.len() ==> #[trigger] connected(
                r@.take(nodes@.len() - 1),
                a,
                b,
            ),
        nodes@.len() >= 2 ==> forall|k: int|
            nodes@.len() - 1 <= k < r@.len() ==> degree(r@.take(k), (#[trigger] r@[k]).0 as int) < 2
                || degree(r@.take(k), r@[k].1 as int) < 2,
        nodes@.len() >= 2 ==> exists|c: Seq<(usize, usize, u32)>|
            road_candidates(nodes@, c) && r@.take(nodes@.len() - 1) == kruskal(
                c,
                nodes@.len() as int,
                0,
                Seq::empty(),
            ) && cycle_optimal(nodes@, c, r@.take(nodes@.len() - 1)),
{
    let n = nodes.len();
    if n < 2 {
        let r: Vec<(usize, usize)> = Vec::new();
        proof {
            assert forall|a: int, b: int|
                0 <= a < nodes@.len() && 0 <= b < nodes@.len() implies #[trigger] connected(
                r@,
                a,
                b,
            ) by {
                lemma_connected_refl(r@, a);
            }
        }
        return r;
    }
    // All candidate pairs.
    let mut edges: Vec<(usize, usize, u32)> = Vec::new();
    let mut i: usize = 0;
    while i < n
        invariant
            2 <= n <= MAX_NODES,
            n == nodes@.len(),
            i <= n,
            forall|i2: int| 0 <= i2 < nodes@.len() ==> nodes@[i2].0 < MAX_NODE_COORD && nodes@[i2].1 < MAX_NODE_COORD,
            forall|t: int| 0 <= t < edges@.len() ==> #[trigger] edges@[t].0 < edges@[t].1 < n,
            2 * edges@.len() <= i * (2 * n - i - 1),
            forall|a: int, b: int| 0 <= a < i && a < b < n ==> #[trigger] has_pair(edges@, a, b),
            pairs_distinct(edges@),
            forall|t: int| 0 <= t < edges@.len() ==> #[trigger] edges@[t].0 < i,
            forall|t: int|
                0 <= t < edges@.len() ==> (#[trigger] edges@[t]).2 == sq_len(
                    nodes@,
                    edges@[t].0 as int,
                    edges@[t].1 as int,
                ),
        decreases n - i,
    {
        let mut j: usize = i + 1;
        while j < n
            invariant
                2 <= n <= MAX_NODES,
                n == nodes@.len(),
                i < n,
                i + 1 <= j <= n,
                forall|i2: int| 0 <= i2 < nodes@.len() ==> nodes@[i2].0 < MAX_NODE_COORD && nodes@[i2].1 < MAX_NODE_COORD,
                forall|t: int| 0 <= t < edges@.len() ==> #[trigger] edges@[t].0 < edges@[t].1 < n,
                2 * edges@.len() <= i * (2 * n - i - 1) + 2 * (j - i - 1),
                forall|a: int, b: int| 0 <= a < i && a < b < n ==> #[trigger] has_pair(edges@, a, b),
                forall|b: int| i < b < j ==> #[trigger] has_pair(edges@, i as int, b),
                pairs_distinct(edges@),
                forall|t: int|
                    0 <= t < edges@.len() ==> #[trigger] edges@[t].0 < i || (edges@[t].0 == i
                        && edges@[t].1 < j),
                forall|t: int|
                    0 <= t < edges@.len() ==> (#[trigger] edges@[t]).2 == sq_len(
                        nodes@,
                        edges@[t].0 as int,
                        edges@[t].1 as int,
                    ),
            decreases n - j,
        {
            let dx = nodes[i].0 as i32 - nodes[j].0 as i32;
            let dy = nodes[i].1 as i32 - nodes[j].1 as i32;
            proof {
                assert(0 <= dx * dx <= 32767 * 32767 && 0 <= dy * dy <= 32767 * 32767)
                    by (nonlinear_arith)
                    requires
                        -32767 <= dx <= 32767,
                        -32767 <= dy <= 32767,
                ;
            }
            let ghost e0 = edges@;
            edges.push((i, j, (dx * dx + dy * dy) as u32));
            proof {
                assert(dx * dx + dy * dy == sq_len(nodes@, i as int, j as int));
                assert forall|t: int|
                    0 <= t < edges@.len() implies (#[trigger] edges@[t]).2 == sq_len(
                    nodes@,
                    edges@[t].0 as int,
                    edges@[t].1 as int,
                ) by {
                    if t < e0.len() {
                        assert(edges@[t] == e0[t]);
                    }
                }
                assert forall|t1: int, t2: int|
                    0 <= t1 < t2 < edges@.len() implies edges@[t1].0 != edges@[t2].0
                    || edges@[t1].1 != edges@[t2].1 by {
                    assert(edges@[t1] == e0[t1]);
                    if t2 < e0.len() {
                        assert(edges@[t2] == e0[t2]);
                    }
                }
                assert forall|t: int| 0 <= t < edges@.len() implies #[trigger] edges@[t].0 < i
                    || (edges@[t].0 == i && edges@[t].1 < j + 1) by {
                    if t < e0.len() {
                        assert(edges@[t] == e0[t]);
                    }
                }
                assert(is_pair_of(edges@[e0.len() as int], i as int, j as int));
                assert forall|a: int, b: int|
                    0 <= a < i && a < b < n implies #[trigger] has_pair(edges@, a, b) by {
                    assert(has_pair(e0, a, b));
                    let t = choose|t: int| 0 <= t < e0.len() && #[trigger] is_pair_of(e0[t], a, b);
                    assert(is_pair_of(edges@[t], a, b));
                }
                assert forall|b: int| i < b < j + 1 implies #[trigger] has_pair(edges@, i as int, b) by {
                    if b < j {
                        assert(has_pair(e0, i as int, b));
                        let t = choose|t: int| 0 <= t < e0.len() && #[trigger] is_pair_of(e0[t], i as int, b);
                        assert(is_pair_of(edges@[t], i as int, b));
                    } else {
                        assert(is_pair_of(edges@[e0.len() as int], i as int, b));
                    }
                }
            }
            j = j + 1;
        }
        proof {
            assert(i * (2 * n - i - 1) + 2 * (n - i - 1) == (i + 1) * (2 * n - (i + 1) - 1))
                by (nonlinear_arith);
        }
        i = i + 1;
    }
    let ghost unsorted = edges@;
    sort_edges(&mut edges);
    proof {
        broadcast use vstd::seq_lib::group_to_multiset_ensures;

        lemma_permuted_pairs_distinct(unsorted, edges@);
        assert forall|a: int, b: int| 0 <= a < b < n implies #[trigger] has_pair(edges@, a, b) by {
            assert(has_pair(unsorted, a, b));
            let t0 = choose|t: int| 0 <= t < unsorted.len() && #[trigger] is_pair_of(unsorted[t], a, b);
            let e = unsorted[t0];
            assert(unsorted.contains(e));
            assert(unsorted.to_multiset().count(e) > 0);
            assert(edges@.to_multiset().count(e) > 0);
            assert(edges@.contains(e));
            let t = choose|t: int| 0 <= t < edges@.len() && edges@[t] == e;
            assert(is_pair_of(edges@[t], a, b));
        }
        assert forall|t: int| 0 <= t < edges@.len() implies #[trigger] edges@[t].0 < edges@[t].1 < n
            && edges@[t].2 == sq_len(nodes@, edges@[t].0 as int, edges@[t].1 as int) by {
            let e = edges@[t];
            assert(edges@.contains(e));
            assert(edges@.to_multiset().count(e) > 0);
            assert(unsorted.to_multiset().count(e) > 0);
            assert(unsorted.contains(e));
            let t0 = choose|t0: int| 0 <= t0 < unsorted.len() && unsorted[t0] == e;
            assert(unsorted[t0].2 == sq_len(nodes@, unsorted[t0].0 as int, unsorted[t0].1 as int));
        }
        assert(road_candidates(nodes@, edges@));
    }

    proof {
        assert(2 * edges@.len() <= n * (n - 1)) by (nonlinear_arith)
            requires
                2 * edges@.len() <= n * (2 * n - n - 1),
        ;
        assert(n * (n - 1) <= 65_536 * 65_535) by (nonlinear_arith)
            requires
                2 <= n <= 65_536,
        ;
    }
    // Kruskal: join components in order of increasing length.
    let mut comp: Vec<usize> = Vec::new();
    let mut c: usize = 0;
    while c < n
        invariant
            c <= n,
            comp@.len() == c,
            forall|u: int| 0 <= u < c ==> #[trigger] comp@[u] == u,
        decreases n - c,
    {
        comp.push(c);
        c = c + 1;
    }
    proof {
        lemma_reps_identity(comp@, n as int);
        assert forall|u: int, v: int|
            0 <= u < n && 0 <= v < n && comp@[u] == comp@[v] implies connected(
            Seq::<(usize, usize)>::empty(),
            u,
            v,
        ) by {
            lemma_connected_refl(Seq::<(usize, usize)>::empty(), u);
        }
    }
    let m = edges.len();
    let mut mst: Vec<(usize, usize)> = Vec::new();
    let mut t: usize = 0;
    while t < m && mst.len() < n - 1
        invariant
            2 <= n <= MAX_NODES,
            m == edges@.len(),
            2 * m <= 65_536 * 65_535,
            comp@.len() == n,
            t <= m,
            mst@.len() <= n - 1,
            forall|t2: int| 0 <= t2 < edges@.len() ==> #[trigger] edges@[t2].0 < edges@[t2].1 < n,
            forall|t2: int| 0 <= t2 < mst@.len() ==> #[trigger] mst@[t2].0 < mst@[t2].1 < n,
            forall|a: int, b: int| 0 <= a < b < n ==> #[trigger] has_pair(edges@, a, b),
            forall|u: int| 0 <= u < n ==> #[trigger] comp@[u] < n && comp@[comp@[u] as int] == comp@[u],
            reps(comp@, n as int) == n - mst@.len(),
            forall|u: int, v: int|
                0 <= u < n && 0 <= v < n && #[trigger] comp@[u] == #[trigger] comp@[v] ==> connected(
                    mst@,
                    u,
                    v,
                ),
            forall|t2: int|
                0 <= t2 < t ==> comp@[(#[trigger] edges@[t2]).0 as int] == comp@[edges@[t2].1 as int],
            pairs_distinct(edges@),
            mst@.no_duplicates(),
            forall|k: int|
                0 <= k < mst@.len() ==> comp@[(#[trigger] mst@[k]).0 as int] == comp@[mst@[k].1 as int],
            road_candidates(nodes@, edges@),
            kruskal(edges@, n as int, 0, Seq::empty()) == kruskal(edges@, n as int, t as int, mst@),
        decreases m - t,
    {
        let (a, b, _) = edges[t];
        let ca = comp[a];
        let cb = comp[b];
        proof {
            if ca != cb {
                if connected(mst@, a as int, b as int) {
                    let p = choose|p: Seq<int>| #[trigger] graph_walk(mst@, p) && p[0] == a && p.last() == b;
                    lemma_walk_same_class(mst@, comp@, n as int, p, p.len() - 1);
                    assert(false);
                }
                assert(kruskal(edges@, n as int, t as int, mst@) == kruskal(
                    edges@,
                    n as int,
                    t + 1,
                    mst@.push((a, b)),
                ));
            } else {
                assert(connected(mst@, a as int, b as int));
                assert(kruskal(edges@, n as int, t as int, mst@) == kruskal(edges@, n as int, t + 1, mst@));
            }
        }
        if ca != cb {
            let ghost c0 = comp@;
            relabel(&mut comp, ca, cb);
            let ghost m0 = mst@;
            mst.push((a, b));
            proof {
                assert forall|t2: int| 0 <= t2 < mst@.len() implies #[trigger] mst@[t2].0 < mst@[t2].1
                    < n by {
                    if t2 < m0.len() {
                        assert(mst@[t2] == m0[t2]);
                    }
                }
                assert(c0[ca as int] == ca && c0[cb as int] == cb);
                lemma_reps_relabel(c0, comp@, ca as int, cb as int, n as int);
                assert forall|u: int| 0 <= u < n implies #[trigger] comp@[u] < n && comp@[comp@[u] as int]
                    == comp@[u] by {
                    assert(c0[c0[u] as int] == c0[u]);
                }
                assert forall|t2: int| 0 <= t2 < m0.len() implies #[trigger] mst@.contains(m0[t2]) by {
                    assert(mst@[t2] == m0[t2]);
                }
                assert(joins(mst@[m0.len() as int], a as int, b as int));
                lemma_connected_edge(mst@, a as int, b as int);
                assert forall|u: int, v: int|
                    0 <= u < n && 0 <= v < n && #[trigger] comp@[u] == #[trigger] comp@[v] implies connected(
                    mst@,
                    u,
                    v,
                ) by {
                    if c0[u] == c0[v] {
                        lemma_connected_sub(m0, mst@, u, v);
                    } else if c0[u] == ca {
                        assert(c0[v] == cb);
                        assert(c0[u] == c0[a as int]);
                        assert(c0[b as int] == c0[v]);
                        lemma_connected_sub(m0, mst@, u, a as int);
                        lemma_connected_sub(m0, mst@, b as int, v);
                        lemma_connected_trans(mst@, u, a as int, b as int);
                        lemma_connected_trans(mst@, u, b as int, v);
                    } else {
                        assert(c0[v] == ca && c0[u] == cb);
                        assert(c0[v] == c0[a as int]);
                        assert(c0[b as int] == c0[u]);
                        lemma_connected_sub(m0, mst@, v, a as int);
                        lemma_connected_sub(m0, mst@, b as int, u);
                        lemma_connected_trans(mst@, v, a as int, b as int);
                        lemma_connected_trans(mst@, v, b as int, u);
                        lemma_connected_sym(mst@, v, u);
                    }
                }
                assert forall|t2: int| 0 <= t2 < t + 1 implies comp@[(#[trigger] edges@[t2]).0 as int]
                    == comp@[edges@[t2].1 as int] by {
                    if t2 < t {
                        assert(c0[edges@[t2].0 as int] == c0[edges@[t2].1 as int]);
                    }
                }
                assert forall|k: int| 0 <= k < mst@.len() implies comp@[(#[trigger] mst@[k]).0 as int]
                    == comp@[mst@[k].1 as int] by {
                    if k < m0.len() {
                        assert(mst@[k] == m0[k]);
                        assert(c0[m0[k].0 as int] == c0[m0[k].1 as int]);
                    }
                }
                assert forall|k1: int, k2: int|
                    0 <= k1 < mst@.len() && 0 <= k2 < mst@.len() && k1 != k2 implies mst@[k1]
                    != mst@[k2] by {
                    if k1 < m0.len() && k2 < m0.len() {
                        assert(mst@[k1] == m0[k1] && mst@[k2] == m0[k2]);
                    } else if k1 < m0.len() {
                        assert(mst@[k1] == m0[k1]);
                        assert(c0[m0[k1].0 as int] == c0[m0[k1].1 as int]);
                    } else {
                        assert(mst@[k2] == m0[k2]);
                        assert(c0[m0[k2].0 as int] == c0[m0[k2].1 as int]);
                    }
                }
            }
        } else {
            proof {
                assert forall|t2: int| 0 <= t2 < t + 1 implies comp@[(#[trigger] edges@[t2]).0 as int]
                    == comp@[edges@[t2].1 as int] by {
                    if t2 == t {
                        assert(comp@[a as int] == comp@[b as int]);
                    }
                }
            }
        }
        t = t + 1;
    }
    proof {
        assert forall|u: int, v: int| 0 <= u < n && 0 <= v < n implies comp@[u] == comp@[v] by {
            if mst@.len() == n - 1 {
                let ru = comp@[u] as int;
                let rv = comp@[v] as int;
                if ru < rv {
                    lemma_two_reps(comp@, n as int, ru, rv);
                } else if rv < ru {
                    lemma_two_reps(comp@, n as int, rv, ru);
                }
            } else {
                assert(t == m);
                if u < v {
                    assert(has_pair(edges@, u, v));
                    let t2 = choose|t2: int| 0 <= t2 < edges@.len() && #[trigger] is_pair_of(edges@[t2], u, v);
                    assert(comp@[edges@[t2].0 as int] == comp@[edges@[t2].1 as int]);
                } else if v < u {
                    assert(has_pair(edges@, v, u));
                    let t2 = choose|t2: int| 0 <= t2 < edges@.len() && #[trigger] is_pair_of(edges@[t2], v, u);
                    assert(comp@[edges@[t2].0 as int] == comp@[edges@[t2].1 as int]);
                }
            }
        }
        assert forall|u: int, v: int| 0 <= u < n && 0 <= v < n implies #[trigger] connected(mst@, u, v) by {
            assert(comp@[u] == comp@[v]);
        }
        lemma_reps_one_class(comp@, n as int);
        assert(mst@.len() == n - 1);
        assert(kruskal(edges@, n as int, t as int, mst@) == mst@);
    }
    let ghost cands = edges@;
    proof {
        assert(road_candidates(nodes@, cands));
        assert(kruskal(cands, n as int, 0, Seq::empty()) == mst@);
    }

    // Loops: every settlement should reach two connections.
    let mst_len = mst.len();
    let mut degree_of: Vec<u32> = Vec::new();
    let mut v: usize = 0;
    proof {
        assert forall|v2: int| 0 <= v2 < n implies degree(mst@, v2) <= mst@.len() by {
            lemma_degree_upper(mst@, v2);
        }
    }
    while v < n
        invariant
            v <= n,
            mst_len == mst@.len(),
            mst_len < n <= MAX_NODES,
            degree_of@.len() == v,
            forall|v2: int| 0 <= v2 < v ==> #[trigger] degree_of@[v2] == degree(mst@, v2),
        decreases n - v,
    {
        let mut d: u32 = 0;
        let mut q: usize = 0;
        proof {
            assert(mst@.take(0) =~= Seq::<(usize, usize)>::empty());
        }
        while q < mst_len
            invariant
                q <= mst_len,
                mst_len == mst@.len(),
                mst_len < n <= MAX_NODES,
                d == degree(mst@.take(q as int), v as int),
                d <= q,
            decreases mst_len - q,
        {
            proof {
                assert(mst@.take(q + 1) =~= mst@.take(q as int).push(mst@[q as int]));
                lemma_degree_push(mst@.take(q as int), mst@[q as int], v as int);
            }
            if mst[q].0 == v || mst[q].1 == v {
                d = d + 1;
            }
            q = q + 1;
        }
        proof {
            assert(mst@.take(mst_len as int) =~= mst@);
        }
        degree_of.push(d);
        v = v + 1;
    }
    let ghost tree = mst@;
    proof {
        assert(tree.no_duplicates());
        assert(tree.len() == n - 1);
    }
    let mut out = mst;
    let mut t: usize = 0;
    // Which candidate each extra edge came from.
    let ghost mut src: Seq<int> = Seq::empty();
    while t < m
        invariant
            pairs_distinct(edges@),
            out@.no_duplicates(),
            src.len() == out@.len() - mst_len,
            forall|k: int|
                mst_len <= k < out@.len() ==> 0 <= #[trigger] src[k - mst_len] < t && out@[k].0
                    == edges@[src[k - mst_len]].0 && out@[k].1 == edges@[src[k - mst_len]].1,
            forall|k: int|
                mst_len <= k < out@.len() ==> degree(out@.take(k), (#[trigger] out@[k]).0 as int) < 2
                    || degree(out@.take(k), out@[k].1 as int) < 2,
            2 <= n <= MAX_NODES,
            m == edges@.len(),
            2 * m <= 65_536 * 65_535,
            t <= m,
            mst_len == tree.len(),
            mst_len < n,
            out@.len() <= mst_len + t,
            tree == out@.take(mst_len as int),
            mst_len <= out@.len(),
            degree_of@.len() == n,
            forall|v2: int| 0 <= v2 < n ==> #[trigger] degree_of@[v2] == degree(out@, v2),
            forall|t2: int| 0 <= t2 < edges@.len() ==> #[trigger] edges@[t2].0 < edges@[t2].1 < n,
            forall|t2: int| 0 <= t2 < out@.len() ==> #[trigger] out@[t2].0 < out@[t2].1 < n,
            forall|a: int, b: int| 0 <= a < b < n ==> #[trigger] has_pair(edges@, a, b),
            forall|v2: int, t2: int|
                0 <= v2 < n && 0 <= t2 < t && (edges@[t2].0 == v2 || edges@[t2].1 == v2)
                    && #[trigger] degree_of@[v2] < 2 ==> exists|t3: int|
                    0 <= t3 < out@.len() && out@[t3].0 == edges@[t2].0 && out@[t3].1
                        == #[trigger] edges@[t2].1,
        decreases m - t,
    {
        let (a, b, _) = edges[t];
        let in_mst = contains_pair(&out, mst_len, a, b) || contains_pair(&out, mst_len, b, a);
        let ghost out0 = out@;
        let ghost deg0 = degree_of@;
        if in_mst {
            proof {
                if exists|t4: int| 0 <= t4 < mst_len && (#[trigger] out@[t4]).0 == a && out@[t4].1 == b {
                } else {
                    let t4 = choose|t4: int|
                        0 <= t4 < mst_len && (#[trigger] out@[t4]).0 == b && out@[t4].1 == a;
                    assert(out@[t4].0 < out@[t4].1);
                    assert(false);
                }
            }
        } else if degree_of[a] < 2 || degree_of[b] < 2 {
            proof {
                lemma_degree_upper(out0, a as int);
                lemma_degree_upper(out0, b as int);
            }
            out.push((a, b));
            let da = degree_of[a];
            let db = degree_of[b];
            degree_of.set(a, da + 1);
            degree_of.set(b, db + 1);
            proof {
                let src0 = src;
                src = src.push(t as int);
                assert(out@ =~= out0.push((a, b)));
                assert(out@.take(out0.len() as int) =~= out0);
                assert forall|k: int|
                    mst_len <= k < out@.len() implies 0 <= #[trigger] src[k - mst_len] < t + 1
                    && out@[k].0 == edges@[src[k - mst_len]].0 && out@[k].1 == edges@[src[k
                    - mst_len]].1 by {
                    if k < out0.len() {
                        assert(src[k - mst_len] == src0[k - mst_len]);
                        assert(out@[k] == out0[k]);
                    }
                }
                assert forall|k: int|
                    mst_len <= k < out@.len() implies degree(
                    out@.take(k),
                    (#[trigger] out@[k]).0 as int,
                ) < 2 || degree(out@.take(k), out@[k].1 as int) < 2 by {
                    if k < out0.len() {
                        assert(out@.take(k) =~= out0.take(k));
                        assert(out@[k] == out0[k]);
                    }
                }
                assert forall|k1: int, k2: int|
                    0 <= k1 < out@.len() && 0 <= k2 < out@.len() && k1 != k2 implies out@[k1]
                    != out@[k2] by {
                    if k1 < out0.len() && k2 < out0.len() {
                        assert(out@[k1] == out0[k1] && out@[k2] == out0[k2]);
                    } else {
                        let k = if k1 < out0.len() { k1 } else { k2 };
                        assert(out@[k] == out0[k]);
                        if k < mst_len {
                            assert(!((#[trigger] out0[k]).0 == a && out0[k].1 == b));
                        } else {
                            let t2 = src0[k - mst_len];
                            assert(0 <= t2 < t);
                            assert(edges@[t2].0 != edges@[t as int].0 || edges@[t2].1
                                != edges@[t as int].1);
                        }
                    }
                }
                assert(out@.take(mst_len as int) =~= out0.take(mst_len as int));
                assert forall|v2: int| 0 <= v2 < n implies #[trigger] degree_of@[v2] == degree(out@, v2) by {
                    lemma_degree_push(out0, (a, b), v2);
                }
                assert forall|t2: int| 0 <= t2 < out@.len() implies #[trigger] out@[t2].0 < out@[t2].1
                    < n by {
                    if t2 < out0.len() {
                        assert(out@[t2] == out0[t2]);
                    }
                }
            }
        }
        proof {
            assert forall|v2: int, t2: int|
                0 <= v2 < n && 0 <= t2 < t + 1 && (edges@[t2].0 == v2 || edges@[t2].1 == v2)
                    && #[trigger] degree_of@[v2] < 2 implies exists|t3: int|
                    0 <= t3 < out@.len() && out@[t3].0 == edges@[t2].0 && out@[t3].1
                        == #[trigger] edges@[t2].1 by {
                assert(degree_of@[v2] >= deg0[v2]);
                if t2 < t {
                    let t3 = choose|t3: int|
                        0 <= t3 < out0.len() && out0[t3].0 == edges@[t2].0 && out0[t3].1
                            == edges@[t2].1;
                    assert(out@[t3] == out0[t3]);
                } else if in_mst {
                    if exists|t4: int| 0 <= t4 < mst_len && (#[trigger] out@[t4]).0 == a && out@[t4].1 == b {
                        let t4 = choose|t4: int|
                            0 <= t4 < mst_len && (#[trigger] out@[t4]).0 == a && out@[t4].1 == b;
                        assert(out@[t4].0 == edges@[t2].0);
                    }
                } else {
                    assert(out@[out0.len() as int] == (a, b));
                }
            }
        }
        t = t + 1;
    }
    proof {
        assert(out@.len() <= n * n) by (nonlinear_arith)
            requires
                out@.len() <= mst_len + m,
                mst_len < n,
                2 * m <= n * (n - 1),
        ;
        assert forall|v2: int| 0 <= v2 < n implies #[trigger] degree(out@, v2) >= if n >= 3 {
            2int
        } else {
            1int
        } by {
            lemma_degree_nonneg(out@, v2);
            // Two partners of v2 (one if n == 2).
            let pa: int = if v2 == 0 { 1 } else { 0 };
            let pb: int = if v2 == 0 { 2 } else if v2 == 1 { 2 } else { 1 };
            let ea = if v2 < pa { (v2, pa) } else { (pa, v2) };
            assert(has_pair(edges@, ea.0, ea.1));
            let ta = choose|t: int| 0 <= t < edges@.len() && #[trigger] is_pair_of(edges@[t], ea.0, ea.1);
            if degree_of@[v2] < 2 {
                let oa = choose|t3: int|
                    0 <= t3 < out@.len() && out@[t3].0 == edges@[ta].0 && out@[t3].1 == edges@[ta].1;
                if n >= 3 {
                    let eb = if v2 < pb { (v2, pb) } else { (pb, v2) };
                    assert(has_pair(edges@, eb.0, eb.1));
                    let tb = choose|t: int| 0 <= t < edges@.len() && #[trigger] is_pair_of(edges@[t], eb.0, eb.1);
                    let ob = choose|t3: int|
                        0 <= t3 < out@.len() && out@[t3].0 == edges@[tb].0 && out@[t3].1
                            == edges@[tb].1;
                    assert(oa != ob);
                    lemma_degree_lower(out@, v2, oa, ob);
                } else {
                    lemma_degree_lower(out@, v2, oa, oa);
                }
            }
        }
        assert forall|t2: int| 0 <= t2 < tree.len() implies #[trigger] out@.contains(tree[t2]) by {
            assert(out@[t2] == tree[t2]);
        }
        assert forall|a: int, b: int|
            0 <= a < nodes@.len() && 0 <= b < nodes@.len() implies #[trigger] connected(out@, a, b) by {
            assert(connected(tree, a, b));
            lemma_connected_sub(tree, out@, a, b);
        }
        assert(out@.take(n - 1) == tree);
        assert(road_candidates(nodes@, cands));
        assert(kruskal(cands, n as int, 0, Seq::empty()) == tree);
        lemma_kruskal_certificate(nodes@, cands, n as int, 0, Seq::empty(), tree);
        assert(cycle_optimal(nodes@, cands, tree));
    }
    out
}

} // verus!
