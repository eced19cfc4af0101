//! Flow fields: for every cell, the cheapest cost to reach one of several
//! goals and the neighbour to step to next. Built by a multi-source Dijkstra
//! search over the 8-neighbour grid graph (cardinal step 2, diagonal step 3,
//! times the movement cost of the entered tile).

use vstd::prelude::*;
use vstd::multiset::Multiset;
use crate::grid::{Grid, lemma_cell_index, lemma_cell_index_injective};
use crate::heap::{MinHeap, Entry};

verus! {

/// Integration value of a cell no goal can reach.
pub const UNREACHABLE: u32 = 0xFFFF_FFFF;

// ---------------------------------------------------------------------------
// The grid graph
// ---------------------------------------------------------------------------

/// The eight step directions, in search order: four cardinal, then four diagonal.
pub open spec fn dir_dx(k: int) -> int {
    if k == 1 || k == 4 || k == 5 {
        1
    } else if k == 3 || k == 6 || k == 7 {
        -1
    } else {
        0
    }
}

pub open spec fn dir_dy(k: int) -> int {
    if k == 0 || k == 4 || k == 7 {
        -1
    } else if k == 2 || k == 5 || k == 6 {
        1
    } else {
        0
    }
}

/// Cardinal steps cost 2, diagonal steps 3.
pub open spec fn dir_cost(k: int) -> int {
    if k < 4 {
        2
    } else {
        3
    }
}

pub(crate) fn dir(k: usize) -> (r: (i32, i32, u32))
    requires
        k < 8,
    ensures
        r.0 == dir_dx(k as int),
        r.1 == dir_dy(k as int),
        r.2 == dir_cost(k as int),
{
    match k {
        0 => (0, -1, 2),
        1 => (1, 0, 2),
        2 => (0, 1, 2),
        3 => (-1, 0, 2),
        4 => (1, -1, 3),
        5 => (1, 1, 3),
        6 => (-1, 1, 3),
        _ => (-1, -1, 3),
    }
}

/// `(dx, dy)` moves to one of the eight cells around a cell.
pub open spec fn neighbour_offset(dx: int, dy: int) -> bool {
    -1 <= dx <= 1 && -1 <= dy <= 1 && (dx != 0 || dy != 0)
}

/// The step directions are the eight neighbours of a cell, each once: every
/// direction moves by at most one cell on each axis and not zero on both,
/// two directions never move alike, and every such move is a direction.
/// Straight moves cost 2, diagonal moves 3.
pub proof fn law_eight_directions()
    ensures
        forall|k: int|
            0 <= k < 8 ==> {
                &&& -1 <= #[trigger] dir_dx(k) <= 1
                &&& -1 <= dir_dy(k) <= 1
                &&& dir_dx(k) != 0 || dir_dy(k) != 0
                &&& dir_cost(k) == if dir_dx(k) != 0 && dir_dy(k) != 0 {
                    3int
                } else {
                    2int
                }
            },
        forall|k1: int, k2: int|
            0 <= k1 < 8 && 0 <= k2 < 8 && k1 != k2 ==> #[trigger] dir_dx(k1) != #[trigger] dir_dx(k2)
                || dir_dy(k1) != dir_dy(k2),
        forall|dx: int, dy: int|
            #[trigger] neighbour_offset(dx, dy) ==> exists|k: int|
                0 <= k < 8 && #[trigger] dir_dx(k) == dx && dir_dy(k) == dy,
{
    assert forall|dx: int, dy: int| #[trigger] neighbour_offset(dx, dy) implies exists|k: int|
            0 <= k < 8 && #[trigger] dir_dx(k) == dx && dir_dy(k) == dy by {
        let k: int = if dx == 0 && dy == -1 {
            0
        } else if dx == 1 && dy == 0 {
            1
        } else if dx == 0 && dy == 1 {
            2
        } else if dx == -1 && dy == 0 {
            3
        } else if dx == 1 && dy == -1 {
            4
        } else if dx == 1 && dy == 1 {
            5
        } else if dx == -1 && dy == 1 {
            6
        } else {
            7
        };
        assert(dir_dx(k) == dx && dir_dy(k) == dy);
    }
}

/// Movement cost multiplier of a cell (1 where the terrain has none).
pub open spec fn tile_cost(g: Grid, x: int, y: int) -> int {
    match g.tile(x, y).spec_movement_cost() {
        Some(c) => c as int,
        None => 1,
    }
}

/// Step `k` from `(x, y)` enters a passable cell without cutting a blocked corner.
pub open spec fn step_valid(g: Grid, x: int, y: int, k: int) -> bool {
    &&& 0 <= k < 8
    &&& g.in_grid(x + dir_dx(k), y + dir_dy(k))
    &&& g.passable(x + dir_dx(k), y + dir_dy(k))
    &&& g.diagonal_ok(x, y, dir_dx(k), dir_dy(k))
}

pub open spec fn step_cost(g: Grid, x: int, y: int, k: int) -> int {
    tile_cost(g, x + dir_dx(k), y + dir_dy(k)) * dir_cost(k)
}

/// Cell reached from `(sx, sy)` by the steps `ks`.
pub open spec fn walk_end(sx: int, sy: int, ks: Seq<int>) -> (int, int)
    decreases ks.len(),
{
    if ks.len() == 0 {
        (sx, sy)
    } else {
        let p = walk_end(sx, sy, ks.drop_last());
        (p.0 + dir_dx(ks.last()), p.1 + dir_dy(ks.last()))
    }
}

/// Every step of the walk is valid.
pub open spec fn walk_valid(g: Grid, sx: int, sy: int, ks: Seq<int>) -> bool
    decreases ks.len(),
{
    if ks.len() == 0 {
        true
    } else {
        let p = walk_end(sx, sy, ks.drop_last());
        walk_valid(g, sx, sy, ks.drop_last()) && step_valid(g, p.0, p.1, ks.last())
    }
}

/// Summed step costs of the walk.
pub open spec fn walk_cost(g: Grid, sx: int, sy: int, ks: Seq<int>) -> int
    decreases ks.len(),
{
    if ks.len() == 0 {
        0
    } else {
        let p = walk_end(sx, sy, ks.drop_last());
        walk_cost(g, sx, sy, ks.drop_last()) + step_cost(g, p.0, p.1, ks.last())
    }
}

/// Goal `i` is usable: inside the grid and passable.
pub open spec fn valid_goal(g: Grid, goals: Seq<Entry>, i: int) -> bool {
    &&& 0 <= i < goals.len()
    &&& g.in_grid(goals[i].0 as int, goals[i].1 as int)
    &&& g.passable(goals[i].0 as int, goals[i].1 as int)
}

/// A route: start at usable goal `gi` with its initial cost, walk the steps
/// `ks` and arrive at `(x, y)` having paid `cost` in total.
pub open spec fn is_route(
    g: Grid,
    goals: Seq<Entry>,
    gi: int,
    ks: Seq<int>,
    x: int,
    y: int,
    cost: int,
) -> bool {
    &&& valid_goal(g, goals, gi)
    &&& walk_valid(g, goals[gi].0 as int, goals[gi].1 as int, ks)
    &&& walk_end(goals[gi].0 as int, goals[gi].1 as int, ks) == (x, y)
    &&& goals[gi].2 + walk_cost(g, goals[gi].0 as int, goals[gi].1 as int, ks) == cost
}

pub open spec fn has_route(g: Grid, goals: Seq<Entry>, x: int, y: int, cost: int) -> bool {
    exists|gi: int, ks: Seq<int>| is_route(g, goals, gi, ks, x, y, cost)
}

// ---------------------------------------------------------------------------
// Properties of an integration array
// ---------------------------------------------------------------------------

/// Integration value of cell `(x, y)`.
pub open spec fn at(g: Grid, d: Seq<u32>, x: int, y: int) -> u32 {
    d[g.index(x, y)]
}

/// No valid step out of a reached cell could improve its neighbour.
pub open spec fn relaxed_at(g: Grid, d: Seq<u32>, x: int, y: int) -> bool {
    at(g, d, x, y) != UNREACHABLE ==> forall|k: int|
        #![trigger step_valid(g, x, y, k)]
        step_valid(g, x, y, k) ==> at(g, d, x + dir_dx(k), y + dir_dy(k)) <= at(g, d, x, y)
            + step_cost(g, x, y, k)
}

/// Every usable goal costs at most its initial cost.
pub open spec fn seeds_ok(g: Grid, goals: Seq<Entry>, d: Seq<u32>) -> bool {
    forall|i: int|
        #![trigger goals[i]]
        valid_goal(g, goals, i) ==> at(g, d, goals[i].0 as int, goals[i].1 as int) <= goals[i].2
}

pub open spec fn all_relaxed(g: Grid, d: Seq<u32>) -> bool {
    forall|x: int, y: int| g.in_grid(x, y) ==> #[trigger] relaxed_at(g, d, x, y)
}

/// Every reached cell's value is the cost of an actual route.
pub open spec fn witnessed(g: Grid, goals: Seq<Entry>, d: Seq<u32>) -> bool {
    forall|x: int, y: int|
        g.in_grid(x, y) && at(g, d, x, y) != UNREACHABLE ==> #[trigger] has_route(
            g,
            goals,
            x,
            y,
            at(g, d, x, y) as int,
        )
}

/// A cell is listed among the goals.
pub open spec fn is_goal_cell(goals: Seq<Entry>, x: int, y: int) -> bool {
    exists|i: int| 0 <= i < goals.len() && goals[i].0 == x && goals[i].1 == y
}

/// Scan of the eight neighbours from `k` on, keeping the first strictly
/// cheaper neighbour found so far (`bc` its cost, `bd` its step).
pub open spec fn best_from(
    g: Grid,
    d: Seq<u32>,
    x: int,
    y: int,
    k: int,
    bc: int,
    bd: (int, int),
) -> (int, int)
    decreases 8 - k,
{
    if k >= 8 {
        bd
    } else {
        let nx = x + dir_dx(k);
        let ny = y + dir_dy(k);
        if g.in_grid(nx, ny) && g.diagonal_ok(x, y, dir_dx(k), dir_dy(k)) && (at(g, d, nx, ny)
            as int) < bc {
            best_from(g, d, x, y, k + 1, at(g, d, nx, ny) as int, (dir_dx(k), dir_dy(k)))
        } else {
            best_from(g, d, x, y, k + 1, bc, bd)
        }
    }
}

/// Flow direction of a cell: none at goals and unreachable cells, otherwise
/// the step to the cheapest neighbour (first in search order on ties) that is
/// cheaper than the cell itself.
pub open spec fn spec_direction(g: Grid, goals: Seq<Entry>, d: Seq<u32>, x: int, y: int) -> (
    int,
    int,
) {
    if at(g, d, x, y) == UNREACHABLE || is_goal_cell(goals, x, y) {
        (0, 0)
    } else {
        best_from(g, d, x, y, 0, at(g, d, x, y) as int, (0, 0))
    }
}

pub open spec fn sum_u32(s: Seq<u32>) -> int
    decreases s.len(),
{
    if s.len() == 0 {
        0
    } else {
        sum_u32(s.drop_last()) + s.last()
    }
}

pub proof fn lemma_sum_update(s: Seq<u32>, i: int, v: u32)
    requires
        0 <= i < s.len(),
    ensures
        sum_u32(s.update(i, v)) == sum_u32(s) - s[i] + v,
        sum_u32(s) >= 0,
    decreases s.len(),
{
    let t = s.update(i, v);
    if i == s.len() - 1 {
        assert(t.drop_last() =~= s.drop_last());
    } else {
        assert(t.drop_last() =~= s.drop_last().update(i, v));
        lemma_sum_update(s.drop_last(), i, v);
    }
    lemma_sum_nonneg(s);
}

pub proof fn lemma_sum_nonneg(s: Seq<u32>)
    ensures
        sum_u32(s) >= 0,
    decreases s.len(),
{
    if s.len() > 0 {
        lemma_sum_nonneg(s.drop_last());
    }
}

proof fn lemma_walk_push(g: Grid, sx: int, sy: int, ks: Seq<int>, k: int)
    ensures
        walk_end(sx, sy, ks.push(k)) == ({
            let p = walk_end(sx, sy, ks);
            (p.0 + dir_dx(k), p.1 + dir_dy(k))
        }),
        walk_valid(g, sx, sy, ks.push(k)) == (walk_valid(g, sx, sy, ks) && step_valid(
            g,
            walk_end(sx, sy, ks).0,
            walk_end(sx, sy, ks).1,
            k,
        )),
        walk_cost(g, sx, sy, ks.push(k)) == walk_cost(g, sx, sy, ks) + step_cost(
            g,
            walk_end(sx, sy, ks).0,
            walk_end(sx, sy, ks).1,
            k,
        ),
{
    assert(ks.push(k).drop_last() =~= ks);
}

/// A route to `(x, y)` extended by a valid step is a route to the neighbour.
proof fn lemma_route_extend(
    g: Grid,
    goals: Seq<Entry>,
    x: int,
    y: int,
    v: int,
    k: int,
)
    requires
        has_route(g, goals, x, y, v),
        step_valid(g, x, y, k),
    ensures
        has_route(g, goals, x + dir_dx(k), y + dir_dy(k), v + step_cost(g, x, y, k)),
{
    let (gi, ks) = choose|gi: int, ks: Seq<int>| is_route(g, goals, gi, ks, x, y, v);
    lemma_walk_push(g, goals[gi].0 as int, goals[gi].1 as int, ks, k);
    assert(is_route(
        g,
        goals,
        gi,
        ks.push(k),
        x + dir_dx(k),
        y + dir_dy(k),
        v + step_cost(g, x, y, k),
    ));
}

/// Lowering other cells keeps a cell relaxed.
proof fn lemma_relaxed_lower(g: Grid, d: Seq<u32>, d2: Seq<u32>, x: int, y: int)
    requires
        d.len() == d2.len(),
        forall|i: int| 0 <= i < d.len() ==> #[trigger] d2[i] <= d[i],
        at(g, d2, x, y) == at(g, d, x, y),
        relaxed_at(g, d, x, y),
        g.wf(),
        g.in_grid(x, y),
        d.len() == g.width * g.height,
    ensures
        relaxed_at(g, d2, x, y),
{
    if at(g, d2, x, y) != UNREACHABLE {
        assert forall|k: int| #![trigger step_valid(g, x, y, k)] step_valid(g, x, y, k) implies at(
            g,
            d2,
            x + dir_dx(k),
            y + dir_dy(k),
        ) <= at(g, d2, x, y) + step_cost(g, x, y, k) by {
            lemma_cell_index(
                g.width as int,
                g.height as int,
                x + dir_dx(k),
                y + dir_dy(k),
            );
            assert(d2[g.index(x + dir_dx(k), y + dir_dy(k))] <= d[g.index(
                x + dir_dx(k),
                y + dir_dy(k),
            )]);
        }
    }
}

// ---------------------------------------------------------------------------
// The flow field
// ---------------------------------------------------------------------------

/// Per cell: the step toward the cheapest goal and the integration cost.
pub struct FlowField {
    directions: Vec<(i8, i8)>,
    integration: Vec<u32>,
    width: u32,
    height: u32,
}

impl FlowField {
    pub closed spec fn integ(&self) -> Seq<u32> {
        self.integration@
    }

    pub closed spec fn dirs(&self) -> Seq<(i8, i8)> {
        self.directions@
    }

    pub closed spec fn spec_width(&self) -> u32 {
        self.width
    }

    pub closed spec fn spec_height(&self) -> u32 {
        self.height
    }

    pub open spec fn wf(&self) -> bool {
        &&& self.spec_width() <= crate::grid::MAX_SIDE
        &&& self.spec_height() <= crate::grid::MAX_SIDE
        &&& self.spec_width() * self.spec_height() <= crate::grid::MAX_CELLS
        &&& self.integ().len() == self.spec_width() * self.spec_height()
        &&& self.dirs().len() == self.spec_width() * self.spec_height()
    }

    /// The field is the exact solution for grid `g` and `goals`:
    /// its integration array is seeded, fully relaxed and witnessed by routes,
    /// and every direction is the one `spec_direction` prescribes.
    pub open spec fn solves(&self, g: Grid, goals: Seq<Entry>) -> bool {
        &&& self.wf()
        &&& self.spec_width() == g.width
        &&& self.spec_height() == g.height
        &&& seeds_ok(g, goals, self.integ())
        &&& all_relaxed(g, self.integ())
        &&& witnessed(g, goals, self.integ())
        &&& forall|x: int, y: int|
            g.in_grid(x, y) ==> {
                let dv = #[trigger] self.dirs()[g.index(x, y)];
                (dv.0 as int, dv.1 as int) == spec_direction(g, goals, self.integ(), x, y)
            }
    }

    /// Integration cost of a cell as the field records it.
    pub open spec fn cost_of(&self, g: Grid, x: int, y: int) -> u32 {
        at(g, self.integ(), x, y)
    }

    /// Flow field toward a single goal of initial cost 0.
    pub fn generate(grid: &Grid, goal_gx: u32, goal_gy: u32) -> (f: FlowField)
        requires
            grid.wf(),
        ensures
            f.solves(*grid, seq![(goal_gx, goal_gy, 0u32)]),
    {
        let goals: Vec<Entry> = vec![(goal_gx, goal_gy, 0u32)];
        proof {
            assert(goals@ =~= seq![(goal_gx, goal_gy, 0u32)]);
        }
        Self::generate_multi_source(grid, goals.as_slice())
    }

    /// Flow field toward several goals `(gx, gy, initial_cost)`; a lower
    /// initial cost gives a goal priority. Goals outside the grid or on
    /// impassable cells are ignored. Costs that would reach `UNREACHABLE`
    /// are not recorded.
    pub fn generate_multi_source(grid: &Grid, goals: &[Entry]) -> (f: FlowField)
        requires
            grid.wf(),
        ensures
            f.solves(*grid, goals@),
    {
        let w = grid.width;
        let h = grid.height;
        let size: usize = (w * h) as usize;
        let ghost g = *grid;
        let ghost gs = goals@;

        let mut integration: Vec<u32> = Vec::with_capacity(size);
        let mut directions: Vec<(i8, i8)> = Vec::with_capacity(size);
        let mut i: usize = 0;
        while i < size
            invariant
                i <= size,
                size == w * h,
                integration@.len() == i,
                directions@.len() == i,
                forall|j: int| 0 <= j < i ==> #[trigger] integration@[j] == UNREACHABLE,
                forall|j: int| 0 <= j < i ==> #[trigger] directions@[j] == (0i8, 0i8),
            decreases size - i,
        {
            integration.push(UNREACHABLE);
            directions.push((0, 0));
            i = i + 1;
        }

        let mut heap = MinHeap::new();
        proof {
            assert forall|x: int, y: int| g.in_grid(x, y) implies at(g, integration@, x, y)
                == UNREACHABLE by {
                lemma_cell_index(w as int, h as int, x, y);
            }
        }

        // Seed every usable goal.
        let mut gi: usize = 0;
        while gi < goals.len()
            invariant
                g == *grid,
                gs == goals@,
                grid.wf(),
                w == grid.width,
                h == grid.height,
                size == w * h,
                integration@.len() == size,
                gi <= goals@.len(),
                heap.wf(),
                forall|i2: int|
                    #![trigger gs[i2]]
                    0 <= i2 < gi && valid_goal(g, gs, i2) ==> at(
                        g,
                        integration@,
                        gs[i2].0 as int,
                        gs[i2].1 as int,
                    ) <= gs[i2].2,
                forall|x: int, y: int|
                    g.in_grid(x, y) && at(g, integration@, x, y) != UNREACHABLE ==> heap.view().count(
                        (at(g, integration@, x, y), x as u32, y as u32),
                    ) > 0,
                forall|e: Entry|
                    heap.view().count(e) > 0 ==> g.in_grid(e.1 as int, e.2 as int) && e.0 >= at(
                        g,
                        integration@,
                        e.1 as int,
                        e.2 as int,
                    ) && e.0 != UNREACHABLE,
                witnessed(g, gs, integration@),
            decreases goals@.len() - gi,
        {
            let (gx, gy, initial_cost) = goals[gi];
            if gx < w && gy < h && grid.is_passable(gx, gy) {
                proof {
                    lemma_cell_index(w as int, h as int, gx as int, gy as int);
                }
                let ci = (gy * w + gx) as usize;
                if initial_cost < integration[ci] {
                    let ghost d0 = integration@;
                    let ghost hv0 = heap.view();
                    integration.set(ci, initial_cost);
                    heap.push((initial_cost, gx, gy));
                    proof {
                        let d1 = integration@;
                        assert(d1 == d0.update(ci as int, initial_cost));
                        assert(has_route(g, gs, gx as int, gy as int, initial_cost as int)) by {
                            let ks = Seq::<int>::empty();
                            assert(is_route(g, gs, gi as int, ks, gx as int, gy as int, initial_cost as int));
                        }
                        assert forall|x: int, y: int|
                            g.in_grid(x, y) && at(g, d1, x, y) != UNREACHABLE implies #[trigger] has_route(
                            g,
                            gs,
                            x,
                            y,
                            at(g, d1, x, y) as int,
                        ) by {
                            lemma_cell_index(w as int, h as int, x, y);
                            if x == gx && y == gy {
                            } else {
                                if g.index(x, y) == ci {
                                    lemma_cell_index_injective(w as int, x, y, gx as int, gy as int);
                                }
                                assert(at(g, d1, x, y) == at(g, d0, x, y));
                            }
                        }
                        assert forall|x: int, y: int|
                            g.in_grid(x, y) && at(g, d1, x, y) != UNREACHABLE implies heap.view().count(
                            (at(g, d1, x, y), x as u32, y as u32),
                        ) > 0 by {
                            lemma_cell_index(w as int, h as int, x, y);
                            if x == gx && y == gy {
                            } else {
                                if g.index(x, y) == ci {
                                    lemma_cell_index_injective(w as int, x, y, gx as int, gy as int);
                                }
                                assert(at(g, d1, x, y) == at(g, d0, x, y));
                            }
                        }
                        assert forall|e: Entry| heap.view().count(e) > 0 implies g.in_grid(
                            e.1 as int,
                            e.2 as int,
                        ) && e.0 >= at(g, d1, e.1 as int, e.2 as int) && e.0 != UNREACHABLE by {
                            if e != (initial_cost, gx, gy) {
                                assert(hv0.count(e) > 0);
                                lemma_cell_index(w as int, h as int, e.1 as int, e.2 as int);
                            }
                        }
                        assert forall|i2: int|
                            #![trigger gs[i2]]
                            0 <= i2 < gi + 1 && valid_goal(g, gs, i2) implies at(
                            g,
                            d1,
                            gs[i2].0 as int,
                            gs[i2].1 as int,
                        ) <= gs[i2].2 by {
                            lemma_cell_index(w as int, h as int, gs[i2].0 as int, gs[i2].1 as int);
                        }
                    }
                }
            }
            gi = gi + 1;
        }

        // Dijkstra from all seeded goals simultaneously.
        loop
            invariant
                g == *grid,
                gs == goals@,
                grid.wf(),
                w == grid.width,
                h == grid.height,
                size == w * h,
                integration@.len() == size,
                heap.wf(),
                seeds_ok(g, gs, integration@),
                forall|x: int, y: int|
                    g.in_grid(x, y) ==> (#[trigger] relaxed_at(g, integration@, x, y)
                        || heap.view().count((at(g, integration@, x, y), x as u32, y as u32)) > 0),
                forall|e: Entry|
                    heap.view().count(e) > 0 ==> g.in_grid(e.1 as int, e.2 as int) && e.0 >= at(
                        g,
                        integration@,
                        e.1 as int,
                        e.2 as int,
                    ) && e.0 != UNREACHABLE,
                witnessed(g, gs, integration@),
            ensures
                seeds_ok(g, gs, integration@),
                all_relaxed(g, integration@),
                witnessed(g, gs, integration@),
                integration@.len() == size,
            decreases sum_u32(integration@), heap.view().len(),
        {
            let ghost d0 = integration@;
            let ghost hv0 = heap.view();
            proof {
                lemma_sum_nonneg(integration@);
            }
            let popped = heap.pop();
            match popped {
                None => {
                    proof {
                        assert forall|x: int, y: int| g.in_grid(x, y) implies #[trigger] relaxed_at(
                            g,
                            integration@,
                            x,
                            y,
                        ) by {
                            assert(hv0.count((at(g, integration@, x, y), x as u32, y as u32)) == 0);
                        }
                    }
                    break;
                },
                Some(e) => {
                    let (cost, x, y) = e;
                    proof {
                        lemma_cell_index(w as int, h as int, x as int, y as int);
                    }
                    let ci = (y * w + x) as usize;
                    if cost > integration[ci] {
                        proof {
                            assert forall|x2: int, y2: int| g.in_grid(x2, y2) implies (
                            #[trigger] relaxed_at(g, integration@, x2, y2) || heap.view().count(
                                (at(g, integration@, x2, y2), x2 as u32, y2 as u32),
                            ) > 0) by {
                                if !relaxed_at(g, integration@, x2, y2) {
                                    assert(hv0.count(
                                        (at(g, integration@, x2, y2), x2 as u32, y2 as u32),
                                    ) > 0);
                                    if (at(g, integration@, x2, y2), x2 as u32, y2 as u32) == e {
                                        assert(false);
                                    }
                                }
                            }
                            lemma_sum_nonneg(integration@);
                        }
                        continue;
                    }
                    // cost == integration[ci]: relax all eight neighbours.
                    proof {
                        assert(heap.view().len() + 1 == hv0.len());
                        assert forall|i2: int| 0 <= i2 < size implies #[trigger] integration@[i2]
                            <= d0[i2] by {}
                    }

                    let mut k: usize = 0;
                    while k < 8
                        invariant
                            g == *grid,
                            gs == goals@,
                            grid.wf(),
                            w == grid.width,
                            h == grid.height,
                            size == w * h,
                            integration@.len() == size,
                            heap.wf(),
                            g.in_grid(x as int, y as int),
                            ci == g.index(x as int, y as int),
                            cost == integration@[ci as int],
                            cost != UNREACHABLE,
                            k <= 8,
                            seeds_ok(g, gs, integration@),
                            forall|x2: int, y2: int|
                                g.in_grid(x2, y2) && (x2 != x || y2 != y) ==> (
                                #[trigger] relaxed_at(g, integration@, x2, y2) || heap.view().count(
                                    (at(g, integration@, x2, y2), x2 as u32, y2 as u32),
                                ) > 0),
                            forall|k2: int|
                                #![trigger step_valid(g, x as int, y as int, k2)]
                                0 <= k2 < k && step_valid(g, x as int, y as int, k2) ==> at(
                                    g,
                                    integration@,
                                    x + dir_dx(k2),
                                    y + dir_dy(k2),
                                ) <= cost + step_cost(g, x as int, y as int, k2),
                            forall|e2: Entry|
                                heap.view().count(e2) > 0 ==> g.in_grid(e2.1 as int, e2.2 as int)
                                    && e2.0 >= at(g, integration@, e2.1 as int, e2.2 as int)
                                    && e2.0 != UNREACHABLE,
                            witnessed(g, gs, integration@),
                            forall|i2: int|
                                0 <= i2 < size ==> #[trigger] integration@[i2] <= d0[i2],
                            (sum_u32(integration@) == sum_u32(d0) && heap.view().len() + 1
                                == hv0.len()) || sum_u32(integration@) < sum_u32(d0),
                        decreases 8 - k,
                    {
                        let (dx, dy, dc) = dir(k);
                        let nxi = x as i32 + dx;
                        let nyi = y as i32 + dy;
                        if grid.in_bounds(nxi, nyi) {
                            let nx = nxi as u32;
                            let ny = nyi as u32;
                            if grid.is_passable(nx, ny) && grid.can_move_diagonal(x, y, dx, dy) {
                                let tile_cost = match grid.get(nx, ny).movement_cost() {
                                    Some(c) => c,
                                    None => 1,
                                };
                                assert(tile_cost <= 2);
                                assert(dc <= 3);
                                assert(tile_cost * dc <= 6) by (nonlinear_arith)
                                    requires
                                        tile_cost <= 2,
                                        dc <= 3,
                                ;
                                let step: u32 = tile_cost * dc;
                                let new_cost: u64 = cost as u64 + step as u64;
                                proof {
                                    lemma_cell_index(w as int, h as int, nx as int, ny as int);
                                }
                                let ni = (ny * w + nx) as usize;
                                if new_cost < integration[ni] as u64 {
                                    let ghost d1 = integration@;
                                    let ghost hv1 = heap.view();
                                    let nc = new_cost as u32;
                                    integration.set(ni, nc);
                                    heap.push((nc, nx, ny));
                                    proof {
                                        let d2 = integration@;
                                        assert(d2 == d1.update(ni as int, nc));
                                        lemma_sum_update(d1, ni as int, nc);
                                        assert(ni != ci);
                                        lemma_cell_index(w as int, h as int, x as int, y as int);
                                        assert(d2[ci as int] == d1[ci as int]);
                                        assert(at(g, d2, x as int, y as int) == cost);
                                        assert(at(g, d1, x as int, y as int) == cost);
                                        assert(has_route(
                                            g,
                                            gs,
                                            x as int,
                                            y as int,
                                            at(g, d1, x as int, y as int) as int,
                                        ));
                                        lemma_route_extend(g, gs, x as int, y as int, cost as int, k as int);
                                        assert forall|x2: int, y2: int|
                                            g.in_grid(x2, y2) && (x2 != nx || y2 != ny) implies at(
                                            g,
                                            d2,
                                            x2,
                                            y2,
                                        ) == at(g, d1, x2, y2) by {
                                            lemma_cell_index(w as int, h as int, x2, y2);
                                            if g.index(x2, y2) == ni {
                                                lemma_cell_index_injective(
                                                    w as int,
                                                    x2,
                                                    y2,
                                                    nx as int,
                                                    ny as int,
                                                );
                                            }
                                        }
                                        assert forall|x2: int, y2: int|
                                            g.in_grid(x2, y2) && at(g, d2, x2, y2)
                                                != UNREACHABLE implies #[trigger] has_route(
                                            g,
                                            gs,
                                            x2,
                                            y2,
                                            at(g, d2, x2, y2) as int,
                                        ) by {
                                            if x2 == nx && y2 == ny {
                                            } else {
                                                assert(at(g, d2, x2, y2) == at(g, d1, x2, y2));
                                            }
                                        }
                                        assert forall|i2: int|
                                            0 <= i2 < size implies #[trigger] d2[i2] <= d0[i2] by {
                                            assert(d1[i2] <= d0[i2]);
                                        }
                                        assert forall|x2: int, y2: int|
                                            g.in_grid(x2, y2) && (x2 != x || y2 != y) implies (
                                            #[trigger] relaxed_at(g, d2, x2, y2)
                                                || heap.view().count(
                                                (at(g, d2, x2, y2), x2 as u32, y2 as u32),
                                            ) > 0) by {
                                            if x2 == nx && y2 == ny {
                                            } else {
                                                assert(at(g, d2, x2, y2) == at(g, d1, x2, y2));
                                                if relaxed_at(g, d1, x2, y2) {
                                                    assert forall|i3: int|
                                                        0 <= i3 < d1.len() implies #[trigger] d2[i3]
                                                        <= d1[i3] by {}
                                                    lemma_cell_index(w as int, h as int, x2, y2);
                                                    lemma_relaxed_lower(g, d1, d2, x2, y2);
                                                } else {
                                                    assert(hv1.count(
                                                        (at(g, d1, x2, y2), x2 as u32, y2 as u32),
                                                    ) > 0);
                                                }
                                            }
                                        }
                                        assert forall|k2: int|
                                            #![trigger step_valid(g, x as int, y as int, k2)]
                                            0 <= k2 < k + 1 && step_valid(
                                                g,
                                                x as int,
                                                y as int,
                                                k2,
                                            ) implies at(
                                            g,
                                            d2,
                                            x + dir_dx(k2),
                                            y + dir_dy(k2),
                                        ) <= cost + step_cost(g, x as int, y as int, k2) by {
                                            if k2 < k {
                                                lemma_cell_index(
                                                    w as int,
                                                    h as int,
                                                    x + dir_dx(k2),
                                                    y + dir_dy(k2),
                                                );
                                                assert(d2[g.index(x + dir_dx(k2), y + dir_dy(k2))]
                                                    <= d1[g.index(x + dir_dx(k2), y + dir_dy(k2))]);
                                            }
                                        }
                                        assert forall|e2: Entry|
                                            heap.view().count(e2) > 0 implies g.in_grid(
                                            e2.1 as int,
                                            e2.2 as int,
                                        ) && e2.0 >= at(g, d2, e2.1 as int, e2.2 as int)
                                            && e2.0 != UNREACHABLE by {
                                            if e2 != (nc, nx, ny) {
                                                assert(hv1.count(e2) > 0);
                                                lemma_cell_index(
                                                    w as int,
                                                    h as int,
                                                    e2.1 as int,
                                                    e2.2 as int,
                                                );
                                                assert(d2[g.index(e2.1 as int, e2.2 as int)]
                                                    <= d1[g.index(e2.1 as int, e2.2 as int)]);
                                            }
                                        }
                                        assert forall|i2: int|
                                            #![trigger gs[i2]]
                                            valid_goal(g, gs, i2) implies at(
                                            g,
                                            d2,
                                            gs[i2].0 as int,
                                            gs[i2].1 as int,
                                        ) <= gs[i2].2 by {
                                            lemma_cell_index(
                                                w as int,
                                                h as int,
                                                gs[i2].0 as int,
                                                gs[i2].1 as int,
                                            );
                                            assert(d2[g.index(gs[i2].0 as int, gs[i2].1 as int)]
                                                <= d1[g.index(gs[i2].0 as int, gs[i2].1 as int)]);
                                        }
                                    }
                                } else {
                                    proof {
                                        assert(at(g, integration@, nx as int, ny as int) as int
                                            <= cost + step_cost(g, x as int, y as int, k as int));
                                    }
                                }
                            }
                        }
                        k = k + 1;
                    }
                    proof {
                        assert(relaxed_at(g, integration@, x as int, y as int));
                        lemma_sum_nonneg(integration@);
                    }
                },
            }
        }

        // Direction field: each reached non-goal cell points to its cheapest
        // strictly cheaper neighbour.
        let mut y: u32 = 0;
        while y < h
            invariant
                g == *grid,
                gs == goals@,
                grid.wf(),
                w == grid.width,
                h == grid.height,
                size == w * h,
                integration@.len() == size,
                directions@.len() == size,
                y <= h,
                forall|x2: int, y2: int|
                    g.in_grid(x2, y2) && y2 < y ==> {
                        let dv = #[trigger] directions@[g.index(x2, y2)];
                        (dv.0 as int, dv.1 as int) == spec_direction(g, gs, integration@, x2, y2)
                    },
            decreases h - y,
        {
            let mut x: u32 = 0;
            while x < w
                invariant
                    g == *grid,
                    gs == goals@,
                    grid.wf(),
                    w == grid.width,
                    h == grid.height,
                    size == w * h,
                    integration@.len() == size,
                    directions@.len() == size,
                    y < h,
                    x <= w,
                    forall|x2: int, y2: int|
                        g.in_grid(x2, y2) && (y2 < y || (y2 == y && x2 < x)) ==> {
                            let dv = #[trigger] directions@[g.index(x2, y2)];
                            (dv.0 as int, dv.1 as int) == spec_direction(
                                g,
                                gs,
                                integration@,
                                x2,
                                y2,
                            )
                        },
                decreases w - x,
            {
                proof {
                    lemma_cell_index(w as int, h as int, x as int, y as int);
                }
                let ci = (y * w + x) as usize;
                let is_goal = goal_listed(goals, x, y);
                let d = Self::best_direction(grid, &integration, x, y, is_goal);
                let ghost dirs0 = directions@;
                directions.set(ci, d);
                proof {
                    assert forall|x2: int, y2: int|
                        g.in_grid(x2, y2) && (y2 < y || (y2 == y && x2 < x + 1)) implies {
                        let dv = #[trigger] directions@[g.index(x2, y2)];
                        (dv.0 as int, dv.1 as int) == spec_direction(g, gs, integration@, x2, y2)
                    } by {
                        lemma_cell_index(w as int, h as int, x2, y2);
                        if x2 == x && y2 == y {
                        } else {
                            if g.index(x2, y2) == ci {
                                lemma_cell_index_injective(w as int, x2, y2, x as int, y as int);
                            }
                            assert(directions@[g.index(x2, y2)] == dirs0[g.index(x2, y2)]);
                        }
                    }
                }
                x = x + 1;
            }
            y = y + 1;
        }

        FlowField { directions, integration, width: w, height: h }
    }

    /// Direction of one cell given the finished integration array.
    fn best_direction(grid: &Grid, integration: &Vec<u32>, x: u32, y: u32, is_goal: bool) -> (r: (
        i8,
        i8,
    ))
        requires
            grid.wf(),
            grid.in_grid(x as int, y as int),
            integration@.len() == grid.width * grid.height,
        ensures
            (r.0 as int, r.1 as int) == if at(*grid, integration@, x as int, y as int)
                == UNREACHABLE || is_goal {
                (0int, 0int)
            } else {
                best_from(
                    *grid,
                    integration@,
                    x as int,
                    y as int,
                    0,
                    at(*grid, integration@, x as int, y as int) as int,
                    (0, 0),
                )
            },
    {
        let w = grid.width;
        let ghost g = *grid;
        proof {
            lemma_cell_index(w as int, grid.height as int, x as int, y as int);
        }
        let ci = (y * w + x) as usize;
        if integration[ci] == UNREACHABLE || is_goal {
            return (0, 0);
        }
        let mut best_cost = integration[ci];
        let mut best_dir: (i8, i8) = (0, 0);
        let ghost target = best_from(g, integration@, x as int, y as int, 0, integration@[ci as int] as int, (0, 0));
        let mut k: usize = 0;
        while k < 8
            invariant
                g == *grid,
                grid.wf(),
                w == grid.width,
                grid.in_grid(x as int, y as int),
                integration@.len() == grid.width * grid.height,
                k <= 8,
                -1 <= best_dir.0 <= 1,
                -1 <= best_dir.1 <= 1,
                best_from(
                    g,
                    integration@,
                    x as int,
                    y as int,
                    k as int,
                    best_cost as int,
                    (best_dir.0 as int, best_dir.1 as int),
                ) == target,
            decreases 8 - k,
        {
            let (dx, dy, _) = dir(k);
            let nxi = x as i32 + dx;
            let nyi = y as i32 + dy;
            if grid.in_bounds(nxi, nyi) {
                let nx = nxi as u32;
                let ny = nyi as u32;
                if grid.can_move_diagonal(x, y, dx, dy) {
                    proof {
                        lemma_cell_index(w as int, grid.height as int, nx as int, ny as int);
                    }
                    let ni = (ny * w + nx) as usize;
                    if integration[ni] < best_cost {
                        best_cost = integration[ni];
                        best_dir = (dx as i8, dy as i8);
                    }
                }
            }
            k = k + 1;
        }
        best_dir
    }

    /// Direction at a cell; `(0, 0)` outside the grid, at goals and where no goal is reachable.
    pub fn direction_at(&self, gx: u32, gy: u32) -> (r: (i8, i8))
        requires
            self.wf(),
        ensures
            gx >= self.spec_width() || gy >= self.spec_height() ==> r == (0i8, 0i8),
            gx < self.spec_width() && gy < self.spec_height() ==> r == self.dirs()[gy
                * self.spec_width() + gx],
    {
        if gx >= self.width || gy >= self.height {
            return (0, 0);
        }
        proof {
            lemma_cell_index(self.width as int, self.height as int, gx as int, gy as int);
        }
        self.directions[(gy * self.width + gx) as usize]
    }

    /// Integration cost at a cell; `UNREACHABLE` outside the grid and where no goal is reachable.
    pub fn cost_at(&self, gx: u32, gy: u32) -> (r: u32)
        requires
            self.wf(),
        ensures
            gx >= self.spec_width() || gy >= self.spec_height() ==> r == UNREACHABLE,
            gx < self.spec_width() && gy < self.spec_height() ==> r == self.integ()[gy
                * self.spec_width() + gx],
    {
        if gx >= self.width || gy >= self.height {
            return UNREACHABLE;
        }
        proof {
            lemma_cell_index(self.width as int, self.height as int, gx as int, gy as int);
        }
        self.integration[(gy * self.width + gx) as usize]
    }
}

/// Per-faction cached flow-field state.
pub struct FactionFlowState {
    /// Unified multi-source field (fallback navigation).
    pub field: Option<FlowField>,
    /// Goals the unified field was built from, to detect when it must be rebuilt.
    pub cached_goals: Vec<Entry>,
    /// Per-zone flow fields, indexed by zone id.
    pub zone_fields: Vec<Option<FlowField>>,
    /// Goal cell per zone field, for change detection.
    pub cached_zone_goals: Vec<Option<(u32, u32)>>,
    /// Units assigned to each zone at the last scoring cycle.
    pub zone_congestion: Vec<u32>,
}

impl FactionFlowState {
    /// Empty state: no fields built, nothing cached.
    pub fn new() -> (s: FactionFlowState)
        ensures
            s.field is None,
            s.cached_goals@.len() == 0,
            s.zone_fields@.len() == 0,
            s.cached_zone_goals@.len() == 0,
            s.zone_congestion@.len() == 0,
    {
        FactionFlowState {
            field: None,
            cached_goals: Vec::new(),
            zone_fields: Vec::new(),
            cached_zone_goals: Vec::new(),
            zone_congestion: Vec::new(),
        }
    }
}

/// Whether `(x, y)` is listed among the goals.
fn goal_listed(goals: &[Entry], x: u32, y: u32) -> (r: bool)
    ensures
        r == is_goal_cell(goals@, x as int, y as int),
{
    let mut i: usize = 0;
    while i < goals.len()
        invariant
            i <= goals@.len(),
            forall|j: int| 0 <= j < i ==> !(goals@[j].0 == x && goals@[j].1 == y),
        decreases goals@.len() - i,
    {
        if goals[i].0 == x && goals[i].1 == y {
            return true;
        }
        i = i + 1;
    }
    false
}


// ---------------------------------------------------------------------------
// Laws of a solved flow field
// ---------------------------------------------------------------------------

proof fn lemma_step_cost_pos(g: Grid, x: int, y: int, k: int)
    requires
        0 <= k < 8,
    ensures
        step_cost(g, x, y, k) >= 2,
{
    let t = tile_cost(g, x + dir_dx(k), y + dir_dy(k));
    assert(t >= 1);
    assert(t * dir_cost(k) >= 2) by (nonlinear_arith)
        requires
            t >= 1,
            dir_cost(k) >= 2,
    ;
}

/// Along any valid walk from a usable goal, the walk stays in the grid and the
/// integration value at its end is at most the walk's total cost.
proof fn lemma_walk_bound(g: Grid, goals: Seq<Entry>, d: Seq<u32>, gi: int, ks: Seq<int>)
    requires
        g.wf(),
        d.len() == g.width * g.height,
        seeds_ok(g, goals, d),
        all_relaxed(g, d),
        valid_goal(g, goals, gi),
        walk_valid(g, goals[gi].0 as int, goals[gi].1 as int, ks),
    ensures
        g.in_grid(
            walk_end(goals[gi].0 as int, goals[gi].1 as int, ks).0,
            walk_end(goals[gi].0 as int, goals[gi].1 as int, ks).1,
        ),
        at(
            g,
            d,
            walk_end(goals[gi].0 as int, goals[gi].1 as int, ks).0,
            walk_end(goals[gi].0 as int, goals[gi].1 as int, ks).1,
        ) <= goals[gi].2 + walk_cost(g, goals[gi].0 as int, goals[gi].1 as int, ks),
    decreases ks.len(),
{
    let sx = goals[gi].0 as int;
    let sy = goals[gi].1 as int;
    if ks.len() == 0 {
        assert(goals[gi] == goals[gi]);
    } else {
        let pre = ks.drop_last();
        lemma_walk_bound(g, goals, d, gi, pre);
        let p = walk_end(sx, sy, pre);
        let k = ks.last();
        assert(relaxed_at(g, d, p.0, p.1));
        lemma_step_cost_pos(g, p.0, p.1, k);
        if at(g, d, p.0, p.1) != UNREACHABLE {
            assert(step_valid(g, p.0, p.1, k));
        }
    }
}

/// No route is cheaper than the field: the integration value of a cell is at
/// most the cost of every route from a usable goal to it.
pub proof fn law_no_cheaper_route(
    f: &FlowField,
    g: Grid,
    goals: Seq<Entry>,
    gi: int,
    ks: Seq<int>,
    x: int,
    y: int,
    cost: int,
)
    requires
        g.wf(),
        f.solves(g, goals),
        is_route(g, goals, gi, ks, x, y, cost),
    ensures
        f.cost_of(g, x, y) <= cost,
{
    lemma_walk_bound(g, goals, f.integ(), gi, ks);
}

/// Every recorded cost is achieved: a reached cell's integration value is the
/// cost of some route from a usable goal.
pub proof fn law_cost_is_achieved(f: &FlowField, g: Grid, goals: Seq<Entry>, x: int, y: int)
    requires
        f.solves(g, goals),
        g.in_grid(x, y),
        f.cost_of(g, x, y) != UNREACHABLE,
    ensures
        has_route(g, goals, x, y, f.cost_of(g, x, y) as int),
{
}

/// A cell is unreachable exactly when no route from a usable goal reaches it
/// below `UNREACHABLE`.
pub proof fn law_unreachable_means_no_route(
    f: &FlowField,
    g: Grid,
    goals: Seq<Entry>,
    gi: int,
    ks: Seq<int>,
    x: int,
    y: int,
    cost: int,
)
    requires
        g.wf(),
        f.solves(g, goals),
        f.cost_of(g, x, y) == UNREACHABLE,
        is_route(g, goals, gi, ks, x, y, cost),
    ensures
        cost >= UNREACHABLE,
{
    lemma_walk_bound(g, goals, f.integ(), gi, ks);
}

proof fn lemma_best_from(g: Grid, d: Seq<u32>, x: int, y: int, k: int, bc: int, bd: (int, int))
    requires
        0 <= k <= 8,
    ensures
        ({
            let r = best_from(g, d, x, y, k, bc, bd);
            r == bd || exists|k2: int|
                #![trigger dir_dx(k2), dir_dy(k2)]
                k <= k2 < 8 && r == (dir_dx(k2), dir_dy(k2)) && g.in_grid(
                    x + dir_dx(k2),
                    y + dir_dy(k2),
                ) && (at(g, d, x + dir_dx(k2), y + dir_dy(k2)) as int) < bc
        }),
    decreases 8 - k,
{
    if k < 8 {
        let nx = x + dir_dx(k);
        let ny = y + dir_dy(k);
        if g.in_grid(nx, ny) && g.diagonal_ok(x, y, dir_dx(k), dir_dy(k)) && (at(g, d, nx, ny)
            as int) < bc {
            lemma_best_from(g, d, x, y, k + 1, at(g, d, nx, ny) as int, (dir_dx(k), dir_dy(k)));
        } else {
            lemma_best_from(g, d, x, y, k + 1, bc, bd);
        }
    }
}

/// Following the field goes downhill: a cell with a direction points to a
/// neighbour inside the grid whose integration value is strictly lower, so
/// every flow path ends at a goal.
pub proof fn law_direction_descends(f: &FlowField, g: Grid, goals: Seq<Entry>, x: int, y: int)
    requires
        f.solves(g, goals),
        g.in_grid(x, y),
        spec_direction(g, goals, f.integ(), x, y) != (0int, 0int),
    ensures
        ({
            let dv = spec_direction(g, goals, f.integ(), x, y);
            &&& g.in_grid(x + dv.0, y + dv.1)
            &&& f.cost_of(g, x + dv.0, y + dv.1) < f.cost_of(g, x, y)
            &&& -1 <= dv.0 <= 1 && -1 <= dv.1 <= 1
        }),
{
    lemma_best_from(g, f.integ(), x, y, 0, at(g, f.integ(), x, y) as int, (0, 0));
}

/// A reached cell bounds each of its eight neighbours: a passable neighbour
/// (not across a blocked corner) costs at most the cell's cost plus the
/// neighbour's movement cost times 2 for a straight step or 3 for a diagonal.
pub proof fn law_neighbour_bound(
    f: &FlowField,
    g: Grid,
    goals: Seq<Entry>,
    x: int,
    y: int,
    nx: int,
    ny: int,
)
    requires
        f.solves(g, goals),
        g.in_grid(x, y),
        g.in_grid(nx, ny),
        -1 <= nx - x <= 1,
        -1 <= ny - y <= 1,
        nx != x || ny != y,
        g.passable(nx, ny),
        g.diagonal_ok(x, y, nx - x, ny - y),
        f.cost_of(g, x, y) != UNREACHABLE,
    ensures
        f.cost_of(g, nx, ny) <= f.cost_of(g, x, y) + tile_cost(g, nx, ny) * (if nx != x && ny
            != y {
            3int
        } else {
            2int
        }),
{
    law_eight_directions();
    assert(neighbour_offset(nx - x, ny - y));
    let k = choose|k: int| 0 <= k < 8 && #[trigger] dir_dx(k) == nx - x && dir_dy(k) == ny - y;
    assert(step_valid(g, x, y, k));
    assert(relaxed_at(g, f.integ(), x, y));
}

/// Goal cells and unreachable cells carry no direction; a usable goal costs at
/// most its initial cost.
pub proof fn law_goals_and_unreachable_are_still(
    f: &FlowField,
    g: Grid,
    goals: Seq<Entry>,
    i: int,
)
    requires
        f.solves(g, goals),
        valid_goal(g, goals, i),
    ensures
        spec_direction(g, goals, f.integ(), goals[i].0 as int, goals[i].1 as int) == (0int, 0int),
        f.cost_of(g, goals[i].0 as int, goals[i].1 as int) <= goals[i].2,
{
    assert(is_goal_cell(goals, goals[i].0 as int, goals[i].1 as int));
}

} // verus!
