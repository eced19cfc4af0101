//! Resumable A* search that routes roads between settlements. Existing
//! roads are cheap to follow, water is never entered, elevation and
//! shorelines are expensive, and a call expands a bounded number of nodes
//! so long routes can be spread over several steps.

use vstd::prelude::*;
use vstd::multiset::Multiset;
use crate::grid::{Grid, TileKind, MAX_SIDE, lemma_cell_index, lemma_cell_index_injective};
use crate::heap::{MinHeap, Entry, entry_le};
use crate::flowfield::{
    dir,
    dir_dx,
    dir_dy,
    dir_cost,
    walk_end,
    sum_u32,
    lemma_sum_update,
    lemma_sum_nonneg,
};

verus! {

/// Score of a cell the search has not reached.
pub const NO_SCORE: u32 = 0xFFFF_FFFF;

/// Saturating view of a score: anything from `NO_SCORE` up counts as unreached.
pub open spec fn sat(v: int) -> int {
    if v < NO_SCORE {
        v
    } else {
        NO_SCORE as int
    }
}

/// One of the four orthogonal neighbours of `(x, y)` is water.
pub open spec fn near_water(g: Grid, x: int, y: int) -> bool {
    ||| (g.in_grid(x, y - 1) && g.tile(x, y - 1) == TileKind::Water)
    ||| (g.in_grid(x, y + 1) && g.tile(x, y + 1) == TileKind::Water)
    ||| (g.in_grid(x - 1, y) && g.tile(x - 1, y) == TileKind::Water)
    ||| (g.in_grid(x + 1, y) && g.tile(x + 1, y) == TileKind::Water)
}

/// Cost of entering a cell: high ground 12, shoreline 15, otherwise road 1,
/// forest 8 and anything else 3.
pub open spec fn road_tile_cost(g: Grid, x: int, y: int) -> int {
    if g.elev(x, y) > 1 {
        12
    } else if near_water(g, x, y) {
        15
    } else {
        match g.tile(x, y) {
            TileKind::Road => 1,
            TileKind::Forest => 8,
            _ => 3,
        }
    }
}

/// Step `k` from `(x, y)` stays in the grid, avoids water and cuts no
/// blocked corner.
pub open spec fn road_step_ok(g: Grid, x: int, y: int, k: int) -> bool {
    &&& 0 <= k < 8
    &&& g.in_grid(x + dir_dx(k), y + dir_dy(k))
    &&& g.tile(x + dir_dx(k), y + dir_dy(k)) != TileKind::Water
    &&& g.diagonal_ok(x, y, dir_dx(k), dir_dy(k))
}

pub open spec fn road_step_cost(g: Grid, x: int, y: int, k: int) -> int {
    road_tile_cost(g, x + dir_dx(k), y + dir_dy(k)) * dir_cost(k)
}

/// Every step of the walk `ks` from `(sx, sy)` is a road step.
pub open spec fn road_walk_valid(g: Grid, sx: int, sy: int, ks: Seq<int>) -> bool
    decreases ks.len(),
{
    if ks.len() == 0 {
        true
    } else {
        let p = walk_end(sx, sy, ks.drop_last());
        road_walk_valid(g, sx, sy, ks.drop_last()) && road_step_ok(g, p.0, p.1, ks.last())
    }
}

pub open spec fn road_walk_cost(g: Grid, sx: int, sy: int, ks: Seq<int>) -> int
    decreases ks.len(),
{
    if ks.len() == 0 {
        0
    } else {
        let p = walk_end(sx, sy, ks.drop_last());
        road_walk_cost(g, sx, sy, ks.drop_last()) + road_step_cost(g, p.0, p.1, ks.last())
    }
}

/// `(bx, by)` is `(ax, ay)` itself or a road step away from it.
pub open spec fn road_link(g: Grid, ax: int, ay: int, bx: int, by: int) -> bool {
    ||| (ax == bx && ay == by)
    ||| {
        &&& g.in_grid(ax, ay)
        &&& g.in_grid(bx, by)
        &&& -1 <= bx - ax <= 1
        &&& -1 <= by - ay <= 1
        &&& g.tile(bx, by) != TileKind::Water
        &&& g.diagonal_ok(ax, ay, bx - ax, by - ay)
    }
}

/// A road route: starts at `from`, ends at `to`, stays in the grid and
/// links consecutive cells by road steps.
pub open spec fn road_route(g: Grid, from: (u32, u32), to: (u32, u32), p: Seq<(u32, u32)>) -> bool {
    &&& p.len() >= 1
    &&& p[0] == from
    &&& p.last() == to
    &&& forall|i: int| 0 <= i < p.len() ==> g.in_grid((#[trigger] p[i]).0 as int, p[i].1 as int)
    &&& forall|i: int|
        0 <= i < p.len() - 1 ==> road_link(
            g,
            (#[trigger] p[i]).0 as int,
            p[i].1 as int,
            p[i + 1].0 as int,
            p[i + 1].1 as int,
        )
}

/// Consecutive cells of `p` are different cells.
pub open spec fn no_stutter(p: Seq<(u32, u32)>) -> bool {
    forall|i: int| 0 <= i < p.len() - 1 ==> #[trigger] p[i] != p[i + 1]
}

/// Route `p` costs no more than any road walk from `from` that ends at `to`.
pub open spec fn cheapest_route(g: Grid, from: (u32, u32), to: (u32, u32), p: Seq<(u32, u32)>) -> bool {
    forall|ks: Seq<int>|
        road_walk_valid(g, from.0 as int, from.1 as int, ks) && walk_end(
            from.0 as int,
            from.1 as int,
            ks,
        ) == (to.0 as int, to.1 as int) ==> route_cost(g, p) <= #[trigger] road_walk_cost(
            g,
            from.0 as int,
            from.1 as int,
            ks,
        )
}

/// No road walk from `from` reaches `to` for less than `NO_SCORE`.
pub open spec fn no_road(g: Grid, from: (u32, u32), to: (u32, u32)) -> bool {
    forall|ks: Seq<int>|
        road_walk_valid(g, from.0 as int, from.1 as int, ks) && walk_end(
            from.0 as int,
            from.1 as int,
            ks,
        ) == (to.0 as int, to.1 as int) ==> #[trigger] road_walk_cost(
            g,
            from.0 as int,
            from.1 as int,
            ks,
        ) >= NO_SCORE
}

/// Octile distance with cardinal steps 2 and diagonal steps 3.
pub open spec fn spec_heuristic(to: (u32, u32), x: int, y: int) -> int {
    let dx = if x >= to.0 {
        x - to.0
    } else {
        to.0 - x
    };
    let dy = if y >= to.1 {
        y - to.1
    } else {
        to.1 - y
    };
    if dx < dy {
        dx * 3 + (dy - dx) * 2
    } else {
        dy * 3 + (dx - dy) * 2
    }
}

/// Score of cell `(x, y)`.
pub open spec fn score(g: Grid, gs: Seq<u32>, x: int, y: int) -> u32 {
    gs[g.index(x, y)]
}

/// Open-set key of a cell at its current score.
pub open spec fn key(g: Grid, gs: Seq<u32>, to: (u32, u32), x: int, y: int) -> u32 {
    sat(score(g, gs, x, y) + spec_heuristic(to, x, y)) as u32
}

/// The cell waits in the open set under its current key.
pub open spec fn pending(
    g: Grid,
    gs: Seq<u32>,
    open: Multiset<Entry>,
    to: (u32, u32),
    x: int,
    y: int,
) -> bool {
    open.count((key(g, gs, to, x, y), x as u32, y as u32)) > 0
}

/// No road step out of a reached cell could improve its neighbour.
pub open spec fn relaxed(g: Grid, gs: Seq<u32>, x: int, y: int) -> bool {
    score(g, gs, x, y) != NO_SCORE ==> forall|k: int|
        #![trigger road_step_ok(g, x, y, k)]
        road_step_ok(g, x, y, k) ==> score(g, gs, x + dir_dx(k), y + dir_dy(k)) <= sat(
            score(g, gs, x, y) + road_step_cost(g, x, y, k),
        )
}

/// Cell index `p` of a `w`-wide grid, as coordinates.
pub open spec fn cell_x(w: int, p: int) -> int {
    p % w
}

pub open spec fn cell_y(w: int, p: int) -> int {
    p / w
}

/// Cost of moving from cell `(ax, ay)` to the neighbouring cell `(bx, by)`:
/// nothing for staying put, otherwise the entered cell's cost times 2 for a
/// straight step or 3 for a diagonal one.
pub open spec fn link_cost(g: Grid, ax: int, ay: int, bx: int, by: int) -> int {
    if ax == bx && ay == by {
        0
    } else {
        road_tile_cost(g, bx, by) * (if ax != bx && ay != by {
            3int
        } else {
            2int
        })
    }
}

/// A reached cell other than the start records a predecessor one road step
/// away whose score plus the step's cost is at most the cell's score.
pub open spec fn pred_ok(g: Grid, gs: Seq<u32>, cf: Seq<u32>, x: int, y: int) -> bool {
    let p = cf[g.index(x, y)] as int;
    let w = g.width as int;
    &&& 0 <= p < g.width * g.height
    &&& gs[p] < score(g, gs, x, y)
    &&& gs[p] + link_cost(g, cell_x(w, p), cell_y(w, p), x, y) <= score(g, gs, x, y)
    &&& road_link(g, cell_x(w, p), cell_y(w, p), x, y)
}

/// A road step costs what moving to the cell it reaches costs.
proof fn lemma_step_link(g: Grid, x: int, y: int, k: int)
    requires
        0 <= k < 8,
    ensures
        road_step_cost(g, x, y, k) == link_cost(g, x, y, x + dir_dx(k), y + dir_dy(k)),
        dir_dx(k) != 0 || dir_dy(k) != 0,
{
}

/// Index `p` of a `w × h` grid names cell `(p % w, p / w)`.
pub proof fn lemma_index_cell(w: int, h: int, p: int)
    requires
        0 < w,
        0 <= p < w * h,
    ensures
        0 <= cell_x(w, p) < w,
        0 <= cell_y(w, p) < h,
        cell_y(w, p) * w + cell_x(w, p) == p,
{
    vstd::arithmetic::div_mod::lemma_fundamental_div_mod(p, w);
    vstd::arithmetic::div_mod::lemma_mod_pos_bound(p, w);
    let x = p % w;
    let y = p / w;
    assert(y * w == w * y) by (nonlinear_arith);
    assert(0 <= y < h) by (nonlinear_arith)
        requires
            p == w * y + x,
            0 <= x < w,
            0 <= p < w * h,
            0 < w,
    ;
}

/// The cell `(x, y)` of a `w`-wide grid has index `y * w + x`.
pub proof fn lemma_cell_of_index(w: int, x: int, y: int)
    requires
        0 <= x < w,
        0 <= y,
    ensures
        cell_x(w, y * w + x) == x,
        cell_y(w, y * w + x) == y,
{
    vstd::arithmetic::div_mod::lemma_fundamental_div_mod_converse(y * w + x, w, y, x);
}

proof fn lemma_road_walk_push(g: Grid, sx: int, sy: int, ks: Seq<int>, k: int)
    ensures
        walk_end(sx, sy, ks.push(k)) == ({
            let p = walk_end(sx, sy, ks);
            (p.0 + dir_dx(k), p.1 + dir_dy(k))
        }),
        road_walk_valid(g, sx, sy, ks.push(k)) == (road_walk_valid(g, sx, sy, ks) && road_step_ok(
            g,
            walk_end(sx, sy, ks).0,
            walk_end(sx, sy, ks).1,
            k,
        )),
        road_walk_cost(g, sx, sy, ks.push(k)) == road_walk_cost(g, sx, sy, ks) + road_step_cost(
            g,
            walk_end(sx, sy, ks).0,
            walk_end(sx, sy, ks).1,
            k,
        ),
{
    assert(ks.push(k).drop_last() =~= ks);
}

/// With every cell relaxed, no cell scores more than any walk to it costs.
proof fn lemma_walk_bound(g: Grid, gs: Seq<u32>, sx: int, sy: int, ks: Seq<int>)
    requires
        g.wf(),
        gs.len() == g.width * g.height,
        g.in_grid(sx, sy),
        score(g, gs, sx, sy) == 0,
        forall|x: int, y: int| g.in_grid(x, y) ==> #[trigger] relaxed(g, gs, x, y),
        road_walk_valid(g, sx, sy, ks),
    ensures
        g.in_grid(walk_end(sx, sy, ks).0, walk_end(sx, sy, ks).1),
        score(g, gs, walk_end(sx, sy, ks).0, walk_end(sx, sy, ks).1) <= sat(
            road_walk_cost(g, sx, sy, ks),
        ),
        road_walk_cost(g, sx, sy, ks) >= 0,
    decreases ks.len(),
{
    if ks.len() > 0 {
        let pre = ks.drop_last();
        let k = ks.last();
        assert(pre.push(k) =~= ks);
        lemma_walk_bound(g, gs, sx, sy, pre);
        lemma_road_walk_push(g, sx, sy, pre, k);
        let p = walk_end(sx, sy, pre);
        assert(relaxed(g, gs, p.0, p.1));
        assert(road_step_ok(g, p.0, p.1, k));
        assert(road_step_cost(g, p.0, p.1, k) >= 0) by (nonlinear_arith)
            requires
                road_tile_cost(g, p.0 + dir_dx(k), p.1 + dir_dy(k)) >= 1,
                dir_cost(k) >= 2,
                road_step_cost(g, p.0, p.1, k) == road_tile_cost(g, p.0 + dir_dx(k), p.1 + dir_dy(
                    k,
                )) * dir_cost(k),
        ;
    }
}

/// The octile heuristic never drops by more than a step's direction cost.
proof fn lemma_heuristic_step(to: (u32, u32), x: int, y: int, k: int)
    requires
        0 <= k < 8,
    ensures
        spec_heuristic(to, x, y) <= dir_cost(k) + spec_heuristic(to, x + dir_dx(k), y + dir_dy(k)),
{
}

/// The heuristic underestimates: from any start it is at most a road walk's
/// cost plus the heuristic at the walk's end.
proof fn lemma_heuristic_walk(g: Grid, to: (u32, u32), sx: int, sy: int, ks: Seq<int>)
    requires
        road_walk_valid(g, sx, sy, ks),
    ensures
        spec_heuristic(to, sx, sy) <= road_walk_cost(g, sx, sy, ks) + spec_heuristic(
            to,
            walk_end(sx, sy, ks).0,
            walk_end(sx, sy, ks).1,
        ),
    decreases ks.len(),
{
    if ks.len() > 0 {
        let pre = ks.drop_last();
        let k = ks.last();
        assert(pre.push(k) =~= ks);
        lemma_heuristic_walk(g, to, sx, sy, pre);
        lemma_road_walk_push(g, sx, sy, pre, k);
        let p = walk_end(sx, sy, pre);
        lemma_heuristic_step(to, p.0, p.1, k);
        assert(road_step_cost(g, p.0, p.1, k) >= dir_cost(k)) by (nonlinear_arith)
            requires
                road_tile_cost(g, p.0 + dir_dx(k), p.1 + dir_dy(k)) >= 1,
                dir_cost(k) >= 2,
                road_step_cost(g, p.0, p.1, k) == road_tile_cost(g, p.0 + dir_dx(k), p.1 + dir_dy(
                    k,
                )) * dir_cost(k),
        ;
    }
}

/// A road walk splits at step `j` into its first `j` steps and the rest,
/// walked on from where the first part ends.
proof fn lemma_walk_split(g: Grid, sx: int, sy: int, ks: Seq<int>, j: int)
    requires
        0 <= j <= ks.len(),
    ensures
        ({
            let mid = walk_end(sx, sy, ks.take(j));
            &&& walk_end(sx, sy, ks) == walk_end(mid.0, mid.1, ks.skip(j))
            &&& road_walk_cost(g, sx, sy, ks) == road_walk_cost(g, sx, sy, ks.take(j))
                + road_walk_cost(g, mid.0, mid.1, ks.skip(j))
            &&& road_walk_valid(g, sx, sy, ks) ==> road_walk_valid(g, sx, sy, ks.take(j))
                && road_walk_valid(g, mid.0, mid.1, ks.skip(j))
        }),
    decreases ks.len(),
{
    let mid = walk_end(sx, sy, ks.take(j));
    if j == ks.len() {
        assert(ks.take(j) =~= ks);
        assert(ks.skip(j) =~= Seq::<int>::empty());
    } else {
        let pre = ks.drop_last();
        let k = ks.last();
        assert(pre.push(k) =~= ks);
        lemma_walk_split(g, sx, sy, pre, j);
        assert(ks.take(j) =~= pre.take(j));
        assert(ks.skip(j) =~= pre.skip(j).push(k));
        lemma_road_walk_push(g, sx, sy, pre, k);
        lemma_road_walk_push(g, mid.0, mid.1, pre.skip(j), k);
        if road_walk_valid(g, sx, sy, ks) {
            assert(road_walk_valid(g, sx, sy, pre));
        }
    }
}

/// Along a road walk from the start, with every reached cell relaxed or
/// waiting in the open set: either the walk's end scores at most the walk's
/// cost, or some cell on the walk waits in the open set scoring at most the
/// cost of the walk up to it.
proof fn lemma_walk_frontier(
    g: Grid,
    gs: Seq<u32>,
    hv: Multiset<Entry>,
    to: (u32, u32),
    sx: int,
    sy: int,
    ks: Seq<int>,
)
    requires
        g.wf(),
        gs.len() == g.width * g.height,
        g.in_grid(sx, sy),
        score(g, gs, sx, sy) == 0,
        forall|x: int, y: int|
            g.in_grid(x, y) ==> #[trigger] relaxed(g, gs, x, y) || pending(g, gs, hv, to, x, y),
        road_walk_valid(g, sx, sy, ks),
    ensures
        g.in_grid(walk_end(sx, sy, ks).0, walk_end(sx, sy, ks).1),
        road_walk_cost(g, sx, sy, ks) >= 0,
        score(g, gs, walk_end(sx, sy, ks).0, walk_end(sx, sy, ks).1) <= sat(
            road_walk_cost(g, sx, sy, ks),
        ) || exists|j: int|
            0 <= j < ks.len() && {
                let c = #[trigger] walk_end(sx, sy, ks.take(j));
                &&& g.in_grid(c.0, c.1)
                &&& pending(g, gs, hv, to, c.0, c.1)
                &&& score(g, gs, c.0, c.1) <= sat(road_walk_cost(g, sx, sy, ks.take(j)))
            },
    decreases ks.len(),
{
    if ks.len() == 0 {
    } else {
        let pre = ks.drop_last();
        let k = ks.last();
        assert(pre.push(k) =~= ks);
        lemma_walk_frontier(g, gs, hv, to, sx, sy, pre);
        lemma_road_walk_push(g, sx, sy, pre, k);
        let p = walk_end(sx, sy, pre);
        assert(road_step_ok(g, p.0, p.1, k));
        assert(road_step_cost(g, p.0, p.1, k) >= 0) by (nonlinear_arith)
            requires
                road_tile_cost(g, p.0 + dir_dx(k), p.1 + dir_dy(k)) >= 1,
                dir_cost(k) >= 2,
                road_step_cost(g, p.0, p.1, k) == road_tile_cost(g, p.0 + dir_dx(k), p.1 + dir_dy(
                    k,
                )) * dir_cost(k),
        ;
        if score(g, gs, p.0, p.1) <= sat(road_walk_cost(g, sx, sy, pre)) {
            if relaxed(g, gs, p.0, p.1) {
                if score(g, gs, p.0, p.1) != NO_SCORE {
                    assert(road_step_ok(g, p.0, p.1, k));
                }
            } else {
                assert(pending(g, gs, hv, to, p.0, p.1));
                let j = pre.len() as int;
                assert(ks.take(j) =~= pre);
                assert(walk_end(sx, sy, ks.take(j)) == p);
            }
        } else {
            let j = choose|j: int|
                0 <= j < pre.len() && {
                    let c = #[trigger] walk_end(sx, sy, pre.take(j));
                    &&& g.in_grid(c.0, c.1)
                    &&& pending(g, gs, hv, to, c.0, c.1)
                    &&& score(g, gs, c.0, c.1) <= sat(road_walk_cost(g, sx, sy, pre.take(j)))
                };
            assert(ks.take(j) =~= pre.take(j));
            assert(walk_end(sx, sy, ks.take(j)) == walk_end(sx, sy, pre.take(j)));
        }
    }
}

/// When the target's entry leaves the open set first, no road walk from the
/// start reaches the target for less than the target's score.
proof fn lemma_goal_optimal(
    g: Grid,
    from: (u32, u32),
    to: (u32, u32),
    gs: Seq<u32>,
    cf: Seq<u32>,
    hv: Multiset<Entry>,
    e: Entry,
    ks: Seq<int>,
)
    requires
        settled_parts(g, from, to, gs, cf, hv),
        forall|x: int, y: int|
            g.in_grid(x, y) ==> #[trigger] relaxed(g, gs, x, y) || pending(g, gs, hv, to, x, y),
        hv.count(e) > 0,
        e.1 == to.0,
        e.2 == to.1,
        forall|f: Entry| hv.count(f) > 0 ==> entry_le(e, f),
        road_walk_valid(g, from.0 as int, from.1 as int, ks),
        walk_end(from.0 as int, from.1 as int, ks) == (to.0 as int, to.1 as int),
    ensures
        score(g, gs, to.0 as int, to.1 as int) <= sat(
            road_walk_cost(g, from.0 as int, from.1 as int, ks),
        ),
        road_walk_cost(g, from.0 as int, from.1 as int, ks) >= 0,
{
    let fx = from.0 as int;
    let fy = from.1 as int;
    let tx = to.0 as int;
    let ty = to.1 as int;
    lemma_walk_frontier(g, gs, hv, to, fx, fy, ks);
    assert(spec_heuristic(to, tx, ty) == 0);
    assert(e.0 >= key(g, gs, to, tx, ty));
    assert(key(g, gs, to, tx, ty) == score(g, gs, tx, ty));
    if score(g, gs, tx, ty) > sat(road_walk_cost(g, fx, fy, ks)) {
        let j = choose|j: int|
            0 <= j < ks.len() && {
                let c = #[trigger] walk_end(fx, fy, ks.take(j));
                &&& g.in_grid(c.0, c.1)
                &&& pending(g, gs, hv, to, c.0, c.1)
                &&& score(g, gs, c.0, c.1) <= sat(road_walk_cost(g, fx, fy, ks.take(j)))
            };
        let c = walk_end(fx, fy, ks.take(j));
        let f: Entry = (key(g, gs, to, c.0, c.1), c.0 as u32, c.1 as u32);
        assert(hv.count(f) > 0);
        assert(entry_le(e, f));
        lemma_walk_split(g, fx, fy, ks, j);
        lemma_heuristic_walk(g, to, c.0, c.1, ks.skip(j));
        let a = road_walk_cost(g, fx, fy, ks.take(j));
        let b = road_walk_cost(g, c.0, c.1, ks.skip(j));
        assert(spec_heuristic(to, c.0, c.1) >= 0);
        assert(spec_heuristic(to, c.0, c.1) <= b);
        assert(key(g, gs, to, c.0, c.1) <= sat(a + b));
        assert(false);
    }
}

/// Lowering other cells keeps a cell relaxed.
proof fn lemma_relaxed_lower(g: Grid, d: Seq<u32>, d2: Seq<u32>, x: int, y: int)
    requires
        g.wf(),
        g.in_grid(x, y),
        d.len() == g.width * g.height,
        d2.len() == d.len(),
        forall|i: int| 0 <= i < d.len() ==> #[trigger] d2[i] <= d[i],
        score(g, d2, x, y) == score(g, d, x, y),
        relaxed(g, d, x, y),
    ensures
        relaxed(g, d2, x, y),
{
    if score(g, d2, x, y) != NO_SCORE {
        assert forall|k: int| #![trigger road_step_ok(g, x, y, k)] road_step_ok(g, x, y, k) implies score(
            g,
            d2,
            x + dir_dx(k),
            y + dir_dy(k),
        ) <= sat(score(g, d2, x, y) + road_step_cost(g, x, y, k)) by {
            lemma_cell_index(g.width as int, g.height as int, x + dir_dx(k), y + dir_dy(k));
            assert(d2[g.index(x + dir_dx(k), y + dir_dy(k))] <= d[g.index(
                x + dir_dx(k),
                y + dir_dy(k),
            )]);
        }
    }
}

/// Cost of walking the route `p` cell by cell.
pub open spec fn route_cost(g: Grid, p: Seq<(u32, u32)>) -> int
    decreases p.len(),
{
    if p.len() <= 1 {
        0
    } else {
        route_cost(g, p.drop_last()) + link_cost(
            g,
            p[p.len() - 2].0 as int,
            p[p.len() - 2].1 as int,
            p.last().0 as int,
            p.last().1 as int,
        )
    }
}

/// Cost of walking the cells of `r` from the last one back to the first.
pub open spec fn reverse_cost(g: Grid, r: Seq<(u32, u32)>) -> int
    decreases r.len(),
{
    if r.len() <= 1 {
        0
    } else {
        reverse_cost(g, r.drop_last()) + link_cost(
            g,
            r.last().0 as int,
            r.last().1 as int,
            r[r.len() - 2].0 as int,
            r[r.len() - 2].1 as int,
        )
    }
}

/// The search state is consistent: the start scores 0, every other
/// reached cell has a valid predecessor, a reached target waits in the open
/// set, and every open entry names a reached cell under a key no lower than
/// the cell's current one.
pub open spec fn settled_parts(
    g: Grid,
    from: (u32, u32),
    to: (u32, u32),
    gs: Seq<u32>,
    cf: Seq<u32>,
    hv: Multiset<Entry>,
) -> bool {
    &&& g.wf()
    &&& g.in_grid(from.0 as int, from.1 as int)
    &&& g.in_grid(to.0 as int, to.1 as int)
    &&& gs.len() == g.width * g.height
    &&& cf.len() == g.width * g.height
    &&& score(g, gs, from.0 as int, from.1 as int) == 0
    &&& forall|x: int, y: int|
        g.in_grid(x, y) && score(g, gs, x, y) != NO_SCORE && (x != from.0 || y != from.1)
            ==> #[trigger] pred_ok(g, gs, cf, x, y)
    &&& score(g, gs, to.0 as int, to.1 as int) != NO_SCORE ==> pending(
        g,
        gs,
        hv,
        to,
        to.0 as int,
        to.1 as int,
    )
    &&& forall|e: Entry|
        #![trigger hv.count(e)]
        hv.count(e) > 0 ==> g.in_grid(e.1 as int, e.2 as int) && score(
            g,
            gs,
            e.1 as int,
            e.2 as int,
        ) != NO_SCORE && e.0 >= key(g, gs, to, e.1 as int, e.2 as int)
}

/// Recording a lower score for the neighbour reached by step `k`, with the
/// current cell as predecessor and a fresh open entry, keeps the state
/// consistent, lowers no score elsewhere and never raises the work left.
#[verifier::rlimit(40)]
proof fn lemma_relax_lowered(
    g: Grid,
    from: (u32, u32),
    to: (u32, u32),
    d1: Seq<u32>,
    cf1: Seq<u32>,
    hv1: Multiset<Entry>,
    x: int,
    y: int,
    k: int,
    new_g: u32,
    key_n: u32,
)
    requires
        settled_parts(g, from, to, d1, cf1, hv1),
        g.in_grid(x, y),
        road_step_ok(g, x, y, k),
        score(g, d1, x, y) != NO_SCORE,
        new_g as int == sat(score(g, d1, x, y) + road_step_cost(g, x, y, k)),
        new_g < score(g, d1, x + dir_dx(k), y + dir_dy(k)),
        key_n as int == sat(new_g + spec_heuristic(to, x + dir_dx(k), y + dir_dy(k))),
        road_step_cost(g, x, y, k) >= 2,
    ensures
        ({
            let ni = g.index(x + dir_dx(k), y + dir_dy(k));
            let d2 = d1.update(ni, new_g);
            let cf2 = cf1.update(ni, g.index(x, y) as u32);
            let hv2 = hv1.insert((key_n, (x + dir_dx(k)) as u32, (y + dir_dy(k)) as u32));
            &&& settled_parts(g, from, to, d2, cf2, hv2)
            &&& forall|i: int| 0 <= i < d1.len() ==> #[trigger] d2[i] <= d1[i]
            &&& score(g, d2, x, y) == score(g, d1, x, y)
            &&& score(g, d2, x + dir_dx(k), y + dir_dy(k)) == new_g
            &&& forall|x2: int, y2: int|
                g.in_grid(x2, y2) && (relaxed(g, d1, x2, y2) || pending(g, d1, hv1, to, x2, y2))
                    ==> #[trigger] relaxed(g, d2, x2, y2) || pending(g, d2, hv2, to, x2, y2)
            &&& sum_u32(d2) + hv2.len() <= sum_u32(d1) + hv1.len()
        }),
{
    let w = g.width as int;
    let h = g.height as int;
    let nx = x + dir_dx(k);
    let ny = y + dir_dy(k);
    let ni = g.index(nx, ny);
    let ci = g.index(x, y);
    let d2 = d1.update(ni, new_g);
    let cf2 = cf1.update(ni, ci as u32);
    let hv2 = hv1.insert((key_n, nx as u32, ny as u32));
    lemma_cell_index(w, h, x, y);
    lemma_cell_index(w, h, nx, ny);
    assert(ni != ci) by {
        if ni == ci {
            lemma_cell_index_injective(w, nx, ny, x, y);
        }
    }
    lemma_sum_update(d1, ni, new_g);
    lemma_cell_of_index(w, x, y);
    let fx = from.0 as int;
    let fy = from.1 as int;
    lemma_cell_index(w, h, fx, fy);
    assert(g.index(fx, fy) != ni);
    assert(key(g, d2, to, nx, ny) == key_n);
    assert forall|x2: int, y2: int|
        g.in_grid(x2, y2) && (x2 != nx || y2 != ny) implies score(g, d2, x2, y2) == score(
        g,
        d1,
        x2,
        y2,
    ) && cf2[g.index(x2, y2)] == cf1[g.index(x2, y2)] by {
        lemma_cell_index(w, h, x2, y2);
        if g.index(x2, y2) == ni {
            lemma_cell_index_injective(w, x2, y2, nx, ny);
        }
    }
    assert forall|i: int| 0 <= i < d1.len() implies #[trigger] d2[i] <= d1[i] by {}
    assert forall|x2: int, y2: int|
        g.in_grid(x2, y2) && score(g, d2, x2, y2) != NO_SCORE && (x2 != fx || y2 != fy) implies #[trigger] pred_ok(
        g,
        d2,
        cf2,
        x2,
        y2,
    ) by {
        if x2 == nx && y2 == ny {
            assert(cf2[ni] == ci);
            assert(d2[ci] == d1[ci]);
            lemma_step_link(g, x, y, k);
        } else {
            assert(pred_ok(g, d1, cf1, x2, y2));
            let p = cf1[g.index(x2, y2)] as int;
            assert(d2[p] <= d1[p]);
        }
    }
    let tx = to.0 as int;
    let ty = to.1 as int;
    if score(g, d2, tx, ty) != NO_SCORE {
        if tx == nx && ty == ny {
            assert(hv2.count((key_n, nx as u32, ny as u32)) > 0);
        } else {
            assert(pending(g, d1, hv1, to, tx, ty));
            assert(key(g, d2, to, tx, ty) == key(g, d1, to, tx, ty));
        }
    }
    assert forall|e: Entry| #![trigger hv2.count(e)] hv2.count(e) > 0 implies g.in_grid(
        e.1 as int,
        e.2 as int,
    ) && score(g, d2, e.1 as int, e.2 as int) != NO_SCORE by {
        if e != (key_n, nx as u32, ny as u32) {
            assert(hv1.count(e) > 0);
            lemma_cell_index(w, h, e.1 as int, e.2 as int);
            assert(d2[g.index(e.1 as int, e.2 as int)] <= d1[g.index(e.1 as int, e.2 as int)]);
            assert(key(g, d2, to, e.1 as int, e.2 as int) <= key(g, d1, to, e.1 as int, e.2 as int));
        }
    }
    assert forall|x2: int, y2: int|
        g.in_grid(x2, y2) && (relaxed(g, d1, x2, y2) || pending(
            g,
            d1,
            hv1,
            to,
            x2,
            y2,
        )) implies #[trigger] relaxed(g, d2, x2, y2) || pending(g, d2, hv2, to, x2, y2) by {
        if x2 == nx && y2 == ny {
            assert(hv2.count((key_n, nx as u32, ny as u32)) > 0);
        } else if relaxed(g, d1, x2, y2) {
            lemma_relaxed_lower(g, d1, d2, x2, y2);
        } else {
            assert(key(g, d2, to, x2, y2) == key(g, d1, to, x2, y2));
        }
    }
    assert(hv2.len() == hv1.len() + 1);
}

/// One road job: A* from `from` to `to` with its scores, predecessors and
/// open set kept between calls.
pub struct RoadAstarJob {
    from: (u32, u32),
    to: (u32, u32),
    g_score: Vec<u32>,
    came_from: Vec<u32>,
    open: MinHeap,
}

impl RoadAstarJob {
    pub closed spec fn spec_from(&self) -> (u32, u32) {
        self.from
    }

    pub closed spec fn spec_to(&self) -> (u32, u32) {
        self.to
    }

    /// Work left: summed scores plus open entries. Every expansion lowers it.
    pub closed spec fn measure(&self) -> nat {
        (sum_u32(self.g_score@) + self.open.view().len()) as nat
    }

    /// Everything but the open-set frontier.
    closed spec fn settled(&self, g: Grid) -> bool {
        &&& settled_parts(g, self.from, self.to, self.g_score@, self.came_from@, self.open.view())
        &&& self.open.wf()
    }

    /// Every reached cell is relaxed or waits in the open set.
    closed spec fn frontier(&self, g: Grid) -> bool {
        forall|x: int, y: int|
            g.in_grid(x, y) ==> #[trigger] relaxed(g, self.g_score@, x, y) || pending(
                g,
                self.g_score@,
                self.open.view(),
                self.to,
                x,
                y,
            )
    }

    /// The job's invariant with respect to the grid it routes over.
    pub closed spec fn inv(&self, g: Grid) -> bool {
        self.settled(g) && self.frontier(g)
    }

    /// Start a search from `from` to `to`.
    pub fn new(grid: &Grid, from: (u32, u32), to: (u32, u32)) -> (job: RoadAstarJob)
        requires
            grid.wf(),
            grid.in_grid(from.0 as int, from.1 as int),
            grid.in_grid(to.0 as int, to.1 as int),
        ensures
            job.inv(*grid),
            job.spec_from() == from,
            job.spec_to() == to,
    {
        let ghost g = *grid;
        let w = grid.width;
        let h = grid.height;
        let size = (w * h) as usize;
        let mut g_score: Vec<u32> = Vec::with_capacity(size);
        let mut came_from: Vec<u32> = Vec::with_capacity(size);
        let mut i: usize = 0;
        while i < size
            invariant
                i <= size,
                size == w * h,
                g_score@.len() == i,
                came_from@.len() == i,
                forall|j: int| 0 <= j < i ==> #[trigger] g_score@[j] == NO_SCORE,
            decreases size - i,
        {
            g_score.push(NO_SCORE);
            came_from.push(NO_SCORE);
            i = i + 1;
        }
        proof {
            lemma_cell_index(w as int, h as int, from.0 as int, from.1 as int);
        }
        let fi = (from.1 * w + from.0) as usize;
        g_score.set(fi, 0);
        let mut job = RoadAstarJob { from, to, g_score, came_from, open: MinHeap::new() };
        let hf = job.heuristic(from.0, from.1);
        job.open.push((hf, from.0, from.1));
        proof {
            let gs = job.g_score@;
            assert forall|x: int, y: int| g.in_grid(x, y) && (x != from.0 || y != from.1) implies score(
                g,
                gs,
                x,
                y,
            ) == NO_SCORE by {
                lemma_cell_index(w as int, h as int, x, y);
                if g.index(x, y) == fi {
                    lemma_cell_index_injective(w as int, x, y, from.0 as int, from.1 as int);
                }
            }
            assert(key(g, gs, to, from.0 as int, from.1 as int) == hf);
            assert forall|x: int, y: int| g.in_grid(x, y) implies #[trigger] relaxed(g, gs, x, y)
                || pending(g, gs, job.open.view(), to, x, y) by {
                if x == from.0 && y == from.1 {
                    assert(job.open.view().count((hf, from.0, from.1)) > 0);
                }
            }
            assert forall|e: Entry| #![trigger job.open.view().count(e)] job.open.view().count(e)
                > 0 implies g.in_grid(e.1 as int, e.2 as int) && score(g, gs, e.1 as int, e.2 as int)
                != NO_SCORE by {
                assert(e == (hf, from.0, from.1));
            }
            if score(g, gs, to.0 as int, to.1 as int) != NO_SCORE {
                assert(to == from);
                assert(job.open.view().count((hf, from.0, from.1)) > 0);
            }
        }
        job
    }

    /// Octile distance from `(x, y)` to the target.
    fn heuristic(&self, x: u32, y: u32) -> (r: u32)
        requires
            x < MAX_SIDE,
            y < MAX_SIDE,
            self.to.0 < MAX_SIDE,
            self.to.1 < MAX_SIDE,
        ensures
            r == spec_heuristic(self.to, x as int, y as int),
    {
        let dx = if x >= self.to.0 {
            x - self.to.0
        } else {
            self.to.0 - x
        };
        let dy = if y >= self.to.1 {
            y - self.to.1
        } else {
            self.to.1 - y
        };
        if dx < dy {
            dx * 3 + (dy - dx) * 2
        } else {
            dy * 3 + (dx - dy) * 2
        }
    }

    /// Relax step `k` out of the reached cell `(x, y)`: a cheaper score for
    /// the neighbour is recorded with its predecessor and queued.
    #[verifier::rlimit(60)]
    #[verifier::spinoff_prover]
    fn relax(&mut self, grid: &Grid, x: u32, y: u32, k: usize)
        requires
            old(self).settled(*grid),
            grid.in_grid(x as int, y as int),
            score(*grid, old(self).g_score@, x as int, y as int) != NO_SCORE,
            k < 8,
        ensures
            final(self).settled(*grid),
            final(self).from == old(self).from,
            final(self).to == old(self).to,
            final(self).g_score@.len() == old(self).g_score@.len(),
            forall|i: int|
                0 <= i < old(self).g_score@.len() ==> #[trigger] final(self).g_score@[i]
                    <= old(self).g_score@[i],
            score(*grid, final(self).g_score@, x as int, y as int) == score(
                *grid,
                old(self).g_score@,
                x as int,
                y as int,
            ),
            road_step_ok(*grid, x as int, y as int, k as int) ==> score(
                *grid,
                final(self).g_score@,
                x + dir_dx(k as int),
                y + dir_dy(k as int),
            ) <= sat(
                score(*grid, old(self).g_score@, x as int, y as int) + road_step_cost(
                    *grid,
                    x as int,
                    y as int,
                    k as int,
                ),
            ),
            forall|x2: int, y2: int|
                grid.in_grid(x2, y2) && (relaxed(*grid, old(self).g_score@, x2, y2) || pending(
                    *grid,
                    old(self).g_score@,
                    old(self).open.view(),
                    old(self).to,
                    x2,
                    y2,
                )) ==> #[trigger] relaxed(*grid, final(self).g_score@, x2, y2) || pending(
                    *grid,
                    final(self).g_score@,
                    final(self).open.view(),
                    final(self).to,
                    x2,
                    y2,
                ),
            final(self).measure() <= old(self).measure(),
    {
        let ghost g = *grid;
        let w = grid.width;
        let h = grid.height;
        let (dx, dy, dc) = dir(k);
        let nxi = x as i32 + dx;
        let nyi = y as i32 + dy;
        if !grid.in_bounds(nxi, nyi) {
            return;
        }
        let nx = nxi as u32;
        let ny = nyi as u32;
        if grid.get(nx, ny) == TileKind::Water {
            return;
        }
        if !grid.can_move_diagonal(x, y, dx, dy) {
            return;
        }
        let base_cost: u32 = match grid.get(nx, ny) {
            TileKind::Road => 1,
            TileKind::Forest => 8,
            _ => 3,
        };
        let near = is_water(grid, nxi, nyi - 1) || is_water(grid, nxi, nyi + 1) || is_water(
            grid,
            nxi - 1,
            nyi,
        ) || is_water(grid, nxi + 1, nyi);
        let tile_cost: u32 = if grid.elevation(nx, ny) > 1 {
            12
        } else if near {
            15
        } else {
            base_cost
        };
        proof {
            assert(near == near_water(g, nx as int, ny as int));
            assert(tile_cost == road_tile_cost(g, nx as int, ny as int));
            assert(tile_cost * dc <= 45) by (nonlinear_arith)
                requires
                    tile_cost <= 15,
                    dc <= 3,
            ;
            assert(tile_cost * dc >= 2) by (nonlinear_arith)
                requires
                    tile_cost >= 1,
                    dc >= 2,
            ;
            lemma_cell_index(w as int, h as int, x as int, y as int);
            lemma_cell_index(w as int, h as int, nx as int, ny as int);
        }
        let ci = (y * w + x) as usize;
        let ni = (ny * w + nx) as usize;
        let gcur = self.g_score[ci];
        let step: u32 = tile_cost * dc;
        let new_g = gcur.saturating_add(step);
        proof {
            assert(step as int == road_step_cost(g, x as int, y as int, k as int));
            assert(new_g as int == sat(gcur + step));
        }
        if new_g < self.g_score[ni] {
            let ghost d1 = self.g_score@;
            let ghost cf1 = self.came_from@;
            let ghost hv1 = self.open.view();
            let hn = self.heuristic(nx, ny);
            let key_n = new_g.saturating_add(hn);
            self.g_score.set(ni, new_g);
            self.came_from.set(ni, ci as u32);
            self.open.push((key_n, nx, ny));
            proof {
                lemma_relax_lowered(
                    g,
                    self.from,
                    self.to,
                    d1,
                    cf1,
                    hv1,
                    x as int,
                    y as int,
                    k as int,
                    new_g,
                    key_n,
                );
                assert(self.g_score@ =~= d1.update(ni as int, new_g));
                assert(self.came_from@ =~= cf1.update(ni as int, ci as u32));
                assert(self.open.view() =~= hv1.insert((key_n, nx, ny)));
                lemma_sum_nonneg(d1);
                lemma_sum_nonneg(self.g_score@);
                assert(old(self).measure() == sum_u32(d1) + hv1.len());
                assert(self.measure() == sum_u32(self.g_score@) + self.open.view().len());
            }
        }
    }

    /// Expand at most `max_pops` nodes (at least one). `None` while the
    /// search goes on, which happens only once the whole budget is spent,
    /// `Some(None)` once the open set runs dry without reaching the target,
    /// `Some(Some(path))` with the route on arrival.
    pub fn run(&mut self, grid: &Grid, max_pops: u32) -> (r: Option<Option<Vec<(u32, u32)>>>)
        requires
            old(self).inv(*grid),
        ensures
            final(self).spec_from() == old(self).spec_from(),
            final(self).spec_to() == old(self).spec_to(),
            r is None ==> final(self).inv(*grid) && final(self).measure() < old(self).measure(),
            r is None ==> final(self).measure() + (if max_pops == 0 {
                1
            } else {
                max_pops as int
            }) <= old(self).measure(),
            r matches Some(Some(p)) ==> road_route(
                *grid,
                old(self).spec_from(),
                old(self).spec_to(),
                p@,
            ),
            r matches Some(Some(p)) ==> cheapest_route(
                *grid,
                old(self).spec_from(),
                old(self).spec_to(),
                p@,
            ),
            r matches Some(Some(p)) ==> if old(self).spec_from() == old(self).spec_to() {
                p@ == seq![old(self).spec_from(), old(self).spec_from()]
            } else {
                no_stutter(p@)
            },
            r matches Some(None) ==> no_road(*grid, old(self).spec_from(), old(self).spec_to()),
    {
        let ghost g = *grid;
        let w = grid.width;
        let h = grid.height;
        let mut pops: u32 = 0;
        loop
            invariant
                g == *grid,
                w == g.width,
                h == g.height,
                self.inv(g),
                self.from == old(self).from,
                self.to == old(self).to,
                pops <= max_pops || pops == 0,
                pops < max_pops || pops == 0,
                self.measure() + pops <= old(self).measure(),
            decreases self.measure(),
        {
            let ghost d0 = self.g_score@;
            let ghost hv0 = self.open.view();
            let ghost m0 = self.measure();
            let popped = self.open.pop();
            match popped {
                None => {
                    proof {
                        let fx = self.from.0 as int;
                        let fy = self.from.1 as int;
                        assert forall|x: int, y: int| g.in_grid(x, y) implies #[trigger] relaxed(
                            g,
                            d0,
                            x,
                            y,
                        ) by {
                            assert(relaxed(g, d0, x, y) || pending(g, d0, hv0, self.to, x, y));
                        }
                        assert(score(g, d0, self.to.0 as int, self.to.1 as int) == NO_SCORE);
                        assert forall|ks: Seq<int>|
                            road_walk_valid(g, fx, fy, ks) && walk_end(fx, fy, ks) == (
                                self.to.0 as int,
                                self.to.1 as int,
                            ) implies #[trigger] road_walk_cost(g, fx, fy, ks) >= NO_SCORE by {
                            lemma_walk_bound(g, d0, fx, fy, ks);
                        }
                    }
                    return Some(None);
                },
                Some(e) => {
                    let (_, x, y) = e;
                    proof {
                        assert(hv0.count(e) > 0);
                        lemma_cell_index(w as int, h as int, x as int, y as int);
                    }
                    if x == self.to.0 && y == self.to.1 {
                        let path = reconstruct(
                            grid,
                            self.from,
                            self.to,
                            &self.g_score,
                            &self.came_from,
                        );
                        proof {
                            let fx = self.from.0 as int;
                            let fy = self.from.1 as int;
                            assert forall|ks: Seq<int>|
                                road_walk_valid(g, fx, fy, ks) && walk_end(fx, fy, ks) == (
                                    self.to.0 as int,
                                    self.to.1 as int,
                                ) implies route_cost(g, path@) <= #[trigger] road_walk_cost(
                                g,
                                fx,
                                fy,
                                ks,
                            ) by {
                                lemma_goal_optimal(
                                    g,
                                    self.from,
                                    self.to,
                                    d0,
                                    self.came_from@,
                                    hv0,
                                    e,
                                    ks,
                                );
                            }
                        }
                        return Some(Some(path));
                    }
                    let ci = (y * w + x) as usize;
                    let gcur = self.g_score[ci];
                    if gcur == NO_SCORE {
                        proof {
                            assert(false);
                        }
                        continue;
                    }
                    proof {
                        // Only the popped cell may have lost its open entry.
                        assert forall|x2: int, y2: int|
                            g.in_grid(x2, y2) && (x2 != x || y2 != y) implies #[trigger] relaxed(
                            g,
                            self.g_score@,
                            x2,
                            y2,
                        ) || pending(g, self.g_score@, self.open.view(), self.to, x2, y2) by {
                            assert(relaxed(g, d0, x2, y2) || pending(g, d0, hv0, self.to, x2, y2));
                        }
                        let tx = self.to.0 as int;
                        let ty = self.to.1 as int;
                        if score(g, d0, tx, ty) != NO_SCORE {
                            assert(pending(g, d0, hv0, self.to, tx, ty));
                        }
                        assert forall|e2: Entry|
                            #![trigger self.open.view().count(e2)]
                            self.open.view().count(e2) > 0 implies hv0.count(e2) > 0 by {}
                        lemma_sum_nonneg(d0);
                    }
                    let mut k: usize = 0;
                    while k < 8
                        invariant
                            g == *grid,
                            w == g.width,
                            h == g.height,
                            g.in_grid(x as int, y as int),
                            (x != self.to.0 || y != self.to.1),
                            self.settled(g),
                            self.from == old(self).from,
                            self.to == old(self).to,
                            k <= 8,
                            score(g, self.g_score@, x as int, y as int) == gcur,
                            gcur != NO_SCORE,
                            self.g_score@.len() == d0.len(),
                            forall|i: int|
                                0 <= i < d0.len() ==> #[trigger] self.g_score@[i] <= d0[i],
                            forall|x2: int, y2: int|
                                g.in_grid(x2, y2) && (x2 != x || y2 != y) ==> #[trigger] relaxed(
                                    g,
                                    self.g_score@,
                                    x2,
                                    y2,
                                ) || pending(g, self.g_score@, self.open.view(), self.to, x2, y2),
                            forall|k2: int|
                                #![trigger road_step_ok(g, x as int, y as int, k2)]
                                0 <= k2 < k && road_step_ok(g, x as int, y as int, k2) ==> score(
                                    g,
                                    self.g_score@,
                                    x + dir_dx(k2),
                                    y + dir_dy(k2),
                                ) <= sat(gcur + road_step_cost(g, x as int, y as int, k2)),
                            self.measure() + 1 <= m0,
                        decreases 8 - k,
                    {
                        let ghost d1 = self.g_score@;
                        self.relax(grid, x, y, k);
                        proof {
                            assert forall|k2: int|
                                #![trigger road_step_ok(g, x as int, y as int, k2)]
                                0 <= k2 < k + 1 && road_step_ok(g, x as int, y as int, k2) implies score(
                                g,
                                self.g_score@,
                                x + dir_dx(k2),
                                y + dir_dy(k2),
                            ) <= sat(gcur + road_step_cost(g, x as int, y as int, k2)) by {
                                if k2 < k {
                                    lemma_cell_index(
                                        w as int,
                                        h as int,
                                        x + dir_dx(k2),
                                        y + dir_dy(k2),
                                    );
                                    assert(self.g_score@[g.index(x + dir_dx(k2), y + dir_dy(k2))]
                                        <= d1[g.index(x + dir_dx(k2), y + dir_dy(k2))]);
                                }
                            }
                            assert forall|i: int|
                                0 <= i < d0.len() implies #[trigger] self.g_score@[i] <= d0[i] by {
                                assert(self.g_score@[i] <= d1[i]);
                            }
                        }
                        k = k + 1;
                    }
                    proof {
                        assert(relaxed(g, self.g_score@, x as int, y as int));
                    }
                    pops = pops + 1;
                    if pops >= max_pops {
                        return None;
                    }
                },
            }
        }
    }
}

/// Whether `(x, y)` is a water cell of the grid.
fn is_water(grid: &Grid, x: i32, y: i32) -> (r: bool)
    requires
        grid.wf(),
    ensures
        r == (grid.in_grid(x as int, y as int) && grid.tile(x as int, y as int) == TileKind::Water),
{
    grid.in_bounds(x, y) && grid.get(x as u32, y as u32) == TileKind::Water
}

/// Follow the predecessors back from `to` to `from` and return the route
/// in walking order.
fn reconstruct(
    grid: &Grid,
    from: (u32, u32),
    to: (u32, u32),
    g_score: &Vec<u32>,
    came_from: &Vec<u32>,
) -> (path: Vec<(u32, u32)>)
    requires
        grid.wf(),
        grid.in_grid(from.0 as int, from.1 as int),
        grid.in_grid(to.0 as int, to.1 as int),
        g_score@.len() == grid.width * grid.height,
        came_from@.len() == grid.width * grid.height,
        score(*grid, g_score@, from.0 as int, from.1 as int) == 0,
        score(*grid, g_score@, to.0 as int, to.1 as int) != NO_SCORE,
        forall|x: int, y: int|
            grid.in_grid(x, y) && score(*grid, g_score@, x, y) != NO_SCORE && (x != from.0 || y
                != from.1) ==> #[trigger] pred_ok(*grid, g_score@, came_from@, x, y),
    ensures
        road_route(*grid, from, to, path@),
        route_cost(*grid, path@) <= score(*grid, g_score@, to.0 as int, to.1 as int),
        from == to ==> path@ == seq![from, from],
        from != to ==> no_stutter(path@),
{
    let ghost g = *grid;
    let w = grid.width;
    let h = grid.height;
    proof {
        lemma_cell_index(w as int, h as int, from.0 as int, from.1 as int);
        lemma_cell_index(w as int, h as int, to.0 as int, to.1 as int);
    }
    let fi = (from.1 * w + from.0) as usize;
    let mut ci = (to.1 * w + to.0) as usize;
    let mut rev: Vec<(u32, u32)> = Vec::new();
    rev.push(to);
    proof {
        lemma_cell_of_index(w as int, to.0 as int, to.1 as int);
    }
    while ci != fi
        invariant
            g == *grid,
            w == g.width,
            h == g.height,
            g.wf(),
            g_score@.len() == w * h,
            came_from@.len() == w * h,
            fi == g.index(from.0 as int, from.1 as int),
            g.in_grid(from.0 as int, from.1 as int),
            forall|x: int, y: int|
                g.in_grid(x, y) && score(g, g_score@, x, y) != NO_SCORE && (x != from.0 || y
                    != from.1) ==> #[trigger] pred_ok(g, g_score@, came_from@, x, y),
            ci < w * h,
            g_score@[ci as int] != NO_SCORE,
            rev@.len() >= 1,
            rev@[0] == to,
            rev@.len() >= 2 ==> rev@.last() != from,
            from == to ==> ci == fi && rev@.len() == 1,
            forall|i: int| 0 <= i < rev@.len() - 1 ==> #[trigger] rev@[i] != rev@[i + 1],
            forall|i: int|
                0 <= i < rev@.len() ==> g.in_grid((#[trigger] rev@[i]).0 as int, rev@[i].1 as int),
            forall|i: int|
                0 <= i < rev@.len() - 1 ==> road_link(
                    g,
                    rev@[i + 1].0 as int,
                    rev@[i + 1].1 as int,
                    (#[trigger] rev@[i]).0 as int,
                    rev@[i].1 as int,
                ),
            road_link(
                g,
                cell_x(w as int, ci as int),
                cell_y(w as int, ci as int),
                rev@.last().0 as int,
                rev@.last().1 as int,
            ),
            reverse_cost(g, rev@) + g_score@[ci as int] + link_cost(
                g,
                cell_x(w as int, ci as int),
                cell_y(w as int, ci as int),
                rev@.last().0 as int,
                rev@.last().1 as int,
            ) <= score(g, g_score@, to.0 as int, to.1 as int),
        decreases g_score@[ci as int],
    {
        proof {
            lemma_index_cell(w as int, h as int, ci as int);
        }
        let cx = (ci as u32) % w;
        let cy = (ci as u32) / w;
        let last = rev[rev.len() - 1];
        let ghost r0 = rev@;
        proof {
            assert(ci as int == g.index(cx as int, cy as int));
            if cx == from.0 && cy == from.1 {
                assert(false);
            }
        }
        if last.0 != cx || last.1 != cy {
            rev.push((cx, cy));
            proof {
                assert(rev@.drop_last() =~= r0);
                assert forall|i: int| 0 <= i < rev@.len() - 1 implies #[trigger] rev@[i] != rev@[i
                    + 1] by {
                    if i < r0.len() - 1 {
                        assert(rev@[i] == r0[i] && rev@[i + 1] == r0[i + 1]);
                    }
                }
                assert forall|i: int| 0 <= i < rev@.len() - 1 implies road_link(
                    g,
                    rev@[i + 1].0 as int,
                    rev@[i + 1].1 as int,
                    (#[trigger] rev@[i]).0 as int,
                    rev@[i].1 as int,
                ) by {
                    if i < r0.len() - 1 {
                        assert(rev@[i] == r0[i] && rev@[i + 1] == r0[i + 1]);
                    }
                }
            }
        }
        proof {
            assert(ci as int == g.index(cx as int, cy as int));
            if cx == from.0 && cy == from.1 {
                assert(false);
            }
            assert(pred_ok(g, g_score@, came_from@, cx as int, cy as int));
        }
        ci = came_from[ci] as usize;
    }
    proof {
        lemma_cell_of_index(w as int, from.0 as int, from.1 as int);
    }
    let ghost r0 = rev@;
    rev.push(from);
    proof {
        assert(rev@.drop_last() =~= r0);
        if from != to {
            assert forall|i: int| 0 <= i < rev@.len() - 1 implies #[trigger] rev@[i] != rev@[i
                + 1] by {
                if i < r0.len() - 1 {
                    assert(rev@[i] == r0[i] && rev@[i + 1] == r0[i + 1]);
                }
            }
        } else {
            assert(r0.len() == 1);
        }
        assert forall|i: int| 0 <= i < rev@.len() - 1 implies road_link(
            g,
            rev@[i + 1].0 as int,
            rev@[i + 1].1 as int,
            (#[trigger] rev@[i]).0 as int,
            rev@[i].1 as int,
        ) by {
            if i < r0.len() - 1 {
                assert(rev@[i] == r0[i] && rev@[i + 1] == r0[i + 1]);
            }
        }
    }
    let n = rev.len();
    let mut path: Vec<(u32, u32)> = Vec::new();
    let mut i: usize = 0;
    while i < n
        invariant
            n == rev@.len(),
            n >= 2,
            i <= n,
            path@.len() == i,
            forall|j: int| 0 <= j < i ==> #[trigger] path@[j] == rev@[n - 1 - j],
            i >= 1 ==> route_cost(g, path@) + reverse_cost(g, rev@.take(n - i + 1)) == reverse_cost(
                g,
                rev@,
            ),
        decreases n - i,
    {
        let ghost p0 = path@;
        path.push(rev[n - 1 - i]);
        proof {
            assert(path@.drop_last() =~= p0);
            if i == 0 {
                assert(rev@.take(n as int) =~= rev@);
            } else {
                let t = rev@.take(n - i + 1);
                assert(t.drop_last() =~= rev@.take(n - i));
                assert(t.last() == rev@[n - i]);
                assert(t[t.len() - 2] == rev@[n - i - 1]);
                assert(p0.last() == rev@[n - i]);
            }
        }
        i = i + 1;
    }
    proof {
        assert(reverse_cost(g, rev@.take(1)) == 0);
    }
    proof {
        assert forall|j: int| 0 <= j < path@.len() implies g.in_grid(
            (#[trigger] path@[j]).0 as int,
            path@[j].1 as int,
        ) by {
            assert(path@[j] == rev@[n - 1 - j]);
        }
        assert forall|j: int| 0 <= j < path@.len() - 1 implies road_link(
            g,
            (#[trigger] path@[j]).0 as int,
            path@[j].1 as int,
            path@[j + 1].0 as int,
            path@[j + 1].1 as int,
        ) by {
            assert(path@[j] == rev@[n - 1 - j]);
            assert(path@[j + 1] == rev@[n - 2 - j]);
            assert(rev@[(n - 2 - j) + 1] == rev@[n - 1 - j]);
        }
        if from != to {
            assert forall|j: int| 0 <= j < path@.len() - 1 implies #[trigger] path@[j] != path@[j
                + 1] by {
                assert(path@[j] == rev@[n - 1 - j]);
                assert(path@[j + 1] == rev@[n - 2 - j]);
                assert(rev@[(n - 2 - j)] != rev@[(n - 2 - j) + 1]);
            }
        } else {
            assert(path@ =~= seq![from, from]);
        }
    }
    path
}

} // verus!
