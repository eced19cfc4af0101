//! Worker pawns: their animation table and the search for the nearest tree
//! to chop.

use vstd::prelude::*;
use crate::grid::{Grid, TileKind};

verus! {

/// Side of one pawn animation frame, in pixels.
pub const PAWN_FRAME_SIZE: u32 = 192;
/// Frames of the idle animation.
pub const IDLE_FRAMES: u32 = 8;
/// Frames of the run animation.
pub const RUN_FRAMES: u32 = 6;
/// Frames of the chopping animation.
pub const CHOP_FRAMES: u32 = 6;
/// How far (in tiles, along each axis) a pawn looks for a tree.
pub const TREE_SEARCH_RADIUS: i32 = 20;

/// What a worker pawn is doing.
#[derive(Clone, Copy, Debug, PartialEq, Eq, Structural)]
pub enum PawnState {
    Idle,
    WalkingToTree,
    Chopping,
    WalkingHome,
}

impl PawnState {
    /// Frame count of the animation played in this state.
    pub fn anim_frame_count(self) -> (r: u32)
        ensures
            r == match self {
                PawnState::Idle => IDLE_FRAMES,
                PawnState::Chopping => CHOP_FRAMES,
                _ => RUN_FRAMES,
            },
    {
        match self {
            PawnState::Idle => IDLE_FRAMES,
            PawnState::WalkingToTree | PawnState::WalkingHome => RUN_FRAMES,
            PawnState::Chopping => CHOP_FRAMES,
        }
    }
}

/// Sprite sheet of a pawn: 0 idle, 1 running to a tree, 2 chopping, 3 idle
/// with wood, 4 carrying wood home.
pub fn sprite_index(state: PawnState, carrying_wood: bool) -> (r: usize)
    ensures
        r == match state {
            PawnState::Idle => if carrying_wood {
                3usize
            } else {
                0usize
            },
            PawnState::WalkingToTree => 1usize,
            PawnState::Chopping => 2usize,
            PawnState::WalkingHome => 4usize,
        },
{
    match (state, carrying_wood) {
        (PawnState::Idle, false) => 0,
        (PawnState::WalkingToTree, _) => 1,
        (PawnState::Chopping, _) => 2,
        (PawnState::Idle, true) => 3,
        (PawnState::WalkingHome, _) => 4,
    }
}

/// The offset `(dx, dy)` from `(gx, gy)` is within the search window and
/// reaches a forest tile of the grid.
pub open spec fn tree_at(g: Grid, gx: int, gy: int, dx: int, dy: int) -> bool {
    &&& -TREE_SEARCH_RADIUS <= dx <= TREE_SEARCH_RADIUS
    &&& -TREE_SEARCH_RADIUS <= dy <= TREE_SEARCH_RADIUS
    &&& g.in_grid(gx + dx, gy + dy)
    &&& g.tile(gx + dx, gy + dy) == TileKind::Forest
}

/// Offset `(dx, dy)` comes before `(ex, ey)` in the search order: row by
/// row, left to right.
pub open spec fn scans_before(dx: int, dy: int, ex: int, ey: int) -> bool {
    dy < ey || (dy == ey && dx < ex)
}

/// The offset `(bx, by)` is the nearest tree: a tree, no tree strictly
/// nearer, and no equally near tree earlier in the search order.
pub open spec fn nearest_tree(g: Grid, gx: int, gy: int, bx: int, by: int) -> bool {
    &&& tree_at(g, gx, gy, bx, by)
    &&& forall|dx: int, dy: int|
        #[trigger] tree_at(g, gx, gy, dx, dy) ==> dx * dx + dy * dy >= bx * bx + by * by && (
        scans_before(dx, dy, bx, by) ==> dx * dx + dy * dy > bx * bx + by * by)
}

/// The nearest forest tile within 20 tiles (along each axis) of grid cell
/// `(gx, gy)`, by squared distance; ties go to the first in row order.
/// `None` when there is none.
pub fn find_nearest_tree(grid: &Grid, gx: i32, gy: i32) -> (r: Option<(u32, u32)>)
    requires
        grid.wf(),
        -0x4000_0000 <= gx <= 0x4000_0000,
        -0x4000_0000 <= gy <= 0x4000_0000,
    ensures
        r is None <==> forall|dx: int, dy: int| !#[trigger] tree_at(*grid, gx as int, gy as int, dx, dy),
        r matches Some(t) ==> nearest_tree(*grid, gx as int, gy as int, t.0 - gx, t.1 - gy),
{
    let mut best: Option<((u32, u32), i32)> = None;
    let ghost mut bdx: int = 0;
    let ghost mut bdy: int = 0;
    let mut dy: i32 = -TREE_SEARCH_RADIUS;
    while dy <= TREE_SEARCH_RADIUS
        invariant
            grid.wf(),
            -0x4000_0000 <= gx <= 0x4000_0000,
            -0x4000_0000 <= gy <= 0x4000_0000,
            -TREE_SEARCH_RADIUS <= dy <= TREE_SEARCH_RADIUS + 1,
            best is None ==> forall|ex: int, ey: int|
                #![trigger tree_at(*grid, gx as int, gy as int, ex, ey)]
                ey < dy ==> !tree_at(*grid, gx as int, gy as int, ex, ey),
            best matches Some(b) ==> {
                &&& b.0 == ((gx + bdx) as u32, (gy + bdy) as u32)
                &&& b.1 == bdx * bdx + bdy * bdy
                &&& bdy < dy
                &&& tree_at(*grid, gx as int, gy as int, bdx, bdy)
                &&& forall|ex: int, ey: int|
                    #![trigger tree_at(*grid, gx as int, gy as int, ex, ey)]
                    ey < dy && tree_at(*grid, gx as int, gy as int, ex, ey) ==> ex * ex + ey * ey
                        >= bdx * bdx + bdy * bdy && (scans_before(ex, ey, bdx, bdy) ==> ex * ex
                        + ey * ey > bdx * bdx + bdy * bdy)
            },
        decreases TREE_SEARCH_RADIUS + 1 - dy,
    {
        let mut dx: i32 = -TREE_SEARCH_RADIUS;
        while dx <= TREE_SEARCH_RADIUS
            invariant
                grid.wf(),
                -0x4000_0000 <= gx <= 0x4000_0000,
                -0x4000_0000 <= gy <= 0x4000_0000,
                -TREE_SEARCH_RADIUS <= dy <= TREE_SEARCH_RADIUS,
                -TREE_SEARCH_RADIUS <= dx <= TREE_SEARCH_RADIUS + 1,
                best is None ==> forall|ex: int, ey: int|
                    #![trigger tree_at(*grid, gx as int, gy as int, ex, ey)]
                    scans_before(ex, ey, dx as int, dy as int) ==> !tree_at(
                        *grid,
                        gx as int,
                        gy as int,
                        ex,
                        ey,
                    ),
                best matches Some(b) ==> {
                    &&& b.0 == ((gx + bdx) as u32, (gy + bdy) as u32)
                    &&& b.1 == bdx * bdx + bdy * bdy
                    &&& scans_before(bdx, bdy, dx as int, dy as int)
                    &&& tree_at(*grid, gx as int, gy as int, bdx, bdy)
                    &&& forall|ex: int, ey: int|
                        #![trigger tree_at(*grid, gx as int, gy as int, ex, ey)]
                        scans_before(ex, ey, dx as int, dy as int) && tree_at(
                            *grid,
                            gx as int,
                            gy as int,
                            ex,
                            ey,
                        ) ==> ex * ex + ey * ey >= bdx * bdx + bdy * bdy && (scans_before(
                            ex,
                            ey,
                            bdx,
                            bdy,
                        ) ==> ex * ex + ey * ey > bdx * bdx + bdy * bdy)
                },
            decreases TREE_SEARCH_RADIUS + 1 - dx,
        {
            let nx = gx + dx;
            let ny = gy + dy;
            if grid.in_bounds(nx, ny) {
                let ux = nx as u32;
                let uy = ny as u32;
                if grid.get(ux, uy) == TileKind::Forest {
                    proof {
                        assert(tree_at(*grid, gx as int, gy as int, dx as int, dy as int));
                        assert(0 <= dx * dx <= 400 && 0 <= dy * dy <= 400) by (nonlinear_arith)
                            requires
                                -20 <= dx <= 20,
                                -20 <= dy <= 20,
                        ;
                    }
                    let d = dx * dx + dy * dy;
                    let better = match best {
                        None => true,
                        Some((_, bd)) => d < bd,
                    };
                    if better {
                        best = Some(((ux, uy), d));
                        proof {
                            bdx = dx as int;
                            bdy = dy as int;
                        }
                    }
                }
            }
            dx = dx + 1;
        }
        dy = dy + 1;
    }
    match best {
        Some((pos, _)) => Some(pos),
        None => None,
    }
}

} // verus!
