//! Pure rendering helpers shared by every frontend: deterministic per-tile
//! variation, visibility predicates, zone colors and the fog-of-war overlay.

use vstd::prelude::*;
use crate::unit::{Faction, OrderKind, two_sided};
use crate::zone::ZoneState;

verus! {

// ---------------------------------------------------------------------------
// Spatial helpers
// ---------------------------------------------------------------------------

/// Deterministic flip of the tile at `(gx, gy)`: true on half of the tiles,
/// in a checkerboard (`48271·gx + 16807·gy` modulo 2³² is even).
pub fn tile_flip(gx: u32, gy: u32) -> (r: bool)
    ensures
        r == ((gx + gy) % 2 == 0),
{
    let a = gx.wrapping_mul(48271);
    let b = gy.wrapping_mul(16807);
    let s = a.wrapping_add(b);
    proof {
        let m: int = 0x1_0000_0000;
        assert(a == (gx as int * 48271) % m);
        assert(b == (gy as int * 16807) % m);
        assert(s == (a as int + b as int) % m) by {
            if a as int + b as int > u32::MAX {
                assert(s == a as int + b as int - m);
                assert((a as int + b as int) % m == a as int + b as int - m) by (nonlinear_arith)
                    requires
                        m == 0x1_0000_0000,
                        m <= (a as int + b as int),
                        (a as int + b as int) < 2 * m,
                ;
            } else {
                assert((a as int + b as int) % m == a as int + b as int) by (nonlinear_arith)
                    requires
                        m == 0x1_0000_0000,
                        0 <= (a as int + b as int),
                        (a as int + b as int) < m,
                ;
            }
        }
        assert(s % 2 == (gx as int + gy as int) % 2) by (nonlinear_arith)
            requires
                m == 0x1_0000_0000,
                a == (gx as int * 48271) % m,
                b == (gy as int * 16807) % m,
                s == (a as int + b as int) % m,
        ;
        assert(s & 1 == s % 2) by (bit_vector);
    }
    s & 1 == 0
}

/// The position hash behind `variant_index`.
pub open spec fn spec_variant_hash(gx: u32, gy: u32, seed_x: u32, seed_y: u32) -> u32 {
    let h0 = vstd::wrapping::u32_specs::wrapping_mul(gx, seed_x)
        ^ vstd::wrapping::u32_specs::wrapping_mul(gy, seed_y);
    let h1 = h0 ^ (h0 >> 13u32);
    let h2 = vstd::wrapping::u32_specs::wrapping_mul(h1, 0x5bd1e995u32);
    h2 ^ (h2 >> 15u32)
}

/// Pick one of `count` variants for the tile at `(gx, gy)`, deterministically,
/// through a mixing hash of the position (no diagonal stripes).
pub fn variant_index(gx: u32, gy: u32, count: usize, seed_x: u32, seed_y: u32) -> (r: usize)
    requires
        count > 0,
    ensures
        r == spec_variant_hash(gx, gy, seed_x, seed_y) as usize % count,
        r < count,
{
    let mut h = gx.wrapping_mul(seed_x) ^ gy.wrapping_mul(seed_y);
    h = h ^ (h >> 13);
    h = h.wrapping_mul(0x5bd1e995);
    h = h ^ (h >> 15);
    (h as usize) % count
}

/// Whether a unit of `faction` at `(gx, gy)` is drawn: Blue units always,
/// others only on tiles currently in view.
pub fn is_visible_to_player(faction: Faction, gx: u32, gy: u32, visible: &[bool], grid_w: u32) -> (r:
    bool)
    requires
        gy as int * grid_w as int + gx as int <= u32::MAX,
    ensures
        r == (faction == Faction::Blue || {
            let i = gy as int * grid_w as int + gx as int;
            i < visible@.len() && visible@[i]
        }),
{
    if faction == Faction::Blue {
        return true;
    }
    let idx = (gy * grid_w + gx) as usize;
    if idx < visible.len() {
        visible[idx]
    } else {
        false
    }
}

// ---------------------------------------------------------------------------
// HUD / color helpers
// ---------------------------------------------------------------------------

/// Label shown above a follower carrying an order.
pub fn order_label(order: Option<&OrderKind>) -> (r: Option<&'static str>)
    ensures
        match order {
            Some(OrderKind::Follow) => r matches Some(s) && s@ == "FOLLOW"@,
            Some(OrderKind::Charge) => r matches Some(s) && s@ == "CHARGE"@,
            Some(OrderKind::Defend) => r matches Some(s) && s@ == "DEFEND"@,
            None => r is None,
        },
{
    match order {
        Some(OrderKind::Follow) => Some("FOLLOW"),
        Some(OrderKind::Charge) => Some("CHARGE"),
        Some(OrderKind::Defend) => Some("DEFEND"),
        None => None,
    }
}

/// A zone state whose side, if it has one, is Blue or Red: the sides the
/// overlay palette has colors for.
pub open spec fn zone_two_sided(state: ZoneState) -> bool {
    match state {
        ZoneState::Capturing(f) => two_sided(f),
        ZoneState::Controlled(f) => two_sided(f),
        _ => true,
    }
}

/// Zone overlay fill color (R, G, B, A).
pub open spec fn zone_fill_spec(state: ZoneState) -> (u8, u8, u8, u8) {
    match state {
        ZoneState::Neutral => (200u8, 200u8, 200u8, 15u8),
        ZoneState::Contested => (255u8, 200u8, 0u8, 20u8),
        ZoneState::Capturing(Faction::Blue) => (60u8, 120u8, 255u8, 20u8),
        ZoneState::Capturing(Faction::Red) => (255u8, 60u8, 60u8, 20u8),
        ZoneState::Controlled(Faction::Blue) => (60u8, 120u8, 255u8, 30u8),
        ZoneState::Controlled(Faction::Red) => (255u8, 60u8, 60u8, 30u8),
        _ => (0u8, 0u8, 0u8, 0u8),
    }
}

/// Zone border color (R, G, B, A).
pub open spec fn zone_border_spec(state: ZoneState) -> (u8, u8, u8, u8) {
    match state {
        ZoneState::Neutral => (200u8, 200u8, 200u8, 64u8),
        ZoneState::Contested => (255u8, 200u8, 0u8, 100u8),
        ZoneState::Capturing(Faction::Blue) => (60u8, 120u8, 255u8, 100u8),
        ZoneState::Capturing(Faction::Red) => (255u8, 60u8, 60u8, 100u8),
        ZoneState::Controlled(Faction::Blue) => (60u8, 120u8, 255u8, 128u8),
        ZoneState::Controlled(Faction::Red) => (255u8, 60u8, 60u8, 128u8),
        _ => (0u8, 0u8, 0u8, 0u8),
    }
}

/// Zone pip color (R, G, B) for the HUD.
pub open spec fn zone_pip_spec(state: ZoneState) -> (u8, u8, u8) {
    match state {
        ZoneState::Neutral => (150u8, 150u8, 150u8),
        ZoneState::Contested => (255u8, 200u8, 0u8),
        ZoneState::Capturing(Faction::Blue) => (60u8, 120u8, 255u8),
        ZoneState::Controlled(Faction::Blue) => (60u8, 120u8, 255u8),
        ZoneState::Capturing(Faction::Red) => (255u8, 60u8, 60u8),
        ZoneState::Controlled(Faction::Red) => (255u8, 60u8, 60u8),
        _ => (0u8, 0u8, 0u8),
    }
}

/// Zone overlay fill color (R, G, B, A).
pub fn zone_fill_rgba(state: ZoneState) -> (r: (u8, u8, u8, u8))
    requires
        zone_two_sided(state),
    ensures
        r == zone_fill_spec(state),
{
    match state {
        ZoneState::Neutral => (200, 200, 200, 15),
        ZoneState::Contested => (255, 200, 0, 20),
        ZoneState::Capturing(Faction::Blue) => (60, 120, 255, 20),
        ZoneState::Capturing(Faction::Red) => (255, 60, 60, 20),
        ZoneState::Controlled(Faction::Blue) => (60, 120, 255, 30),
        ZoneState::Controlled(Faction::Red) => (255, 60, 60, 30),
        _ => (0, 0, 0, 0),
    }
}

/// Zone border color (R, G, B, A).
pub fn zone_border_rgba(state: ZoneState) -> (r: (u8, u8, u8, u8))
    requires
        zone_two_sided(state),
    ensures
        r == zone_border_spec(state),
{
    match state {
        ZoneState::Neutral => (200, 200, 200, 64),
        ZoneState::Contested => (255, 200, 0, 100),
        ZoneState::Capturing(Faction::Blue) => (60, 120, 255, 100),
        ZoneState::Capturing(Faction::Red) => (255, 60, 60, 100),
        ZoneState::Controlled(Faction::Blue) => (60, 120, 255, 128),
        ZoneState::Controlled(Faction::Red) => (255, 60, 60, 128),
        _ => (0, 0, 0, 0),
    }
}

/// Zone pip color (R, G, B) for the HUD: capturing and controlled share the faction color.
pub fn zone_pip_rgb(state: ZoneState) -> (r: (u8, u8, u8))
    requires
        zone_two_sided(state),
    ensures
        r == zone_pip_spec(state),
{
    match state {
        ZoneState::Neutral => (150, 150, 150),
        ZoneState::Contested => (255, 200, 0),
        ZoneState::Capturing(Faction::Blue) | ZoneState::Controlled(Faction::Blue) => (60, 120, 255),
        ZoneState::Capturing(Faction::Red) | ZoneState::Controlled(Faction::Red) => (255, 60, 60),
        _ => (0, 0, 0),
    }
}

/// Each faction's zone overlay keeps its hue whether capturing or holding;
/// holding is drawn more opaque than capturing.
pub proof fn law_control_is_stronger_than_capture(f: Faction)
    requires
        two_sided(f),
    ensures
        ({
            let c = zone_fill_spec(ZoneState::Capturing(f));
            let h = zone_fill_spec(ZoneState::Controlled(f));
            c.0 == h.0 && c.1 == h.1 && c.2 == h.2 && c.3 < h.3
        }),
{
}

/// A zone's fill and border share one color, the fill fainter than the
/// border; outside the neutral state that color is also the zone's HUD pip.
pub proof fn law_zone_palette(state: ZoneState)
    requires
        zone_two_sided(state),
    ensures
        ({
            let f = zone_fill_spec(state);
            let b = zone_border_spec(state);
            let p = zone_pip_spec(state);
            &&& f.0 == b.0 && f.1 == b.1 && f.2 == b.2
            &&& f.3 < b.3
            &&& state != ZoneState::Neutral ==> (f.0, f.1, f.2) == p
        }),
{
}

// ---------------------------------------------------------------------------
// Fog of war
// ---------------------------------------------------------------------------

/// Fog alpha of a tile: 0 in view, 160 once revealed, 240 never seen.
pub fn fog_alpha(visible: bool, revealed: bool) -> (r: u8)
    ensures
        r == if visible {
            0u8
        } else if revealed {
            160u8
        } else {
            240u8
        },
{
    if visible {
        0
    } else if revealed {
        160
    } else {
        240
    }
}

/// The eight neighbour offsets in scan order.
pub open spec fn nb_dx(k: int) -> int {
    if k == 0 || k == 3 || k == 5 {
        -1
    } else if k == 2 || k == 4 || k == 7 {
        1
    } else {
        0
    }
}

pub open spec fn nb_dy(k: int) -> int {
    if k < 3 {
        -1
    } else if k < 5 {
        0
    } else {
        1
    }
}

/// Neighbour `k` of `(gx, gy)` lies in the `w × h` grid and is visible.
pub open spec fn neighbor_visible(visible: Seq<bool>, gx: int, gy: int, w: int, h: int, k: int) -> bool {
    let nx = gx + nb_dx(k);
    let ny = gy + nb_dy(k);
    0 <= nx < w && 0 <= ny < h && visible[ny * w + nx]
}

/// Number of visible neighbours among the first `k` in scan order.
pub open spec fn visible_count_upto(visible: Seq<bool>, gx: int, gy: int, w: int, h: int, k: int) -> int
    decreases k,
{
    if k <= 0 {
        0
    } else {
        visible_count_upto(visible, gx, gy, w, h, k - 1) + if neighbor_visible(
            visible,
            gx,
            gy,
            w,
            h,
            k - 1,
        ) {
            1int
        } else {
            0int
        }
    }
}

/// The scan visits the eight cells around a cell, each once: every offset
/// moves at most one cell on each axis and not zero on both, two offsets
/// never coincide, and every such offset is scanned.
pub proof fn law_scan_offsets()
    ensures
        forall|k: int|
            0 <= k < 8 ==> crate::flowfield::neighbour_offset(#[trigger] nb_dx(k), nb_dy(k)),
        forall|k1: int, k2: int|
            0 <= k1 < 8 && 0 <= k2 < 8 && k1 != k2 ==> #[trigger] nb_dx(k1) != #[trigger] nb_dx(k2)
                || nb_dy(k1) != nb_dy(k2),
        forall|dx: int, dy: int|
            #[trigger] crate::flowfield::neighbour_offset(dx, dy) ==> exists|k: int|
                0 <= k < 8 && #[trigger] nb_dx(k) == dx && nb_dy(k) == dy,
{
    assert forall|dx: int, dy: int| #[trigger] crate::flowfield::neighbour_offset(dx, dy) implies exists|k: int|
            0 <= k < 8 && #[trigger] nb_dx(k) == dx && nb_dy(k) == dy by {
        let k: int = (dy + 1) * 3 + dx + 1;
        let k2: int = if k > 4 {
            k - 1
        } else {
            k
        };
        assert(nb_dx(k2) == dx && nb_dy(k2) == dy);
    }
}

/// Cell `(nx, ny)` is among the first `k` neighbours of `(gx, gy)` scanned.
pub open spec fn scanned_before(gx: int, gy: int, nx: int, ny: int, k: int) -> bool {
    exists|j: int| 0 <= j < k && #[trigger] nb_dx(j) == nx - gx && nb_dy(j) == ny - gy
}

/// Setting the visibility of one cell changes the count of the first `k`
/// scanned neighbours only if that cell is among them, and then by the
/// change of its own flag.
proof fn lemma_count_update(
    vis: Seq<bool>,
    gx: int,
    gy: int,
    w: int,
    h: int,
    k: int,
    nx: int,
    ny: int,
    b: bool,
)
    requires
        0 <= k <= 8,
        0 <= nx < w,
        0 <= ny < h,
        vis.len() >= w * h,
    ensures
        visible_count_upto(vis.update(ny * w + nx, b), gx, gy, w, h, k) == visible_count_upto(
            vis,
            gx,
            gy,
            w,
            h,
            k,
        ) + if scanned_before(gx, gy, nx, ny, k) {
            (if b {
                1int
            } else {
                0int
            }) - (if vis[ny * w + nx] {
                1int
            } else {
                0int
            })
        } else {
            0int
        },
    decreases k,
{
    let i = ny * w + nx;
    let v2 = vis.update(i, b);
    crate::grid::lemma_cell_index(w, h, nx, ny);
    if k > 0 {
        lemma_count_update(vis, gx, gy, w, h, k - 1, nx, ny, b);
        law_scan_offsets();
        let cx = gx + nb_dx(k - 1);
        let cy = gy + nb_dy(k - 1);
        let same = cx == nx && cy == ny;
        if same {
            assert(scanned_before(gx, gy, nx, ny, k));
            if scanned_before(gx, gy, nx, ny, k - 1) {
                let j = choose|j: int| 0 <= j < k - 1 && #[trigger] nb_dx(j) == nx - gx && nb_dy(j)
                    == ny - gy;
                assert(nb_dx(j) != nb_dx(k - 1) || nb_dy(j) != nb_dy(k - 1));
            }
            assert(neighbor_visible(v2, gx, gy, w, h, k - 1) == b);
            assert(neighbor_visible(vis, gx, gy, w, h, k - 1) == vis[i]);
        } else {
            if scanned_before(gx, gy, nx, ny, k) {
                let j = choose|j: int| 0 <= j < k && #[trigger] nb_dx(j) == nx - gx && nb_dy(j)
                    == ny - gy;
                assert(j != k - 1);
                assert(scanned_before(gx, gy, nx, ny, k - 1));
            }
            if 0 <= cx < w && 0 <= cy < h {
                crate::grid::lemma_cell_index(w, h, cx, cy);
                if cy * w + cx == i {
                    crate::grid::lemma_cell_index_injective(w, cx, cy, nx, ny);
                }
                assert(v2[cy * w + cx] == vis[cy * w + cx]);
            }
            assert(neighbor_visible(v2, gx, gy, w, h, k - 1) == neighbor_visible(
                vis,
                gx,
                gy,
                w,
                h,
                k - 1,
            ));
        }
    }
}

/// Revealing one hidden cell next to `(gx, gy)` raises its visible-neighbour
/// count by exactly one.
pub proof fn law_revealed_neighbour_counts_once(
    vis: Seq<bool>,
    gx: int,
    gy: int,
    w: int,
    h: int,
    nx: int,
    ny: int,
)
    requires
        0 <= nx < w,
        0 <= ny < h,
        vis.len() >= w * h,
        crate::flowfield::neighbour_offset(nx - gx, ny - gy),
        !vis[ny * w + nx],
    ensures
        visible_count_upto(vis.update(ny * w + nx, true), gx, gy, w, h, 8) == visible_count_upto(
            vis,
            gx,
            gy,
            w,
            h,
            8,
        ) + 1,
{
    law_scan_offsets();
    let k = choose|k: int| 0 <= k < 8 && #[trigger] nb_dx(k) == nx - gx && nb_dy(k) == ny - gy;
    assert(scanned_before(gx, gy, nx, ny, 8));
    lemma_count_update(vis, gx, gy, w, h, 8, nx, ny, true);
}

/// Changing a cell that is not next to `(gx, gy)` leaves its
/// visible-neighbour count unchanged.
pub proof fn law_far_cells_do_not_count(
    vis: Seq<bool>,
    gx: int,
    gy: int,
    w: int,
    h: int,
    nx: int,
    ny: int,
    b: bool,
)
    requires
        0 <= nx < w,
        0 <= ny < h,
        vis.len() >= w * h,
        !crate::flowfield::neighbour_offset(nx - gx, ny - gy),
    ensures
        visible_count_upto(vis.update(ny * w + nx, b), gx, gy, w, h, 8) == visible_count_upto(
            vis,
            gx,
            gy,
            w,
            h,
            8,
        ),
{
    law_scan_offsets();
    if scanned_before(gx, gy, nx, ny, 8) {
        let k = choose|k: int| 0 <= k < 8 && #[trigger] nb_dx(k) == nx - gx && nb_dy(k) == ny - gy;
        assert(crate::flowfield::neighbour_offset(nb_dx(k), nb_dy(k)));
    }
    lemma_count_update(vis, gx, gy, w, h, 8, nx, ny, b);
}

proof fn lemma_count_bounds(visible: Seq<bool>, gx: int, gy: int, w: int, h: int, k: int)
    requires
        0 <= k,
    ensures
        0 <= visible_count_upto(visible, gx, gy, w, h, k) <= k,
    decreases k,
{
    if k > 0 {
        lemma_count_bounds(visible, gx, gy, w, h, k - 1);
    }
}

pub(crate) fn nb_offset(k: usize) -> (r: (i32, i32))
    requires
        k < 8,
    ensures
        r.0 == nb_dx(k as int),
        r.1 == nb_dy(k as int),
{
    match k {
        0 => (-1, -1),
        1 => (0, -1),
        2 => (1, -1),
        3 => (-1, 0),
        4 => (1, 0),
        5 => (-1, 1),
        6 => (0, 1),
        _ => (1, 1),
    }
}

/// Number of visible tiles among the eight neighbours of `(gx, gy)`.
pub fn visible_neighbor_count(visible: &[bool], gx: u32, gy: u32, w: u32, h: u32) -> (r: u32)
    requires
        w <= i32::MAX,
        h <= i32::MAX,
        w * h <= u32::MAX,
        gx < w,
        gy < h,
        visible@.len() >= w * h,
    ensures
        r == visible_count_upto(visible@, gx as int, gy as int, w as int, h as int, 8),
        r <= 8,
{
    let mut count: u32 = 0;
    let x = gx as i32;
    let y = gy as i32;
    let wi = w as i32;
    let hi = h as i32;
    let mut k: usize = 0;
    while k < 8
        invariant
            k <= 8,
            x == gx,
            y == gy,
            wi == w,
            hi == h,
            w <= i32::MAX,
            h <= i32::MAX,
            w * h <= u32::MAX,
            gx < w,
            gy < h,
            visible@.len() >= w * h,
            count == visible_count_upto(visible@, gx as int, gy as int, w as int, h as int, k as int),
        decreases 8 - k,
    {
        proof {
            lemma_count_bounds(visible@, gx as int, gy as int, w as int, h as int, k as int);
        }
        let (ndx, ndy) = nb_offset(k);
        let nx = x + ndx;
        let ny = y + ndy;
        if nx >= 0 && ny >= 0 && nx < wi && ny < hi {
            proof {
                crate::grid::lemma_cell_index(w as int, h as int, nx as int, ny as int);
            }
            if visible[(ny as u32 * w + nx as u32) as usize] {
                count = count + 1;
            }
        }
        k = k + 1;
    }
    proof {
        lemma_count_bounds(visible@, gx as int, gy as int, w as int, h as int, 8);
    }
    count
}

pub open spec fn spec_smooth_fog_alpha(visible: Seq<bool>, gx: int, gy: int, w: int, h: int) -> u8 {
    let n = visible_count_upto(visible, gx, gy, w, h, 8);
    if visible[gy * w + gx] {
        if 8 - n >= 3 {
            ((8 - n - 2) * 10) as u8
        } else {
            0u8
        }
    } else {
        if 140 - n * 15 > 38 {
            (140 - n * 15) as u8
        } else {
            38u8
        }
    }
}

/// Fog alpha with soft edges: a visible tile darkens by 10 per fogged
/// neighbour beyond the second; a hidden tile starts at 140 and lightens by 15
/// per visible neighbour, never below 38.
pub fn smooth_fog_alpha(visible: &[bool], gx: u32, gy: u32, w: u32, h: u32) -> (r: u8)
    requires
        w <= i32::MAX,
        h <= i32::MAX,
        w * h <= u32::MAX,
        gx < w,
        gy < h,
        visible@.len() >= w * h,
    ensures
        r == spec_smooth_fog_alpha(visible@, gx as int, gy as int, w as int, h as int),
{
    proof {
        crate::grid::lemma_cell_index(w as int, h as int, gx as int, gy as int);
    }
    let idx = (gy * w + gx) as usize;
    let is_vis = visible[idx];
    let n = visible_neighbor_count(visible, gx, gy, w, h);
    if is_vis {
        let fog_n = 8 - n;
        if fog_n >= 3 {
            ((fog_n - 2) * 10) as u8
        } else {
            0
        }
    } else {
        let base: i32 = 140;
        let v = base - (n as i32) * 15;
        if v > 38 {
            v as u8
        } else {
            38
        }
    }
}

/// RGBA fog overlay, one black pixel per tile whose alpha is the smooth fog alpha.
pub fn build_fog_pixels(visible: &[bool], w: u32, h: u32) -> (pixels: Vec<u8>)
    requires
        w * h * 4 <= u32::MAX,
        visible@.len() >= w * h,
    ensures
        pixels@.len() == w * h * 4,
        forall|j: int| 0 <= j < w * h * 4 && j % 4 != 3 ==> #[trigger] pixels@[j] == 0,
        forall|gx: int, gy: int|
            0 <= gx < w && 0 <= gy < h ==> #[trigger] pixels@[(gy * w + gx) * 4 + 3]
                == spec_smooth_fog_alpha(visible@, gx, gy, w as int, h as int),
{
    let len = (w * h * 4) as usize;
    let mut pixels: Vec<u8> = Vec::with_capacity(len);
    let mut i: usize = 0;
    while i < len
        invariant
            i <= len,
            pixels@.len() == i,
            forall|j: int| 0 <= j < i ==> #[trigger] pixels@[j] == 0,
        decreases len - i,
    {
        pixels.push(0);
        i = i + 1;
    }
    let mut gy: u32 = 0;
    while gy < h
        invariant
            gy <= h,
            w * h * 4 <= u32::MAX,
            visible@.len() >= w * h,
            pixels@.len() == w * h * 4,
            forall|j: int| 0 <= j < w * h * 4 && j % 4 != 3 ==> #[trigger] pixels@[j] == 0,
            forall|x2: int, y2: int|
                0 <= x2 < w && 0 <= y2 < gy ==> #[trigger] pixels@[(y2 * w + x2) * 4 + 3]
                    == spec_smooth_fog_alpha(visible@, x2, y2, w as int, h as int),
        decreases h - gy,
    {
        let mut gx: u32 = 0;
        while gx < w
            invariant
                gx <= w,
                gy < h,
                w * h * 4 <= u32::MAX,
                visible@.len() >= w * h,
                pixels@.len() == w * h * 4,
                forall|j: int| 0 <= j < w * h * 4 && j % 4 != 3 ==> #[trigger] pixels@[j] == 0,
                forall|x2: int, y2: int|
                    0 <= x2 < w && 0 <= y2 < h && (y2 < gy || (y2 == gy && x2 < gx))
                        ==> #[trigger] pixels@[(y2 * w + x2) * 4 + 3] == spec_smooth_fog_alpha(
                        visible@,
                        x2,
                        y2,
                        w as int,
                        h as int,
                    ),
            decreases w - gx,
        {
            proof {
                crate::grid::lemma_cell_index(w as int, h as int, gx as int, gy as int);
                assert(w <= i32::MAX && h <= i32::MAX) by (nonlinear_arith)
                    requires
                        w * h * 4 <= u32::MAX,
                        gx < w,
                        gy < h,
                ;
            }
            let po = ((gy * w + gx) * 4) as usize;
            let alpha = smooth_fog_alpha(visible, gx, gy, w, h);
            let ghost p0 = pixels@;
            pixels.set(po + 3, alpha);
            proof {
                assert forall|j: int| 0 <= j < w * h * 4 && j % 4 != 3 implies #[trigger] pixels@[j]
                    == 0 by {
                    assert(j != po + 3);
                    assert(p0[j] == 0);
                }
                assert forall|x2: int, y2: int|
                    0 <= x2 < w && 0 <= y2 < h && (y2 < gy || (y2 == gy && x2 < gx + 1))
                        implies #[trigger] pixels@[(y2 * w + x2) * 4 + 3] == spec_smooth_fog_alpha(
                    visible@,
                    x2,
                    y2,
                    w as int,
                    h as int,
                ) by {
                    crate::grid::lemma_cell_index(w as int, h as int, x2, y2);
                    if x2 == gx && y2 == gy {
                    } else {
                        if (y2 * w + x2) == (gy * w + gx) {
                            crate::grid::lemma_cell_index_injective(w as int, x2, y2, gx as int, gy as int);
                        }
                    }
                }
            }
            gx = gx + 1;
        }
        gy = gy + 1;
    }
    pixels
}

/// SmallRibbons row of the faction's small variant: Blue 1, Red 3.
pub fn small_ribbon_row(faction: Faction) -> (r: u32)
    requires
        two_sided(faction),
    ensures
        r == match faction {
            Faction::Blue => 1u32,
            Faction::Red => 3u32,
            _ => 0u32,
        },
{
    match faction {
        Faction::Blue => 1,
        Faction::Red => 3,
        _ => 0,
    }
}

/// BigRibbons color row of the faction: Blue 0, Red 1.
pub fn faction_ribbon_row(faction: Faction) -> (r: u32)
    requires
        two_sided(faction),
    ensures
        r == match faction {
            Faction::Blue => 0u32,
            Faction::Red => 1u32,
            _ => 0u32,
        },
{
    match faction {
        Faction::Blue => 0,
        Faction::Red => 1,
        _ => 0,
    }
}

} // verus!
