//! The settlement network: capitals chosen by a terrain-aware farthest-pair
//! search over a shared candidate pool, then countryside settlements by
//! best-candidate sampling under spacing rules, mirrored about the capital
//! midpoint on two-capital maps.

use vstd::prelude::*;
use crate::grid::{Grid, BORDER_SIZE, MAX_SIDE};
use crate::zone::SettlementTier;
use super::rng::{Rng, xorshift};
use super::terrain::{terrain_damage, disk_damage};
use super::VILLAGE_CLEAR_RADIUS;

verus! {

/// Candidates in the capital pool.
pub const POOL_SIZE: usize = 48;
/// Distance kept from the playable edge: capitals, countryside.
pub const CITY_MARGIN: u32 = 21;
pub const FIELD_MARGIN: u32 = 13;
/// Smallest squared distance between two countryside settlements.
pub const MIN_GAP: i64 = 676;
/// Smallest squared distance between a countryside settlement and a capital.
pub const CAPITAL_GAP: i64 = 1024;
/// Most countryside settlements; sampling rounds before giving up.
pub const MAX_FIELD: usize = 24;
pub const MAX_ATTEMPTS: u32 = 3000;
/// Candidates drawn per sampling round.
pub const ROUND_CANDIDATES: u32 = 24;

/// State after `n` generator steps from `s`.
pub open spec fn xs_n(s: u32, n: nat) -> u32
    decreases n,
{
    if n == 0 {
        s
    } else {
        xorshift(xs_n(s, (n - 1) as nat))
    }
}

/// A point drawn with the given margin: `x`, then `y`, each
/// `BORDER_SIZE + margin + draw % (p - 2 * margin)`.
pub open spec fn spec_sample(s: u32, p: int, margin: int) -> (u32, u32) {
    let span = p - 2 * margin;
    (
        (BORDER_SIZE + margin + xorshift(s) % (span as u32)) as u32,
        (BORDER_SIZE + margin + xorshift(xorshift(s)) % (span as u32)) as u32,
    )
}

/// The `i`-th point of the capital pool drawn from state `s`.
pub open spec fn pool_point(s: u32, p: int, i: int) -> (u32, u32) {
    spec_sample(xs_n(s, (2 * i) as nat), p, CITY_MARGIN as int)
}

/// The point lies `margin` or more inside the playable square of side `p`.
pub open spec fn inside(c: (u32, u32), p: int, margin: int) -> bool {
    &&& BORDER_SIZE + margin <= c.0 < BORDER_SIZE + p - margin
    &&& BORDER_SIZE + margin <= c.1 < BORDER_SIZE + p - margin
}

pub open spec fn spec_d2(a: (u32, u32), c: (u32, u32)) -> int {
    (a.0 - c.0) * (a.0 - c.0) + (a.1 - c.1) * (a.1 - c.1)
}

/// Water, cliff and off-map cells a clearing at `c` would bulldoze.
pub open spec fn spec_damage(g: Grid, c: (u32, u32)) -> int {
    disk_damage(g, c.0 as int, c.1 as int, VILLAGE_CLEAR_RADIUS as int, VILLAGE_CLEAR_RADIUS + 1)
}

/// Smallest squared distance two opening capitals should keep: 60% of the
/// playable side, squared.
pub open spec fn min_separation(p: int) -> int {
    (p * 6 / 10) * (p * 6 / 10)
}

/// Score of an opening capital pair: terrain damage is heavily penalised,
/// distance rewarded.
pub open spec fn pair_score(g: Grid, a: (u32, u32), c: (u32, u32)) -> int {
    -(spec_damage(g, a) + spec_damage(g, c)) * 200 + spec_d2(a, c) / 8
}

/// Pair `(i1, j1)` comes before `(i2, j2)` in the search order.
pub open spec fn pair_before(i1: int, j1: int, i2: int, j2: int) -> bool {
    i1 < i2 || (i1 == i2 && j1 < j2)
}

pub open spec fn is_pair(n: int, i: int, j: int) -> bool {
    0 <= i < j < n
}

/// `(ia, ja)` is the opening pair: the first best-scoring pair among those
/// at least `min_separation` apart, or, when none is, the first farthest pair.
pub open spec fn opening_pair(g: Grid, pool: Seq<(u32, u32)>, p: int, ia: int, ja: int) -> bool {
    let n = pool.len() as int;
    let far_enough = |i: int, j: int| spec_d2(pool[i], pool[j]) >= min_separation(p);
    &&& is_pair(n, ia, ja)
    &&& if exists|i: int, j: int| is_pair(n, i, j) && far_enough(i, j) {
        &&& far_enough(ia, ja)
        &&& forall|i: int, j: int|
            #![trigger pool[i], pool[j]]
            is_pair(n, i, j) && far_enough(i, j) ==> pair_score(g, pool[i], pool[j]) <= pair_score(
                g,
                pool[ia],
                pool[ja],
            ) && (pair_before(i, j, ia, ja) ==> pair_score(g, pool[i], pool[j]) < pair_score(
                g,
                pool[ia],
                pool[ja],
            ))
    } else {
        forall|i: int, j: int|
            #![trigger pool[i], pool[j]]
            is_pair(n, i, j) ==> spec_d2(pool[i], pool[j]) <= spec_d2(pool[ia], pool[ja]) && (
            pair_before(i, j, ia, ja) ==> spec_d2(pool[i], pool[j]) < spec_d2(pool[ia], pool[ja]))
    }
}

/// Smallest squared distance from `c` to the points of `s` (0 for none).
pub open spec fn min_d2(s: Seq<(u32, u32)>, c: (u32, u32)) -> int
    decreases s.len(),
{
    if s.len() == 0 {
        0
    } else if s.len() == 1 {
        spec_d2(c, s[0])
    } else {
        let m = min_d2(s.drop_last(), c);
        let d = spec_d2(c, s.last());
        if d < m {
            d
        } else {
            m
        }
    }
}

/// Ranking of a further capital candidate: its distance to the nearest
/// chosen capital, less a terrain penalty.
pub open spec fn extra_key(g: Grid, caps: Seq<(u32, u32)>, c: (u32, u32)) -> int {
    min_d2(caps, c) - spec_damage(g, c) * 200
}

/// `c` is the next capital after `caps`: the last pool point of greatest
/// key among those not yet chosen.
pub open spec fn extra_choice(g: Grid, pool: Seq<(u32, u32)>, caps: Seq<(u32, u32)>, c: (u32, u32)) -> bool {
    exists|t: int|
        0 <= t < pool.len() && #[trigger] pool[t] == c && !caps.contains(c) && forall|u: int|
            0 <= u < pool.len() && !caps.contains(#[trigger] pool[u]) ==> extra_key(g, caps, pool[u])
                <= extra_key(g, caps, c) && (u > t ==> extra_key(g, caps, pool[u]) < extra_key(
                g,
                caps,
                c,
            ))
}

/// Draw a point `margin` inside the playable square.
fn sample(rng: &mut Rng, p: u32, margin: u32) -> (c: (u32, u32))
    requires
        2 * margin < p <= MAX_SIDE,
    ensures
        c == spec_sample(old(rng).state, p as int, margin as int),
        final(rng).state == xorshift(xorshift(old(rng).state)),
        inside(c, p as int, margin as int),
{
    let span = p - 2 * margin;
    let x = BORDER_SIZE + margin + rng.next() % span;
    let y = BORDER_SIZE + margin + rng.next() % span;
    (x, y)
}

fn d2(a: (u32, u32), c: (u32, u32)) -> (r: i64)
    requires
        a.0 < MAX_SIDE,
        a.1 < MAX_SIDE,
        c.0 < MAX_SIDE,
        c.1 < MAX_SIDE,
    ensures
        r == spec_d2(a, c),
        0 <= r <= 2 * MAX_SIDE * MAX_SIDE,
{
    let dx = a.0 as i64 - c.0 as i64;
    let dy = a.1 as i64 - c.1 as i64;
    proof {
        assert(0 <= dx * dx <= MAX_SIDE * MAX_SIDE) by (nonlinear_arith)
            requires
                -(MAX_SIDE as int) <= dx <= MAX_SIDE,
        ;
        assert(0 <= dy * dy <= MAX_SIDE * MAX_SIDE) by (nonlinear_arith)
            requires
                -(MAX_SIDE as int) <= dy <= MAX_SIDE,
        ;
    }
    dx * dx + dy * dy
}

fn damage(grid: &Grid, c: (u32, u32)) -> (r: i64)
    requires
        grid.wf(),
        c.0 < MAX_SIDE,
        c.1 < MAX_SIDE,
    ensures
        r == spec_damage(*grid, c),
        0 <= r <= 729,
{
    let d = terrain_damage(grid, c.0 as i32, c.1 as i32);
    d as i64
}


/// Whether `s` holds the point `c`.
fn contains_point(s: &Vec<(u32, u32)>, c: (u32, u32)) -> (r: bool)
    ensures
        r == s@.contains(c),
{
    let mut k: usize = 0;
    while k < s.len()
        invariant
            k <= s@.len(),
            forall|k2: int| 0 <= k2 < k ==> s@[k2] != c,
        decreases s@.len() - k,
    {
        if s[k].0 == c.0 && s[k].1 == c.1 {
            proof {
                assert(s@[k as int] == c);
            }
            return true;
        }
        k = k + 1;
    }
    false
}

/// Smallest squared distance from `c` to the points of `s`.
fn nearest_d2(s: &Vec<(u32, u32)>, c: (u32, u32)) -> (r: i64)
    requires
        s@.len() >= 1,
        c.0 < MAX_SIDE,
        c.1 < MAX_SIDE,
        forall|k: int| 0 <= k < s@.len() ==> (#[trigger] s@[k]).0 < MAX_SIDE && s@[k].1 < MAX_SIDE,
    ensures
        r == min_d2(s@, c),
        0 <= r <= 2 * MAX_SIDE * MAX_SIDE,
{
    let mut m = d2(c, s[0]);
    let mut k: usize = 1;
    proof {
        assert(s@.take(1).len() == 1);
        assert(s@.take(1)[0] == s@[0]);
    }
    while k < s.len()
        invariant
            1 <= k <= s@.len(),
            c.0 < MAX_SIDE,
            c.1 < MAX_SIDE,
            forall|k2: int| 0 <= k2 < s@.len() ==> (#[trigger] s@[k2]).0 < MAX_SIDE && s@[k2].1 < MAX_SIDE,
            m == min_d2(s@.take(k as int), c),
            0 <= m <= 2 * MAX_SIDE * MAX_SIDE,
        decreases s@.len() - k,
    {
        let d = d2(c, s[k]);
        proof {
            assert(s@.take(k + 1).drop_last() =~= s@.take(k as int));
            assert(s@.take(k + 1).last() == s@[k as int]);
        }
        if d < m {
            m = d;
        }
        k = k + 1;
    }
    proof {
        assert(s@.take(s@.len() as int) =~= s@);
    }
    m
}

/// Draw the capital pool: `POOL_SIZE` points `CITY_MARGIN` inside.
fn draw_pool(rng: &mut Rng, p: u32) -> (pool: Vec<(u32, u32)>)
    requires
        2 * CITY_MARGIN < p,
        BORDER_SIZE + p <= MAX_SIDE,
    ensures
        pool@ == Seq::new(POOL_SIZE as nat, |i: int| pool_point(old(rng).state, p as int, i)),
        forall|i: int| 0 <= i < pool@.len() ==> inside(#[trigger] pool@[i], p as int, CITY_MARGIN as int),
        final(rng).state == xs_n(old(rng).state, (2 * POOL_SIZE) as nat),
{
    let ghost s0 = rng.state;
    let ghost spool = Seq::new(POOL_SIZE as nat, |i: int| pool_point(s0, p as int, i));
    let mut pool: Vec<(u32, u32)> = Vec::new();
    let mut k: usize = 0;
    proof {
        assert forall|i: int| 0 <= i < POOL_SIZE implies #[trigger] spool[i] == pool_point(
            s0,
            p as int,
            i,
        ) by {}
    }
    while k < POOL_SIZE
        invariant
            k <= POOL_SIZE,
            2 * CITY_MARGIN < p,
            BORDER_SIZE + p <= MAX_SIDE,
            spool.len() == POOL_SIZE,
            forall|i: int| 0 <= i < POOL_SIZE ==> #[trigger] spool[i] == pool_point(s0, p as int, i),
            pool@.len() == k,
            rng.state == xs_n(s0, (2 * k) as nat),
            forall|i: int| 0 <= i < k ==> #[trigger] pool@[i] == spool[i],
            forall|i: int| 0 <= i < k ==> inside(#[trigger] pool@[i], p as int, CITY_MARGIN as int),
        decreases POOL_SIZE - k,
    {
        let ghost st = rng.state;
        let c = sample(rng, p, CITY_MARGIN);
        proof {
            assert(spool.len() == POOL_SIZE);
            assert(0 <= k < spool.len());
            assert(spool[k as int] == pool_point(s0, p as int, k as int));
            assert(c == spool[k as int]);
            assert(xs_n(s0, (2 * k + 1) as nat) == xorshift(xs_n(s0, (2 * k) as nat)));
            assert(xs_n(s0, (2 * k + 2) as nat) == xorshift(xs_n(s0, (2 * k + 1) as nat)));
        }
        pool.push(c);
        k = k + 1;
    }
    proof {
        assert(pool@ =~= spool);
    }
    pool
}

/// The opening capital pair of the pool, as indices.
fn opening_search(grid: &Grid, pool: &Vec<(u32, u32)>, p: u32) -> (r: (usize, usize))
    requires
        grid.wf(),
        pool@.len() >= 2,
        pool@.len() <= POOL_SIZE,
        BORDER_SIZE + p <= MAX_SIDE,
        forall|i: int| 0 <= i < pool@.len() ==> (#[trigger] pool@[i]).0 < MAX_SIDE && pool@[i].1
            < MAX_SIDE,
    ensures
        opening_pair(*grid, pool@, p as int, r.0 as int, r.1 as int),
{
    let ghost g = *grid;
    let n = pool.len();
    let mut has_best = false;
    let mut bi: usize = 0;
    let mut bj: usize = 1;
    let mut best_score: i64 = 0;
    let mut fi: usize = 0;
    let mut fj: usize = 1;
    let mut far: i64 = i64::MIN;
    let sep_side = (p as i64) * 6 / 10;
    proof {
        assert(sep_side * sep_side <= 8192 * 8192) by (nonlinear_arith)
            requires
                0 <= sep_side <= 8192,
        ;
    }
    let min_sep = sep_side * sep_side;
    let mut i: usize = 0;
    while i < n
        invariant
            g == *grid,
            grid.wf(),
            n == pool@.len(),
            2 <= n <= POOL_SIZE,
            forall|i2: int| 0 <= i2 < n ==> (#[trigger] pool@[i2]).0 < MAX_SIDE && pool@[i2].1 < MAX_SIDE,
            min_sep == min_separation(p as int),
            i <= n,
            has_best ==> is_pair(n as int, bi as int, bj as int) && bi < i,
            !has_best ==> forall|i2: int, j2: int|
                #![trigger pool@[i2], pool@[j2]]
                is_pair(n as int, i2, j2) && i2 < i ==> spec_d2(pool@[i2], pool@[j2]) < min_sep,
            has_best ==> spec_d2(pool@[bi as int], pool@[bj as int]) >= min_sep && best_score
                == pair_score(g, pool@[bi as int], pool@[bj as int]),
            has_best ==> forall|i2: int, j2: int|
                #![trigger pool@[i2], pool@[j2]]
                is_pair(n as int, i2, j2) && i2 < i && spec_d2(pool@[i2], pool@[j2]) >= min_sep
                    ==> pair_score(g, pool@[i2], pool@[j2]) <= best_score && (pair_before(
                    i2,
                    j2,
                    bi as int,
                    bj as int,
                ) ==> pair_score(g, pool@[i2], pool@[j2]) < best_score),
            is_pair(n as int, fi as int, fj as int),
            i == 0 ==> fi == 0 && fj == 1 && far == i64::MIN,
            i > 0 ==> fi < i && far == spec_d2(pool@[fi as int], pool@[fj as int]),
            forall|i2: int, j2: int|
                #![trigger pool@[i2], pool@[j2]]
                is_pair(n as int, i2, j2) && i2 < i ==> spec_d2(pool@[i2], pool@[j2]) <= far && (
                pair_before(i2, j2, fi as int, fj as int) ==> spec_d2(pool@[i2], pool@[j2]) < far),
        decreases n - i,
    {
        let mut j: usize = i + 1;
        while j < n
            invariant
                g == *grid,
                grid.wf(),
                n == pool@.len(),
                2 <= n <= POOL_SIZE,
                forall|i2: int| 0 <= i2 < n ==> (#[trigger] pool@[i2]).0 < MAX_SIDE && pool@[i2].1 < MAX_SIDE,
                min_sep == min_separation(p as int),
                i < n,
                i + 1 <= j <= n,
                has_best ==> is_pair(n as int, bi as int, bj as int) && pair_before(
                    bi as int,
                    bj as int,
                    i as int,
                    j as int,
                ),
                !has_best ==> forall|i2: int, j2: int|
                    #![trigger pool@[i2], pool@[j2]]
                    is_pair(n as int, i2, j2) && pair_before(i2, j2, i as int, j as int) ==> spec_d2(
                        pool@[i2],
                        pool@[j2],
                    ) < min_sep,
                has_best ==> spec_d2(pool@[bi as int], pool@[bj as int]) >= min_sep && best_score
                    == pair_score(g, pool@[bi as int], pool@[bj as int]),
                has_best ==> forall|i2: int, j2: int|
                    #![trigger pool@[i2], pool@[j2]]
                    is_pair(n as int, i2, j2) && pair_before(i2, j2, i as int, j as int) && spec_d2(
                        pool@[i2],
                        pool@[j2],
                    ) >= min_sep ==> pair_score(g, pool@[i2], pool@[j2]) <= best_score && (
                    pair_before(i2, j2, bi as int, bj as int) ==> pair_score(g, pool@[i2], pool@[j2])
                        < best_score),
                is_pair(n as int, fi as int, fj as int),
                (i == 0 && j == 1) ==> fi == 0 && fj == 1 && far == i64::MIN,
                !(i == 0 && j == 1) ==> pair_before(fi as int, fj as int, i as int, j as int) && far
                    == spec_d2(pool@[fi as int], pool@[fj as int]),
                forall|i2: int, j2: int|
                    #![trigger pool@[i2], pool@[j2]]
                    is_pair(n as int, i2, j2) && pair_before(i2, j2, i as int, j as int) ==> spec_d2(
                        pool@[i2],
                        pool@[j2],
                    ) <= far && (pair_before(i2, j2, fi as int, fj as int) ==> spec_d2(
                        pool@[i2],
                        pool@[j2],
                    ) < far),
            decreases n - j,
        {
            let a = pool[i];
            let c = pool[j];
            let dist = d2(a, c);
            if dist > far {
                fi = i;
                fj = j;
                far = dist;
            }
            if dist >= min_sep {
                let score = -(damage(grid, a) + damage(grid, c)) * 200 + dist / 8;
                if !has_best || score > best_score {
                    has_best = true;
                    bi = i;
                    bj = j;
                    best_score = score;
                }
            }
            j = j + 1;
        }
        i = i + 1;
    }
    if has_best {
        (bi, bj)
    } else {
        (fi, fj)
    }
}

/// Index of the next capital: the last pool point of greatest `extra_key`
/// among those not yet chosen, or `None` when every pool point is chosen.
fn next_capital(grid: &Grid, pool: &Vec<(u32, u32)>, caps: &Vec<(u32, u32)>) -> (r: Option<usize>)
    requires
        grid.wf(),
        caps@.len() >= 1,
        forall|i: int| 0 <= i < pool@.len() ==> (#[trigger] pool@[i]).0 < MAX_SIDE && pool@[i].1
            < MAX_SIDE,
        forall|i: int| 0 <= i < caps@.len() ==> (#[trigger] caps@[i]).0 < MAX_SIDE && caps@[i].1
            < MAX_SIDE,
    ensures
        r matches Some(t) ==> t < pool@.len() && extra_choice(*grid, pool@, caps@, pool@[t as int]),
        r is None ==> forall|t: int| 0 <= t < pool@.len() ==> caps@.contains(pool@[t]),
{
    let ghost g = *grid;
    let n = pool.len();
    let mut found = false;
    let mut best_t: usize = 0;
    let mut best_key: i64 = 0;
    let mut t: usize = 0;
    while t < n
        invariant
            g == *grid,
            grid.wf(),
            n == pool@.len(),
            caps@.len() >= 1,
            forall|i: int| 0 <= i < pool@.len() ==> (#[trigger] pool@[i]).0 < MAX_SIDE && pool@[i].1
                < MAX_SIDE,
            forall|i: int| 0 <= i < caps@.len() ==> (#[trigger] caps@[i]).0 < MAX_SIDE && caps@[i].1
                < MAX_SIDE,
            t <= n,
            !found ==> forall|u: int| 0 <= u < t ==> caps@.contains(#[trigger] pool@[u]),
            found ==> best_t < t && !caps@.contains(pool@[best_t as int]) && best_key == extra_key(
                g,
                caps@,
                pool@[best_t as int],
            ),
            found ==> forall|u: int|
                0 <= u < t && !caps@.contains(#[trigger] pool@[u]) ==> extra_key(g, caps@, pool@[u])
                    <= best_key && (u > best_t ==> extra_key(g, caps@, pool@[u]) < best_key),
        decreases n - t,
    {
        let c = pool[t];
        if !contains_point(caps, c) {
            let key = nearest_d2(caps, c) - damage(grid, c) * 200;
            if !found || key >= best_key {
                found = true;
                best_t = t;
                best_key = key;
            }
        }
        t = t + 1;
    }
    if found {
        proof {
            assert(pool@[best_t as int] == pool@[best_t as int]);
        }
        Some(best_t)
    } else {
        None
    }
}

/// Draw the capital pool and pick the capitals: the opening pair first,
/// then, while fewer than `n_caps` are chosen and some pool point is left,
/// the last pool point of greatest `extra_key`.
pub fn choose_capitals(grid: &Grid, rng: &mut Rng, p: u32, n_caps: usize) -> (caps: Vec<(u32, u32)>)
    requires
        grid.wf(),
        2 * CITY_MARGIN < p,
        BORDER_SIZE + p <= MAX_SIDE,
        2 <= n_caps <= 4,
    ensures
        2 <= caps@.len() <= n_caps,
        forall|k: int| 0 <= k < caps@.len() ==> inside(#[trigger] caps@[k], p as int, CITY_MARGIN as int),
        final(rng).state == xs_n(old(rng).state, (2 * POOL_SIZE) as nat),
        ({
            let pool = Seq::new(POOL_SIZE as nat, |i: int| pool_point(old(rng).state, p as int, i));
            &&& exists|ia: int, ja: int|
                opening_pair(*grid, pool, p as int, ia, ja) && caps@[0] == pool[ia] && caps@[1]
                    == pool[ja]
            &&& forall|k: int|
                2 <= k < caps@.len() ==> extra_choice(*grid, pool, caps@.take(k), #[trigger] caps@[k])
            &&& caps@.len() < n_caps ==> forall|t: int| 0 <= t < pool.len() ==> caps@.contains(pool[t])
        }),
{
    let ghost g = *grid;
    let pool = draw_pool(rng, p);
    let ghost spool = pool@;
    proof {
        assert forall|i: int| 0 <= i < pool@.len() implies (#[trigger] pool@[i]).0 < MAX_SIDE
            && pool@[i].1 < MAX_SIDE by {
            assert(inside(pool@[i], p as int, CITY_MARGIN as int));
        }
    }
    let (ia, ja) = opening_search(grid, &pool, p);
    let mut caps: Vec<(u32, u32)> = Vec::new();
    caps.push(pool[ia]);
    caps.push(pool[ja]);
    let mut done = false;
    while caps.len() < n_caps && !done
        invariant
            g == *grid,
            grid.wf(),
            pool@ == spool,
            spool.len() == POOL_SIZE,
            BORDER_SIZE + p <= MAX_SIDE,
            forall|i2: int| 0 <= i2 < spool.len() ==> inside(#[trigger] spool[i2], p as int, CITY_MARGIN as int),
            2 <= caps@.len() <= n_caps <= 4,
            forall|k2: int| 0 <= k2 < caps@.len() ==> inside(#[trigger] caps@[k2], p as int, CITY_MARGIN as int),
            opening_pair(g, spool, p as int, ia as int, ja as int),
            caps@[0] == spool[ia as int],
            caps@[1] == spool[ja as int],
            forall|k2: int|
                2 <= k2 < caps@.len() ==> extra_choice(g, spool, caps@.take(k2), #[trigger] caps@[k2]),
            done ==> forall|t: int| 0 <= t < spool.len() ==> caps@.contains(spool[t]),
        decreases n_caps - caps@.len(), if done { 0int } else { 1int },
    {
        proof {
            assert forall|i: int| 0 <= i < pool@.len() implies (#[trigger] pool@[i]).0 < MAX_SIDE
                && pool@[i].1 < MAX_SIDE by {
                assert(inside(spool[i], p as int, CITY_MARGIN as int));
            }
            assert forall|i: int| 0 <= i < caps@.len() implies (#[trigger] caps@[i]).0 < MAX_SIDE
                && caps@[i].1 < MAX_SIDE by {
                assert(inside(caps@[i], p as int, CITY_MARGIN as int));
            }
        }
        match next_capital(grid, &pool, &caps) {
            Some(t) => {
                let ghost before = caps@;
                caps.push(pool[t]);
                proof {
                    assert(caps@.take(before.len() as int) =~= before);
                    assert forall|k2: int|
                        2 <= k2 < caps@.len() implies extra_choice(
                        g,
                        spool,
                        caps@.take(k2),
                        #[trigger] caps@[k2],
                    ) by {
                        if k2 < before.len() {
                            assert(caps@.take(k2) =~= before.take(k2));
                            assert(caps@[k2] == before[k2]);
                        }
                    }
                }
            },
            None => {
                done = true;
            },
        }
    }
    caps
}


/// `c` and `m` mirror each other about the midpoint of `a` and `b`.
pub open spec fn mirrored_about(a: (u32, u32), b: (u32, u32), c: (u32, u32), m: (u32, u32)) -> bool {
    c.0 + m.0 == a.0 + b.0 && c.1 + m.1 == a.1 + b.1
}

/// Every point of `s` is at squared distance `gap` or more from `c`.
pub open spec fn far_from(s: Seq<(u32, u32)>, c: (u32, u32), gap: int) -> bool {
    forall|k: int| 0 <= k < s.len() ==> spec_d2(#[trigger] s[k], c) >= gap
}

fn far_from_all(s: &Vec<(u32, u32)>, c: (u32, u32), gap: i64) -> (r: bool)
    requires
        c.0 < MAX_SIDE,
        c.1 < MAX_SIDE,
        forall|k: int| 0 <= k < s@.len() ==> (#[trigger] s@[k]).0 < MAX_SIDE && s@[k].1 < MAX_SIDE,
    ensures
        r == far_from(s@, c, gap as int),
{
    let mut k: usize = 0;
    while k < s.len()
        invariant
            k <= s@.len(),
            c.0 < MAX_SIDE,
            c.1 < MAX_SIDE,
            forall|k2: int| 0 <= k2 < s@.len() ==> (#[trigger] s@[k2]).0 < MAX_SIDE && s@[k2].1 < MAX_SIDE,
            forall|k2: int| 0 <= k2 < k ==> spec_d2(#[trigger] s@[k2], c) >= gap,
        decreases s@.len() - k,
    {
        if d2(s[k], c) < gap {
            return false;
        }
        k = k + 1;
    }
    true
}

/// Running minimum of the squared distances from `c` to the points of `s`,
/// starting from `m0`.
pub open spec fn min_d2_to(s: Seq<(u32, u32)>, c: (u32, u32), m0: int) -> int
    decreases s.len(),
{
    if s.len() == 0 {
        m0
    } else {
        let m = min_d2_to(s.drop_last(), c, m0);
        let d = spec_d2(s.last(), c);
        if d < m {
            d
        } else {
            m
        }
    }
}

/// Smallest squared distance from `c` to the points of `a` and `b`, or
/// `i64::MAX / 4` when both are empty.
pub open spec fn spread(a: Seq<(u32, u32)>, b: Seq<(u32, u32)>, c: (u32, u32)) -> int {
    min_d2_to(b, c, min_d2_to(a, c, (i64::MAX / 4) as int))
}

/// Smallest squared distance from `c` to the points of `a` and `b`, or a
/// large value when both are empty.
fn spread_of(a: &Vec<(u32, u32)>, b: &Vec<(u32, u32)>, c: (u32, u32)) -> (r: i64)
    requires
        c.0 < MAX_SIDE,
        c.1 < MAX_SIDE,
        forall|k: int| 0 <= k < a@.len() ==> (#[trigger] a@[k]).0 < MAX_SIDE && a@[k].1 < MAX_SIDE,
        forall|k: int| 0 <= k < b@.len() ==> (#[trigger] b@[k]).0 < MAX_SIDE && b@[k].1 < MAX_SIDE,
    ensures
        r == spread(a@, b@, c),
        0 <= r <= i64::MAX / 4,
{
    let mut m: i64 = i64::MAX / 4;
    let mut k: usize = 0;
    proof {
        assert(a@.take(0) =~= Seq::<(u32, u32)>::empty());
    }
    while k < a.len()
        invariant
            k <= a@.len(),
            c.0 < MAX_SIDE,
            c.1 < MAX_SIDE,
            forall|k2: int| 0 <= k2 < a@.len() ==> (#[trigger] a@[k2]).0 < MAX_SIDE && a@[k2].1 < MAX_SIDE,
            m == min_d2_to(a@.take(k as int), c, (i64::MAX / 4) as int),
            0 <= m <= i64::MAX / 4,
        decreases a@.len() - k,
    {
        let d = d2(a[k], c);
        proof {
            assert(a@.take(k + 1).drop_last() =~= a@.take(k as int));
            assert(a@.take(k + 1).last() == a@[k as int]);
        }
        if d < m {
            m = d;
        }
        k = k + 1;
    }
    let ghost ma = m;
    proof {
        assert(a@.take(k as int) =~= a@);
        assert(b@.take(0) =~= Seq::<(u32, u32)>::empty());
    }
    let mut k: usize = 0;
    while k < b.len()
        invariant
            k <= b@.len(),
            c.0 < MAX_SIDE,
            c.1 < MAX_SIDE,
            forall|k2: int| 0 <= k2 < b@.len() ==> (#[trigger] b@[k2]).0 < MAX_SIDE && b@[k2].1 < MAX_SIDE,
            0 <= ma,
            m == min_d2_to(b@.take(k as int), c, ma as int),
            0 <= m <= i64::MAX / 4,
        decreases b@.len() - k,
    {
        let d = d2(b[k], c);
        proof {
            assert(b@.take(k + 1).drop_last() =~= b@.take(k as int));
            assert(b@.take(k + 1).last() == b@[k as int]);
        }
        if d < m {
            m = d;
        }
        k = k + 1;
    }
    proof {
        assert(b@.take(k as int) =~= b@);
    }
    m
}

/// The countryside as placed so far obeys the spacing rules: inside the
/// field margin, `MIN_GAP` apart, `CAPITAL_GAP` from every capital, and on
/// mirrored maps in consecutive mirrored pairs.
pub open spec fn field_ok(
    field: Seq<(u32, u32)>,
    caps: Seq<(u32, u32)>,
    p: int,
    mirrored: bool,
) -> bool {
    &&& forall|i: int| 0 <= i < field.len() ==> inside(#[trigger] field[i], p, FIELD_MARGIN as int)
    &&& forall|i: int, j: int|
        #![trigger field[i], field[j]]
        0 <= i < j < field.len() ==> spec_d2(field[i], field[j]) >= MIN_GAP
    &&& forall|i: int| 0 <= i < field.len() ==> far_from(caps, #[trigger] field[i], CAPITAL_GAP as int)
    &&& mirrored ==> field.len() % 2 == 0 && forall|k: int|
        0 <= k < field.len() / 2 ==> mirrored_about(
            caps[0],
            caps[1],
            #[trigger] field[2 * k],
            field[2 * k + 1],
        )
}

proof fn lemma_d2_symmetric(a: (u32, u32), c: (u32, u32))
    ensures
        spec_d2(a, c) == spec_d2(c, a),
{
    assert((a.0 - c.0) * (a.0 - c.0) == (c.0 - a.0) * (c.0 - a.0)) by (nonlinear_arith);
    assert((a.1 - c.1) * (a.1 - c.1) == (c.1 - a.1) * (c.1 - a.1)) by (nonlinear_arith);
}

/// A candidate passes: inside the field margin, spaced from the capitals
/// and the countryside so far, and on mirrored maps with a mirror point
/// that passes too and keeps its distance from the candidate.
pub open spec fn candidate_ok(
    field: Seq<(u32, u32)>,
    caps: Seq<(u32, u32)>,
    p: int,
    mirrored: bool,
    c: (u32, u32),
) -> bool {
    &&& inside(c, p, FIELD_MARGIN as int)
    &&& far_from(caps, c, CAPITAL_GAP as int)
    &&& far_from(field, c, MIN_GAP as int)
    &&& mirrored ==> {
        let m = ((caps[0].0 + caps[1].0 - c.0) as u32, (caps[0].1 + caps[1].1 - c.1) as u32);
        &&& 0 <= caps[0].0 + caps[1].0 - c.0
        &&& 0 <= caps[0].1 + caps[1].1 - c.1
        &&& inside(m, p, FIELD_MARGIN as int)
        &&& spec_d2(c, m) >= MIN_GAP
        &&& far_from(caps, m, CAPITAL_GAP as int)
        &&& far_from(field, m, MIN_GAP as int)
    }
}

/// The mirror point of `c` about the midpoint of the first two capitals.
pub open spec fn mirror_point(caps: Seq<(u32, u32)>, c: (u32, u32)) -> (u32, u32) {
    ((caps[0].0 + caps[1].0 - c.0) as u32, (caps[0].1 + caps[1].1 - c.1) as u32)
}

/// Score of a passing candidate: its spread to the nearest settlement less
/// 300 per point of terrain damage.
pub open spec fn candidate_score(g: Grid, field: Seq<(u32, u32)>, caps: Seq<(u32, u32)>, c: (u32, u32)) -> int {
    spread(field, caps, c) - spec_damage(g, c) * 300
}

/// One round from candidate `r` on, with the best passing candidate so far
/// (`hb`, `best`, its score `bs`) and generator state `st`: each candidate is
/// a sample at the field margin, and a passing one replaces the best when
/// there is none yet or it scores strictly higher. Gives whether a best was
/// found, the best, and the final state.
pub open spec fn field_round(
    g: Grid,
    p: int,
    caps: Seq<(u32, u32)>,
    field: Seq<(u32, u32)>,
    mirrored: bool,
    st: u32,
    r: int,
    hb: bool,
    best: (u32, u32),
    bs: int,
) -> (bool, (u32, u32), u32)
    decreases ROUND_CANDIDATES - r,
{
    if r < ROUND_CANDIDATES {
        let c = spec_sample(st, p, FIELD_MARGIN as int);
        let st2 = xorshift(xorshift(st));
        if candidate_ok(field, caps, p, mirrored, c) && (!hb || candidate_score(g, field, caps, c)
            > bs) {
            field_round(g, p, caps, field, mirrored, st2, r + 1, true, c, candidate_score(g, field, caps, c))
        } else {
            field_round(g, p, caps, field, mirrored, st2, r + 1, hb, best, bs)
        }
    } else {
        (hb, best, st)
    }
}

/// The rounds from attempt `attempts` on, with the countryside `field` so
/// far and state `st`: each round's best joins the field (with its mirror
/// point on mirrored maps), until `n_field` are placed or `MAX_ATTEMPTS`
/// rounds ran. Gives the field and the final state.
pub open spec fn field_attempts(
    g: Grid,
    p: int,
    caps: Seq<(u32, u32)>,
    n_field: int,
    mirrored: bool,
    st: u32,
    field: Seq<(u32, u32)>,
    attempts: int,
) -> (Seq<(u32, u32)>, u32)
    decreases MAX_ATTEMPTS - attempts,
{
    if field.len() < n_field && attempts < MAX_ATTEMPTS {
        let rr = field_round(g, p, caps, field, mirrored, st, 0, false, (0u32, 0u32), 0);
        let f2 = if rr.0 {
            if mirrored {
                field.push(rr.1).push(mirror_point(caps, rr.1))
            } else {
                field.push(rr.1)
            }
        } else {
            field
        };
        field_attempts(g, p, caps, n_field, mirrored, rr.2, f2, attempts + 1)
    } else {
        (field, st)
    }
}

/// The countryside placed on grid `g` for capitals `caps` from state `st`,
/// and the final state.
pub open spec fn placed_field(
    g: Grid,
    p: int,
    caps: Seq<(u32, u32)>,
    n_field: int,
    mirrored: bool,
    st: u32,
) -> (Seq<(u32, u32)>, u32) {
    field_attempts(g, p, caps, n_field, mirrored, st, Seq::empty(), 0)
}

/// Place up to `n_field` countryside settlements: each round draws
/// `ROUND_CANDIDATES` points and keeps the first best-scoring one that
/// passes (spread to the nearest settlement, less a terrain penalty), plus
/// its mirror point on mirrored maps; at most `MAX_ATTEMPTS` rounds run.
pub fn place_field(
    grid: &Grid,
    rng: &mut Rng,
    p: u32,
    caps: &Vec<(u32, u32)>,
    n_field: usize,
    mirrored: bool,
) -> (field: Vec<(u32, u32)>)
    requires
        grid.wf(),
        2 * CITY_MARGIN < p,
        BORDER_SIZE + p <= MAX_SIDE,
        2 <= caps@.len() <= 4,
        forall|k: int| 0 <= k < caps@.len() ==> inside(#[trigger] caps@[k], p as int, CITY_MARGIN as int),
        n_field <= MAX_FIELD,
        mirrored ==> n_field % 2 == 0,
    ensures
        field@.len() <= n_field,
        field_ok(field@, caps@, p as int, mirrored),
        field@ == placed_field(*grid, p as int, caps@, n_field as int, mirrored, old(rng).state).0,
        final(rng).state == placed_field(
            *grid,
            p as int,
            caps@,
            n_field as int,
            mirrored,
            old(rng).state,
        ).1,
{
    let ghost cs = caps@;
    proof {
        assert forall|k: int| 0 <= k < caps@.len() implies (#[trigger] caps@[k]).0 < MAX_SIDE
            && caps@[k].1 < MAX_SIDE by {
            assert(inside(caps@[k], p as int, CITY_MARGIN as int));
        }
    }
    let sum_x = caps[0].0 as i64 + caps[1].0 as i64;
    let sum_y = caps[0].1 as i64 + caps[1].1 as i64;
    let lo = (BORDER_SIZE + FIELD_MARGIN) as i64;
    let hi = (BORDER_SIZE + p - FIELD_MARGIN) as i64;
    let mut field: Vec<(u32, u32)> = Vec::new();
    let mut attempts: u32 = 0;
    proof {
        assert(field@ =~= Seq::<(u32, u32)>::empty());
    }
    while field.len() < n_field && attempts < MAX_ATTEMPTS
        invariant
            field_attempts(
                *grid,
                p as int,
                cs,
                n_field as int,
                mirrored,
                rng.state,
                field@,
                attempts as int,
            ) == placed_field(*grid, p as int, cs, n_field as int, mirrored, old(rng).state),
            grid.wf(),
            cs == caps@,
            2 * CITY_MARGIN < p,
            BORDER_SIZE + p <= MAX_SIDE,
            2 <= cs.len() <= 4,
            forall|k: int| 0 <= k < cs.len() ==> (#[trigger] cs[k]).0 < MAX_SIDE && cs[k].1 < MAX_SIDE,
            sum_x == cs[0].0 + cs[1].0,
            sum_y == cs[0].1 + cs[1].1,
            lo == BORDER_SIZE + FIELD_MARGIN,
            hi == BORDER_SIZE + p - FIELD_MARGIN,
            n_field <= MAX_FIELD,
            mirrored ==> n_field % 2 == 0,
            field@.len() <= n_field,
            field_ok(field@, cs, p as int, mirrored),
        decreases MAX_ATTEMPTS - attempts,
    {
        let ghost st_a = rng.state;
        let ghost att0 = attempts;
        attempts = attempts + 1;
        proof {
            assert forall|k: int| 0 <= k < field@.len() implies (#[trigger] field@[k]).0 < MAX_SIDE
                && field@[k].1 < MAX_SIDE by {
                assert(inside(field@[k], p as int, FIELD_MARGIN as int));
            }
        }
        let mut has_best = false;
        let mut best: (u32, u32) = (0, 0);
        let mut best_score: i64 = 0;
        let mut round: u32 = 0;
        while round < ROUND_CANDIDATES
            invariant
                grid.wf(),
                cs == caps@,
                2 * CITY_MARGIN < p,
                BORDER_SIZE + p <= MAX_SIDE,
                2 <= cs.len() <= 4,
                forall|k: int| 0 <= k < cs.len() ==> (#[trigger] cs[k]).0 < MAX_SIDE && cs[k].1 < MAX_SIDE,
                forall|k: int| 0 <= k < field@.len() ==> (#[trigger] field@[k]).0 < MAX_SIDE
                    && field@[k].1 < MAX_SIDE,
                sum_x == cs[0].0 + cs[1].0,
                sum_y == cs[0].1 + cs[1].1,
                lo == BORDER_SIZE + FIELD_MARGIN,
                hi == BORDER_SIZE + p - FIELD_MARGIN,
                round <= ROUND_CANDIDATES,
                has_best ==> candidate_ok(field@, cs, p as int, mirrored, best),
                field_round(
                    *grid,
                    p as int,
                    cs,
                    field@,
                    mirrored,
                    rng.state,
                    round as int,
                    has_best,
                    best,
                    best_score as int,
                ) == field_round(*grid, p as int, cs, field@, mirrored, st_a, 0, false, (0u32, 0u32), 0),
            decreases ROUND_CANDIDATES - round,
        {
            let ghost st_r = rng.state;
            let ghost r0 = round;
            let ghost hb0 = has_best;
            let ghost best0 = best;
            let ghost bs0 = best_score;
            let ghost mut ok = false;
            round = round + 1;
            let c = sample(rng, p, FIELD_MARGIN);
            if far_from_all(caps, c, CAPITAL_GAP) && far_from_all(&field, c, MIN_GAP) {
                let mut pass = true;
                if mirrored {
                    let mx = sum_x - c.0 as i64;
                    let my = sum_y - c.1 as i64;
                    if mx < lo || my < lo || mx >= hi || my >= hi {
                        pass = false;
                    } else {
                        let m = (mx as u32, my as u32);
                        if d2(c, m) < MIN_GAP || !(far_from_all(caps, m, CAPITAL_GAP)
                            && far_from_all(&field, m, MIN_GAP)) {
                            pass = false;
                        }
                    }
                }
                if pass {
                    proof {
                        ok = true;
                    }
                    let spread = spread_of(&field, caps, c);
                    let score = spread - damage(grid, c) * 300;
                    proof {
                        assert(score == candidate_score(*grid, field@, cs, c));
                    }
                    if !has_best || score > best_score {
                        has_best = true;
                        best = c;
                        best_score = score;
                    }
                }
            }
            proof {
                assert(c == spec_sample(st_r, p as int, FIELD_MARGIN as int));
                assert(ok == candidate_ok(field@, cs, p as int, mirrored, c));
            }
        }
        if has_best {
            let ghost f0 = field@;
            let c = best;
            field.push(c);
            if mirrored {
                let m = ((sum_x - c.0 as i64) as u32, (sum_y - c.1 as i64) as u32);
                field.push(m);
                proof {
                    assert(field@ =~= f0.push(c).push(m));
                    lemma_d2_symmetric(c, m);
                    assert forall|i: int, j: int|
                        #![trigger field@[i], field@[j]]
                        0 <= i < j < field@.len() implies spec_d2(field@[i], field@[j]) >= MIN_GAP by {
                        if j == f0.len() {
                            lemma_d2_symmetric(f0[i], c);
                            assert(spec_d2(f0[i], c) >= MIN_GAP);
                        } else if j == f0.len() + 1 {
                            if i < f0.len() {
                                assert(spec_d2(f0[i], m) >= MIN_GAP);
                            }
                        } else {
                            assert(field@[i] == f0[i] && field@[j] == f0[j]);
                        }
                    }
                    assert forall|k: int| 0 <= k < field@.len() / 2 implies mirrored_about(
                        cs[0],
                        cs[1],
                        #[trigger] field@[2 * k],
                        field@[2 * k + 1],
                    ) by {
                        if k < f0.len() / 2 {
                            assert(field@[2 * k] == f0[2 * k]);
                            assert(field@[2 * k + 1] == f0[2 * k + 1]);
                        } else {
                            assert(2 * k == f0.len());
                        }
                    }
                    assert forall|i: int| 0 <= i < field@.len() implies far_from(
                        cs,
                        #[trigger] field@[i],
                        CAPITAL_GAP as int,
                    ) by {
                        if i < f0.len() {
                            assert(field@[i] == f0[i]);
                        }
                    }
                    assert forall|i: int| 0 <= i < field@.len() implies inside(
                        #[trigger] field@[i],
                        p as int,
                        FIELD_MARGIN as int,
                    ) by {
                        if i < f0.len() {
                            assert(field@[i] == f0[i]);
                        }
                    }
                }
            } else {
                proof {
                    assert(field@ =~= f0.push(c));
                    assert forall|i: int, j: int|
                        #![trigger field@[i], field@[j]]
                        0 <= i < j < field@.len() implies spec_d2(field@[i], field@[j]) >= MIN_GAP by {
                        if j == f0.len() {
                            lemma_d2_symmetric(f0[i], c);
                            assert(spec_d2(f0[i], c) >= MIN_GAP);
                        } else {
                            assert(field@[i] == f0[i] && field@[j] == f0[j]);
                        }
                    }
                    assert forall|i: int| 0 <= i < field@.len() implies far_from(
                        cs,
                        #[trigger] field@[i],
                        CAPITAL_GAP as int,
                    ) by {
                        if i < f0.len() {
                            assert(field@[i] == f0[i]);
                        }
                    }
                    assert forall|i: int| 0 <= i < field@.len() implies inside(
                        #[trigger] field@[i],
                        p as int,
                        FIELD_MARGIN as int,
                    ) by {
                        if i < f0.len() {
                            assert(field@[i] == f0[i]);
                        }
                    }
                }
            }
        }
    }
    field
}

/// The two opening capitals stand at least 60% of the playable side apart
/// whenever the sampled pool holds any pair that far apart.
pub proof fn law_opening_capitals_far_apart(
    g: Grid,
    pool: Seq<(u32, u32)>,
    p: int,
    ia: int,
    ja: int,
    i: int,
    j: int,
)
    requires
        opening_pair(g, pool, p, ia, ja),
        is_pair(pool.len() as int, i, j),
        spec_d2(pool[i], pool[j]) >= min_separation(p),
    ensures
        spec_d2(pool[ia], pool[ja]) >= min_separation(p),
{
    assert(exists|i2: int, j2: int|
        is_pair(pool.len() as int, i2, j2) && spec_d2(pool[i2], pool[j2]) >= min_separation(p));
}

} // verus!
