//! The opening position of a battle: which capitals each side holds, where
//! its starting army stands, and what the settlement workers do.

use vstd::prelude::*;
use crate::grid::MAX_SIDE;
use crate::unit::{Faction, UnitKind};
use crate::zone::ZoneState;
use crate::mapgen::VillageTheme;

verus! {

/// The starting army, in spawn order: 7 warriors, 4 lancers, 8 archers and
/// 2 monks, interleaved so every production building stays busy.
pub open spec fn wave() -> Seq<UnitKind> {
    seq![
        UnitKind::Warrior,
        UnitKind::Lancer,
        UnitKind::Archer,
        UnitKind::Monk,
        UnitKind::Warrior,
        UnitKind::Lancer,
        UnitKind::Archer,
        UnitKind::Warrior,
        UnitKind::Lancer,
        UnitKind::Archer,
        UnitKind::Monk,
        UnitKind::Warrior,
        UnitKind::Lancer,
        UnitKind::Archer,
        UnitKind::Warrior,
        UnitKind::Archer,
        UnitKind::Warrior,
        UnitKind::Archer,
        UnitKind::Warrior,
        UnitKind::Archer,
        UnitKind::Archer,
    ]
}

/// Number of units in the starting army.
pub const WAVE_SIZE: usize = 21;

/// Unit `i` of the starting army.
pub fn wave_unit(i: usize) -> (r: Option<UnitKind>)
    ensures
        r is Some <==> i < WAVE_SIZE,
        r matches Some(k) ==> k == wave()[i as int],
{
    let w: Vec<UnitKind> = vec![
        UnitKind::Warrior,
        UnitKind::Lancer,
        UnitKind::Archer,
        UnitKind::Monk,
        UnitKind::Warrior,
        UnitKind::Lancer,
        UnitKind::Archer,
        UnitKind::Warrior,
        UnitKind::Lancer,
        UnitKind::Archer,
        UnitKind::Monk,
        UnitKind::Warrior,
        UnitKind::Lancer,
        UnitKind::Archer,
        UnitKind::Warrior,
        UnitKind::Archer,
        UnitKind::Warrior,
        UnitKind::Archer,
        UnitKind::Warrior,
        UnitKind::Archer,
        UnitKind::Archer,
    ];
    proof {
        assert(w@ =~= wave());
    }
    if i < w.len() {
        Some(w[i])
    } else {
        None
    }
}

/// Units of kind `k` among the first `n` of `s`.
pub open spec fn count_kind(s: Seq<UnitKind>, k: UnitKind, n: int) -> int
    decreases n,
{
    if n <= 0 {
        0
    } else {
        count_kind(s, k, n - 1) + if s[n - 1] == k {
            1int
        } else {
            0int
        }
    }
}

/// The starting army holds 7 warriors, 4 lancers, 8 archers and 2 monks.
pub proof fn law_wave_composition()
    ensures
        wave().len() == WAVE_SIZE,
        count_kind(wave(), UnitKind::Warrior, 21) == 7,
        count_kind(wave(), UnitKind::Lancer, 21) == 4,
        count_kind(wave(), UnitKind::Archer, 21) == 8,
        count_kind(wave(), UnitKind::Monk, 21) == 2,
{
    reveal_with_fuel(count_kind, 22);
}

/// Tile where unit `i` of a starting army spawns: rows of five from two
/// tiles left of and one tile above the base center (clamped at the map
/// edge).
pub open spec fn spec_army_spawn_tile(base: (u32, u32), i: int) -> (int, int) {
    let left: int = if base.0 >= 2 {
        base.0 - 2
    } else {
        0
    };
    let top: int = if base.1 >= 1 {
        base.1 - 1
    } else {
        0
    };
    (left + i % 5, top + i / 5)
}

pub fn army_spawn_tile(base: (u32, u32), i: usize) -> (r: (u32, u32))
    requires
        base.0 < MAX_SIDE,
        base.1 < MAX_SIDE,
        i < WAVE_SIZE,
    ensures
        (r.0 as int, r.1 as int) == spec_army_spawn_tile(base, i as int),
{
    let col = (i % 5) as u32;
    let row = (i / 5) as u32;
    (base.0.saturating_sub(2) + col, base.1.saturating_sub(1) + row)
}

/// Zone states at the start: the first zones are the capitals, in the
/// order of the active sides, and each side holds its own; every other zone
/// starts neutral.
pub fn capital_control(n_zones: usize, active: &Vec<Faction>) -> (r: Vec<ZoneState>)
    ensures
        r@.len() == n_zones,
        forall|k: int|
            0 <= k < n_zones ==> #[trigger] r@[k] == if k < active@.len() {
                ZoneState::Controlled(active@[k])
            } else {
                ZoneState::Neutral
            },
{
    let mut r: Vec<ZoneState> = Vec::new();
    let mut k: usize = 0;
    while k < n_zones
        invariant
            k <= n_zones,
            r@.len() == k,
            forall|j: int|
                0 <= j < k ==> #[trigger] r@[j] == if j < active@.len() {
                    ZoneState::Controlled(active@[j])
                } else {
                    ZoneState::Neutral
                },
        decreases n_zones - k,
    {
        if k < active.len() {
            r.push(ZoneState::Controlled(active[k]));
        } else {
            r.push(ZoneState::Neutral);
        }
        k = k + 1;
    }
    r
}

/// Work of a settlement's worker pawn.
#[derive(Clone, Copy, Debug, PartialEq, Eq, Structural)]
pub enum PawnJob {
    Mine,
    Chop,
    Herd,
}

pub open spec fn spec_pawn_job(theme: VillageTheme) -> PawnJob {
    match theme {
        VillageTheme::Gold => PawnJob::Mine,
        VillageTheme::Wood => PawnJob::Chop,
        VillageTheme::Meat => PawnJob::Herd,
    }
}

/// Gold settlements mine, wood settlements chop, meat settlements herd.
pub fn pawn_job(theme: VillageTheme) -> (r: PawnJob)
    ensures
        r == spec_pawn_job(theme),
{
    match theme {
        VillageTheme::Gold => PawnJob::Mine,
        VillageTheme::Wood => PawnJob::Chop,
        VillageTheme::Meat => PawnJob::Herd,
    }
}

/// The themes of `ts` in the order they first appear, each once.
pub open spec fn first_occurrences(ts: Seq<VillageTheme>) -> Seq<VillageTheme>
    decreases ts.len(),
{
    if ts.len() == 0 {
        Seq::empty()
    } else {
        let rest = first_occurrences(ts.drop_last());
        if rest.contains(ts.last()) {
            rest
        } else {
            rest.push(ts.last())
        }
    }
}

/// The distinct resource themes of a settlement, in order of first
/// appearance.
pub fn distinct_themes(ts: &Vec<VillageTheme>) -> (r: Vec<VillageTheme>)
    ensures
        r@ == first_occurrences(ts@),
{
    let mut r: Vec<VillageTheme> = Vec::new();
    let mut i: usize = 0;
    while i < ts.len()
        invariant
            i <= ts@.len(),
            r@ == first_occurrences(ts@.take(i as int)),
        decreases ts@.len() - i,
    {
        proof {
            assert(ts@.take(i + 1).drop_last() =~= ts@.take(i as int));
        }
        let t = ts[i];
        let mut seen = false;
        let mut j: usize = 0;
        while j < r.len()
            invariant
                j <= r@.len(),
                seen == r@.take(j as int).contains(t),
            decreases r@.len() - j,
        {
            proof {
                let a = r@.take(j as int);
                let b = r@.take(j + 1);
                assert(b =~= a.push(r@[j as int]));
                if a.contains(t) {
                    let k = choose|k: int| 0 <= k < a.len() && a[k] == t;
                    assert(b[k] == t);
                }
                if r@[j as int] == t {
                    assert(b[j as int] == t);
                }
                if b.contains(t) {
                    let k = choose|k: int| 0 <= k < b.len() && b[k] == t;
                    if k < j {
                        assert(a[k] == t);
                    }
                }
            }
            if r[j] == t {
                seen = true;
            }
            j = j + 1;
        }
        proof {
            assert(r@.take(r@.len() as int) =~= r@);
        }
        if !seen {
            r.push(t);
        }
        i = i + 1;
    }
    proof {
        assert(ts@.take(ts@.len() as int) =~= ts@);
    }
    r
}

/// The theme a settlement's `house_no`-th worker serves: its resource
/// themes take turns, and a settlement without resources works its own
/// theme.
pub fn worker_theme(themes: &Vec<VillageTheme>, fallback: VillageTheme, house_no: usize) -> (r:
    VillageTheme)
    ensures
        r == if themes@.len() == 0 {
            fallback
        } else {
            themes@[house_no as int % themes@.len() as int]
        },
{
    if themes.len() == 0 {
        fallback
    } else {
        themes[house_no % themes.len()]
    }
}

/// One step of the linear congruential sequence that seeds spawned pawns
/// and sheep.
pub fn spawn_seed_next(s: u32) -> (r: u32)
    ensures
        r == vstd::wrapping::u32_specs::wrapping_add(
            vstd::wrapping::u32_specs::wrapping_mul(s, 1103515245u32),
            12345u32,
        ),
{
    s.wrapping_mul(1103515245).wrapping_add(12345)
}

/// First seed of the sheep sequence of settlement `zone_idx` on a map seeded
/// `seed`.
pub fn village_sheep_seed(seed: u32, zone_idx: u8) -> (r: u32)
    ensures
        r == vstd::wrapping::u32_specs::wrapping_add(
            vstd::wrapping::u32_specs::wrapping_mul(seed, 0x0065_B0A5u32),
            zone_idx as u32,
        ),
{
    seed.wrapping_mul(0x0065_B0A5).wrapping_add(zone_idx as u32)
}

} // verus!
