//! Units: factions, kinds, per-kind stats and the few state changes that
//! combat performs on a unit.

use vstd::prelude::*;

verus! {

/// Side a unit fights for: the four armies, and the villagers who hold
/// neutral settlements.
#[derive(Clone, Copy, Debug, PartialEq, Eq, Structural)]
pub enum Faction {
    Blue,
    Red,
    Yellow,
    Purple,
    Villager,
}

impl Faction {
    pub open spec fn spec_army_idx(self) -> Option<usize> {
        match self {
            Faction::Blue => Some(0usize),
            Faction::Red => Some(1usize),
            Faction::Yellow => Some(2usize),
            Faction::Purple => Some(3usize),
            Faction::Villager => None,
        }
    }

    /// Slot of an army in per-army tables; villagers field no army.
    pub fn army_idx(self) -> (r: Option<usize>)
        ensures
            r == self.spec_army_idx(),
    {
        match self {
            Faction::Blue => Some(0),
            Faction::Red => Some(1),
            Faction::Yellow => Some(2),
            Faction::Purple => Some(3),
            Faction::Villager => None,
        }
    }

    pub open spec fn spec_pool_idx(self) -> usize {
        match self {
            Faction::Blue => 0usize,
            Faction::Red => 1usize,
            Faction::Yellow => 2usize,
            Faction::Purple => 3usize,
            Faction::Villager => 4usize,
        }
    }

    /// Slot of a faction's resource pool: the armies, then the shared
    /// villager pool.
    pub fn pool_idx(self) -> (r: usize)
        ensures
            r == self.spec_pool_idx(),
    {
        match self {
            Faction::Blue => 0,
            Faction::Red => 1,
            Faction::Yellow => 2,
            Faction::Purple => 3,
            Faction::Villager => 4,
        }
    }
}

/// The two sides of a two-army battle, the only ones the banner and
/// building art is drawn for.
pub open spec fn two_sided(f: Faction) -> bool {
    f is Blue || f is Red
}

/// Unit type.
#[derive(Clone, Copy, Debug, PartialEq, Eq, Structural)]
pub enum UnitKind {
    Warrior,
    Archer,
    Lancer,
    Monk,
}

/// Animation a unit is playing.
#[derive(Clone, Copy, Debug, PartialEq, Eq, Structural)]
pub enum UnitAnim {
    Idle,
    Run,
    Attack,
    Attack2,
}

/// Standing order given to a follower (the targets it carries are positions
/// in world space, which the headless logic does not read).
#[derive(Clone, Copy, Debug, PartialEq, Eq, Structural)]
pub enum OrderKind {
    Follow,
    Charge,
    Defend,
}

/// Fighting statistics of a unit.
#[derive(Clone, Copy, Debug, PartialEq, Eq, Structural)]
pub struct UnitStats {
    pub max_hp: i32,
    pub atk: i32,
    pub def: i32,
    /// Attack reach in tiles.
    pub range: u32,
    /// Pause after an attack, in milliseconds.
    pub cooldown_ms: u32,
}

/// Largest magnitude a stat may take. Combat works in `i32`: attack minus
/// defense minus the terrain bonus, HP minus damage, HP plus a heal. Under
/// this bound none of them can leave the `i32` range, where the unbounded
/// stats of a hand-built unit could overflow; the stat table itself stays
/// below 13.
pub const STAT_LIMIT: i32 = 1_000_000;

impl UnitStats {
    pub open spec fn wf(&self) -> bool {
        &&& 1 <= self.max_hp <= STAT_LIMIT
        &&& -STAT_LIMIT <= self.atk <= STAT_LIMIT
        &&& -STAT_LIMIT <= self.def <= STAT_LIMIT
    }
}

impl UnitKind {
    pub open spec fn spec_stats(self) -> UnitStats {
        match self {
            UnitKind::Warrior => UnitStats { max_hp: 10, atk: 3, def: 3, range: 1, cooldown_ms: 800 },
            UnitKind::Archer => UnitStats { max_hp: 6, atk: 2, def: 1, range: 5, cooldown_ms: 550 },
            UnitKind::Lancer => UnitStats { max_hp: 12, atk: 4, def: 2, range: 1, cooldown_ms: 1000 },
            UnitKind::Monk => UnitStats { max_hp: 6, atk: 0, def: 1, range: 3, cooldown_ms: 1200 },
        }
    }

    /// Base stats of the kind.
    pub fn stats(self) -> (s: UnitStats)
        ensures
            s == self.spec_stats(),
            s.wf(),
    {
        match self {
            UnitKind::Warrior => UnitStats { max_hp: 10, atk: 3, def: 3, range: 1, cooldown_ms: 800 },
            UnitKind::Archer => UnitStats { max_hp: 6, atk: 2, def: 1, range: 5, cooldown_ms: 550 },
            UnitKind::Lancer => UnitStats { max_hp: 12, atk: 4, def: 2, range: 1, cooldown_ms: 1000 },
            UnitKind::Monk => UnitStats { max_hp: 6, atk: 0, def: 1, range: 3, cooldown_ms: 1200 },
        }
    }

    pub open spec fn spec_frame_size(self) -> u32 {
        match self {
            UnitKind::Lancer => 320u32,
            _ => 192u32,
        }
    }

    /// Side length of one animation frame of the kind's sprite sheets, in pixels.
    pub fn frame_size(self) -> (r: u32)
        ensures
            r == self.spec_frame_size(),
    {
        match self {
            UnitKind::Lancer => 320,
            _ => 192,
        }
    }
}

/// A unit on the battlefield.
pub struct Unit {
    pub id: u32,
    pub kind: UnitKind,
    pub faction: Faction,
    pub is_player: bool,
    pub hp: i32,
    pub alive: bool,
    pub stats: UnitStats,
    /// Grid cell the unit stands on.
    pub grid_x: u32,
    pub grid_y: u32,
    pub anim: UnitAnim,
    /// Remaining attack cooldown in milliseconds.
    pub attack_cooldown_ms: u32,
    /// Warriors alternate their two swings; true when the next swing is the second one.
    pub second_swing: bool,
}

impl Unit {
    pub open spec fn wf(&self) -> bool {
        &&& self.stats.wf()
        &&& 0 <= self.hp <= self.stats.max_hp
        &&& self.alive == (self.hp > 0)
    }

    /// A fresh unit of the given kind at full health, standing idle at `(x, y)`.
    pub fn new(id: u32, kind: UnitKind, faction: Faction, x: u32, y: u32, is_player: bool) -> (u:
        Unit)
        ensures
            u.wf(),
            u.id == id,
            u.kind == kind,
            u.faction == faction,
            u.is_player == is_player,
            u.stats == kind.spec_stats(),
            u.hp == kind.spec_stats().max_hp,
            u.alive,
            u.grid_x == x,
            u.grid_y == y,
            u.anim == UnitAnim::Idle,
            u.attack_cooldown_ms == 0,
            !u.second_swing,
    {
        let stats = kind.stats();
        Unit {
            id,
            kind,
            faction,
            is_player,
            hp: stats.max_hp,
            alive: true,
            stats,
            grid_x: x,
            grid_y: y,
            anim: UnitAnim::Idle,
            attack_cooldown_ms: 0,
            second_swing: false,
        }
    }

    /// Grid cell the unit occupies.
    pub fn grid_cell(&self) -> (c: (u32, u32))
        ensures
            c == (self.grid_x, self.grid_y),
    {
        (self.grid_x, self.grid_y)
    }

    /// Lose `damage` hit points (never below zero); the unit dies at zero.
    pub fn take_damage(&mut self, damage: i32)
        requires
            old(self).wf(),
            0 <= damage,
        ensures
            final(self).wf(),
            final(self).hp == if old(self).hp - damage > 0 {
                old(self).hp - damage
            } else {
                0
            },
            final(self).stats == old(self).stats,
            final(self).kind == old(self).kind,
            final(self).faction == old(self).faction,
            final(self).id == old(self).id,
            final(self).grid_x == old(self).grid_x,
            final(self).grid_y == old(self).grid_y,
    {
        if self.hp - damage > 0 {
            self.hp = self.hp - damage;
        } else {
            self.hp = 0;
            self.alive = false;
        }
    }

    /// Begin the pause after an attack.
    pub fn start_attack_cooldown(&mut self)
        ensures
            final(self).attack_cooldown_ms == old(self).stats.cooldown_ms,
            final(self).hp == old(self).hp,
            final(self).alive == old(self).alive,
            final(self).stats == old(self).stats,
            final(self).kind == old(self).kind,
            final(self).faction == old(self).faction,
            final(self).id == old(self).id,
            final(self).grid_x == old(self).grid_x,
            final(self).grid_y == old(self).grid_y,
            final(self).anim == old(self).anim,
            final(self).second_swing == old(self).second_swing,
    {
        self.attack_cooldown_ms = self.stats.cooldown_ms;
    }

    /// The attack animation of the next swing: warriors alternate their two
    /// swings, every other kind has one.
    pub fn next_attack_anim(&mut self) -> (a: UnitAnim)
        ensures
            a == if old(self).kind == UnitKind::Warrior && old(self).second_swing {
                UnitAnim::Attack2
            } else {
                UnitAnim::Attack
            },
            final(self).second_swing == (old(self).kind == UnitKind::Warrior
                && !old(self).second_swing),
            final(self).attack_cooldown_ms == old(self).attack_cooldown_ms,
            final(self).hp == old(self).hp,
            final(self).alive == old(self).alive,
            final(self).stats == old(self).stats,
            final(self).kind == old(self).kind,
            final(self).faction == old(self).faction,
            final(self).id == old(self).id,
            final(self).grid_x == old(self).grid_x,
            final(self).grid_y == old(self).grid_y,
            final(self).anim == old(self).anim,
    {
        if self.kind == UnitKind::Warrior {
            let second = self.second_swing;
            self.second_swing = !second;
            if second {
                UnitAnim::Attack2
            } else {
                UnitAnim::Attack
            }
        } else {
            self.second_swing = false;
            UnitAnim::Attack
        }
    }

    pub fn set_anim(&mut self, anim: UnitAnim)
        ensures
            final(self).anim == anim,
            final(self).attack_cooldown_ms == old(self).attack_cooldown_ms,
            final(self).second_swing == old(self).second_swing,
            final(self).hp == old(self).hp,
            final(self).alive == old(self).alive,
            final(self).stats == old(self).stats,
            final(self).kind == old(self).kind,
            final(self).faction == old(self).faction,
            final(self).id == old(self).id,
            final(self).grid_x == old(self).grid_x,
            final(self).grid_y == old(self).grid_y,
    {
        self.anim = anim;
    }
}

} // verus!
