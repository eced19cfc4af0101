//! Damage and healing arithmetic shared by melee, ranged and monk actions.

use vstd::prelude::*;
use crate::grid::{Grid, TileKind};
use crate::unit::{Unit, UnitKind, UnitAnim};

verus! {

/// Result of a combat action.
#[derive(Debug, PartialEq, Eq, Structural)]
pub struct CombatResult {
    pub damage: i32,
    pub target_killed: bool,
}

/// `max(1, atk - def - terrain)`: every hit lands for at least one point.
pub open spec fn spec_damage(atk: int, def: int, terrain: int) -> int {
    if atk - def - terrain > 1 {
        atk - def - terrain
    } else {
        1
    }
}

/// Damage the attacker deals to the defender, given the terrain the defender stands on.
pub open spec fn spec_hit(attacker: Unit, defender: Unit, grid: Grid) -> int {
    spec_damage(
        attacker.stats.atk as int,
        defender.stats.def as int,
        grid.tile(defender.grid_x as int, defender.grid_y as int).spec_defense_bonus() as int,
    )
}

/// A hit lands for the attacker's ATK less the defender's DEF, less one more
/// point when the defender stands in forest, and never for less than one.
pub proof fn law_hit_formula(attacker: Unit, defender: Unit, grid: Grid)
    ensures
        ({
            let raw = attacker.stats.atk as int - defender.stats.def as int - if grid.tile(
                defender.grid_x as int,
                defender.grid_y as int,
            ) == TileKind::Forest {
                1int
            } else {
                0int
            };
            &&& spec_hit(attacker, defender, grid) >= 1
            &&& raw >= 1 ==> spec_hit(attacker, defender, grid) == raw
            &&& raw < 1 ==> spec_hit(attacker, defender, grid) == 1
        }),
{
}

/// Forest cover takes exactly one point off a hit, once, down to the
/// one-point floor: the same attacker hitting the same defender does
/// `max(1, h - 1)` in forest where it does `h` on grass.
pub proof fn law_forest_cover_once(attacker: Unit, defender: Unit, open: Grid, wooded: Grid)
    requires
        open.tile(defender.grid_x as int, defender.grid_y as int) == TileKind::Grass,
        wooded.tile(defender.grid_x as int, defender.grid_y as int) == TileKind::Forest,
    ensures
        spec_hit(attacker, defender, wooded) == if spec_hit(attacker, defender, open) > 1 {
            spec_hit(attacker, defender, open) - 1
        } else {
            1
        },
{
}

/// One more point of attack adds one point to a hit above the floor, and one
/// more point of defence takes one away.
pub proof fn law_hit_tracks_stats(atk: int, def: int, terrain: int)
    requires
        0 <= terrain <= 1,
        atk - def - terrain >= 1,
    ensures
        spec_damage(atk + 1, def, terrain) == spec_damage(atk, def, terrain) + 1,
        atk - def - terrain >= 2 ==> spec_damage(atk, def + 1, terrain) == spec_damage(atk, def, terrain)
            - 1,
{
}

/// HP restored by a heal of strength `base_heal`: capped by the target's missing HP.
pub open spec fn spec_heal_amount(base_heal: int, hp: int, max_hp: int) -> int {
    if base_heal < max_hp - hp {
        base_heal
    } else {
        max_hp - hp
    }
}

/// A heal tops the target up by `base_heal`, but never past its maximum HP:
/// the target ends at the smaller of its HP plus the heal and its maximum.
pub proof fn law_heal_caps_at_max(base_heal: int, hp: int, max_hp: int)
    requires
        0 <= base_heal,
        hp <= max_hp,
    ensures
        hp + spec_heal_amount(base_heal, hp, max_hp) <= max_hp,
        hp + base_heal <= max_hp ==> hp + spec_heal_amount(base_heal, hp, max_hp) == hp + base_heal,
        hp + base_heal > max_hp ==> hp + spec_heal_amount(base_heal, hp, max_hp) == max_hp,
        0 <= spec_heal_amount(base_heal, hp, max_hp) <= base_heal,
{
}

fn damage_formula(atk: i32, def: i32, terrain: i32) -> (d: i32)
    requires
        -crate::unit::STAT_LIMIT <= atk <= crate::unit::STAT_LIMIT,
        -crate::unit::STAT_LIMIT <= def <= crate::unit::STAT_LIMIT,
        0 <= terrain <= 1,
    ensures
        d == spec_damage(atk as int, def as int, terrain as int),
        d >= 1,
{
    let raw = atk - def - terrain;
    if raw > 1 {
        raw
    } else {
        1
    }
}

/// Melee damage: `max(1, ATK - DEF - terrain defense)`.
pub fn calc_melee_damage(attacker: &Unit, defender: &Unit, grid: &Grid) -> (d: i32)
    requires
        attacker.wf(),
        defender.wf(),
        grid.wf(),
        grid.in_grid(defender.grid_x as int, defender.grid_y as int),
    ensures
        d == spec_hit(*attacker, *defender, *grid),
        d >= 1,
{
    let (dx, dy) = defender.grid_cell();
    let terrain_def = grid.get(dx, dy).defense_bonus();
    damage_formula(attacker.stats.atk, defender.stats.def, terrain_def)
}

/// Ranged damage: the same formula as melee.
pub fn calc_ranged_damage(attacker: &Unit, defender: &Unit, grid: &Grid) -> (d: i32)
    requires
        attacker.wf(),
        defender.wf(),
        grid.wf(),
        grid.in_grid(defender.grid_x as int, defender.grid_y as int),
    ensures
        d == spec_hit(*attacker, *defender, *grid),
        d >= 1,
{
    let (dx, dy) = defender.grid_cell();
    let terrain_def = grid.get(dx, dy).defense_bonus();
    damage_formula(attacker.stats.atk, defender.stats.def, terrain_def)
}

/// Resolve one melee attack: the defender loses the melee damage, the
/// attacker starts its cooldown and plays its next attack animation.
pub fn execute_melee(attacker: &mut Unit, defender: &mut Unit, grid: &Grid) -> (r: CombatResult)
    requires
        old(attacker).wf(),
        old(defender).wf(),
        grid.wf(),
        grid.in_grid(old(defender).grid_x as int, old(defender).grid_y as int),
    ensures
        r.damage == spec_hit(*old(attacker), *old(defender), *grid),
        final(defender).wf(),
        final(defender).hp == if old(defender).hp - r.damage > 0 {
            old(defender).hp - r.damage
        } else {
            0
        },
        r.target_killed == !final(defender).alive,
        r.target_killed == (old(defender).hp <= r.damage),
        final(attacker).wf(),
        final(attacker).hp == old(attacker).hp,
        final(attacker).attack_cooldown_ms == old(attacker).stats.cooldown_ms,
        final(attacker).anim == if old(attacker).kind == UnitKind::Warrior
            && old(attacker).second_swing {
            UnitAnim::Attack2
        } else {
            UnitAnim::Attack
        },
{
    let damage = calc_melee_damage(attacker, defender, grid);
    defender.take_damage(damage);
    attacker.start_attack_cooldown();
    let anim = attacker.next_attack_anim();
    attacker.set_anim(anim);
    CombatResult { damage, target_killed: !defender.alive }
}

/// Heal an ally by `base_heal`, never above its maximum HP. The healer starts
/// its cooldown and plays its attack animation. Returns the HP restored; a
/// negative `base_heal` takes that much HP away and leaves the target's
/// `alive` flag as it was.
pub fn execute_heal(healer: &mut Unit, target: &mut Unit, base_heal: i32) -> (healed: i32)
    requires
        old(healer).wf(),
        old(target).wf(),
    ensures
        healed == spec_heal_amount(
            base_heal as int,
            old(target).hp as int,
            old(target).stats.max_hp as int,
        ),
        final(target).hp == old(target).hp + healed,
        final(target).stats == old(target).stats,
        final(target).alive == old(target).alive,
        final(healer).wf(),
        final(healer).hp == old(healer).hp,
        final(healer).attack_cooldown_ms == old(healer).stats.cooldown_ms,
        final(healer).anim == if old(healer).kind == UnitKind::Warrior && old(healer).second_swing {
            UnitAnim::Attack2
        } else {
            UnitAnim::Attack
        },
{
    let missing = target.stats.max_hp - target.hp;
    let heal_amount = if base_heal < missing {
        base_heal
    } else {
        missing
    };
    target.hp = target.hp + heal_amount;
    healer.start_attack_cooldown();
    let anim = healer.next_attack_anim();
    healer.set_anim(anim);
    heal_amount
}

} // verus!
