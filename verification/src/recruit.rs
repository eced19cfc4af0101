//! The recruit economy: which settlements raise recruits, whether a side
//! has room for one more, and which production building a new recruit
//! walks to.

use vstd::prelude::*;
use crate::unit::{Faction, UnitKind};
use crate::zone::ZoneState;

verus! {

/// The side that raises recruits at a settlement: its owner while it is
/// held, the villagers while it is neutral, nobody while it is embattled.
pub open spec fn spec_recruit_faction(state: ZoneState) -> Option<Faction> {
    match state {
        ZoneState::Controlled(f) => Some(f),
        ZoneState::Neutral => Some(Faction::Villager),
        _ => None,
    }
}

pub fn recruit_faction(state: ZoneState) -> (r: Option<Faction>)
    ensures
        r == spec_recruit_faction(state),
{
    match state {
        ZoneState::Controlled(f) => Some(f),
        ZoneState::Neutral => Some(Faction::Villager),
        _ => None,
    }
}

/// Room for one more recruit of `faction`. An army counts its living
/// soldiers and the recruits already walking against the army cap; the
/// villagers count the settlement's own militia and its walking recruits
/// against the settlement's garrison cap.
pub open spec fn spec_recruit_headroom(
    faction: Faction,
    army_units: int,
    inflight_pool: int,
    max_units: int,
    local_militia: int,
    inflight_zone: int,
    garrison_cap: int,
) -> bool {
    match faction.spec_army_idx() {
        Some(_) => army_units + inflight_pool < max_units,
        None => local_militia + inflight_zone < garrison_cap,
    }
}

pub fn recruit_headroom(
    faction: Faction,
    army_units: usize,
    inflight_pool: usize,
    max_units: usize,
    local_militia: usize,
    inflight_zone: usize,
    garrison_cap: usize,
) -> (r: bool)
    ensures
        r == spec_recruit_headroom(
            faction,
            army_units as int,
            inflight_pool as int,
            max_units as int,
            local_militia as int,
            inflight_zone as int,
            garrison_cap as int,
        ),
{
    match faction.army_idx() {
        Some(_) => army_units < max_units && inflight_pool < max_units - army_units,
        None => local_militia < garrison_cap && inflight_zone < garrison_cap - local_militia,
    }
}

/// The buildings, in order, whose unit's conversion cost the pool can pay.
pub open spec fn affordable_targets(prod: Seq<(usize, UnitKind)>, affordable: Seq<bool>) -> Seq<
    usize,
>
    decreases prod.len(),
{
    if prod.len() == 0 {
        Seq::empty()
    } else {
        let rest = affordable_targets(prod.drop_last(), affordable.drop_last());
        if affordable.last() {
            rest.push(prod.last().0)
        } else {
            rest
        }
    }
}

/// The building a house of a settlement in state `owner` sends its next
/// recruit to, or none. Nobody is raised while the settlement is embattled,
/// while its side has no meat or no headroom, while it has no production
/// building or already twice as many recruits walking as it has production
/// buildings, or while no production building's unit is affordable.
/// Otherwise the affordable buildings take turns by the round-robin
/// counter `rr`.
pub open spec fn spec_pick_recruit(
    owner: ZoneState,
    meat: u32,
    headroom_ok: bool,
    prod: Seq<(usize, UnitKind)>,
    affordable: Seq<bool>,
    inflight_zone: int,
    rr: int,
) -> Option<usize> {
    let targets = affordable_targets(prod, affordable);
    if spec_recruit_faction(owner) is None || meat == 0 || !headroom_ok || prod.len() == 0
        || inflight_zone >= 2 * prod.len() || targets.len() == 0 {
        None
    } else {
        Some(targets[rr % (targets.len() as int)])
    }
}

/// Pick the production building for a settlement's next recruit.
/// `prod` lists the settlement's production buildings (building index and
/// the unit it trains), `affordable` whether each one's unit can be paid
/// for, `inflight_zone` the recruits already walking in the settlement and
/// `rr` its round-robin counter.
pub fn pick_recruit(
    owner: ZoneState,
    meat: u32,
    headroom_ok: bool,
    prod: &Vec<(usize, UnitKind)>,
    affordable: &Vec<bool>,
    inflight_zone: usize,
    rr: u32,
) -> (r: Option<usize>)
    requires
        prod@.len() == affordable@.len(),
    ensures
        r == spec_pick_recruit(
            owner,
            meat,
            headroom_ok,
            prod@,
            affordable@,
            inflight_zone as int,
            rr as int,
        ),
{
    if recruit_faction(owner).is_none() || meat == 0 || !headroom_ok || prod.len() == 0 {
        return None;
    }
    if inflight_zone / 2 >= prod.len() {
        return None;
    }
    let mut targets: Vec<usize> = Vec::new();
    let mut i: usize = 0;
    while i < prod.len()
        invariant
            prod@.len() == affordable@.len(),
            i <= prod@.len(),
            targets@ == affordable_targets(prod@.take(i as int), affordable@.take(i as int)),
            targets@.len() <= i,
        decreases prod@.len() - i,
    {
        proof {
            assert(prod@.take(i + 1).drop_last() =~= prod@.take(i as int));
            assert(affordable@.take(i + 1).drop_last() =~= affordable@.take(i as int));
        }
        if affordable[i] {
            targets.push(prod[i].0);
        }
        i = i + 1;
    }
    proof {
        assert(prod@.take(prod@.len() as int) =~= prod@);
        assert(affordable@.take(affordable@.len() as int) =~= affordable@);
    }
    if targets.len() == 0 {
        return None;
    }
    let pick = rr as usize % targets.len();
    Some(targets[pick])
}

/// Raising a recruit spends one meat and advances the round-robin counter,
/// wrapping at the counter's range.
pub fn spend_recruit(meat: u32, rr: u32) -> (r: (u32, u32))
    requires
        meat > 0,
    ensures
        r.0 == meat - 1,
        r.1 == (if rr == u32::MAX {
            0
        } else {
            rr + 1
        }),
{
    (meat - 1, rr.wrapping_add(1))
}

} // verus!
