//! Capture-zone state and settlement tiers.

use vstd::prelude::*;
use crate::unit::Faction;

verus! {

/// Control state of a capture zone.
#[derive(Clone, Copy, Debug, PartialEq, Eq, Structural)]
pub enum ZoneState {
    Neutral,
    Contested,
    Capturing(Faction),
    Controlled(Faction),
}

/// Size class of the settlement at a zone.
#[derive(Clone, Copy, Debug, PartialEq, Eq, Structural)]
pub enum SettlementTier {
    City,
    Town,
    Village,
    Hamlet,
}

impl SettlementTier {
    pub open spec fn spec_production_count(self) -> usize {
        match self {
            SettlementTier::City => 3usize,
            SettlementTier::Town => 3usize,
            SettlementTier::Village => 2usize,
            SettlementTier::Hamlet => 1usize,
        }
    }

    /// Number of production buildings a settlement of this tier plans.
    pub fn production_count(self) -> (n: usize)
        ensures
            n == self.spec_production_count(),
    {
        match self {
            SettlementTier::City => 3,
            SettlementTier::Town => 3,
            SettlementTier::Village => 2,
            SettlementTier::Hamlet => 1,
        }
    }

    pub open spec fn spec_house_count(self, roll: u32) -> u32 {
        match self {
            SettlementTier::City => 0u32,
            SettlementTier::Town => (4 + roll % 3) as u32,
            SettlementTier::Village => (3 + roll % 2) as u32,
            SettlementTier::Hamlet => (2 + roll % 2) as u32,
        }
    }

    /// Number of houses a settlement plans, varied by a random roll.
    pub fn house_count(self, roll: u32) -> (n: u32)
        ensures
            n == self.spec_house_count(roll),
    {
        match self {
            SettlementTier::City => 0,
            SettlementTier::Town => 4 + roll % 3,
            SettlementTier::Village => 3 + roll % 2,
            SettlementTier::Hamlet => 2 + roll % 2,
        }
    }
}

} // verus!
