//! Ruleset sanity checks, run on every load so that a mistyped number is
//! reported by name instead of surfacing turns later as a strange result.

use crate::rules::{
    contains_tile_kind, contains_unit_kind, Ruleset, ScalingCost, TileKind, UnitKind,
    RULESET_VERSION,
};
use vstd::prelude::*;
use vstd::string::*;

verus! {

/// Why a ruleset was refused.
#[allow(inconsistent_fields)]
#[derive(Debug, Clone, PartialEq, Eq)]
pub enum RulesetError {
    Parse(String),
    Version { found: u32, expected: u32 },
    MissingTileYield(TileKind),
    TownYieldMisplaced,
    MissingUnitProfile(UnitKind),
    StarvationPriority { found: Vec<UnitKind> },
    OutOfRange { field: String, min: i64, max: i64, found: i64 },
    Negative { field: String, found: i32 },
    RelocateOntoCapital,
    SelfUpgrade(UnitKind),
}

/// The numbers that must lie within a closed range.
#[derive(Debug, Clone, Copy, PartialEq, Eq, Structural)]
pub enum RangedField {
    TownWheatCost,
    CapitalLootPercent,
    ForestSpreadPercent,
    DominanceThresholdPercent,
    DominanceTurns,
}

/// The numbers that must not be negative. Costs are numbered in the order
/// recruit, warrior upgrade, knight upgrade, town, field.
#[derive(Debug, Clone, Copy, PartialEq, Eq, Structural)]
pub enum SignedField {
    TownGoldYield,
    StartingWheat,
    StartingGold,
    CostBase(u8),
    CostPerExisting(u8),
}

/// The first problem a ruleset has, as [`Ruleset::validate`] reports it.
#[derive(Debug, Clone, Copy, PartialEq, Eq, Structural)]
pub enum RuleFault {
    Version,
    TownYieldMisplaced,
    MissingTileYield(TileKind),
    OutOfRange(RangedField),
    Negative(SignedField),
    MissingUnitProfile(UnitKind),
    SelfUpgrade(UnitKind),
    StarvationPriority,
    RelocateOntoCapital,
}

pub open spec fn ranged_name(f: RangedField) -> Seq<char> {
    match f {
        RangedField::TownWheatCost => "economy.town.wheat_cost"@,
        RangedField::CapitalLootPercent => "territory.capital_loot_percent"@,
        RangedField::ForestSpreadPercent => "growth.forest_spread_percent"@,
        RangedField::DominanceThresholdPercent => "victory.dominance_threshold_percent"@,
        RangedField::DominanceTurns => "victory.dominance_turns"@,
    }
}

pub open spec fn ranged_bounds(f: RangedField) -> (int, int) {
    match f {
        RangedField::TownWheatCost => (1, 1000),
        RangedField::CapitalLootPercent => (0, 100),
        RangedField::ForestSpreadPercent => (0, 100),
        RangedField::DominanceThresholdPercent => (1, 100),
        RangedField::DominanceTurns => (1, 10000),
    }
}

pub open spec fn ranged_value(r: Ruleset, f: RangedField) -> int {
    match f {
        RangedField::TownWheatCost => r.economy.town.wheat_cost as int,
        RangedField::CapitalLootPercent => r.territory.capital_loot_percent as int,
        RangedField::ForestSpreadPercent => r.growth.forest_spread_percent as int,
        RangedField::DominanceThresholdPercent => r.victory.dominance_threshold_percent as int,
        RangedField::DominanceTurns => r.victory.dominance_turns as int,
    }
}

pub open spec fn in_bounds(r: Ruleset, f: RangedField) -> bool {
    ranged_bounds(f).0 <= ranged_value(r, f) <= ranged_bounds(f).1
}

/// The five scaling costs, in the order they are checked.
pub open spec fn cost_by_index(r: Ruleset, i: int) -> ScalingCost {
    if i == 0 {
        r.costs.recruit_pawn
    } else if i == 1 {
        r.costs.upgrade_warrior
    } else if i == 2 {
        r.costs.upgrade_knight
    } else if i == 3 {
        r.costs.build_town
    } else {
        r.costs.build_field
    }
}

pub open spec fn cost_name(i: int) -> Seq<char> {
    if i == 0 {
        "costs.recruit_pawn"@
    } else if i == 1 {
        "costs.upgrade_warrior"@
    } else if i == 2 {
        "costs.upgrade_knight"@
    } else if i == 3 {
        "costs.build_town"@
    } else {
        "costs.build_field"@
    }
}

pub open spec fn signed_name(f: SignedField) -> Seq<char> {
    match f {
        SignedField::TownGoldYield => "economy.town.gold_yield"@,
        SignedField::StartingWheat => "economy.starting_wheat"@,
        SignedField::StartingGold => "economy.starting_gold"@,
        SignedField::CostBase(i) => cost_name(i as int) + ".base"@,
        SignedField::CostPerExisting(i) => cost_name(i as int) + ".per_existing"@,
    }
}

pub open spec fn signed_value(r: Ruleset, f: SignedField) -> i32 {
    match f {
        SignedField::TownGoldYield => r.economy.town.gold_yield,
        SignedField::StartingWheat => r.economy.starting_wheat,
        SignedField::StartingGold => r.economy.starting_gold,
        SignedField::CostBase(i) => cost_by_index(r, i as int).base,
        SignedField::CostPerExisting(i) => cost_by_index(r, i as int).per_existing,
    }
}

/// The first negative cost number, scanning costs in order, base before
/// per-existing.
pub open spec fn cost_fault(r: Ruleset, from: int) -> Option<SignedField>
    decreases 5 - from,
{
    if from >= 5 || from < 0 {
        None
    } else if cost_by_index(r, from).base < 0 {
        Some(SignedField::CostBase(from as u8))
    } else if cost_by_index(r, from).per_existing < 0 {
        Some(SignedField::CostPerExisting(from as u8))
    } else {
        cost_fault(r, from + 1)
    }
}

/// The first unit kind, in `ALL` order from `Pawn`, with no profile or with
/// a profile that upgrades to itself.
pub open spec fn profile_fault(r: Ruleset) -> Option<RuleFault> {
    let p = r.units.profiles;
    if p.spec_get(UnitKind::Pawn) is None {
        Some(RuleFault::MissingUnitProfile(UnitKind::Pawn))
    } else if p.spec_get(UnitKind::Pawn).unwrap().upgrades_to == Some(UnitKind::Pawn) {
        Some(RuleFault::SelfUpgrade(UnitKind::Pawn))
    } else if p.spec_get(UnitKind::Warrior) is None {
        Some(RuleFault::MissingUnitProfile(UnitKind::Warrior))
    } else if p.spec_get(UnitKind::Warrior).unwrap().upgrades_to == Some(UnitKind::Warrior) {
        Some(RuleFault::SelfUpgrade(UnitKind::Warrior))
    } else if p.spec_get(UnitKind::Knight) is None {
        Some(RuleFault::MissingUnitProfile(UnitKind::Knight))
    } else if p.spec_get(UnitKind::Knight).unwrap().upgrades_to == Some(UnitKind::Knight) {
        Some(RuleFault::SelfUpgrade(UnitKind::Knight))
    } else {
        None
    }
}

/// The starvation order names every unit kind exactly once.
pub open spec fn starvation_is_permutation(r: Ruleset) -> bool {
    let s = r.units.starvation_priority@;
    &&& s.len() == 3
    &&& s.contains(UnitKind::Pawn)
    &&& s.contains(UnitKind::Warrior)
    &&& s.contains(UnitKind::Knight)
}

/// The first problem with a ruleset, in the order the checks run; `None`
/// when it may be used.
pub open spec fn ruleset_fault(r: Ruleset) -> Option<RuleFault> {
    let y = r.economy.tile_yields;
    if r.version != RULESET_VERSION {
        Some(RuleFault::Version)
    } else if y.spec_get(TileKind::Town) is Some {
        Some(RuleFault::TownYieldMisplaced)
    } else if y.spec_get(TileKind::Empty) is None {
        Some(RuleFault::MissingTileYield(TileKind::Empty))
    } else if y.spec_get(TileKind::Capital) is None {
        Some(RuleFault::MissingTileYield(TileKind::Capital))
    } else if y.spec_get(TileKind::Field) is None {
        Some(RuleFault::MissingTileYield(TileKind::Field))
    } else if y.spec_get(TileKind::Forest) is None {
        Some(RuleFault::MissingTileYield(TileKind::Forest))
    } else if !in_bounds(r, RangedField::TownWheatCost) {
        Some(RuleFault::OutOfRange(RangedField::TownWheatCost))
    } else if r.economy.town.gold_yield < 0 {
        Some(RuleFault::Negative(SignedField::TownGoldYield))
    } else if r.economy.starting_wheat < 0 {
        Some(RuleFault::Negative(SignedField::StartingWheat))
    } else if r.economy.starting_gold < 0 {
        Some(RuleFault::Negative(SignedField::StartingGold))
    } else if cost_fault(r, 0) is Some {
        Some(RuleFault::Negative(cost_fault(r, 0).unwrap()))
    } else if profile_fault(r) is Some {
        profile_fault(r)
    } else if !starvation_is_permutation(r) {
        Some(RuleFault::StarvationPriority)
    } else if !in_bounds(r, RangedField::CapitalLootPercent) {
        Some(RuleFault::OutOfRange(RangedField::CapitalLootPercent))
    } else if r.territory.capital_relocation_preference@.contains(TileKind::Capital) {
        Some(RuleFault::RelocateOntoCapital)
    } else if !in_bounds(r, RangedField::ForestSpreadPercent) {
        Some(RuleFault::OutOfRange(RangedField::ForestSpreadPercent))
    } else if !in_bounds(r, RangedField::DominanceThresholdPercent) {
        Some(RuleFault::OutOfRange(RangedField::DominanceThresholdPercent))
    } else if !in_bounds(r, RangedField::DominanceTurns) {
        Some(RuleFault::OutOfRange(RangedField::DominanceTurns))
    } else {
        None
    }
}

/// The error value `validate` returns for a fault, field for field.
pub open spec fn error_matches(r: Ruleset, fault: RuleFault, e: RulesetError) -> bool {
    match fault {
        RuleFault::Version => e == RulesetError::Version {
            found: r.version,
            expected: RULESET_VERSION,
        },
        RuleFault::TownYieldMisplaced => e == RulesetError::TownYieldMisplaced,
        RuleFault::MissingTileYield(k) => e == RulesetError::MissingTileYield(k),
        RuleFault::OutOfRange(f) => match e {
            RulesetError::OutOfRange { field, min, max, found } => {
                &&& field@ == ranged_name(f)
                &&& min == ranged_bounds(f).0
                &&& max == ranged_bounds(f).1
                &&& found == ranged_value(r, f)
            },
            _ => false,
        },
        RuleFault::Negative(f) => match e {
            RulesetError::Negative { field, found } => field@ == signed_name(f) && found
                == signed_value(r, f),
            _ => false,
        },
        RuleFault::MissingUnitProfile(k) => e == RulesetError::MissingUnitProfile(k),
        RuleFault::SelfUpgrade(k) => e == RulesetError::SelfUpgrade(k),
        RuleFault::StarvationPriority => match e {
            RulesetError::StarvationPriority { found } => found@
                == r.units.starvation_priority@,
            _ => false,
        },
        RuleFault::RelocateOntoCapital => e == RulesetError::RelocateOntoCapital,
    }
}

fn range_check(f: RangedField, found: i64, min: i64, max: i64) -> (res: Result<(), RulesetError>)
    requires
        min == ranged_bounds(f).0,
        max == ranged_bounds(f).1,
    ensures
        res is Ok <==> min <= found <= max,
        res matches Err(e) ==> match e {
            RulesetError::OutOfRange { field, min: lo, max: hi, found: v } => {
                &&& field@ == ranged_name(f)
                &&& lo == min
                &&& hi == max
                &&& v == found
            },
            _ => false,
        },
{
    if found < min || found > max {
        let field = match f {
            RangedField::TownWheatCost => "economy.town.wheat_cost",
            RangedField::CapitalLootPercent => "territory.capital_loot_percent",
            RangedField::ForestSpreadPercent => "growth.forest_spread_percent",
            RangedField::DominanceThresholdPercent => "victory.dominance_threshold_percent",
            RangedField::DominanceTurns => "victory.dominance_turns",
        };
        return Err(RulesetError::OutOfRange { field: field.to_owned(), min, max, found });
    }
    Ok(())
}

fn signed_check(f: SignedField, found: i32) -> (res: Result<(), RulesetError>)
    requires
        match f {
            SignedField::CostBase(i) => i < 5,
            SignedField::CostPerExisting(i) => i < 5,
            _ => true,
        },
    ensures
        res is Ok <==> found >= 0,
        res matches Err(e) ==> e matches RulesetError::Negative { field, found: v } && field@
            == signed_name(f) && v == found,
{
    if found < 0 {
        let field = match f {
            SignedField::TownGoldYield => "economy.town.gold_yield".to_owned(),
            SignedField::StartingWheat => "economy.starting_wheat".to_owned(),
            SignedField::StartingGold => "economy.starting_gold".to_owned(),
            SignedField::CostBase(i) => cost_label(i).to_owned().concat(".base"),
            SignedField::CostPerExisting(i) => cost_label(i).to_owned().concat(".per_existing"),
        };
        return Err(RulesetError::Negative { field, found });
    }
    Ok(())
}

fn cost_label(i: u8) -> (s: &'static str)
    requires
        i < 5,
    ensures
        s@ == cost_name(i as int),
{
    if i == 0 {
        "costs.recruit_pawn"
    } else if i == 1 {
        "costs.upgrade_warrior"
    } else if i == 2 {
        "costs.upgrade_knight"
    } else if i == 3 {
        "costs.build_town"
    } else {
        "costs.build_field"
    }
}

fn cost_at_index(r: &Ruleset, i: u8) -> (c: ScalingCost)
    requires
        i < 5,
    ensures
        c == cost_by_index(*r, i as int),
{
    if i == 0 {
        r.costs.recruit_pawn
    } else if i == 1 {
        r.costs.upgrade_warrior
    } else if i == 2 {
        r.costs.upgrade_knight
    } else if i == 3 {
        r.costs.build_town
    } else {
        r.costs.build_field
    }
}

impl Ruleset {
    /// Check every invariant the rest of the game is allowed to assume,
    /// reporting the first one that fails.
    pub fn validate(&self) -> (res: Result<(), RulesetError>)
        ensures
            res is Ok <==> ruleset_fault(*self) is None,
            res matches Err(e) ==> error_matches(*self, ruleset_fault(*self).unwrap(), e),
    {
        if self.version != RULESET_VERSION {
            return Err(RulesetError::Version { found: self.version, expected: RULESET_VERSION });
        }
        let y = &self.economy.tile_yields;
        if y.contains_key(&TileKind::Town) {
            return Err(RulesetError::TownYieldMisplaced);
        }
        if !y.contains_key(&TileKind::Empty) {
            return Err(RulesetError::MissingTileYield(TileKind::Empty));
        }
        if !y.contains_key(&TileKind::Capital) {
            return Err(RulesetError::MissingTileYield(TileKind::Capital));
        }
        if !y.contains_key(&TileKind::Field) {
            return Err(RulesetError::MissingTileYield(TileKind::Field));
        }
        if !y.contains_key(&TileKind::Forest) {
            return Err(RulesetError::MissingTileYield(TileKind::Forest));
        }
        range_check(RangedField::TownWheatCost, self.economy.town.wheat_cost as i64, 1, 1000)?;
        signed_check(SignedField::TownGoldYield, self.economy.town.gold_yield)?;
        signed_check(SignedField::StartingWheat, self.economy.starting_wheat)?;
        signed_check(SignedField::StartingGold, self.economy.starting_gold)?;

        let mut i: u8 = 0;
        while i < 5
            invariant
                0 <= i <= 5,
                ruleset_fault(*self) == (if cost_fault(*self, 0) is Some {
                    Some(RuleFault::Negative(cost_fault(*self, 0).unwrap()))
                } else {
                    ruleset_fault(*self)
                }),
                cost_fault(*self, 0) == cost_fault(*self, i as int),
                self.version == RULESET_VERSION,
                self.economy.tile_yields.spec_get(TileKind::Town) is None,
                self.economy.tile_yields.spec_get(TileKind::Empty) is Some,
                self.economy.tile_yields.spec_get(TileKind::Capital) is Some,
                self.economy.tile_yields.spec_get(TileKind::Field) is Some,
                self.economy.tile_yields.spec_get(TileKind::Forest) is Some,
                in_bounds(*self, RangedField::TownWheatCost),
                self.economy.town.gold_yield >= 0,
                self.economy.starting_wheat >= 0,
                self.economy.starting_gold >= 0,
            decreases 5 - i,
        {
            let c = cost_at_index(self, i);
            signed_check(SignedField::CostBase(i), c.base)?;
            signed_check(SignedField::CostPerExisting(i), c.per_existing)?;
            i = i + 1;
        }

        for k in 0..3usize
            invariant
                ruleset_fault(*self) == (if profile_fault(*self) is Some {
                    profile_fault(*self)
                } else {
                    ruleset_fault(*self)
                }),
                cost_fault(*self, 0) is None,
                k > 0 ==> self.units.profiles.spec_get(UnitKind::Pawn) is Some
                    && self.units.profiles.spec_get(UnitKind::Pawn).unwrap().upgrades_to != Some(
                    UnitKind::Pawn),
                k > 1 ==> self.units.profiles.spec_get(UnitKind::Warrior) is Some
                    && self.units.profiles.spec_get(UnitKind::Warrior).unwrap().upgrades_to
                    != Some(UnitKind::Warrior),
                k > 2 ==> self.units.profiles.spec_get(UnitKind::Knight) is Some
                    && self.units.profiles.spec_get(UnitKind::Knight).unwrap().upgrades_to
                    != Some(UnitKind::Knight),
        {
            let kind = if k == 0 {
                UnitKind::Pawn
            } else if k == 1 {
                UnitKind::Warrior
            } else {
                UnitKind::Knight
            };
            match self.units.profiles.get(&kind) {
                None => {
                    return Err(RulesetError::MissingUnitProfile(kind));
                },
                Some(p) => {
                    if p.upgrades_to == Some(kind) {
                        return Err(RulesetError::SelfUpgrade(kind));
                    }
                },
            }
        }

        let prio = &self.units.starvation_priority;
        if !(prio.len() == 3 && contains_unit_kind(prio, UnitKind::Pawn) && contains_unit_kind(
            prio,
            UnitKind::Warrior,
        ) && contains_unit_kind(prio, UnitKind::Knight)) {
            let found = prio.clone();
            assert(found@ =~= prio@);
            return Err(RulesetError::StarvationPriority { found });
        }

        range_check(
            RangedField::CapitalLootPercent,
            self.territory.capital_loot_percent as i64,
            0,
            100,
        )?;
        if contains_tile_kind(&self.territory.capital_relocation_preference, TileKind::Capital) {
            return Err(RulesetError::RelocateOntoCapital);
        }
        range_check(
            RangedField::ForestSpreadPercent,
            self.growth.forest_spread_percent as i64,
            0,
            100,
        )?;
        range_check(
            RangedField::DominanceThresholdPercent,
            self.victory.dominance_threshold_percent as i64,
            1,
            100,
        )?;
        range_check(RangedField::DominanceTurns, self.victory.dominance_turns as i64, 1, 10_000)?;
        Ok(())
    }
}

} // verus!
