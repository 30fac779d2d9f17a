//! Balance data: every tunable number of the game, and the checks a ruleset
//! must pass before the simulation may rely on it.
//!
//! Nothing here makes a game decision; it only describes what the numbers are.

use crate::arith::clamp32;
use vstd::prelude::*;
use vstd::string::*;

verus! {

/// What occupies a land tile. Water tiles carry `Empty`.
#[derive(Debug, Clone, Copy, PartialEq, Eq, Structural, PartialOrd, Ord, Hash)]
pub enum TileKind {
    Empty,
    Capital,
    Town,
    Field,
    Forest,
}

#[derive(Debug, Clone, Copy, PartialEq, Eq, Structural, PartialOrd, Ord, Hash)]
pub enum UnitKind {
    Pawn,
    Warrior,
    Knight,
}

/// Stable byte code of a tile kind.
pub open spec fn tile_kind_code(k: TileKind) -> u8 {
    match k {
        TileKind::Empty => 0,
        TileKind::Capital => 1,
        TileKind::Town => 2,
        TileKind::Field => 3,
        TileKind::Forest => 4,
    }
}

/// Stable byte code of a unit kind.
pub open spec fn unit_kind_code(k: UnitKind) -> u8 {
    match k {
        UnitKind::Pawn => 0,
        UnitKind::Warrior => 1,
        UnitKind::Knight => 2,
    }
}

impl TileKind {
    /// Every variant, in a fixed order.
    pub const ALL: [TileKind; 5] = [
        TileKind::Empty,
        TileKind::Capital,
        TileKind::Town,
        TileKind::Field,
        TileKind::Forest,
    ];

    pub fn code(self) -> (c: u8)
        ensures
            c == tile_kind_code(self),
    {
        match self {
            TileKind::Empty => 0,
            TileKind::Capital => 1,
            TileKind::Town => 2,
            TileKind::Field => 3,
            TileKind::Forest => 4,
        }
    }
}

impl UnitKind {
    pub const ALL: [UnitKind; 3] = [UnitKind::Pawn, UnitKind::Warrior, UnitKind::Knight];

    pub fn code(self) -> (c: u8)
        ensures
            c == unit_kind_code(self),
    {
        match self {
            UnitKind::Pawn => 0,
            UnitKind::Warrior => 1,
            UnitKind::Knight => 2,
        }
    }
}

/// Per-turn resource change contributed by one tile, or eaten by one unit.
#[derive(Debug, Clone, Copy, PartialEq, Eq, Structural)]
pub struct Yield {
    pub wheat: i32,
    pub gold: i32,
}

impl Yield {
    pub fn zero() -> (y: Yield)
        ensures
            y.wheat == 0 && y.gold == 0,
    {
        Yield { wheat: 0, gold: 0 }
    }
}

/// A price of the shape `base + per_existing * count`, counted within one
/// territory.
#[derive(Debug, Clone, Copy, PartialEq, Eq, Structural)]
pub struct ScalingCost {
    pub base: i32,
    pub per_existing: i32,
}

/// The price when `existing` qualifying things are already held.
pub open spec fn cost_at(c: ScalingCost, existing: nat) -> i32 {
    clamp32(c.base + c.per_existing * existing)
}

impl ScalingCost {
    /// Price given how many qualifying things the territory already holds.
    pub fn at(&self, existing: u32) -> (p: i32)
        ensures
            p == cost_at(*self, existing as nat),
    {
        let per = self.per_existing as i128;
        let n = existing as i128;
        assert(-0x1_0000_0000_0000_0000 <= per * n <= 0x1_0000_0000_0000_0000) by (nonlinear_arith)
            requires
                -0x8000_0000 <= per <= 0x7fff_ffff,
                0 <= n <= 0xffff_ffff,
        ;
        let prod = per * n;
        let total = self.base as i128 + prod;
        if total < i32::MIN as i128 {
            i32::MIN
        } else if total > i32::MAX as i128 {
            i32::MAX
        } else {
            total as i32
        }
    }
}

/// Towns turn wheat into gold; only whole towns are fed.
#[derive(Debug, Clone, Copy, PartialEq, Eq, Structural)]
pub struct TownRules {
    /// Wheat one town consumes per turn.
    pub wheat_cost: i32,
    /// Gold one fed town produces per turn.
    pub gold_yield: i32,
}

/// The unconditional yield of each tile kind that has one.
#[derive(Debug, Clone, PartialEq, Eq)]
pub struct YieldTable {
    empty: Option<Yield>,
    capital: Option<Yield>,
    town: Option<Yield>,
    field: Option<Yield>,
    forest: Option<Yield>,
}

impl YieldTable {
    pub closed spec fn spec_get(&self, k: TileKind) -> Option<Yield> {
        match k {
            TileKind::Empty => self.empty,
            TileKind::Capital => self.capital,
            TileKind::Town => self.town,
            TileKind::Field => self.field,
            TileKind::Forest => self.forest,
        }
    }

    pub fn new() -> (t: YieldTable)
        ensures
            forall|k: TileKind| t.spec_get(k) is None,
    {
        YieldTable { empty: None, capital: None, town: None, field: None, forest: None }
    }

    pub fn get(&self, k: &TileKind) -> (y: Option<Yield>)
        ensures
            y == self.spec_get(*k),
    {
        match k {
            TileKind::Empty => self.empty,
            TileKind::Capital => self.capital,
            TileKind::Town => self.town,
            TileKind::Field => self.field,
            TileKind::Forest => self.forest,
        }
    }

    pub fn contains_key(&self, k: &TileKind) -> (b: bool)
        ensures
            b == self.spec_get(*k) is Some,
    {
        self.get(k).is_some()
    }

    /// Set the yield of a kind, returning the one it replaced.
    pub fn insert(&mut self, k: TileKind, v: Yield) -> (prev: Option<Yield>)
        ensures
            prev == old(self).spec_get(k),
            final(self).spec_get(k) == Some(v),
            forall|j: TileKind| j != k ==> final(self).spec_get(j) == old(self).spec_get(j),
    {
        let prev = self.get(&k);
        match k {
            TileKind::Empty => self.empty = Some(v),
            TileKind::Capital => self.capital = Some(v),
            TileKind::Town => self.town = Some(v),
            TileKind::Field => self.field = Some(v),
            TileKind::Forest => self.forest = Some(v),
        }
        prev
    }

    /// Drop the yield of a kind, returning it.
    pub fn remove(&mut self, k: &TileKind) -> (prev: Option<Yield>)
        ensures
            prev == old(self).spec_get(*k),
            final(self).spec_get(*k) is None,
            forall|j: TileKind| j != *k ==> final(self).spec_get(j) == old(self).spec_get(j),
    {
        let prev = self.get(k);
        match k {
            TileKind::Empty => self.empty = None,
            TileKind::Capital => self.capital = None,
            TileKind::Town => self.town = None,
            TileKind::Field => self.field = None,
            TileKind::Forest => self.forest = None,
        }
        prev
    }
}

#[derive(Debug, Clone, PartialEq, Eq)]
pub struct Economy {
    /// Unconditional per-turn yield of each tile kind. Towns are absent:
    /// their output depends on wheat (see [`TownRules`]).
    pub tile_yields: YieldTable,
    pub town: TownRules,
    /// Starting treasury of a territory present from the first turn.
    pub starting_wheat: i32,
    pub starting_gold: i32,
}

#[derive(Debug, Clone, PartialEq, Eq)]
pub struct Costs {
    /// Scales with units of any kind in the territory.
    pub recruit_pawn: ScalingCost,
    /// Scales with warriors and knights only.
    pub upgrade_warrior: ScalingCost,
    /// Scales with knights only.
    pub upgrade_knight: ScalingCost,
    /// Scales with towns in the territory.
    pub build_town: ScalingCost,
    /// Scales with fields in the territory.
    pub build_field: ScalingCost,
}

/// What one unit kind costs to keep and what it may do.
#[derive(Debug, Clone, PartialEq, Eq)]
pub struct UnitProfile {
    /// Wheat (and, for knights, gold) eaten per turn.
    pub upkeep: Yield,
    /// Tile kinds this unit may capture from another faction.
    pub captures: Vec<TileKind>,
    /// Enemy unit kinds this unit may defeat by moving onto them.
    pub defeats: Vec<UnitKind>,
    /// What this unit may be upgraded into, if anything.
    pub upgrades_to: Option<UnitKind>,
}

/// The profile of each unit kind.
#[derive(Debug, Clone, PartialEq, Eq)]
pub struct ProfileTable {
    pawn: Option<UnitProfile>,
    warrior: Option<UnitProfile>,
    knight: Option<UnitProfile>,
}

impl ProfileTable {
    pub closed spec fn spec_get(&self, k: UnitKind) -> Option<UnitProfile> {
        match k {
            UnitKind::Pawn => self.pawn,
            UnitKind::Warrior => self.warrior,
            UnitKind::Knight => self.knight,
        }
    }

    pub fn new() -> (t: ProfileTable)
        ensures
            forall|k: UnitKind| t.spec_get(k) is None,
    {
        ProfileTable { pawn: None, warrior: None, knight: None }
    }

    pub fn get(&self, k: &UnitKind) -> (p: Option<&UnitProfile>)
        ensures
            match p {
                Some(q) => self.spec_get(*k) == Some(*q),
                None => self.spec_get(*k) is None,
            },
    {
        match k {
            UnitKind::Pawn => self.pawn.as_ref(),
            UnitKind::Warrior => self.warrior.as_ref(),
            UnitKind::Knight => self.knight.as_ref(),
        }
    }

    pub fn contains_key(&self, k: &UnitKind) -> (b: bool)
        ensures
            b == self.spec_get(*k) is Some,
    {
        self.get(k).is_some()
    }

    /// Set the profile of a kind, returning the one it replaced.
    pub fn insert(&mut self, k: UnitKind, v: UnitProfile) -> (prev: Option<UnitProfile>)
        ensures
            prev == old(self).spec_get(k),
            final(self).spec_get(k) == Some(v),
            forall|j: UnitKind| j != k ==> final(self).spec_get(j) == old(self).spec_get(j),
    {
        match k {
            UnitKind::Pawn => {
                let prev = self.pawn.take();
                self.pawn = Some(v);
                prev
            },
            UnitKind::Warrior => {
                let prev = self.warrior.take();
                self.warrior = Some(v);
                prev
            },
            UnitKind::Knight => {
                let prev = self.knight.take();
                self.knight = Some(v);
                prev
            },
        }
    }

    /// Drop the profile of a kind, returning it.
    pub fn remove(&mut self, k: &UnitKind) -> (prev: Option<UnitProfile>)
        ensures
            prev == old(self).spec_get(*k),
            final(self).spec_get(*k) is None,
            forall|j: UnitKind| j != *k ==> final(self).spec_get(j) == old(self).spec_get(j),
    {
        match k {
            UnitKind::Pawn => self.pawn.take(),
            UnitKind::Warrior => self.warrior.take(),
            UnitKind::Knight => self.knight.take(),
        }
    }
}

#[derive(Debug, Clone, PartialEq, Eq)]
pub struct UnitRules {
    pub profiles: ProfileTable,
    /// Steps a unit may take through tiles its own faction owns.
    pub own_territory_steps: u32,
    /// Additional steps into tiles the faction does not own.
    pub foreign_steps: u32,
    /// Order in which unit kinds starve; within a kind the oldest goes first.
    pub starvation_priority: Vec<UnitKind>,
}

#[derive(Debug, Clone, PartialEq, Eq)]
pub struct TerritoryRules {
    /// Percentage of the victim territory's gold a captor gains when taking a
    /// capital, floored.
    pub capital_loot_percent: i32,
    /// Preference order when a lost capital must be rehoused.
    pub capital_relocation_preference: Vec<TileKind>,
}

#[derive(Debug, Clone, PartialEq, Eq)]
pub struct GrowthRules {
    /// Percent chance per forest tile per round to spread.
    pub forest_spread_percent: u32,
    /// Tile kinds a forest may spread onto.
    pub forest_spread_targets: Vec<TileKind>,
}

#[derive(Debug, Clone, PartialEq, Eq)]
pub struct VictoryRules {
    /// Share of all land tiles that counts as an unbeatable lead.
    pub dominance_threshold_percent: u32,
    /// Consecutive rounds the lead must be held.
    pub dominance_turns: u32,
}

/// The complete balance of one game.
#[derive(Debug, Clone, PartialEq, Eq)]
pub struct Ruleset {
    /// Bumped when the shape of this struct changes.
    pub version: u32,
    pub economy: Economy,
    pub costs: Costs,
    pub units: UnitRules,
    pub territory: TerritoryRules,
    pub growth: GrowthRules,
    pub victory: VictoryRules,
}

/// The schema version this build understands.
pub const RULESET_VERSION: u32 = 1;

/// The yield of a kind, zero when the table has none.
pub open spec fn spec_tile_yield(r: Ruleset, kind: TileKind) -> Yield {
    match r.economy.tile_yields.spec_get(kind) {
        Some(y) => y,
        None => Yield { wheat: 0, gold: 0 },
    }
}

/// The profile of a kind; meaningful when the ruleset has every profile.
pub open spec fn spec_profile(r: Ruleset, kind: UnitKind) -> UnitProfile {
    r.units.profiles.spec_get(kind).unwrap()
}

impl Ruleset {
    /// Every unit kind has a profile: what the simulation relies on.
    pub open spec fn has_all_profiles(&self) -> bool {
        &&& self.units.profiles.spec_get(UnitKind::Pawn) is Some
        &&& self.units.profiles.spec_get(UnitKind::Warrior) is Some
        &&& self.units.profiles.spec_get(UnitKind::Knight) is Some
    }

    /// Unconditional yield of a tile kind; zero for kinds without one.
    pub fn tile_yield(&self, kind: TileKind) -> (y: Yield)
        ensures
            y == spec_tile_yield(*self, kind),
    {
        match self.economy.tile_yields.get(&kind) {
            Some(y) => y,
            None => Yield::zero(),
        }
    }

    /// Profile of a unit kind.
    pub fn unit(&self, kind: UnitKind) -> (p: &UnitProfile)
        requires
            self.has_all_profiles(),
        ensures
            *p == spec_profile(*self, kind),
    {
        self.units.profiles.get(&kind).unwrap()
    }
}

/// Whether a tile-kind list holds `k`.
pub fn contains_tile_kind(v: &Vec<TileKind>, k: TileKind) -> (b: bool)
    ensures
        b == v@.contains(k),
{
    let mut i: usize = 0;
    while i < v.len()
        invariant
            i <= v@.len(),
            forall|j: int| 0 <= j < i ==> v@[j] != k,
        decreases v@.len() - i,
    {
        if v[i] == k {
            return true;
        }
        i = i + 1;
    }
    false
}

/// Whether a unit-kind list holds `k`.
pub fn contains_unit_kind(v: &Vec<UnitKind>, k: UnitKind) -> (b: bool)
    ensures
        b == v@.contains(k),
{
    let mut i: usize = 0;
    while i < v.len()
        invariant
            i <= v@.len(),
            forall|j: int| 0 <= j < i ==> v@[j] != k,
        decreases v@.len() - i,
    {
        if v[i] == k {
            return true;
        }
        i = i + 1;
    }
    false
}

} // verus!
