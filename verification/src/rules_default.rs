//! The bundled balance, and the fingerprint a replay is recorded against.

use crate::digest::{fnv1a_spec, le_u32, opt_bytes, Digest};
use crate::rules::{
    spec_profile, tile_kind_code, unit_kind_code, Costs, Economy, GrowthRules, ProfileTable,
    Ruleset, ScalingCost, TerritoryRules, TileKind, TownRules, UnitKind, UnitProfile, UnitRules,
    VictoryRules, Yield, YieldTable, RULESET_VERSION,
};
use crate::rules_check::ruleset_fault;
use vstd::prelude::*;

verus! {

/// The numbers of the bundled ruleset.
pub open spec fn is_bundled(r: Ruleset) -> bool {
    let y = r.economy.tile_yields;
    &&& r.version == RULESET_VERSION
    &&& y.spec_get(TileKind::Empty) == Some(Yield { wheat: 1, gold: 0 })
    &&& y.spec_get(TileKind::Capital) == Some(Yield { wheat: 1, gold: 1 })
    &&& y.spec_get(TileKind::Town) is None
    &&& y.spec_get(TileKind::Field) == Some(Yield { wheat: 2, gold: 0 })
    &&& y.spec_get(TileKind::Forest) == Some(Yield { wheat: 0, gold: 0 })
    &&& r.economy.town == TownRules { wheat_cost: 3, gold_yield: 2 }
    &&& r.economy.starting_wheat == 5
    &&& r.economy.starting_gold == 5
    &&& r.costs.recruit_pawn == ScalingCost { base: 1, per_existing: 1 }
    &&& r.costs.upgrade_warrior == ScalingCost { base: 1, per_existing: 1 }
    &&& r.costs.upgrade_knight == ScalingCost { base: 2, per_existing: 2 }
    &&& r.costs.build_town == ScalingCost { base: 2, per_existing: 1 }
    &&& r.costs.build_field == ScalingCost { base: 1, per_existing: 1 }
    &&& r.has_all_profiles()
    &&& spec_profile(r, UnitKind::Pawn).upkeep == Yield { wheat: 1, gold: 0 }
    &&& spec_profile(r, UnitKind::Pawn).captures@ == seq![TileKind::Empty, TileKind::Field, TileKind::Forest]
    &&& spec_profile(r, UnitKind::Pawn).defeats@ == Seq::<UnitKind>::empty()
    &&& spec_profile(r, UnitKind::Pawn).upgrades_to == Some(UnitKind::Warrior)
    &&& spec_profile(r, UnitKind::Warrior).upkeep == Yield { wheat: 2, gold: 0 }
    &&& spec_profile(r, UnitKind::Warrior).captures@ == seq![TileKind::Empty, TileKind::Capital, TileKind::Town, TileKind::Field, TileKind::Forest]
    &&& spec_profile(r, UnitKind::Warrior).defeats@ == seq![UnitKind::Pawn]
    &&& spec_profile(r, UnitKind::Warrior).upgrades_to == Some(UnitKind::Knight)
    &&& spec_profile(r, UnitKind::Knight).upkeep == Yield { wheat: 2, gold: 1 }
    &&& spec_profile(r, UnitKind::Knight).captures@ == seq![TileKind::Empty, TileKind::Capital, TileKind::Town, TileKind::Field, TileKind::Forest]
    &&& spec_profile(r, UnitKind::Knight).defeats@ == seq![UnitKind::Pawn, UnitKind::Warrior, UnitKind::Knight]
    &&& spec_profile(r, UnitKind::Knight).upgrades_to is None
    &&& r.units.own_territory_steps == 4
    &&& r.units.foreign_steps == 1
    &&& r.units.starvation_priority@ == seq![UnitKind::Knight, UnitKind::Warrior, UnitKind::Pawn]
    &&& r.territory.capital_loot_percent == 25
    &&& r.territory.capital_relocation_preference@ == seq![TileKind::Empty, TileKind::Town, TileKind::Field]
    &&& r.growth.forest_spread_percent == 10
    &&& r.growth.forest_spread_targets@ == seq![TileKind::Empty]
    &&& r.victory.dominance_threshold_percent == 75
    &&& r.victory.dominance_turns == 3
}

fn all_capturable() -> (v: Vec<TileKind>)
    ensures
        v@ == seq![TileKind::Empty, TileKind::Capital, TileKind::Town, TileKind::Field, TileKind::Forest],
{
    let mut v = Vec::new();
    v.push(TileKind::Empty);
    v.push(TileKind::Capital);
    v.push(TileKind::Town);
    v.push(TileKind::Field);
    v.push(TileKind::Forest);
    v
}

impl Ruleset {
    /// The default ruleset, compiled into the library. It is valid.
    pub fn bundled() -> (r: Ruleset)
        ensures
            is_bundled(r),
            ruleset_fault(r) is None,
    {
        let mut tile_yields = YieldTable::new();
        tile_yields.insert(TileKind::Empty, Yield { wheat: 1, gold: 0 });
        tile_yields.insert(TileKind::Capital, Yield { wheat: 1, gold: 1 });
        tile_yields.insert(TileKind::Field, Yield { wheat: 2, gold: 0 });
        tile_yields.insert(TileKind::Forest, Yield { wheat: 0, gold: 0 });

        let mut pawn_captures = Vec::new();
        pawn_captures.push(TileKind::Empty);
        pawn_captures.push(TileKind::Field);
        pawn_captures.push(TileKind::Forest);
        let mut warrior_defeats = Vec::new();
        warrior_defeats.push(UnitKind::Pawn);
        let mut knight_defeats = Vec::new();
        knight_defeats.push(UnitKind::Pawn);
        knight_defeats.push(UnitKind::Warrior);
        knight_defeats.push(UnitKind::Knight);

        let mut profiles = ProfileTable::new();
        profiles.insert(
            UnitKind::Pawn,
            UnitProfile {
                upkeep: Yield { wheat: 1, gold: 0 },
                captures: pawn_captures,
                defeats: Vec::new(),
                upgrades_to: Some(UnitKind::Warrior),
            },
        );
        profiles.insert(
            UnitKind::Warrior,
            UnitProfile {
                upkeep: Yield { wheat: 2, gold: 0 },
                captures: all_capturable(),
                defeats: warrior_defeats,
                upgrades_to: Some(UnitKind::Knight),
            },
        );
        profiles.insert(
            UnitKind::Knight,
            UnitProfile {
                upkeep: Yield { wheat: 2, gold: 1 },
                captures: all_capturable(),
                defeats: knight_defeats,
                upgrades_to: None,
            },
        );

        let mut starvation_priority = Vec::new();
        starvation_priority.push(UnitKind::Knight);
        starvation_priority.push(UnitKind::Warrior);
        starvation_priority.push(UnitKind::Pawn);
        let mut relocation = Vec::new();
        relocation.push(TileKind::Empty);
        relocation.push(TileKind::Town);
        relocation.push(TileKind::Field);
        let mut targets = Vec::new();
        targets.push(TileKind::Empty);

        let r = Ruleset {
            version: RULESET_VERSION,
            economy: Economy {
                tile_yields,
                town: TownRules { wheat_cost: 3, gold_yield: 2 },
                starting_wheat: 5,
                starting_gold: 5,
            },
            costs: Costs {
                recruit_pawn: ScalingCost { base: 1, per_existing: 1 },
                upgrade_warrior: ScalingCost { base: 1, per_existing: 1 },
                upgrade_knight: ScalingCost { base: 2, per_existing: 2 },
                build_town: ScalingCost { base: 2, per_existing: 1 },
                build_field: ScalingCost { base: 1, per_existing: 1 },
            },
            units: UnitRules {
                profiles,
                own_territory_steps: 4,
                foreign_steps: 1,
                starvation_priority,
            },
            territory: TerritoryRules {
                capital_loot_percent: 25,
                capital_relocation_preference: relocation,
            },
            growth: GrowthRules { forest_spread_percent: 10, forest_spread_targets: targets },
            victory: VictoryRules { dominance_threshold_percent: 75, dominance_turns: 3 },
        };
        assert(r.units.starvation_priority@ =~= seq![UnitKind::Knight, UnitKind::Warrior, UnitKind::Pawn]);
        assert(r.territory.capital_relocation_preference@ =~= seq![TileKind::Empty, TileKind::Town, TileKind::Field]);
        assert(r.growth.forest_spread_targets@ =~= seq![TileKind::Empty]);
        assert(spec_profile(r, UnitKind::Pawn).captures@ =~= seq![TileKind::Empty, TileKind::Field, TileKind::Forest]);
        assert(spec_profile(r, UnitKind::Warrior).defeats@ =~= seq![UnitKind::Pawn]);
        assert(spec_profile(r, UnitKind::Knight).defeats@ =~= seq![UnitKind::Pawn, UnitKind::Warrior, UnitKind::Knight]);
        assert(spec_profile(r, UnitKind::Pawn).defeats@ =~= Seq::<UnitKind>::empty());
        assert(r.units.starvation_priority@[0] == UnitKind::Knight);
        assert(r.units.starvation_priority@[1] == UnitKind::Warrior);
        assert(r.units.starvation_priority@[2] == UnitKind::Pawn);
        assert(!r.territory.capital_relocation_preference@.contains(TileKind::Capital)) by {
            let s = r.territory.capital_relocation_preference@;
            assert(forall|i: int| 0 <= i < s.len() ==> s[i] != TileKind::Capital);
        }
        proof {
            reveal_with_fuel(crate::rules_check::cost_fault, 6);
        }
        assert(is_bundled(r));
        r
    }
}

// ---------------------------------------------------------------------------
// The fingerprint
// ---------------------------------------------------------------------------

/// The codes of a tile-kind list.
pub open spec fn tile_kinds_bytes(s: Seq<TileKind>) -> Seq<u8>
    decreases s.len(),
{
    if s.len() == 0 {
        Seq::empty()
    } else {
        tile_kinds_bytes(s.drop_last()).push(tile_kind_code(s.last()))
    }
}

/// The codes of a unit-kind list.
pub open spec fn unit_kinds_bytes(s: Seq<UnitKind>) -> Seq<u8>
    decreases s.len(),
{
    if s.len() == 0 {
        Seq::empty()
    } else {
        unit_kinds_bytes(s.drop_last()).push(unit_kind_code(s.last()))
    }
}

pub open spec fn yield_bytes(y: Yield) -> Seq<u8> {
    le_u32(y.wheat as u32) + le_u32(y.gold as u32)
}

pub open spec fn opt_yield_bytes(y: Option<Yield>) -> Seq<u8> {
    match y {
        None => seq![0u8],
        Some(v) => seq![1u8] + yield_bytes(v),
    }
}

pub open spec fn cost_bytes(c: ScalingCost) -> Seq<u8> {
    le_u32(c.base as u32) + le_u32(c.per_existing as u32)
}

pub open spec fn opt_unit_kind(k: Option<UnitKind>) -> Option<u32> {
    match k {
        None => None,
        Some(u) => Some(unit_kind_code(u) as u32),
    }
}

pub open spec fn profile_bytes(p: Option<UnitProfile>) -> Seq<u8> {
    match p {
        None => seq![0u8],
        Some(q) => seq![1u8] + yield_bytes(q.upkeep) + le_u32(q.captures@.len() as u32)
            + tile_kinds_bytes(q.captures@) + le_u32(q.defeats@.len() as u32) + unit_kinds_bytes(
            q.defeats@,
        ) + opt_bytes(opt_unit_kind(q.upgrades_to)),
    }
}

/// The canonical byte encoding of a ruleset that its fingerprint hashes:
/// every number, every table entry in kind order, every list with its length.
pub open spec fn ruleset_bytes(r: Ruleset) -> Seq<u8> {
    let y = r.economy.tile_yields;
    let p = r.units.profiles;
    le_u32(r.version) + opt_yield_bytes(y.spec_get(TileKind::Empty)) + opt_yield_bytes(
        y.spec_get(TileKind::Capital),
    ) + opt_yield_bytes(y.spec_get(TileKind::Town)) + opt_yield_bytes(
        y.spec_get(TileKind::Field),
    ) + opt_yield_bytes(y.spec_get(TileKind::Forest)) + le_u32(
        r.economy.town.wheat_cost as u32,
    ) + le_u32(r.economy.town.gold_yield as u32) + le_u32(r.economy.starting_wheat as u32)
        + le_u32(r.economy.starting_gold as u32) + cost_bytes(r.costs.recruit_pawn) + cost_bytes(
        r.costs.upgrade_warrior,
    ) + cost_bytes(r.costs.upgrade_knight) + cost_bytes(r.costs.build_town) + cost_bytes(
        r.costs.build_field,
    ) + profile_bytes(p.spec_get(UnitKind::Pawn)) + profile_bytes(p.spec_get(UnitKind::Warrior))
        + profile_bytes(p.spec_get(UnitKind::Knight)) + le_u32(r.units.own_territory_steps)
        + le_u32(r.units.foreign_steps) + le_u32(r.units.starvation_priority@.len() as u32)
        + unit_kinds_bytes(r.units.starvation_priority@) + le_u32(
        r.territory.capital_loot_percent as u32,
    ) + le_u32(r.territory.capital_relocation_preference@.len() as u32) + tile_kinds_bytes(
        r.territory.capital_relocation_preference@,
    ) + le_u32(r.growth.forest_spread_percent) + le_u32(
        r.growth.forest_spread_targets@.len() as u32,
    ) + tile_kinds_bytes(r.growth.forest_spread_targets@) + le_u32(
        r.victory.dominance_threshold_percent,
    ) + le_u32(r.victory.dominance_turns)
}

/// The stable fingerprint of a ruleset: FNV-1a over its canonical bytes.
pub open spec fn ruleset_hash_spec(r: Ruleset) -> u64 {
    fnv1a_spec(ruleset_bytes(r))
}

fn write_tile_kinds(d: &mut Digest, v: &Vec<TileKind>)
    requires
        old(d).wf(),
    ensures
        final(d).wf(),
        final(d).bytes() == old(d).bytes() + le_u32(v@.len() as u32) + tile_kinds_bytes(v@),
{
    d.u32(v.len() as u32);
    let ghost start = d.bytes();
    let mut i: usize = 0;
    while i < v.len()
        invariant
            d.wf(),
            i <= v@.len(),
            d.bytes() == start + tile_kinds_bytes(v@.take(i as int)),
        decreases v@.len() - i,
    {
        proof {
            assert(v@.take(i + 1).drop_last() =~= v@.take(i as int));
        }
        d.byte(v[i].code());
        i = i + 1;
        proof {
            assert(d.bytes() =~= start + tile_kinds_bytes(v@.take(i as int)));
        }
    }
    assert(v@.take(i as int) =~= v@);
}

fn write_unit_kinds(d: &mut Digest, v: &Vec<UnitKind>)
    requires
        old(d).wf(),
    ensures
        final(d).wf(),
        final(d).bytes() == old(d).bytes() + le_u32(v@.len() as u32) + unit_kinds_bytes(v@),
{
    d.u32(v.len() as u32);
    let ghost start = d.bytes();
    let mut i: usize = 0;
    while i < v.len()
        invariant
            d.wf(),
            i <= v@.len(),
            d.bytes() == start + unit_kinds_bytes(v@.take(i as int)),
        decreases v@.len() - i,
    {
        proof {
            assert(v@.take(i + 1).drop_last() =~= v@.take(i as int));
        }
        d.byte(v[i].code());
        i = i + 1;
        proof {
            assert(d.bytes() =~= start + unit_kinds_bytes(v@.take(i as int)));
        }
    }
    assert(v@.take(i as int) =~= v@);
}

fn write_opt_yield(d: &mut Digest, y: Option<Yield>)
    requires
        old(d).wf(),
    ensures
        final(d).wf(),
        final(d).bytes() == old(d).bytes() + opt_yield_bytes(y),
{
    let ghost start = d.bytes();
    match y {
        None => d.byte(0),
        Some(v) => {
            d.byte(1);
            d.i32(v.wheat);
            d.i32(v.gold);
        },
    }
    assert(d.bytes() =~= start + opt_yield_bytes(y));
}

fn write_cost(d: &mut Digest, c: ScalingCost)
    requires
        old(d).wf(),
    ensures
        final(d).wf(),
        final(d).bytes() == old(d).bytes() + cost_bytes(c),
{
    let ghost start = d.bytes();
    d.i32(c.base);
    d.i32(c.per_existing);
    assert(d.bytes() =~= start + cost_bytes(c));
}

fn write_profile(d: &mut Digest, p: Option<&UnitProfile>)
    requires
        old(d).wf(),
    ensures
        final(d).wf(),
        final(d).bytes() == old(d).bytes() + profile_bytes(
            match p {
                Some(q) => Some(*q),
                None => None,
            },
        ),
{
    let ghost start = d.bytes();
    match p {
        None => d.byte(0),
        Some(q) => {
            d.byte(1);
            d.i32(q.upkeep.wheat);
            d.i32(q.upkeep.gold);
            write_tile_kinds(d, &q.captures);
            write_unit_kinds(d, &q.defeats);
            let up = match q.upgrades_to {
                None => None,
                Some(u) => Some(u.code() as u32),
            };
            d.opt_u32(up);
        },
    }
    assert(d.bytes() =~= start + profile_bytes(
        match p {
            Some(q) => Some(*q),
            None => None,
        },
    ));
}

impl Ruleset {
    /// Stable fingerprint of this ruleset, stored in every replay so that a
    /// balance change which would make a saved game diverge is detected.
    pub fn hash(&self) -> (h: u64)
        ensures
            h == ruleset_hash_spec(*self),
    {
        let mut d = Digest::new();
        let y = &self.economy.tile_yields;
        let p = &self.units.profiles;
        d.u32(self.version);
        write_opt_yield(&mut d, y.get(&TileKind::Empty));
        write_opt_yield(&mut d, y.get(&TileKind::Capital));
        write_opt_yield(&mut d, y.get(&TileKind::Town));
        write_opt_yield(&mut d, y.get(&TileKind::Field));
        write_opt_yield(&mut d, y.get(&TileKind::Forest));
        d.i32(self.economy.town.wheat_cost);
        d.i32(self.economy.town.gold_yield);
        d.i32(self.economy.starting_wheat);
        d.i32(self.economy.starting_gold);
        write_cost(&mut d, self.costs.recruit_pawn);
        write_cost(&mut d, self.costs.upgrade_warrior);
        write_cost(&mut d, self.costs.upgrade_knight);
        write_cost(&mut d, self.costs.build_town);
        write_cost(&mut d, self.costs.build_field);
        write_profile(&mut d, p.get(&UnitKind::Pawn));
        write_profile(&mut d, p.get(&UnitKind::Warrior));
        write_profile(&mut d, p.get(&UnitKind::Knight));
        d.u32(self.units.own_territory_steps);
        d.u32(self.units.foreign_steps);
        write_unit_kinds(&mut d, &self.units.starvation_priority);
        d.i32(self.territory.capital_loot_percent);
        write_tile_kinds(&mut d, &self.territory.capital_relocation_preference);
        d.u32(self.growth.forest_spread_percent);
        write_tile_kinds(&mut d, &self.growth.forest_spread_targets);
        d.u32(self.victory.dominance_threshold_percent);
        d.u32(self.victory.dominance_turns);
        proof {
            assert(d.bytes() =~= ruleset_bytes(*self));
        }
        d.finish()
    }
}

} // verus!
