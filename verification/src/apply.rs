//! Validating and applying commands.
//!
//! [`validate`] never mutates, and [`apply`] validates first: every change
//! to a [`World`] passes through here.

use crate::command::{Command, Rejection};
use crate::cost_filters;
use crate::ids::{Faction, TerritoryId, TileId, UnitId};
use crate::movement::{can_enter, enter_spec, reach_ok, reachable};
use crate::rules::{cost_at, spec_profile, Ruleset, TileKind, UnitKind};
use crate::state::{
    current_faction_of, find_territory, find_unit, lemma_territory_pos_from, lemma_unit_pos_from, of_kind,
    stats_or_zero, territory_pos, FactionStats, unit_counted, unit_pos, Territory, TerritoryModel, Tile, Unit, World,
};
use crate::arith::{add32, add64, cap_u32, clamp32, inc32, sub32};
use crate::event::{extends, lemma_extends_push, lemma_extends_trans, Event, EventSink};
use crate::ids::faction_ordinal;
use vstd::prelude::*;

verus! {

// ---------------------------------------------------------------------------
// Prices
// ---------------------------------------------------------------------------

/// Units in a territory whose kind `pick` (pawn, warrior, knight) selects.
pub open spec fn units_counted(w: World, tid: TerritoryId, pick: (bool, bool, bool)) -> nat {
    match find_territory(w.territories@, tid) {
        Some(t) => t.tiles@.filter(unit_counted(w.tiles@, w.units@, pick)).len(),
        None => 0,
    }
}

/// Tiles of a kind in a territory.
pub open spec fn kinds_counted(w: World, tid: TerritoryId, k: TileKind) -> nat {
    match find_territory(w.territories@, tid) {
        Some(t) => of_kind(w.tiles@, t.tiles@, k).len(),
        None => 0,
    }
}

pub open spec fn recruit_price(w: World, r: Ruleset, tid: TerritoryId) -> i32 {
    cost_at(r.costs.recruit_pawn, units_counted(w, tid, (true, true, true)))
}

pub open spec fn town_price(w: World, r: Ruleset, tid: TerritoryId) -> i32 {
    cost_at(r.costs.build_town, kinds_counted(w, tid, TileKind::Town))
}

pub open spec fn field_price(w: World, r: Ruleset, tid: TerritoryId) -> i32 {
    cost_at(r.costs.build_field, kinds_counted(w, tid, TileKind::Field))
}

/// What upgrading a unit would make, cost, and which treasury pays: the
/// next kind up, priced by the warriors and knights (or, for a knight, the
/// knights) already in the territory the unit stands in.
pub open spec fn upgrade_spec(w: World, r: Ruleset, uid: UnitId) -> Option<(UnitKind, i32, TerritoryId)> {
    match find_unit(w.units@, uid) {
        None => None,
        Some(u) => match spec_profile(r, u.kind).upgrades_to {
            None => None,
            Some(next) => match w.tiles@[u.tile.0 as int].territory {
                None => None,
                Some(tid) => Some(
                    (
                        next,
                        if next == UnitKind::Knight {
                            cost_at(r.costs.upgrade_knight, units_counted(w, tid, (false, false, true)))
                        } else {
                            cost_at(r.costs.upgrade_warrior, units_counted(w, tid, (false, true, true)))
                        },
                        tid,
                    ),
                ),
            },
        },
    }
}

/// The price of recruiting a pawn into a territory: it scales with every
/// unit already there.
pub fn recruit_cost(world: &World, rules: &Ruleset, territory: TerritoryId) -> (p: i32)
    requires
        world.wf(),
    ensures
        p == recruit_price(*world, *rules, territory),
{
    let n = world.count_units_in(territory, cost_filters::any_unit);
    rules.costs.recruit_pawn.at(n)
}

/// The price of a town: it scales with the towns already there.
pub fn build_town_cost(world: &World, rules: &Ruleset, territory: TerritoryId) -> (p: i32)
    requires
        world.wf(),
    ensures
        p == town_price(*world, *rules, territory),
{
    rules.costs.build_town.at(world.count_kind_in(territory, TileKind::Town))
}

/// The price of a field: it scales with the fields already there.
pub fn build_field_cost(world: &World, rules: &Ruleset, territory: TerritoryId) -> (p: i32)
    requires
        world.wf(),
    ensures
        p == field_price(*world, *rules, territory),
{
    rules.costs.build_field.at(world.count_kind_in(territory, TileKind::Field))
}

/// What upgrading a unit would produce, cost, and which treasury pays;
/// `None` at the top of its chain or outside any territory.
pub fn upgrade_plan(world: &World, rules: &Ruleset, unit: UnitId) -> (plan: Option<(UnitKind, i32, TerritoryId)>)
    requires
        world.wf(),
        rules.has_all_profiles(),
    ensures
        plan == upgrade_spec(*world, *rules, unit),
{
    let u = match world.unit(unit) {
        Some(u) => u,
        None => return None,
    };
    proof {
        lemma_unit_pos_from(world.units@, unit, 0);
    }
    let next = match rules.unit(u.kind).upgrades_to {
        Some(k) => k,
        None => return None,
    };
    let territory = match world.tile(u.tile).territory {
        Some(t) => t,
        None => return None,
    };
    let cost = match next {
        UnitKind::Knight => rules.costs.upgrade_knight.at(world.count_units_in(territory, cost_filters::knight_only)),
        _ => rules.costs.upgrade_warrior.at(world.count_units_in(territory, cost_filters::warrior_or_knight)),
    };
    Some((next, cost, territory))
}

// ---------------------------------------------------------------------------
// Validation
// ---------------------------------------------------------------------------

pub open spec fn own_unit_spec(w: World, uid: UnitId, active: Faction) -> Result<Unit, Rejection> {
    match find_unit(w.units@, uid) {
        None => Err(Rejection::NoSuchUnit(uid)),
        Some(u) => if u.faction != active {
            Err(Rejection::NotYourUnit { unit: uid, owner: u.faction, active })
        } else {
            Ok(u)
        },
    }
}

pub open spec fn own_territory_spec(w: World, tid: TerritoryId, active: Faction) -> Result<Territory, Rejection> {
    match find_territory(w.territories@, tid) {
        None => Err(Rejection::NoSuchTerritory(tid)),
        Some(t) => if t.faction != active {
            Err(Rejection::NotYourTerritory { territory: tid, owner: t.faction, active })
        } else {
            Ok(t)
        },
    }
}

pub open spec fn afford_spec(w: World, tid: TerritoryId, needed: i32) -> Result<(), Rejection> {
    match find_territory(w.territories@, tid) {
        None => Err(Rejection::NoSuchTerritory(tid)),
        Some(t) => if t.gold < needed {
            Err(Rejection::NotEnoughGold { territory: tid, needed, available: t.gold })
        } else {
            Ok(())
        },
    }
}

/// Towns and fields share every precondition but the price.
pub open spec fn build_spec(w: World, tid: TerritoryId, at: TileId, active: Faction) -> Result<(), Rejection> {
    match own_territory_spec(w, tid, active) {
        Err(e) => Err(e),
        Ok(t) => if !t.tiles@.contains(at) {
            Err(Rejection::NotInTerritory { tile: at, territory: tid })
        } else if w.tiles@[at.0 as int].kind != TileKind::Empty {
            Err(Rejection::TileNotEmpty { tile: at, found: w.tiles@[at.0 as int].kind })
        } else {
            Ok(())
        },
    }
}

/// The verdict on a command: the first rule it breaks, in the order the
/// checks are made, or `Ok`.
pub open spec fn validate_spec(w: World, r: Ruleset, cmd: Command) -> Result<(), Rejection> {
    if w.outcome is Some {
        Err(Rejection::GameOver)
    } else {
        match current_faction_of(w.players@, w.turn_index) {
            None => Err(Rejection::NoActivePlayer),
            Some(active) => match cmd {
                Command::EndTurn => Ok(()),
                Command::MoveUnit { unit, to } => match own_unit_spec(w, unit, active) {
                    Err(e) => Err(e),
                    Ok(u) => if u.moved {
                        Err(Rejection::AlreadyMoved(unit))
                    } else if to.0 >= w.tiles@.len() {
                        Err(Rejection::NoSuchTile(to))
                    } else if enter_spec(w, r, unit, to) is Err {
                        enter_spec(w, r, unit, to)
                    } else if !reach_ok(w, r, unit, to.0 as int) {
                        Err(Rejection::Unreachable { from: u.tile, to })
                    } else {
                        Ok(())
                    },
                },
                Command::UpgradeUnit { unit } => match own_unit_spec(w, unit, active) {
                    Err(e) => Err(e),
                    Ok(u) => if u.moved {
                        Err(Rejection::AlreadyMoved(unit))
                    } else {
                        match upgrade_spec(w, r, unit) {
                            None => Err(Rejection::NoUpgradeAvailable(u.kind)),
                            Some(plan) => afford_spec(w, plan.2, plan.1),
                        }
                    },
                },
                Command::RecruitUnit { territory, at } => match own_territory_spec(w, territory, active) {
                    Err(e) => Err(e),
                    Ok(t) => if !t.tiles@.contains(at) {
                        Err(Rejection::NotInTerritory { tile: at, territory })
                    } else if w.tiles@[at.0 as int].unit is Some {
                        Err(Rejection::TileOccupied(at))
                    } else {
                        afford_spec(w, territory, recruit_price(w, r, territory))
                    },
                },
                Command::BuildTown { territory, at } => match build_spec(w, territory, at, active) {
                    Err(e) => Err(e),
                    Ok(_) => afford_spec(w, territory, town_price(w, r, territory)),
                },
                Command::BuildField { territory, at } => match build_spec(w, territory, at, active) {
                    Err(e) => Err(e),
                    Ok(_) => afford_spec(w, territory, field_price(w, r, territory)),
                },
            },
        }
    }
}

fn own_unit(world: &World, unit: UnitId, active: Faction) -> (res: Result<&Unit, Rejection>)
    ensures
        match res {
            Ok(u) => own_unit_spec(*world, unit, active) == Ok::<Unit, Rejection>(*u),
            Err(e) => own_unit_spec(*world, unit, active) == Err::<Unit, Rejection>(e),
        },
{
    let u = match world.unit(unit) {
        Some(u) => u,
        None => return Err(Rejection::NoSuchUnit(unit)),
    };
    if u.faction != active {
        return Err(Rejection::NotYourUnit { unit, owner: u.faction, active });
    }
    Ok(u)
}

fn own_territory(world: &World, territory: TerritoryId, active: Faction) -> (res: Result<&Territory, Rejection>)
    ensures
        match res {
            Ok(t) => own_territory_spec(*world, territory, active) == Ok::<Territory, Rejection>(*t),
            Err(e) => own_territory_spec(*world, territory, active) == Err::<Territory, Rejection>(e),
        },
{
    let t = match world.territory(territory) {
        Some(t) => t,
        None => return Err(Rejection::NoSuchTerritory(territory)),
    };
    if t.faction != active {
        return Err(Rejection::NotYourTerritory { territory, owner: t.faction, active });
    }
    Ok(t)
}

fn afford(world: &World, territory: TerritoryId, needed: i32) -> (res: Result<(), Rejection>)
    ensures
        res == afford_spec(*world, territory, needed),
{
    let t = match world.territory(territory) {
        Some(t) => t,
        None => return Err(Rejection::NoSuchTerritory(territory)),
    };
    if t.gold < needed {
        return Err(Rejection::NotEnoughGold { territory, needed, available: t.gold });
    }
    Ok(())
}

fn validate_build(world: &World, territory: TerritoryId, at: TileId, active: Faction) -> (res: Result<(), Rejection>)
    requires
        world.wf(),
    ensures
        res == build_spec(*world, territory, at, active),
{
    let t = match own_territory(world, territory, active) {
        Ok(t) => t,
        Err(e) => return Err(e),
    };
    proof {
        lemma_territory_pos_from(world.territories@, territory, 0);
    }
    if !crate::tileset::contains_tile(&t.tiles, at) {
        return Err(Rejection::NotInTerritory { tile: at, territory });
    }
    proof {
        let k = choose|k: int| 0 <= k < t.tiles@.len() && t.tiles@[k] == at;
        assert(t.tiles@[k].0 < world.tiles@.len());
    }
    let kind = world.tile(at).kind;
    if kind != TileKind::Empty {
        return Err(Rejection::TileNotEmpty { tile: at, found: kind });
    }
    Ok(())
}

/// Check a command without changing anything.
pub fn validate(world: &World, rules: &Ruleset, cmd: &Command) -> (res: Result<(), Rejection>)
    requires
        world.wf(),
        rules.has_all_profiles(),
    ensures
        res == validate_spec(*world, *rules, *cmd),
{
    if world.is_over() {
        return Err(Rejection::GameOver);
    }
    let active = match world.current_faction() {
        Some(f) => f,
        None => return Err(Rejection::NoActivePlayer),
    };
    match cmd {
        Command::EndTurn => Ok(()),
        Command::MoveUnit { unit, to } => {
            let u = match own_unit(world, *unit, active) {
                Ok(u) => u,
                Err(e) => return Err(e),
            };
            if u.moved {
                return Err(Rejection::AlreadyMoved(*unit));
            }
            if to.index() >= world.tiles.len() {
                return Err(Rejection::NoSuchTile(*to));
            }
            match can_enter(world, rules, *unit, *to) {
                Err(e) => return Err(e),
                Ok(()) => {},
            }
            let from = u.tile;
            let reach = reachable(world, rules, *unit);
            if !crate::tileset::contains_tile(&reach, *to) {
                return Err(Rejection::Unreachable { from, to: *to });
            }
            Ok(())
        },
        Command::UpgradeUnit { unit } => {
            let u = match own_unit(world, *unit, active) {
                Ok(u) => u,
                Err(e) => return Err(e),
            };
            if u.moved {
                return Err(Rejection::AlreadyMoved(*unit));
            }
            let kind = u.kind;
            match upgrade_plan(world, rules, *unit) {
                None => Err(Rejection::NoUpgradeAvailable(kind)),
                Some((_, cost, territory)) => afford(world, territory, cost),
            }
        },
        Command::RecruitUnit { territory, at } => {
            let t = match own_territory(world, *territory, active) {
                Ok(t) => t,
                Err(e) => return Err(e),
            };
            proof {
                lemma_territory_pos_from(world.territories@, *territory, 0);
            }
            if !crate::tileset::contains_tile(&t.tiles, *at) {
                return Err(Rejection::NotInTerritory { tile: *at, territory: *territory });
            }
            proof {
                let k = choose|k: int| 0 <= k < t.tiles@.len() && t.tiles@[k] == *at;
                assert(t.tiles@[k].0 < world.tiles@.len());
            }
            if world.tile(*at).unit.is_some() {
                return Err(Rejection::TileOccupied(*at));
            }
            afford(world, *territory, recruit_cost(world, rules, *territory))
        },
        Command::BuildTown { territory, at } => {
            match validate_build(world, *territory, *at, active) {
                Err(e) => return Err(e),
                Ok(()) => {},
            }
            afford(world, *territory, build_town_cost(world, rules, *territory))
        },
        Command::BuildField { territory, at } => {
            match validate_build(world, *territory, *at, active) {
                Err(e) => return Err(e),
                Ok(()) => {},
            }
            afford(world, *territory, build_field_cost(world, rules, *territory))
        },
    }
}

/// What a command would cost in gold; `None` for commands that cost
/// nothing.
pub fn cost_of(world: &World, rules: &Ruleset, cmd: &Command) -> (c: Option<i32>)
    requires
        world.wf(),
        rules.has_all_profiles(),
    ensures
        c == match *cmd {
            Command::RecruitUnit { territory, .. } => Some(recruit_price(*world, *rules, territory)),
            Command::BuildTown { territory, .. } => Some(town_price(*world, *rules, territory)),
            Command::BuildField { territory, .. } => Some(field_price(*world, *rules, territory)),
            Command::UpgradeUnit { unit } => match upgrade_spec(*world, *rules, unit) {
                Some(plan) => Some(plan.1),
                None => None,
            },
            Command::MoveUnit { .. } => None,
            Command::EndTurn => None,
        },
{
    match cmd {
        Command::RecruitUnit { territory, .. } => Some(recruit_cost(world, rules, *territory)),
        Command::BuildTown { territory, .. } => Some(build_town_cost(world, rules, *territory)),
        Command::BuildField { territory, .. } => Some(build_field_cost(world, rules, *territory)),
        Command::UpgradeUnit { unit } => match upgrade_plan(world, rules, *unit) {
            Some((_, c, _)) => Some(c),
            None => None,
        },
        Command::MoveUnit { .. } => None,
        Command::EndTurn => None,
    }
}


// ---------------------------------------------------------------------------
// Every legal command
// ---------------------------------------------------------------------------

/// The unit a command acts on, if any.
pub open spec fn cmd_unit(c: Command) -> Option<UnitId> {
    match c {
        Command::MoveUnit { unit, .. } => Some(unit),
        Command::UpgradeUnit { unit } => Some(unit),
        _ => None,
    }
}

/// The territory a command spends from, if any.
pub open spec fn cmd_territory(c: Command) -> Option<TerritoryId> {
    match c {
        Command::RecruitUnit { territory, .. } => Some(territory),
        Command::BuildTown { territory, .. } => Some(territory),
        Command::BuildField { territory, .. } => Some(territory),
        _ => None,
    }
}

/// The tile a territory command acts on.
pub open spec fn cmd_at(c: Command) -> TileId {
    match c {
        Command::RecruitUnit { at, .. } => at,
        Command::BuildTown { at, .. } => at,
        Command::BuildField { at, .. } => at,
        Command::MoveUnit { to, .. } => to,
        _ => TileId(0),
    }
}

proof fn lemma_push_keeps(out: Seq<Command>, c: Command, d: Command)
    ensures
        out.contains(d) ==> out.push(c).contains(d),
        out.push(c).contains(c),
        out.push(c).contains(d) ==> (out.contains(d) || d == c),
{
    if out.contains(d) {
        let k = choose|k: int| 0 <= k < out.len() && out[k] == d;
        assert(out.push(c)[k] == d);
    }
    assert(out.push(c)[out.len() as int] == c);
    if out.push(c).contains(d) {
        let k = choose|k: int| 0 <= k < out.push(c).len() && out.push(c)[k] == d;
        if k < out.len() {
            assert(out[k] == d);
        }
    }
}

/// Every command the active player could legally issue right now: moves
/// and upgrades by unit id, then recruits and builds by territory id and
/// tile, then ending the turn.
#[verifier::rlimit(60)]
pub fn legal_commands(world: &World, rules: &Ruleset) -> (out: Vec<Command>)
    requires
        world.wf(),
        rules.has_all_profiles(),
    ensures
        forall|c: Command| #[trigger] out@.contains(c) ==> validate_spec(*world, *rules, c) is Ok,
        forall|c: Command| validate_spec(*world, *rules, c) is Ok ==> #[trigger] out@.contains(c),
        out@.len() > 0 ==> out@.last() == Command::EndTurn,
        forall|i: int| 0 <= i < out@.len() - 1 ==> out@[i] != Command::EndTurn,
{
    let mut out: Vec<Command> = Vec::new();
    let active = match world.current_faction() {
        Some(f) => f,
        None => return out,
    };
    if world.is_over() {
        return out;
    }
    let ghost w = *world;
    let ghost r = *rules;
    let mut i: usize = 0;
    while i < world.units.len()
        invariant
            world.wf(),
            rules.has_all_profiles(),
            w == *world,
            r == *rules,
            world.outcome is None,
            current_faction_of(world.players@, world.turn_index) == Some(active),
            i <= world.units@.len(),
            forall|c: Command| #[trigger] out@.contains(c) ==> validate_spec(w, r, c) is Ok,
            forall|c: Command| #![trigger validate_spec(w, r, c)] validate_spec(w, r, c) is Ok
                && cmd_unit(c) is Some && crate::state::unit_pos(world.units@, cmd_unit(c)->0) < i ==> out@.contains(c),
            forall|c: Command| #[trigger] out@.contains(c) ==> cmd_unit(c) is Some,
        decreases world.units@.len() - i,
    {
        let u = world.units[i];
        proof {
            crate::state::lemma_find_unit_ascending(world.units@, i as int);
        }
        if u.faction == active && !u.moved {
            let reach = reachable(world, rules, u.id);
            let mut k: usize = 0;
            while k < reach.len()
                invariant
                    world.wf(),
                    rules.has_all_profiles(),
                    w == *world,
                    r == *rules,
                    world.outcome is None,
                    current_faction_of(world.players@, world.turn_index) == Some(active),
                    i < world.units@.len(),
                    u == world.units@[i as int],
                    find_unit(world.units@, u.id) == Some(u),
                    crate::state::unit_pos(world.units@, u.id) == i,
                    u.faction == active,
                    !u.moved,
                    k <= reach@.len(),
                    forall|x: TileId| #[trigger] reach@.contains(x) <==> (x.0 < world.tiles@.len() && reach_ok(w, r, u.id, x.0 as int)),
                    forall|x: TileId| #[trigger] reach@.contains(x) ==> enter_spec(w, r, u.id, x) is Ok,
                    forall|c: Command| #[trigger] out@.contains(c) ==> validate_spec(w, r, c) is Ok,
                    forall|c: Command| #![trigger validate_spec(w, r, c)] validate_spec(w, r, c) is Ok
                        && cmd_unit(c) is Some && crate::state::unit_pos(world.units@, cmd_unit(c)->0) < i ==> out@.contains(c),
                    forall|x: TileId| #[trigger] reach@.take(k as int).contains(x) ==> out@.contains(Command::MoveUnit { unit: u.id, to: x }),
                    forall|c: Command| #[trigger] out@.contains(c) ==> cmd_unit(c) is Some,
                decreases reach@.len() - k,
            {
                let to = reach[k];
                let c = Command::MoveUnit { unit: u.id, to };
                let ghost before = out@;
                proof {
                    assert(reach@.contains(to));
                    assert(validate_spec(w, r, c) is Ok);
                }
                out.push(c);
                proof {
                    assert forall|d: Command| #[trigger] out@.contains(d) implies validate_spec(w, r, d) is Ok by {
                        lemma_push_keeps(before, c, d);
                    }
                    assert forall|d: Command| #[trigger] out@.contains(d) implies cmd_unit(d) is Some by {
                        lemma_push_keeps(before, c, d);
                    }
                    assert forall|d: Command| #![trigger validate_spec(w, r, d)] validate_spec(w, r, d) is Ok
                        && cmd_unit(d) is Some && crate::state::unit_pos(world.units@, cmd_unit(d)->0) < i implies out@.contains(d) by {
                        lemma_push_keeps(before, c, d);
                    }
                    assert forall|x: TileId| #[trigger] reach@.take(k + 1).contains(x) implies out@.contains(Command::MoveUnit { unit: u.id, to: x }) by {
                        lemma_push_keeps(before, c, Command::MoveUnit { unit: u.id, to: x });
                        let s1 = reach@.take(k + 1);
                        let a = choose|a: int| 0 <= a < s1.len() && s1[a] == x;
                        if a < k {
                            assert(reach@.take(k as int)[a] == x);
                            assert(reach@.take(k as int).contains(x));
                        } else {
                            assert(x == to);
                        }
                    }
                }
                k = k + 1;
            }
            proof {
                assert(reach@.take(k as int) =~= reach@);
            }
            let plan = upgrade_plan(world, rules, u.id);
            let ok = match plan {
                Some((_, cost, territory)) => afford(world, territory, cost).is_ok(),
                None => false,
            };
            let up = Command::UpgradeUnit { unit: u.id };
            proof {
                let pl = upgrade_spec(w, r, u.id);
                assert(ok == (pl is Some && afford_spec(w, pl.unwrap().2, pl.unwrap().1) is Ok));
            }
            if ok {
                let ghost before = out@;
                out.push(up);
                proof {
                    lemma_push_keeps(before, up, up);
                    assert forall|d: Command| #[trigger] out@.contains(d) implies validate_spec(w, r, d) is Ok by {
                        lemma_push_keeps(before, up, d);
                    }
                    assert forall|d: Command| #[trigger] out@.contains(d) implies cmd_unit(d) is Some by {
                        lemma_push_keeps(before, up, d);
                    }
                    assert forall|d: Command| #![trigger validate_spec(w, r, d)] validate_spec(w, r, d) is Ok
                        && cmd_unit(d) is Some && crate::state::unit_pos(world.units@, cmd_unit(d)->0) < i implies out@.contains(d) by {
                        lemma_push_keeps(before, up, d);
                    }
                    assert forall|x: TileId| #[trigger] reach@.contains(x) implies out@.contains(Command::MoveUnit { unit: u.id, to: x }) by {
                        lemma_push_keeps(before, up, Command::MoveUnit { unit: u.id, to: x });
                        assert(reach@.take(reach@.len() as int).contains(x));
                    }
                }
            } else {
                proof {
                    assert forall|x: TileId| #[trigger] reach@.contains(x) implies out@.contains(Command::MoveUnit { unit: u.id, to: x }) by {
                        assert(reach@.take(reach@.len() as int).contains(x));
                    }
                }
            }
            proof {
                assert forall|d: Command| #![trigger validate_spec(w, r, d)] validate_spec(w, r, d) is Ok
                    && cmd_unit(d) is Some && crate::state::unit_pos(world.units@, cmd_unit(d)->0) < i + 1 implies out@.contains(d) by {
                    let uid = cmd_unit(d)->0;
                    if crate::state::unit_pos(world.units@, uid) == i {
                        crate::state::lemma_unit_pos_from(world.units@, uid, 0);
                        assert(uid == u.id);
                        match d {
                            Command::MoveUnit { unit, to } => {
                                assert(reach@.contains(to));
                            },
                            Command::UpgradeUnit { unit } => {
                                assert(ok);
                                assert(out@.contains(up));
                            },
                            _ => {},
                        }
                    }
                }
            }
        } else {
            proof {
                assert forall|d: Command| #![trigger validate_spec(w, r, d)] validate_spec(w, r, d) is Ok
                    && cmd_unit(d) is Some && crate::state::unit_pos(world.units@, cmd_unit(d)->0) < i + 1 implies out@.contains(d) by {
                    let uid = cmd_unit(d)->0;
                    if crate::state::unit_pos(world.units@, uid) == i {
                        crate::state::lemma_unit_pos_from(world.units@, uid, 0);
                        assert(uid == u.id);
                    }
                }
            }
        }
        i = i + 1;
    }
    let ghost after_units = out@;
    proof {
        assert(!out@.contains(Command::EndTurn));
        assert forall|d: Command| #![trigger validate_spec(w, r, d)] validate_spec(w, r, d) is Ok && cmd_unit(d) is Some implies out@.contains(d) by {
            let uid = cmd_unit(d)->0;
            crate::state::lemma_unit_pos_from(world.units@, uid, 0);
        }
    }
    let mut j: usize = 0;
    while j < world.territories.len()
        invariant
            world.wf(),
            rules.has_all_profiles(),
            w == *world,
            r == *rules,
            world.outcome is None,
            current_faction_of(world.players@, world.turn_index) == Some(active),
            j <= world.territories@.len(),
            !out@.contains(Command::EndTurn),
            forall|c: Command| #[trigger] out@.contains(c) ==> validate_spec(w, r, c) is Ok,
            forall|c: Command| #![trigger validate_spec(w, r, c)] validate_spec(w, r, c) is Ok && cmd_unit(c) is Some ==> out@.contains(c),
            forall|c: Command| #![trigger validate_spec(w, r, c)] validate_spec(w, r, c) is Ok
                && cmd_territory(c) is Some && crate::state::territory_pos(world.territories@, cmd_territory(c)->0) < j ==> out@.contains(c),
        decreases world.territories@.len() - j,
    {
        let t = &world.territories[j];
        proof {
            crate::state::lemma_find_territory_ascending(world.territories@, j as int);
        }
        if t.faction == active {
            let tid = t.id;
            let recruit = recruit_cost(world, rules, tid);
            let town = build_town_cost(world, rules, tid);
            let field = build_field_cost(world, rules, tid);
            let gold = t.gold;
            let mut k: usize = 0;
            while k < t.tiles.len()
                invariant
                    world.wf(),
                    rules.has_all_profiles(),
                    w == *world,
                    r == *rules,
                    world.outcome is None,
                    current_faction_of(world.players@, world.turn_index) == Some(active),
                    j < world.territories@.len(),
                    *t == world.territories@[j as int],
                    tid == t.id,
                    find_territory(world.territories@, tid) == Some(*t),
                    crate::state::territory_pos(world.territories@, tid) == j,
                    t.faction == active,
                    gold == t.gold,
                    recruit == recruit_price(w, r, tid),
                    town == town_price(w, r, tid),
                    field == field_price(w, r, tid),
                    k <= t.tiles@.len(),
                    !out@.contains(Command::EndTurn),
                    forall|c: Command| #[trigger] out@.contains(c) ==> validate_spec(w, r, c) is Ok,
                    forall|c: Command| #![trigger validate_spec(w, r, c)] validate_spec(w, r, c) is Ok && cmd_unit(c) is Some ==> out@.contains(c),
                    forall|c: Command| #![trigger validate_spec(w, r, c)] validate_spec(w, r, c) is Ok
                        && cmd_territory(c) is Some && crate::state::territory_pos(world.territories@, cmd_territory(c)->0) < j ==> out@.contains(c),
                    forall|c: Command| #![trigger validate_spec(w, r, c)] validate_spec(w, r, c) is Ok
                        && cmd_territory(c) == Some(tid) && t.tiles@.take(k as int).contains(cmd_at(c)) ==> out@.contains(c),
                decreases t.tiles@.len() - k,
            {
                let at = t.tiles[k];
                let ghost start = out@;
                proof {
                    assert(t.tiles@.contains(at));
                    assert(at.0 < world.tiles@.len());
                }
                let tile = world.tile(at);
                let cr = gold >= recruit && tile.unit.is_none();
                let ct = tile.kind == TileKind::Empty && gold >= town;
                let cf = tile.kind == TileKind::Empty && gold >= field;
                let c_r = Command::RecruitUnit { territory: tid, at };
                let c_t = Command::BuildTown { territory: tid, at };
                let c_f = Command::BuildField { territory: tid, at };
                proof {
                    assert(cr ==> validate_spec(w, r, c_r) is Ok);
                    assert(ct ==> validate_spec(w, r, c_t) is Ok);
                    assert(cf ==> validate_spec(w, r, c_f) is Ok);
                    assert(validate_spec(w, r, c_r) is Ok ==> cr);
                    assert(validate_spec(w, r, c_t) is Ok ==> ct);
                    assert(validate_spec(w, r, c_f) is Ok ==> cf);
                }
                if cr {
                    out.push(c_r);
                }
                let ghost s1 = out@;
                proof {
                    assert forall|d: Command| start.contains(d) implies #[trigger] s1.contains(d) by {
                        if cr {
                            lemma_push_keeps(start, c_r, d);
                        }
                    }
                    if cr {
                        lemma_push_keeps(start, c_r, c_r);
                    }
                    assert forall|d: Command| #[trigger] s1.contains(d) implies (start.contains(d) || (cr && d == c_r)) by {
                        if cr {
                            lemma_push_keeps(start, c_r, d);
                        }
                    }
                }
                if ct {
                    out.push(c_t);
                }
                let ghost s2 = out@;
                proof {
                    assert forall|d: Command| s1.contains(d) implies #[trigger] s2.contains(d) by {
                        if ct {
                            lemma_push_keeps(s1, c_t, d);
                        }
                    }
                    if ct {
                        lemma_push_keeps(s1, c_t, c_t);
                    }
                    assert forall|d: Command| #[trigger] s2.contains(d) implies (s1.contains(d) || (ct && d == c_t)) by {
                        if ct {
                            lemma_push_keeps(s1, c_t, d);
                        }
                    }
                }
                if cf {
                    out.push(c_f);
                }
                proof {
                    assert forall|d: Command| s2.contains(d) implies #[trigger] out@.contains(d) by {
                        if cf {
                            lemma_push_keeps(s2, c_f, d);
                        }
                    }
                    if cf {
                        lemma_push_keeps(s2, c_f, c_f);
                    }
                    assert forall|d: Command| #[trigger] out@.contains(d) implies (s2.contains(d) || (cf && d == c_f)) by {
                        if cf {
                            lemma_push_keeps(s2, c_f, d);
                        }
                    }
                    assert forall|d: Command| #[trigger] out@.contains(d) implies validate_spec(w, r, d) is Ok by {
                        if out@.contains(d) && !s2.contains(d) {
                        } else if s2.contains(d) && !s1.contains(d) {
                        } else if s1.contains(d) && !start.contains(d) {
                        }
                    }
                    assert forall|d: Command| #![trigger validate_spec(w, r, d)] validate_spec(w, r, d) is Ok && cmd_unit(d) is Some implies out@.contains(d) by {
                        assert(start.contains(d));
                        assert(s1.contains(d));
                        assert(s2.contains(d));
                    }
                    assert forall|d: Command| #![trigger validate_spec(w, r, d)] validate_spec(w, r, d) is Ok
                        && cmd_territory(d) is Some && crate::state::territory_pos(world.territories@, cmd_territory(d)->0) < j implies out@.contains(d) by {
                        assert(start.contains(d));
                        assert(s1.contains(d));
                        assert(s2.contains(d));
                    }
                    assert forall|d: Command| #![trigger validate_spec(w, r, d)] validate_spec(w, r, d) is Ok
                        && cmd_territory(d) == Some(tid) && t.tiles@.take(k + 1).contains(cmd_at(d)) implies out@.contains(d) by {
                        let s = t.tiles@.take(k + 1);
                        let a = choose|a: int| 0 <= a < s.len() && s[a] == cmd_at(d);
                        if a < k {
                            assert(t.tiles@.take(k as int)[a] == cmd_at(d));
                            assert(t.tiles@.take(k as int).contains(cmd_at(d)));
                            assert(start.contains(d));
                            assert(s1.contains(d));
                            assert(s2.contains(d));
                        } else {
                            assert(cmd_at(d) == at);
                            match d {
                                Command::RecruitUnit { .. } => {
                                    assert(d == c_r);
                                    assert(s1.contains(d));
                                    assert(s2.contains(d));
                                },
                                Command::BuildTown { .. } => {
                                    assert(d == c_t);
                                    assert(s2.contains(d));
                                },
                                Command::BuildField { .. } => {
                                    assert(d == c_f);
                                },
                                _ => {},
                            }
                        }
                    }
                }
                k = k + 1;
            }
            proof {
                assert(t.tiles@.take(k as int) =~= t.tiles@);
                assert forall|d: Command| #![trigger validate_spec(w, r, d)] validate_spec(w, r, d) is Ok
                    && cmd_territory(d) is Some && crate::state::territory_pos(world.territories@, cmd_territory(d)->0) < j + 1 implies out@.contains(d) by {
                    let id = cmd_territory(d)->0;
                    if crate::state::territory_pos(world.territories@, id) == j {
                        lemma_territory_pos_from(world.territories@, id, 0);
                        assert(id == tid);
                        assert(t.tiles@.contains(cmd_at(d)));
                    }
                }
            }
        } else {
            proof {
                assert forall|d: Command| #![trigger validate_spec(w, r, d)] validate_spec(w, r, d) is Ok
                    && cmd_territory(d) is Some && crate::state::territory_pos(world.territories@, cmd_territory(d)->0) < j + 1 implies out@.contains(d) by {
                    let id = cmd_territory(d)->0;
                    if crate::state::territory_pos(world.territories@, id) == j {
                        lemma_territory_pos_from(world.territories@, id, 0);
                        assert(id == t.id);
                    }
                }
            }
        }
        j = j + 1;
    }
    let ghost before = out@;
    let c = Command::EndTurn;
    out.push(c);
    proof {
        assert forall|i: int| 0 <= i < out@.len() - 1 implies out@[i] != Command::EndTurn by {
            assert(out@[i] == before[i]);
            if before[i] == Command::EndTurn {
                assert(before.contains(Command::EndTurn));
            }
        }
        assert forall|d: Command| #[trigger] out@.contains(d) implies validate_spec(w, r, d) is Ok by {
            lemma_push_keeps(before, c, d);
        }
        assert forall|d: Command| validate_spec(w, r, d) is Ok implies #[trigger] out@.contains(d) by {
            lemma_push_keeps(before, c, d);
            match d {
                Command::EndTurn => {},
                Command::MoveUnit { .. } => {},
                Command::UpgradeUnit { .. } => {},
                _ => {
                    let id = cmd_territory(d)->0;
                    lemma_territory_pos_from(world.territories@, id, 0);
                },
            }
        }
    }
    out
}


// ---------------------------------------------------------------------------
// Application
// ---------------------------------------------------------------------------

/// What recruiting a pawn into `tid` at `at` does to a world: a fresh,
/// already-acted pawn of the territory's faction stands on the tile, and
/// the territory pays the recruiting price.
pub open spec fn recruit_effect(o: World, w: World, r: Ruleset, tid: TerritoryId, at: TileId) -> bool {
    let ti = territory_pos(o.territories@, tid);
    let t = o.territories@[ti];
    let id = UnitId(o.counters().0);
    &&& w.units@ == o.units@.push(Unit { id, kind: UnitKind::Pawn, faction: t.faction, tile: at, born: o.counters().2, moved: true })
    &&& w.tiles@ == o.tiles@.update(at.0 as int, Tile { unit: Some(id), ..o.tiles@[at.0 as int] })
    &&& w.territories@.len() == o.territories@.len()
    &&& w.territories@[ti]@ == (TerritoryModel { gold: clamp32(t.gold - recruit_price(o, r, tid)), ..t@ })
    &&& forall|j: int| 0 <= j < o.territories@.len() && j != ti ==> w.territories@[j] == o.territories@[j]
    &&& w.counters() == ((o.counters().0 + 1) as u32, o.counters().1, (o.counters().2 + 1) as u32)
    &&& stats_or_zero(w.stats@, t.faction).units_recruited == cap_u32(stats_or_zero(o.stats@, t.faction).units_recruited + 1)
}

/// What building `kind` on `at` in `tid` does: the tile holds the building
/// and the territory pays its price.
pub open spec fn build_effect(o: World, w: World, r: Ruleset, tid: TerritoryId, at: TileId, kind: TileKind, price: i32) -> bool {
    let ti = territory_pos(o.territories@, tid);
    let t = o.territories@[ti];
    &&& w.tiles@ == o.tiles@.update(at.0 as int, Tile { kind, ..o.tiles@[at.0 as int] })
    &&& w.units == o.units
    &&& w.territories@.len() == o.territories@.len()
    &&& w.territories@[ti]@ == (TerritoryModel { gold: clamp32(t.gold - price), ..t@ })
    &&& forall|j: int| 0 <= j < o.territories@.len() && j != ti ==> w.territories@[j] == o.territories@[j]
    &&& w.counters() == o.counters()
}

/// What upgrading a unit does: it becomes the next kind up and has acted,
/// keeping its creation stamp, and the territory it stands in pays.
pub open spec fn upgrade_effect(o: World, w: World, r: Ruleset, uid: UnitId) -> bool {
    let plan = upgrade_spec(o, r, uid).unwrap();
    let ui = unit_pos(o.units@, uid);
    let ti = territory_pos(o.territories@, plan.2);
    let t = o.territories@[ti];
    &&& w.units@ == o.units@.update(ui, Unit { kind: plan.0, moved: true, ..o.units@[ui] })
    &&& w.tiles == o.tiles
    &&& w.territories@.len() == o.territories@.len()
    &&& w.territories@[ti]@ == (TerritoryModel { gold: clamp32(t.gold - plan.1), ..t@ })
    &&& forall|j: int| 0 <= j < o.territories@.len() && j != ti ==> w.territories@[j] == o.territories@[j]
    &&& w.counters() == o.counters()
}

/// What a move onto ground its faction already holds does: the unit stands
/// on the new tile and has acted, the tile it left is vacated, and nothing
/// else changes.
pub open spec fn step_effect(o: World, w: World, uid: UnitId, to: TileId) -> bool {
    let ui = unit_pos(o.units@, uid);
    let u = o.units@[ui];
    let from = u.tile.0 as int;
    &&& w.units@ == o.units@.update(ui, Unit { tile: to, moved: true, ..u })
    &&& w.tiles@ == o.tiles@.update(from, Tile { unit: None, ..o.tiles@[from] }).update(
        to.0 as int,
        Tile { unit: Some(uid), ..o.tiles@[to.0 as int] },
    )
    &&& w.territories == o.territories
    &&& w.stats == o.stats
    &&& w.counters() == o.counters()
}

/// Whether moving `uid` onto `to` stays inside its faction's own ground.
pub open spec fn is_step(o: World, uid: UnitId, to: TileId) -> bool {
    o.tiles@[to.0 as int].owner == Some(o.units@[unit_pos(o.units@, uid)].faction)
}

/// What a capture records in the running totals: the captor's faction has
/// taken one more tile, and the faction that held it, if any, lost one.
pub open spec fn capture_counted(o: World, w: World, uid: UnitId, to: TileId) -> bool {
    let f = o.units@[unit_pos(o.units@, uid)].faction;
    &&& stats_or_zero(w.stats@, f).tiles_captured == cap_u32(stats_or_zero(o.stats@, f).tiles_captured + 1)
    &&& (o.tiles@[to.0 as int].owner matches Some(v) ==> stats_or_zero(w.stats@, v).tiles_lost == cap_u32(
        stats_or_zero(o.stats@, v).tiles_lost + 1,
    ))
}

/// What a capture leaves alone: every tile but the two the unit moved
/// between that neither the captor's faction nor the tile's previous owner
/// held.
pub open spec fn capture_frame(o: World, w: World, uid: UnitId, to: TileId) -> bool {
    let u = o.units@[unit_pos(o.units@, uid)];
    let victim = o.tiles@[to.0 as int].owner;
    forall|i: int|
        0 <= i < o.tiles@.len() && i != u.tile.0 && i != to.0 && o.tiles@[i].owner != Some(u.faction)
            && o.tiles@[i].owner != victim ==> #[trigger] w.tiles@[i] == o.tiles@[i]
}

/// What ending a turn promises: no ids are spent, the roster keeps its
/// size, and unless the match just ended, the turn passes to the next player
/// still in it, whose units may all act; the round counts up when the order
/// wraps.
pub open spec fn turn_passed(o: World, w: World) -> bool {
    &&& w.counters() == o.counters()
    &&& w.players@.len() == o.players@.len()
    &&& w.outcome is None ==> {
        &&& w.turn_index < w.players@.len()
        &&& !w.players@[w.turn_index as int].eliminated
        &&& crate::turn::all_ready(w.units@, w.players@[w.turn_index as int].faction)
    }
    &&& crate::state::current_faction_of(o.players@, o.turn_index) is Some && w.outcome is None ==> {
        &&& crate::victory::marked(o, w.players@)
        &&& match crate::turn::next_spec(w.players@, o.turn_index as int) {
            Some((idx, wrapped)) => w.turn_index == idx && w.round == (if wrapped { cap_u32(o.round + 1) } else { o.round }),
            None => false,
        }
    }
}

/// The frame every command keeps: the world stays well formed and the
/// planet, its seed and its players' identities stay put.
pub open spec fn kept(o: World, w: World) -> bool {
    &&& w.wf()
    &&& w.tiles@.len() == o.tiles@.len()
    &&& w.seed == o.seed
    &&& w.topology == o.topology
    &&& w.players@.len() == o.players@.len()
}

fn bump_stat_recruited(world: &mut World, faction: crate::ids::Faction)
    requires
        old(world).wf(),
    ensures
        final(world).wf(),
        final(world).same_except_stats(*old(world)),
        stats_or_zero(final(world).stats@, faction).units_recruited == cap_u32(stats_or_zero(old(world).stats@, faction).units_recruited + 1),
{
    let mut s = world.stats_of(faction);
    s.units_recruited = inc32(s.units_recruited);
    world.set_stats(faction, s);
}

fn recruit(world: &mut World, rules: &Ruleset, territory: TerritoryId, at: TileId, sink: &mut EventSink)
    requires
        old(world).wf(),
        territory_pos(old(world).territories@, territory) >= 0,
        at.0 < old(world).tiles@.len(),
        old(world).counters().0 < u32::MAX,
        old(world).counters().2 < u32::MAX,
    ensures
        final(world).wf(),
        recruit_effect(*old(world), *final(world), *rules, territory, at),
        final(world).players == old(world).players,
        final(world).outcome == old(world).outcome,
        final(world).round == old(world).round,
        final(world).turn_index == old(world).turn_index,
        final(world).seed == old(world).seed,
        final(world).topology == old(world).topology,
        final(world).dominance_streak == old(world).dominance_streak,
        final(sink).view() == old(sink).view().push(recruited_event(*old(world), *rules, territory, at)),
{
    proof {
        lemma_territory_pos_from(world.territories@, territory, 0);
    }
    let ghost o = *world;
    let cost = recruit_cost(world, rules, territory);
    let ti = world.territory_index(territory).unwrap();
    let faction = world.territories[ti].faction;
    let gold = sub32(world.territories[ti].gold, cost);
    let wheat = world.territories[ti].wheat;
    world.set_treasury(ti, wheat, gold);
    let id = world.alloc_unit_id();
    let born = world.alloc_born();
    world.add_unit(Unit { id, kind: UnitKind::Pawn, faction, tile: at, born, moved: true });
    let mut tile = *world.tile(at);
    tile.unit = Some(id);
    world.set_tile(at, tile);
    bump_stat_recruited(world, faction);
    sink.push(Event::UnitRecruited { unit: id, kind: UnitKind::Pawn, faction, at, territory, cost });
}

fn build(world: &mut World, rules: &Ruleset, territory: TerritoryId, at: TileId, kind: TileKind, sink: &mut EventSink)
    requires
        old(world).wf(),
        territory_pos(old(world).territories@, territory) >= 0,
        at.0 < old(world).tiles@.len(),
    ensures
        final(world).wf(),
        build_effect(*old(world), *final(world), *rules, territory, at, kind,
            if kind == TileKind::Town { town_price(*old(world), *rules, territory) } else { field_price(*old(world), *rules, territory) }),
        final(sink).view() == old(sink).view().push(Event::TileBuilt {
            tile: at,
            kind,
            territory,
            cost: if kind == TileKind::Town { town_price(*old(world), *rules, territory) } else { field_price(*old(world), *rules, territory) },
        }),
        final(world).players == old(world).players,
        final(world).outcome == old(world).outcome,
        final(world).round == old(world).round,
        final(world).turn_index == old(world).turn_index,
        final(world).seed == old(world).seed,
        final(world).topology == old(world).topology,
        final(world).dominance_streak == old(world).dominance_streak,
{
    let cost = match kind {
        TileKind::Town => build_town_cost(world, rules, territory),
        _ => build_field_cost(world, rules, territory),
    };
    let ti = world.territory_index(territory).unwrap();
    let faction = world.territories[ti].faction;
    let gold = sub32(world.territories[ti].gold, cost);
    let wheat = world.territories[ti].wheat;
    world.set_treasury(ti, wheat, gold);
    let mut tile = *world.tile(at);
    tile.kind = kind;
    world.set_tile(at, tile);
    let mut s = world.stats_of(faction);
    match kind {
        TileKind::Town => s.towns_built = inc32(s.towns_built),
        _ => s.fields_built = inc32(s.fields_built),
    }
    world.set_stats(faction, s);
    sink.push(Event::TileBuilt { tile: at, kind, territory, cost });
}

fn upgrade_unit(world: &mut World, rules: &Ruleset, unit_id: UnitId, sink: &mut EventSink)
    requires
        old(world).wf(),
        rules.has_all_profiles(),
        upgrade_spec(*old(world), *rules, unit_id) matches Some(plan) && territory_pos(old(world).territories@, plan.2) >= 0,
    ensures
        final(world).wf(),
        upgrade_effect(*old(world), *final(world), *rules, unit_id),
        final(sink).view() == old(sink).view().push(upgraded_event(*old(world), *rules, unit_id)),
        final(world).players == old(world).players,
        final(world).outcome == old(world).outcome,
        final(world).round == old(world).round,
        final(world).turn_index == old(world).turn_index,
        final(world).seed == old(world).seed,
        final(world).topology == old(world).topology,
        final(world).dominance_streak == old(world).dominance_streak,
{
    let (next, cost, territory) = upgrade_plan(world, rules, unit_id).unwrap();
    let ti = world.territory_index(territory).unwrap();
    let gold = sub32(world.territories[ti].gold, cost);
    let wheat = world.territories[ti].wheat;
    world.set_treasury(ti, wheat, gold);
    proof {
        lemma_unit_pos_from(world.units@, unit_id, 0);
    }
    let ui = world.unit_index(unit_id).unwrap();
    let mut u = world.units[ui];
    let from_kind = u.kind;
    u.kind = next;
    u.moved = true;
    world.set_unit_at(ui, u);
    let mut s = world.stats_of(u.faction);
    s.units_upgraded = inc32(s.units_upgraded);
    world.set_stats(u.faction, s);
    sink.push(Event::UnitUpgraded { unit: unit_id, from: from_kind, to: next, at: u.tile, cost });
}

/// What taking tile `to` of `o` for `f` reports last.
pub open spec fn captured_event(o: World, f: crate::ids::Faction, to: TileId) -> Event {
    Event::TileCaptured { tile: to, from: o.tiles@[to.0 as int].owner, to: f, previous_kind: o.tiles@[to.0 as int].kind }
}

/// What moving unit `uid` of `o` onto `to` reports of the move itself.
pub open spec fn moved_event(o: World, uid: UnitId, to: TileId) -> Event {
    Event::UnitMoved { unit: uid, from: o.units@[unit_pos(o.units@, uid)].tile, to }
}

/// The events an accepted command reports: exactly its own event for a
/// recruit, a build, an upgrade or a step; for a capture, the capture and
/// the move among them; for the end of a turn, first that the player whose
/// turn it was ended it.
pub open spec fn reported(o: World, r: Ruleset, cmd: Command, ev: Seq<Event>) -> bool {
    match cmd {
        Command::RecruitUnit { territory, at } => ev == seq![recruited_event(o, r, territory, at)],
        Command::BuildTown { territory, at } => ev == seq![Event::TileBuilt { tile: at, kind: TileKind::Town, territory, cost: town_price(o, r, territory) }],
        Command::BuildField { territory, at } => ev == seq![Event::TileBuilt { tile: at, kind: TileKind::Field, territory, cost: field_price(o, r, territory) }],
        Command::UpgradeUnit { unit } => ev == seq![upgraded_event(o, r, unit)],
        Command::MoveUnit { unit, to } => if is_step(o, unit, to) {
            ev == seq![moved_event(o, unit, to)]
        } else {
            ev.contains(captured_event(o, o.units@[unit_pos(o.units@, unit)].faction, to)) && ev.contains(moved_event(o, unit, to))
        },
        Command::EndTurn => match crate::state::current_faction_of(o.players@, o.turn_index) {
            Some(f) => ev.len() > 0 && ev[0] == (Event::TurnEnded { faction: f }),
            None => ev.len() == 0,
        },
    }
}

/// What recruiting on `at` for `territory` of `o` reports.
pub open spec fn recruited_event(o: World, r: Ruleset, territory: TerritoryId, at: TileId) -> Event {
    Event::UnitRecruited {
        unit: UnitId(o.counters().0),
        kind: UnitKind::Pawn,
        faction: find_territory(o.territories@, territory)->0.faction,
        at,
        territory,
        cost: recruit_price(o, r, territory),
    }
}

/// What upgrading unit `uid` of `o` reports.
pub open spec fn upgraded_event(o: World, r: Ruleset, uid: UnitId) -> Event {
    let u = find_unit(o.units@, uid)->0;
    let plan = upgrade_spec(o, r, uid)->0;
    Event::UnitUpgraded { unit: uid, from: u.kind, to: plan.0, at: u.tile, cost: plan.1 }
}

/// The capture tallies of every faction are as they were.
pub open spec fn tallies_kept(o: Seq<Option<FactionStats>>, w: Seq<Option<FactionStats>>) -> bool {
    forall|x: Faction|
        #![trigger stats_or_zero(w, x)]
        stats_or_zero(w, x).tiles_captured == stats_or_zero(o, x).tiles_captured && stats_or_zero(w, x).tiles_lost
            == stats_or_zero(o, x).tiles_lost
}

/// The running totals after a kill: one more unit lost for `loser`, then
/// one more killed for `killer`.
pub open spec fn kill_recorded(st: Seq<Option<FactionStats>>, loser: Faction, killer: Faction) -> Seq<Option<FactionStats>> {
    let l = stats_or_zero(st, loser);
    let st1 = st.update(faction_ordinal(loser) as int, Some(FactionStats { units_lost: cap_u32(l.units_lost + 1), ..l }));
    let k = stats_or_zero(st1, killer);
    st1.update(faction_ordinal(killer) as int, Some(FactionStats { units_killed: cap_u32(k.units_killed + 1), ..k }))
}

/// The running totals after a sack: the loot added to `faction`'s gold
/// taken, and one more capital razed.
pub open spec fn sack_recorded(st: Seq<Option<FactionStats>>, faction: Faction, looted: i32) -> Seq<Option<FactionStats>> {
    let s = stats_or_zero(st, faction);
    st.update(
        faction_ordinal(faction) as int,
        Some(
            FactionStats {
                gold_looted: crate::arith::cap_u64(s.gold_looted + (if looted > 0 { looted as int } else { 0 })),
                capitals_razed: cap_u32(s.capitals_razed + 1),
                ..s
            },
        ),
    )
}

/// Count a unit killed: one lost for its faction, one killed for the killer's.
fn record_kill(world: &mut World, loser: Faction, killer: Faction)
    requires
        old(world).wf(),
    ensures
        final(world).wf(),
        final(world).same_except_stats(*old(world)),
        final(world).stats@ == kill_recorded(old(world).stats@, loser, killer),
        tallies_kept(old(world).stats@, final(world).stats@),
{
    let mut s = world.stats_of(loser);
    s.units_lost = inc32(s.units_lost);
    world.set_stats(loser, s);
    let mut s = world.stats_of(killer);
    s.units_killed = inc32(s.units_killed);
    world.set_stats(killer, s);
}

/// Count a sacked capital and the gold taken from it.
fn record_sack(world: &mut World, faction: Faction, looted: i32)
    requires
        old(world).wf(),
    ensures
        final(world).wf(),
        final(world).same_except_stats(*old(world)),
        final(world).stats@ == sack_recorded(old(world).stats@, faction, looted),
        tallies_kept(old(world).stats@, final(world).stats@),
{
    let mut s = world.stats_of(faction);
    s.gold_looted = add64(s.gold_looted, if looted > 0 { looted as u64 } else { 0 });
    s.capitals_razed = inc32(s.capitals_razed);
    world.set_stats(faction, s);
}

/// The running totals after a capture: one more tile captured for `captor`,
/// then one more lost for the faction that held it.
pub open spec fn capture_recorded(st: Seq<Option<FactionStats>>, captor: Faction, victim: Option<Faction>) -> Seq<Option<FactionStats>> {
    let c = stats_or_zero(st, captor);
    let st1 = st.update(faction_ordinal(captor) as int, Some(FactionStats { tiles_captured: cap_u32(c.tiles_captured + 1), ..c }));
    match victim {
        Some(v) => {
            let l = stats_or_zero(st1, v);
            st1.update(faction_ordinal(v) as int, Some(FactionStats { tiles_lost: cap_u32(l.tiles_lost + 1), ..l }))
        },
        None => st1,
    }
}

/// Count a tile changing hands: one captured for the captor, one lost for
/// the faction that held it.
fn record_capture(world: &mut World, captor: Faction, victim: Option<Faction>)
    requires
        old(world).wf(),
        victim != Some(captor),
    ensures
        final(world).wf(),
        final(world).same_except_stats(*old(world)),
        stats_or_zero(final(world).stats@, captor).tiles_captured == cap_u32(
            stats_or_zero(old(world).stats@, captor).tiles_captured + 1,
        ),
        victim matches Some(v) ==> stats_or_zero(final(world).stats@, v).tiles_lost == cap_u32(
            stats_or_zero(old(world).stats@, v).tiles_lost + 1,
        ),
        final(world).stats@ == capture_recorded(old(world).stats@, captor, victim),
{
    let mut s = world.stats_of(captor);
    s.tiles_captured = inc32(s.tiles_captured);
    world.set_stats(captor, s);
    match victim {
        Some(v) => {
            let mut s = world.stats_of(v);
            s.tiles_lost = inc32(s.tiles_lost);
            world.set_stats(v, s);
        },
        None => {},
    }
}

/// The gold a sacked capital gives up: the ruleset's percentage of its
/// territory's gold (none when in debt), rounded toward zero.
pub open spec fn loot_of(gold: i32, pct: i32) -> i32 {
    let g: int = if gold > 0 { gold as int } else { 0 };
    let p = g * (pct as int);
    let share: int = if p >= 0 { p / 100 } else { -((-p) / 100) };
    share as i32
}

/// What taking tile `to` of `o` loots: something only from a capital that
/// lies in a known territory.
pub open spec fn looted_at(o: World, r: Ruleset, to: TileId) -> i32 {
    let t = o.tiles@[to.0 as int];
    if t.kind == TileKind::Capital {
        match t.territory {
            Some(id) => match find_territory(o.territories@, id) {
                Some(v) => loot_of(v.gold, r.territory.capital_loot_percent),
                None => 0,
            },
            None => 0,
        }
    } else {
        0
    }
}

/// A territory's gold after a sack that moves `l` from the territory
/// `victim` to the territory `captor`.
pub open spec fn sacked_gold(g: i32, id: TerritoryId, sacked: bool, victim: Option<TerritoryId>, captor: Option<TerritoryId>, l: i32) -> i32 {
    if !sacked {
        g
    } else {
        let g1 = if victim == Some(id) { clamp32(g - l) } else { g };
        if captor == Some(id) { clamp32(g1 + l) } else { g1 }
    }
}

/// The running totals after taking tile `to` of `o` for `f`: a kill when a
/// known defender stood there, a sack when it was a capital, then the
/// capture itself.
pub open spec fn take_recorded(o: World, r: Ruleset, f: crate::ids::Faction, to: TileId) -> Seq<Option<FactionStats>> {
    let t = o.tiles@[to.0 as int];
    let st1 = match t.unit {
        Some(d) => match find_unit(o.units@, d) {
            Some(u) => kill_recorded(o.stats@, u.faction, f),
            None => o.stats@,
        },
        None => o.stats@,
    };
    let st2 = if t.kind == TileKind::Capital { sack_recorded(st1, f, looted_at(o, r, to)) } else { st1 };
    capture_recorded(st2, f, t.owner)
}

/// The loot share of `gold` at `pct` percent.
fn loot(gold: i32, pct: i32) -> (l: i32)
    ensures
        l == loot_of(gold, pct),
{
    let g: i64 = if gold > 0 { gold as i64 } else { 0 };
    let p = pct as i64;
    proof {
        assert(-0x8000_0000_0000_0000 < g * p < 0x8000_0000_0000_0000) by (nonlinear_arith)
            requires 0 <= g <= 0x7fff_ffff, -0x8000_0000 <= p <= 0x7fff_ffff;
    }
    let prod = g * p;
    let share: i64 = if prod >= 0 { prod / 100 } else { -((-prod) / 100) };
    #[verifier::truncate]
    let l = share as i32;
    l
}

/// Take `amount` gold from (or, unless `take`, give it to) the territory
/// `id`, held within `i32`; nothing happens when there is no such territory.
fn shift_gold(world: &mut World, id: Option<TerritoryId>, amount: i32, take: bool)
    requires
        old(world).wf(),
    ensures
        final(world).wf(),
        final(world).tiles == old(world).tiles,
        final(world).units == old(world).units,
        final(world).stats == old(world).stats,
        final(world).players == old(world).players,
        final(world).outcome == old(world).outcome,
        final(world).round == old(world).round,
        final(world).turn_index == old(world).turn_index,
        final(world).dominance_streak == old(world).dominance_streak,
        final(world).seed == old(world).seed,
        final(world).topology == old(world).topology,
        final(world).counters() == old(world).counters(),
        final(world).territories@.len() == old(world).territories@.len(),
        forall|x: TerritoryId| #[trigger] territory_pos(final(world).territories@, x) == territory_pos(old(world).territories@, x),
        forall|j: int| 0 <= j < old(world).territories@.len() ==> (#[trigger] final(world).territories@[j])@ == (TerritoryModel {
            gold: if id == Some(old(world).territories@[j].id) {
                if take { clamp32(old(world).territories@[j].gold - amount) } else { clamp32(old(world).territories@[j].gold + amount) }
            } else {
                old(world).territories@[j].gold
            },
            ..old(world).territories@[j]@
        }),
{
    let ghost o = *world;
    match id {
        Some(x) => match world.territory_index(x) {
            Some(i) => {
                let g = if take { sub32(world.territories[i].gold, amount) } else { add32(world.territories[i].gold, amount) };
                let w = world.territories[i].wheat;
                world.set_treasury(i, w, g);
                proof {
                    lemma_territory_pos_from(o.territories@, x, 0);
                    assert(o.territories@[i as int].id == x);
                    assert forall|j: int| 0 <= j < o.territories@.len() && j != i implies o.territories@[j].id != x by {
                        crate::state::lemma_find_territory_ascending(o.territories@, j);
                    }
                }
            },
            None => {
                proof {
                    assert forall|j: int| 0 <= j < o.territories@.len() implies o.territories@[j].id != x by {
                        crate::state::lemma_find_territory_ascending(o.territories@, j);
                    }
                }
            },
        },
        None => {},
    }
}

/// Take the tile `to` for `faction`, whose unit `unit_id` comes from
/// `from`: the defender dies, a capital is sacked (its territory's gold, in
/// the ruleset's share, goes to the captor's territory), and the tile
/// changes hands, razed to empty and outside any territory.
#[verifier::rlimit(60)]
fn take_tile(world: &mut World, rules: &Ruleset, unit_id: UnitId, faction: crate::ids::Faction, from: TileId, to: TileId, sink: &mut EventSink)
    requires
        old(world).wf(),
        from.0 < old(world).tiles@.len(),
        to.0 < old(world).tiles@.len(),
        old(world).tiles@[to.0 as int].owner != Some(faction),
    ensures
        final(world).wf(),
        final(world).tiles@ == old(world).tiles@.update(
            to.0 as int,
            (Tile { kind: TileKind::Empty, owner: Some(faction), territory: None, unit: None, ..old(world).tiles@[to.0 as int] }),
        ),
        final(world).players == old(world).players,
        final(world).outcome == old(world).outcome,
        final(world).round == old(world).round,
        final(world).turn_index == old(world).turn_index,
        final(world).dominance_streak == old(world).dominance_streak,
        final(world).seed == old(world).seed,
        final(world).topology == old(world).topology,
        final(world).counters() == old(world).counters(),
        stats_or_zero(final(world).stats@, faction).tiles_captured == cap_u32(
            stats_or_zero(old(world).stats@, faction).tiles_captured + 1,
        ),
        old(world).tiles@[to.0 as int].owner matches Some(v) ==> stats_or_zero(final(world).stats@, v).tiles_lost == cap_u32(
            stats_or_zero(old(world).stats@, v).tiles_lost + 1,
        ),
        final(world).stats@ == take_recorded(*old(world), *rules, faction, to),
        final(world).units@ == without_defender(*old(world), to),
        forall|id: TerritoryId| #[trigger] territory_pos(final(world).territories@, id) == territory_pos(old(world).territories@, id),
        final(world).territories@.len() == old(world).territories@.len(),
        forall|j: int| 0 <= j < old(world).territories@.len() ==> (#[trigger] final(world).territories@[j])@ == (TerritoryModel {
            gold: sacked_gold(
                old(world).territories@[j].gold,
                old(world).territories@[j].id,
                old(world).tiles@[to.0 as int].kind == TileKind::Capital,
                old(world).tiles@[to.0 as int].territory,
                old(world).tiles@[from.0 as int].territory,
                looted_at(*old(world), *rules, to),
            ),
            ..old(world).territories@[j]@
        }),
        extends(old(sink).view(), final(sink).view()),
        final(sink).view().len() > old(sink).view().len(),
        final(sink).view().last() == captured_event(*old(world), faction, to),
{
    let ghost o = *world;
    let ghost ev0 = sink.view();
    proof {
        assert(ev0.subrange(0, ev0.len() as int) =~= ev0);
    }
    let target = *world.tile(to);
    let victim_faction = target.owner;
    let victim_territory = target.territory;
    let captor_territory = world.tile(from).territory;
    let ghost captured0 = stats_or_zero(world.stats@, faction).tiles_captured;
    let ghost lost0 = match victim_faction {
        Some(v) => stats_or_zero(world.stats@, v).tiles_lost,
        None => 0u32,
    };
    proof {
        match target.unit {
            Some(d) => {
                lemma_unit_pos_from(world.units@, d, 0);
                if unit_pos(world.units@, d) >= 0 {
                    crate::state::lemma_find_unit_ascending(world.units@, unit_pos(world.units@, d));
                }
            },
            None => {},
        }
    }
    match target.unit {
        Some(defender_id) => {
            match world.unit_index(defender_id) {
                Some(di) => {
                    let defender = world.remove_unit_at(di);
                    record_kill(world, defender.faction, faction);
                    let ghost e1 = sink.view();
                    sink.push(Event::UnitKilled { unit: defender_id, kind: defender.kind, faction: defender.faction, at: to, by: unit_id });
                    proof {
                        lemma_extends_push(e1, Event::UnitKilled { unit: defender_id, kind: defender.kind, faction: defender.faction, at: to, by: unit_id });
                        lemma_extends_trans(ev0, e1, sink.view());
                    }
                },
                None => {},
            }
            let mut t = *world.tile(to);
            t.unit = None;
            world.set_tile(to, t);
        },
        None => {},
    }
    let ghost after_kill = *world;
    let previous_kind = world.tile(to).kind;
    if previous_kind == TileKind::Capital {
        let looted: i32 = match victim_territory {
            Some(id) => match world.territory(id) {
                Some(t) => loot(t.gold, rules.territory.capital_loot_percent),
                None => 0,
            },
            None => 0,
        };
        proof {
            assert(looted == looted_at(o, *rules, to));
        }
        shift_gold(world, victim_territory, looted, true);
        let ghost after_victim = *world;
        shift_gold(world, captor_territory, looted, false);
        proof {
            assert forall|j: int| 0 <= j < o.territories@.len() implies (#[trigger] world.territories@[j])@ == (TerritoryModel {
                gold: sacked_gold(o.territories@[j].gold, o.territories@[j].id, true, victim_territory, captor_territory, looted),
                ..o.territories@[j]@
            }) by {
                assert(after_victim.territories@[j]@.id == o.territories@[j].id);
            }
        }
        record_sack(world, faction, looted);
        let razed_faction = match victim_faction {
            Some(v) => v,
            None => faction,
        };
        let ghost e2 = sink.view();
        sink.push(Event::CapitalRazed { tile: to, faction: razed_faction, gold_looted: looted });
        proof {
            lemma_extends_push(e2, Event::CapitalRazed { tile: to, faction: razed_faction, gold_looted: looted });
            lemma_extends_trans(ev0, e2, sink.view());
        }
    }
    let mut t = *world.tile(to);
    t.kind = TileKind::Empty;
    t.owner = Some(faction);
    t.territory = None;
    world.set_tile(to, t);
    assert(stats_or_zero(world.stats@, faction).tiles_captured == captured0);
    assert(victim_faction matches Some(v) ==> stats_or_zero(world.stats@, v).tiles_lost == lost0);
    record_capture(world, faction, victim_faction);
    let ghost e3 = sink.view();
    sink.push(Event::TileCaptured { tile: to, from: victim_faction, to: faction, previous_kind });
    proof {
        lemma_extends_push(e3, Event::TileCaptured { tile: to, from: victim_faction, to: faction, previous_kind });
        lemma_extends_trans(ev0, e3, sink.view());
    }
}

/// The units of `o` once the defender on `to` (if it is a known unit) has
/// died.
pub open spec fn without_defender(o: World, to: TileId) -> Seq<Unit> {
    match o.tiles@[to.0 as int].unit {
        Some(d) => if unit_pos(o.units@, d) >= 0 {
            o.units@.remove(unit_pos(o.units@, d))
        } else {
            o.units@
        },
        None => o.units@,
    }
}

/// The world right after unit `uid` of `o` captures `to`, before any
/// territory is recomputed: the defender is gone, a capital is sacked into
/// the mover's territory, the tile is the mover's, razed to empty and
/// outside any territory, and the unit stands on it, spent.
pub open spec fn capture_step(o: World, w: World, r: Ruleset, uid: UnitId, to: TileId) -> bool {
    let u = o.units@[unit_pos(o.units@, uid)];
    let f = u.faction;
    let from = u.tile;
    let t1 = o.tiles@.update(
        to.0 as int,
        Tile { kind: TileKind::Empty, owner: Some(f), territory: None, unit: None, ..o.tiles@[to.0 as int] },
    );
    let t2 = t1.update(from.0 as int, Tile { unit: None, ..t1[from.0 as int] });
    let t3 = t2.update(to.0 as int, Tile { unit: Some(uid), ..t2[to.0 as int] });
    let us = without_defender(o, to);
    &&& w.tiles@ == t3
    &&& w.stats@ == take_recorded(o, r, f, to)
    &&& w.units@ == if unit_pos(us, uid) >= 0 {
        us.update(unit_pos(us, uid), Unit { tile: to, moved: true, ..us[unit_pos(us, uid)] })
    } else {
        us
    }
    &&& w.territories@.len() == o.territories@.len()
    &&& forall|j: int| 0 <= j < o.territories@.len() ==> (#[trigger] w.territories@[j])@ == (TerritoryModel {
        gold: sacked_gold(
            o.territories@[j].gold,
            o.territories@[j].id,
            o.tiles@[to.0 as int].kind == TileKind::Capital,
            o.tiles@[to.0 as int].territory,
            o.tiles@[from.0 as int].territory,
            looted_at(o, r, to),
        ),
        ..o.territories@[j]@
    })
}

/// After the capture step `m1`, the victim's territories (if it had any
/// ground there) and then the mover's are recomputed, giving `m2` and `w`.
pub open spec fn regrouped(m1: World, m2: World, w: World, victim: Option<Faction>, f: Faction) -> bool {
    &&& match victim {
        Some(v) => crate::territory::retopologized(m1, m2, v),
        None => m2 == m1,
    }
    &&& crate::territory::retopologized(m2, w, f)
}

/// A capture by unit `uid` of `o` onto `to` made `w`: the capture step,
/// then both sides regrouped.
pub open spec fn captured(o: World, w: World, r: Ruleset, uid: UnitId, to: TileId) -> bool {
    exists|m1: World, m2: World|
        #![trigger capture_step(o, m1, r, uid, to), regrouped(m1, m2, w, o.tiles@[to.0 as int].owner, o.units@[unit_pos(o.units@, uid)].faction)]
        capture_step(o, m1, r, uid, to) && regrouped(m1, m2, w, o.tiles@[to.0 as int].owner, o.units@[unit_pos(o.units@, uid)].faction)
}

/// The move itself, before any territory is recomputed: the unit steps
/// onto `to`; when that ground is not already its faction's, the defender
/// dies, a capital is sacked (its territory's gold, in the ruleset's share,
/// goes to the captor's) and the tile changes hands, razed to empty.
/// Returns whether it was a capture, the tile's previous owner and the
/// mover's faction.
#[verifier::rlimit(60)]
fn advance(world: &mut World, rules: &Ruleset, unit_id: UnitId, to: TileId, sink: &mut EventSink) -> (r: (
    bool,
    Option<crate::ids::Faction>,
    crate::ids::Faction,
))
    requires
        old(world).wf(),
        unit_pos(old(world).units@, unit_id) >= 0,
        to.0 < old(world).tiles@.len(),
    ensures
        kept(*old(world), *final(world)),
        final(world).players == old(world).players,
        final(world).outcome == old(world).outcome,
        final(world).round == old(world).round,
        final(world).turn_index == old(world).turn_index,
        final(world).dominance_streak == old(world).dominance_streak,
        final(world).counters() == old(world).counters(),
        r.2 == old(world).units@[unit_pos(old(world).units@, unit_id)].faction,
        r.1 == old(world).tiles@[to.0 as int].owner,
        r.0 == !is_step(*old(world), unit_id, to),
        !r.0 ==> step_effect(*old(world), *final(world), unit_id, to),
        r.0 ==> capture_counted(*old(world), *final(world), unit_id, to),
        r.0 ==> capture_step(*old(world), *final(world), *rules, unit_id, to),
        forall|i: int|
            0 <= i < old(world).tiles@.len() && i != old(world).units@[unit_pos(old(world).units@, unit_id)].tile.0
                && i != to.0 ==> #[trigger] final(world).tiles@[i] == old(world).tiles@[i],
        !r.0 ==> final(sink).view() == old(sink).view().push(moved_event(*old(world), unit_id, to)),
        r.0 ==> extends(old(sink).view(), final(sink).view()) && final(sink).view().len() >= old(sink).view().len() + 2
            && final(sink).view().last() == moved_event(*old(world), unit_id, to)
            && final(sink).view()[final(sink).view().len() - 2] == captured_event(*old(world), r.2, to),
{
    let ghost o = *world;
    let ghost ev0 = sink.view();
    proof {
        lemma_unit_pos_from(world.units@, unit_id, 0);
    }
    let ui0 = world.unit_index(unit_id).unwrap();
    let unit = world.units[ui0];
    let from = unit.tile;
    let faction = unit.faction;
    let target = *world.tile(to);
    let captured = target.owner != Some(faction);
    let victim_faction = target.owner;
    if captured {
        take_tile(world, rules, unit_id, faction, from, to, sink);
    }
    let mut t = *world.tile(from);
    t.unit = None;
    world.set_tile(from, t);
    let mut t = *world.tile(to);
    t.unit = Some(unit_id);
    world.set_tile(to, t);
    proof {
        lemma_unit_pos_from(world.units@, unit_id, 0);
    }
    match world.unit_index(unit_id) {
        Some(ui) => {
            let mut u = world.units[ui];
            u.tile = to;
            u.moved = true;
            world.set_unit_at(ui, u);
        },
        None => {},
    }
    let ghost e4 = sink.view();
    sink.push(Event::UnitMoved { unit: unit_id, from, to });
    proof {
        if captured {
            lemma_extends_push(e4, Event::UnitMoved { unit: unit_id, from, to });
            lemma_extends_trans(ev0, e4, sink.view());
        }
    }
    (captured, victim_faction, faction)
}

/// Move a unit; when the destination is not already its faction's, capture
/// it (see [`advance`]) and recompute both sides' territories, the victim's
/// first.
fn move_unit(world: &mut World, rules: &Ruleset, unit_id: UnitId, to: TileId, sink: &mut EventSink)
    requires
        old(world).wf(),
        unit_pos(old(world).units@, unit_id) >= 0,
        to.0 < old(world).tiles@.len(),
        old(world).counters().1 + 2 * old(world).tiles@.len() <= u32::MAX,
    ensures
        kept(*old(world), *final(world)),
        final(world).players == old(world).players,
        final(world).outcome == old(world).outcome,
        final(world).round == old(world).round,
        final(world).turn_index == old(world).turn_index,
        final(world).dominance_streak == old(world).dominance_streak,
        final(world).counters().0 == old(world).counters().0,
        final(world).counters().2 == old(world).counters().2,
        final(world).counters().1 <= old(world).counters().1 + 2 * old(world).tiles@.len(),
        is_step(*old(world), unit_id, to) ==> step_effect(*old(world), *final(world), unit_id, to),
        !is_step(*old(world), unit_id, to) ==> capture_counted(*old(world), *final(world), unit_id, to),
        !is_step(*old(world), unit_id, to) ==> capture_frame(*old(world), *final(world), unit_id, to),
        !is_step(*old(world), unit_id, to) ==> captured(*old(world), *final(world), *rules, unit_id, to),
        is_step(*old(world), unit_id, to) ==> final(sink).view() == old(sink).view().push(moved_event(*old(world), unit_id, to)),
        !is_step(*old(world), unit_id, to) ==> extends(old(sink).view(), final(sink).view())
            && final(sink).view().contains(moved_event(*old(world), unit_id, to))
            && final(sink).view().contains(captured_event(*old(world), old(world).units@[unit_pos(old(world).units@, unit_id)].faction, to)),
{
    let ghost o = *world;
    let ghost ev0 = sink.view();
    let (captured, victim_faction, faction) = advance(world, rules, unit_id, to, sink);
    let ghost mid = *world;
    let ghost evm = sink.view();
    proof {
        if captured {
            assert(evm.contains(moved_event(o, unit_id, to))) by {
                assert(evm[evm.len() - 1] == moved_event(o, unit_id, to));
            }
            assert(evm.contains(captured_event(o, faction, to))) by {
                assert(evm[evm.len() - 2] == captured_event(o, faction, to));
            }
            assert(evm.subrange(0, evm.len() as int) =~= evm);
        }
    }
    if captured {
        match victim_faction {
            Some(v) => {
                let mut regroup = EventSink::new();
                crate::territory::retopologize(world, rules, v, None, &mut regroup);
                sink.extend(regroup.into_events());
                proof {
                    assert(sink.view().subrange(0, evm.len() as int) =~= evm);
                }
            },
            None => {},
        }
        let ghost between = *world;
        let ghost evb = sink.view();
        let mut regroup = EventSink::new();
        crate::territory::retopologize(world, rules, faction, Some(to), &mut regroup);
        sink.extend(regroup.into_events());
        proof {
            assert(sink.view().subrange(0, evb.len() as int) =~= evb);
        }
        proof {
            lemma_extends_trans(evm, evb, sink.view());
            lemma_extends_trans(ev0, evm, sink.view());
            crate::event::lemma_extends_contains(evm, sink.view(), moved_event(o, unit_id, to));
            crate::event::lemma_extends_contains(evm, sink.view(), captured_event(o, faction, to));
            assert(regrouped(mid, between, *world, victim_faction, faction));
            assert(capture_step(o, mid, *rules, unit_id, to));
        }
        proof {
            let from = o.units@[unit_pos(o.units@, unit_id)].tile;
            assert forall|i: int|
                0 <= i < o.tiles@.len() && i != from.0 && i != to.0 && o.tiles@[i].owner != Some(faction)
                    && o.tiles@[i].owner != victim_faction implies #[trigger] world.tiles@[i] == o.tiles@[i] by {
                assert(mid.tiles@[i] == o.tiles@[i]);
                assert(between.tiles@[i] == mid.tiles@[i]);
            }
        }
    }
}

/// What applying an accepted command `cmd` to `o` under `r` makes of it:
/// the frame every command keeps, and the command's own effect.
pub open spec fn applied(o: World, w: World, r: Ruleset, cmd: Command) -> bool {
    &&& kept(o, w)
    &&& match cmd {
        Command::RecruitUnit { territory, at } => recruit_effect(o, w, r, territory, at),
        Command::BuildTown { territory, at } => build_effect(o, w, r, territory, at, TileKind::Town, town_price(o, r, territory)),
        Command::BuildField { territory, at } => build_effect(o, w, r, territory, at, TileKind::Field, field_price(o, r, territory)),
        Command::UpgradeUnit { unit } => upgrade_effect(o, w, r, unit),
        Command::MoveUnit { unit, to } => if is_step(o, unit, to) {
            step_effect(o, w, unit, to)
        } else {
            capture_counted(o, w, unit, to) && capture_frame(o, w, unit, to) && captured(o, w, r, unit, to)
        },
        Command::EndTurn => turn_passed(o, w) && (crate::state::current_faction_of(o.players@, o.turn_index) is Some && w.outcome is None
            ==> match crate::turn::next_spec(w.players@, o.turn_index as int) {
            Some((_, wrapped)) => crate::turn::kinds_grown(o, w, r, wrapped),
            None => false,
        }),
    }
}

/// Validate, then apply, returning everything that happened. A refused
/// command changes nothing; the refusal is exactly what [`validate`] says.
pub fn apply(world: &mut World, rules: &Ruleset, cmd: &Command) -> (res: Result<Vec<Event>, Rejection>)
    requires
        old(world).wf(),
        rules.has_all_profiles(),
        old(world).counters().0 < u32::MAX,
        old(world).counters().2 < u32::MAX,
        old(world).counters().1 + 2 * old(world).tiles@.len() <= u32::MAX,
    ensures
        res is Err <==> validate_spec(*old(world), *rules, *cmd) is Err,
        res matches Err(e) ==> validate_spec(*old(world), *rules, *cmd) == Err::<(), Rejection>(e) && *final(world) == *old(world),
        res is Ok ==> applied(*old(world), *final(world), *rules, *cmd),
        res matches Ok(ev) ==> reported(*old(world), *rules, *cmd, ev@),
{
    match validate(world, rules, cmd) {
        Err(e) => return Err(e),
        Ok(()) => {},
    }
    let mut sink = EventSink::new();
    match cmd {
        Command::EndTurn => {
            crate::turn::end_turn(world, rules, &mut sink);
        },
        Command::MoveUnit { unit, to } => {
            proof {
                lemma_unit_pos_from(world.units@, *unit, 0);
            }
            move_unit(world, rules, *unit, *to, &mut sink);
        },
        Command::UpgradeUnit { unit } => {
            proof {
                let plan = upgrade_spec(*world, *rules, *unit).unwrap();
                lemma_territory_pos_from(world.territories@, plan.2, 0);
            }
            upgrade_unit(world, rules, *unit, &mut sink);
        },
        Command::RecruitUnit { territory, at } => {
            proof {
                lemma_territory_pos_from(world.territories@, *territory, 0);
                let t = find_territory(world.territories@, *territory).unwrap();
                let k = choose|k: int| 0 <= k < t.tiles@.len() && t.tiles@[k] == *at;
            }
            recruit(world, rules, *territory, *at, &mut sink);
        },
        Command::BuildTown { territory, at } => {
            proof {
                lemma_territory_pos_from(world.territories@, *territory, 0);
                let t = find_territory(world.territories@, *territory).unwrap();
                let k = choose|k: int| 0 <= k < t.tiles@.len() && t.tiles@[k] == *at;
            }
            build(world, rules, *territory, *at, TileKind::Town, &mut sink);
        },
        Command::BuildField { territory, at } => {
            proof {
                lemma_territory_pos_from(world.territories@, *territory, 0);
                let t = find_territory(world.territories@, *territory).unwrap();
                let k = choose|k: int| 0 <= k < t.tiles@.len() && t.tiles@[k] == *at;
            }
            build(world, rules, *territory, *at, TileKind::Field, &mut sink);
        },
    }
    Ok(sink.into_events())
}

} // verus!
