//! The start-of-turn economy of a territory.
//!
//! In order: tiles produce (towns excepted), upkeep is paid, starving units
//! die until upkeep is met, and finally towns turn wheat into gold, one
//! whole town at a time. Treasuries are held within `i32`.

use crate::arith::{add32, add64, cap_u32, cap_u64, clamp32, inc32, sub32};
use crate::event::{extends, lemma_extends_push, lemma_extends_trans, Event, EventSink};
use crate::ids::{faction_ordinal, Faction, TerritoryId, TileId, UnitId};
use crate::rules::{cost_at, spec_profile, spec_tile_yield, Ruleset, TileKind, UnitKind};
use crate::state::{find_territory, find_unit, of_kind, stats_or_zero, territory_pos, unit_pos, FactionStats, Territory, TerritoryModel, Tile, Unit, World};
use crate::tileset::strictly_increasing;
use vstd::prelude::*;

verus! {

/// What the tiles `ids` produce, towns excepted, summed in order and held
/// within `i32`.
pub open spec fn income_fold(w: World, r: Ruleset, ids: Seq<TileId>) -> (i32, i32)
    decreases ids.len(),
{
    if ids.len() == 0 {
        (0, 0)
    } else {
        let prev = income_fold(w, r, ids.drop_last());
        let kind = w.tiles@[ids.last().0 as int].kind;
        if kind == TileKind::Town {
            prev
        } else {
            let y = spec_tile_yield(r, kind);
            (clamp32(prev.0 + y.wheat), clamp32(prev.1 + y.gold))
        }
    }
}

/// What the units standing on `ids` eat, summed in tile order and held
/// within `i32`.
pub open spec fn upkeep_fold(w: World, r: Ruleset, ids: Seq<TileId>) -> (i32, i32)
    decreases ids.len(),
{
    if ids.len() == 0 {
        (0, 0)
    } else {
        let prev = upkeep_fold(w, r, ids.drop_last());
        match w.tiles@[ids.last().0 as int].unit {
            Some(uid) => match find_unit(w.units@, uid) {
                Some(u) => {
                    let up = spec_profile(r, u.kind).upkeep;
                    (clamp32(prev.0 + up.wheat), clamp32(prev.1 + up.gold))
                },
                None => prev,
            },
            None => prev,
        }
    }
}

/// The upkeep a territory owes: what its units eat.
pub open spec fn upkeep_spec(w: World, r: Ruleset, tid: TerritoryId) -> (i32, i32) {
    match find_territory(w.territories@, tid) {
        Some(t) => upkeep_fold(w, r, t.tiles@),
        None => (0, 0),
    }
}

/// Wheat and gold owed per turn by the units inside a territory; nothing for
/// an unknown territory.
pub fn upkeep_of(world: &World, rules: &Ruleset, id: TerritoryId) -> (owed: (i32, i32))
    requires
        world.wf(),
        rules.has_all_profiles(),
    ensures
        owed == upkeep_spec(*world, *rules, id),
{
    let ti = match world.territory_index(id) {
        Some(i) => i,
        None => return (0, 0),
    };
    let t = &world.territories[ti];
    let mut wheat: i32 = 0;
    let mut gold: i32 = 0;
    let mut i: usize = 0;
    while i < t.tiles.len()
        invariant
            world.wf(),
            rules.has_all_profiles(),
            ti < world.territories@.len(),
            *t == world.territories@[ti as int],
            i <= t.tiles@.len(),
            (wheat, gold) == upkeep_fold(*world, *rules, t.tiles@.take(i as int)),
        decreases t.tiles@.len() - i,
    {
        let x = t.tiles[i];
        proof {
            assert(t.tiles@.take(i + 1).drop_last() =~= t.tiles@.take(i as int));
            assert(t.tiles@[i as int].0 < world.tiles@.len());
        }
        match world.tiles[x.index()].unit {
            Some(uid) => match world.unit(uid) {
                Some(u) => {
                    let up = rules.unit(u.kind).upkeep;
                    wheat = add32(wheat, up.wheat);
                    gold = add32(gold, up.gold);
                },
                None => {},
            },
            None => {},
        }
        i = i + 1;
    }
    proof {
        assert(t.tiles@.take(i as int) =~= t.tiles@);
    }
    (wheat, gold)
}

/// The treasury after upkeep `need` is taken from `p`: paid in full when
/// both can be met, else what is left once no unit remains to starve, with
/// debts written off at zero.
pub open spec fn after_upkeep(p: (i32, i32), need: (i32, i32)) -> (i32, i32) {
    if need.0 <= p.0 && need.1 <= p.1 {
        (clamp32(p.0 - need.0), clamp32(p.1 - need.1))
    } else {
        (if p.0 < 0 { 0 } else { p.0 }, if p.1 < 0 { 0 } else { p.1 })
    }
}

/// How many of `towns` towns `wheat` feeds at `cost` wheat each.
pub open spec fn towns_fed(towns: nat, wheat: i32, cost: i32) -> nat {
    if cost > 0 {
        let a = wheat / cost;
        if a < towns {
            if a < 0 { 0 } else { a as nat }
        } else {
            towns
        }
    } else {
        towns
    }
}

/// The treasury `u` after feeding whole towns: each fed town eats its wheat
/// and yields its gold.
pub open spec fn after_towns(r: Ruleset, u: (i32, i32), towns: nat) -> (i32, i32) {
    if towns == 0 {
        u
    } else {
        let fed = towns_fed(towns, u.0, r.economy.town.wheat_cost);
        (clamp32(u.0 - fed * r.economy.town.wheat_cost), clamp32(u.1 + fed * r.economy.town.gold_yield))
    }
}

/// A territory's treasury once its tiles have produced.
pub open spec fn produced(o: World, r: Ruleset, t: Territory) -> (i32, i32) {
    let inc = income_fold(o, r, t.tiles@);
    (clamp32(t.wheat + inc.0), clamp32(t.gold + inc.1))
}

/// The treasury a territory `t` of world `o` ends the turn with, when its
/// units after starvation owe `need`: production, then upkeep, then towns.
pub open spec fn turn_treasury(o: World, r: Ruleset, t: Territory, need: (i32, i32)) -> (i32, i32) {
    after_towns(r, after_upkeep(produced(o, r, t), need), of_kind(o.tiles@, t.tiles@, TileKind::Town).len())
}

/// A live unit of kind `k` stands somewhere in the territory.
pub open spec fn kind_present(w: World, t: Territory, k: UnitKind) -> bool {
    exists|q: int| 0 <= q < t.tiles@.len() && #[trigger] live_kind(w, t.tiles@[q], k)
}

/// A live unit of kind `k` stands on `x`.
pub open spec fn live_kind(w: World, x: TileId, k: UnitKind) -> bool {
    match unit_on(w, x) {
        Some(u) => u.kind == k,
        None => false,
    }
}

/// `u` is at least as old as any unit of kind `k` standing on `x`.
pub open spec fn beats(w: World, x: TileId, u: Unit, k: UnitKind) -> bool {
    match unit_on(w, x) {
        Some(v) => v.kind == k ==> older(u, v),
        None => true,
    }
}

/// The live unit standing on a tile, if any.
pub open spec fn unit_on(w: World, x: TileId) -> Option<Unit> {
    if x.0 < w.tiles@.len() {
        match w.tiles@[x.0 as int].unit {
            Some(uid) => find_unit(w.units@, uid),
            None => None,
        }
    } else {
        None
    }
}

/// Born earlier, or at the same time with a lower id.
pub open spec fn older(a: Unit, b: Unit) -> bool {
    a.born < b.born || (a.born == b.born && a.id.0 <= b.id.0)
}

/// The oldest live unit of kind `k` in territory `t` (by creation stamp,
/// then id).
fn oldest_of_kind(world: &World, t: &Territory, k: UnitKind) -> (found: Option<Unit>)
    requires
        world.wf(),
        forall|q: int| 0 <= q < t.tiles@.len() ==> (#[trigger] t.tiles@[q]).0 < world.tiles@.len(),
    ensures
        match found {
            Some(u) => {
                &&& u.kind == k
                &&& exists|q: int| 0 <= q < t.tiles@.len() && #[trigger] unit_on(*world, t.tiles@[q]) == Some(u)
                &&& forall|q: int| 0 <= q < t.tiles@.len() ==> #[trigger] beats(*world, t.tiles@[q], u, k)
            },
            None => !kind_present(*world, *t, k),
        },
{
    let mut best: Option<Unit> = None;
    let mut i: usize = 0;
    while i < t.tiles.len()
        invariant
            world.wf(),
            forall|q: int| 0 <= q < t.tiles@.len() ==> (#[trigger] t.tiles@[q]).0 < world.tiles@.len(),
            i <= t.tiles@.len(),
            match best {
                Some(u) => {
                    &&& u.kind == k
                    &&& exists|q: int| 0 <= q < i && #[trigger] unit_on(*world, t.tiles@[q]) == Some(u)
                    &&& forall|q: int| 0 <= q < i ==> #[trigger] beats(*world, t.tiles@[q], u, k)
                },
                None => forall|q: int| 0 <= q < i ==> !#[trigger] live_kind(*world, t.tiles@[q], k),
            },
        decreases t.tiles@.len() - i,
    {
        let x = t.tiles[i];
        let here: Option<Unit> = match world.tiles[x.index()].unit {
            Some(uid) => match world.unit(uid) {
                Some(u) => Some(*u),
                None => None,
            },
            None => None,
        };
        proof {
            assert(here == unit_on(*world, t.tiles@[i as int]));
        }
        match here {
            Some(u) => {
                if u.kind == k {
                    let replace = match best {
                        None => true,
                        Some(b) => u.born < b.born || (u.born == b.born && u.id.0 < b.id.0),
                    };
                    let ghost prev = best;
                    if replace {
                        best = Some(u);
                        proof {
                            assert(unit_on(*world, t.tiles@[i as int]) == Some(u));
                            assert forall|q: int| 0 <= q < i + 1 implies #[trigger] beats(*world, t.tiles@[q], u, k) by {
                                if q < i {
                                    if prev is Some {
                                        assert(beats(*world, t.tiles@[q], prev->0, k));
                                    } else {
                                        assert(!live_kind(*world, t.tiles@[q], k));
                                    }
                                }
                            }
                        }
                    } else {
                        proof {
                            assert(beats(*world, t.tiles@[i as int], best->0, k));
                        }
                    }
                }
            },
            None => {},
        }
        i = i + 1;
    }
    best
}

/// `u` is who starves next in territory `t` of `w`: a live unit standing in
/// it, of the first kind in the starvation order that is present there at
/// all, and the oldest of that kind there.
pub open spec fn is_victim(w: World, r: Ruleset, t: Territory, u: Unit) -> bool {
    &&& exists|q: int| 0 <= q < t.tiles@.len() && #[trigger] unit_on(w, t.tiles@[q]) == Some(u)
    &&& exists|p: int| 0 <= p < r.units.starvation_priority@.len()
        && r.units.starvation_priority@[p] == u.kind
        && forall|p2: int| 0 <= p2 < p ==> !kind_present(w, t, #[trigger] r.units.starvation_priority@[p2])
    &&& forall|q: int| 0 <= q < t.tiles@.len() ==> #[trigger] beats(w, t.tiles@[q], u, u.kind)
}

/// Within a kind, the oldest unit dies first: the famine victim was created
/// no later than any other live unit of its kind standing in the territory,
/// and among those created at the same time it has the lowest id. A newer
/// unit never starves while an older one of the same kind survives.
pub proof fn lemma_victim_is_oldest_of_its_kind(w: World, r: Ruleset, t: Territory, u: Unit, v: Unit)
    requires
        is_victim(w, r, t, u),
        v.kind == u.kind,
        exists|q: int| 0 <= q < t.tiles@.len() && #[trigger] unit_on(w, t.tiles@[q]) == Some(v),
    ensures
        u.born <= v.born,
        u.born == v.born ==> u.id.0 <= v.id.0,
{
    let q = choose|q: int| 0 <= q < t.tiles@.len() && #[trigger] unit_on(w, t.tiles@[q]) == Some(v);
    assert(beats(w, t.tiles@[q], u, u.kind));
}

/// The running totals after a unit of faction `f` starves.
pub open spec fn starve_recorded(st: Seq<Option<FactionStats>>, f: Faction) -> Seq<Option<FactionStats>> {
    let s = stats_or_zero(st, f);
    st.update(faction_ordinal(f) as int, Some(FactionStats { units_starved: cap_u32(s.units_starved + 1), ..s }))
}

/// The running totals after faction `f` earns `wheat` and `gold`.
pub open spec fn earned(st: Seq<Option<FactionStats>>, f: Faction, wheat: int, gold: int) -> Seq<Option<FactionStats>> {
    let s = stats_or_zero(st, f);
    st.update(
        faction_ordinal(f) as int,
        Some(FactionStats { wheat_earned: cap_u64(s.wheat_earned + wheat), gold_earned: cap_u64(s.gold_earned + gold), ..s }),
    )
}

/// `x`, or nothing when negative.
pub open spec fn gain(x: int) -> int {
    if x > 0 { x } else { 0 }
}

/// One famine death in territory `id`, from `a` to `b`: what the units owe
/// cannot be paid out of `p`, and the next victim leaves the units and its
/// tile.
pub open spec fn starve_step(a: World, b: World, r: Ruleset, id: TerritoryId, p: (i32, i32)) -> bool {
    let need = upkeep_spec(a, r, id);
    &&& !(need.0 <= p.0 && need.1 <= p.1)
    &&& b.territories == a.territories
    &&& exists|u: Unit| #[trigger] is_victim(a, r, find_territory(a.territories@, id)->0, u)
        && b.units@ == a.units@.remove(unit_pos(a.units@, u.id))
        && b.tiles@ == a.tiles@.update(u.tile.0 as int, Tile { unit: None, ..a.tiles@[u.tile.0 as int] })
        && b.stats@ == starve_recorded(a.stats@, u.faction)
}

/// `ws` is a run of famine deaths in territory `id`, paying out of `p`.
pub open spec fn starvation_run(r: Ruleset, id: TerritoryId, p: (i32, i32), ws: Seq<World>) -> bool {
    &&& ws.len() >= 1
    &&& forall|k: int| 0 <= k < ws.len() - 1 ==> #[trigger] starve_step(ws[k], ws[k + 1], r, id, p)
}

/// Who starves next in a territory: the oldest unit of the first kind in the
/// starvation order that is present at all.
fn starvation_victim(world: &World, rules: &Ruleset, t: &Territory) -> (victim: Option<Unit>)
    requires
        world.wf(),
        forall|q: int| 0 <= q < t.tiles@.len() ==> (#[trigger] t.tiles@[q]).0 < world.tiles@.len(),
    ensures
        match victim {
            Some(u) => is_victim(*world, *rules, *t, u),
            None => forall|p: int| 0 <= p < rules.units.starvation_priority@.len() ==> !kind_present(*world, *t, #[trigger] rules.units.starvation_priority@[p]),
        },
{
    let prio = &rules.units.starvation_priority;
    let mut p: usize = 0;
    while p < prio.len()
        invariant
            world.wf(),
            prio@ == rules.units.starvation_priority@,
            forall|q: int| 0 <= q < t.tiles@.len() ==> (#[trigger] t.tiles@[q]).0 < world.tiles@.len(),
            p <= prio@.len(),
            forall|p2: int| 0 <= p2 < p ==> !kind_present(*world, *t, #[trigger] prio@[p2]),
        decreases prio@.len() - p,
    {
        let k = prio[p];
        match oldest_of_kind(world, t, k) {
            Some(u) => {
                proof {
                    assert(prio@[p as int] == u.kind);
                }
                return Some(u);
            },
            None => {},
        }
        p = p + 1;
    }
    None
}

/// A unit dies of famine.
fn starve(world: &mut World, u: Unit, sink: &mut EventSink)
    requires
        old(world).wf(),
        find_unit(old(world).units@, u.id) == Some(u),
    ensures
        final(world).wf(),
        final(world).units@.len() == old(world).units@.len() - 1,
        forall|i: int| 0 <= i < final(world).units@.len() ==> old(world).units@.contains(#[trigger] final(world).units@[i]),
        final(world).territories == old(world).territories,
        final(world).tiles@.len() == old(world).tiles@.len(),
        forall|i: int| 0 <= i < old(world).tiles@.len() ==> (#[trigger] final(world).tiles@[i]).kind == old(world).tiles@[i].kind,
        final(world).players == old(world).players,
        final(world).dominance_streak == old(world).dominance_streak,
        final(world).outcome == old(world).outcome,
        final(world).seed == old(world).seed,
        final(world).topology == old(world).topology,
        final(world).round == old(world).round,
        final(world).turn_index == old(world).turn_index,
        final(world).counters() == old(world).counters(),
        final(sink).view() == old(sink).view().push(Event::UnitStarved { unit: u.id, kind: u.kind, faction: u.faction, at: u.tile }),
        final(world).units@ == old(world).units@.remove(unit_pos(old(world).units@, u.id)),
        final(world).tiles@ == old(world).tiles@.update(u.tile.0 as int, Tile { unit: None, ..old(world).tiles@[u.tile.0 as int] }),
        final(world).stats@ == starve_recorded(old(world).stats@, u.faction),
{
    proof {
        crate::state::lemma_unit_pos_from(world.units@, u.id, 0);
    }
    let i = match world.unit_index(u.id) {
        Some(i) => i,
        None => {
            proof {
                assert(false);
            }
            return;
        },
    };
    let ghost before = world.units@;
    let gone = world.remove_unit_at(i);
    proof {
        assert forall|j: int| 0 <= j < world.units@.len() implies before.contains(#[trigger] world.units@[j]) by {
            if j < i {
                assert(world.units@[j] == before[j]);
            } else {
                assert(world.units@[j] == before[j + 1]);
            }
        }
    }
    let mut tile = *world.tile(gone.tile);
    tile.unit = None;
    world.set_tile(gone.tile, tile);
    let mut s = world.stats_of(gone.faction);
    s.units_starved = inc32(s.units_starved);
    world.set_stats(gone.faction, s);
    sink.push(Event::UnitStarved { unit: gone.id, kind: gone.kind, faction: gone.faction, at: gone.tile });
}

/// Upkeep looks at tiles and units only.
proof fn lemma_upkeep_fold_same(a: World, b: World, r: Ruleset, ids: Seq<TileId>)
    requires
        a.tiles == b.tiles,
        a.units == b.units,
    ensures
        upkeep_fold(a, r, ids) == upkeep_fold(b, r, ids),
    decreases ids.len(),
{
    if ids.len() > 0 {
        lemma_upkeep_fold_same(a, b, r, ids.drop_last());
    }
}

/// Whether a kind is present looks at tiles, units and the territory's tiles only.
proof fn lemma_kind_present_same(a: World, b: World, s: Territory, t: Territory, k: UnitKind)
    requires
        a.tiles == b.tiles,
        a.units == b.units,
        s.tiles@ == t.tiles@,
    ensures
        kind_present(a, s, k) == kind_present(b, t, k),
{
    if kind_present(a, s, k) {
        let q = choose|q: int| 0 <= q < s.tiles@.len() && #[trigger] live_kind(a, s.tiles@[q], k);
        assert(live_kind(b, t.tiles@[q], k));
    }
    if kind_present(b, t, k) {
        let q = choose|q: int| 0 <= q < t.tiles@.len() && #[trigger] live_kind(b, t.tiles@[q], k);
        assert(live_kind(a, s.tiles@[q], k));
    }
}

/// Run one territory's economy for the turn: produce, pay upkeep (starving
/// units until it can be paid, or emptying the treasury when no starving
/// unit is left), then feed whole towns for gold. Afterwards its wheat is
/// never negative, nor is its gold when fed towns yield no negative gold.
///
/// The treasury it ends with is `turn_treasury` of the world before, taken
/// with the upkeep that the units left alive owe; those units either afford
/// their upkeep out of what was produced, or include no kind that can starve.
#[verifier::rlimit(60)]
pub fn resolve_territory(world: &mut World, rules: &Ruleset, id: TerritoryId, sink: &mut EventSink)
    requires
        old(world).wf(),
        rules.has_all_profiles(),
    ensures
        final(world).wf(),
        final(world).tiles@.len() == old(world).tiles@.len(),
        final(world).players == old(world).players,
        final(world).dominance_streak == old(world).dominance_streak,
        final(world).outcome == old(world).outcome,
        final(world).seed == old(world).seed,
        final(world).topology == old(world).topology,
        final(world).round == old(world).round,
        final(world).turn_index == old(world).turn_index,
        final(world).counters() == old(world).counters(),
        final(world).territories@.len() == old(world).territories@.len(),
        forall|x: TerritoryId| #[trigger] territory_pos(final(world).territories@, x) == territory_pos(old(world).territories@, x),
        forall|i: int| 0 <= i < final(world).units@.len() ==> old(world).units@.contains(#[trigger] final(world).units@[i]),
        find_territory(old(world).territories@, id) is Some ==> match find_territory(final(world).territories@, id) {
            Some(t) => t.wheat >= 0 && (rules.economy.town.gold_yield >= 0 ==> t.gold >= 0),
            None => false,
        },
        forall|i: int| 0 <= i < old(world).tiles@.len() ==> (#[trigger] final(world).tiles@[i]).kind == old(world).tiles@[i].kind,
        match find_territory(old(world).territories@, id) {
            Some(t) => match find_territory(final(world).territories@, id) {
                Some(t2) => {
                    let need = upkeep_spec(*final(world), *rules, id);
                    let tr = turn_treasury(*old(world), *rules, t, need);
                    let p = produced(*old(world), *rules, t);
                    &&& t2@ == (TerritoryModel { wheat: tr.0, gold: tr.1, ..t@ })
                    &&& (need.0 <= p.0 && need.1 <= p.1) || forall|k: UnitKind|
                        rules.units.starvation_priority@.contains(k) ==> !#[trigger] kind_present(*final(world), t2, k)
                },
                None => false,
            },
            None => *final(world) == *old(world) && final(sink).view() == old(sink).view(),
        },
        forall|j: int| 0 <= j < old(world).territories@.len() ==> (#[trigger] final(world).territories@[j]).id == old(world).territories@[j].id
            && final(world).territories@[j].faction == old(world).territories@[j].faction,
        forall|j: int| 0 <= j < old(world).territories@.len() && old(world).territories@[j].id != id ==> #[trigger] final(world).territories@[j]
            == old(world).territories@[j],
        extends(old(sink).view(), final(sink).view()),
        find_territory(old(world).territories@, id) matches Some(t) ==> exists|ws: Seq<World>|
            #[trigger] starvation_run(*rules, id, produced(*old(world), *rules, t), ws)
            && ws[0].units == old(world).units && ws[0].tiles == old(world).tiles
            && (find_territory(ws[0].territories@, id) matches Some(t0) && t0.tiles@ == t.tiles@)
            && ws.last().units == final(world).units && ws.last().tiles == final(world).tiles
            && ws[0].stats@ == earned(old(world).stats@, t.faction, gain(income_fold(*old(world), *rules, t.tiles@).0 as int),
                gain(income_fold(*old(world), *rules, t.tiles@).1 as int))
            && final(world).stats@ == ({
                let towns = of_kind(old(world).tiles@, t.tiles@, TileKind::Town).len();
                let u = after_upkeep(produced(*old(world), *rules, t), upkeep_spec(*final(world), *rules, id));
                let fed = towns_fed(towns, u.0, rules.economy.town.wheat_cost);
                if towns > 0 {
                    earned(ws.last().stats@, t.faction, 0, gain(clamp32(fed * rules.economy.town.gold_yield) as int))
                } else {
                    ws.last().stats@
                }
            }),
        find_territory(old(world).territories@, id) matches Some(t) ==> {
            let ev = final(sink).view();
            let n0 = old(sink).view().len();
            let inc = income_fold(*old(world), *rules, t.tiles@);
            let towns = of_kind(old(world).tiles@, t.tiles@, TileKind::Town).len();
            let u = after_upkeep(produced(*old(world), *rules, t), upkeep_spec(*final(world), *rules, id));
            let tail: int = if towns > 0 { 1 } else { 0 };
            &&& ev.len() > n0 + tail
            &&& ev[n0 as int] == Event::ResourcesProduced { territory: id, wheat: inc.0, gold: inc.1 }
            &&& forall|k: int| n0 < k < ev.len() - tail ==> #[trigger] ev[k] is UnitStarved
            &&& towns > 0 ==> ev.last() == Event::TownsFed {
                territory: id,
                fed: towns_fed(towns, u.0, rules.economy.town.wheat_cost) as u32,
                of: towns as u32,
            }
        },
{
    let ghost ev0 = sink.view();
    let ti = match world.territory_index(id) {
        Some(i) => i,
        None => {
            proof {
                assert(ev0.subrange(0, ev0.len() as int) =~= ev0);
            }
            return;
        },
    };
    let faction = world.territories[ti].faction;
    let mut income_wheat: i32 = 0;
    let mut income_gold: i32 = 0;
    {
        let t = &world.territories[ti];
        let mut i: usize = 0;
        while i < t.tiles.len()
            invariant
                world.wf(),
                *t == world.territories@[ti as int],
                ti < world.territories@.len(),
                i <= t.tiles@.len(),
                (income_wheat, income_gold) == income_fold(*world, *rules, t.tiles@.take(i as int)),
            decreases t.tiles@.len() - i,
        {
            let x = t.tiles[i];
            proof {
                assert(t.tiles@.take(i + 1).drop_last() =~= t.tiles@.take(i as int));
                assert(t.tiles@[i as int].0 < world.tiles@.len());
            }
            let kind = world.tiles[x.index()].kind;
            if kind != TileKind::Town {
                let y = rules.tile_yield(kind);
                income_wheat = add32(income_wheat, y.wheat);
                income_gold = add32(income_gold, y.gold);
            }
            i = i + 1;
        }
        proof {
            assert(t.tiles@.take(t.tiles@.len() as int) =~= t.tiles@);
        }
    }
    let ghost o = *world;
    proof {
        crate::state::lemma_territory_pos_from(o.territories@, id, 0);
    }
    let w0 = add32(world.territories[ti].wheat, income_wheat);
    let g0 = add32(world.territories[ti].gold, income_gold);
    proof {
        assert(find_territory(o.territories@, id) == Some(o.territories@[ti as int]));
        assert((w0, g0) == produced(o, *rules, o.territories@[ti as int]));
    }
    world.set_treasury(ti, w0, g0);
    let mut s = world.stats_of(faction);
    s.wheat_earned = add64(s.wheat_earned, if income_wheat > 0 { income_wheat as u64 } else { 0 });
    s.gold_earned = add64(s.gold_earned, if income_gold > 0 { income_gold as u64 } else { 0 });
    world.set_stats(faction, s);
    sink.push(Event::ResourcesProduced { territory: id, wheat: income_wheat, gold: income_gold });
    let ghost ev1 = sink.view();
    proof {
        lemma_extends_push(ev0, Event::ResourcesProduced { territory: id, wheat: income_wheat, gold: income_gold });
        assert(ev1.subrange(0, ev1.len() as int) =~= ev1);
    }
    proof {
        crate::state::lemma_territory_pos_from(world.territories@, id, 0);
    }
    let ghost w_start = *world;
    let ghost mut ws: Seq<World> = seq![*world];
    loop
        invariant_except_break
            starvation_run(*rules, id, (w0, g0), ws),
            ws[0] == w_start,
            ws.last() == *world,
            world.wf(),
            rules.has_all_profiles(),
            ti < world.territories@.len(),
            world.territories@.len() == o.territories@.len(),
            territory_pos(world.territories@, id) == ti,
            world.territories@[ti as int].id == id,
            world.tiles@.len() == o.tiles@.len(),
            world.players == o.players,
            world.dominance_streak == o.dominance_streak,
            world.outcome == o.outcome,
            world.seed == o.seed,
            world.topology == o.topology,
            world.round == o.round,
            world.turn_index == o.turn_index,
            world.counters() == o.counters(),
            forall|x: TerritoryId| #[trigger] territory_pos(world.territories@, x) == territory_pos(o.territories@, x),
            forall|i: int| 0 <= i < world.units@.len() ==> o.units@.contains(#[trigger] world.units@[i]),
            forall|j: int| 0 <= j < o.territories@.len() ==> (#[trigger] world.territories@[j]).id == o.territories@[j].id
                && world.territories@[j].faction == o.territories@[j].faction,
            forall|j: int| 0 <= j < o.territories@.len() && j != ti ==> #[trigger] world.territories@[j] == o.territories@[j],
            world.territories@[ti as int]@ == (TerritoryModel { wheat: w0, gold: g0, ..o.territories@[ti as int]@ }),
            forall|i: int| 0 <= i < o.tiles@.len() ==> (#[trigger] world.tiles@[i]).kind == o.tiles@[i].kind,
            extends(ev1, sink.view()),
            forall|k: int| ev1.len() <= k < sink.view().len() ==> #[trigger] sink.view()[k] is UnitStarved,
        ensures
            starvation_run(*rules, id, (w0, g0), ws),
            ws[0] == w_start,
            ws.last().units == world.units,
            ws.last().tiles == world.tiles,
            ws.last().stats == world.stats,
            world.territories@[ti as int]@ == (TerritoryModel {
                wheat: after_upkeep((w0, g0), upkeep_spec(*world, *rules, id)).0,
                gold: after_upkeep((w0, g0), upkeep_spec(*world, *rules, id)).1,
                ..o.territories@[ti as int]@
            }),
            extends(ev1, sink.view()),
            forall|k: int| ev1.len() <= k < sink.view().len() ==> #[trigger] sink.view()[k] is UnitStarved,
            forall|i: int| 0 <= i < o.tiles@.len() ==> (#[trigger] world.tiles@[i]).kind == o.tiles@[i].kind,
            ({
                let need = upkeep_spec(*world, *rules, id);
                (need.0 <= w0 && need.1 <= g0) || forall|k: UnitKind|
                    rules.units.starvation_priority@.contains(k) ==> !#[trigger] kind_present(*world, world.territories@[ti as int], k)
            }),
            world.wf(),
            ti < world.territories@.len(),
            world.territories@.len() == o.territories@.len(),
            territory_pos(world.territories@, id) == ti,
            world.territories@[ti as int].id == id,
            world.territories@[ti as int].wheat >= 0,
            world.territories@[ti as int].gold >= 0,
            world.tiles@.len() == o.tiles@.len(),
            world.players == o.players,
            world.dominance_streak == o.dominance_streak,
            world.outcome == o.outcome,
            world.seed == o.seed,
            world.topology == o.topology,
            world.round == o.round,
            world.turn_index == o.turn_index,
            world.counters() == o.counters(),
            forall|x: TerritoryId| #[trigger] territory_pos(world.territories@, x) == territory_pos(o.territories@, x),
            forall|i: int| 0 <= i < world.units@.len() ==> o.units@.contains(#[trigger] world.units@[i]),
            forall|j: int| 0 <= j < o.territories@.len() ==> (#[trigger] world.territories@[j]).id == o.territories@[j].id
                && world.territories@[j].faction == o.territories@[j].faction,
            forall|j: int| 0 <= j < o.territories@.len() && j != ti ==> #[trigger] world.territories@[j] == o.territories@[j],
        decreases world.units@.len(),
    {
        let (need_wheat, need_gold) = upkeep_of(world, rules, id);
        let wheat = world.territories[ti].wheat;
        let gold = world.territories[ti].gold;
        let ghost before = *world;
        if need_wheat <= wheat && need_gold <= gold {
            let nw = sub32(wheat, need_wheat);
            let ng = sub32(gold, need_gold);
            world.set_treasury(ti, nw, ng);
            proof {
                crate::state::lemma_territory_pos_from(world.territories@, id, 0);
                crate::state::lemma_territory_pos_from(before.territories@, id, 0);
                lemma_upkeep_fold_same(*world, before, *rules, world.territories@[ti as int].tiles@);
            }
            break;
        }
        proof {
            assert(forall|q: int| 0 <= q < world.territories@[ti as int].tiles@.len() ==> (#[trigger] world.territories@[ti as int].tiles@[q]).0 < world.tiles@.len());
        }
        let victim = starvation_victim(world, rules, &world.territories[ti]);
        match victim {
            Some(u) => {
                proof {
                    let q = choose|q: int| 0 <= q < world.territories@[ti as int].tiles@.len() && #[trigger] unit_on(*world, world.territories@[ti as int].tiles@[q]) == Some(u);
                    let x = world.territories@[ti as int].tiles@[q];
                    let uid = world.tiles@[x.0 as int].unit->0;
                    crate::state::lemma_unit_pos_from(world.units@, uid, 0);
                    crate::state::lemma_find_unit_ascending(world.units@, crate::state::unit_pos(world.units@, uid));
                }
                let ghost mid = world.units@;
                let ghost evs = sink.view();
                let ghost prev = *world;
                starve(world, u, sink);
                proof {
                    crate::state::lemma_territory_pos_from(prev.territories@, id, 0);
                    assert(find_territory(prev.territories@, id)->0 == prev.territories@[ti as int]);
                    assert(is_victim(prev, *rules, find_territory(prev.territories@, id)->0, u));
                    assert(starve_step(prev, *world, *rules, id, (w0, g0)));
                    let ws0 = ws;
                    ws = ws.push(*world);
                    assert forall|k: int| 0 <= k < ws.len() - 1 implies #[trigger] starve_step(ws[k], ws[k + 1], *rules, id, (w0, g0)) by {
                        if k < ws0.len() - 1 {
                            assert(ws[k] == ws0[k] && ws[k + 1] == ws0[k + 1]);
                        } else {
                            assert(ws[k] == prev);
                        }
                    }
                }
                proof {
                    lemma_extends_push(evs, Event::UnitStarved { unit: u.id, kind: u.kind, faction: u.faction, at: u.tile });
                    lemma_extends_trans(ev1, evs, sink.view());
                    assert forall|k: int| ev1.len() <= k < sink.view().len() implies #[trigger] sink.view()[k] is UnitStarved by {
                        if k < evs.len() {
                            assert(sink.view()[k] == evs[k]);
                        }
                    }
                }
                proof {
                    assert forall|i: int| 0 <= i < world.units@.len() implies o.units@.contains(#[trigger] world.units@[i]) by {
                        assert(mid.contains(world.units@[i]));
                        let j = choose|j: int| 0 <= j < mid.len() && mid[j] == world.units@[i];
                        assert(o.units@.contains(mid[j]));
                    }
                }
            },
            None => {
                let nw = if wheat < 0 { 0 } else { wheat };
                let ng = if gold < 0 { 0 } else { gold };
                world.set_treasury(ti, nw, ng);
                proof {
                    crate::state::lemma_territory_pos_from(world.territories@, id, 0);
                    crate::state::lemma_territory_pos_from(before.territories@, id, 0);
                    lemma_upkeep_fold_same(*world, before, *rules, world.territories@[ti as int].tiles@);
                    assert forall|k: UnitKind| rules.units.starvation_priority@.contains(k) implies
                        !#[trigger] kind_present(*world, world.territories@[ti as int], k) by {
                        let p = choose|p: int| 0 <= p < rules.units.starvation_priority@.len() && rules.units.starvation_priority@[p] == k;
                        assert(!kind_present(before, before.territories@[ti as int], rules.units.starvation_priority@[p]));
                        lemma_kind_present_same(*world, before, world.territories@[ti as int], before.territories@[ti as int], k);
                    }
                }
                break;
            },
        }
    }
    let ghost mid = *world;
    let ghost ev2 = sink.view();
    let towns = world.count_kind_in(id, TileKind::Town);
    proof {
        crate::state::lemma_territory_pos_from(mid.territories@, id, 0);
        crate::state::lemma_of_kind_same(mid.tiles@, o.tiles@, o.territories@[ti as int].tiles@, TileKind::Town);
    }
    if towns > 0 {
        let cost = rules.economy.town.wheat_cost;
        let wheat = world.territories[ti].wheat;
        let gold = world.territories[ti].gold;
        let affordable: i64 = if cost > 0 {
            (wheat / cost) as i64
        } else {
            towns as i64
        };
        let fed: u32 = if affordable < towns as i64 {
            if affordable < 0 {
                0
            } else {
                affordable as u32
            }
        } else {
            towns
        };
        let gy = rules.economy.town.gold_yield;
        proof {
            assert(-0x1_0000_0000_0000_0000 <= (fed as int) * (cost as int) <= 0x1_0000_0000_0000_0000) by (nonlinear_arith)
                requires 0 <= fed <= 0xffff_ffff, -0x8000_0000 <= cost <= 0x7fff_ffff;
            assert(-0x1_0000_0000_0000_0000 <= (fed as int) * (gy as int) <= 0x1_0000_0000_0000_0000) by (nonlinear_arith)
                requires 0 <= fed <= 0xffff_ffff, -0x8000_0000 <= gy <= 0x7fff_ffff;
        }
        let eaten = (fed as i128) * (cost as i128);
        let made = (fed as i128) * (gy as i128);
        proof {
            if cost > 0 {
                assert(fed * cost <= wheat) by (nonlinear_arith)
                    requires cost > 0, wheat >= 0, 0 <= fed <= wheat / cost;
            } else {
                assert(fed * cost <= 0) by (nonlinear_arith)
                    requires cost <= 0, fed >= 0;
            }
            if rules.economy.town.gold_yield >= 0 {
                assert(made >= 0) by (nonlinear_arith)
                    requires made == fed * rules.economy.town.gold_yield, fed >= 0, rules.economy.town.gold_yield >= 0;
            }
        }
        let nw = wheat as i128 - eaten;
        let ng = gold as i128 + made;
        let nw32 = if nw > i32::MAX as i128 { i32::MAX } else { nw as i32 };
        let ng32 = if ng > i32::MAX as i128 { i32::MAX } else if ng < i32::MIN as i128 { i32::MIN } else { ng as i32 };
        world.set_treasury(ti, nw32, ng32);
        let gold_made: i32 = if made > i32::MAX as i128 { i32::MAX } else if made < i32::MIN as i128 { i32::MIN } else { made as i32 };
        let mut s = world.stats_of(faction);
        s.gold_earned = add64(s.gold_earned, if gold_made > 0 { gold_made as u64 } else { 0 });
        world.set_stats(faction, s);
        sink.push(Event::TownsFed { territory: id, fed, of: towns });
        proof {
            lemma_extends_push(ev2, Event::TownsFed { territory: id, fed, of: towns });
            lemma_extends_trans(ev1, ev2, sink.view());
            assert forall|k: int| ev1.len() <= k < sink.view().len() - 1 implies #[trigger] sink.view()[k] is UnitStarved by {
                assert(sink.view()[k] == ev2[k]);
            }
        }
    }
    proof {
        crate::state::lemma_territory_pos_from(world.territories@, id, 0);
        crate::state::lemma_territory_pos_from(o.territories@, id, 0);
        lemma_upkeep_fold_same(*world, mid, *rules, world.territories@[ti as int].tiles@);
        lemma_extends_trans(ev0, ev1, sink.view());
        crate::state::lemma_territory_pos_from(w_start.territories@, id, 0);
        assert(find_territory(w_start.territories@, id) matches Some(t0) && t0.tiles@ == o.territories@[ti as int].tiles@);
        assert(starvation_run(*rules, id, produced(o, *rules, o.territories@[ti as int]), ws)
            && ws[0].units == o.units && ws[0].tiles == o.tiles
            && (find_territory(ws[0].territories@, id) matches Some(t0) && t0.tiles@ == o.territories@[ti as int].tiles@)
            && ws.last().units == world.units && ws.last().tiles == world.tiles);
        assert(o.territories@[ti as int].faction == faction);
        assert(ev1.len() == ev0.len() + 1);
        assert(sink.view()[ev0.len() as int] == ev1[ev0.len() as int]);
        assert forall|k: UnitKind| rules.units.starvation_priority@.contains(k) && !kind_present(mid, mid.territories@[ti as int], k)
            implies !#[trigger] kind_present(*world, world.territories@[ti as int], k) by {
            lemma_kind_present_same(*world, mid, world.territories@[ti as int], mid.territories@[ti as int], k);
        }
    }
}

/// Some territory of `f` among `ts` has id `id`.
pub open spec fn faction_has(ts: Seq<crate::state::Territory>, f: Faction, id: TerritoryId) -> bool {
    exists|j: int| 0 <= j < ts.len() && (#[trigger] ts[j]).id == id && ts[j].faction == f
}

/// Run the economy of every territory a faction holds, in id order.
pub fn resolve_faction(world: &mut World, rules: &Ruleset, faction: Faction, sink: &mut EventSink)
    requires
        old(world).wf(),
        rules.has_all_profiles(),
    ensures
        final(world).wf(),
        final(world).tiles@.len() == old(world).tiles@.len(),
        final(world).players == old(world).players,
        final(world).dominance_streak == old(world).dominance_streak,
        final(world).outcome == old(world).outcome,
        final(world).seed == old(world).seed,
        final(world).topology == old(world).topology,
        final(world).round == old(world).round,
        final(world).turn_index == old(world).turn_index,
        final(world).counters() == old(world).counters(),
        forall|i: int| 0 <= i < final(world).units@.len() ==> old(world).units@.contains(#[trigger] final(world).units@[i]),
        final(world).territories@.len() == old(world).territories@.len(),
        forall|j: int| 0 <= j < old(world).territories@.len() ==> (#[trigger] final(world).territories@[j]).id == old(world).territories@[j].id
            && final(world).territories@[j].faction == old(world).territories@[j].faction,
        forall|j: int| 0 <= j < old(world).territories@.len() && old(world).territories@[j].faction != faction
            ==> #[trigger] final(world).territories@[j] == old(world).territories@[j],
        forall|j: int| 0 <= j < old(world).territories@.len() && old(world).territories@[j].faction == faction
            ==> (#[trigger] final(world).territories@[j]).wheat >= 0 && (rules.economy.town.gold_yield >= 0 ==> final(world).territories@[j].gold >= 0),
        forall|i: int| 0 <= i < old(world).tiles@.len() ==> (#[trigger] final(world).tiles@[i]).kind == old(world).tiles@[i].kind,
        extends(old(sink).view(), final(sink).view()),
{
    let ghost ev0 = sink.view();
    proof {
        assert(ev0.subrange(0, ev0.len() as int) =~= ev0);
    }
    let mut ids: Vec<TerritoryId> = Vec::new();
    let mut i: usize = 0;
    while i < world.territories.len()
        invariant
            i <= world.territories@.len(),
            forall|j: int| 0 <= j < i && (#[trigger] world.territories@[j]).faction == faction ==> ids@.contains(world.territories@[j].id),
            forall|q: int| 0 <= q < ids@.len() ==> faction_has(world.territories@, faction, #[trigger] ids@[q]),
        decreases world.territories@.len() - i,
    {
        let ghost before = ids@;
        if world.territories[i].faction == faction {
            ids.push(world.territories[i].id);
        }
        proof {
            assert forall|j: int| 0 <= j < i + 1 && (#[trigger] world.territories@[j]).faction == faction implies ids@.contains(world.territories@[j].id) by {
                if j < i {
                    let q = choose|q: int| 0 <= q < before.len() && before[q] == world.territories@[j].id;
                    assert(ids@[q] == before[q]);
                } else {
                    assert(ids@[ids@.len() - 1] == world.territories@[j].id);
                }
            }
            assert forall|q: int| 0 <= q < ids@.len() implies faction_has(world.territories@, faction, #[trigger] ids@[q]) by {
                if q < before.len() {
                    assert(ids@[q] == before[q]);
                } else {
                    assert(world.territories@[i as int].id == ids@[q]);
                }
            }
        }
        i = i + 1;
    }
    let ghost o = *world;
    let mut k: usize = 0;
    while k < ids.len()
        invariant
            world.wf(),
            rules.has_all_profiles(),
            k <= ids@.len(),
            world.tiles@.len() == o.tiles@.len(),
            world.players == o.players,
            world.dominance_streak == o.dominance_streak,
            world.outcome == o.outcome,
            world.seed == o.seed,
            world.topology == o.topology,
            world.round == o.round,
            world.turn_index == o.turn_index,
            world.counters() == o.counters(),
            forall|i: int| 0 <= i < world.units@.len() ==> o.units@.contains(#[trigger] world.units@[i]),
            world.territories@.len() == o.territories@.len(),
            crate::state::territories_ascending(o.territories@),
            forall|i: int| 0 <= i < o.tiles@.len() ==> (#[trigger] world.tiles@[i]).kind == o.tiles@[i].kind,
            extends(ev0, sink.view()),
            forall|j: int| 0 <= j < o.territories@.len() && o.territories@[j].faction == faction ==> ids@.contains(o.territories@[j].id),
            forall|q: int| 0 <= q < ids@.len() ==> faction_has(o.territories@, faction, #[trigger] ids@[q]),
            forall|j: int| 0 <= j < o.territories@.len() ==> (#[trigger] world.territories@[j]).id == o.territories@[j].id
                && world.territories@[j].faction == o.territories@[j].faction,
            forall|j: int| 0 <= j < o.territories@.len() && !ids@.take(k as int).contains(o.territories@[j].id)
                ==> #[trigger] world.territories@[j] == o.territories@[j],
            forall|j: int| 0 <= j < o.territories@.len() && ids@.take(k as int).contains(o.territories@[j].id)
                ==> (#[trigger] world.territories@[j]).wheat >= 0 && (rules.economy.town.gold_yield >= 0 ==> world.territories@[j].gold >= 0),
        decreases ids@.len() - k,
    {
        let ghost mid = world.units@;
        let ghost w0 = *world;
        let id = ids[k];
        let ghost evk = sink.view();
        resolve_territory(world, rules, id, sink);
        proof {
            lemma_extends_trans(ev0, evk, sink.view());
            assert(faction_has(o.territories@, faction, ids@[k as int]));
            let j0 = choose|j: int| 0 <= j < o.territories@.len() && (#[trigger] o.territories@[j]).id == id
                && o.territories@[j].faction == faction;
            assert(ids@.take(k + 1)[k as int] == id);
            assert(w0.territories@[j0].id == id);
            crate::state::lemma_find_territory_ascending(w0.territories@, j0);
            crate::state::lemma_find_territory_ascending(world.territories@, j0);
            assert(ids@.take(k + 1) =~= ids@.take(k as int).push(id));
            assert forall|j: int| 0 <= j < o.territories@.len() && ids@.take(k + 1).contains(o.territories@[j].id)
                implies (#[trigger] world.territories@[j]).wheat >= 0 && (rules.economy.town.gold_yield >= 0 ==> world.territories@[j].gold >= 0) by {
                if o.territories@[j].id == id {
                    assert(j == j0) by {
                        if j < j0 { assert(o.territories@[j].id.0 < o.territories@[j0].id.0); }
                        if j > j0 { assert(o.territories@[j0].id.0 < o.territories@[j].id.0); }
                    }
                } else {
                    assert(ids@.take(k as int).contains(o.territories@[j].id));
                    assert(world.territories@[j] == w0.territories@[j]);
                }
            }
            assert forall|j: int| 0 <= j < o.territories@.len() && !ids@.take(k + 1).contains(o.territories@[j].id)
                implies #[trigger] world.territories@[j] == o.territories@[j] by {
                assert(o.territories@[j].id != id);
                assert(world.territories@[j] == w0.territories@[j]);
            }
        }
        proof {
            assert forall|i: int| 0 <= i < world.units@.len() implies o.units@.contains(#[trigger] world.units@[i]) by {
                assert(mid.contains(world.units@[i]));
                let j = choose|j: int| 0 <= j < mid.len() && mid[j] == world.units@[i];
                assert(o.units@.contains(mid[j]));
            }
        }
        k = k + 1;
    }
    proof {
        assert(ids@.take(ids@.len() as int) =~= ids@);
        assert forall|j: int| 0 <= j < o.territories@.len() && o.territories@[j].faction != faction
            implies #[trigger] world.territories@[j] == o.territories@[j] by {
            if ids@.contains(o.territories@[j].id) {
                let q = choose|q: int| 0 <= q < ids@.len() && ids@[q] == o.territories@[j].id;
                assert(faction_has(o.territories@, faction, ids@[q]));
                let j2 = choose|j2: int| 0 <= j2 < o.territories@.len() && (#[trigger] o.territories@[j2]).id == ids@[q]
                    && o.territories@[j2].faction == faction;
                if j < j2 { assert(o.territories@[j].id.0 < o.territories@[j2].id.0); }
                if j > j2 { assert(o.territories@[j2].id.0 < o.territories@[j].id.0); }
            }
        }
    }
}

/// Whether a territory can pay for anything at all: a pawn on a free empty
/// tile, or a town or field on an empty tile.
pub fn can_afford_anything(world: &World, rules: &Ruleset, id: TerritoryId) -> (b: bool)
    requires
        world.wf(),
    ensures
        b == match find_territory(world.territories@, id) {
            None => false,
            Some(t) => {
                let empty = exists|q: int| 0 <= q < t.tiles@.len() && world.tiles@[(#[trigger] t.tiles@[q]).0 as int].kind == TileKind::Empty;
                let free = exists|q: int| 0 <= q < t.tiles@.len() && world.tiles@[(#[trigger] t.tiles@[q]).0 as int].kind == TileKind::Empty
                    && world.tiles@[t.tiles@[q].0 as int].unit is None;
                let town = crate::apply::town_price(*world, *rules, id);
                let field = crate::apply::field_price(*world, *rules, id);
                empty && ((free && t.gold >= crate::apply::recruit_price(*world, *rules, id)) || t.gold >= (if town <= field { town } else { field }))
            },
        },
{
    let ti = match world.territory_index(id) {
        Some(i) => i,
        None => return false,
    };
    let t = &world.territories[ti];
    let mut has_empty = false;
    let mut has_free_empty = false;
    let mut i: usize = 0;
    while i < t.tiles.len()
        invariant
            world.wf(),
            *t == world.territories@[ti as int],
            ti < world.territories@.len(),
            i <= t.tiles@.len(),
            has_empty == exists|q: int| 0 <= q < i && world.tiles@[(#[trigger] t.tiles@[q]).0 as int].kind == TileKind::Empty,
            has_free_empty == exists|q: int| 0 <= q < i && world.tiles@[(#[trigger] t.tiles@[q]).0 as int].kind == TileKind::Empty
                && world.tiles@[t.tiles@[q].0 as int].unit is None,
        decreases t.tiles@.len() - i,
    {
        let x = t.tiles[i];
        proof {
            assert(t.tiles@[i as int].0 < world.tiles@.len());
        }
        let tile = &world.tiles[x.index()];
        if tile.kind == TileKind::Empty {
            has_empty = true;
            if tile.unit.is_none() {
                has_free_empty = true;
            }
        }
        i = i + 1;
    }
    proof {
        crate::state::lemma_territory_pos_from(world.territories@, id, 0);
    }
    if !has_empty {
        return false;
    }
    let pawn = crate::apply::recruit_cost(world, rules, id);
    let town = crate::apply::build_town_cost(world, rules, id);
    let field = crate::apply::build_field_cost(world, rules, id);
    let cheapest = if town <= field { town } else { field };
    (has_free_empty && t.gold >= pawn) || t.gold >= cheapest
}

} // verus!
