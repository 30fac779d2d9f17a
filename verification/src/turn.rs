//! Turn order and the start-of-turn sequence.

use crate::arith::{inc32, max32};
use crate::economy::resolve_faction;
use crate::event::{extends, lemma_extends_push, lemma_extends_trans, Event, EventSink};
use crate::growth::{forest_sources, spread_all, spread_forests};
use crate::ids::Faction;
use crate::rules::Ruleset;
use crate::state::{current_faction_of, Player, Unit, World};
use crate::victory::evaluate;
use vstd::prelude::*;

verus! {

/// The next player still in, searching forward from `ti` by `step` onward,
/// and whether the search wrapped past the end of the list.
pub open spec fn next_search(players: Seq<Player>, ti: int, step: int) -> Option<(usize, bool)>
    decreases players.len() + 1 - step,
{
    if step < 1 || step > players.len() {
        None
    } else {
        let idx = (ti + step) % (players.len() as int);
        if !players[idx].eliminated {
            Some((idx as usize, ti + step >= players.len()))
        } else {
            next_search(players, ti, step + 1)
        }
    }
}

pub open spec fn next_spec(players: Seq<Player>, ti: int) -> Option<(usize, bool)> {
    next_search(players, ti, 1)
}

proof fn lemma_next_search(players: Seq<Player>, ti: int, step: int)
    requires
        1 <= step,
        0 <= ti < players.len(),
        players.len() <= usize::MAX,
    ensures
        match next_search(players, ti, step) {
            Some((idx, _)) => idx < players.len() && !players[idx as int].eliminated,
            None => true,
        },
    decreases players.len() + 1 - step,
{
    if step <= players.len() {
        let idx = (ti + step) % (players.len() as int);
        assert(0 <= idx < players.len()) by (nonlinear_arith)
            requires idx == (ti + step) % (players.len() as int), players.len() > 0, ti + step >= 0;
        if players[idx].eliminated {
            lemma_next_search(players, ti, step + 1);
        }
    }
}

/// Who plays next: the first player after the current one that is still in,
/// and whether the turn order wrapped round to start a new round.
fn next_player(world: &World) -> (next: Option<(usize, bool)>)
    requires
        world.turn_index < world.players@.len(),
    ensures
        next == next_spec(world.players@, world.turn_index as int),
        match next {
            Some((idx, _)) => idx < world.players@.len() && !world.players@[idx as int].eliminated,
            None => true,
        },
{
    let count = world.players.len();
    proof {
        lemma_next_search(world.players@, world.turn_index as int, 1);
    }
    let ti = world.turn_index;
    let mut s: usize = 0;
    while s < count
        invariant
            s <= count,
            count == world.players@.len(),
            ti == world.turn_index,
            ti < count,
            next_search(world.players@, ti as int, s + 1) == next_spec(world.players@, ti as int),
        decreases count - s,
    {
        let room = count - ti;
        let wrapped = s + 1 >= room;
        let index = if wrapped { s + 1 - room } else { ti + s + 1 };
        proof {
            assert(index == (ti + s + 1) % (count as int)) by (nonlinear_arith)
                requires
                    index == (if s + 1 >= count - ti { s + 1 - (count - ti) } else { ti + s + 1 }),
                    0 <= ti < count,
                    0 <= s < count;
        }
        if !world.players[index].eliminated {
            return Some((index, wrapped));
        }
        s = s + 1;
    }
    None
}

/// Every unit of `f` may act.
pub open spec fn all_ready(units: Seq<Unit>, f: Faction) -> bool {
    forall|i: int| 0 <= i < units.len() && (#[trigger] units[i]).faction == f ==> !units[i].moved
}

/// Let every unit of a faction act again.
fn ready_units(world: &mut World, faction: Faction)
    requires
        old(world).wf(),
    ensures
        final(world).wf(),
        final(world).same_except_units(*old(world)),
        all_ready(final(world).units@, faction),
        final(world).units@.len() == old(world).units@.len(),
{
    let ghost o = *world;
    let mut i: usize = 0;
    while i < world.units.len()
        invariant
            world.wf(),
            world.same_except_units(o),
            world.units@.len() == o.units@.len(),
            i <= world.units@.len(),
            forall|j: int| 0 <= j < world.units@.len() ==> (#[trigger] world.units@[j]).id == o.units@[j].id && world.units@[j].tile == o.units@[j].tile,
            forall|j: int| 0 <= j < i && (#[trigger] world.units@[j]).faction == faction ==> !world.units@[j].moved,
        decreases world.units@.len() - i,
    {
        let mut u = world.units[i];
        if u.faction == faction {
            u.moved = false;
            world.units.set(i, u);
        }
        i = i + 1;
    }
}

/// Record a faction's peak tile and territory counts.
fn record_peaks(world: &mut World, faction: Faction)
    requires
        old(world).wf(),
    ensures
        final(world).wf(),
        final(world).same_except_stats(*old(world)),
        ({
            let s = crate::state::stats_or_zero(old(world).stats@, faction);
            let tiles = crate::state::owned_by(old(world).tiles@, faction).len();
            let ts = old(world).territories@.filter(|t: crate::state::Territory| t.faction == faction).len();
            final(world).stats@ == old(world).stats@.update(
                crate::ids::faction_ordinal(faction) as int,
                Some(
                    crate::state::FactionStats {
                        peak_tiles: if s.peak_tiles >= tiles { s.peak_tiles } else { tiles as u32 },
                        peak_territories: if s.peak_territories >= ts as u32 { s.peak_territories } else { ts as u32 },
                        ..s
                    },
                ),
            )
        }),
{
    let tiles = world.tile_count_of(faction);
    #[verifier::truncate]
    let territories = world.territories_of(faction).len() as u32;
    let mut s = world.stats_of(faction);
    s.peak_tiles = max32(s.peak_tiles, tiles);
    s.peak_territories = max32(s.peak_territories, territories);
    world.set_stats(faction, s);
}

/// Start the current player's turn: its units may act again, its
/// territories produce and pay upkeep, and its peaks are recorded.
fn begin_turn(world: &mut World, rules: &Ruleset, sink: &mut EventSink)
    requires
        old(world).wf(),
        rules.has_all_profiles(),
    ensures
        final(world).wf(),
        final(world).tiles@.len() == old(world).tiles@.len(),
        final(world).players == old(world).players,
        final(world).outcome == old(world).outcome,
        final(world).dominance_streak == old(world).dominance_streak,
        final(world).seed == old(world).seed,
        final(world).topology == old(world).topology,
        final(world).round == old(world).round,
        final(world).turn_index == old(world).turn_index,
        final(world).counters() == old(world).counters(),
        match current_faction_of(old(world).players@, old(world).turn_index) {
            Some(f) => all_ready(final(world).units@, f),
            None => true,
        },
        forall|i: int| 0 <= i < old(world).tiles@.len() ==> (#[trigger] final(world).tiles@[i]).kind == old(world).tiles@[i].kind,
        extends(old(sink).view(), final(sink).view()),
{
    let ghost ev0 = sink.view();
    proof {
        assert(ev0.subrange(0, ev0.len() as int) =~= ev0);
    }
    let faction = match world.current_faction() {
        Some(f) => f,
        None => return,
    };
    sink.push(Event::TurnBegan { faction, round: world.round });
    let ghost ev1 = sink.view();
    proof {
        lemma_extends_push(ev0, Event::TurnBegan { faction, round: world.round });
    }
    ready_units(world, faction);
    let ghost ready = world.units@;
    resolve_faction(world, rules, faction, sink);
    proof {
        assert forall|i: int| 0 <= i < world.units@.len() && (#[trigger] world.units@[i]).faction == faction implies !world.units@[i].moved by {
            assert(ready.contains(world.units@[i]));
            let j = choose|j: int| 0 <= j < ready.len() && ready[j] == world.units@[i];
        }
    }
    let ghost fed = world.units@;
    record_peaks(world, faction);
    proof {
        lemma_extends_trans(ev0, ev1, sink.view());
    }
}

/// What beginning a match on `o` makes of it: round one, the first player
/// still in acts with all its units ready, and the planet, roster, outcome
/// and id counters are those of `o`.
pub open spec fn match_started(o: World, w: World) -> bool {
    &&& w.wf()
    &&& w.round == 1
    &&& w.turn_index == first_in(o.players@, 0)
    &&& w.players == o.players
    &&& w.outcome == o.outcome
    &&& w.tiles@.len() == o.tiles@.len()
    &&& w.seed == o.seed
    &&& w.topology == o.topology
    &&& w.counters() == o.counters()
    &&& match current_faction_of(w.players@, w.turn_index) {
        Some(f) => all_ready(w.units@, f),
        None => true,
    }
}

/// Begin a match: round one, the first player still in acts.
pub fn start_match(world: &mut World, rules: &Ruleset, sink: &mut EventSink)
    requires
        old(world).wf(),
        rules.has_all_profiles(),
    ensures
        match_started(*old(world), *final(world)),
        final(sink).view().len() > old(sink).view().len(),
        final(sink).view()[old(sink).view().len() as int] == (Event::RoundBegan { round: 1 }),
{
    let ghost ev0 = sink.view();
    world.round = 1;
    let mut i: usize = 0;
    while i < world.players.len() && world.players[i].eliminated
        invariant
            i <= world.players@.len(),
            first_in(world.players@, 0) == first_in(world.players@, i as int),
        decreases world.players@.len() - i,
    {
        i = i + 1;
    }
    world.turn_index = if i < world.players.len() { i } else { 0 };
    sink.push(Event::RoundBegan { round: world.round });
    let ghost ev1 = sink.view();
    begin_turn(world, rules, sink);
    proof {
        assert(sink.view().subrange(0, ev1.len() as int)[ev0.len() as int] == sink.view()[ev0.len() as int]);
    }
}

/// The index of the first player still in at or after `i`, or 0 when none is.
pub open spec fn first_in(players: Seq<Player>, i: int) -> usize
    decreases players.len() - i,
{
    if i < 0 || i >= players.len() {
        0
    } else if !players[i].eliminated {
        i as usize
    } else {
        first_in(players, i + 1)
    }
}

/// The tile kinds of `w` are those of `o`, except that when a round ended
/// (`wrapped`) and forests may spread, they are the kinds after the forests
/// of `o` spread at the new round of `w`.
pub open spec fn kinds_grown(o: World, w: World, r: Ruleset, wrapped: bool) -> bool {
    &&& w.tiles@.len() == o.tiles@.len()
    &&& if wrapped && r.growth.forest_spread_percent > 0 {
        let g = spread_all(o.tiles@, o.topology.adj(), o.seed, w.round, r, forest_sources(o.tiles@, o.tiles@.len() as int));
        forall|i: int| 0 <= i < o.tiles@.len() ==> (#[trigger] w.tiles@[i]).kind == g[i].kind
    } else {
        forall|i: int| 0 <= i < o.tiles@.len() ==> (#[trigger] w.tiles@[i]).kind == o.tiles@[i].kind
    }
}

/// End the current player's turn. The match is settled if it can be; the
/// next player still in takes over, and when the order wraps a new round
/// begins: dominance is checked and forests spread. Then the next turn
/// begins. If the match goes on, the player now acting is still in and all
/// its units may act.
pub fn end_turn(world: &mut World, rules: &Ruleset, sink: &mut EventSink)
    requires
        old(world).wf(),
        rules.has_all_profiles(),
    ensures
        final(world).wf(),
        final(world).tiles@.len() == old(world).tiles@.len(),
        final(world).seed == old(world).seed,
        final(world).topology == old(world).topology,
        final(world).counters() == old(world).counters(),
        final(world).players@.len() == old(world).players@.len(),
        current_faction_of(old(world).players@, old(world).turn_index) is None ==> final(world).outcome == old(world).outcome
            && final(world).turn_index == old(world).turn_index && final(world).round == old(world).round,
        current_faction_of(old(world).players@, old(world).turn_index) is Some && final(world).outcome is None ==> {
            &&& final(world).turn_index < final(world).players@.len()
            &&& !final(world).players@[final(world).turn_index as int].eliminated
            &&& all_ready(final(world).units@, final(world).players@[final(world).turn_index as int].faction)
            &&& old(world).outcome is None
            &&& crate::victory::marked(*old(world), final(world).players@)
            &&& match next_spec(final(world).players@, old(world).turn_index as int) {
                Some((idx, wrapped)) => final(world).turn_index == idx
                    && final(world).round == (if wrapped { crate::arith::cap_u32(old(world).round + 1) } else { old(world).round })
                    && kinds_grown(*old(world), *final(world), *rules, wrapped),
                None => false,
            }
        },
        match current_faction_of(old(world).players@, old(world).turn_index) {
            Some(f) => final(sink).view().len() > old(sink).view().len()
                && final(sink).view()[old(sink).view().len() as int] == (Event::TurnEnded { faction: f }),
            None => final(sink).view() == old(sink).view(),
        },
{
    let faction = match world.current_faction() {
        Some(f) => f,
        None => return,
    };
    let ghost ev0 = sink.view();
    sink.push(Event::TurnEnded { faction });
    let mut rest = EventSink::new();
    finish_turn(world, rules, &mut rest);
    sink.extend(rest.into_events());
    proof {
        assert(sink.view()[ev0.len() as int] == (Event::TurnEnded { faction }));
    }
}

/// The rest of ending a turn, once it is known whose turn ends: settle the
/// match if it can be, pass the turn on, close the round when the order
/// wraps, and begin the next turn.
fn finish_turn(world: &mut World, rules: &Ruleset, sink: &mut EventSink)
    requires
        old(world).wf(),
        rules.has_all_profiles(),
        current_faction_of(old(world).players@, old(world).turn_index) is Some,
    ensures
        final(world).wf(),
        final(world).tiles@.len() == old(world).tiles@.len(),
        final(world).seed == old(world).seed,
        final(world).topology == old(world).topology,
        final(world).counters() == old(world).counters(),
        final(world).players@.len() == old(world).players@.len(),
        current_faction_of(old(world).players@, old(world).turn_index) is None ==> final(world).outcome == old(world).outcome
            && final(world).turn_index == old(world).turn_index && final(world).round == old(world).round,
        current_faction_of(old(world).players@, old(world).turn_index) is Some && final(world).outcome is None ==> {
            &&& final(world).turn_index < final(world).players@.len()
            &&& !final(world).players@[final(world).turn_index as int].eliminated
            &&& all_ready(final(world).units@, final(world).players@[final(world).turn_index as int].faction)
            &&& old(world).outcome is None
            &&& crate::victory::marked(*old(world), final(world).players@)
            &&& match next_spec(final(world).players@, old(world).turn_index as int) {
                Some((idx, wrapped)) => final(world).turn_index == idx
                    && final(world).round == (if wrapped { crate::arith::cap_u32(old(world).round + 1) } else { old(world).round })
                    && kinds_grown(*old(world), *final(world), *rules, wrapped),
                None => false,
            }
        },
{
    let faction = match world.current_faction() {
        Some(f) => f,
        None => return,
    };
    let ghost before_eval = *world;
    evaluate(world, rules, false, sink);
    if world.is_over() {
        return;
    }
    let ghost first_pass = before_eval;
    let (next, wrapped) = match next_player(world) {
        Some(p) => p,
        None => {
            let ghost pre = world.players@;
            proof {
                lemma_none_in(pre, world.turn_index as int);
            }
            evaluate(world, rules, true, sink);
            proof {
                assert forall|j: int| 0 <= j < world.players@.len() implies (#[trigger] world.players@[j]).eliminated by {
                    assert(pre[j].eliminated);
                }
                lemma_alive_empty(world.players@);
            }
            return;
        },
    };
    world.turn_index = next;
    let ghost chosen = *world;
    if wrapped {
        world.round = inc32(world.round);
        let ghost mid = *world;
        evaluate(world, rules, true, sink);
        if world.is_over() {
            return;
        }
        proof {
            lemma_marked_stable(first_pass, mid, world.players@);
            assert(world.players@ =~= mid.players@);
        }
        sink.push(Event::RoundBegan { round: world.round });
        spread_forests(world, rules, sink);
    }
    let ghost grown = *world;
    begin_turn(world, rules, sink);
    proof {
        assert(world.players@ =~= chosen.players@);
        assert(grown.tiles@.len() == before_eval.tiles@.len());
        if wrapped && rules.growth.forest_spread_percent > 0 {
            let g = spread_all(before_eval.tiles@, before_eval.topology.adj(), before_eval.seed, world.round, *rules,
                forest_sources(before_eval.tiles@, before_eval.tiles@.len() as int));
            assert(grown.tiles@ == g);
            assert forall|i: int| 0 <= i < before_eval.tiles@.len() implies (#[trigger] world.tiles@[i]).kind == g[i].kind by {
                assert(world.tiles@[i].kind == grown.tiles@[i].kind);
            }
        } else {
            assert(grown.tiles@ == before_eval.tiles@);
            assert forall|i: int| 0 <= i < before_eval.tiles@.len() implies (#[trigger] world.tiles@[i]).kind == before_eval.tiles@[i].kind by {
                assert(world.tiles@[i].kind == grown.tiles@[i].kind);
            }
        }
    }
}

/// Marking eliminations twice over the same tiles changes nothing the
/// second time.
proof fn lemma_marked_stable(w1: World, w2: World, p2: Seq<Player>)
    requires
        crate::victory::marked(w1, w2.players@),
        w2.tiles == w1.tiles,
        crate::victory::marked(w2, p2),
    ensures
        forall|i: int| 0 <= i < p2.len() ==> (#[trigger] p2[i]) == w2.players@[i],
{
    assert forall|i: int| 0 <= i < p2.len() implies (#[trigger] p2[i]) == w2.players@[i] by {
        let f = w2.players@[i].faction;
        if !w2.players@[i].eliminated && crate::victory::first_of_faction(w2.players@, i) && crate::victory::newly_out(w2, f) {
            assert(crate::victory::first_of_faction(w1.players@, i)) by {
                assert forall|j: int| 0 <= j < i implies (#[trigger] w1.players@[j]).faction != w1.players@[i].faction by {
                    assert(w2.players@[j].faction != w2.players@[i].faction);
                }
            }
            assert(!w1.players@[i].eliminated);
            assert(crate::victory::newly_out(w1, f)) by {
                assert(!w1.players@[i].eliminated && w1.players@[i].faction == f);
            }
        }
    }
}

/// When no player after the current one is still in, none is at all.
proof fn lemma_none_in(players: Seq<Player>, ti: int)
    requires
        0 <= ti < players.len(),
        next_spec(players, ti) is None,
    ensures
        forall|j: int| 0 <= j < players.len() ==> (#[trigger] players[j]).eliminated,
{
    assert forall|j: int| 0 <= j < players.len() implies (#[trigger] players[j]).eliminated by {
        let step = if j > ti { j - ti } else { j + players.len() - ti };
        lemma_search_none(players, ti, 1, step);
        assert((ti + step) % (players.len() as int) == j) by (nonlinear_arith)
            requires step == (if j > ti { j - ti } else { j + players.len() - ti }), 0 <= j < players.len(), 0 <= ti < players.len();
    }
}

proof fn lemma_search_none(players: Seq<Player>, ti: int, from: int, step: int)
    requires
        0 <= ti < players.len(),
        1 <= from <= step <= players.len(),
        next_search(players, ti, from) is None,
    ensures
        players[(ti + step) % (players.len() as int)].eliminated,
    decreases step - from,
{
    if from < step {
        let idx = (ti + from) % (players.len() as int);
        lemma_search_none(players, ti, from + 1, step);
    }
}

proof fn lemma_alive_empty(players: Seq<Player>)
    requires
        forall|j: int| 0 <= j < players.len() ==> (#[trigger] players[j]).eliminated,
    ensures
        crate::victory::alive(players).len() == 0,
    decreases players.len(),
{
    if players.len() > 0 {
        lemma_alive_empty(players.drop_last());
    }
}

} // verus!
