//! How a match ends.
//!
//! A faction holding no tiles is eliminated. When one faction is left it
//! wins; when none is, the match is a draw. At the end of a round a faction
//! holding at least the dominance share of all land for enough consecutive
//! rounds wins outright.

use crate::arith::inc32;
use crate::event::{extends, lemma_extends_push, lemma_extends_refl, lemma_extends_trans, Event, EventSink};
use crate::ids::{faction_ordinal, Faction};
use crate::rules::Ruleset;
use crate::state::{land_tiles, owned_by, Outcome, Player, VictoryReason, World};
use vstd::prelude::*;

verus! {

/// The player at `i` is the first listed for its faction.
pub open spec fn first_of_faction(players: Seq<Player>, i: int) -> bool {
    forall|j: int| 0 <= j < i ==> (#[trigger] players[j]).faction != players[i].faction
}

/// Some not-yet-eliminated player of `f` exists and `f` holds no tiles.
pub open spec fn newly_out(w: World, f: Faction) -> bool {
    owned_by(w.tiles@, f).len() == 0 && exists|j: int| 0 <= j < w.players@.len() && !(#[trigger] w.players@[j]).eliminated && w.players@[j].faction == f
}

/// The players after eliminations are marked: the first player of each
/// faction that has just lost its last tile is flagged.
pub open spec fn marked(w: World, p: Seq<Player>) -> bool {
    &&& p.len() == w.players@.len()
    &&& forall|i: int| 0 <= i < p.len() ==> {
        &&& (#[trigger] p[i]).faction == w.players@[i].faction
        &&& p[i].controller == w.players@[i].controller
        &&& p[i].eliminated == (w.players@[i].eliminated || (first_of_faction(w.players@, i) && newly_out(w, w.players@[i].faction)))
    }
}

/// Factions of the players still in, in player order.
pub open spec fn alive(p: Seq<Player>) -> Seq<Faction>
    decreases p.len(),
{
    if p.len() == 0 {
        Seq::empty()
    } else if p.last().eliminated {
        alive(p.drop_last())
    } else {
        alive(p.drop_last()).push(p.last().faction)
    }
}

/// Whether a faction's share of the land meets the dominance threshold.
pub open spec fn dominant(tiles: Seq<crate::state::Tile>, r: Ruleset, f: Faction) -> bool {
    owned_by(tiles, f).len() * 100 >= land_tiles(tiles).len() * r.victory.dominance_threshold_percent
}

/// Streaks after visiting the first `k` alive factions, and the victory, if
/// one of them reached the required streak (visiting stops there).
pub open spec fn dominance_from(w: Seq<crate::state::Tile>, r: Ruleset, fs: Seq<Faction>, k: int, streaks: Seq<u32>) -> (Seq<u32>, Option<Faction>)
    decreases k,
{
    if k <= 0 {
        (streaks, None)
    } else {
        let prev = dominance_from(w, r, fs, k - 1, streaks);
        match prev.1 {
            Some(f) => prev,
            None => {
                let f = fs[k - 1];
                let i = faction_ordinal(f) as int;
                let s = if dominant(w, r, f) {
                    if prev.0[i] == u32::MAX { u32::MAX } else { (prev.0[i] + 1) as u32 }
                } else {
                    0u32
                };
                (prev.0.update(i, s), if s >= r.victory.dominance_turns { Some(f) } else { None })
            },
        }
    }
}

/// Dominance counts consecutive round ends only. After a round-end check
/// that names no winner, every surviving faction below the threshold has a
/// streak of 0 and every one at or above it a streak of at least 1; a faction
/// named winner holds the threshold now (unless no rounds at all are asked
/// for), is one of the survivors, and its streak has reached the required
/// count. So a win needs the threshold held at `dominance_turns` round ends
/// in a row: a single round below it wipes the count.
pub proof fn lemma_dominance_needs_consecutive_rounds(w: Seq<crate::state::Tile>, r: Ruleset, fs: Seq<Faction>, streaks: Seq<u32>)
    requires
        streaks.len() == 4,
    ensures
        ({
            let d = dominance_from(w, r, fs, fs.len() as int, streaks);
            &&& d.0.len() == 4
            &&& d.1 is None ==> forall|k: int| 0 <= k < fs.len() ==> {
                &&& !dominant(w, r, #[trigger] fs[k]) ==> d.0[faction_ordinal(fs[k]) as int] == 0
                &&& dominant(w, r, fs[k]) ==> d.0[faction_ordinal(fs[k]) as int] >= 1
            }
            &&& d.1 matches Some(f) ==> {
                &&& dominant(w, r, f) || r.victory.dominance_turns == 0
                &&& d.0[faction_ordinal(f) as int] >= r.victory.dominance_turns
                &&& fs.contains(f)
            }
        }),
{
    lemma_dominance_prefix(w, r, fs, fs.len() as int, streaks);
}

proof fn lemma_dominance_prefix(w: Seq<crate::state::Tile>, r: Ruleset, fs: Seq<Faction>, k: int, streaks: Seq<u32>)
    requires
        streaks.len() == 4,
        0 <= k <= fs.len(),
    ensures
        ({
            let d = dominance_from(w, r, fs, k, streaks);
            &&& d.0.len() == 4
            &&& d.1 is None ==> forall|j: int| 0 <= j < k ==> {
                &&& !dominant(w, r, #[trigger] fs[j]) ==> d.0[faction_ordinal(fs[j]) as int] == 0
                &&& dominant(w, r, fs[j]) ==> d.0[faction_ordinal(fs[j]) as int] >= 1
            }
            &&& d.1 matches Some(f) ==> {
                &&& dominant(w, r, f) || r.victory.dominance_turns == 0
                &&& d.0[faction_ordinal(f) as int] >= r.victory.dominance_turns
                &&& exists|j: int| 0 <= j < k && fs[j] == f
            }
        }),
    decreases k,
{
    if k > 0 {
        lemma_dominance_prefix(w, r, fs, k - 1, streaks);
        let prev = dominance_from(w, r, fs, k - 1, streaks);
        if prev.1 is Some {
            let f = prev.1->0;
            let j = choose|j: int| 0 <= j < k - 1 && fs[j] == f;
            assert(0 <= j < k && fs[j] == f);
        } else {
            let f = fs[k - 1];
            let d = dominance_from(w, r, fs, k, streaks);
            assert forall|j: int| 0 <= j < k && d.1 is None implies {
                &&& !dominant(w, r, #[trigger] fs[j]) ==> d.0[faction_ordinal(fs[j]) as int] == 0
                &&& dominant(w, r, fs[j]) ==> d.0[faction_ordinal(fs[j]) as int] >= 1
            } by {
                if faction_ordinal(fs[j]) == faction_ordinal(f) {
                    assert(fs[j] == f);
                }
            }
            if d.1 is Some {
                assert(fs[k - 1] == f);
            }
        }
    }
}

/// Flag the players whose faction has just lost its last tile.
fn mark_eliminations(world: &mut World, sink: &mut EventSink)
    requires
        old(world).wf(),
    ensures
        final(world).wf(),
        marked(*old(world), final(world).players@),
        final(world).tiles == old(world).tiles,
        final(world).units == old(world).units,
        final(world).territories == old(world).territories,
        final(world).stats == old(world).stats,
        final(world).dominance_streak == old(world).dominance_streak,
        final(world).outcome == old(world).outcome,
        final(world).seed == old(world).seed,
        final(world).topology == old(world).topology,
        final(world).round == old(world).round,
        final(world).turn_index == old(world).turn_index,
        final(world).counters() == old(world).counters(),
        extends(old(sink).view(), final(sink).view()),
{
    let ghost o = *world;
    let ghost ev0 = sink.view();
    proof {
        lemma_extends_refl(ev0);
    }
    let n = world.players.len();
    let mut i: usize = 0;
    while i < n
        invariant
            world.wf(),
            n == world.players@.len(),
            n == o.players@.len(),
            i <= n,
            world.tiles == o.tiles,
            world.units == o.units,
            world.territories == o.territories,
            world.stats == o.stats,
            world.dominance_streak == o.dominance_streak,
            world.outcome == o.outcome,
            world.seed == o.seed,
            world.topology == o.topology,
            world.round == o.round,
            world.turn_index == o.turn_index,
            world.counters() == o.counters(),
            extends(ev0, sink.view()),
            forall|j: int| 0 <= j < n ==> {
                &&& (#[trigger] world.players@[j]).faction == o.players@[j].faction
                &&& world.players@[j].controller == o.players@[j].controller
                &&& world.players@[j].eliminated == (o.players@[j].eliminated || (j < i && first_of_faction(o.players@, j) && newly_out(o, o.players@[j].faction)))
            },
        decreases n - i,
    {
        let f = world.players[i].faction;
        let mut first = true;
        let mut j: usize = 0;
        while j < i
            invariant
                j <= i,
                i < n,
                n == world.players@.len(),
                forall|q: int| 0 <= q < n ==> (#[trigger] world.players@[q]).faction == o.players@[q].faction,
                f == o.players@[i as int].faction,
                first == forall|q: int| 0 <= q < j ==> (#[trigger] o.players@[q]).faction != f,
            decreases i - j,
        {
            if world.players[j].faction == f {
                first = false;
            }
            j = j + 1;
        }
        if first {
            let count = world.tile_count_of(f);
            let mut any = false;
            let mut q: usize = 0;
            while q < n
                invariant
                    q <= n,
                    n == world.players@.len(),
                    i < n,
                    f == o.players@[i as int].faction,
                    forall|x: int| 0 <= x < i ==> (#[trigger] o.players@[x]).faction != f,
                    forall|x: int| 0 <= x < n ==> (#[trigger] world.players@[x]).faction == o.players@[x].faction,
                    forall|x: int| 0 <= x < n ==> #[trigger] world.players@[x].eliminated == (o.players@[x].eliminated || (x < i && first_of_faction(o.players@, x) && newly_out(o, o.players@[x].faction))),
                    any == exists|x: int| 0 <= x < q && !(#[trigger] o.players@[x]).eliminated && o.players@[x].faction == f,
                decreases n - q,
            {
                let p = &world.players[q];
                proof {
                    if q < i && first_of_faction(o.players@, q as int) && newly_out(o, o.players@[q as int].faction) {
                        assert(o.players@[q as int].faction != f);
                    }
                }
                if !p.eliminated && p.faction == f {
                    any = true;
                }
                q = q + 1;
            }
            if count == 0 && any {
                let mut p = world.players.remove(i);
                p.eliminated = true;
                world.players.insert(i, p);
                let ghost evp = sink.view();
                sink.push(Event::PlayerEliminated { faction: f });
                proof {
                    lemma_extends_push(evp, Event::PlayerEliminated { faction: f });
                    lemma_extends_trans(ev0, evp, sink.view());
                }
            }
        }
        i = i + 1;
    }
}

/// Settle the match if it is decided. Eliminations are marked first; then a
/// lone survivor wins and no survivor is a draw; otherwise, at the end of a
/// round, dominance streaks advance and a long enough one wins. A decided
/// match is left as it is.
pub fn evaluate(world: &mut World, rules: &Ruleset, round_ended: bool, sink: &mut EventSink)
    requires
        old(world).wf(),
    ensures
        final(world).wf(),
        old(world).outcome is Some ==> final(world).players == old(world).players && final(world).outcome == old(world).outcome
            && final(world).dominance_streak == old(world).dominance_streak,
        old(world).outcome is None ==> {
            let fs = alive(final(world).players@);
            &&& marked(*old(world), final(world).players@)
            &&& fs.len() == 0 ==> final(world).outcome == Some(Outcome::Draw { round: old(world).round })
            &&& fs.len() == 1 ==> final(world).outcome == Some(Outcome::Victory { faction: fs[0], reason: VictoryReason::Elimination, round: old(world).round })
            &&& fs.len() >= 2 && (!round_ended || land_tiles(old(world).tiles@).len() == 0) ==> final(world).outcome is None
                && final(world).dominance_streak == old(world).dominance_streak
            &&& fs.len() >= 2 && round_ended && land_tiles(old(world).tiles@).len() > 0 ==> {
                let d = dominance_from(old(world).tiles@, *rules, fs, fs.len() as int, old(world).dominance_streak@);
                &&& final(world).dominance_streak@ == d.0
                &&& final(world).outcome == match d.1 {
                    Some(f) => Some(Outcome::Victory { faction: f, reason: VictoryReason::Dominance, round: old(world).round }),
                    None => None,
                }
            }
        },
        final(world).tiles == old(world).tiles,
        final(world).units == old(world).units,
        final(world).territories == old(world).territories,
        final(world).stats == old(world).stats,
        final(world).seed == old(world).seed,
        final(world).topology == old(world).topology,
        final(world).round == old(world).round,
        final(world).turn_index == old(world).turn_index,
        final(world).counters() == old(world).counters(),
        final(world).players@.len() == old(world).players@.len(),
        extends(old(sink).view(), final(sink).view()),
{
    let ghost ev0 = sink.view();
    proof {
        lemma_extends_refl(ev0);
    }
    if world.is_over() {
        return;
    }
    mark_eliminations(world, sink);
    let ghost ev1 = sink.view();
    let mut fs: Vec<Faction> = Vec::new();
    let mut i: usize = 0;
    while i < world.players.len()
        invariant
            i <= world.players@.len(),
            fs@ == alive(world.players@.take(i as int)),
        decreases world.players@.len() - i,
    {
        proof {
            assert(world.players@.take(i + 1).drop_last() =~= world.players@.take(i as int));
        }
        if !world.players[i].eliminated {
            fs.push(world.players[i].faction);
        }
        i = i + 1;
    }
    proof {
        assert(world.players@.take(i as int) =~= world.players@);
    }
    if fs.len() == 0 {
        let outcome = Outcome::Draw { round: world.round };
        world.outcome = Some(outcome);
        sink.push(Event::GameOver { outcome });
        proof {
            lemma_extends_push(ev1, Event::GameOver { outcome });
            lemma_extends_trans(ev0, ev1, sink.view());
        }
        return;
    }
    if fs.len() == 1 {
        let outcome = Outcome::Victory { faction: fs[0], reason: VictoryReason::Elimination, round: world.round };
        world.outcome = Some(outcome);
        sink.push(Event::GameOver { outcome });
        proof {
            lemma_extends_push(ev1, Event::GameOver { outcome });
            lemma_extends_trans(ev0, ev1, sink.view());
        }
        return;
    }
    if round_ended {
        check_dominance(world, rules, &fs, sink);
        proof {
            lemma_extends_trans(ev0, ev1, sink.view());
        }
    }
}

/// Advance each surviving faction's dominance streak, in player order,
/// stopping at the first that has held the threshold long enough.
fn check_dominance(world: &mut World, rules: &Ruleset, fs: &Vec<Faction>, sink: &mut EventSink)
    requires
        old(world).wf(),
        old(world).outcome is None,
    ensures
        final(world).wf(),
        land_tiles(old(world).tiles@).len() == 0 ==> final(world).outcome is None && final(world).dominance_streak == old(world).dominance_streak,
        land_tiles(old(world).tiles@).len() > 0 ==> {
            let d = dominance_from(old(world).tiles@, *rules, fs@, fs@.len() as int, old(world).dominance_streak@);
            &&& final(world).dominance_streak@ == d.0
            &&& final(world).outcome == match d.1 {
                Some(f) => Some(Outcome::Victory { faction: f, reason: VictoryReason::Dominance, round: old(world).round }),
                None => None,
            }
        },
        final(world).tiles == old(world).tiles,
        final(world).units == old(world).units,
        final(world).territories == old(world).territories,
        final(world).players == old(world).players,
        final(world).stats == old(world).stats,
        final(world).seed == old(world).seed,
        final(world).topology == old(world).topology,
        final(world).round == old(world).round,
        final(world).turn_index == old(world).turn_index,
        final(world).counters() == old(world).counters(),
        extends(old(sink).view(), final(sink).view()),
{
    let ghost ev0 = sink.view();
    proof {
        lemma_extends_refl(ev0);
    }
    let land = world.land_tile_count();
    if land == 0 {
        return;
    }
    let threshold = rules.victory.dominance_threshold_percent;
    let ghost o = *world;
    let mut k: usize = 0;
    while k < fs.len()
        invariant
            world.wf(),
            k <= fs@.len(),
            o == *old(world),
            land == land_tiles(o.tiles@).len(),
            land > 0,
            threshold == rules.victory.dominance_threshold_percent,
            world.tiles == o.tiles,
            world.units == o.units,
            world.territories == o.territories,
            world.players == o.players,
            world.stats == o.stats,
            world.seed == o.seed,
            world.topology == o.topology,
            world.round == o.round,
            world.turn_index == o.turn_index,
            world.counters() == o.counters(),
            world.outcome is None,
            sink.view() == ev0,
            ev0 == old(sink).view(),
            dominance_from(o.tiles@, *rules, fs@, k as int, o.dominance_streak@) == (world.dominance_streak@, None::<Faction>),
        decreases fs@.len() - k,
    {
        let f = fs[k];
        let held = world.tile_count_of(f);
        proof {
            assert((land as int) * (threshold as int) <= 0xffff_ffff * 0xffff_ffffu64) by (nonlinear_arith)
                requires land <= 0xffff_ffff, threshold <= 0xffff_ffff;
        }
        let is_dominant = (held as u64) * 100 >= (land as u64) * (threshold as u64);
        let i = f.ordinal() as usize;
        let s = if is_dominant { inc32(world.dominance_streak[i]) } else { 0 };
        world.dominance_streak.set(i, s);
        if s >= rules.victory.dominance_turns {
            let outcome = Outcome::Victory { faction: f, reason: VictoryReason::Dominance, round: world.round };
            world.outcome = Some(outcome);
            sink.push(Event::GameOver { outcome });
            proof {
                lemma_extends_push(ev0, Event::GameOver { outcome });
                let dd = dominance_from(o.tiles@, *rules, fs@, k + 1, o.dominance_streak@);
                assert(is_dominant == dominant(o.tiles@, *rules, f));
                assert(dd.1 == Some(f));
                assert(dd.0 =~= world.dominance_streak@);
                lemma_dominance_stops(o.tiles@, *rules, fs@, k + 1, fs@.len() as int, o.dominance_streak@);
            }
            return;
        }
        proof {
            assert(is_dominant == dominant(o.tiles@, *rules, f));
            assert(dominance_from(o.tiles@, *rules, fs@, k + 1, o.dominance_streak@).0 =~= world.dominance_streak@);
        }
        k = k + 1;
    }
}

proof fn lemma_dominance_stops(w: Seq<crate::state::Tile>, r: Ruleset, fs: Seq<Faction>, k: int, m: int, streaks: Seq<u32>)
    requires
        0 <= k <= m,
        dominance_from(w, r, fs, k, streaks).1 is Some,
    ensures
        dominance_from(w, r, fs, m, streaks) == dominance_from(w, r, fs, k, streaks),
    decreases m - k,
{
    if m > k {
        lemma_dominance_stops(w, r, fs, k, m - 1, streaks);
    }
}

/// The percentage of all land a faction holds, rounded down; 0 on a planet
/// without land.
pub fn land_share_percent(world: &World, faction: Faction) -> (p: u32)
    requires
        world.tiles@.len() <= u32::MAX,
        owned_by(world.tiles@, faction).len() * 100 <= u32::MAX,
    ensures
        p == (if land_tiles(world.tiles@).len() == 0 {
            0
        } else {
            owned_by(world.tiles@, faction).len() * 100 / land_tiles(world.tiles@).len()
        }),
{
    let land = world.land_tile_count();
    if land == 0 {
        return 0;
    }
    world.tile_count_of(faction) * 100 / land
}

} // verus!
