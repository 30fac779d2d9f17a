//! Forests creep: once a round, each forest may seed one neighbouring tile.

use crate::event::{extends, lemma_extends_append, lemma_extends_refl, Event, EventSink};
use crate::ids::TileId;
use crate::rng::{stream, SeedDomain};
use crate::rules::{contains_tile_kind, Ruleset, TileKind};
use crate::state::{Terrain, Tile, World};
use vstd::prelude::*;

verus! {

/// A tile the forests may have changed: it became a forest, on land, from
/// a kind forests may spread onto.
pub open spec fn forest_step(before: Tile, after: Tile, r: Ruleset) -> bool {
    after == before || (before.terrain == Terrain::Land && after == (Tile { kind: TileKind::Forest, ..before })
        && (before.kind == TileKind::Forest || r.growth.forest_spread_targets@.contains(before.kind)))
}

/// A percent chance drawn from a random state: the outcome and the state
/// after, as [`crate::rng::Rng::chance_percent`] draws it.
pub open spec fn chance_spec(s: (u64, u64, u64, u64), percent: u32) -> (bool, (u64, u64, u64, u64)) {
    if percent == 0 {
        (false, s)
    } else if percent >= 100 {
        (true, s)
    } else {
        let (d, s2) = crate::rng::below_spec(s, 100);
        (d < percent, s2)
    }
}

/// Whether a forest may spread onto tile `nb`: land of a permitted kind.
pub open spec fn target_pred(tiles: Seq<Tile>, r: Ruleset) -> spec_fn(TileId) -> bool {
    |nb: TileId| tiles[nb.0 as int].terrain == Terrain::Land && r.growth.forest_spread_targets@.contains(tiles[nb.0 as int].kind)
}

/// What one forest does in a round: with the round's chance, drawn from its
/// own stream, it turns one of its neighbours that it may spread onto into
/// forest, the neighbour picked from the same stream.
pub open spec fn spread_one(tiles: Seq<Tile>, adj: Seq<Seq<TileId>>, seed: u64, round: u32, r: Ruleset, source: TileId) -> Seq<Tile> {
    match spread_target(tiles, adj, seed, round, r, source) {
        Some(t) => tiles.update(t.0 as int, Tile { kind: TileKind::Forest, ..tiles[t.0 as int] }),
        None => tiles,
    }
}

/// The neighbour a forest on `source` seeds this round, if any: with the
/// round's chance, drawn from its own stream, one of its neighbours that it
/// may spread onto, picked from the same stream.
pub open spec fn spread_target(tiles: Seq<Tile>, adj: Seq<Seq<TileId>>, seed: u64, round: u32, r: Ruleset, source: TileId) -> Option<TileId> {
    let s0 = crate::rng::seeded(crate::rng::stream_mixer(seed, SeedDomain::ForestSpread, round, source.0));
    let (hit, s1) = chance_spec(s0, r.growth.forest_spread_percent);
    let targets = adj[source.0 as int].filter(target_pred(tiles, r));
    if !hit || targets.len() == 0 {
        None
    } else {
        Some(targets[crate::rng::below_spec(s1, targets.len() as u32).0 as int])
    }
}

/// The events of `sources` spreading in turn: one per forest that seeds a
/// neighbour, from the forest to that neighbour.
pub open spec fn spread_events(tiles: Seq<Tile>, adj: Seq<Seq<TileId>>, seed: u64, round: u32, r: Ruleset, sources: Seq<TileId>) -> Seq<Event>
    decreases sources.len(),
{
    if sources.len() == 0 {
        seq![]
    } else {
        let before = spread_all(tiles, adj, seed, round, r, sources.drop_last());
        spread_events(tiles, adj, seed, round, r, sources.drop_last()) + match spread_target(before, adj, seed, round, r, sources.last()) {
            Some(t) => seq![Event::ForestSpread { from: sources.last(), to: t }],
            None => seq![],
        }
    }
}

/// The forests among the first `n` tiles, in tile order.
pub open spec fn forest_sources(tiles: Seq<Tile>, n: int) -> Seq<TileId>
    decreases n,
{
    if n <= 0 {
        seq![]
    } else if tiles[n - 1].terrain == Terrain::Land && tiles[n - 1].kind == TileKind::Forest {
        forest_sources(tiles, n - 1).push(TileId((n - 1) as u32))
    } else {
        forest_sources(tiles, n - 1)
    }
}

/// Each of `sources` in turn has its chance to spread.
pub open spec fn spread_all(tiles: Seq<Tile>, adj: Seq<Seq<TileId>>, seed: u64, round: u32, r: Ruleset, sources: Seq<TileId>) -> Seq<Tile>
    decreases sources.len(),
{
    if sources.len() == 0 {
        tiles
    } else {
        spread_one(spread_all(tiles, adj, seed, round, r, sources.drop_last()), adj, seed, round, r, sources.last())
    }
}

/// Each land forest, with the round's forest-spread chance, turns one
/// neighbouring land tile of a permitted kind into forest, the target
/// picked by its own random stream. Nothing changes at a zero chance.
pub fn spread_forests(world: &mut World, rules: &Ruleset, sink: &mut EventSink)
    requires
        old(world).wf(),
    ensures
        final(world).wf(),
        final(world).same_except_tiles(*old(world)),
        final(world).tiles@.len() == old(world).tiles@.len(),
        forall|t: int| 0 <= t < final(world).tiles@.len() ==> forest_step(old(world).tiles@[t], #[trigger] final(world).tiles@[t], *rules),
        rules.growth.forest_spread_percent == 0 ==> final(world).tiles == old(world).tiles,
        rules.growth.forest_spread_percent > 0 ==> final(world).tiles@ == spread_all(
            old(world).tiles@,
            old(world).topology.adj(),
            old(world).seed,
            old(world).round,
            *rules,
            forest_sources(old(world).tiles@, old(world).tiles@.len() as int),
        ),
        extends(old(sink).view(), final(sink).view()),
        rules.growth.forest_spread_percent == 0 ==> final(sink).view() == old(sink).view(),
        rules.growth.forest_spread_percent > 0 ==> final(sink).view() == old(sink).view() + spread_events(
            old(world).tiles@,
            old(world).topology.adj(),
            old(world).seed,
            old(world).round,
            *rules,
            forest_sources(old(world).tiles@, old(world).tiles@.len() as int),
        ),
{
    let ghost ev0 = sink.view();
    proof {
        lemma_extends_refl(ev0);
    }
    if rules.growth.forest_spread_percent == 0 {
        return;
    }
    proof {
        use_type_invariant(&*world.topology);
    }
    let n = world.tiles.len();
    let mut sources: Vec<TileId> = Vec::new();
    let mut i: usize = 0;
    while i < n
        invariant
            n == world.tiles@.len(),
            n <= u32::MAX,
            i <= n,
            forall|k: int| 0 <= k < sources@.len() ==> (#[trigger] sources@[k]).0 < n,
            sources@ == forest_sources(world.tiles@, i as int),
        decreases n - i,
    {
        let t = &world.tiles[i];
        if t.is_land() && t.kind == TileKind::Forest {
            sources.push(TileId(i as u32));
        }
        i = i + 1;
    }
    let ghost o = *world;
    let mut k: usize = 0;
    proof {
        assert(sources@.take(0) =~= Seq::<TileId>::empty());
        assert(sink.view() =~= ev0 + Seq::<Event>::empty());
    }
    while k < sources.len()
        invariant
            world.wf(),
            world.same_except_tiles(o),
            n == world.tiles@.len(),
            n == o.tiles@.len(),
            forall|q: int| 0 <= q < sources@.len() ==> (#[trigger] sources@[q]).0 < n,
            forall|t: int| 0 <= t < n ==> forest_step(o.tiles@[t], #[trigger] world.tiles@[t], *rules),
            k <= sources@.len(),
            world.tiles@ == spread_all(o.tiles@, o.topology.adj(), o.seed, o.round, *rules, sources@.take(k as int)),
            sink.view() == ev0 + spread_events(o.tiles@, o.topology.adj(), o.seed, o.round, *rules, sources@.take(k as int)),
        decreases sources@.len() - k,
    {
        let ghost mid = *world;
        let ghost evm = sink.view();
        spread_from(world, rules, sources[k], sink);
        proof {
            let sk = sources@.take(k + 1);
            assert(sk.drop_last() =~= sources@.take(k as int));
            assert(sk.last() == sources@[k as int]);
            let extra = match spread_target(mid.tiles@, o.topology.adj(), o.seed, o.round, *rules, sources@[k as int]) {
                Some(t) => seq![Event::ForestSpread { from: sources@[k as int], to: t }],
                None => seq![],
            };
            assert(sink.view() =~= evm + extra);
            assert(spread_events(o.tiles@, o.topology.adj(), o.seed, o.round, *rules, sk)
                == spread_events(o.tiles@, o.topology.adj(), o.seed, o.round, *rules, sources@.take(k as int)) + extra);
            assert(sink.view() =~= ev0 + spread_events(o.tiles@, o.topology.adj(), o.seed, o.round, *rules, sk));
        }
        proof {
            assert(sources@.take(k + 1).drop_last() =~= sources@.take(k as int));
            assert(sources@.take(k + 1).last() == sources@[k as int]);
            assert forall|t: int| 0 <= t < n implies forest_step(o.tiles@[t], #[trigger] world.tiles@[t], *rules) by {
                assert(forest_step(o.tiles@[t], mid.tiles@[t], *rules));
                assert(forest_step(mid.tiles@[t], world.tiles@[t], *rules));
            }
        }
        k = k + 1;
    }
    proof {
        assert(sources@.take(sources@.len() as int) =~= sources@);
        lemma_extends_append(ev0, spread_events(o.tiles@, o.topology.adj(), o.seed, o.round, *rules, sources@));
    }
}

/// A forest seeds only one of its neighbours.
proof fn lemma_target_neighbour(tiles: Seq<Tile>, adj: Seq<Seq<TileId>>, seed: u64, round: u32, r: Ruleset, src: TileId)
    requires
        adj[src.0 as int].len() <= u32::MAX,
    ensures
        spread_target(tiles, adj, seed, round, r, src) matches Some(t) ==> adj[src.0 as int].contains(t),
{
    let targets = adj[src.0 as int].filter(target_pred(tiles, r));
    let s0 = crate::rng::seeded(crate::rng::stream_mixer(seed, SeedDomain::ForestSpread, round, src.0));
    let s1 = chance_spec(s0, r.growth.forest_spread_percent).1;
    adj[src.0 as int].lemma_filter_len(target_pred(tiles, r));
    if targets.len() > 0 {
        lemma_pick_member(targets, s1);
        let t = targets[crate::rng::below_spec(s1, targets.len() as u32).0 as int];
        adj[src.0 as int].lemma_filter_contains_rev(target_pred(tiles, r), t);
    }
}

/// A draw below the length picks a member.
proof fn lemma_pick_member(targets: Seq<TileId>, s1: (u64, u64, u64, u64))
    requires
        0 < targets.len() <= u32::MAX,
    ensures
        targets.contains(targets[crate::rng::below_spec(s1, targets.len() as u32).0 as int]),
{
    crate::rng::lemma_below_in_range(s1, targets.len() as u32);
    let i = crate::rng::below_spec(s1, targets.len() as u32).0 as int;
    assert(0 <= i < targets.len());
}

/// Every forest-spread event of a round goes from one of the spreading
/// forests to one of its neighbours, and there are no more events than
/// forests.
pub proof fn lemma_spread_events_shape(tiles: Seq<Tile>, adj: Seq<Seq<TileId>>, seed: u64, round: u32, r: Ruleset, sources: Seq<TileId>)
    requires
        forall|k: int| 0 <= k < sources.len() ==> 0 <= (#[trigger] sources[k]).0 < adj.len(),
        forall|i: int| 0 <= i < adj.len() ==> (#[trigger] adj[i]).len() <= u32::MAX,
    ensures
        spread_events(tiles, adj, seed, round, r, sources).len() <= sources.len(),
        forall|k: int| 0 <= k < spread_events(tiles, adj, seed, round, r, sources).len() ==> {
            let e = #[trigger] spread_events(tiles, adj, seed, round, r, sources)[k];
            e matches Event::ForestSpread { from, to } && sources.contains(from) && adj[from.0 as int].contains(to)
        },
    decreases sources.len(),
{
    if sources.len() > 0 {
        let pre = sources.drop_last();
        lemma_spread_events_shape(tiles, adj, seed, round, r, pre);
        let ev0 = spread_events(tiles, adj, seed, round, r, pre);
        let ev = spread_events(tiles, adj, seed, round, r, sources);
        let src = sources.last();
        let before = spread_all(tiles, adj, seed, round, r, pre);
        assert(sources.contains(src)) by {
            assert(sources[sources.len() - 1] == src);
        }
        lemma_target_neighbour(before, adj, seed, round, r, src);
        assert forall|k: int| 0 <= k < ev.len() implies {
            let e = #[trigger] ev[k];
            e matches Event::ForestSpread { from, to } && sources.contains(from) && adj[from.0 as int].contains(to)
        } by {
            if k < ev0.len() {
                assert(ev[k] == ev0[k]);
                let e = ev0[k];
                if let Event::ForestSpread { from, to } = e {
                    assert(pre.contains(from));
                    let q = choose|q: int| 0 <= q < pre.len() && pre[q] == from;
                    assert(sources[q] == from);
                }
            }
        }
    }
}

/// One forest's chance to seed a neighbour.
fn spread_from(world: &mut World, rules: &Ruleset, source: TileId, sink: &mut EventSink)
    requires
        old(world).wf(),
        source.0 < old(world).tiles@.len(),
    ensures
        final(world).wf(),
        final(world).same_except_tiles(*old(world)),
        final(world).tiles@.len() == old(world).tiles@.len(),
        forall|t: int| 0 <= t < final(world).tiles@.len() ==> forest_step(old(world).tiles@[t], #[trigger] final(world).tiles@[t], *rules),
        final(world).tiles@ == spread_one(old(world).tiles@, old(world).topology.adj(), old(world).seed, old(world).round, *rules, source),
        final(sink).view() == match spread_target(old(world).tiles@, old(world).topology.adj(), old(world).seed, old(world).round, *rules, source) {
            Some(t) => old(sink).view().push(Event::ForestSpread { from: source, to: t }),
            None => old(sink).view(),
        },
{
    proof {
        use_type_invariant(&*world.topology);
    }
    let n = world.tiles.len();
    let ghost o = *world;
    let mut rng = stream(world.seed, SeedDomain::ForestSpread, world.round, source.0);
    if !rng.chance_percent(rules.growth.forest_spread_percent) {
        return;
    }
    let ns = world.topology.neighbors(source);
    let mut targets: Vec<TileId> = Vec::new();
    let mut j: usize = 0;
    while j < ns.len()
        invariant
            j <= ns@.len(),
            n == world.tiles@.len(),
            n == world.topology.adj().len(),
            ns@ == world.topology.adj()[source.0 as int],
            crate::topology::valid_adjacency(world.topology.adj()),
            source.0 < n,
            forall|q: int| 0 <= q < targets@.len() ==> (#[trigger] targets@[q]).0 < n
                && world.tiles@[targets@[q].0 as int].terrain == Terrain::Land
                && rules.growth.forest_spread_targets@.contains(world.tiles@[targets@[q].0 as int].kind),
            targets@ == ns@.take(j as int).filter(target_pred(world.tiles@, *rules)),
        decreases ns@.len() - j,
    {
        proof {
            assert(ns@.take(j + 1).drop_last() =~= ns@.take(j as int));
        }
        let nb = ns[j];
        proof {
            assert(world.topology.adj()[source.0 as int].contains(nb));
            assert(!crate::topology::pair_fault(world.topology.adj(), source.0 as int, nb));
        }
        let tile = &world.tiles[nb.index()];
        let ok = tile.is_land() && contains_tile_kind(&rules.growth.forest_spread_targets, tile.kind);
        proof {
            assert(ns@.take(j + 1).last() == nb);
            assert(target_pred(world.tiles@, *rules)(nb) == ok);
        }
        let ghost before = targets@;
        if ok {
            targets.push(nb);
        }
        proof {
            let p = target_pred(world.tiles@, *rules);
            let s1 = ns@.take(j + 1);
            assert(s1.len() > 0);
            assert(s1.drop_last() == ns@.take(j as int));
            reveal(Seq::filter);
            assert(s1.filter(p) == (if p(s1.last()) { s1.drop_last().filter(p).push(s1.last()) } else { s1.drop_last().filter(p) }));
            assert(targets@ =~= s1.filter(p));
        }
        j = j + 1;
    }
    proof {
        assert(ns@.take(ns@.len() as int) =~= ns@);
        assert(ns@.take(0) =~= Seq::<TileId>::empty());
    }
    match rng.pick(targets.as_slice()) {
        Some(target) => {
            let target = *target;
            proof {
                let q = choose|q: int| 0 <= q < targets@.len() && targets@[q] == target;
            }
            let mut tile = *world.tile(target);
            tile.kind = TileKind::Forest;
            world.set_tile(target, tile);
            sink.push(Event::ForestSpread { from: source, to: target });
        },
        None => {},
    }
}

} // verus!
