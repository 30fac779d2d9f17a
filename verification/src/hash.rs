//! A fingerprint of the whole world, for replay checks and golden tests.
//!
//! The world is written out in a fixed byte encoding and hashed with
//! FNV-1a, so the same state gives the same number on every machine.

use crate::digest::{fnv1a_spec, le_u32, le_u64, opt_bytes, Digest};
use crate::ids::{faction_ordinal, Faction};
use crate::rules::{tile_kind_code, unit_kind_code};
use crate::state::{FactionStats, Outcome, Player, Terrain, Territory, Tile, Unit, VictoryReason, World};
use vstd::prelude::*;

verus! {

/// The bytes of each element of `s`, one after another.
pub open spec fn concat_map<A>(s: Seq<A>, f: spec_fn(A) -> Seq<u8>) -> Seq<u8>
    decreases s.len(),
{
    if s.len() == 0 {
        Seq::empty()
    } else {
        concat_map(s.drop_last(), f) + f(s.last())
    }
}

pub proof fn lemma_concat_map_take<A>(s: Seq<A>, f: spec_fn(A) -> Seq<u8>, i: int)
    requires
        0 <= i < s.len(),
    ensures
        concat_map(s.take(i + 1), f) == concat_map(s.take(i), f) + f(s[i]),
{
    assert(s.take(i + 1).drop_last() =~= s.take(i));
}

pub open spec fn faction_u32(f: Faction) -> u32 {
    faction_ordinal(f) as u32
}

pub open spec fn outcome_bytes(o: Option<Outcome>) -> Seq<u8> {
    match o {
        None => seq![0u8],
        Some(Outcome::Draw { round }) => seq![1u8] + le_u32(round),
        Some(Outcome::Victory { faction, reason, round }) => seq![2u8] + le_u32(faction_u32(faction)) + seq![
            match reason {
                VictoryReason::Elimination => 0u8,
                VictoryReason::Dominance => 1u8,
            },
        ] + le_u32(round),
    }
}

pub open spec fn tile_bytes(t: Tile) -> Seq<u8> {
    seq![
        match t.terrain {
            Terrain::Water => 0u8,
            Terrain::Land => 1u8,
        },
        tile_kind_code(t.kind),
    ] + opt_bytes(
        match t.owner {
            Some(f) => Some(faction_u32(f)),
            None => None,
        },
    ) + opt_bytes(
        match t.territory {
            Some(id) => Some(id.0),
            None => None,
        },
    ) + opt_bytes(
        match t.unit {
            Some(id) => Some(id.0),
            None => None,
        },
    )
}

pub open spec fn unit_bytes(u: Unit) -> Seq<u8> {
    le_u32(u.id.0) + seq![unit_kind_code(u.kind)] + le_u32(faction_u32(u.faction)) + le_u32(u.tile.0)
        + le_u32(u.born) + seq![if u.moved { 1u8 } else { 0u8 }]
}

pub open spec fn territory_bytes(t: Territory) -> Seq<u8> {
    le_u32(t.id.0) + le_u32(faction_u32(t.faction)) + le_u32(t.capital.0) + le_u32(t.wheat as u32) + le_u32(
        t.gold as u32,
    ) + le_u32(t.tiles@.len() as u32) + concat_map(t.tiles@, |x: crate::ids::TileId| le_u32(x.0))
}

pub open spec fn player_bytes(p: Player) -> Seq<u8> {
    le_u32(faction_u32(p.faction)) + seq![if p.eliminated { 1u8 } else { 0u8 }]
}

pub open spec fn stats_bytes(ordinal: u32, s: FactionStats) -> Seq<u8> {
    le_u32(ordinal) + le_u32(s.units_recruited) + le_u32(s.units_upgraded) + le_u32(s.units_lost) + le_u32(
        s.units_killed,
    ) + le_u32(s.units_starved) + le_u32(s.tiles_captured) + le_u32(s.tiles_lost) + le_u32(s.towns_built)
        + le_u32(s.fields_built) + le_u32(s.capitals_razed) + le_u32(s.peak_tiles) + le_u32(
        s.peak_territories,
    ) + le_u64(s.gold_earned) + le_u64(s.wheat_earned) + le_u64(s.gold_looted)
}

/// The recorded totals of the first `n` factions (by ordinal), skipping
/// those with nothing recorded.
pub open spec fn all_stats_bytes(stats: Seq<Option<FactionStats>>, n: int) -> Seq<u8>
    decreases n,
{
    if n <= 0 {
        Seq::empty()
    } else {
        all_stats_bytes(stats, n - 1) + match stats[n - 1] {
            Some(s) => stats_bytes((n - 1) as u32, s),
            None => Seq::empty(),
        }
    }
}

/// The byte encoding the world fingerprint is taken over.
pub open spec fn world_bytes(w: World) -> Seq<u8> {
    le_u64(w.seed) + le_u32(w.round) + le_u32(w.turn_index as u32) + outcome_bytes(w.outcome) + concat_map(
        w.tiles@,
        |t: Tile| tile_bytes(t),
    ) + concat_map(w.units@, |u: Unit| unit_bytes(u)) + concat_map(
        w.territories@,
        |t: Territory| territory_bytes(t),
    ) + concat_map(w.players@, |p: Player| player_bytes(p)) + all_stats_bytes(w.stats@, 4)
}

fn write_outcome(d: &mut Digest, o: Option<Outcome>)
    requires
        old(d).wf(),
    ensures
        final(d).wf(),
        final(d).bytes() == old(d).bytes() + outcome_bytes(o),
{
    let ghost start = d.bytes();
    match o {
        None => d.byte(0),
        Some(Outcome::Draw { round }) => {
            d.byte(1);
            d.u32(round);
        },
        Some(Outcome::Victory { faction, reason, round }) => {
            d.byte(2);
            d.u32(faction.ordinal());
            d.byte(
                match reason {
                    VictoryReason::Elimination => 0,
                    VictoryReason::Dominance => 1,
                },
            );
            d.u32(round);
        },
    }
    assert(d.bytes() =~= start + outcome_bytes(o));
}

fn write_tile(d: &mut Digest, t: &Tile)
    requires
        old(d).wf(),
    ensures
        final(d).wf(),
        final(d).bytes() == old(d).bytes() + tile_bytes(*t),
{
    let ghost start = d.bytes();
    d.byte(
        match t.terrain {
            Terrain::Water => 0,
            Terrain::Land => 1,
        },
    );
    d.byte(t.kind.code());
    d.opt_u32(
        match t.owner {
            Some(f) => Some(f.ordinal()),
            None => None,
        },
    );
    d.opt_u32(
        match t.territory {
            Some(id) => Some(id.0),
            None => None,
        },
    );
    d.opt_u32(
        match t.unit {
            Some(id) => Some(id.0),
            None => None,
        },
    );
    assert(d.bytes() =~= start + tile_bytes(*t));
}

fn write_unit(d: &mut Digest, u: &Unit)
    requires
        old(d).wf(),
    ensures
        final(d).wf(),
        final(d).bytes() == old(d).bytes() + unit_bytes(*u),
{
    let ghost start = d.bytes();
    d.u32(u.id.0);
    d.byte(u.kind.code());
    d.u32(u.faction.ordinal());
    d.u32(u.tile.0);
    d.u32(u.born);
    d.byte(if u.moved { 1 } else { 0 });
    assert(d.bytes() =~= start + unit_bytes(*u));
}

fn write_territory(d: &mut Digest, t: &Territory)
    requires
        old(d).wf(),
    ensures
        final(d).wf(),
        final(d).bytes() == old(d).bytes() + territory_bytes(*t),
{
    let ghost start = d.bytes();
    let ghost f = |x: crate::ids::TileId| le_u32(x.0);
    d.u32(t.id.0);
    d.u32(t.faction.ordinal());
    d.u32(t.capital.0);
    d.i32(t.wheat);
    d.i32(t.gold);
    #[verifier::truncate]
    let n = t.tiles.len() as u32;
    d.u32(n);
    let ghost head = d.bytes();
    let mut i: usize = 0;
    while i < t.tiles.len()
        invariant
            d.wf(),
            i <= t.tiles@.len(),
            f == (|x: crate::ids::TileId| le_u32(x.0)),
            d.bytes() == head + concat_map(t.tiles@.take(i as int), f),
        decreases t.tiles@.len() - i,
    {
        proof {
            lemma_concat_map_take(t.tiles@, f, i as int);
        }
        d.u32(t.tiles[i].0);
        proof {
            assert(d.bytes() =~= head + concat_map(t.tiles@.take(i + 1), f));
        }
        i = i + 1;
    }
    proof {
        assert(t.tiles@.take(i as int) =~= t.tiles@);
        assert(d.bytes() =~= start + territory_bytes(*t));
    }
}

fn write_stats(d: &mut Digest, ordinal: u32, s: &FactionStats)
    requires
        old(d).wf(),
    ensures
        final(d).wf(),
        final(d).bytes() == old(d).bytes() + stats_bytes(ordinal, *s),
{
    let ghost start = d.bytes();
    d.u32(ordinal);
    d.u32(s.units_recruited);
    d.u32(s.units_upgraded);
    d.u32(s.units_lost);
    d.u32(s.units_killed);
    d.u32(s.units_starved);
    d.u32(s.tiles_captured);
    d.u32(s.tiles_lost);
    d.u32(s.towns_built);
    d.u32(s.fields_built);
    d.u32(s.capitals_razed);
    d.u32(s.peak_tiles);
    d.u32(s.peak_territories);
    d.u64(s.gold_earned);
    d.u64(s.wheat_earned);
    d.u64(s.gold_looted);
    assert(d.bytes() =~= start + stats_bytes(ordinal, *s));
}

/// The fingerprint of a world: FNV-1a over its fixed byte encoding.
pub fn world_hash(world: &World) -> (h: u64)
    requires
        world.stats@.len() == 4,
    ensures
        h == fnv1a_spec(world_bytes(*world)),
{
    let mut d = Digest::new();
    d.u64(world.seed);
    d.u32(world.round);
    #[verifier::truncate]
    let ti = world.turn_index as u32;
    d.u32(ti);
    write_outcome(&mut d, world.outcome);
    let ghost head = d.bytes();
    let ghost ft = |t: Tile| tile_bytes(t);
    let mut i: usize = 0;
    while i < world.tiles.len()
        invariant
            d.wf(),
            i <= world.tiles@.len(),
            ft == (|t: Tile| tile_bytes(t)),
            d.bytes() == head + concat_map(world.tiles@.take(i as int), ft),
        decreases world.tiles@.len() - i,
    {
        proof {
            lemma_concat_map_take(world.tiles@, ft, i as int);
        }
        write_tile(&mut d, &world.tiles[i]);
        proof {
            assert(d.bytes() =~= head + concat_map(world.tiles@.take(i + 1), ft));
        }
        i = i + 1;
    }
    proof {
        assert(world.tiles@.take(i as int) =~= world.tiles@);
    }
    let ghost head2 = d.bytes();
    let ghost fu = |u: Unit| unit_bytes(u);
    let mut i: usize = 0;
    while i < world.units.len()
        invariant
            d.wf(),
            i <= world.units@.len(),
            fu == (|u: Unit| unit_bytes(u)),
            d.bytes() == head2 + concat_map(world.units@.take(i as int), fu),
        decreases world.units@.len() - i,
    {
        proof {
            lemma_concat_map_take(world.units@, fu, i as int);
        }
        write_unit(&mut d, &world.units[i]);
        proof {
            assert(d.bytes() =~= head2 + concat_map(world.units@.take(i + 1), fu));
        }
        i = i + 1;
    }
    proof {
        assert(world.units@.take(i as int) =~= world.units@);
    }
    let ghost head3 = d.bytes();
    let ghost fr = |t: Territory| territory_bytes(t);
    let mut i: usize = 0;
    while i < world.territories.len()
        invariant
            d.wf(),
            i <= world.territories@.len(),
            fr == (|t: Territory| territory_bytes(t)),
            d.bytes() == head3 + concat_map(world.territories@.take(i as int), fr),
        decreases world.territories@.len() - i,
    {
        proof {
            lemma_concat_map_take(world.territories@, fr, i as int);
        }
        write_territory(&mut d, &world.territories[i]);
        proof {
            assert(d.bytes() =~= head3 + concat_map(world.territories@.take(i + 1), fr));
        }
        i = i + 1;
    }
    proof {
        assert(world.territories@.take(i as int) =~= world.territories@);
    }
    let ghost head4 = d.bytes();
    let ghost fp = |p: Player| player_bytes(p);
    let mut i: usize = 0;
    while i < world.players.len()
        invariant
            d.wf(),
            i <= world.players@.len(),
            fp == (|p: Player| player_bytes(p)),
            d.bytes() == head4 + concat_map(world.players@.take(i as int), fp),
        decreases world.players@.len() - i,
    {
        proof {
            lemma_concat_map_take(world.players@, fp, i as int);
        }
        let p = &world.players[i];
        let ghost before = d.bytes();
        d.u32(p.faction.ordinal());
        d.byte(if p.eliminated { 1 } else { 0 });
        proof {
            assert(d.bytes() =~= before + player_bytes(*p));
            assert(d.bytes() =~= head4 + concat_map(world.players@.take(i + 1), fp));
        }
        i = i + 1;
    }
    proof {
        assert(world.players@.take(i as int) =~= world.players@);
    }
    let ghost head5 = d.bytes();
    let mut k: usize = 0;
    while k < 4
        invariant
            d.wf(),
            k <= 4,
            world.stats@.len() == 4,
            d.bytes() == head5 + all_stats_bytes(world.stats@, k as int),
        decreases 4 - k,
    {
        match &world.stats[k] {
            Some(s) => {
                write_stats(&mut d, k as u32, s);
            },
            None => {},
        }
        proof {
            assert(d.bytes() =~= head5 + all_stats_bytes(world.stats@, k + 1));
        }
        k = k + 1;
    }
    proof {
        assert(d.bytes() =~= world_bytes(*world));
    }
    d.finish()
}

} // verus!
