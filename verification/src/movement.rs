//! Where a unit may go this turn.
//!
//! A unit walks freely through its own faction's tiles, up to a step budget,
//! without passing through other units; from any tile it could stop on it
//! may then take one step into foreign ground, if it is allowed to enter it.

use crate::command::Rejection;
use crate::ids::{TileId, UnitId};
use crate::rules::{contains_tile_kind, contains_unit_kind, spec_profile, Ruleset};
use crate::state::{find_unit, Terrain, Unit, World};
use crate::tileset::strictly_increasing;
use crate::topology::{hops, lemma_hops_is};
use vstd::prelude::*;

verus! {

/// The capture part of entering: a foreign tile must be one the mover may
/// capture.
pub open spec fn capture_check(w: World, r: Ruleset, u: Unit, target: TileId) -> Result<(), Rejection> {
    let tile = w.tiles@[target.0 as int];
    if tile.owner == Some(u.faction) {
        Ok(())
    } else if !spec_profile(r, u.kind).captures@.contains(tile.kind) {
        Err(Rejection::CannotCaptureTile { mover: u.kind, target: tile.kind })
    } else {
        Ok(())
    }
}

/// Whether a unit may enter a tile, ignoring distance. A tile naming a unit
/// the world does not hold counts as occupied.
pub open spec fn enter_spec(w: World, r: Ruleset, uid: UnitId, target: TileId) -> Result<(), Rejection> {
    match find_unit(w.units@, uid) {
        None => Err(Rejection::NoSuchUnit(uid)),
        Some(u) => {
            let tile = w.tiles@[target.0 as int];
            if tile.terrain != Terrain::Land {
                Err(Rejection::NotLand(target))
            } else {
                match tile.unit {
                    Some(oid) => match find_unit(w.units@, oid) {
                        None => Err(Rejection::TileOccupied(target)),
                        Some(o) => if o.faction == u.faction {
                            Err(Rejection::BlockedByAlly(target))
                        } else if !spec_profile(r, u.kind).defeats@.contains(o.kind) {
                            Err(Rejection::CannotDefeatUnit { mover: u.kind, target: o.kind })
                        } else {
                            capture_check(w, r, u, target)
                        },
                    },
                    None => capture_check(w, r, u, target),
                }
            }
        },
    }
}

/// Tiles a unit may walk through: its faction's land, free of other units.
pub open spec fn pass_mask(w: World, u: Unit) -> Seq<bool> {
    Seq::new(
        w.tiles@.len(),
        |t: int|
            w.tiles@[t].terrain == Terrain::Land && w.tiles@[t].owner == Some(u.faction) && (w.tiles@[t].unit is None
                || t == u.tile.0),
    )
}

/// Tiles within the unit's own-ground step budget.
pub open spec fn interior(w: World, r: Ruleset, u: Unit, y: int) -> bool {
    match hops(w.topology.adj(), pass_mask(w, u), u.tile.0 as int)[y] {
        Some(d) => d <= r.units.own_territory_steps,
        None => false,
    }
}

/// Whether the unit `uid` may move to tile `x` this turn.
pub open spec fn reach_ok(w: World, r: Ruleset, uid: UnitId, x: int) -> bool {
    match find_unit(w.units@, uid) {
        None => false,
        Some(u) => !u.moved && (
            (interior(w, r, u, x) && x != u.tile.0 && w.tiles@[x].unit is None)
            || (r.units.foreign_steps >= 1 && w.tiles@[x].owner != Some(u.faction)
                && enter_spec(w, r, uid, TileId(x as u32)) is Ok
                && exists|y: int| 0 <= y < w.tiles@.len() && interior(w, r, u, y) && #[trigger] w.topology.adj()[y].contains(TileId(x as u32)))
        ),
    }
}

/// Whether a unit may enter a tile, ignoring distance.
pub fn can_enter(world: &World, rules: &Ruleset, unit_id: UnitId, target: TileId) -> (res: Result<(), Rejection>)
    requires
        world.wf(),
        rules.has_all_profiles(),
        target.0 < world.tiles@.len(),
    ensures
        res == enter_spec(*world, *rules, unit_id, target),
{
    let unit = match world.unit(unit_id) {
        Some(u) => u,
        None => return Err(Rejection::NoSuchUnit(unit_id)),
    };
    let tile = world.tile(target);
    if !tile.is_land() {
        return Err(Rejection::NotLand(target));
    }
    match tile.unit {
        Some(other_id) => match world.unit(other_id) {
            None => {
                return Err(Rejection::TileOccupied(target));
            },
            Some(other) => {
                if other.faction == unit.faction {
                    return Err(Rejection::BlockedByAlly(target));
                }
                if !contains_unit_kind(&rules.unit(unit.kind).defeats, other.kind) {
                    return Err(Rejection::CannotDefeatUnit { mover: unit.kind, target: other.kind });
                }
            },
        },
        None => {},
    }
    if tile.owner == Some(unit.faction) {
        return Ok(());
    }
    if !contains_tile_kind(&rules.unit(unit.kind).captures, tile.kind) {
        return Err(Rejection::CannotCaptureTile { mover: unit.kind, target: tile.kind });
    }
    Ok(())
}

/// Every tile a unit can move to this turn, ascending. Empty for an unknown
/// unit or one that has already acted.
#[verifier::rlimit(40)]
pub fn reachable(world: &World, rules: &Ruleset, unit_id: UnitId) -> (out: Vec<TileId>)
    requires
        world.wf(),
        rules.has_all_profiles(),
    ensures
        strictly_increasing(out@),
        forall|i: int| 0 <= i < out@.len() ==> (#[trigger] out@[i]).0 < world.tiles@.len(),
        forall|x: TileId| #[trigger] out@.contains(x) <==> (x.0 < world.tiles@.len() && reach_ok(*world, *rules, unit_id, x.0 as int)),
        forall|x: TileId| #[trigger] out@.contains(x) ==> enter_spec(*world, *rules, unit_id, x) is Ok,
{
    let n = world.tiles.len();
    let unit = match world.unit(unit_id) {
        Some(u) => *u,
        None => {
            let out: Vec<TileId> = Vec::new();
            return out;
        },
    };
    if unit.moved {
        let out: Vec<TileId> = Vec::new();
        return out;
    }
    proof {
        crate::state::lemma_unit_pos_from(world.units@, unit_id, 0);
        use_type_invariant(&*world.topology);
    }
    let ghost adj = world.topology.adj();
    let faction = unit.faction;
    let origin = unit.tile;
    let mut pass: Vec<bool> = Vec::new();
    let mut i: usize = 0;
    while i < n
        invariant
            n == world.tiles@.len(),
            i <= n,
            pass@.len() == i,
            origin == unit.tile,
            faction == unit.faction,
            forall|t: int| 0 <= t < i ==> #[trigger] pass@[t] == pass_mask(*world, unit)[t],
        decreases n - i,
    {
        let t = &world.tiles[i];
        pass.push(t.is_land() && t.owner == Some(faction) && (t.unit.is_none() || i == origin.index()));
        i = i + 1;
    }
    proof {
        assert(pass@ =~= pass_mask(*world, unit));
    }
    let dist = world.topology.distances_through(origin, &pass);
    proof {
        lemma_hops_is(adj, pass@, origin.0 as int, dist@);
    }
    let budget = rules.units.own_territory_steps;
    let mut inside: Vec<bool> = Vec::new();
    let mut mark: Vec<bool> = Vec::new();
    let mut i: usize = 0;
    while i < n
        invariant
            n == world.tiles@.len(),
            dist@.len() == n,
            dist@ == hops(adj, pass_mask(*world, unit), origin.0 as int),
            adj == world.topology.adj(),
            find_unit(world.units@, unit_id) == Some(unit),
            origin == unit.tile,
            budget == rules.units.own_territory_steps,
            i <= n,
            inside@.len() == i,
            mark@.len() == i,
            forall|t: int| 0 <= t < i ==> #[trigger] inside@[t] == interior(*world, *rules, unit, t),
            forall|t: int| 0 <= t < i ==> #[trigger] mark@[t] == (interior(*world, *rules, unit, t) && t != origin.0 && world.tiles@[t].unit is None),
        decreases n - i,
    {
        let within = match dist[i] {
            Some(d) => d <= budget,
            None => false,
        };
        inside.push(within);
        mark.push(within && i != origin.index() && world.tiles[i].unit.is_none());
        i = i + 1;
    }
    let ghost first = mark@;
    if rules.units.foreign_steps >= 1 {
        let mut y: usize = 0;
        while y < n
            invariant
                n == world.tiles@.len(),
                n == adj.len(),
                adj == world.topology.adj(),
                crate::topology::valid_adjacency(adj),
                world.wf(),
                rules.has_all_profiles(),
                rules.units.foreign_steps >= 1,
                find_unit(world.units@, unit_id) == Some(unit),
                faction == unit.faction,
                inside@.len() == n,
                forall|t: int| 0 <= t < n ==> #[trigger] inside@[t] == interior(*world, *rules, unit, t),
                first.len() == n,
                mark@.len() == n,
                y <= n,
                forall|x: int| 0 <= x < n ==> (#[trigger] mark@[x] == (first[x] || (world.tiles@[x].owner != Some(faction)
                    && enter_spec(*world, *rules, unit_id, TileId(x as u32)) is Ok
                    && exists|z: int| 0 <= z < y && interior(*world, *rules, unit, z) && #[trigger] adj[z].contains(TileId(x as u32))))),
            decreases n - y,
        {
            let ghost before = mark@;
            if inside[y] {
                let ns = world.topology.neighbors(TileId(y as u32));
                let mut k: usize = 0;
                while k < ns.len()
                    invariant
                        n == world.tiles@.len(),
                        n == adj.len(),
                        adj == world.topology.adj(),
                        crate::topology::valid_adjacency(adj),
                        world.wf(),
                        rules.has_all_profiles(),
                        find_unit(world.units@, unit_id) == Some(unit),
                        faction == unit.faction,
                        y < n,
                        interior(*world, *rules, unit, y as int),
                        ns@ == adj[y as int],
                        first.len() == n,
                        before.len() == n,
                        mark@.len() == n,
                        k <= ns@.len(),
                        forall|x: int| 0 <= x < n ==> (#[trigger] mark@[x] == (before[x] || (world.tiles@[x].owner != Some(faction)
                            && enter_spec(*world, *rules, unit_id, TileId(x as u32)) is Ok
                            && ns@.take(k as int).contains(TileId(x as u32))))),
                    decreases ns@.len() - k,
                {
                    let nb = ns[k];
                    proof {
                        assert(adj[y as int].contains(nb));
                        assert(!crate::topology::pair_fault(adj, y as int, nb));
                    }
                    let ghost prev = mark@;
                    if world.tiles[nb.index()].owner != Some(faction) && can_enter(world, rules, unit_id, nb).is_ok() {
                        mark.set(nb.index(), true);
                    }
                    proof {
                        assert forall|x: int| 0 <= x < n implies (#[trigger] mark@[x] == (before[x] || (world.tiles@[x].owner != Some(faction)
                            && enter_spec(*world, *rules, unit_id, TileId(x as u32)) is Ok
                            && ns@.take(k + 1).contains(TileId(x as u32))))) by {
                            let s1 = ns@.take(k + 1);
                            let s0 = ns@.take(k as int);
                            if s1.contains(TileId(x as u32)) {
                                let a = choose|a: int| 0 <= a < s1.len() && s1[a] == TileId(x as u32);
                                if a < k {
                                    assert(s0[a] == TileId(x as u32));
                                } else {
                                    assert(TileId(x as u32) == nb);
                                }
                            }
                            if s0.contains(TileId(x as u32)) {
                                let a = choose|a: int| 0 <= a < s0.len() && s0[a] == TileId(x as u32);
                                assert(s1[a] == TileId(x as u32));
                            }
                            if x == nb.0 {
                                assert(s1[k as int] == nb);
                                assert(TileId(x as u32) == nb);
                            } else {
                                assert(mark@[x] == prev[x]);
                            }
                        }
                    }
                    k = k + 1;
                }
                proof {
                    assert(ns@.take(k as int) =~= ns@);
                    assert forall|x: int| 0 <= x < n implies (#[trigger] mark@[x] == (first[x] || (world.tiles@[x].owner != Some(faction)
                        && enter_spec(*world, *rules, unit_id, TileId(x as u32)) is Ok
                        && exists|z: int| 0 <= z < y + 1 && interior(*world, *rules, unit, z) && #[trigger] adj[z].contains(TileId(x as u32))))) by {
                        if exists|z: int| 0 <= z < y + 1 && interior(*world, *rules, unit, z) && #[trigger] adj[z].contains(TileId(x as u32)) {
                            let z = choose|z: int| 0 <= z < y + 1 && interior(*world, *rules, unit, z) && #[trigger] adj[z].contains(TileId(x as u32));
                            if z == y {
                                assert(ns@.contains(TileId(x as u32)));
                            }
                        }
                        if ns@.contains(TileId(x as u32)) {
                            assert(adj[y as int].contains(TileId(x as u32)));
                        }
                    }
                }
            } else {
                proof {
                    assert forall|x: int| 0 <= x < n implies (#[trigger] mark@[x] == (first[x] || (world.tiles@[x].owner != Some(faction)
                        && enter_spec(*world, *rules, unit_id, TileId(x as u32)) is Ok
                        && exists|z: int| 0 <= z < y + 1 && interior(*world, *rules, unit, z) && #[trigger] adj[z].contains(TileId(x as u32))))) by {
                        if exists|z: int| 0 <= z < y + 1 && interior(*world, *rules, unit, z) && #[trigger] adj[z].contains(TileId(x as u32)) {
                            let z = choose|z: int| 0 <= z < y + 1 && interior(*world, *rules, unit, z) && #[trigger] adj[z].contains(TileId(x as u32));
                            assert(z != y);
                        }
                    }
                }
            }
            y = y + 1;
        }
    }
    proof {
        assert forall|x: int| 0 <= x < n && #[trigger] first[x] implies enter_spec(*world, *rules, unit_id, TileId(x as u32)) is Ok by {
            let d = dist@[x]->0;
            assert(crate::topology::exact_hops(adj, pass_mask(*world, unit), origin.0 as int, x, d as nat));
            crate::topology::lemma_reached_passable(adj, pass_mask(*world, unit), origin.0 as int, x, d as nat);
            assert(TileId(x as u32).0 == x);
        }
        assert forall|x: int| 0 <= x < n implies (#[trigger] mark@[x] == reach_ok(*world, *rules, unit_id, x)) by {
            if rules.units.foreign_steps >= 1 {
                assert(mark@[x] == (first[x] || (world.tiles@[x].owner != Some(faction)
                    && enter_spec(*world, *rules, unit_id, TileId(x as u32)) is Ok
                    && exists|z: int| 0 <= z < n && interior(*world, *rules, unit, z) && #[trigger] adj[z].contains(TileId(x as u32)))));
            }
        }
    }
    collect_marked(&mark)
}

/// The positions of a mask that are set, as ascending tile ids.
pub fn collect_marked(mark: &Vec<bool>) -> (out: Vec<TileId>)
    requires
        mark@.len() <= u32::MAX,
    ensures
        strictly_increasing(out@),
        forall|i: int| 0 <= i < out@.len() ==> (#[trigger] out@[i]).0 < mark@.len(),
        forall|x: TileId| #[trigger] out@.contains(x) <==> (x.0 < mark@.len() && mark@[x.0 as int]),
{
    let n = mark.len();
    let mut out: Vec<TileId> = Vec::new();
    let mut i: usize = 0;
    while i < n
        invariant
            n == mark@.len(),
            n <= u32::MAX,
            i <= n,
            strictly_increasing(out@),
            forall|k: int| 0 <= k < out@.len() ==> (#[trigger] out@[k]).0 < i,
            forall|x: TileId| #[trigger] out@.contains(x) <==> (x.0 < i && mark@[x.0 as int]),
        decreases n - i,
    {
        let ghost before = out@;
        if mark[i] {
            out.push(TileId(i as u32));
            proof {
                assert forall|x: TileId| #[trigger] out@.contains(x) <==> (x.0 < i + 1 && mark@[x.0 as int]) by {
                    if out@.contains(x) {
                        let k = choose|k: int| 0 <= k < out@.len() && out@[k] == x;
                        if k < before.len() {
                            assert(before.contains(x));
                        }
                    }
                    if x.0 < i + 1 && mark@[x.0 as int] {
                        if x.0 < i {
                            assert(before.contains(x));
                            let k = choose|k: int| 0 <= k < before.len() && before[k] == x;
                            assert(out@[k] == x);
                        } else {
                            assert(out@[out@.len() - 1] == x);
                        }
                    }
                }
            }
        } else {
            proof {
                assert forall|x: TileId| #[trigger] out@.contains(x) <==> (x.0 < i + 1 && mark@[x.0 as int]) by {
                    if out@.contains(x) {
                        let k = choose|k: int| 0 <= k < out@.len() && out@[k] == x;
                        assert(out@[k].0 < i);
                    }
                }
            }
        }
        i = i + 1;
    }
    out
}

/// Whether a unit has anywhere to go this turn.
pub fn has_available_move(world: &World, rules: &Ruleset, unit_id: UnitId) -> (b: bool)
    requires
        world.wf(),
        rules.has_all_profiles(),
    ensures
        b == exists|x: int| 0 <= x < world.tiles@.len() && #[trigger] reach_ok(*world, *rules, unit_id, x),
{
    let out = reachable(world, rules, unit_id);
    proof {
        if exists|x: int| 0 <= x < world.tiles@.len() && #[trigger] reach_ok(*world, *rules, unit_id, x) {
            let x = choose|x: int| 0 <= x < world.tiles@.len() && #[trigger] reach_ok(*world, *rules, unit_id, x);
            assert(out@.contains(TileId(x as u32)));
        }
        if out@.len() > 0 {
            assert(out@.contains(out@[0]));
        }
    }
    out.len() > 0
}

} // verus!
