//! Soundness: everything that must hold of a world between
//! commands, reported as a list of violations.

use crate::ids::{Faction, TerritoryId, TileId, UnitId};
use crate::rules::TileKind;
use crate::state::{find_territory, find_unit, of_kind, Terrain, Territory, Tile, World};
use crate::tileset::{contains_tile, strictly_increasing};
use crate::topology::{all_connected, lemma_one_component, lists_view};
use vstd::prelude::*;

verus! {

#[derive(Debug, Clone, Copy, PartialEq, Eq, Structural)]
pub enum Violation {
    OwnedTileWithoutTerritory { tile: TileId, owner: Faction },
    DanglingTerritoryRef { tile: TileId, territory: TerritoryId },
    OwnerMismatch { tile: TileId, tile_owner: Option<Faction>, territory_owner: Faction },
    TerritoryTileMismatch { territory: TerritoryId, tile: TileId },
    TerritoryNotConnected { territory: TerritoryId, pieces: usize },
    CapitalOutsideTerritory { territory: TerritoryId, capital: TileId },
    CapitalTileWrongKind { territory: TerritoryId, capital: TileId, found: TileKind },
    MultipleCapitals { territory: TerritoryId, count: usize },
    OrphanCapital { tile: TileId },
    OverlappingTerritories { tile: TileId, a: TerritoryId, b: TerritoryId },
    NegativeTreasury { territory: TerritoryId, wheat: i32, gold: i32 },
    UnitTileMismatch { unit: UnitId, tile: TileId },
    DanglingUnitRef { tile: TileId, unit: UnitId },
    UnitOnWater { unit: UnitId, tile: TileId },
    WaterTileNotNeutral { tile: TileId },
}

/// Water is neutral; owned land belongs to a territory of its owner that
/// lists it; unowned land outside any territory holds no capital.
pub open spec fn tile_sound(w: World, i: int) -> bool {
    let tile = w.tiles@[i];
    if tile.terrain != Terrain::Land {
        tile.owner is None && tile.territory is None && tile.unit is None && tile.kind == TileKind::Empty
    } else {
        match tile.territory {
            Some(id) => match find_territory(w.territories@, id) {
                Some(t) => tile.owner == Some(t.faction) && t.tiles@.contains(TileId(i as u32)),
                None => false,
            },
            None => tile.owner is None && tile.kind != TileKind::Capital,
        }
    }
}

/// A territory's treasury is not negative, its tiles point back at it, it is
/// connected, its capital is one of its tiles and the only capital among
/// them.
pub open spec fn territory_sound(w: World, t: Territory) -> bool {
    &&& t.wheat >= 0 && t.gold >= 0
    &&& forall|k: int| 0 <= k < t.tiles@.len() ==> w.tiles@[(#[trigger] t.tiles@[k]).0 as int].territory == Some(t.id)
    &&& all_connected(w.topology.adj(), t.tiles@)
    &&& t.tiles@.contains(t.capital)
    &&& w.tiles@[t.capital.0 as int].kind == TileKind::Capital
    &&& of_kind(w.tiles@, t.tiles@, TileKind::Capital).len() <= 1
}

/// No tile belongs to two territories.
pub open spec fn disjoint(ts: Seq<Territory>) -> bool {
    forall|a: int, b: int, x: TileId| 0 <= a < b < ts.len() && #[trigger] ts[a].tiles@.contains(x) ==> !#[trigger] ts[b].tiles@.contains(x)
}

/// Each unit stands on land that names it; each unit a tile names exists.
pub open spec fn units_sound(w: World) -> bool {
    &&& forall|i: int| 0 <= i < w.units@.len() ==> {
        let u = #[trigger] w.units@[i];
        &&& w.tiles@[u.tile.0 as int].unit == Some(u.id)
        &&& w.tiles@[u.tile.0 as int].terrain == Terrain::Land
    }
    &&& forall|t: int| 0 <= t < w.tiles@.len() ==> match #[trigger] w.tiles@[t].unit {
        Some(uid) => find_unit(w.units@, uid) is Some,
        None => true,
    }
}

/// Everything that soundness asks of a world.
pub open spec fn sound(w: World) -> bool {
    &&& forall|i: int| 0 <= i < w.tiles@.len() ==> #[trigger] tile_sound(w, i)
    &&& forall|i: int| 0 <= i < w.territories@.len() ==> #[trigger] territory_sound(w, w.territories@[i])
    &&& disjoint(w.territories@)
    &&& units_sound(w)
}

fn check_tiles(world: &World, out: &mut Vec<Violation>)
    requires
        old(out)@.len() == 0,
        world.tiles@.len() <= u32::MAX,
    ensures
        final(out)@.len() == 0 <==> forall|i: int| 0 <= i < world.tiles@.len() ==> #[trigger] tile_sound(*world, i),
{
    let n = world.tiles.len();
    let mut i: usize = 0;
    while i < n
        invariant
            n == world.tiles@.len(),
            n <= u32::MAX,
            i <= n,
            out@.len() == 0 <==> forall|j: int| 0 <= j < i ==> #[trigger] tile_sound(*world, j),
        decreases n - i,
    {
        let id = TileId(i as u32);
        let tile = world.tiles[i];
        let before = out.len();
        if !tile.is_land() {
            if tile.owner.is_some() || tile.territory.is_some() || tile.unit.is_some() || tile.kind != TileKind::Empty {
                out.push(Violation::WaterTileNotNeutral { tile: id });
            }
        } else {
            match (tile.owner, tile.territory) {
                (Some(owner), None) => {
                    out.push(Violation::OwnedTileWithoutTerritory { tile: id, owner });
                },
                (_, Some(territory)) => match world.territory(territory) {
                    None => out.push(Violation::DanglingTerritoryRef { tile: id, territory }),
                    Some(t) => {
                        if tile.owner != Some(t.faction) {
                            out.push(Violation::OwnerMismatch { tile: id, tile_owner: tile.owner, territory_owner: t.faction });
                        }
                        if !contains_tile(&t.tiles, id) {
                            out.push(Violation::TerritoryTileMismatch { territory, tile: id });
                        }
                    },
                },
                (None, None) => {
                    if tile.kind == TileKind::Capital {
                        out.push(Violation::OrphanCapital { tile: id });
                    }
                },
            }
        }
        proof {
            assert((out@.len() == before) <==> tile_sound(*world, i as int));
            if out@.len() == 0 {
                assert forall|j: int| 0 <= j < i + 1 implies #[trigger] tile_sound(*world, j) by {}
            }
        }
        i = i + 1;
    }
}

/// The tiles of `t` of kind `Capital`, counted.
fn capitals_in(world: &World, t: &Territory) -> (n: usize)
    requires
        forall|k: int| 0 <= k < t.tiles@.len() ==> (#[trigger] t.tiles@[k]).0 < world.tiles@.len(),
    ensures
        n == of_kind(world.tiles@, t.tiles@, TileKind::Capital).len(),
{
    let mut n: usize = 0;
    let mut i: usize = 0;
    while i < t.tiles.len()
        invariant
            i <= t.tiles@.len(),
            n <= i,
            forall|k: int| 0 <= k < t.tiles@.len() ==> (#[trigger] t.tiles@[k]).0 < world.tiles@.len(),
            n == of_kind(world.tiles@, t.tiles@.take(i as int), TileKind::Capital).len(),
        decreases t.tiles@.len() - i,
    {
        proof {
            crate::tileset::lemma_filter_take(t.tiles@, |x: TileId| 0 <= x.0 < world.tiles@.len() && world.tiles@[x.0 as int].kind == TileKind::Capital, i as int);
        }
        if world.tiles[t.tiles[i].index()].kind == TileKind::Capital {
            n = n + 1;
        }
        i = i + 1;
    }
    proof {
        crate::tileset::lemma_take_all(t.tiles@);
    }
    n
}

/// Whether every tile of `t` points back at it.
fn refs_back(world: &World, t: &Territory) -> (b: bool)
    requires
        forall|k: int| 0 <= k < t.tiles@.len() ==> (#[trigger] t.tiles@[k]).0 < world.tiles@.len(),
    ensures
        b == forall|q: int| 0 <= q < t.tiles@.len() ==> world.tiles@[(#[trigger] t.tiles@[q]).0 as int].territory == Some(t.id),
{
    let mut k: usize = 0;
    while k < t.tiles.len()
        invariant
            k <= t.tiles@.len(),
            forall|q: int| 0 <= q < t.tiles@.len() ==> (#[trigger] t.tiles@[q]).0 < world.tiles@.len(),
            forall|q: int| 0 <= q < k ==> world.tiles@[(#[trigger] t.tiles@[q]).0 as int].territory == Some(t.id),
        decreases t.tiles@.len() - k,
    {
        if world.tiles[t.tiles[k].index()].territory != Some(t.id) {
            return false;
        }
        k = k + 1;
    }
    true
}

/// The number of connected pieces of a tile set; at most one exactly when
/// it is connected.
fn pieces_of(world: &World, tiles: &Vec<TileId>) -> (n: usize)
    requires
        world.tiles@.len() == world.topology.count(),
        strictly_increasing(tiles@),
        forall|k: int| 0 <= k < tiles@.len() ==> (#[trigger] tiles@[k]).0 < world.tiles@.len(),
    ensures
        n <= 1 <==> all_connected(world.topology.adj(), tiles@),
{
    proof {
        use_type_invariant(&*world.topology);
    }
    let pieces = world.topology.components(tiles);
    proof {
        lemma_one_component(world.topology.adj(), tiles@, lists_view(pieces@));
    }
    pieces.len()
}

/// Check one territory, all but overlaps.
fn check_territory(world: &World, t: &Territory, out: &mut Vec<Violation>)
    requires
        world.tiles@.len() == world.topology.count(),
        strictly_increasing(t.tiles@),
        forall|k: int| 0 <= k < t.tiles@.len() ==> (#[trigger] t.tiles@[k]).0 < world.tiles@.len(),
        t.capital.0 < world.tiles@.len(),
    ensures
        final(out)@.len() == old(out)@.len() <==> territory_sound(*world, *t),
        final(out)@.len() >= old(out)@.len(),
        final(out)@.subrange(0, old(out)@.len() as int) == old(out)@,
        t.wheat < 0 || t.gold < 0 ==> final(out)@.len() > old(out)@.len()
            && final(out)@[old(out)@.len() as int] == (Violation::NegativeTreasury { territory: t.id, wheat: t.wheat, gold: t.gold }),
{
    let start = out.len();
    let ghost out0 = out@;
    let id = t.id;
    let mut ok = true;
    if t.wheat < 0 || t.gold < 0 {
        out.push(Violation::NegativeTreasury { territory: id, wheat: t.wheat, gold: t.gold });
        ok = false;
    }
    if !refs_back(world, t) {
        let mut k: usize = 0;
        while k < t.tiles.len()
            invariant
                k <= t.tiles@.len(),
                !ok ==> out@.len() > start,
                out@.len() >= start,
                start == out0.len(),
                out@.subrange(0, start as int) == out0,
                t.wheat < 0 || t.gold < 0 ==> out@.len() > start
                    && out@[start as int] == (Violation::NegativeTreasury { territory: t.id, wheat: t.wheat, gold: t.gold }),
                forall|q: int| 0 <= q < t.tiles@.len() ==> (#[trigger] t.tiles@[q]).0 < world.tiles@.len(),
                forall|q: int| 0 <= q < k ==> world.tiles@[(#[trigger] t.tiles@[q]).0 as int].territory == Some(id) || out@.len() > start,
            decreases t.tiles@.len() - k,
        {
            let x = t.tiles[k];
            if world.tiles[x.index()].territory != Some(id) {
                out.push(Violation::TerritoryTileMismatch { territory: id, tile: x });
            }
            k = k + 1;
        }
        ok = false;
    }
    let pieces = pieces_of(world, &t.tiles);
    if pieces > 1 {
        out.push(Violation::TerritoryNotConnected { territory: id, pieces });
        ok = false;
    }
    if !contains_tile(&t.tiles, t.capital) {
        out.push(Violation::CapitalOutsideTerritory { territory: id, capital: t.capital });
        ok = false;
    } else {
        let kind = world.tiles[t.capital.index()].kind;
        if kind != TileKind::Capital {
            out.push(Violation::CapitalTileWrongKind { territory: id, capital: t.capital, found: kind });
            ok = false;
        }
    }
    let capitals = capitals_in(world, t);
    if capitals > 1 {
        out.push(Violation::MultipleCapitals { territory: id, count: capitals });
        ok = false;
    }
    proof {
        assert(ok == territory_sound(*world, *t));
        if !ok {
            assert(out@.len() > start);
        }
    }
}

/// What is reported of a territory in debt.
pub open spec fn negative_treasury(t: Territory) -> Violation {
    Violation::NegativeTreasury { territory: t.id, wheat: t.wheat, gold: t.gold }
}

/// Whatever was in `a` is still in `b` when `a` is a prefix of `b`.
proof fn lemma_prefix_contains(a: Seq<Violation>, b: Seq<Violation>, v: Violation)
    requires
        a.len() <= b.len(),
        b.subrange(0, a.len() as int) == a,
        a.contains(v),
    ensures
        b.contains(v),
{
    let k = choose|k: int| 0 <= k < a.len() && a[k] == v;
    assert(b.subrange(0, a.len() as int)[k] == b[k]);
}

fn check_territories(world: &World, out: &mut Vec<Violation>)
    requires
        world.wf(),
    ensures
        final(out)@.len() >= old(out)@.len(),
        final(out)@.len() == old(out)@.len() <==> (
            (forall|i: int| 0 <= i < world.territories@.len() ==> #[trigger] territory_sound(*world, world.territories@[i]))
            && disjoint(world.territories@)),
        final(out)@.subrange(0, old(out)@.len() as int) == old(out)@,
        forall|i: int| 0 <= i < world.territories@.len() && ((#[trigger] world.territories@[i]).wheat < 0 || world.territories@[i].gold < 0)
            ==> final(out)@.contains(negative_treasury(world.territories@[i])),
{
    let n = world.tiles.len();
    let start = out.len();
    let ghost out0 = out@;
    let mut claimed: Vec<Option<TerritoryId>> = Vec::new();
    let mut z: usize = 0;
    while z < n
        invariant
            z <= n,
            claimed@.len() == z,
            forall|q: int| 0 <= q < z ==> (#[trigger] claimed@[q]) is None,
        decreases n - z,
    {
        claimed.push(None);
        z = z + 1;
    }
    let ghost ts = world.territories@;
    let mut j: usize = 0;
    let mut ok = true;
    while j < world.territories.len()
        invariant
            world.wf(),
            ts == world.territories@,
            n == world.tiles@.len(),
            claimed@.len() == n,
            j <= ts.len(),
            forall|i: int| 0 <= i < j && ((#[trigger] ts[i]).wheat < 0 || ts[i].gold < 0) ==> out@.contains(negative_treasury(ts[i])),
            out@.len() >= start,
            start == out0.len(),
            out@.subrange(0, start as int) == out0,
            ok ==> out@.len() == start,
            !ok ==> out@.len() > start,
            ok == ((forall|i: int| 0 <= i < j ==> #[trigger] territory_sound(*world, ts[i]))
                && forall|a: int, b: int, x: TileId| 0 <= a < b < j && #[trigger] ts[a].tiles@.contains(x) ==> !#[trigger] ts[b].tiles@.contains(x)),
            forall|x: int| 0 <= x < n ==> ((#[trigger] claimed@[x]) is Some <==> exists|a: int| 0 <= a < j && #[trigger] ts[a].tiles@.contains(TileId(x as u32))),
        decreases ts.len() - j,
    {
        let t = &world.territories[j];
        let id = t.id;
        let mut k: usize = 0;
        let mut apart = true;
        let ghost claimed0 = claimed@;
        while k < t.tiles.len()
            invariant
                world.wf(),
                ts == world.territories@,
                *t == ts[j as int],
                j < ts.len(),
                n == world.tiles@.len(),
                n <= u32::MAX,
                claimed@.len() == n,
                claimed0.len() == n,
                k <= t.tiles@.len(),
                strictly_increasing(t.tiles@),
                forall|q: int| 0 <= q < t.tiles@.len() ==> (#[trigger] t.tiles@[q]).0 < n,
                out@.len() >= start,
                start == out0.len(),
                out@.subrange(0, start as int) == out0,
                !ok ==> out@.len() > start,
                !apart ==> out@.len() > start,
                ok && apart ==> out@.len() == start,
                apart == forall|q: int| 0 <= q < k ==> (#[trigger] claimed0[t.tiles@[q].0 as int]) is None,
                forall|i: int| 0 <= i < j && ((#[trigger] ts[i]).wheat < 0 || ts[i].gold < 0) ==> out@.contains(negative_treasury(ts[i])),
                forall|x: int| 0 <= x < n ==> ((#[trigger] claimed@[x]) is Some <==> (claimed0[x] is Some || t.tiles@.take(k as int).contains(TileId(x as u32)))),
            decreases t.tiles@.len() - k,
        {
            let x = t.tiles[k];
            let prior = claimed[x.index()];
            proof {
                assert(!t.tiles@.take(k as int).contains(x)) by {
                    if t.tiles@.take(k as int).contains(x) {
                        let q = choose|q: int| 0 <= q < k && t.tiles@.take(k as int)[q] == x;
                        assert(t.tiles@[q].0 < t.tiles@[k as int].0);
                    }
                }
            }
            let ghost out_before = out@;
            match prior {
                Some(other) => {
                    out.push(Violation::OverlappingTerritories { tile: x, a: other, b: id });
                    apart = false;
                },
                None => {
                    claimed.set(x.index(), Some(id));
                },
            }
            proof {
                assert(out@.subrange(0, out_before.len() as int) =~= out_before);
                assert forall|i: int| 0 <= i < j && ((#[trigger] ts[i]).wheat < 0 || ts[i].gold < 0) implies out@.contains(negative_treasury(ts[i])) by {
                    lemma_prefix_contains(out_before, out@, negative_treasury(ts[i]));
                }
            }
            proof {
                assert forall|y: int| 0 <= y < n implies ((#[trigger] claimed@[y]) is Some <==> (claimed0[y] is Some || t.tiles@.take(k + 1).contains(TileId(y as u32)))) by {
                    let s1 = t.tiles@.take(k + 1);
                    let s0 = t.tiles@.take(k as int);
                    if s1.contains(TileId(y as u32)) {
                        let a = choose|a: int| 0 <= a < s1.len() && s1[a] == TileId(y as u32);
                        if a < k {
                            assert(s0[a] == TileId(y as u32));
                        } else {
                            assert(TileId(y as u32) == x);
                        }
                    }
                    if s0.contains(TileId(y as u32)) {
                        let a = choose|a: int| 0 <= a < s0.len() && s0[a] == TileId(y as u32);
                        assert(s1[a] == TileId(y as u32));
                    }
                    if y == x.0 {
                        assert(s1[k as int] == x);
                        assert(TileId(y as u32) == x);
                    }
                }
            }
            k = k + 1;
        }
        proof {
            assert(t.tiles@.take(k as int) =~= t.tiles@);
        }
        let before = out.len();
        let ghost out_before = out@;
        check_territory(world, t, out);
        let sound_here = out.len() == before;
        proof {
            assert forall|i: int| 0 <= i < j + 1 && ((#[trigger] ts[i]).wheat < 0 || ts[i].gold < 0) implies out@.contains(negative_treasury(ts[i])) by {
                if i < j {
                    lemma_prefix_contains(out_before, out@, negative_treasury(ts[i]));
                } else {
                    assert(out@[before as int] == negative_treasury(ts[i]));
                }
            }
        }
        proof {
            // disjointness of territory j from every earlier one
            assert(apart == forall|a: int, x: TileId| 0 <= a < j && #[trigger] ts[a].tiles@.contains(x) ==> !ts[j as int].tiles@.contains(x)) by {
                if apart {
                    assert forall|a: int, x: TileId| 0 <= a < j && #[trigger] ts[a].tiles@.contains(x) implies !ts[j as int].tiles@.contains(x) by {
                        if ts[j as int].tiles@.contains(x) {
                            let q = choose|q: int| 0 <= q < t.tiles@.len() && t.tiles@[q] == x;
                            assert(claimed0[t.tiles@[q].0 as int] is None);
                            assert(TileId(x.0 as u32) == x);
                            let aa = ts[a];
                            let kk = choose|kk: int| 0 <= kk < aa.tiles@.len() && aa.tiles@[kk] == x;
                            assert(aa.tiles@[kk].0 < n);
                        }
                    }
                } else {
                    let q = choose|q: int| 0 <= q < k && !(#[trigger] claimed0[t.tiles@[q].0 as int] is None);
                    let x = t.tiles@[q];
                    assert(TileId(x.0 as u32) == x);
                    let a = choose|a: int| 0 <= a < j && #[trigger] ts[a].tiles@.contains(TileId(x.0 as u32));
                    assert(ts[j as int].tiles@.contains(x));
                }
            }
        }
        if !sound_here || !apart {
            ok = false;
        }
        proof {
            assert(ok == ((forall|i: int| 0 <= i < j + 1 ==> #[trigger] territory_sound(*world, ts[i]))
                && forall|a: int, b: int, x: TileId| 0 <= a < b < j + 1 && #[trigger] ts[a].tiles@.contains(x) ==> !#[trigger] ts[b].tiles@.contains(x))) by {
                if !apart {
                    let q = choose|q: int| 0 <= q < k && !(#[trigger] claimed0[t.tiles@[q].0 as int] is None);
                    let x = t.tiles@[q];
                    let a = choose|a: int| 0 <= a < j && #[trigger] ts[a].tiles@.contains(TileId(x.0 as u32));
                    assert(TileId(x.0 as u32) == x);
                    assert(ts[a].tiles@.contains(x) && ts[j as int].tiles@.contains(x));
                }
            }
            assert forall|x: int| 0 <= x < n implies ((#[trigger] claimed@[x]) is Some <==> exists|a: int| 0 <= a < j + 1 && #[trigger] ts[a].tiles@.contains(TileId(x as u32))) by {
                if claimed@[x] is Some && claimed0[x] is None {
                    assert(ts[j as int].tiles@.contains(TileId(x as u32)));
                }
                if exists|a: int| 0 <= a < j + 1 && #[trigger] ts[a].tiles@.contains(TileId(x as u32)) {
                    let a = choose|a: int| 0 <= a < j + 1 && #[trigger] ts[a].tiles@.contains(TileId(x as u32));
                    if a == j {
                        assert(t.tiles@.contains(TileId(x as u32)));
                    }
                }
            }
        }
        j = j + 1;
    }
}

fn check_units(world: &World, out: &mut Vec<Violation>)
    requires
        world.wf(),
    ensures
        final(out)@.len() >= old(out)@.len(),
        final(out)@.len() == old(out)@.len() <==> units_sound(*world),
        final(out)@.subrange(0, old(out)@.len() as int) == old(out)@,
{
    let start = out.len();
    let ghost out0 = out@;
    let mut i: usize = 0;
    let mut ok = true;
    while i < world.units.len()
        invariant
            world.wf(),
            i <= world.units@.len(),
            out@.len() >= start,
            start == out0.len(),
            out@.subrange(0, start as int) == out0,
            ok ==> out@.len() == start,
            !ok ==> out@.len() > start,
            ok == forall|q: int| 0 <= q < i ==> {
                let u = #[trigger] world.units@[q];
                &&& world.tiles@[u.tile.0 as int].unit == Some(u.id)
                &&& world.tiles@[u.tile.0 as int].terrain == Terrain::Land
            },
        decreases world.units@.len() - i,
    {
        let u = world.units[i];
        let tile = world.tiles[u.tile.index()];
        if tile.unit != Some(u.id) {
            out.push(Violation::UnitTileMismatch { unit: u.id, tile: u.tile });
            ok = false;
        }
        if !tile.is_land() {
            out.push(Violation::UnitOnWater { unit: u.id, tile: u.tile });
            ok = false;
        }
        i = i + 1;
    }
    let n = world.tiles.len();
    let mut t: usize = 0;
    let mut live = true;
    while t < n
        invariant
            world.wf(),
            n == world.tiles@.len(),
            n <= u32::MAX,
            t <= n,
            out@.len() >= start,
            start == out0.len(),
            out@.subrange(0, start as int) == out0,
            ok && live ==> out@.len() == start,
            !ok || !live ==> out@.len() > start,
            live == forall|q: int| 0 <= q < t ==> match #[trigger] world.tiles@[q].unit {
                Some(uid) => find_unit(world.units@, uid) is Some,
                None => true,
            },
        decreases n - t,
    {
        match world.tiles[t].unit {
            Some(uid) => {
                if world.unit(uid).is_none() {
                    out.push(Violation::DanglingUnitRef { tile: TileId(t as u32), unit: uid });
                    live = false;
                }
            },
            None => {},
        }
        t = t + 1;
    }
}

/// Every violation of soundness in a world, tiles first, then territories,
/// then units. Empty exactly when the world is sound.
pub fn check(world: &World) -> (out: Vec<Violation>)
    requires
        world.wf(),
    ensures
        out@.len() == 0 <==> sound(*world),
        forall|i: int| 0 <= i < world.territories@.len() && ((#[trigger] world.territories@[i]).wheat < 0 || world.territories@[i].gold < 0)
            ==> out@.contains(negative_treasury(world.territories@[i])),
{
    let mut out: Vec<Violation> = Vec::new();
    check_tiles(world, &mut out);
    let a = out.len();
    check_territories(world, &mut out);
    let b = out.len();
    let ghost mid = out@;
    check_units(world, &mut out);
    proof {
        assert forall|i: int| 0 <= i < world.territories@.len() && ((#[trigger] world.territories@[i]).wheat < 0 || world.territories@[i].gold < 0)
            implies out@.contains(negative_treasury(world.territories@[i])) by {
            lemma_prefix_contains(mid, out@, negative_treasury(world.territories@[i]));
        }
    }
    proof {
        if out@.len() == 0 {
            assert(a == 0 && b == 0);
        }
    }
    out
}

} // verus!
