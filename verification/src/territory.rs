//! Territory topology: splitting, merging, and rehousing capitals.
//!
//! Every border change funnels through [`retopologize`], which recomputes one
//! faction's territories from scratch rather than patching them:
//!
//! * A territory cut in two keeps its capital in one piece; every other piece
//!   gets a new one, and the treasury is divided by tile count with the
//!   remainder going to the heir, so a split never creates or destroys value.
//! * Territories joined by a capture sum their treasuries, and the capital
//!   nearest the captured tile survives; the others become empty tiles.
//! * A territory that lost its capital rehouses it on the most central tile
//!   of the preferred kind.
//! * A territory with nowhere to put a capital is disbanded: its tiles lose
//!   their owner and its units die.

use crate::arith::add32;
use crate::event::{extends, lemma_extends_contains, lemma_extends_push, lemma_extends_trans, Event, EventSink};
use crate::ids::{Faction, TerritoryId, TileId, UnitId};
use crate::rng::{stream, SeedDomain};
use crate::rules::{Ruleset, TileKind};
use crate::state::{find_territory, lemma_find_territory_ascending, lemma_territory_pos_from, territory_pos, Territory, Tile, World};
use crate::tileset::{contains_tile, strictly_increasing};
use crate::topology::{component_ok, connected, is_component_split, lists_view, member_mask, Topology};
use crate::treasury::{divide, share_spec, sum_parts, sum_sizes};
use std::sync::Arc;
use vstd::prelude::*;

verus! {

/// One connected piece of a former territory, with its share of the
/// treasury and its claim on the old identity.
#[derive(Debug, Clone)]
pub struct Fragment {
    pub parent: TerritoryId,
    pub tiles: Vec<TileId>,
    pub wheat: i32,
    pub gold: i32,
    /// The parent's capital, if it survived inside this piece.
    pub capital: Option<TileId>,
    /// Whether this piece may keep the parent's id. Exactly one piece of
    /// each parent is the heir.
    pub heir: bool,
}

/// A fragment that can be placed: non-empty, ascending, on the planet, and
/// holding its own capital.
pub open spec fn fragment_ok(f: Fragment, n: nat) -> bool {
    &&& f.tiles@.len() > 0
    &&& strictly_increasing(f.tiles@)
    &&& forall|k: int| 0 <= k < f.tiles@.len() ==> (#[trigger] f.tiles@[k]).0 < n
    &&& match f.capital {
        Some(c) => f.tiles@.contains(c),
        None => true,
    }
}

pub open spec fn wheat_total(fs: Seq<Fragment>) -> int
    decreases fs.len(),
{
    if fs.len() == 0 {
        0
    } else {
        wheat_total(fs.drop_last()) + fs.last().wheat
    }
}

pub open spec fn gold_total(fs: Seq<Fragment>) -> int
    decreases fs.len(),
{
    if fs.len() == 0 {
        0
    } else {
        gold_total(fs.drop_last()) + fs.last().gold
    }
}

proof fn lemma_totals_match(fs: Seq<Fragment>, w: Seq<i32>, g: Seq<i32>)
    requires
        fs.len() == w.len(),
        fs.len() == g.len(),
        forall|i: int| 0 <= i < fs.len() ==> (#[trigger] fs[i]).wheat == w[i] && fs[i].gold == g[i],
    ensures
        wheat_total(fs) == sum_parts(w),
        gold_total(fs) == sum_parts(g),
    decreases fs.len(),
{
    if fs.len() > 0 {
        lemma_totals_match(fs.drop_last(), w.drop_last(), g.drop_last());
    }
}

/// Total tiles over a list of pieces.
pub open spec fn piece_sizes(pieces: Seq<Seq<TileId>>) -> Seq<usize> {
    Seq::new(pieces.len(), |i: int| pieces[i].len() as usize)
}

/// Piece `h` is the heir among `pieces`: the first piece that holds the old
/// capital `cap`, or, when none does, a largest piece with the lowest first
/// tile among the largest.
pub open spec fn heir_rule(pieces: Seq<Seq<TileId>>, cap: TileId, h: int) -> bool {
    if exists|c: int| 0 <= c < pieces.len() && (#[trigger] pieces[c]).contains(cap) {
        &&& pieces[h].contains(cap)
        &&& forall|c: int| 0 <= c < h ==> !(#[trigger] pieces[c]).contains(cap)
    } else {
        forall|i: int| 0 <= i < pieces.len() ==> (#[trigger] pieces[i]).len() <= pieces[h].len()
            && (pieces[i].len() == pieces[h].len() ==> pieces[h][0].0 <= pieces[i][0].0)
    }
}

/// Divide a territory's treasury between its disconnected pieces in
/// proportion to tile count, floored; the piece holding the old capital (or,
/// if it is gone, the largest piece, lowest first tile on a tie) is the heir
/// and takes the remainder.
pub fn split_treasury(old: &Territory, pieces: Vec<Vec<TileId>>) -> (out: Vec<Fragment>)
    requires
        pieces@.len() > 0,
        forall|i: int| 0 <= i < pieces@.len() ==> (#[trigger] pieces@[i])@.len() > 0,
        sum_sizes(piece_sizes(lists_view(pieces@))) <= u64::MAX,
    ensures
        out@.len() == pieces@.len(),
        wheat_total(out@) == old.wheat,
        gold_total(out@) == old.gold,
        forall|i: int| 0 <= i < out@.len() ==> {
            &&& (#[trigger] out@[i]).tiles@ == pieces@[i]@
            &&& out@[i].parent == old.id
            &&& out@[i].capital == (if pieces@[i]@.contains(old.capital) { Some(old.capital) } else { None })
        },
        exists|h: int| 0 <= h < out@.len() && (#[trigger] out@[h]).heir && forall|i: int| 0 <= i < out@.len() && i != h ==> {
            &&& !(#[trigger] out@[i]).heir
            &&& out@[i].wheat == share_spec(old.wheat as int, pieces@[i]@.len() as int, sum_sizes(piece_sizes(lists_view(pieces@))))
            &&& out@[i].gold == share_spec(old.gold as int, pieces@[i]@.len() as int, sum_sizes(piece_sizes(lists_view(pieces@))))
        },
        forall|h: int| 0 <= h < out@.len() && (#[trigger] out@[h]).heir ==> heir_rule(lists_view(pieces@), old.capital, h),
{
    let n = pieces.len();
    let mut sizes: Vec<usize> = Vec::new();
    let mut heir: usize = n;
    let mut best: usize = 0;
    let mut i: usize = 0;
    while i < n
        invariant
            n == pieces@.len(),
            i <= n,
            sizes@.len() == i,
            forall|j: int| 0 <= j < i ==> #[trigger] sizes@[j] == pieces@[j]@.len(),
            heir == n || heir < i,
            best < n,
            i > 0 ==> best < i,
            i == 0 ==> best == 0,
            forall|j: int| 0 <= j < pieces@.len() ==> (#[trigger] pieces@[j])@.len() > 0,
            heir == n ==> forall|j: int| 0 <= j < i ==> !(#[trigger] pieces@[j])@.contains(old.capital),
            heir < n ==> pieces@[heir as int]@.contains(old.capital) && forall|j: int| 0 <= j < heir ==> !(#[trigger] pieces@[j])@.contains(old.capital),
            i > 0 ==> forall|j: int| 0 <= j < i ==> (#[trigger] pieces@[j])@.len() <= pieces@[best as int]@.len()
                && (pieces@[j]@.len() == pieces@[best as int]@.len() ==> pieces@[best as int]@[0].0 <= pieces@[j]@[0].0),
        decreases n - i,
    {
        let piece = &pieces[i];
        sizes.push(piece.len());
        if heir == n && contains_tile(piece, old.capital) {
            heir = i;
        }
        if i > 0 {
            let bl = pieces[best].len();
            if piece.len() > bl || (piece.len() == bl && piece[0].0 < pieces[best][0].0) {
                best = i;
            }
        }
        i = i + 1;
    }
    if heir == n {
        heir = best;
    }
    proof {
        assert(sizes@ =~= piece_sizes(lists_view(pieces@)));
        let pv = lists_view(pieces@);
        assert forall|j: int| 0 <= j < n implies #[trigger] pv[j] == pieces@[j]@ by {}
        assert(heir_rule(pv, old.capital, heir as int));
    }
    let ghost pv0 = lists_view(pieces@);
    let wheat = divide(old.wheat, &sizes, heir);
    let gold = divide(old.gold, &sizes, heir);
    let mut out: Vec<Fragment> = Vec::new();
    let mut pieces = pieces;
    let ghost src = pieces@;
    let mut i: usize = 0;
    while pieces.len() > 0
        invariant
            n == src.len(),
            pieces@ == src.skip(i as int),
            i <= n,
            wheat@.len() == n,
            gold@.len() == n,
            out@.len() == i,
            heir < n,
            forall|j: int| 0 <= j < i ==> {
                &&& (#[trigger] out@[j]).tiles@ == src[j]@
                &&& out@[j].parent == old.id
                &&& out@[j].capital == (if src[j]@.contains(old.capital) { Some(old.capital) } else { None })
                &&& out@[j].wheat == wheat@[j]
                &&& out@[j].gold == gold@[j]
                &&& out@[j].heir == (j == heir)
            },
        decreases pieces@.len(),
    {
        proof {
            assert(src.skip(i as int).len() == n - i);
        }
        let tiles = pieces.remove(0);
        proof {
            assert(tiles == src[i as int]);
            assert(pieces@ =~= src.skip(i + 1));
        }
        let capital = if contains_tile(&tiles, old.capital) {
            Some(old.capital)
        } else {
            None
        };
        out.push(Fragment { parent: old.id, tiles, wheat: wheat[i], gold: gold[i], capital, heir: i == heir });
        i = i + 1;
    }
    proof {
        assert(src.skip(i as int).len() == 0);
        lemma_totals_match(out@, wheat@, gold@);
        assert(out@[heir as int].heir);
        assert(lists_view(src) == pv0);
    }
    out
}

/// Found a brand-new territory around a single capital tile, with the
/// starting treasury. Used to seed starting positions.
pub fn found(world: &mut World, rules: &Ruleset, faction: Faction, capital: TileId) -> (id: TerritoryId)
    requires
        old(world).wf(),
        capital.0 < old(world).tiles@.len(),
        old(world).counters().1 < u32::MAX,
    ensures
        final(world).wf(),
        id.0 == old(world).counters().1,
        final(world).tiles@ == old(world).tiles@.update(
            capital.0 as int,
            Tile {
                owner: Some(faction),
                territory: Some(id),
                kind: TileKind::Capital,
                ..old(world).tiles@[capital.0 as int]
            },
        ),
        find_territory(final(world).territories@, id) matches Some(t) && t@ == (crate::state::TerritoryModel {
            id,
            faction,
            capital,
            wheat: rules.economy.starting_wheat,
            gold: rules.economy.starting_gold,
            tiles: seq![capital],
        }),
        forall|other: TerritoryId| other != id ==> find_territory(final(world).territories@, other) == find_territory(old(world).territories@, other),
        final(world).units == old(world).units,
        final(world).players == old(world).players,
        final(world).stats == old(world).stats,
        final(world).outcome == old(world).outcome,
        final(world).round == old(world).round,
        final(world).turn_index == old(world).turn_index,
        final(world).seed == old(world).seed,
        final(world).topology == old(world).topology,
        final(world).dominance_streak == old(world).dominance_streak,
        final(world).counters().0 == old(world).counters().0,
        final(world).counters().2 == old(world).counters().2,
        final(world).counters().1 == old(world).counters().1 + 1,
{
    let id = world.alloc_territory_id();
    let mut tile = *world.tile(capital);
    tile.owner = Some(faction);
    tile.territory = Some(id);
    tile.kind = TileKind::Capital;
    world.set_tile(capital, tile);
    let mut tiles: Vec<TileId> = Vec::new();
    tiles.push(capital);
    proof {
        assert(tiles@ =~= seq![capital]);
    }
    world.put_territory(
        Territory {
            id,
            faction,
            capital,
            wheat: rules.economy.starting_wheat,
            gold: rules.economy.starting_gold,
            tiles,
        },
    );
    id
}


// ---------------------------------------------------------------------------
// Phase 1: the pieces each old territory breaks into
// ---------------------------------------------------------------------------

proof fn lemma_sizes_bound(pieces: Seq<Seq<TileId>>, n: nat)
    requires
        n <= u32::MAX,
        forall|i: int| 0 <= i < pieces.len() ==> strictly_increasing(#[trigger] pieces[i]) && forall|k: int| 0 <= k < pieces[i].len() ==> (#[trigger] pieces[i][k]).0 < n,
    ensures
        sum_sizes(piece_sizes(pieces)) <= pieces.len() * n,
    decreases pieces.len(),
{
    if pieces.len() > 0 {
        let last = pieces.len() - 1;
        lemma_sizes_bound(pieces.drop_last(), n);
        assert(piece_sizes(pieces).drop_last() =~= piece_sizes(pieces.drop_last()));
        crate::tileset::lemma_increasing_bound(pieces[last], n as int);
        assert(piece_sizes(pieces).last() == pieces[last].len());
        assert(sum_sizes(piece_sizes(pieces)) == sum_sizes(piece_sizes(pieces.drop_last())) + pieces[last].len());
        assert((pieces.len() - 1) * n + n == pieces.len() * n) by (nonlinear_arith);
    }
}

/// The tiles of `old` still marked in `keep`, ascending.
fn surviving(old: &Territory, keep: &Vec<bool>) -> (s: Vec<TileId>)
    requires
        strictly_increasing(old.tiles@),
        forall|k: int| 0 <= k < old.tiles@.len() ==> (#[trigger] old.tiles@[k]).0 < keep@.len(),
    ensures
        strictly_increasing(s@),
        forall|k: int| 0 <= k < s@.len() ==> (#[trigger] s@[k]).0 < keep@.len() && keep@[s@[k].0 as int],
        forall|x: TileId| #[trigger] s@.contains(x) <==> (old.tiles@.contains(x) && keep@[x.0 as int]),
{
    let mut s: Vec<TileId> = Vec::new();
    let mut i: usize = 0;
    while i < old.tiles.len()
        invariant
            i <= old.tiles@.len(),
            strictly_increasing(old.tiles@),
            forall|k: int| 0 <= k < old.tiles@.len() ==> (#[trigger] old.tiles@[k]).0 < keep@.len(),
            strictly_increasing(s@),
            forall|k: int| 0 <= k < s@.len() ==> (#[trigger] s@[k]).0 < keep@.len() && keep@[s@[k].0 as int],
            forall|k: int| 0 <= k < s@.len() ==> exists|j: int| 0 <= j < i && old.tiles@[j] == #[trigger] s@[k],
            forall|x: TileId| #[trigger] s@.contains(x) <==> (old.tiles@.take(i as int).contains(x) && keep@[x.0 as int]),
        decreases old.tiles@.len() - i,
    {
        let x = old.tiles[i];
        let ghost before = s@;
        let ghost t1 = old.tiles@.take(i + 1);
        let ghost t0 = old.tiles@.take(i as int);
        proof {
            assert forall|y: TileId| #[trigger] t1.contains(y) <==> (t0.contains(y) || y == x) by {
                if t1.contains(y) {
                    let a = choose|a: int| 0 <= a < t1.len() && t1[a] == y;
                    if a < i {
                        assert(t0[a] == y);
                    }
                }
                if t0.contains(y) {
                    let a = choose|a: int| 0 <= a < t0.len() && t0[a] == y;
                    assert(t1[a] == y);
                }
                if y == x {
                    assert(t1[i as int] == x);
                }
            }
        }
        if keep[x.index()] {
            s.push(x);
            proof {
                assert forall|a: int, b: int| 0 <= a < b < s@.len() implies s@[a].0 < s@[b].0 by {
                    if b == s@.len() - 1 && a < before.len() {
                        let j = choose|j: int| 0 <= j < i && old.tiles@[j] == #[trigger] before[a];
                        assert(old.tiles@[j].0 < old.tiles@[i as int].0);
                    }
                }
                assert forall|k: int| 0 <= k < s@.len() implies exists|j: int| 0 <= j < i + 1 && old.tiles@[j] == #[trigger] s@[k] by {
                    if k < before.len() {
                        let j = choose|j: int| 0 <= j < i && old.tiles@[j] == #[trigger] before[k];
                        assert(old.tiles@[j] == s@[k]);
                    } else {
                        assert(old.tiles@[i as int] == s@[k]);
                    }
                }
                assert forall|y: TileId| #[trigger] s@.contains(y) <==> (t1.contains(y) && keep@[y.0 as int]) by {
                    if s@.contains(y) {
                        let a = choose|a: int| 0 <= a < s@.len() && s@[a] == y;
                        if a < before.len() {
                            assert(before[a] == y);
                            assert(before.contains(y));
                        } else {
                            assert(y == x);
                        }
                    }
                    if t1.contains(y) && keep@[y.0 as int] {
                        if y == x {
                            assert(s@[s@.len() - 1] == y);
                        } else {
                            assert(t0.contains(y));
                            assert(before.contains(y));
                            let a = choose|a: int| 0 <= a < before.len() && before[a] == y;
                            assert(s@[a] == y);
                        }
                    }
                }
            }
        } else {
            proof {
                assert forall|y: TileId| #[trigger] s@.contains(y) <==> (t1.contains(y) && keep@[y.0 as int]) by {
                    if t1.contains(y) && keep@[y.0 as int] && y != x {
                        assert(t0.contains(y));
                    }
                }
            }
        }
        i = i + 1;
    }
    proof {
        assert(old.tiles@.take(i as int) =~= old.tiles@);
    }
    s
}

proof fn lemma_pieces(adj: Seq<Seq<TileId>>, keep: Seq<TileId>, pv: Seq<Seq<TileId>>, owned: Seq<bool>, n: nat)
    requires
        n <= u32::MAX,
        owned.len() == n,
        keep.len() > 0,
        forall|k: int| 0 <= k < keep.len() ==> (#[trigger] keep[k]).0 < n && owned[keep[k].0 as int],
        is_component_split(adj, keep, pv),
    ensures
        pv.len() > 0,
        pv.len() <= n,
        sum_sizes(piece_sizes(pv)) <= u64::MAX,
        forall|j: int| 0 <= j < pv.len() ==> {
            &&& strictly_increasing(#[trigger] pv[j])
            &&& pv[j].len() > 0
            &&& forall|k: int| 0 <= k < pv[j].len() ==> (#[trigger] pv[j][k]).0 < n && owned[pv[j][k].0 as int]
        },
{
    assert forall|j: int| 0 <= j < pv.len() implies {
        &&& strictly_increasing(#[trigger] pv[j])
        &&& pv[j].len() > 0
        &&& forall|k: int| 0 <= k < pv[j].len() ==> (#[trigger] pv[j][k]).0 < n && owned[pv[j][k].0 as int]
    } by {
        assert(component_ok(adj, keep, pv[j]));
        assert forall|k: int| 0 <= k < pv[j].len() implies (#[trigger] pv[j][k]).0 < n && owned[pv[j][k].0 as int] by {
            assert(pv[j].contains(pv[j][k]));
            assert(keep.contains(pv[j][k]));
            let q = choose|q: int| 0 <= q < keep.len() && keep[q] == pv[j][k];
        }
    }
    let firsts = Seq::new(pv.len(), |j: int| pv[j][0]);
    assert(strictly_increasing(firsts));
    crate::tileset::lemma_increasing_bound(firsts, n as int);
    lemma_sizes_bound(pv, n);
    assert(pv.len() * n <= 0xffff_ffff * 0xffff_ffffu64) by (nonlinear_arith)
        requires pv.len() <= n, n <= 0xffff_ffff;
    assert(keep.contains(keep[0]));
}

/// The connected components of `keep`, as placeable tile lists.
fn pieces_in(world: &World, keep: &Vec<TileId>, owned: &Vec<bool>) -> (pieces: Vec<Vec<TileId>>)
    requires
        world.tiles@.len() == world.topology.count(),
        world.tiles@.len() <= u32::MAX,
        owned@.len() == world.tiles@.len(),
        keep@.len() > 0,
        strictly_increasing(keep@),
        forall|k: int| 0 <= k < keep@.len() ==> (#[trigger] keep@[k]).0 < world.tiles@.len() && owned@[keep@[k].0 as int],
    ensures
        pieces@.len() > 0,
        is_component_split(world.topology.adj(), keep@, lists_view(pieces@)),
        sum_sizes(piece_sizes(lists_view(pieces@))) <= u64::MAX,
        forall|j: int| 0 <= j < pieces@.len() ==> {
            &&& strictly_increasing((#[trigger] pieces@[j])@)
            &&& pieces@[j]@.len() > 0
            &&& forall|k: int| 0 <= k < pieces@[j]@.len() ==> (#[trigger] pieces@[j]@[k]).0 < world.tiles@.len() && owned@[pieces@[j]@[k].0 as int]
        },
{
    let pieces = world.topology.components(keep);
    proof {
        let pv = lists_view(pieces@);
        lemma_pieces(world.topology.adj(), keep@, pv, owned@, world.tiles@.len());
        assert forall|j: int| 0 <= j < pieces@.len() implies {
            &&& strictly_increasing((#[trigger] pieces@[j])@)
            &&& pieces@[j]@.len() > 0
            &&& forall|k: int| 0 <= k < pieces@[j]@.len() ==> (#[trigger] pieces@[j]@[k]).0 < world.tiles@.len() && owned@[pieces@[j]@[k].0 as int]
        } by {
            assert(pv[j] == pieces@[j]@);
        }
    }
    pieces
}

/// Fragment `f` may pass its parent's id on: it is the parent's heir, and
/// no other rebuilt territory has taken that id yet.
pub open spec fn may_inherit(f: Fragment, claimed: Seq<TerritoryId>) -> bool {
    f.heir && !claimed.contains(f.parent)
}

/// `id` is the identity a merged territory keeps: the parent of the
/// largest fragment among those that may pass an id on (the lowest parent
/// id among equally large ones), or none when no fragment may.
#[verifier::opaque]
pub open spec fn largest_heir(contributors: Seq<Fragment>, claimed: Seq<TerritoryId>, id: Option<TerritoryId>) -> bool {
    match id {
        Some(id) => exists|j: int| {
            &&& 0 <= j < contributors.len()
            &&& may_inherit(#[trigger] contributors[j], claimed)
            &&& contributors[j].parent == id
            &&& forall|i: int| 0 <= i < contributors.len() && may_inherit(#[trigger] contributors[i], claimed)
                ==> contributors[i].tiles@.len() < contributors[j].tiles@.len()
                || (contributors[i].tiles@.len() == contributors[j].tiles@.len() && contributors[j].parent.0 <= contributors[i].parent.0)
        },
        None => forall|i: int| 0 <= i < contributors.len() ==> !may_inherit(#[trigger] contributors[i], claimed),
    }
}

/// A merged territory's identity is fixed by its contributors: at most one
/// id is the parent of a largest fragment that may pass it on, lowest id
/// first among equals.
pub proof fn lemma_merged_identity_is_unique(contributors: Seq<Fragment>, claimed: Seq<TerritoryId>, a: TerritoryId, b: TerritoryId)
    requires
        largest_heir(contributors, claimed, Some(a)),
        largest_heir(contributors, claimed, Some(b)),
    ensures
        a == b,
{
    reveal(largest_heir);
    let ja = choose|j: int| {
        &&& 0 <= j < contributors.len()
        &&& may_inherit(#[trigger] contributors[j], claimed)
        &&& contributors[j].parent == a
        &&& forall|i: int| 0 <= i < contributors.len() && may_inherit(#[trigger] contributors[i], claimed)
            ==> contributors[i].tiles@.len() < contributors[j].tiles@.len()
            || (contributors[i].tiles@.len() == contributors[j].tiles@.len() && contributors[j].parent.0 <= contributors[i].parent.0)
    };
    let jb = choose|j: int| {
        &&& 0 <= j < contributors.len()
        &&& may_inherit(#[trigger] contributors[j], claimed)
        &&& contributors[j].parent == b
        &&& forall|i: int| 0 <= i < contributors.len() && may_inherit(#[trigger] contributors[i], claimed)
            ==> contributors[i].tiles@.len() < contributors[j].tiles@.len()
            || (contributors[i].tiles@.len() == contributors[j].tiles@.len() && contributors[j].parent.0 <= contributors[i].parent.0)
    };
    assert(may_inherit(contributors[ja], claimed));
    assert(may_inherit(contributors[jb], claimed));
}

/// The id a component's territory reuses: that of the first contributor,
/// in decision order (larger first), that may pass its parent's id on.
fn inherit_id(contributors: &Vec<Fragment>, claimed: &Vec<TerritoryId>, Ghost(o): Ghost<World>, Ghost(faction): Ghost<Faction>)
    -> (inherited: Option<TerritoryId>)
    requires
        forall|a: int, b: int| 0 <= a < b < contributors@.len() ==> !before_spec(#[trigger] contributors@[b], #[trigger] contributors@[a]),
        forall|i: int| 0 <= i < contributors@.len() ==> (#[trigger] contributors@[i]).parent.0 < o.counters().1
            && ours(o, faction, contributors@[i].parent),
    ensures
        largest_heir(contributors@, claimed@, inherited),
        inherited matches Some(id) ==> !claimed@.contains(id) && id.0 < o.counters().1 && ours(o, faction, id),
{
    reveal(largest_heir);
    let mut inherited: Option<TerritoryId> = None;
    let mut j: usize = 0;
    while j < contributors.len()
        invariant
            j <= contributors@.len(),
            inherited is None,
            forall|a: int, b: int| 0 <= a < b < contributors@.len() ==> !before_spec(#[trigger] contributors@[b], #[trigger] contributors@[a]),
            forall|i: int| 0 <= i < contributors@.len() ==> (#[trigger] contributors@[i]).parent.0 < o.counters().1
                && ours(o, faction, contributors@[i].parent),
            forall|i: int| 0 <= i < j ==> !may_inherit(#[trigger] contributors@[i], claimed@),
        decreases contributors@.len() - j,
    {
        if contributors[j].heir && !contains_id(claimed, contributors[j].parent) {
            inherited = Some(contributors[j].parent);
            proof {
                reveal(largest_heir);
                let cs = contributors@;
                assert(ours(o, faction, cs[j as int].parent));
                assert(may_inherit(cs[j as int], claimed@));
                assert forall|i: int| 0 <= i < cs.len() && may_inherit(#[trigger] cs[i], claimed@)
                    implies cs[i].tiles@.len() < cs[j as int].tiles@.len()
                    || (cs[i].tiles@.len() == cs[j as int].tiles@.len() && cs[j as int].parent.0 <= cs[i].parent.0) by {
                    if i > j {
                        assert(!before_spec(cs[i], cs[j as int]));
                    }
                }
            }
            return inherited;
        }
        j = j + 1;
    }
    proof {
        reveal(largest_heir);
    }
    inherited
}

/// The tile lists of some fragments.
pub open spec fn frag_tiles(s: Seq<Fragment>) -> Seq<Seq<TileId>> {
    s.map_values(|f: Fragment| f.tiles@)
}

/// The connected pieces of one territory's tiles still marked in `owned`,
/// with the treasury divided between them.
#[verifier::rlimit(80)]
fn pieces_of(world: &World, old: &Territory, owned: &Vec<bool>) -> (out: Vec<Fragment>)
    requires
        world.tiles@.len() == world.topology.count(),
        world.tiles@.len() <= u32::MAX,
        owned@.len() == world.tiles@.len(),
        strictly_increasing(old.tiles@),
        forall|k: int| 0 <= k < old.tiles@.len() ==> (#[trigger] old.tiles@[k]).0 < world.tiles@.len(),
    ensures
        forall|i: int| 0 <= i < out@.len() ==> fragment_ok(#[trigger] out@[i], world.tiles@.len()),
        forall|i: int, k: int| 0 <= i < out@.len() && 0 <= k < out@[i].tiles@.len() ==> owned@[(#[trigger] out@[i].tiles@[k]).0 as int],
        forall|i: int| 0 <= i < out@.len() ==> (#[trigger] out@[i]).parent == old.id,
        exists|m: Seq<TileId>| (forall|x: TileId| #[trigger] m.contains(x) <==> (old.tiles@.contains(x) && owned@[x.0 as int]))
            && is_component_split(world.topology.adj(), m, frag_tiles(out@)),
        forall|x: TileId| old.tiles@.contains(x) && owned@[x.0 as int] ==> exists|i: int| 0 <= i < out@.len() && (#[trigger] out@[i]).tiles@.contains(x),
{
    proof {
        use_type_invariant(&*world.topology);
    }
    let n = world.tiles.len();
    let keep = surviving(old, owned);
    if keep.len() == 0 {
        let out: Vec<Fragment> = Vec::new();
        proof {
            assert(is_component_split(world.topology.adj(), keep@, frag_tiles(out@))) by {
                assert(frag_tiles(out@).len() == 0);
                assert forall|x: TileId| #[trigger] keep@.contains(x) implies false by {}
            }
            assert forall|x: TileId| old.tiles@.contains(x) && owned@[x.0 as int] implies false by {
                assert(keep@.contains(x));
            }
        }
        return out;
    }
    let pieces = pieces_in(world, &keep, owned);
    let ghost pv = lists_view(pieces@);
    if pieces.len() == 1 {
        let mut pieces = pieces;
        let tiles = pieces.remove(0);
        let capital = if contains_tile(&tiles, old.capital) {
            Some(old.capital)
        } else {
            None
        };
        let f = Fragment { parent: old.id, tiles, wheat: old.wheat, gold: old.gold, capital, heir: true };
        proof {
            assert(f.tiles@ == pv[0]);
        }
        let mut out: Vec<Fragment> = Vec::new();
        out.push(f);
        proof {
            assert(frag_tiles(out@) =~= pv);
            assert forall|x: TileId| old.tiles@.contains(x) && owned@[x.0 as int] implies exists|i: int| 0 <= i < out@.len() && (#[trigger] out@[i]).tiles@.contains(x) by {
                assert(keep@.contains(x));
                let i = choose|i: int| 0 <= i < pv.len() && #[trigger] pv[i].contains(x);
                assert(out@[0].tiles@.contains(x));
            }
        }
        return out;
    }
    proof {
        assert forall|j: int| 0 <= j < pieces@.len() implies (#[trigger] pieces@[j])@.len() > 0 by {
            assert(pieces@[j]@ == pv[j]);
        }
    }
    let out = split_treasury(old, pieces);
    proof {
        assert forall|j: int| 0 <= j < out@.len() implies (#[trigger] out@[j]).parent == old.id by {
            assert(out@[j].parent == old.id);
        }
        assert forall|j: int| 0 <= j < out@.len() implies fragment_ok(#[trigger] out@[j], n as nat) by {
            assert(out@[j].tiles@ == pv[j]);
        }
        assert forall|j: int, q: int| 0 <= j < out@.len() && 0 <= q < out@[j].tiles@.len() implies owned@[(#[trigger] out@[j].tiles@[q]).0 as int] by {
            assert(out@[j].tiles@ == pv[j]);
        }
        assert(frag_tiles(out@) =~= pv) by {
            assert forall|j: int| 0 <= j < out@.len() implies frag_tiles(out@)[j] == pv[j] by {
                assert(out@[j].tiles@ == pieces@[j]@);
            }
        }
        assert forall|x: TileId| old.tiles@.contains(x) && owned@[x.0 as int] implies exists|i: int| 0 <= i < out@.len() && (#[trigger] out@[i]).tiles@.contains(x) by {
            assert(keep@.contains(x));
            let i = choose|i: int| 0 <= i < pv.len() && #[trigger] pv[i].contains(x);
            assert(out@[i].tiles@ == pv[i]);
        }
    }
    out
}

/// Break each territory of `faction` into the connected pieces of its tiles
/// that are still marked in `owned`.
fn fragment(world: &World, owned: &Vec<bool>, faction: Faction) -> (out: Vec<Fragment>)
    requires
        world.wf(),
        owned@.len() == world.tiles@.len(),
    ensures
        forall|i: int| 0 <= i < out@.len() ==> fragment_ok(#[trigger] out@[i], world.tiles@.len()),
        forall|i: int, k: int| 0 <= i < out@.len() && 0 <= k < out@[i].tiles@.len() ==> owned@[(#[trigger] out@[i].tiles@[k]).0 as int],
        forall|i: int| 0 <= i < out@.len() ==> (#[trigger] out@[i]).parent.0 < world.counters().1,
        forall|i: int| 0 <= i < out@.len() ==> ours(*world, faction, (#[trigger] out@[i]).parent),
        forall|j: int, x: TileId| 0 <= j < world.territories@.len() && world.territories@[j].faction == faction
            && #[trigger] world.territories@[j].tiles@.contains(x) && owned@[x.0 as int] ==> exists|i: int| 0 <= i < out@.len()
            && (#[trigger] out@[i]).parent == world.territories@[j].id && out@[i].tiles@.contains(x),
{
    let n = world.tiles.len();
    let mut out: Vec<Fragment> = Vec::new();
    let mut i: usize = 0;
    while i < world.territories.len()
        invariant
            world.wf(),
            n == world.tiles@.len(),
            owned@.len() == n,
            i <= world.territories@.len(),
            forall|j: int| 0 <= j < out@.len() ==> fragment_ok(#[trigger] out@[j], n as nat),
            forall|j: int, k: int| 0 <= j < out@.len() && 0 <= k < out@[j].tiles@.len() ==> owned@[(#[trigger] out@[j].tiles@[k]).0 as int],
            forall|j: int| 0 <= j < out@.len() ==> (#[trigger] out@[j]).parent.0 < world.counters().1,
            forall|j: int| 0 <= j < out@.len() ==> ours(*world, faction, (#[trigger] out@[j]).parent),
            forall|j: int, x: TileId| 0 <= j < i && world.territories@[j].faction == faction
                && #[trigger] world.territories@[j].tiles@.contains(x) && owned@[x.0 as int] ==> exists|q: int| 0 <= q < out@.len()
                && (#[trigger] out@[q]).parent == world.territories@[j].id && out@[q].tiles@.contains(x),
        decreases world.territories@.len() - i,
    {
        let old = &world.territories[i];
        proof {
            lemma_find_territory_ascending(world.territories@, i as int);
        }
        if old.faction == faction {
            proof {
                use_type_invariant(&*world.topology);
            }
            let mut more = pieces_of(world, old, owned);
            let ghost before = out@;
            let ghost extra = more@;
            out.append(&mut more);
            proof {
                assert forall|j: int| 0 <= j < out@.len() implies fragment_ok(#[trigger] out@[j], n as nat) by {
                    if j < before.len() {
                        assert(out@[j] == before[j]);
                    } else {
                        assert(out@[j] == extra[j - before.len()]);
                    }
                }
                assert forall|j: int, k: int| 0 <= j < out@.len() && 0 <= k < out@[j].tiles@.len() implies owned@[(#[trigger] out@[j].tiles@[k]).0 as int] by {
                    if j < before.len() {
                        assert(out@[j] == before[j]);
                    } else {
                        assert(out@[j] == extra[j - before.len()]);
                    }
                }
                assert forall|j: int, x: TileId| 0 <= j < i + 1 && world.territories@[j].faction == faction
                    && #[trigger] world.territories@[j].tiles@.contains(x) && owned@[x.0 as int] implies exists|q: int| 0 <= q < out@.len()
                    && (#[trigger] out@[q]).parent == world.territories@[j].id && out@[q].tiles@.contains(x) by {
                    if j < i {
                        let q = choose|q: int| 0 <= q < before.len() && (#[trigger] before[q]).parent == world.territories@[j].id
                            && before[q].tiles@.contains(x);
                        assert(out@[q] == before[q]);
                    } else {
                        let q = choose|q: int| 0 <= q < extra.len() && (#[trigger] extra[q]).tiles@.contains(x);
                        assert(out@[before.len() + q] == extra[q]);
                    }
                }
                assert forall|j: int| 0 <= j < out@.len() implies (#[trigger] out@[j]).parent.0 < world.counters().1
                    && ours(*world, faction, out@[j].parent) by {
                    if j < before.len() {
                        assert(out@[j] == before[j]);
                    } else {
                        assert(out@[j] == extra[j - before.len()]);
                    }
                }
            }
        }
        i = i + 1;
    }
    out
}


// ---------------------------------------------------------------------------
// Phase 2: a capital for each component
// ---------------------------------------------------------------------------

/// The tiles of an ascending list whose kind is `kind`, ascending.
fn tiles_of_kind(world: &World, tiles: &Vec<TileId>, kind: TileKind) -> (out: Vec<TileId>)
    requires
        strictly_increasing(tiles@),
        forall|k: int| 0 <= k < tiles@.len() ==> (#[trigger] tiles@[k]).0 < world.tiles@.len(),
    ensures
        strictly_increasing(out@),
        forall|k: int| 0 <= k < out@.len() ==> tiles@.contains(#[trigger] out@[k]) && world.tiles@[out@[k].0 as int].kind == kind,
        forall|k: int| 0 <= k < out@.len() ==> (#[trigger] out@[k]).0 < world.tiles@.len(),
        forall|j: int| 0 <= j < tiles@.len() && world.tiles@[tiles@[j].0 as int].kind == kind ==> out@.contains(#[trigger] tiles@[j]),
{
    let mut out: Vec<TileId> = Vec::new();
    let mut i: usize = 0;
    while i < tiles.len()
        invariant
            i <= tiles@.len(),
            forall|j: int| 0 <= j < i && world.tiles@[tiles@[j].0 as int].kind == kind ==> out@.contains(#[trigger] tiles@[j]),
            strictly_increasing(tiles@),
            forall|k: int| 0 <= k < tiles@.len() ==> (#[trigger] tiles@[k]).0 < world.tiles@.len(),
            strictly_increasing(out@),
            forall|k: int| 0 <= k < out@.len() ==> exists|j: int| 0 <= j < i && tiles@[j] == #[trigger] out@[k],
            forall|k: int| 0 <= k < out@.len() ==> world.tiles@[(#[trigger] out@[k]).0 as int].kind == kind,
        decreases tiles@.len() - i,
    {
        let x = tiles[i];
        let ghost before = out@;
        if world.tiles[x.index()].kind == kind {
            out.push(x);
            proof {
                assert(out@[out@.len() - 1] == x);
                assert forall|j: int| 0 <= j < i + 1 && world.tiles@[tiles@[j].0 as int].kind == kind implies out@.contains(#[trigger] tiles@[j]) by {
                    if j < i {
                        let k = choose|k: int| 0 <= k < before.len() && before[k] == tiles@[j];
                        assert(out@[k] == before[k]);
                    }
                }
                assert forall|a: int, b: int| 0 <= a < b < out@.len() implies out@[a].0 < out@[b].0 by {
                    if b == out@.len() - 1 && a < before.len() {
                        let j = choose|j: int| 0 <= j < i && tiles@[j] == #[trigger] before[a];
                        assert(tiles@[j].0 < tiles@[i as int].0);
                    }
                }
                assert forall|k: int| 0 <= k < out@.len() implies exists|j: int| 0 <= j < i + 1 && tiles@[j] == #[trigger] out@[k] by {
                    if k < before.len() {
                        let j = choose|j: int| 0 <= j < i && tiles@[j] == #[trigger] before[k];
                        assert(tiles@[j] == out@[k]);
                    } else {
                        assert(tiles@[i as int] == out@[k]);
                    }
                }
            }
        }
        i = i + 1;
    }
    proof {
        assert forall|k: int| 0 <= k < out@.len() implies tiles@.contains(#[trigger] out@[k]) && (out@[k]).0 < world.tiles@.len() by {
            let j = choose|j: int| 0 <= j < i && tiles@[j] == #[trigger] out@[k];
        }
    }
    out
}

/// Some candidate is at least as central as every other.
proof fn lemma_least_central(adj: Seq<Seq<TileId>>, members: Seq<TileId>, cands: Seq<TileId>) -> (m: TileId)
    requires
        cands.len() > 0,
    ensures
        cands.contains(m),
        forall|d: TileId| #[trigger] cands.contains(d) ==> crate::topology::centrality(adj, members, m) <= crate::topology::centrality(adj, members, d),
    decreases cands.len(),
{
    if cands.len() == 1 {
        let m = cands[0];
        assert forall|d: TileId| #[trigger] cands.contains(d) implies crate::topology::centrality(adj, members, m)
            <= crate::topology::centrality(adj, members, d) by {
            let k = choose|k: int| 0 <= k < cands.len() && cands[k] == d;
        }
        assert(cands.contains(m) ) by { assert(cands[0] == m); }
        m
    } else {
        let rest = cands.drop_last();
        let r = lemma_least_central(adj, members, rest);
        let last = cands.last();
        let m = if crate::topology::centrality(adj, members, last) < crate::topology::centrality(adj, members, r) { last } else { r };
        assert forall|d: TileId| #[trigger] cands.contains(d) implies crate::topology::centrality(adj, members, m)
            <= crate::topology::centrality(adj, members, d) by {
            let k = choose|k: int| 0 <= k < cands.len() && cands[k] == d;
            if k < cands.len() - 1 {
                assert(rest[k] == d);
                assert(rest.contains(d));
            }
        }
        let kr = choose|k: int| 0 <= k < rest.len() && rest[k] == r;
        assert(cands[kr] == r);
        assert(cands[cands.len() - 1] == last);
        m
    }
}

/// The most central of `candidates` within `component`; among several
/// equally central, the one the relocation stream picks.
fn pick_central(world: &World, component: &Vec<TileId>, candidates: &Vec<TileId>) -> (site: Option<TileId>)
    requires
        world.tiles@.len() == world.topology.count(),
        component@.len() > 0,
        strictly_increasing(component@),
        forall|k: int| 0 <= k < component@.len() ==> (#[trigger] component@[k]).0 < world.tiles@.len(),
        strictly_increasing(candidates@),
        forall|k: int| 0 <= k < candidates@.len() ==> (#[trigger] candidates@[k]).0 < world.tiles@.len(),
    ensures
        candidates@.len() > 0 <==> site is Some,
        site matches Some(t) ==> candidates@.contains(t) && forall|d: TileId| #[trigger] candidates@.contains(d)
            ==> crate::topology::centrality(world.topology.adj(), component@, t) <= crate::topology::centrality(
            world.topology.adj(),
            component@,
            d,
        ),
{
    let central = world.topology.most_central(component, candidates);
    proof {
        if candidates@.len() > 0 {
            let m = lemma_least_central(world.topology.adj(), component@, candidates@);
            assert(central@.contains(m));
        }
    }
    if central.len() == 1 {
        proof {
            assert(central@.contains(central@[0]));
        }
        return Some(central[0]);
    }
    let anchor = component[0];
    let mut rng = stream(world.seed, SeedDomain::CapitalRelocation, world.round, anchor.0);
    let picked = rng.pick(central.as_slice());
    match picked {
        Some(t) => {
            proof {
                assert(central@.contains(*t));
            }
            Some(*t)
        },
        None => None,
    }
}

/// Where to rehouse a lost capital: the first kind in the preference order
/// that the component holds at all, and among tiles of that kind the most
/// central, ties broken by the relocation stream. `None` when the component
/// holds none of the preferred kinds.
fn choose_capital_site(world: &World, rules: &Ruleset, component: &Vec<TileId>) -> (site: Option<TileId>)
    requires
        world.tiles@.len() == world.topology.count(),
        component@.len() > 0,
        strictly_increasing(component@),
        forall|k: int| 0 <= k < component@.len() ==> (#[trigger] component@[k]).0 < world.tiles@.len(),
    ensures
        match site {
            Some(t) => component@.contains(t) && rules.territory.capital_relocation_preference@.contains(world.tiles@[t.0 as int].kind),
            None => true,
        },
        site is None <==> forall|q: int, j: int|
            0 <= q < rules.territory.capital_relocation_preference@.len() && 0 <= j < component@.len()
                ==> world.tiles@[(#[trigger] component@[j]).0 as int].kind != #[trigger] rules.territory.capital_relocation_preference@[q],
        site matches Some(t) ==> exists|p: int| {
            &&& 0 <= p < rules.territory.capital_relocation_preference@.len()
            &&& rules.territory.capital_relocation_preference@[p] == world.tiles@[t.0 as int].kind
            &&& forall|q: int, j: int| 0 <= q < p && 0 <= j < component@.len()
                ==> world.tiles@[(#[trigger] component@[j]).0 as int].kind != #[trigger] rules.territory.capital_relocation_preference@[q]
        },
        site matches Some(t) ==> forall|d: TileId| #[trigger] component@.contains(d) && world.tiles@[d.0 as int].kind
            == world.tiles@[t.0 as int].kind ==> crate::topology::centrality(world.topology.adj(), component@, t)
            <= crate::topology::centrality(world.topology.adj(), component@, d),
{
    let prefs = &rules.territory.capital_relocation_preference;
    let mut p: usize = 0;
    while p < prefs.len()
        invariant
            p <= prefs@.len(),
            prefs@ == rules.territory.capital_relocation_preference@,
            world.tiles@.len() == world.topology.count(),
            component@.len() > 0,
            strictly_increasing(component@),
            forall|k: int| 0 <= k < component@.len() ==> (#[trigger] component@[k]).0 < world.tiles@.len(),
            forall|q: int, j: int| 0 <= q < p && 0 <= j < component@.len()
                ==> world.tiles@[(#[trigger] component@[j]).0 as int].kind != #[trigger] prefs@[q],
        decreases prefs@.len() - p,
    {
        let kind = prefs[p];
        let candidates = tiles_of_kind(world, component, kind);
        proof {
            if candidates@.len() == 0 {
                assert forall|j: int| 0 <= j < component@.len() implies world.tiles@[(#[trigger] component@[j]).0 as int].kind != kind by {
                    if world.tiles@[component@[j].0 as int].kind == kind {
                        assert(candidates@.contains(component@[j]));
                    }
                }
            }
        }
        if candidates.len() > 0 {
            let picked = pick_central(world, component, &candidates);
            proof {
                assert(prefs@.contains(kind)) by {
                    assert(prefs@[p as int] == kind);
                }
                if picked is Some {
                    let t = picked->0;
                    let k = choose|k: int| 0 <= k < candidates@.len() && candidates@[k] == t;
                    assert(component@.contains(candidates@[k]));
                    assert(world.tiles@[candidates@[k].0 as int].kind == kind);
                    assert(rules.territory.capital_relocation_preference@.contains(world.tiles@[t.0 as int].kind));
                    assert(prefs@[p as int] == world.tiles@[t.0 as int].kind);
                    assert forall|d: TileId| #[trigger] component@.contains(d) && world.tiles@[d.0 as int].kind
                        == world.tiles@[t.0 as int].kind implies crate::topology::centrality(world.topology.adj(), component@, t)
                        <= crate::topology::centrality(world.topology.adj(), component@, d) by {
                        let j = choose|j: int| 0 <= j < component@.len() && component@[j] == d;
                        assert(candidates@.contains(component@[j]));
                    }
                }
                assert(candidates@.contains(candidates@[0]));
                let j0 = choose|j: int| 0 <= j < component@.len() && component@[j] == candidates@[0];
                assert(world.tiles@[component@[j0].0 as int].kind == prefs@[p as int]);
            }
            return picked;
        }
        p = p + 1;
    }
    None
}

/// How far a capital is from the focus for the merge contest: its hop
/// distance, or the largest distance when there is no way through.
pub open spec fn hop_key(dist: Seq<Option<u32>>, c: TileId) -> int {
    match dist[c.0 as int] {
        Some(d) => d as int,
        None => u32::MAX as int,
    }
}

/// `keep` is the capital that survives the merge contest among `candidates`
/// around `focus`, moving through the tiles marked in `pass`: no candidate
/// is nearer, and among the equally near it has the lowest tile id.
#[verifier::opaque]
pub open spec fn nearest_kept(adj: Seq<Seq<TileId>>, pass: Seq<bool>, candidates: Seq<TileId>, focus: TileId, keep: TileId) -> bool {
    &&& candidates.contains(keep)
    &&& forall|dist: Seq<Option<u32>>| #[trigger] crate::topology::is_hop_distance(adj, pass, focus.0 as int, dist)
        ==> forall|k: int| 0 <= k < candidates.len() ==> hop_key(dist, keep) < hop_key(dist, #[trigger] candidates[k])
            || (hop_key(dist, keep) == hop_key(dist, candidates[k]) && keep.0 <= candidates[k].0)
}

/// The nearest capital wins, ties to the lowest tile id: at most one tile
/// meets that rule, so the survivor of a merge is fixed by the candidates,
/// the focus and the territory alone.
pub proof fn lemma_nearest_capital_is_unique(adj: Seq<Seq<TileId>>, pass: Seq<bool>, candidates: Seq<TileId>, focus: TileId,
    dist: Seq<Option<u32>>, a: TileId, b: TileId)
    requires
        crate::topology::is_hop_distance(adj, pass, focus.0 as int, dist),
        nearest_kept(adj, pass, candidates, focus, a),
        nearest_kept(adj, pass, candidates, focus, b),
    ensures
        a == b,
{
    reveal(nearest_kept);
    let ka = choose|k: int| 0 <= k < candidates.len() && candidates[k] == a;
    let kb = choose|k: int| 0 <= k < candidates.len() && candidates[k] == b;
    assert(hop_key(dist, a) < hop_key(dist, candidates[kb]) || (hop_key(dist, a) == hop_key(dist, candidates[kb]) && a.0 <= candidates[kb].0));
    assert(hop_key(dist, b) < hop_key(dist, candidates[ka]) || (hop_key(dist, b) == hop_key(dist, candidates[ka]) && b.0 <= candidates[ka].0));
}

/// Of several capitals meeting in one territory, the one that survives:
/// the nearest to the tile that caused the merge, through the territory;
/// ties, and merges with no such tile, go to the lowest tile id.
fn nearest_capital(world: &World, component: &Vec<TileId>, candidates: &Vec<TileId>, focus: Option<TileId>) -> (keep: TileId)
    requires
        world.tiles@.len() == world.topology.count(),
        candidates@.len() > 0,
        forall|k: int| 0 <= k < candidates@.len() ==> (#[trigger] candidates@[k]).0 < world.tiles@.len(),
        forall|k: int| 0 <= k < component@.len() ==> (#[trigger] component@[k]).0 < world.tiles@.len(),
        match focus {
            Some(f) => f.0 < world.tiles@.len(),
            None => true,
        },
    ensures
        candidates@.contains(keep),
        focus is None ==> forall|k: int| 0 <= k < candidates@.len() ==> keep.0 <= (#[trigger] candidates@[k]).0,
        focus matches Some(f) ==> nearest_kept(
            world.topology.adj(),
            crate::topology::member_mask(world.topology.count(), component@),
            candidates@,
            f,
            keep,
        ),
{
    let sorted = crate::tileset::normalize_tiles(candidates);
    proof {
        assert(candidates@.contains(candidates@[0]));
        assert(sorted@.len() > 0) by {
            assert(sorted@.contains(candidates@[0]));
        }
        assert(candidates@.contains(sorted@[0])) by {
            assert(sorted@.contains(sorted@[0]));
        }
        assert forall|k: int| 0 <= k < sorted@.len() implies (#[trigger] sorted@[k]).0 < world.tiles@.len() by {
            assert(sorted@.contains(sorted@[k]));
            assert(candidates@.contains(sorted@[k]));
            let j = choose|j: int| 0 <= j < candidates@.len() && candidates@[j] == sorted@[k];
        }
    }
    let f = match focus {
        None => {
            proof {
                assert forall|k: int| 0 <= k < candidates@.len() implies sorted@[0].0 <= (#[trigger] candidates@[k]).0 by {
                    assert(candidates@.contains(candidates@[k]));
                    assert(sorted@.contains(candidates@[k]));
                    let j = choose|j: int| 0 <= j < sorted@.len() && sorted@[j] == candidates@[k];
                    if j > 0 {
                        assert(sorted@[0].0 < sorted@[j].0);
                    }
                }
            }
            return sorted[0];
        },
        Some(f) => f,
    };
    let mask = world.topology.mask_of(component);
    let dist = world.topology.distances_through(f, &mask);
    let mut best = sorted[0];
    let mut best_d: u32 = match dist[best.index()] {
        Some(d) => d,
        None => u32::MAX,
    };
    let ghost mut bi: int = 0;
    let mut i: usize = 1;
    while i < sorted.len()
        invariant
            1 <= i <= sorted@.len(),
            dist@.len() == world.tiles@.len(),
            forall|x: TileId| #[trigger] sorted@.contains(x) <==> candidates@.contains(x),
            forall|k: int| 0 <= k < sorted@.len() ==> (#[trigger] sorted@[k]).0 < world.tiles@.len(),
            crate::tileset::strictly_increasing(sorted@),
            candidates@.contains(best),
            0 <= bi < i,
            sorted@[bi] == best,
            best_d as int == hop_key(dist@, best),
            forall|k: int| 0 <= k < i ==> hop_key(dist@, best) <= hop_key(dist@, #[trigger] sorted@[k]),
            forall|k: int| 0 <= k < bi ==> hop_key(dist@, best) < hop_key(dist@, #[trigger] sorted@[k]),
        decreases sorted@.len() - i,
    {
        let c = sorted[i];
        let d = match dist[c.index()] {
            Some(d) => d,
            None => u32::MAX,
        };
        if d < best_d {
            best = c;
            best_d = d;
            proof {
                bi = i as int;
                assert(sorted@.contains(c));
            }
        }
        i = i + 1;
    }
    proof {
        reveal(nearest_kept);
        let adj = world.topology.adj();
        let pass = crate::topology::member_mask(world.topology.count(), component@);
        assert forall|d2: Seq<Option<u32>>| #[trigger] crate::topology::is_hop_distance(adj, pass, f.0 as int, d2)
            implies forall|k: int| 0 <= k < candidates@.len() ==> hop_key(d2, best) < hop_key(d2, #[trigger] candidates@[k])
                || (hop_key(d2, best) == hop_key(d2, candidates@[k]) && best.0 <= candidates@[k].0) by {
            crate::topology::lemma_hop_distance_unique(adj, pass, f.0 as int, dist@, d2);
            assert forall|k: int| 0 <= k < candidates@.len() implies hop_key(d2, best) < hop_key(d2, #[trigger] candidates@[k])
                || (hop_key(d2, best) == hop_key(d2, candidates@[k]) && best.0 <= candidates@[k].0) by {
                assert(candidates@.contains(candidates@[k]));
                assert(sorted@.contains(candidates@[k]));
                let j = choose|j: int| 0 <= j < sorted@.len() && sorted@[j] == candidates@[k];
                assert(hop_key(dist@, best) <= hop_key(dist@, sorted@[j]));
                if j < bi {
                    assert(hop_key(dist@, best) < hop_key(dist@, sorted@[j]));
                } else if j > bi {
                    assert(sorted@[bi].0 < sorted@[j].0);
                }
            }
        }
    }
    best
}

// ---------------------------------------------------------------------------
// Phase 3: swap the rebuilt territories in
// ---------------------------------------------------------------------------

/// A territory as it will exist after the rebuild, plus what to say about it.
struct Rebuilt {
    territory: Territory,
    is_new: bool,
    previous_capital: Option<TileId>,
    absorbed: Vec<TerritoryId>,
    /// Capitals that lost the merge contest and are razed to empty.
    retired_capitals: Vec<TileId>,
}

spec fn rebuilt_ok(r: Rebuilt, n: nat, c: u32) -> bool {
    &&& strictly_increasing(r.territory.tiles@)
    &&& forall|k: int| 0 <= k < r.territory.tiles@.len() ==> (#[trigger] r.territory.tiles@[k]).0 < n
    &&& r.territory.capital.0 < n
    &&& r.territory.id.0 < c
    &&& forall|k: int| 0 <= k < r.retired_capitals@.len() ==> (#[trigger] r.retired_capitals@[k]).0 < n
}

/// Everything but tiles, units and territories is as it was, and the world
/// is still well formed.
pub open spec fn same_frame(w: World, o: World) -> bool {
    &&& w.wf()
    &&& w.tiles@.len() == o.tiles@.len()
    &&& w.counters() == o.counters()
    &&& w.players == o.players
    &&& w.stats == o.stats
    &&& w.dominance_streak == o.dominance_streak
    &&& w.outcome == o.outcome
    &&& w.round == o.round
    &&& w.turn_index == o.turn_index
    &&& w.seed == o.seed
    &&& w.topology == o.topology
}

/// Every tile that `f` did not hold in `o` is as it was there.
pub open spec fn others_tiles_kept(o: World, w: World, f: Faction) -> bool {
    &&& w.tiles@.len() == o.tiles@.len()
    &&& forall|i: int| 0 <= i < o.tiles@.len() && o.tiles@[i].owner != Some(f) ==> #[trigger] w.tiles@[i] == o.tiles@[i]
}

pub open spec fn held_by(o: World, f: Faction, t: TileId) -> bool {
    o.tiles@[t.0 as int].owner == Some(f)
}

/// `id` names one of `f`'s territories in `w`.
pub open spec fn ours(w: World, f: Faction, id: TerritoryId) -> bool {
    find_territory(w.territories@, id) matches Some(t) && t.faction == f
}

/// Where `a` is a territory of another faction than `f`, `b` is the same.
pub open spec fn kept_if_other(a: Option<Territory>, b: Option<Territory>, f: Faction) -> bool {
    match a {
        Some(t) => t.faction != f ==> b == Some(t),
        None => true,
    }
}

/// Every territory of another faction than `f` is the same in `o` and `w`.
pub open spec fn others_territories_kept(o: World, w: World, f: Faction) -> bool {
    &&& forall|id: TerritoryId| kept_if_other(#[trigger] find_territory(o.territories@, id), find_territory(w.territories@, id), f)
    &&& forall|id: TerritoryId| kept_if_other(#[trigger] find_territory(w.territories@, id), find_territory(o.territories@, id), f)
}

/// A rebuilt territory is `f`'s, under a fresh id or one of `f`'s in `o`.
spec fn rebuilt_ours(r: Rebuilt, o: World, f: Faction) -> bool {
    &&& r.territory.faction == f
    &&& (r.territory.id.0 >= o.counters().1 || ours(o, f, r.territory.id))
}

/// Tile `j` after a rebuilt territory is written: a retired capital is
/// razed to empty, each of the territory's tiles names it, and its capital
/// stands on its capital tile.
spec fn placed(t: Tile, j: int, r: Rebuilt) -> Tile {
    let t1 = if among(r.retired_capitals@, r.retired_capitals@.len() as int, j) { Tile { kind: TileKind::Empty, ..t } } else { t };
    let t2 = if among(r.territory.tiles@, r.territory.tiles@.len() as int, j) {
        Tile { territory: Some(r.territory.id), ..t1 }
    } else {
        t1
    };
    if j == r.territory.capital.0 { Tile { kind: TileKind::Capital, ..t2 } } else { t2 }
}

/// What is reported of a disbanded remnant of faction `f`.
pub open spec fn disbanded_event(d: (TerritoryId, Vec<TileId>), f: Faction) -> Event {
    Event::TerritoryDisbanded { territory: d.0, faction: f, tiles: d.1@.len() as u32 }
}

/// The events report a rebuilt territory: its founding when new, its
/// capital's move when the capital changed, and a merge when it absorbed
/// others.
spec fn rebuilt_reported(ev: Seq<Event>, r: Rebuilt) -> bool {
    let t = r.territory;
    &&& r.is_new ==> ev.contains(
        Event::TerritoryCreated {
            territory: t.id,
            faction: t.faction,
            capital: t.capital,
            tiles: t.tiles@.len() as u32,
            wheat: t.wheat,
            gold: t.gold,
        },
    )
    &&& !r.is_new && r.previous_capital != Some(t.capital) ==> ev.contains(
        Event::CapitalRelocated { territory: t.id, from: r.previous_capital, to: t.capital },
    )
    &&& r.absorbed@.len() > 0 ==> exists|k: int| 0 <= k < ev.len() && merged_into(#[trigger] ev[k], t.id)
}

/// `e` reports territories merged into `id`.
pub open spec fn merged_into(e: Event, id: TerritoryId) -> bool {
    match e {
        Event::TerritoriesMerged { kept, .. } => kept == id,
        _ => false,
    }
}

/// Some rebuilt territory carries the id `id`.
spec fn survives(rs: Seq<Rebuilt>, id: TerritoryId) -> bool {
    exists|j: int| 0 <= j < rs.len() && (#[trigger] rs[j]).territory.id == id
}

/// A sequence's reports stay reported in any extension of it.
proof fn lemma_reported_extends(a: Seq<Event>, b: Seq<Event>, r: Rebuilt)
    requires
        extends(a, b),
        rebuilt_reported(a, r),
    ensures
        rebuilt_reported(b, r),
{
    let t = r.territory;
    if r.is_new {
        lemma_extends_contains(a, b, Event::TerritoryCreated {
            territory: t.id,
            faction: t.faction,
            capital: t.capital,
            tiles: t.tiles@.len() as u32,
            wheat: t.wheat,
            gold: t.gold,
        });
    }
    if !r.is_new && r.previous_capital != Some(t.capital) {
        lemma_extends_contains(a, b, Event::CapitalRelocated { territory: t.id, from: r.previous_capital, to: t.capital });
    }
    if r.absorbed@.len() > 0 {
        let k = choose|k: int| 0 <= k < a.len() && merged_into(#[trigger] a[k], t.id);
        assert(b.subrange(0, a.len() as int)[k] == b[k]);
    }
}

/// Tile `j` after the first `n` rebuilt territories are written, in order.
spec fn placed_upto(t: Tile, j: int, rs: Seq<Rebuilt>, n: int) -> Tile
    decreases n,
{
    if n <= 0 {
        t
    } else {
        placed(placed_upto(t, j, rs, n - 1), j, rs[n - 1])
    }
}

/// Tile `j` lies in one of the first `n` disbanded remnants.
spec fn in_disbanded(d: Seq<(TerritoryId, Vec<TileId>)>, n: int, j: int) -> bool {
    exists|i: int| 0 <= i < n && among((#[trigger] d[i]).1@, d[i].1@.len() as int, j)
}

/// Tile `j` of `t` after a faction's territories are committed: disbanded
/// remnants are cleared, the faction's remaining tiles forget their
/// territory, and then each rebuilt territory is written in order.
spec fn committed(t: Tile, j: int, f: Faction, d: Seq<(TerritoryId, Vec<TileId>)>, rs: Seq<Rebuilt>) -> Tile {
    let t1 = if in_disbanded(d, d.len() as int, j) { cleared(t) } else { t };
    let t2 = if t1.owner == Some(f) { Tile { territory: None, ..t1 } } else { t1 };
    placed_upto(t2, j, rs, rs.len() as int)
}

/// Writing rebuilt territories touches only kinds and territory references.
proof fn lemma_placed_upto_keeps(t: Tile, j: int, rs: Seq<Rebuilt>, n: int)
    ensures
        placed_upto(t, j, rs, n).terrain == t.terrain,
        placed_upto(t, j, rs, n).owner == t.owner,
        placed_upto(t, j, rs, n).unit == t.unit,
    decreases n,
{
    if n > 0 {
        lemma_placed_upto_keeps(t, j, rs, n - 1);
    }
}

/// The rebuilt territories carry pairwise different ids.
spec fn ids_distinct(rs: Seq<Rebuilt>) -> bool {
    forall|a: int, b: int| 0 <= a < b < rs.len() ==> (#[trigger] rs[a]).territory.id != (#[trigger] rs[b]).territory.id
}

/// Component `c` became a rebuilt territory or a disbanded remnant.
spec fn settled_component(rs: Seq<Rebuilt>, ds: Seq<(TerritoryId, Vec<TileId>)>, c: Seq<TileId>) -> bool {
    ||| exists|a: int| 0 <= a < rs.len() && (#[trigger] rs[a]).territory.tiles@ == c
    ||| exists|a: int| 0 <= a < ds.len() && (#[trigger] ds[a]).1@ == c
}

/// Tile `x` names, as its territory, one of `f`'s territories of `w`, and
/// that territory holds it.
pub open spec fn named_territory_of(w: World, f: Faction, x: TileId) -> bool {
    match w.tiles@[x.0 as int].territory {
        Some(id) => find_territory(w.territories@, id) matches Some(t) && t.faction == f && t.tiles@.contains(x),
        None => false,
    }
}

/// No tile lies in two of `f`'s territories of `w`.
pub open spec fn territories_apart(w: World, f: Faction) -> bool {
    forall|i1: TerritoryId, i2: TerritoryId, x: TileId| i1 != i2
        ==> !#[trigger] shared(find_territory(w.territories@, i1), find_territory(w.territories@, i2), f, x)
}

/// Both are territories of `f` and both hold `x`.
pub open spec fn shared(a: Option<Territory>, b: Option<Territory>, f: Faction, x: TileId) -> bool {
    match (a, b) {
        (Some(t1), Some(t2)) => t1.faction == f && t2.faction == f && t1.tiles@.contains(x) && t2.tiles@.contains(x),
        _ => false,
    }
}

/// No tile lies in two of the rebuilt territories.
spec fn tiles_apart(rs: Seq<Rebuilt>) -> bool {
    forall|a: int, b: int, x: TileId|
        #![trigger rs[a].territory.tiles@.contains(x), rs[b].territory.tiles@.contains(x)]
        0 <= a < b < rs.len() ==> !(rs[a].territory.tiles@.contains(x) && rs[b].territory.tiles@.contains(x))
}

/// The last rebuilt territory written over tile `j` decides its territory.
proof fn lemma_placed_ref(t: Tile, j: int, rs: Seq<Rebuilt>, n: int, a: int)
    requires
        0 <= a < n <= rs.len(),
        among(rs[a].territory.tiles@, rs[a].territory.tiles@.len() as int, j),
        forall|b: int| a < b < n ==> !among((#[trigger] rs[b]).territory.tiles@, rs[b].territory.tiles@.len() as int, j),
    ensures
        placed_upto(t, j, rs, n).territory == Some(rs[a].territory.id),
    decreases n,
{
    if n - 1 > a {
        lemma_placed_ref(t, j, rs, n - 1, a);
        assert(!among(rs[n - 1].territory.tiles@, rs[n - 1].territory.tiles@.len() as int, j));
    }
}


/// Committing keeps every tile's terrain, and its owner or none.
proof fn lemma_committed_keeps(pre: World, w: World, f: Faction, db: Seq<(TerritoryId, Vec<TileId>)>, rb: Seq<Rebuilt>)
    requires
        w.tiles@.len() == pre.tiles@.len(),
        forall|j: int| 0 <= j < pre.tiles@.len() ==> #[trigger] w.tiles@[j] == committed(pre.tiles@[j], j, f, db, rb),
    ensures
        forall|j: int| 0 <= j < pre.tiles@.len() ==> (#[trigger] w.tiles@[j]).terrain == pre.tiles@[j].terrain
            && (w.tiles@[j].owner == pre.tiles@[j].owner || w.tiles@[j].owner is None),
{
    assert forall|j: int| 0 <= j < pre.tiles@.len() implies (#[trigger] w.tiles@[j]).terrain == pre.tiles@[j].terrain
        && (w.tiles@[j].owner == pre.tiles@[j].owner || w.tiles@[j].owner is None) by {
        let t1 = if in_disbanded(db, db.len() as int, j) { cleared(pre.tiles@[j]) } else { pre.tiles@[j] };
        let t2 = if t1.owner == Some(f) { Tile { territory: None, ..t1 } } else { t1 };
        lemma_placed_upto_keeps(t2, j, rb, rb.len() as int);
    }
}

proof fn lemma_settled_rebuilt(rs: Seq<Rebuilt>, r: Rebuilt, ds: Seq<(TerritoryId, Vec<TileId>)>, cv: Seq<Seq<TileId>>, ci: int)
    requires
        0 <= ci < cv.len(),
        forall|q: int| 0 <= q < ci ==> settled_component(rs, ds, #[trigger] cv[q]),
        r.territory.tiles@ == cv[ci],
    ensures
        forall|q: int| 0 <= q < ci + 1 ==> settled_component(rs.push(r), ds, #[trigger] cv[q]),
{
    assert forall|q: int| 0 <= q < ci + 1 implies settled_component(rs.push(r), ds, #[trigger] cv[q]) by {
        if q < ci {
            assert(settled_component(rs, ds, cv[q]));
            if exists|a: int| 0 <= a < rs.len() && (#[trigger] rs[a]).territory.tiles@ == cv[q] {
                let a = choose|a: int| 0 <= a < rs.len() && (#[trigger] rs[a]).territory.tiles@ == cv[q];
                assert(rs.push(r)[a] == rs[a]);
            }
        } else {
            assert(rs.push(r)[rs.len() as int] == r);
        }
    }
}

proof fn lemma_settled_disbanded(rs: Seq<Rebuilt>, ds: Seq<(TerritoryId, Vec<TileId>)>, d: (TerritoryId, Vec<TileId>), cv: Seq<Seq<TileId>>, ci: int)
    requires
        0 <= ci < cv.len(),
        forall|q: int| 0 <= q < ci ==> settled_component(rs, ds, #[trigger] cv[q]),
        d.1@ == cv[ci],
    ensures
        forall|q: int| 0 <= q < ci + 1 ==> settled_component(rs, ds.push(d), #[trigger] cv[q]),
{
    assert forall|q: int| 0 <= q < ci + 1 implies settled_component(rs, ds.push(d), #[trigger] cv[q]) by {
        if q < ci {
            assert(settled_component(rs, ds, cv[q]));
            if exists|a: int| 0 <= a < ds.len() && (#[trigger] ds[a]).1@ == cv[q] {
                let a = choose|a: int| 0 <= a < ds.len() && (#[trigger] ds[a]).1@ == cv[q];
                assert(ds.push(d)[a] == ds[a]);
            }
        } else {
            assert(ds.push(d)[ds.len() as int] == d);
        }
    }
}

/// After a faction's territories are committed, every tile it still owns lies
/// in one of them: each component of its old ground was either rebuilt as a
/// territory or disbanded, and disbanded ground is owned by nobody.
proof fn lemma_coverage(
    o: World,
    w: World,
    f: Faction,
    owned_list: Seq<TileId>,
    cv: Seq<Seq<TileId>>,
    rb: Seq<Rebuilt>,
    db: Seq<(TerritoryId, Vec<TileId>)>,
)
    requires
        w.tiles@.len() == o.tiles@.len(),
        forall|x: TileId| #[trigger] owned_list.contains(x) <==> crate::state::owned_ids(o.tiles@, f).contains(x.0 as int),
        forall|x: TileId| #[trigger] owned_list.contains(x) ==> exists|i: int| 0 <= i < cv.len() && #[trigger] cv[i].contains(x),
        forall|q: int| 0 <= q < cv.len() ==> settled_component(rb, db, #[trigger] cv[q]),
        forall|j: int, k: int| 0 <= j < db.len() && 0 <= k < db[j].1@.len() ==> w.tiles@[(#[trigger] db[j].1@[k]).0 as int].owner is None,
        forall|j: int| 0 <= j < rb.len() ==> (find_territory(w.territories@, (#[trigger] rb[j]).territory.id) matches Some(t)
            && t@ == rb[j].territory@),
        forall|j: int| 0 <= j < rb.len() ==> (#[trigger] rb[j]).territory.faction == f,
        forall|j: int| 0 <= j < o.tiles@.len() ==> (#[trigger] w.tiles@[j]).owner == o.tiles@[j].owner || w.tiles@[j].owner is None,
        forall|j: int| 0 <= j < o.tiles@.len() ==> #[trigger] w.tiles@[j] == committed(o.tiles@[j], j, f, db, rb),
        tiles_apart(rb),
    ensures
        forall|x: TileId| x.0 < w.tiles@.len() && (#[trigger] w.tiles@[x.0 as int]).owner == Some(f) ==> named_territory_of(w, f, x),
{
    assert forall|x: TileId| x.0 < w.tiles@.len() && (#[trigger] w.tiles@[x.0 as int]).owner == Some(f) implies named_territory_of(w, f, x) by {
        let j = x.0 as int;
        assert(o.tiles@[j].owner == Some(f));
        assert(crate::state::owned_ids(o.tiles@, f).contains(j));
        assert(owned_list.contains(x));
        let q = choose|q: int| 0 <= q < cv.len() && #[trigger] cv[q].contains(x);
        assert(settled_component(rb, db, cv[q]));
        if exists|a: int| 0 <= a < db.len() && (#[trigger] db[a]).1@ == cv[q] {
            let a = choose|a: int| 0 <= a < db.len() && (#[trigger] db[a]).1@ == cv[q];
            let k = choose|k: int| 0 <= k < db[a].1@.len() && db[a].1@[k] == x;
            assert(w.tiles@[(db[a].1@[k]).0 as int].owner is None);
        } else {
            let a = choose|a: int| 0 <= a < rb.len() && (#[trigger] rb[a]).territory.tiles@ == cv[q];
            let id = rb[a].territory.id;
            assert(find_territory(w.territories@, id) matches Some(t) && t@ == rb[a].territory@);
            let t = find_territory(w.territories@, id)->0;
            assert(t.tiles@ == cv[q]);
            assert(find_territory(w.territories@, id) matches Some(t) && t.faction == f && t.tiles@.contains(x));
            let ka = choose|k: int| 0 <= k < rb[a].territory.tiles@.len() && rb[a].territory.tiles@[k] == x;
            assert(among(rb[a].territory.tiles@, rb[a].territory.tiles@.len() as int, j));
            assert forall|b: int| a < b < rb.len() implies !among((#[trigger] rb[b]).territory.tiles@, rb[b].territory.tiles@.len() as int, j) by {
                if among(rb[b].territory.tiles@, rb[b].territory.tiles@.len() as int, j) {
                    let kb = choose|k: int| 0 <= k < rb[b].territory.tiles@.len() && (#[trigger] rb[b].territory.tiles@[k]).0 == j;
                    assert(rb[b].territory.tiles@[kb] == x);
                    assert(rb[b].territory.tiles@.contains(x));
                    assert(rb[a].territory.tiles@.contains(x));
                }
            }
            let t1 = if in_disbanded(db, db.len() as int, j) { cleared(o.tiles@[j]) } else { o.tiles@[j] };
            let t2 = if t1.owner == Some(f) { Tile { territory: None, ..t1 } } else { t1 };
            lemma_placed_ref(t2, j, rb, rb.len() as int, a);
            assert(w.tiles@[j].territory == Some(id));
        }
    }
}

/// Which tiles `f` owns, as a mask.
pub open spec fn owned_mask(tiles: Seq<Tile>, f: Faction) -> Seq<bool> {
    Seq::new(tiles.len(), |i: int| tiles[i].owner == Some(f))
}

/// `c` is a connected component of the ground `f` owns: ascending, and
/// exactly the owned tiles that a walk over owned ground reaches from its
/// first tile.
pub open spec fn owned_component(adj: Seq<Seq<TileId>>, tiles: Seq<Tile>, f: Faction, c: Seq<TileId>) -> bool {
    &&& c.len() > 0
    &&& strictly_increasing(c)
    &&& forall|x: TileId| #[trigger] c.contains(x) <==> (x.0 < tiles.len() && tiles[x.0 as int].owner == Some(f)
        && connected(adj, owned_mask(tiles, f), c[0].0 as int, x.0 as int))
}

/// Where `a` is a territory of `f`, its tiles are a component of `f`'s ground.
pub open spec fn component_if_ours(a: Option<Territory>, adj: Seq<Seq<TileId>>, tiles: Seq<Tile>, f: Faction) -> bool {
    match a {
        Some(t) => t.faction == f ==> owned_component(adj, tiles, f, t.tiles@),
        None => true,
    }
}

proof fn lemma_owned_component(adj: Seq<Seq<TileId>>, tiles: Seq<Tile>, f: Faction, members: Seq<TileId>, c: Seq<TileId>)
    requires
        member_mask(adj.len(), members) == owned_mask(tiles, f),
        forall|x: TileId| #[trigger] members.contains(x) <==> (x.0 < tiles.len() && tiles[x.0 as int].owner == Some(f)),
        component_ok(adj, members, c),
    ensures
        owned_component(adj, tiles, f, c),
{
}

/// Where `a` is a territory of `f`, it is one of the first `n` rebuilt.
spec fn from_rebuilt(a: Option<Territory>, rs: Seq<Rebuilt>, n: int, f: Faction) -> bool {
    match a {
        Some(t) => t.faction == f ==> exists|j: int| 0 <= j < n && t@ == (#[trigger] rs[j]).territory@,
        None => true,
    }
}

/// Everything a rebuilt territory writes to lies on ground `f` held in `o`.
spec fn rebuilt_held(r: Rebuilt, o: World, f: Faction) -> bool {
    &&& forall|k: int| 0 <= k < r.territory.tiles@.len() ==> held_by(o, f, #[trigger] r.territory.tiles@[k])
    &&& held_by(o, f, r.territory.capital)
    &&& forall|k: int| 0 <= k < r.retired_capitals@.len() ==> held_by(o, f, #[trigger] r.retired_capitals@[k])
}

/// Parents strictly ascending.
pub open spec fn parents_ascending(d: Seq<(TerritoryId, Vec<TerritoryId>)>) -> bool {
    forall|a: int, b: int| 0 <= a < b < d.len() ==> (#[trigger] d[a]).0.0 < (#[trigger] d[b]).0.0
}

/// Record that `child` descends from `parent`, keeping parents ascending.
fn add_descendant(d: &mut Vec<(TerritoryId, Vec<TerritoryId>)>, parent: TerritoryId, child: TerritoryId)
    requires
        parents_ascending(old(d)@),
    ensures
        parents_ascending(final(d)@),
        (exists|p: int| 0 <= p < old(d)@.len() && old(d)@[p].0 == parent) ==> {
            &&& final(d)@.len() == old(d)@.len()
            &&& forall|i: int| 0 <= i < old(d)@.len() ==> (#[trigger] final(d)@[i]).0 == old(d)@[i].0 && final(d)@[i].1@ == if old(d)@[i].0 == parent {
                old(d)@[i].1@.push(child)
            } else {
                old(d)@[i].1@
            }
        },
        (forall|p: int| 0 <= p < old(d)@.len() ==> old(d)@[p].0 != parent) ==> exists|p: int| {
            &&& 0 <= p <= old(d)@.len()
            &&& final(d)@.len() == old(d)@.len() + 1
            &&& final(d)@[p].0 == parent
            &&& final(d)@[p].1@ == seq![child]
            &&& forall|i: int| 0 <= i < p ==> #[trigger] final(d)@[i] == old(d)@[i]
            &&& forall|i: int| p < i < final(d)@.len() ==> #[trigger] final(d)@[i] == old(d)@[i - 1]
        },
{
    let ghost o = d@;
    let mut p: usize = 0;
    while p < d.len() && d[p].0.0 < parent.0
        invariant
            p <= d@.len(),
            d@ == o,
            forall|q: int| 0 <= q < p ==> (#[trigger] o[q]).0.0 < parent.0,
        decreases d@.len() - p,
    {
        p = p + 1;
    }
    if p < d.len() && d[p].0.0 == parent.0 {
        let (id, mut kids) = d.remove(p);
        kids.push(child);
        d.insert(p, (id, kids));
        proof {
            assert forall|i: int| 0 <= i < o.len() && i != p implies #[trigger] d@[i] == o[i] by {}
            assert(d@[p as int].0 == o[p as int].0);
            assert forall|i: int| 0 <= i < o.len() implies (#[trigger] d@[i]).0 == o[i].0 && d@[i].1@ == if o[i].0 == parent {
                o[i].1@.push(child)
            } else {
                o[i].1@
            } by {
                if i != p {
                    assert(d@[i] == o[i]);
                    if o[i].0 == parent {
                        if i < p {
                            assert(o[i].0.0 < parent.0);
                        } else {
                            assert(o[p as int].0.0 < o[i].0.0);
                        }
                    }
                }
            }
        }
    } else {
        proof {
            assert forall|q: int| 0 <= q < o.len() implies o[q].0 != parent by {
                if q >= p {
                    assert(o[p as int].0.0 <= o[q].0.0);
                }
            }
        }
        let mut kids: Vec<TerritoryId> = Vec::new();
        kids.push(child);
        d.insert(p, (parent, kids));
        proof {
            assert(d@[p as int].1@ =~= seq![child]);
            assert forall|i: int| 0 <= i < p implies #[trigger] d@[i] == o[i] by {}
            assert forall|i: int| p < i < d@.len() implies #[trigger] d@[i] == o[i - 1] by {}
            assert forall|a: int, b: int| 0 <= a < b < d@.len() implies (#[trigger] d@[a]).0.0 < (#[trigger] d@[b]).0.0 by {
                if a < p && b > p {
                    assert(d@[a] == o[a] && d@[b] == o[b - 1]);
                    assert(o[p as int].0.0 > parent.0);
                } else if a > p {
                    assert(d@[a] == o[a - 1] && d@[b] == o[b - 1]);
                } else if b < p {
                    assert(d@[a] == o[a] && d@[b] == o[b]);
                } else if a == p {
                    assert(d@[b] == o[b - 1]);
                    assert(o[p as int].0.0 > parent.0);
                    if b - 1 > p {
                        assert(o[p as int].0.0 < o[b - 1].0.0);
                    }
                } else {
                    assert(d@[a] == o[a]);
                }
            }
        }
    }
}

fn contains_id(v: &Vec<TerritoryId>, id: TerritoryId) -> (b: bool)
    ensures
        b == v@.contains(id),
{
    let mut i: usize = 0;
    while i < v.len()
        invariant
            i <= v@.len(),
            forall|j: int| 0 <= j < i ==> v@[j] != id,
        decreases v@.len() - i,
    {
        if v[i].0 == id.0 {
            assert(v@[i as int] == id);
            return true;
        }
        i = i + 1;
    }
    false
}

/// A disbanded tile: no unit, no owner, no territory, and no capital.
pub open spec fn cleared(t: Tile) -> Tile {
    Tile {
        unit: None,
        owner: None,
        territory: None,
        kind: if t.kind == TileKind::Capital { TileKind::Empty } else { t.kind },
        ..t
    }
}

/// Whether tile `j` is among the first `n` of `tiles`.
pub open spec fn among(tiles: Seq<TileId>, n: int, j: int) -> bool {
    exists|k: int| 0 <= k < n && (#[trigger] tiles[k]).0 == j
}

/// Remove a disbanded territory's tiles from the map: their owner, their
/// units and any capital go.
fn disband_tiles(world: &mut World, tiles: &Vec<TileId>, sink: &mut EventSink, base: Ghost<World>, f: Ghost<Faction>)
    requires
        old(world).wf(),
        forall|k: int| 0 <= k < tiles@.len() ==> (#[trigger] tiles@[k]).0 < old(world).tiles@.len(),
        others_tiles_kept(base@, *old(world), f@),
        forall|k: int| 0 <= k < tiles@.len() ==> held_by(base@, f@, #[trigger] tiles@[k]),
    ensures
        same_frame(*final(world), *old(world)),
        final(world).territories == old(world).territories,
        others_tiles_kept(base@, *final(world), f@),
        forall|j: int| 0 <= j < old(world).tiles@.len() ==> #[trigger] final(world).tiles@[j] == if among(tiles@, tiles@.len() as int, j) {
            cleared(old(world).tiles@[j])
        } else {
            old(world).tiles@[j]
        },
        forall|i: int| 0 <= i < final(world).units@.len() ==> old(world).units@.contains(#[trigger] final(world).units@[i]),
        extends(old(sink).view(), final(sink).view()),
{
    let ghost o = *world;
    let ghost ev0 = sink.view();
    proof {
        assert(ev0.subrange(0, ev0.len() as int) =~= ev0);
    }
    let mut i: usize = 0;
    while i < tiles.len()
        invariant
            extends(ev0, sink.view()),
            same_frame(*world, o),
            world.territories == o.territories,
            i <= tiles@.len(),
            forall|j: int| 0 <= j < o.tiles@.len() ==> #[trigger] world.tiles@[j] == if among(tiles@, i as int, j) {
                cleared(o.tiles@[j])
            } else {
                o.tiles@[j]
            },
            forall|q: int| 0 <= q < world.units@.len() ==> o.units@.contains(#[trigger] world.units@[q]),
            forall|k: int| 0 <= k < tiles@.len() ==> (#[trigger] tiles@[k]).0 < o.tiles@.len(),
            others_tiles_kept(base@, *world, f@),
            forall|k: int| 0 <= k < tiles@.len() ==> held_by(base@, f@, #[trigger] tiles@[k]),
        decreases tiles@.len() - i,
    {
        let t = tiles[i];
        let tile = *world.tile(t);
        let ghost w0 = *world;
        match tile.unit {
            Some(uid) => match world.unit_index(uid) {
                Some(ui) => {
                    let ghost us = world.units@;
                    let u = world.remove_unit_at(ui);
                    proof {
                        assert forall|q: int| 0 <= q < world.units@.len() implies o.units@.contains(#[trigger] world.units@[q]) by {
                            if q < ui {
                                assert(world.units@[q] == us[q]);
                                assert(us.contains(us[q]));
                            } else {
                                assert(world.units@[q] == us[q + 1]);
                                assert(us.contains(us[q + 1]));
                            }
                        }
                    }
                    let ghost evp = sink.view();
                    sink.push(Event::UnitDisbanded { unit: uid, kind: u.kind, faction: u.faction, at: t });
                    proof {
                        lemma_extends_push(evp, Event::UnitDisbanded { unit: uid, kind: u.kind, faction: u.faction, at: t });
                        lemma_extends_trans(ev0, evp, sink.view());
                    }
                },
                None => {},
            },
            None => {},
        }
        let mut cleared = tile;
        cleared.unit = None;
        cleared.owner = None;
        cleared.territory = None;
        if cleared.kind == TileKind::Capital {
            cleared.kind = TileKind::Empty;
        }
        world.set_tile(t, cleared);
        proof {
            assert(among(tiles@, i + 1, t.0 as int));
            assert forall|j: int| 0 <= j < o.tiles@.len() implies #[trigger] world.tiles@[j] == if among(tiles@, i + 1, j) {
                crate::territory::cleared(o.tiles@[j])
            } else {
                o.tiles@[j]
            } by {
                if j != t.0 {
                    if among(tiles@, i + 1, j) {
                        let k = choose|k: int| 0 <= k < i + 1 && (#[trigger] tiles@[k]).0 == j;
                        assert(k != i);
                        assert(among(tiles@, i as int, j));
                    }
                    assert(world.tiles@[j] == w0.tiles@[j]);
                }
            }
        }
        i = i + 1;
    }
}

/// Clear the territory reference of every tile the faction owns.
fn clear_refs(world: &mut World, faction: Faction, base: Ghost<World>)
    requires
        old(world).wf(),
        others_tiles_kept(base@, *old(world), faction),
    ensures
        same_frame(*final(world), *old(world)),
        final(world).territories == old(world).territories,
        final(world).units == old(world).units,
        others_tiles_kept(base@, *final(world), faction),
        forall|j: int| 0 <= j < old(world).tiles@.len() ==> #[trigger] final(world).tiles@[j] == if old(world).tiles@[j].owner == Some(faction) {
            Tile { territory: None, ..old(world).tiles@[j] }
        } else {
            old(world).tiles@[j]
        },
{
    let ghost o = *world;
    let n = world.tiles.len();
    let mut i: usize = 0;
    while i < n
        invariant
            same_frame(*world, o),
            world.territories == o.territories,
            world.units == o.units,
            n == world.tiles@.len(),
            n <= u32::MAX,
            i <= n,
            others_tiles_kept(base@, *world, faction),
            forall|j: int| 0 <= j < n ==> #[trigger] world.tiles@[j] == if j < i && o.tiles@[j].owner == Some(faction) {
                Tile { territory: None, ..o.tiles@[j] }
            } else {
                o.tiles@[j]
            },
        decreases n - i,
    {
        let t = TileId(i as u32);
        let tile = *world.tile(t);
        if tile.owner == Some(faction) {
            let mut cleared = tile;
            cleared.territory = None;
            world.set_tile(t, cleared);
        }
        i = i + 1;
    }
}

/// Write one rebuilt territory into the map.
fn place(world: &mut World, faction: Faction, r: &Rebuilt, base: Ghost<World>)
    requires
        old(world).wf(),
        base@.wf(),
        rebuilt_ok(*r, old(world).tiles@.len(), old(world).counters().1),
        others_tiles_kept(base@, *old(world), faction),
        rebuilt_held(*r, base@, faction),
        rebuilt_ours(*r, base@, faction),
        others_territories_kept(base@, *old(world), faction),
    ensures
        same_frame(*final(world), *old(world)),
        final(world).units == old(world).units,
        others_tiles_kept(base@, *final(world), faction),
        others_territories_kept(base@, *final(world), faction),
        forall|j: int| 0 <= j < old(world).tiles@.len() ==> #[trigger] final(world).tiles@[j] == placed(old(world).tiles@[j], j, *r),
        find_territory(final(world).territories@, r.territory.id) matches Some(t) && t@ == r.territory@,
        forall|id: TerritoryId| id != r.territory.id ==> #[trigger] find_territory(final(world).territories@, id) == find_territory(
            old(world).territories@,
            id,
        ),
{
    let ghost o = *world;
    let mut i: usize = 0;
    while i < r.retired_capitals.len()
        invariant
            same_frame(*world, o),
            world.units == o.units,
            rebuilt_ok(*r, o.tiles@.len(), o.counters().1),
            i <= r.retired_capitals@.len(),
            others_tiles_kept(base@, *world, faction),
            rebuilt_held(*r, base@, faction),
            world.territories == o.territories,
            forall|j: int| 0 <= j < o.tiles@.len() ==> #[trigger] world.tiles@[j] == if among(r.retired_capitals@, i as int, j) {
                Tile { kind: TileKind::Empty, ..o.tiles@[j] }
            } else {
                o.tiles@[j]
            },
        decreases r.retired_capitals@.len() - i,
    {
        let t = r.retired_capitals[i];
        let mut tile = *world.tile(t);
        tile.kind = TileKind::Empty;
        let ghost w0 = *world;
        world.set_tile(t, tile);
        proof {
            assert(among(r.retired_capitals@, i + 1, t.0 as int));
            assert forall|j: int| 0 <= j < o.tiles@.len() implies #[trigger] world.tiles@[j] == if among(r.retired_capitals@, i + 1, j) {
                Tile { kind: TileKind::Empty, ..o.tiles@[j] }
            } else {
                o.tiles@[j]
            } by {
                if j != t.0 {
                    if among(r.retired_capitals@, i + 1, j) {
                        let k = choose|k: int| 0 <= k < i + 1 && (#[trigger] r.retired_capitals@[k]).0 == j;
                        assert(among(r.retired_capitals@, i as int, j));
                    }
                    assert(world.tiles@[j] == w0.tiles@[j]);
                }
            }
        }
        i = i + 1;
    }
    let ghost o1 = *world;
    proof {
        assert(r.retired_capitals@.len() == i);
    }
    let id = r.territory.id;
    let mut i: usize = 0;
    while i < r.territory.tiles.len()
        invariant
            same_frame(*world, o),
            world.units == o.units,
            rebuilt_ok(*r, o.tiles@.len(), o.counters().1),
            i <= r.territory.tiles@.len(),
            others_tiles_kept(base@, *world, faction),
            rebuilt_held(*r, base@, faction),
            world.territories == o.territories,
            id == r.territory.id,
            o1.tiles@.len() == o.tiles@.len(),
            forall|j: int| 0 <= j < o.tiles@.len() ==> #[trigger] world.tiles@[j] == if among(r.territory.tiles@, i as int, j) {
                Tile { territory: Some(id), ..o1.tiles@[j] }
            } else {
                o1.tiles@[j]
            },
        decreases r.territory.tiles@.len() - i,
    {
        let t = r.territory.tiles[i];
        let mut tile = *world.tile(t);
        tile.territory = Some(id);
        let ghost w0 = *world;
        world.set_tile(t, tile);
        proof {
            assert(among(r.territory.tiles@, i + 1, t.0 as int));
            assert forall|j: int| 0 <= j < o.tiles@.len() implies #[trigger] world.tiles@[j] == if among(r.territory.tiles@, i + 1, j) {
                Tile { territory: Some(id), ..o1.tiles@[j] }
            } else {
                o1.tiles@[j]
            } by {
                if j != t.0 {
                    if among(r.territory.tiles@, i + 1, j) {
                        let k = choose|k: int| 0 <= k < i + 1 && (#[trigger] r.territory.tiles@[k]).0 == j;
                        assert(among(r.territory.tiles@, i as int, j));
                    }
                    assert(world.tiles@[j] == w0.tiles@[j]);
                }
            }
        }
        i = i + 1;
    }
    proof {
        assert(r.territory.tiles@.len() == i);
    }
    let mut cap = *world.tile(r.territory.capital);
    cap.kind = TileKind::Capital;
    world.set_tile(r.territory.capital, cap);
    proof {
        assert forall|j: int| 0 <= j < o.tiles@.len() implies #[trigger] world.tiles@[j] == placed(o.tiles@[j], j, *r) by {
            assert(o1.tiles@[j] == if among(r.retired_capitals@, r.retired_capitals@.len() as int, j) {
                Tile { kind: TileKind::Empty, ..o.tiles@[j] }
            } else {
                o.tiles@[j]
            });
        }
    }
    let t = r.territory.duplicate();
    let ghost before = *world;
    world.put_territory(t);
    proof {
        let rid = r.territory.id;
        lemma_territory_pos_from(base@.territories@, rid, 0);
        if find_territory(base@.territories@, rid) is Some {
            let p = territory_pos(base@.territories@, rid);
            assert(base@.territories@[p].id == rid);
        }
        assert forall|id: TerritoryId|
            kept_if_other(#[trigger] find_territory(base@.territories@, id), find_territory(world.territories@, id), faction) by {
            assert(kept_if_other(find_territory(base@.territories@, id), find_territory(before.territories@, id), faction));
            if id != rid {
                assert(find_territory(world.territories@, id) == find_territory(before.territories@, id));
            }
        }
        assert forall|id: TerritoryId|
            kept_if_other(#[trigger] find_territory(world.territories@, id), find_territory(base@.territories@, id), faction) by {
            if id == rid {
                assert(t.faction == faction);
            } else {
                assert(find_territory(world.territories@, id) == find_territory(before.territories@, id));
                assert(kept_if_other(find_territory(before.territories@, id), find_territory(base@.territories@, id), faction));
            }
        }
    }
}

/// Swap the rebuilt territories into the world and report the difference.
fn commit(
    world: &mut World,
    faction: Faction,
    old_ids: &Vec<TerritoryId>,
    rebuilt: Vec<Rebuilt>,
    disbanded: Vec<(TerritoryId, Vec<TileId>)>,
    sink: &mut EventSink,
    base: Ghost<World>,
)
    requires
        old(world).wf(),
        forall|i: int| 0 <= i < rebuilt@.len() ==> rebuilt_ok(#[trigger] rebuilt@[i], old(world).tiles@.len(), old(world).counters().1),
        forall|i: int, k: int| 0 <= i < disbanded@.len() && 0 <= k < disbanded@[i].1@.len() ==> (#[trigger] disbanded@[i].1@[k]).0 < old(world).tiles@.len(),
        others_tiles_kept(base@, *old(world), faction),
        forall|i: int| 0 <= i < rebuilt@.len() ==> rebuilt_held(#[trigger] rebuilt@[i], base@, faction),
        forall|i: int, k: int| 0 <= i < disbanded@.len() && 0 <= k < disbanded@[i].1@.len() ==> held_by(base@, faction, #[trigger] disbanded@[i].1@[k]),
        base@.wf(),
        forall|i: int| 0 <= i < rebuilt@.len() ==> rebuilt_ours(#[trigger] rebuilt@[i], base@, faction),
        others_territories_kept(base@, *old(world), faction),
        ids_distinct(rebuilt@),
    ensures
        same_frame(*final(world), *old(world)),
        others_tiles_kept(base@, *final(world), faction),
        others_territories_kept(base@, *final(world), faction),
        forall|id: TerritoryId| from_rebuilt(#[trigger] find_territory(final(world).territories@, id), rebuilt@, rebuilt@.len() as int, faction),
        forall|j: int| 0 <= j < rebuilt@.len() ==> ours(*final(world), faction, (#[trigger] rebuilt@[j]).territory.id),
        forall|j: int, k: int| 0 <= j < disbanded@.len() && 0 <= k < disbanded@[j].1@.len() ==> final(world).tiles@[(#[trigger] disbanded@[j].1@[k]).0 as int].owner is None,
        forall|j: int| 0 <= j < old(world).tiles@.len() ==> #[trigger] final(world).tiles@[j] == committed(
            old(world).tiles@[j], j, faction, disbanded@, rebuilt@),
        forall|i: int| 0 <= i < final(world).units@.len() ==> old(world).units@.contains(#[trigger] final(world).units@[i]),
        forall|j: int| 0 <= j < rebuilt@.len() ==> (find_territory(final(world).territories@, (#[trigger] rebuilt@[j]).territory.id) matches Some(t)
            && t@ == rebuilt@[j].territory@),
        extends(old(sink).view(), final(sink).view()),
        forall|j: int| 0 <= j < disbanded@.len() ==> final(sink).view().contains(disbanded_event(#[trigger] disbanded@[j], faction)),
        forall|j: int| 0 <= j < rebuilt@.len() ==> rebuilt_reported(final(sink).view(), #[trigger] rebuilt@[j]),
        forall|q: int| 0 <= q < old_ids@.len() && !survives(rebuilt@, #[trigger] old_ids@[q]) ==> final(sink).view().contains(
            Event::TerritoryDissolved { territory: old_ids@[q], faction },
        ),
{
    let ghost o = *world;
    let ghost ev0 = sink.view();
    proof {
        assert(ev0.subrange(0, ev0.len() as int) =~= ev0);
    }
    world.drop_territories_of(faction);
    proof {
        assert forall|id: TerritoryId|
            kept_if_other(#[trigger] find_territory(base@.territories@, id), find_territory(world.territories@, id), faction) by {
            assert(kept_if_other(find_territory(base@.territories@, id), find_territory(o.territories@, id), faction));
            assert(find_territory(world.territories@, id) == match find_territory(o.territories@, id) {
                Some(x) => if x.faction == faction { None } else { Some(x) },
                None => None,
            });
        }
        assert forall|id: TerritoryId|
            kept_if_other(#[trigger] find_territory(world.territories@, id), find_territory(base@.territories@, id), faction) by {
            assert(kept_if_other(find_territory(o.territories@, id), find_territory(base@.territories@, id), faction));
            assert(find_territory(world.territories@, id) == match find_territory(o.territories@, id) {
                Some(x) => if x.faction == faction { None } else { Some(x) },
                None => None,
            });
        }
    }
    let mut i: usize = 0;
    while i < disbanded.len()
        invariant
            same_frame(*world, o),
            i <= disbanded@.len(),
            forall|j: int, k: int| 0 <= j < disbanded@.len() && 0 <= k < disbanded@[j].1@.len() ==> (#[trigger] disbanded@[j].1@[k]).0 < o.tiles@.len(),
            others_tiles_kept(base@, *world, faction),
            forall|j: int, k: int| 0 <= j < disbanded@.len() && 0 <= k < disbanded@[j].1@.len() ==> held_by(base@, faction, #[trigger] disbanded@[j].1@[k]),
            others_territories_kept(base@, *world, faction),
            base@.wf(),
            forall|id: TerritoryId| from_rebuilt(#[trigger] find_territory(world.territories@, id), rebuilt@, 0, faction),
            forall|j: int, k: int| 0 <= j < i && 0 <= k < disbanded@[j].1@.len() ==> world.tiles@[(#[trigger] disbanded@[j].1@[k]).0 as int].owner is None,
            forall|j: int| 0 <= j < o.tiles@.len() ==> #[trigger] world.tiles@[j] == if in_disbanded(disbanded@, i as int, j) {
                cleared(o.tiles@[j])
            } else {
                o.tiles@[j]
            },
            forall|q: int| 0 <= q < world.units@.len() ==> o.units@.contains(#[trigger] world.units@[q]),
            extends(ev0, sink.view()),
            forall|j: int| 0 <= j < i ==> sink.view().contains(disbanded_event(#[trigger] disbanded@[j], faction)),
        decreases disbanded@.len() - i,
    {
        let (id, tiles) = &disbanded[i];
        let ghost w0 = *world;
        let ghost evi = sink.view();
        disband_tiles(world, tiles, sink, base, Ghost(faction));
        proof {
            assert forall|q: int| 0 <= q < world.units@.len() implies o.units@.contains(#[trigger] world.units@[q]) by {
                assert(w0.units@.contains(world.units@[q]));
                let p = choose|p: int| 0 <= p < w0.units@.len() && w0.units@[p] == world.units@[q];
                assert(o.units@.contains(w0.units@[p]));
            }
            assert forall|j: int| 0 <= j < o.tiles@.len() implies #[trigger] world.tiles@[j] == if in_disbanded(disbanded@, i + 1, j) {
                cleared(o.tiles@[j])
            } else {
                o.tiles@[j]
            } by {
                assert(tiles@ == disbanded@[i as int].1@);
                if in_disbanded(disbanded@, i + 1, j) {
                    let q = choose|q: int| 0 <= q < i + 1 && among((#[trigger] disbanded@[q]).1@, disbanded@[q].1@.len() as int, j);
                    if q < i {
                        assert(in_disbanded(disbanded@, i as int, j));
                    }
                } else {
                    assert(!among(disbanded@[i as int].1@, disbanded@[i as int].1@.len() as int, j));
                    if in_disbanded(disbanded@, i as int, j) {
                        let q = choose|q: int| 0 <= q < i && among((#[trigger] disbanded@[q]).1@, disbanded@[q].1@.len() as int, j);
                        assert(among(disbanded@[q].1@, disbanded@[q].1@.len() as int, j));
                    }
                }
            }
        }
        proof {
            assert forall|j: int, k: int| 0 <= j < i + 1 && 0 <= k < disbanded@[j].1@.len() implies world.tiles@[(#[trigger] disbanded@[j].1@[k]).0 as int].owner is None by {
                let x = disbanded@[j].1@[k].0 as int;
                if j == i {
                    assert(among(tiles@, tiles@.len() as int, x));
                } else {
                    assert(w0.tiles@[x].owner is None);
                }
            }
        }
        #[verifier::truncate]
        let count = tiles.len() as u32;
        let ghost evd = sink.view();
        sink.push(Event::TerritoryDisbanded { territory: *id, faction, tiles: count });
        proof {
            lemma_extends_push(evd, Event::TerritoryDisbanded { territory: *id, faction, tiles: count });
            lemma_extends_trans(evi, evd, sink.view());
            lemma_extends_trans(ev0, evi, sink.view());
            assert(disbanded_event(disbanded@[i as int], faction) == Event::TerritoryDisbanded { territory: *id, faction, tiles: count });
            assert(sink.view()[sink.view().len() - 1] == Event::TerritoryDisbanded { territory: *id, faction, tiles: count });
            assert forall|j: int| 0 <= j < i + 1 implies sink.view().contains(disbanded_event(#[trigger] disbanded@[j], faction)) by {
                if j < i {
                    lemma_extends_contains(evi, sink.view(), disbanded_event(disbanded@[j], faction));
                }
            }
        }
        i = i + 1;
    }
    let ghost ev_d = sink.view();
    proof {
        assert(ev_d.subrange(0, ev_d.len() as int) =~= ev_d);
    }
    let ghost w1 = *world;
    clear_refs(world, faction, base);
    let ghost w3 = *world;
    proof {
        assert forall|j: int, k: int| 0 <= j < disbanded@.len() && 0 <= k < disbanded@[j].1@.len() implies world.tiles@[(#[trigger] disbanded@[j].1@[k]).0 as int].owner is None by {
            assert(w1.tiles@[disbanded@[j].1@[k].0 as int].owner is None);
        }
    }
    let mut surviving: Vec<TerritoryId> = Vec::new();
    let mut descendants: Vec<(TerritoryId, Vec<TerritoryId>)> = Vec::new();
    let mut i: usize = 0;
    while i < rebuilt.len()
        invariant
            same_frame(*world, o),
            i <= rebuilt@.len(),
            forall|j: int| 0 <= j < rebuilt@.len() ==> rebuilt_ok(#[trigger] rebuilt@[j], o.tiles@.len(), o.counters().1),
            others_tiles_kept(base@, *world, faction),
            forall|j: int| 0 <= j < rebuilt@.len() ==> rebuilt_held(#[trigger] rebuilt@[j], base@, faction),
            forall|j: int| 0 <= j < rebuilt@.len() ==> rebuilt_ours(#[trigger] rebuilt@[j], base@, faction),
            others_territories_kept(base@, *world, faction),
            base@.wf(),
            parents_ascending(descendants@),
            forall|id: TerritoryId| from_rebuilt(#[trigger] find_territory(world.territories@, id), rebuilt@, i as int, faction),
            forall|j: int| 0 <= j < i ==> ours(*world, faction, (#[trigger] rebuilt@[j]).territory.id),
            forall|j: int, k: int| 0 <= j < disbanded@.len() && 0 <= k < disbanded@[j].1@.len() ==> (#[trigger] disbanded@[j].1@[k]).0 < o.tiles@.len(),
            forall|j: int, k: int| 0 <= j < disbanded@.len() && 0 <= k < disbanded@[j].1@.len() ==> world.tiles@[(#[trigger] disbanded@[j].1@[k]).0 as int].owner is None,
            w3.tiles@.len() == o.tiles@.len(),
            forall|j: int| 0 <= j < o.tiles@.len() ==> #[trigger] world.tiles@[j] == placed_upto(w3.tiles@[j], j, rebuilt@, i as int),
            world.units == w3.units,
            forall|q: int| 0 <= q < w3.units@.len() ==> o.units@.contains(#[trigger] w3.units@[q]),
            ids_distinct(rebuilt@),
            forall|a: int| 0 <= a < i ==> (find_territory(world.territories@, (#[trigger] rebuilt@[a]).territory.id) matches Some(t)
                && t@ == rebuilt@[a].territory@),
            extends(ev0, ev_d),
            extends(ev_d, sink.view()),
            forall|j: int| 0 <= j < disbanded@.len() ==> ev_d.contains(disbanded_event(#[trigger] disbanded@[j], faction)),
            forall|a: int| 0 <= a < i ==> rebuilt_reported(sink.view(), #[trigger] rebuilt@[a]),
            surviving@.len() == i,
            forall|a: int| 0 <= a < i ==> #[trigger] surviving@[a] == rebuilt@[a].territory.id,
        decreases rebuilt@.len() - i,
    {
        let r = &rebuilt[i];
        let ghost w2 = *world;
        place(world, faction, r, base);
        proof {
            assert(rebuilt@[i as int] == *r);
            assert forall|a: int| 0 <= a < i + 1 implies (find_territory(world.territories@, (#[trigger] rebuilt@[a]).territory.id) matches Some(t)
                && t@ == rebuilt@[a].territory@) by {
                if a < i {
                    assert(rebuilt@[a].territory.id != rebuilt@[i as int].territory.id);
                    assert(find_territory(w2.territories@, rebuilt@[a].territory.id) matches Some(t) && t@ == rebuilt@[a].territory@);
                }
            }
            assert forall|j: int| 0 <= j < o.tiles@.len() implies #[trigger] world.tiles@[j] == placed_upto(w3.tiles@[j], j, rebuilt@, i + 1) by {
                assert(world.tiles@[j] == placed(w2.tiles@[j], j, *r));
            }
        }
        proof {
            assert forall|id: TerritoryId| from_rebuilt(#[trigger] find_territory(world.territories@, id), rebuilt@, i + 1, faction) by {
                if id == r.territory.id {
                    assert(rebuilt@[i as int] == *r);
                } else {
                    assert(from_rebuilt(find_territory(w2.territories@, id), rebuilt@, i as int, faction));
                }
            }
            assert forall|j: int| 0 <= j < i + 1 implies ours(*world, faction, (#[trigger] rebuilt@[j]).territory.id) by {
                if j == i {
                    assert(rebuilt@[j] == *r);
                    assert(r.territory@.faction == faction);
                } else if rebuilt@[j].territory.id != r.territory.id {
                    assert(ours(w2, faction, rebuilt@[j].territory.id));
                } else {
                    assert(r.territory@.faction == faction);
                }
            }
            assert forall|j: int, k: int| 0 <= j < disbanded@.len() && 0 <= k < disbanded@[j].1@.len() implies world.tiles@[(#[trigger] disbanded@[j].1@[k]).0 as int].owner is None by {
                let x = disbanded@[j].1@[k].0 as int;
                assert(0 <= x < o.tiles@.len());
                assert(world.tiles@[x] == placed(w2.tiles@[x], x, *r));
                assert(w2.tiles@[x].owner is None);
            }
        }
        let id = r.territory.id;
        let ghost evr = sink.view();
        surviving.push(id);
        add_descendant(&mut descendants, id, id);
        let mut k: usize = 0;
        while k < r.absorbed.len()
            invariant
                k <= r.absorbed@.len(),
                parents_ascending(descendants@),
            decreases r.absorbed@.len() - k,
        {
            add_descendant(&mut descendants, r.absorbed[k], id);
            k = k + 1;
        }
        if r.is_new {
            sink.push(
                Event::TerritoryCreated {
                    territory: id,
                    faction,
                    capital: r.territory.capital,
                    tiles: r.territory.size(),
                    wheat: r.territory.wheat,
                    gold: r.territory.gold,
                },
            );
            proof {
                assert(rebuilt_ours(rebuilt@[i as int], base@, faction));
                let e = Event::TerritoryCreated {
                    territory: r.territory.id, faction: r.territory.faction, capital: r.territory.capital,
                    tiles: r.territory.tiles@.len() as u32, wheat: r.territory.wheat, gold: r.territory.gold,
                };
                assert(sink.view()[sink.view().len() - 1] == e);
                assert(sink.view().contains(e));
            }
        } else if r.previous_capital != Some(r.territory.capital) {
            sink.push(Event::CapitalRelocated { territory: id, from: r.previous_capital, to: r.territory.capital });
            proof {
                let e = Event::CapitalRelocated { territory: r.territory.id, from: r.previous_capital, to: r.territory.capital };
                assert(sink.view()[sink.view().len() - 1] == e);
                assert(sink.view().contains(e));
            }
        }
        let ghost evm = sink.view();
        if r.absorbed.len() > 0 {
            sink.push(Event::TerritoriesMerged { kept: id, absorbed: r.absorbed.clone() });
            proof {
                assert(merged_into(sink.view()[evm.len() as int], id));
            }
        }
        proof {
            assert(sink.view().subrange(0, evm.len() as int) =~= evm);
            assert(evm.subrange(0, evr.len() as int) =~= evr) by {
                assert(evm.len() >= evr.len());
            }
            lemma_extends_trans(evr, evm, sink.view());
            lemma_extends_trans(ev_d, evr, sink.view());
            assert(rebuilt_reported(sink.view(), rebuilt@[i as int])) by {
                let t = r.territory;
                if r.is_new {
                    lemma_extends_contains(evm, sink.view(), Event::TerritoryCreated {
                        territory: t.id, faction: t.faction, capital: t.capital, tiles: t.tiles@.len() as u32, wheat: t.wheat, gold: t.gold,
                    });
                }
                if !r.is_new && r.previous_capital != Some(t.capital) {
                    lemma_extends_contains(evm, sink.view(), Event::CapitalRelocated { territory: t.id, from: r.previous_capital, to: t.capital });
                }
            }
            assert forall|a: int| 0 <= a < i + 1 implies rebuilt_reported(sink.view(), #[trigger] rebuilt@[a]) by {
                if a < i {
                    lemma_reported_extends(evr, sink.view(), rebuilt@[a]);
                }
            }
        }
        i = i + 1;
    }
    let ghost ev_r = sink.view();
    proof {
        assert(ev_r.subrange(0, ev_r.len() as int) =~= ev_r);
    }
    let mut i: usize = 0;
    while i < descendants.len()
        invariant
            i <= descendants@.len(),
            extends(ev_r, sink.view()),
        decreases descendants@.len() - i,
    {
        let (parent, children) = &descendants[i];
        if children.len() > 1 && contains_id(old_ids, *parent) {
            let ghost evs = sink.view();
            sink.push(Event::TerritorySplit { parent: *parent, into: children.clone() });
            proof {
                assert(sink.view().subrange(0, evs.len() as int) =~= evs);
                lemma_extends_trans(ev_r, evs, sink.view());
            }
        }
        i = i + 1;
    }
    let mut i: usize = 0;
    let ghost ev_s = sink.view();
    proof {
        assert(ev_s.subrange(0, ev_s.len() as int) =~= ev_s);
    }
    while i < old_ids.len()
        invariant
            i <= old_ids@.len(),
            extends(ev_r, ev_s),
            extends(ev_s, sink.view()),
            surviving@.len() == rebuilt@.len(),
            forall|a: int| 0 <= a < rebuilt@.len() ==> #[trigger] surviving@[a] == rebuilt@[a].territory.id,
            forall|q: int| 0 <= q < i && !survives(rebuilt@, #[trigger] old_ids@[q]) ==> sink.view().contains(
                Event::TerritoryDissolved { territory: old_ids@[q], faction },
            ),
        decreases old_ids@.len() - i,
    {
        let id = old_ids[i];
        let ghost evq = sink.view();
        if !contains_id(&surviving, id) {
            sink.push(Event::TerritoryDissolved { territory: id, faction });
        }
        proof {
            assert(sink.view().subrange(0, evq.len() as int) =~= evq);
            lemma_extends_trans(ev_s, evq, sink.view());
            if !survives(rebuilt@, id) {
                assert(!surviving@.contains(id)) by {
                    if surviving@.contains(id) {
                        let a = choose|a: int| 0 <= a < surviving@.len() && surviving@[a] == id;
                        assert(rebuilt@[a].territory.id == id);
                    }
                }
                assert(sink.view()[sink.view().len() - 1] == Event::TerritoryDissolved { territory: id, faction });
            }
            assert forall|q: int| 0 <= q < i + 1 && !survives(rebuilt@, #[trigger] old_ids@[q]) implies sink.view().contains(
                Event::TerritoryDissolved { territory: old_ids@[q], faction },
            ) by {
                if q < i {
                    lemma_extends_contains(evq, sink.view(), Event::TerritoryDissolved { territory: old_ids@[q], faction });
                }
            }
        }
        i = i + 1;
    }
    proof {
        lemma_extends_trans(ev_r, ev_s, sink.view());
        lemma_extends_trans(ev_d, ev_r, sink.view());
        lemma_extends_trans(ev0, ev_d, sink.view());
        assert forall|j: int| 0 <= j < disbanded@.len() implies sink.view().contains(disbanded_event(#[trigger] disbanded@[j], faction)) by {
            lemma_extends_contains(ev_d, sink.view(), disbanded_event(disbanded@[j], faction));
        }
        assert forall|j: int| 0 <= j < rebuilt@.len() implies rebuilt_reported(sink.view(), #[trigger] rebuilt@[j]) by {
            lemma_reported_extends(ev_r, sink.view(), rebuilt@[j]);
        }
    }
}


// ---------------------------------------------------------------------------
// Recomputing a faction's territories
// ---------------------------------------------------------------------------

impl Fragment {
    fn duplicate(&self) -> (f: Fragment)
        ensures
            f.parent == self.parent,
            f.tiles@ == self.tiles@,
            f.wheat == self.wheat,
            f.gold == self.gold,
            f.capital == self.capital,
            f.heir == self.heir,
    {
        Fragment {
            parent: self.parent,
            tiles: copy_tiles(&self.tiles),
            wheat: self.wheat,
            gold: self.gold,
            capital: self.capital,
            heir: self.heir,
        }
    }
}

fn copy_tiles(v: &Vec<TileId>) -> (out: Vec<TileId>)
    ensures
        out@ == v@,
{
    let mut out: Vec<TileId> = Vec::new();
    let mut i: usize = 0;
    while i < v.len()
        invariant
            i <= v@.len(),
            out@ == v@.take(i as int),
        decreases v@.len() - i,
    {
        out.push(v[i]);
        proof {
            assert(out@ =~= v@.take(i + 1));
        }
        i = i + 1;
    }
    proof {
        assert(v@.take(i as int) =~= v@);
    }
    out
}

/// Whether `a` goes before `b` among a component's contributors: larger
/// first, lower parent id on a tie.
fn goes_before(a: &Fragment, b: &Fragment) -> (r: bool)
    ensures
        r == before_spec(*a, *b),
{
    a.tiles.len() > b.tiles.len() || (a.tiles.len() == b.tiles.len() && a.parent.0 < b.parent.0)
}

/// Larger first, lower parent id on a tie.
pub open spec fn before_spec(a: Fragment, b: Fragment) -> bool {
    a.tiles@.len() > b.tiles@.len() || (a.tiles@.len() == b.tiles@.len() && a.parent.0 < b.parent.0)
}

/// Contributors in decision order (larger first, lower parent id on a
/// tie), keeping the given order among equals.
fn sort_fragments(v: Vec<Fragment>, n: Ghost<nat>, c: Ghost<u32>) -> (out: Vec<Fragment>)
    requires
        forall|i: int| 0 <= i < v@.len() ==> fragment_ok(#[trigger] v@[i], n@) && v@[i].parent.0 < c@,
    ensures
        out@.len() == v@.len(),
        forall|i: int| 0 <= i < out@.len() ==> fragment_ok(#[trigger] out@[i], n@) && out@[i].parent.0 < c@,
        forall|i: int| 0 <= i < out@.len() ==> v@.contains(#[trigger] out@[i]),
        forall|a: int, b: int| 0 <= a < b < out@.len() ==> !before_spec(#[trigger] out@[b], #[trigger] out@[a]),
{
    let mut v = v;
    let ghost src = v@;
    let total = v.len();
    let mut out: Vec<Fragment> = Vec::new();
    let mut i: usize = 0;
    while v.len() > 0
        invariant
            total == src.len(),
            v@ == src.skip(i as int),
            i <= src.len(),
            out@.len() == i,
            forall|j: int| 0 <= j < src.len() ==> fragment_ok(#[trigger] src[j], n@) && src[j].parent.0 < c@,
            forall|j: int| 0 <= j < out@.len() ==> fragment_ok(#[trigger] out@[j], n@) && out@[j].parent.0 < c@,
            forall|j: int| 0 <= j < out@.len() ==> src.contains(#[trigger] out@[j]),
            forall|a: int, b: int| 0 <= a < b < out@.len() ==> !before_spec(#[trigger] out@[b], #[trigger] out@[a]),
        decreases v@.len(),
    {
        proof {
            assert(src.skip(i as int).len() == src.len() - i);
        }
        let f = v.remove(0);
        proof {
            assert(f == src[i as int]);
            assert(v@ =~= src.skip(i + 1));
        }
        let mut p: usize = 0;
        while p < out.len() && !goes_before(&f, &out[p])
            invariant
                p <= out@.len(),
                forall|q: int| 0 <= q < p ==> !before_spec(f, #[trigger] out@[q]),
            decreases out@.len() - p,
        {
            p = p + 1;
        }
        let ghost before = out@;
        out.insert(p, f);
        proof {
            assert(p == before.len() || before_spec(f, before[p as int]));
            assert forall|a: int, b: int| 0 <= a < b < out@.len() implies !before_spec(#[trigger] out@[b], #[trigger] out@[a]) by {
                if b < p {
                    assert(out@[a] == before[a] && out@[b] == before[b]);
                } else if b == p {
                    assert(out@[a] == before[a]);
                } else if a < p {
                    assert(out@[a] == before[a] && out@[b] == before[b - 1]);
                } else if a == p {
                    assert(out@[b] == before[b - 1]);
                    if b - 1 > p {
                        assert(!before_spec(before[b - 1], before[p as int]));
                    }
                } else {
                    assert(out@[a] == before[a - 1] && out@[b] == before[b - 1]);
                }
            }
            assert forall|j: int| 0 <= j < out@.len() implies fragment_ok(#[trigger] out@[j], n@) && out@[j].parent.0 < c@
                && src.contains(out@[j]) by {
                if j < p {
                    assert(out@[j] == before[j]);
                } else if j > p {
                    assert(out@[j] == before[j - 1]);
                } else {
                    assert(src[i as int] == f);
                }
            }
        }
        i = i + 1;
    }
    out
}

/// The territories `f` ends with are the rebuilt ones, each a component of
/// the ground `f` owned.
proof fn lemma_rebuilt_components(o: World, w: World, faction: Faction, owned_list: Seq<TileId>, rb: Seq<Rebuilt>)
    requires
        o.tiles@.len() == o.topology.adj().len(),
        o.tiles@.len() <= u32::MAX,
        forall|t: TileId| #[trigger] owned_list.contains(t) <==> crate::state::owned_ids(o.tiles@, faction).contains(t.0 as int),
        forall|id: TerritoryId| from_rebuilt(#[trigger] find_territory(w.territories@, id), rb, rb.len() as int, faction),
        forall|i: int| 0 <= i < rb.len() ==> component_ok(o.topology.adj(), owned_list, (#[trigger] rb[i]).territory.tiles@),
    ensures
        forall|id: TerritoryId| component_if_ours(#[trigger] find_territory(w.territories@, id), o.topology.adj(), o.tiles@, faction),
{
    let n = o.tiles@.len();
    assert(member_mask(n, owned_list) =~= owned_mask(o.tiles@, faction)) by {
        assert forall|t: int| 0 <= t < n implies member_mask(n, owned_list)[t] == owned_mask(o.tiles@, faction)[t] by {
            if crate::tileset::has_tile(owned_list, t) {
                let i = choose|i: int| 0 <= i < owned_list.len() && owned_list[i].0 == t;
                assert(owned_list.contains(owned_list[i]));
            }
            if o.tiles@[t].owner == Some(faction) {
                let x = TileId(t as u32);
                assert(x.0 == t);
                assert(crate::state::owned_ids(o.tiles@, faction).contains(x.0 as int));
                assert(owned_list.contains(x));
                let i = choose|i: int| 0 <= i < owned_list.len() && owned_list[i] == x;
                assert(owned_list[i].0 == t);
            }
        }
    }
    assert forall|x: TileId| #[trigger] owned_list.contains(x) <==> (x.0 < o.tiles@.len() && o.tiles@[x.0 as int].owner == Some(faction)) by {
        assert(owned_list.contains(x) <==> crate::state::owned_ids(o.tiles@, faction).contains(x.0 as int));
    }
    assert forall|id: TerritoryId| component_if_ours(#[trigger] find_territory(w.territories@, id), o.topology.adj(), o.tiles@, faction) by {
        match find_territory(w.territories@, id) {
            Some(t) => {
                if t.faction == faction {
                    assert(from_rebuilt(find_territory(w.territories@, id), rb, rb.len() as int, faction));
                    let j = choose|j: int| 0 <= j < rb.len() && t@ == (#[trigger] rb[j]).territory@;
                    assert(component_ok(o.topology.adj(), owned_list, rb[j].territory.tiles@));
                    lemma_owned_component(o.topology.adj(), o.tiles@, faction, owned_list, t.tiles@);
                }
            },
            None => {},
        }
    }
}

/// Recompute every territory of `faction` after a change to which tiles it
/// owns. `focus` is the tile that caused the change (a captured tile), which
/// decides which capital survives a merge.
#[verifier::rlimit(100)]
#[verifier::spinoff_prover]
pub fn retopologize(world: &mut World, rules: &Ruleset, faction: Faction, focus: Option<TileId>, sink: &mut EventSink)
    requires
        old(world).wf(),
        old(world).counters().1 + old(world).tiles@.len() <= u32::MAX,
        match focus {
            Some(f) => f.0 < old(world).tiles@.len(),
            None => true,
        },
    ensures
        final(world).wf(),
        final(world).tiles@.len() == old(world).tiles@.len(),
        final(world).players == old(world).players,
        final(world).stats == old(world).stats,
        final(world).dominance_streak == old(world).dominance_streak,
        final(world).outcome == old(world).outcome,
        final(world).round == old(world).round,
        final(world).turn_index == old(world).turn_index,
        final(world).seed == old(world).seed,
        final(world).topology == old(world).topology,
        final(world).counters().0 == old(world).counters().0,
        final(world).counters().2 == old(world).counters().2,
        old(world).counters().1 <= final(world).counters().1 <= old(world).counters().1 + old(world).tiles@.len(),
        others_tiles_kept(*old(world), *final(world), faction),
        others_territories_kept(*old(world), *final(world), faction),
        forall|id: TerritoryId| component_if_ours(
            #[trigger] find_territory(final(world).territories@, id),
            old(world).topology.adj(),
            old(world).tiles@,
            faction,
        ),
        forall|j: int| 0 <= j < old(world).tiles@.len() ==> (#[trigger] final(world).tiles@[j]).terrain == old(world).tiles@[j].terrain
            && (final(world).tiles@[j].owner == old(world).tiles@[j].owner || final(world).tiles@[j].owner is None),
        forall|i: int| 0 <= i < final(world).units@.len() ==> old(world).units@.contains(#[trigger] final(world).units@[i]),
        forall|x: TileId| x.0 < final(world).tiles@.len() && (#[trigger] final(world).tiles@[x.0 as int]).owner == Some(faction)
            ==> named_territory_of(*final(world), faction, x),
        territories_apart(*final(world), faction),
{
    proof {
        use_type_invariant(&*world.topology);
    }
    let ghost o = *world;
    let n = world.tiles.len();
    let (owned_list, old_ids, fragments, components, tags) = prepare(world, faction);
    let ghost cv = lists_view(components@);
    proof {
        assert(world.tiles == o.tiles);
    }
    let mut rebuilt: Vec<Rebuilt> = Vec::new();
    let mut disbanded: Vec<(TerritoryId, Vec<TileId>)> = Vec::new();
    let mut claimed: Vec<TerritoryId> = Vec::new();
    let ghost mut src: Seq<int> = Seq::empty();
    let mut ci: usize = 0;
    while ci < components.len()
        invariant
            world.wf(),
            same_frame_except_counters(*world, o),
            n == world.tiles@.len(),
            n == o.tiles@.len(),
            ci <= components@.len(),
            components@.len() <= n,
            o.counters().1 <= world.counters().1 <= o.counters().1 + ci,
            o.counters().1 + n <= u32::MAX,
            world.counters().0 == o.counters().0,
            world.counters().2 == o.counters().2,
            cv == lists_view(components@),
            forall|q: int| 0 <= q < cv.len() ==> {
                &&& strictly_increasing(#[trigger] cv[q])
                &&& cv[q].len() > 0
                &&& forall|k: int| 0 <= k < cv[q].len() ==> (#[trigger] cv[q][k]).0 < n
            },
            world.tiles@.len() == world.topology.count(),
            n <= u32::MAX,
            match focus {
                Some(f) => f.0 < n,
                None => true,
            },
            tags@.len() == fragments@.len(),
            forall|i: int| 0 <= i < fragments@.len() ==> fragment_ok(#[trigger] fragments@[i], n as nat) && fragments@[i].parent.0 < o.counters().1,
            forall|i: int| 0 <= i < rebuilt@.len() ==> rebuilt_ok(#[trigger] rebuilt@[i], n as nat, world.counters().1),
            forall|i: int, k: int| 0 <= i < disbanded@.len() && 0 <= k < disbanded@[i].1@.len() ==> (#[trigger] disbanded@[i].1@[k]).0 < n,
            is_component_split(o.topology.adj(), owned_list@, cv),
            forall|x: TileId| #[trigger] owned_list@.contains(x) ==> held_by(o, faction, x),
            forall|i: int, q: int| 0 <= i < fragments@.len() && 0 <= q < fragments@[i].tiles@.len() ==> held_by(o, faction, #[trigger] fragments@[i].tiles@[q]),
            forall|i: int| 0 <= i < rebuilt@.len() ==> rebuilt_held(#[trigger] rebuilt@[i], o, faction),
            forall|i: int| 0 <= i < rebuilt@.len() ==> rebuilt_ours(#[trigger] rebuilt@[i], o, faction),
            forall|i: int| 0 <= i < rebuilt@.len() ==> component_ok(o.topology.adj(), owned_list@, (#[trigger] rebuilt@[i]).territory.tiles@),
            forall|i: int| 0 <= i < fragments@.len() ==> ours(o, faction, (#[trigger] fragments@[i]).parent),
            forall|i: int, k: int| 0 <= i < disbanded@.len() && 0 <= k < disbanded@[i].1@.len() ==> held_by(o, faction, #[trigger] disbanded@[i].1@[k]),
            ids_distinct(rebuilt@),
            forall|a: int| 0 <= a < rebuilt@.len() ==> (#[trigger] rebuilt@[a]).territory.id.0 >= o.counters().1
                || claimed@.contains(rebuilt@[a].territory.id),
            forall|k: int| 0 <= k < claimed@.len() ==> (#[trigger] claimed@[k]).0 < o.counters().1,
            forall|q: int| 0 <= q < ci ==> settled_component(rebuilt@, disbanded@, #[trigger] cv[q]),
            src.len() == rebuilt@.len(),
            forall|a: int| 0 <= a < rebuilt@.len() ==> 0 <= #[trigger] src[a] < ci
                && rebuilt@[a].territory.tiles@ == cv[src[a]],
            forall|a: int, b: int| 0 <= a < b < rebuilt@.len() ==> #[trigger] src[a] < #[trigger] src[b],
        decreases components@.len() - ci,
    {
        let component = &components[ci];
        proof {
            assert(component@ == cv[ci as int]);
            assert(component_ok(o.topology.adj(), owned_list@, cv[ci as int]));
            assert forall|k: int| 0 <= k < component@.len() implies held_by(o, faction, #[trigger] component@[k]) by {
                assert(cv[ci as int].contains(component@[k]));
                assert(owned_list@.contains(component@[k]));
            }
        }
        let mut contributors: Vec<Fragment> = Vec::new();
        let mut j: usize = 0;
        while j < fragments.len()
            invariant
                j <= fragments@.len(),
                tags@.len() == fragments@.len(),
                forall|i: int| 0 <= i < fragments@.len() ==> fragment_ok(#[trigger] fragments@[i], n as nat) && fragments@[i].parent.0 < o.counters().1,
                forall|i: int| 0 <= i < contributors@.len() ==> fragment_ok(#[trigger] contributors@[i], n as nat) && contributors@[i].parent.0 < o.counters().1,
                forall|i: int, q: int| 0 <= i < fragments@.len() && 0 <= q < fragments@[i].tiles@.len() ==> held_by(o, faction, #[trigger] fragments@[i].tiles@[q]),
                forall|i: int, q: int| 0 <= i < contributors@.len() && 0 <= q < contributors@[i].tiles@.len() ==> held_by(o, faction, #[trigger] contributors@[i].tiles@[q]),
                forall|i: int| 0 <= i < fragments@.len() ==> ours(o, faction, (#[trigger] fragments@[i]).parent),
                forall|i: int| 0 <= i < contributors@.len() ==> ours(o, faction, (#[trigger] contributors@[i]).parent),
            decreases fragments@.len() - j,
        {
            if tags[j] == ci {
                let f = fragments[j].duplicate();
                contributors.push(f);
            }
            j = j + 1;
        }
        let ghost unsorted = contributors@;
        let contributors = sort_fragments(contributors, Ghost(n as nat), Ghost(o.counters().1));
        proof {
            assert forall|i: int, q: int| 0 <= i < contributors@.len() && 0 <= q < contributors@[i].tiles@.len() implies held_by(
                o,
                faction,
                #[trigger] contributors@[i].tiles@[q],
            ) by {
                assert(unsorted.contains(contributors@[i]));
                let j = choose|j: int| 0 <= j < unsorted.len() && unsorted[j] == contributors@[i];
                assert(unsorted[j].tiles@[q] == contributors@[i].tiles@[q]);
            }
            assert forall|i: int| 0 <= i < contributors@.len() implies ours(o, faction, (#[trigger] contributors@[i]).parent) by {
                assert(unsorted.contains(contributors@[i]));
                let j = choose|j: int| 0 <= j < unsorted.len() && unsorted[j] == contributors@[i];
                assert(ours(o, faction, unsorted[j].parent));
            }
        }
        let picked = capital_for(world, rules, component, &contributors, focus, Ghost(o), Ghost(faction));
        let (capital, retired) = match picked {
            Some(p) => p,
            None => {
                let id = if contributors.len() > 0 {
                    contributors[0].parent
                } else {
                    world.alloc_territory_id()
                };
                let tiles = copy_tiles(component);
                proof {
                    assert(tiles@ == cv[ci as int]);
                    lemma_settled_disbanded(rebuilt@, disbanded@, (id, tiles), cv, ci as int);
                }
                disbanded.push((id, tiles));
                ci = ci + 1;
                continue;
            },
        };
        let inherited = inherit_id(&contributors, &claimed, Ghost(o), Ghost(faction));
        let ghost claimed0 = claimed@;
        let ghost count0 = world.counters().1;
        let (id, is_new) = match inherited {
            Some(id) => {
                claimed.push(id);
                (id, false)
            },
            None => (world.alloc_territory_id(), true),
        };
        proof {
            assert forall|k: int| 0 <= k < claimed0.len() implies claimed@.contains(#[trigger] claimed0[k]) by {
                assert(claimed@[k] == claimed0[k]);
            }
            assert forall|a: int| 0 <= a < rebuilt@.len() implies (#[trigger] rebuilt@[a]).territory.id != id by {
                if rebuilt@[a].territory.id.0 < o.counters().1 {
                    assert(claimed0.contains(rebuilt@[a].territory.id));
                }
            }
        }
        let (previous_capital, wheat, gold, absorbed) = pooled(&contributors, id);
        let tiles = copy_tiles(component);
        let r = Rebuilt {
            territory: Territory { id, faction, capital, wheat, gold, tiles },
            is_new,
            previous_capital,
            absorbed,
            retired_capitals: retired,
        };
        proof {
            assert(rebuilt_ok(r, n as nat, world.counters().1));
            assert(rebuilt_held(r, o, faction));
            assert(rebuilt_ours(r, o, faction));
            assert(r.territory.tiles@ == cv[ci as int]);
        }
        let ghost rb0 = rebuilt@;
        proof {
            lemma_settled_rebuilt(rebuilt@, r, disbanded@, cv, ci as int);
        }
        rebuilt.push(r);
        proof {
            src = src.push(ci as int);
            assert forall|a: int| 0 <= a < rebuilt@.len() implies (#[trigger] rebuilt@[a]).territory.id.0 >= o.counters().1
                || claimed@.contains(rebuilt@[a].territory.id) by {
                if a < rb0.len() {
                    assert(rebuilt@[a] == rb0[a]);
                    if rb0[a].territory.id.0 < o.counters().1 {
                        let k = choose|k: int| 0 <= k < claimed0.len() && claimed0[k] == rb0[a].territory.id;
                        assert(claimed@.contains(claimed0[k]));
                    }
                } else if !is_new {
                    assert(claimed@[claimed@.len() - 1] == id);
                }
            }
        }
        ci = ci + 1;
    }
    install(world, faction, &old_ids, rebuilt, disbanded, sink, Ghost(o), Ghost(owned_list@), Ghost(cv), Ghost(src));
}

/// What rebuilding `faction`'s territories starts from: the tiles it owns,
/// its territories' ids, the pieces of them that are still connected, the
/// components of its ground, and which component each piece lies in.
#[verifier::rlimit(60)]
fn prepare(world: &World, faction: Faction) -> (res: (Vec<TileId>, Vec<TerritoryId>, Vec<Fragment>, Vec<Vec<TileId>>, Vec<usize>))
    requires
        world.wf(),
    ensures
        ({
            let (owned_list, old_ids, fragments, components, tags) = res;
            let n = world.tiles@.len();
            let cv = lists_view(components@);
            &&& forall|x: TileId| #[trigger] owned_list@.contains(x) <==> crate::state::owned_ids(world.tiles@, faction).contains(x.0 as int)
            &&& forall|x: TileId| #[trigger] owned_list@.contains(x) ==> held_by(*world, faction, x)
            &&& forall|k: int| 0 <= k < owned_list@.len() ==> (#[trigger] owned_list@[k]).0 < n
            &&& is_component_split(world.topology.adj(), owned_list@, cv)
            &&& components@.len() <= n
            &&& forall|q: int| 0 <= q < cv.len() ==> {
                &&& strictly_increasing(#[trigger] cv[q])
                &&& cv[q].len() > 0
                &&& forall|k: int| 0 <= k < cv[q].len() ==> (#[trigger] cv[q][k]).0 < n
            }
            &&& tags@.len() == fragments@.len()
            &&& forall|i: int| 0 <= i < fragments@.len() ==> fragment_ok(#[trigger] fragments@[i], n as nat) && fragments@[i].parent.0 < world.counters().1
            &&& forall|i: int, q: int| 0 <= i < fragments@.len() && 0 <= q < fragments@[i].tiles@.len() ==> held_by(*world, faction, #[trigger] fragments@[i].tiles@[q])
            &&& forall|i: int| 0 <= i < fragments@.len() ==> ours(*world, faction, (#[trigger] fragments@[i]).parent)
        }),
{
    proof {
        use_type_invariant(&*world.topology);
    }
    let ghost o = *world;
    proof {
        use_type_invariant(&*world.topology);
    }
    let n = world.tiles.len();
    let owned_list = world.tiles_of(faction);
    let mut owned: Vec<bool> = Vec::new();
    let mut t: usize = 0;
    while t < n
        invariant
            n == world.tiles@.len(),
            t <= n,
            owned@.len() == t,
            forall|j: int| 0 <= j < t ==> #[trigger] owned@[j] == (world.tiles@[j].owner == Some(faction)),
        decreases n - t,
    {
        owned.push(world.tiles[t].owner == Some(faction));
        t = t + 1;
    }
    let mut old_ids: Vec<TerritoryId> = Vec::new();
    let mut k: usize = 0;
    while k < world.territories.len()
        invariant
            k <= world.territories@.len(),
        decreases world.territories@.len() - k,
    {
        if world.territories[k].faction == faction {
            old_ids.push(world.territories[k].id);
        }
        k = k + 1;
    }
    let fragments = fragment(world, &owned, faction);
    let components = world.topology.components(&owned_list);
    let ghost cv = lists_view(components@);
    proof {
        assert forall|k: int| 0 <= k < owned_list@.len() implies (#[trigger] owned_list@[k]).0 < n && owned@[owned_list@[k].0 as int] by {
            assert(owned_list@.contains(owned_list@[k]));
        }
        if owned_list@.len() > 0 {
            lemma_pieces(world.topology.adj(), owned_list@, cv, owned@, n as nat);
        } else {
            assert(cv.len() == 0) by {
                if cv.len() > 0 {
                    assert(component_ok(world.topology.adj(), owned_list@, cv[0]));
                    assert(cv[0].contains(cv[0][0]));
                }
            }
        }
    }
    proof {
        assert forall|x: TileId| #[trigger] owned_list@.contains(x) implies held_by(o, faction, x) by {
            assert(crate::state::owned_ids(world.tiles@, faction).contains(x.0 as int));
        }
        assert forall|i: int, q: int| 0 <= i < fragments@.len() && 0 <= q < fragments@[i].tiles@.len() implies held_by(
            o,
            faction,
            #[trigger] fragments@[i].tiles@[q],
        ) by {
            assert(owned@[fragments@[i].tiles@[q].0 as int]);
        }
    }
    // Which component each fragment lies in.
    let mut tags: Vec<usize> = Vec::new();
    let mut j: usize = 0;
    while j < fragments.len()
        invariant
            j <= fragments@.len(),
            tags@.len() == j,
            n == world.tiles@.len(),
            cv == lists_view(components@),
            is_component_split(world.topology.adj(), owned_list@, cv),
            forall|x: TileId| #[trigger] owned_list@.contains(x) <==> crate::state::owned_ids(world.tiles@, faction).contains(x.0 as int),
            owned@.len() == n,
            forall|q: int| 0 <= q < n ==> #[trigger] owned@[q] == (world.tiles@[q].owner == Some(faction)),
            forall|i: int| 0 <= i < fragments@.len() ==> fragment_ok(#[trigger] fragments@[i], n as nat),
            forall|i: int, q: int| 0 <= i < fragments@.len() && 0 <= q < fragments@[i].tiles@.len() ==> owned@[(#[trigger] fragments@[i].tiles@[q]).0 as int],
        decreases fragments@.len() - j,
    {
        let probe = fragments[j].tiles[0];
        proof {
            assert(owned@[probe.0 as int]);
            assert(owned_list@.contains(probe));
        }
        let mut c: usize = 0;
        while c < components.len() && !contains_tile(&components[c], probe)
            invariant
                c <= components@.len(),
                cv == lists_view(components@),
                forall|q: int| 0 <= q < c ==> !(#[trigger] cv[q]).contains(probe),
            decreases components@.len() - c,
        {
            c = c + 1;
        }
        proof {
            if c == components@.len() {
                let q = choose|q: int| 0 <= q < cv.len() && #[trigger] cv[q].contains(probe);
                assert(!cv[q].contains(probe));
            }
        }
        tags.push(c);
        j = j + 1;
    }
    (owned_list, old_ids, fragments, components, tags)
}

/// The capital a component's territory gets, and the capitals razed for
/// it: the one capital its pieces bring, the one the map already shows, the
/// nearest of several, or a new site; `None` when the component has nowhere
/// to put one.
fn capital_for(world: &World, rules: &Ruleset, component: &Vec<TileId>, contributors: &Vec<Fragment>, focus: Option<TileId>,
    Ghost(o): Ghost<World>, Ghost(faction): Ghost<Faction>) -> (res: Option<(TileId, Vec<TileId>)>)
    requires
        world.tiles@.len() == world.topology.count(),
        world.tiles == o.tiles,
        component@.len() > 0,
        strictly_increasing(component@),
        forall|k: int| 0 <= k < component@.len() ==> (#[trigger] component@[k]).0 < world.tiles@.len(),
        forall|k: int| 0 <= k < component@.len() ==> held_by(o, faction, #[trigger] component@[k]),
        forall|i: int| 0 <= i < contributors@.len() ==> fragment_ok(#[trigger] contributors@[i], world.tiles@.len()),
        forall|i: int, q: int| 0 <= i < contributors@.len() && 0 <= q < contributors@[i].tiles@.len() ==> held_by(o, faction, #[trigger] contributors@[i].tiles@[q]),
        match focus {
            Some(f) => f.0 < world.tiles@.len(),
            None => true,
        },
    ensures
        res matches Some(p) ==> {
            &&& p.0.0 < world.tiles@.len()
            &&& held_by(o, faction, p.0)
            &&& forall|k: int| 0 <= k < p.1@.len() ==> (#[trigger] p.1@[k]).0 < world.tiles@.len() && held_by(o, faction, p.1@[k])
        },
{
    let n = world.tiles.len();
    let mut candidates: Vec<TileId> = Vec::new();
    let mut j: usize = 0;
    while j < contributors.len()
        invariant
            j <= contributors@.len(),
            forall|i: int| 0 <= i < contributors@.len() ==> fragment_ok(#[trigger] contributors@[i], n as nat),
            forall|k: int| 0 <= k < candidates@.len() ==> (#[trigger] candidates@[k]).0 < n,
            forall|i: int, q: int| 0 <= i < contributors@.len() && 0 <= q < contributors@[i].tiles@.len() ==> held_by(o, faction, #[trigger] contributors@[i].tiles@[q]),
            forall|k: int| 0 <= k < candidates@.len() ==> held_by(o, faction, #[trigger] candidates@[k]),
        decreases contributors@.len() - j,
    {
        match contributors[j].capital {
            Some(c) => {
                proof {
                    assert(fragment_ok(contributors@[j as int], n as nat));
                    let q = choose|q: int| 0 <= q < contributors@[j as int].tiles@.len() && contributors@[j as int].tiles@[q] == c;
                    assert(held_by(o, faction, contributors@[j as int].tiles@[q]));
                }
                candidates.push(c);
            },
            None => {},
        }
        j = j + 1;
    }
    if candidates.len() == 0 {
        candidates = tiles_of_kind(world, component, TileKind::Capital);
        proof {
            assert forall|k: int| 0 <= k < candidates@.len() implies held_by(o, faction, #[trigger] candidates@[k]) by {
                assert(component@.contains(candidates@[k]));
                let q = choose|q: int| 0 <= q < component@.len() && component@[q] == candidates@[k];
                assert(held_by(o, faction, component@[q]));
            }
        }
    }
    let mut retired: Vec<TileId> = Vec::new();
    let capital: TileId;
    if candidates.len() == 0 {
        match choose_capital_site(world, rules, component) {
            Some(site) => {
                proof {
                    let q = choose|q: int| 0 <= q < component@.len() && component@[q] == site;
                    assert(held_by(o, faction, component@[q]));
                }
                capital = site;
            },
            None => {
                return None;
            },
        }
    } else if candidates.len() == 1 {
        proof {
            assert(held_by(o, faction, candidates@[0]));
        }
        capital = candidates[0];
    } else {
        let keep = nearest_capital(world, component, &candidates, focus);
        proof {
            let q = choose|q: int| 0 <= q < candidates@.len() && candidates@[q] == keep;
            assert(held_by(o, faction, candidates@[q]));
        }
        capital = keep;
        let mut j: usize = 0;
        while j < candidates.len()
            invariant
                j <= candidates@.len(),
                forall|k: int| 0 <= k < candidates@.len() ==> (#[trigger] candidates@[k]).0 < n,
                forall|k: int| 0 <= k < retired@.len() ==> (#[trigger] retired@[k]).0 < n,
                forall|k: int| 0 <= k < candidates@.len() ==> held_by(o, faction, #[trigger] candidates@[k]),
                forall|k: int| 0 <= k < retired@.len() ==> held_by(o, faction, #[trigger] retired@[k]),
            decreases candidates@.len() - j,
        {
            if candidates[j].0 != keep.0 {
                retired.push(candidates[j]);
            }
            j = j + 1;
        }
    }
    Some((capital, retired))
}

/// What a component's contributors bring to the territory that keeps `id`:
/// the capital of the contributor that was `id` before, the pooled
/// treasury, and the other ids it absorbs, in decision order.
fn pooled(contributors: &Vec<Fragment>, id: TerritoryId) -> (Option<TileId>, i32, i32, Vec<TerritoryId>) {
    let mut previous_capital: Option<TileId> = None;
    let mut wheat: i32 = 0;
    let mut gold: i32 = 0;
    let mut absorbed: Vec<TerritoryId> = Vec::new();
    let mut found_parent = false;
    let mut j: usize = 0;
    while j < contributors.len()
        invariant
            j <= contributors@.len(),
        decreases contributors@.len() - j,
    {
        let f = &contributors[j];
        if !found_parent && f.parent.0 == id.0 {
            previous_capital = f.capital;
            found_parent = true;
        }
        wheat = add32(wheat, f.wheat);
        gold = add32(gold, f.gold);
        if f.parent.0 != id.0 {
            absorbed.push(f.parent);
        }
        j = j + 1;
    }
    (previous_capital, wheat, gold, absorbed)
}

/// Write a faction's recomputed territories into the world (see `commit`),
/// given that every component of the ground it held was either rebuilt or
/// disbanded: afterwards each of its territories is a component of that
/// ground, and every tile it still owns lies in one of them.
fn install(
    world: &mut World,
    faction: Faction,
    old_ids: &Vec<TerritoryId>,
    rebuilt: Vec<Rebuilt>,
    disbanded: Vec<(TerritoryId, Vec<TileId>)>,
    sink: &mut EventSink,
    base: Ghost<World>,
    owned: Ghost<Seq<TileId>>,
    comps: Ghost<Seq<Seq<TileId>>>,
    src: Ghost<Seq<int>>,
)
    requires
        old(world).wf(),
        same_frame_except_counters(*old(world), base@),
        forall|i: int| 0 <= i < rebuilt@.len() ==> rebuilt_ok(#[trigger] rebuilt@[i], old(world).tiles@.len(), old(world).counters().1),
        forall|i: int, k: int| 0 <= i < disbanded@.len() && 0 <= k < disbanded@[i].1@.len() ==> (#[trigger] disbanded@[i].1@[k]).0 < old(world).tiles@.len(),
        forall|i: int| 0 <= i < rebuilt@.len() ==> rebuilt_held(#[trigger] rebuilt@[i], base@, faction),
        forall|i: int, k: int| 0 <= i < disbanded@.len() && 0 <= k < disbanded@[i].1@.len() ==> held_by(base@, faction, #[trigger] disbanded@[i].1@[k]),
        base@.wf(),
        forall|i: int| 0 <= i < rebuilt@.len() ==> rebuilt_ours(#[trigger] rebuilt@[i], base@, faction),
        ids_distinct(rebuilt@),
        base@.tiles@.len() == base@.topology.adj().len(),
        base@.tiles@.len() <= u32::MAX,
        forall|t: TileId| #[trigger] owned@.contains(t) <==> crate::state::owned_ids(base@.tiles@, faction).contains(t.0 as int),
        crate::topology::valid_adjacency(base@.topology.adj()),
        forall|k: int| 0 <= k < owned@.len() ==> (#[trigger] owned@[k]).0 < base@.topology.adj().len(),
        is_component_split(base@.topology.adj(), owned@, comps@),
        src@.len() == rebuilt@.len(),
        forall|a: int| 0 <= a < rebuilt@.len() ==> 0 <= #[trigger] src@[a] < comps@.len()
            && rebuilt@[a].territory.tiles@ == comps@[src@[a]],
        forall|a: int, b: int| 0 <= a < b < rebuilt@.len() ==> #[trigger] src@[a] < #[trigger] src@[b],
        forall|q: int| 0 <= q < comps@.len() ==> settled_component(rebuilt@, disbanded@, #[trigger] comps@[q]),
        forall|i: int| 0 <= i < rebuilt@.len() ==> component_ok(base@.topology.adj(), owned@, (#[trigger] rebuilt@[i]).territory.tiles@),
    ensures
        same_frame(*final(world), *old(world)),
        others_tiles_kept(base@, *final(world), faction),
        others_territories_kept(base@, *final(world), faction),
        forall|id: TerritoryId| component_if_ours(
            #[trigger] find_territory(final(world).territories@, id),
            base@.topology.adj(),
            base@.tiles@,
            faction,
        ),
        forall|j: int| 0 <= j < base@.tiles@.len() ==> (#[trigger] final(world).tiles@[j]).terrain == base@.tiles@[j].terrain
            && (final(world).tiles@[j].owner == base@.tiles@[j].owner || final(world).tiles@[j].owner is None),
        forall|i: int| 0 <= i < final(world).units@.len() ==> base@.units@.contains(#[trigger] final(world).units@[i]),
        forall|x: TileId| x.0 < final(world).tiles@.len() && (#[trigger] final(world).tiles@[x.0 as int]).owner == Some(faction)
            ==> named_territory_of(*final(world), faction, x),
        territories_apart(*final(world), faction),
{
    let ghost rb = rebuilt@;
    proof {
        assert forall|a: int, b: int, x: TileId|
            #![trigger rb[a].territory.tiles@.contains(x), rb[b].territory.tiles@.contains(x)]
            0 <= a < b < rb.len() implies !(rb[a].territory.tiles@.contains(x) && rb[b].territory.tiles@.contains(x)) by {
            assert(src@[a] < src@[b]);
            crate::topology::lemma_components_disjoint(base@.topology.adj(), owned@, comps@, src@[a], src@[b], x);
        }
    }
    let ghost db = disbanded@;
    let ghost pre = *world;
    proof {
        assert(others_tiles_kept(base@, *world, faction));
        assert forall|id: TerritoryId| kept_if_other(#[trigger] find_territory(base@.territories@, id), find_territory(world.territories@, id), faction) by {}
        assert forall|id: TerritoryId| kept_if_other(#[trigger] find_territory(world.territories@, id), find_territory(base@.territories@, id), faction) by {}
    }
    commit(world, faction, old_ids, rebuilt, disbanded, sink, base);
    proof {
        lemma_rebuilt_components(base@, *world, faction, owned@, rb);
        lemma_committed_keeps(pre, *world, faction, db, rb);
        assert forall|j: int| 0 <= j < rb.len() implies (#[trigger] rb[j]).territory.faction == faction by {
            assert(rebuilt_ours(rb[j], base@, faction));
        }
        lemma_coverage(base@, *world, faction, owned@, comps@, rb, db);
        assert forall|i1: TerritoryId, i2: TerritoryId, x: TileId| i1 != i2
            implies !#[trigger] shared(find_territory(world.territories@, i1), find_territory(world.territories@, i2), faction, x) by {
            if shared(find_territory(world.territories@, i1), find_territory(world.territories@, i2), faction, x) {
            let t1 = find_territory(world.territories@, i1)->0;
            let t2 = find_territory(world.territories@, i2)->0;
            assert(from_rebuilt(find_territory(world.territories@, i1), rb, rb.len() as int, faction));
            assert(from_rebuilt(find_territory(world.territories@, i2), rb, rb.len() as int, faction));
            let a = choose|a: int| 0 <= a < rb.len() && t1@ == (#[trigger] rb[a]).territory@;
            let b = choose|b: int| 0 <= b < rb.len() && t2@ == (#[trigger] rb[b]).territory@;
            crate::state::lemma_territory_pos_from(world.territories@, i1, 0);
            crate::state::lemma_territory_pos_from(world.territories@, i2, 0);
            assert(t1.id == i1 && t2.id == i2);
            assert(a != b);
            if a < b {
                assert(!(rb[a].territory.tiles@.contains(x) && rb[b].territory.tiles@.contains(x)));
            } else {
                assert(!(rb[b].territory.tiles@.contains(x) && rb[a].territory.tiles@.contains(x)));
            }
            }
        }
    }
}

/// What recomputing `f`'s territories guarantees of `w`, made from `o`: a
/// valid world on the same planet and roster; other factions' tiles and
/// territories untouched; each of `f`'s territories a connected component of
/// the ground `f` held, no two of them share a tile, and every tile `f`
/// still owns names one of them that holds it;
/// terrain kept, and ownership kept or given up.
pub open spec fn retopologized(o: World, w: World, f: Faction) -> bool {
    &&& w.wf()
    &&& w.tiles@.len() == o.tiles@.len()
    &&& w.players == o.players
    &&& w.stats == o.stats
    &&& w.dominance_streak == o.dominance_streak
    &&& w.outcome == o.outcome
    &&& w.round == o.round
    &&& w.turn_index == o.turn_index
    &&& w.seed == o.seed
    &&& w.topology == o.topology
    &&& w.counters().0 == o.counters().0
    &&& w.counters().2 == o.counters().2
    &&& o.counters().1 <= w.counters().1 <= o.counters().1 + o.tiles@.len()
    &&& others_tiles_kept(o, w, f)
    &&& others_territories_kept(o, w, f)
    &&& forall|id: TerritoryId| component_if_ours(#[trigger] find_territory(w.territories@, id), o.topology.adj(), o.tiles@, f)
    &&& forall|j: int| 0 <= j < o.tiles@.len() ==> (#[trigger] w.tiles@[j]).terrain == o.tiles@[j].terrain
        && (w.tiles@[j].owner == o.tiles@[j].owner || w.tiles@[j].owner is None)
    &&& forall|i: int| 0 <= i < w.units@.len() ==> o.units@.contains(#[trigger] w.units@[i])
    &&& forall|x: TileId| x.0 < w.tiles@.len() && (#[trigger] w.tiles@[x.0 as int]).owner == Some(f) ==> named_territory_of(w, f, x)
    &&& territories_apart(w, f)
}

/// Every field but tiles, units, territories and the counters is as it was.
pub open spec fn same_frame_except_counters(w: World, o: World) -> bool {
    &&& w.tiles == o.tiles
    &&& w.units == o.units
    &&& w.territories == o.territories
    &&& w.players == o.players
    &&& w.stats == o.stats
    &&& w.dominance_streak == o.dominance_streak
    &&& w.outcome == o.outcome
    &&& w.round == o.round
    &&& w.turn_index == o.turn_index
    &&& w.seed == o.seed
    &&& w.topology == o.topology
}

} // verus!
