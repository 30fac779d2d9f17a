//! Fluent construction of hand-made worlds for tests.
//!
//! Ownership and capitals are declared as plain data; building then derives
//! territories with the real [`retopologize`](crate::territory::retopologize),
//! so a fixture can never describe a world the game itself could not produce.

use crate::ids::{Faction, TerritoryId, TileId, UnitId};
use crate::levels::{endowed, settle};
use crate::rules::{Ruleset, TileKind, UnitKind};
use crate::rules_default::is_bundled;
use crate::session::Session;
use crate::state::{same_world, Controller, Player, Terrain, Tile, Unit, World};
use crate::turn::match_started;
use crate::topology::Topology;
use std::sync::Arc;
use vstd::prelude::*;

verus! {

/// Whether tile `i` is among `tiles`.
pub open spec fn listed(tiles: Seq<u32>, i: int) -> bool {
    exists|k: int| 0 <= k < tiles.len() && tiles[k] == i
}

/// A tile handed to a faction: raised to empty land if it was water, then
/// owned.
pub open spec fn owned_tile(t: Tile, f: Faction) -> Tile {
    if t.terrain != Terrain::Land {
        Tile { owner: Some(f), ..Tile { terrain: Terrain::Land, kind: TileKind::Empty, owner: None, territory: None, unit: None } }
    } else {
        Tile { owner: Some(f), ..t }
    }
}

/// The treasury the declarations `tr` give the territory `id` of a world
/// with tiles `tiles`: the last declaration on one of its tiles, else `dflt`.
pub open spec fn declared_treasury(tr: Seq<(TileId, i32, i32)>, tiles: Seq<Tile>, id: TerritoryId, dflt: (i32, i32)) -> (i32, i32)
    decreases tr.len(),
{
    if tr.len() == 0 {
        dflt
    } else if tiles[tr.last().0.0 as int].territory == Some(id) {
        (tr.last().1, tr.last().2)
    } else {
        declared_treasury(tr.drop_last(), tiles, id, dflt)
    }
}

/// The position of the last declared unit standing on tile `i`.
pub open spec fn last_on(units: Seq<(Faction, UnitKind, TileId)>, i: int) -> Option<int>
    decreases units.len(),
{
    if units.len() == 0 {
        None
    } else if units.last().2.0 == i {
        Some(units.len() - 1)
    } else {
        last_on(units.drop_last(), i)
    }
}

/// The unit made from the `k`-th declaration: numbered and stamped `k`, and
/// ready to act.
pub open spec fn declared_unit(e: (Faction, UnitKind, TileId), k: int) -> Unit {
    Unit { id: UnitId(k as u32), kind: e.1, faction: e.0, tile: e.2, born: k as u32, moved: false }
}

/// What building `b` gives: the world `w`, valid and before its first
/// round, on `b`'s planet with `b`'s players; each tile keeps its terrain
/// and keeps or gives up its owner as territories are derived; the declared
/// units in order, each standing on its tile; and each territory holding its
/// declared treasury, else the starting one. The ruleset `r` is `b`'s.
pub open spec fn builds(b: WorldBuilder, w: World, r: Ruleset) -> bool {
    &&& w.wf()
    &&& r == b.rules
    &&& w.seed == b.seed
    &&& w.topology == b.topology
    &&& w.players == b.players
    &&& w.tiles@.len() == b.tiles@.len()
    &&& w.round == 0
    &&& w.turn_index == 0
    &&& w.outcome is None
    &&& w.units@.len() == b.units@.len()
    &&& forall|k: int| 0 <= k < b.units@.len() ==> #[trigger] w.units@[k] == declared_unit(b.units@[k], k)
    &&& forall|i: int| 0 <= i < b.tiles@.len() ==> (#[trigger] w.tiles@[i]).terrain == b.tiles@[i].terrain
        && (w.tiles@[i].owner == b.tiles@[i].owner || w.tiles@[i].owner is None)
    &&& forall|i: int| 0 <= i < b.tiles@.len() && (#[trigger] last_on(b.units@, i)) is Some
        ==> w.tiles@[i].unit == Some(UnitId(last_on(b.units@, i)->0 as u32))
    &&& forall|j: int| 0 <= j < w.territories@.len() ==> (#[trigger] w.territories@[j].wheat, w.territories@[j].gold)
        == declared_treasury(b.treasuries@, w.tiles@, w.territories@[j].id, (b.rules.economy.starting_wheat, b.rules.economy.starting_gold))
}

/// A world under construction.
#[derive(Debug)]
pub struct WorldBuilder {
    pub seed: u64,
    pub topology: Arc<Topology>,
    pub tiles: Vec<Tile>,
    pub players: Vec<Player>,
    pub units: Vec<(Faction, UnitKind, TileId)>,
    pub treasuries: Vec<(TileId, i32, i32)>,
    pub rules: Ruleset,
    /// The faction most recently named by `own`, so `capital` and `unit` can
    /// be written without repeating it.
    pub current: Option<Faction>,
}

impl WorldBuilder {
    /// One tile per topology tile.
    pub open spec fn wf(&self) -> bool {
        &&& self.tiles@.len() == self.topology.count()
        &&& self.tiles@.len() <= u32::MAX
    }

    /// Everything but the tiles is as it was.
    pub open spec fn same_but_tiles(&self, other: WorldBuilder) -> bool {
        &&& self.seed == other.seed
        &&& self.topology == other.topology
        &&& self.players == other.players
        &&& self.units == other.units
        &&& self.treasuries == other.treasuries
        &&& self.rules == other.rules
        &&& self.tiles@.len() == other.tiles@.len()
    }

    /// An all-water world on `topology`, with the bundled rules.
    pub fn new(topology: Topology) -> (b: WorldBuilder)
        ensures
            b.wf(),
            *b.topology == topology,
            b.seed == 0xC100_0000_0000_0001u64,
            forall|i: int| 0 <= i < b.tiles@.len() ==> #[trigger] b.tiles@[i] == (Tile {
                terrain: Terrain::Water,
                kind: TileKind::Empty,
                owner: None,
                territory: None,
                unit: None,
            }),
            b.players@.len() == 0,
            b.units@.len() == 0,
            b.treasuries@.len() == 0,
            is_bundled(b.rules),
            b.current is None,
    {
        proof {
            use_type_invariant(&topology);
        }
        let count = topology.tile_count();
        let mut tiles: Vec<Tile> = Vec::new();
        let mut i: usize = 0;
        while i < count
            invariant
                i <= count,
                tiles@.len() == i,
                forall|j: int| 0 <= j < i ==> #[trigger] tiles@[j] == (Tile {
                    terrain: Terrain::Water,
                    kind: TileKind::Empty,
                    owner: None,
                    territory: None,
                    unit: None,
                }),
            decreases count - i,
        {
            tiles.push(Tile::water());
            i = i + 1;
        }
        WorldBuilder {
            seed: 0xC100_0000_0000_0001,
            topology: Arc::new(topology),
            tiles,
            players: Vec::new(),
            units: Vec::new(),
            treasuries: Vec::new(),
            rules: Ruleset::bundled(),
            current: None,
        }
    }

    pub fn seed(self, seed: u64) -> (b: WorldBuilder)
        ensures
            b == (WorldBuilder { seed, ..self }),
    {
        let mut b = self;
        b.seed = seed;
        b
    }

    /// Use a ruleset other than the bundled default.
    pub fn rules(self, rules: Ruleset) -> (b: WorldBuilder)
        ensures
            b == (WorldBuilder { rules, ..self }),
    {
        let mut b = self;
        b.rules = rules;
        b
    }

    /// Make every tile dry, empty land.
    pub fn all_land(self) -> (b: WorldBuilder)
        requires
            self.wf(),
        ensures
            b.wf(),
            b.same_but_tiles(self),
            b.current == self.current,
            forall|i: int| 0 <= i < b.tiles@.len() ==> #[trigger] b.tiles@[i] == (Tile {
                terrain: Terrain::Land,
                kind: TileKind::Empty,
                owner: None,
                territory: None,
                unit: None,
            }),
    {
        let mut b = self;
        let n = b.tiles.len();
        let mut i: usize = 0;
        while i < n
            invariant
                n == b.tiles@.len(),
                i <= n,
                b.same_but_tiles(self),
                b.current == self.current,
                self.wf(),
                forall|j: int| 0 <= j < i ==> #[trigger] b.tiles@[j] == (Tile {
                    terrain: Terrain::Land,
                    kind: TileKind::Empty,
                    owner: None,
                    territory: None,
                    unit: None,
                }),
            decreases n - i,
        {
            b.tiles.set(i, Tile::land(TileKind::Empty));
            i = i + 1;
        }
        b
    }

    /// Make the listed tiles empty land, leaving the rest as they were.
    pub fn land(self, tiles: &[u32]) -> (b: WorldBuilder)
        requires
            self.wf(),
            forall|k: int| 0 <= k < tiles@.len() ==> (#[trigger] tiles@[k]) < self.tiles@.len(),
        ensures
            b.wf(),
            b.same_but_tiles(self),
            b.current == self.current,
            forall|i: int| 0 <= i < b.tiles@.len() ==> #[trigger] b.tiles@[i] == if listed(tiles@, i) {
                Tile { terrain: Terrain::Land, kind: TileKind::Empty, owner: None, territory: None, unit: None }
            } else {
                self.tiles@[i]
            },
    {
        let mut b = self;
        let mut k: usize = 0;
        while k < tiles.len()
            invariant
                k <= tiles@.len(),
                b.same_but_tiles(self),
                b.current == self.current,
                self.wf(),
                forall|q: int| 0 <= q < tiles@.len() ==> (#[trigger] tiles@[q]) < self.tiles@.len(),
                forall|i: int| 0 <= i < b.tiles@.len() ==> #[trigger] b.tiles@[i] == if listed(tiles@.take(k as int), i) {
                    Tile { terrain: Terrain::Land, kind: TileKind::Empty, owner: None, territory: None, unit: None }
                } else {
                    self.tiles@[i]
                },
            decreases tiles@.len() - k,
        {
            let t = tiles[k];
            b.tiles.set(t as usize, Tile::land(TileKind::Empty));
            proof {
                lemma_listed_step(tiles@, k as int);
            }
            k = k + 1;
        }
        proof {
            assert(tiles@.take(tiles@.len() as int) == tiles@);
        }
        b
    }

    pub fn player(self, faction: Faction) -> (b: WorldBuilder)
        ensures
            b.players@.len() == self.players@.len() + 1,
            b.players@.drop_last() == self.players@,
            b.players@.last() == (Player { faction, controller: Controller::Human, eliminated: false }),
            b == (WorldBuilder { players: b.players, ..self }),
    {
        self.controlled_player(faction, Controller::Human)
    }

    pub fn ai_player(self, faction: Faction, profile: &str) -> (b: WorldBuilder)
        ensures
            b.players@.len() == self.players@.len() + 1,
            b.players@.drop_last() == self.players@,
            b.players@.last().faction == faction,
            b.players@.last().controller@ == Some(profile@),
            !b.players@.last().eliminated,
            b == (WorldBuilder { players: b.players, ..self }),
    {
        self.controlled_player(faction, Controller::Ai(profile.to_owned()))
    }

    fn controlled_player(self, faction: Faction, controller: Controller) -> (b: WorldBuilder)
        ensures
            b.players@ == self.players@.push(Player { faction, controller, eliminated: false }),
            b == (WorldBuilder { players: b.players, ..self }),
    {
        let mut b = self;
        b.players.push(Player { faction, controller, eliminated: false });
        b
    }

    /// Give a faction the listed tiles, and make it the one the next
    /// `capital` / `unit` call is about.
    pub fn own(self, faction: Faction, tiles: &[u32]) -> (b: WorldBuilder)
        requires
            self.wf(),
            forall|k: int| 0 <= k < tiles@.len() ==> (#[trigger] tiles@[k]) < self.tiles@.len(),
        ensures
            b.wf(),
            b.same_but_tiles(self),
            b.current == Some(faction),
            forall|i: int| 0 <= i < b.tiles@.len() ==> #[trigger] b.tiles@[i] == if listed(tiles@, i) {
                owned_tile(self.tiles@[i], faction)
            } else {
                self.tiles@[i]
            },
    {
        let mut b = self;
        let mut k: usize = 0;
        while k < tiles.len()
            invariant
                k <= tiles@.len(),
                b.same_but_tiles(self),
                self.wf(),
                forall|q: int| 0 <= q < tiles@.len() ==> (#[trigger] tiles@[q]) < self.tiles@.len(),
                forall|i: int| 0 <= i < b.tiles@.len() ==> #[trigger] b.tiles@[i] == if listed(tiles@.take(k as int), i) {
                    owned_tile(self.tiles@[i], faction)
                } else {
                    self.tiles@[i]
                },
            decreases tiles@.len() - k,
        {
            let t = tiles[k] as usize;
            let old_tile = b.tiles[t];
            let base = if old_tile.terrain != Terrain::Land { Tile::land(TileKind::Empty) } else { old_tile };
            b.tiles.set(t, Tile { owner: Some(faction), ..base });
            proof {
                lemma_listed_step(tiles@, k as int);
            }
            k = k + 1;
        }
        proof {
            assert(tiles@.take(tiles@.len() as int) == tiles@);
        }
        b.current = Some(faction);
        b
    }

    /// Mark a tile as a capital.
    pub fn capital(self, tile: u32) -> (b: WorldBuilder)
        requires
            self.wf(),
            tile < self.tiles@.len(),
        ensures
            b.wf(),
            b.same_but_tiles(self),
            b.current == self.current,
            b.tiles@ == self.tiles@.update(tile as int, Tile { kind: TileKind::Capital, ..self.tiles@[tile as int] }),
    {
        self.kind(tile, TileKind::Capital)
    }

    /// Set what stands on a tile.
    pub fn kind(self, tile: u32, kind: TileKind) -> (b: WorldBuilder)
        requires
            self.wf(),
            tile < self.tiles@.len(),
        ensures
            b.wf(),
            b.same_but_tiles(self),
            b.current == self.current,
            b.tiles@ == self.tiles@.update(tile as int, Tile { kind, ..self.tiles@[tile as int] }),
    {
        let mut b = self;
        let t = b.tiles[tile as usize];
        b.tiles.set(tile as usize, Tile { kind, ..t });
        b
    }

    /// Set what stands on each listed tile.
    pub fn kinds(self, tiles: &[u32], kind: TileKind) -> (b: WorldBuilder)
        requires
            self.wf(),
            forall|k: int| 0 <= k < tiles@.len() ==> (#[trigger] tiles@[k]) < self.tiles@.len(),
        ensures
            b.wf(),
            b.same_but_tiles(self),
            b.current == self.current,
            forall|i: int| 0 <= i < b.tiles@.len() ==> #[trigger] b.tiles@[i] == if listed(tiles@, i) {
                Tile { kind, ..self.tiles@[i] }
            } else {
                self.tiles@[i]
            },
    {
        let mut b = self;
        let mut k: usize = 0;
        while k < tiles.len()
            invariant
                k <= tiles@.len(),
                b.same_but_tiles(self),
                b.current == self.current,
                self.wf(),
                forall|q: int| 0 <= q < tiles@.len() ==> (#[trigger] tiles@[q]) < self.tiles@.len(),
                forall|i: int| 0 <= i < b.tiles@.len() ==> #[trigger] b.tiles@[i] == if listed(tiles@.take(k as int), i) {
                    Tile { kind, ..self.tiles@[i] }
                } else {
                    self.tiles@[i]
                },
            decreases tiles@.len() - k,
        {
            let t = tiles[k] as usize;
            let old_tile = b.tiles[t];
            b.tiles.set(t, Tile { kind, ..old_tile });
            proof {
                lemma_listed_step(tiles@, k as int);
            }
            k = k + 1;
        }
        proof {
            assert(tiles@.take(tiles@.len() as int) == tiles@);
        }
        b
    }

    /// Place a unit for the faction named by the last `own`.
    pub fn unit(self, kind: UnitKind, tile: u32) -> (b: WorldBuilder)
        requires
            self.current is Some,
        ensures
            b.units@ == self.units@.push((self.current->0, kind, TileId(tile))),
            b == (WorldBuilder { units: b.units, ..self }),
    {
        let faction = match self.current {
            Some(f) => f,
            None => Faction::Red,
        };
        let mut b = self;
        b.units.push((faction, kind, TileId(tile)));
        b
    }

    /// Place a unit for an explicit faction.
    pub fn unit_of(self, faction: Faction, kind: UnitKind, tile: u32) -> (b: WorldBuilder)
        ensures
            b.units@ == self.units@.push((faction, kind, TileId(tile))),
            b == (WorldBuilder { units: b.units, ..self }),
    {
        let mut b = self;
        b.units.push((faction, kind, TileId(tile)));
        b
    }

    /// Set the treasury of whichever territory ends up containing `tile`,
    /// once territories are derived.
    pub fn treasury(self, tile: u32, wheat: i32, gold: i32) -> (b: WorldBuilder)
        ensures
            b.treasuries@ == self.treasuries@.push((TileId(tile), wheat, gold)),
            b == (WorldBuilder { treasuries: b.treasuries, ..self }),
    {
        let mut b = self;
        b.treasuries.push((TileId(tile), wheat, gold));
        b
    }
}

impl WorldBuilder {
    /// Produce the world and the ruleset it was built against: the declared
    /// tiles and players, territories derived by the real rules and endowed
    /// with the starting treasury, then the declared units, then the declared
    /// treasuries. A treasury whose tile lies in no territory is ignored.
    pub fn build(self) -> (r: (World, Ruleset))
        requires
            self.wf(),
            4 * self.tiles@.len() <= u32::MAX,
            self.units@.len() < u32::MAX,
            forall|k: int| 0 <= k < self.units@.len() ==> (#[trigger] self.units@[k]).2.0 < self.tiles@.len(),
            forall|k: int| 0 <= k < self.treasuries@.len() ==> (#[trigger] self.treasuries@[k]).0.0 < self.tiles@.len(),
        ensures
            builds(self, r.0, r.1),
    {
        let rules = self.rules;
        let ghost given = self.tiles@;
        let mut world = World::empty(self.seed, self.topology);
        world.tiles = self.tiles;
        world.players = self.players;
        proof {
            assert(world.wf());
        }
        let ghost laid = world;
        settle(&mut world, &rules);
        proof {
            if world.units@.len() > 0 {
                assert(laid.units@.contains(world.units@[0]));
            }
        }
        let units = self.units;
        let mut k: usize = 0;
        while k < units.len()
            invariant
                k <= units@.len(),
                units@.len() < u32::MAX,
                forall|q: int| 0 <= q < units@.len() ==> (#[trigger] units@[q]).2.0 < world.tiles@.len(),
                world.wf(),
                world.counters().0 == k,
                world.counters().2 == k,
                world.seed == self.seed,
                world.topology == self.topology,
                world.players == self.players,
                world.tiles@.len() == self.tiles@.len(),
                given.len() == self.tiles@.len(),
                world.round == 0,
                world.turn_index == 0,
                world.outcome is None,
                world.units@.len() == k,
                forall|q: int| 0 <= q < k ==> #[trigger] world.units@[q] == declared_unit(units@[q], q),
                forall|i: int| 0 <= i < given.len() ==> (#[trigger] world.tiles@[i]).terrain == given[i].terrain
                    && (world.tiles@[i].owner == given[i].owner || world.tiles@[i].owner is None),
                forall|i: int| 0 <= i < given.len() && (#[trigger] last_on(units@.take(k as int), i)) is Some
                    ==> world.tiles@[i].unit == Some(UnitId(last_on(units@.take(k as int), i)->0 as u32)),
                endowed(world.territories@, rules),
            decreases units@.len() - k,
        {
            let (faction, kind, tile) = units[k];
            let id = world.alloc_unit_id();
            let born = world.alloc_born();
            world.add_unit(Unit { id, kind, faction, tile, born, moved: false });
            let t = world.tile(tile).clone();
            world.set_tile(tile, Tile { unit: Some(id), ..t });
            proof {
                let nt = units@.take(k + 1);
                assert(nt.drop_last() =~= units@.take(k as int));
                assert(nt.last() == units@[k as int]);
                assert forall|i: int| 0 <= i < given.len() && (#[trigger] last_on(nt, i)) is Some implies
                    world.tiles@[i].unit == Some(UnitId(last_on(nt, i)->0 as u32)) by {
                    if i != tile.0 {
                        assert(last_on(nt, i) == last_on(units@.take(k as int), i));
                    }
                }
            }
            k = k + 1;
        }
        proof {
            assert(units@.take(k as int) =~= units@);
        }
        let ghost placed = world.tiles@;
        let treasuries = self.treasuries;
        let mut k: usize = 0;
        while k < treasuries.len()
            invariant
                k <= treasuries@.len(),
                forall|q: int| 0 <= q < treasuries@.len() ==> (#[trigger] treasuries@[q]).0.0 < world.tiles@.len(),
                world.wf(),
                world.seed == self.seed,
                world.topology == self.topology,
                world.players == self.players,
                world.tiles@.len() == self.tiles@.len(),
                world.round == 0,
                world.turn_index == 0,
                world.outcome is None,
                world.tiles@ == placed,
                world.units@.len() == units@.len(),
                forall|q: int| 0 <= q < units@.len() ==> #[trigger] world.units@[q] == declared_unit(units@[q], q),
                forall|j: int| 0 <= j < world.territories@.len() ==> (#[trigger] world.territories@[j].wheat, world.territories@[j].gold)
                    == declared_treasury(treasuries@.take(k as int), placed, world.territories@[j].id, (
                    rules.economy.starting_wheat,
                    rules.economy.starting_gold,
                )),
            decreases treasuries@.len() - k,
        {
            let (tile, wheat, gold) = treasuries[k];
            let ghost before = world;
            proof {
                let nt = treasuries@.take(k + 1);
                assert(nt.drop_last() =~= treasuries@.take(k as int));
                assert(nt.last() == treasuries@[k as int]);
            }
            match world.tile(tile).territory {
                Some(id) => match world.territory_index(id) {
                    Some(i) => {
                        world.set_treasury(i, wheat, gold);
                        proof {
                            crate::state::lemma_territory_pos_from(before.territories@, id, 0);
                            assert forall|j: int| 0 <= j < before.territories@.len() && j != i implies before.territories@[j].id != id by {
                                crate::state::lemma_find_territory_ascending(before.territories@, j);
                            }
                        }
                    },
                    None => {
                        proof {
                            assert forall|j: int| 0 <= j < before.territories@.len() implies before.territories@[j].id != id by {
                                crate::state::lemma_find_territory_ascending(before.territories@, j);
                            }
                        }
                    },
                },
                None => {},
            }
            k = k + 1;
        }
        proof {
            assert(treasuries@.take(k as int) =~= treasuries@);
        }
        (world, rules)
    }

    /// Build and start a session, which runs the first turn's income.
    pub fn session(self) -> (s: Session)
        requires
            self.wf(),
            4 * self.tiles@.len() <= u32::MAX,
            self.units@.len() < u32::MAX,
            forall|k: int| 0 <= k < self.units@.len() ==> (#[trigger] self.units@[k]).2.0 < self.tiles@.len(),
            forall|k: int| 0 <= k < self.treasuries@.len() ==> (#[trigger] self.treasuries@[k]).0.0 < self.tiles@.len(),
            self.rules.has_all_profiles(),
        ensures
            s.inv(),
            s.ruleset() == self.rules,
            s.commands().len() == 0,
            exists|w: World| builds(self, w, self.rules) && #[trigger] match_started(w, s.current())
                && same_world(s.initial_view(), w),
    {
        let (world, rules) = self.build();
        Session::start(world, rules)
    }
}

proof fn lemma_listed_step(tiles: Seq<u32>, k: int)
    requires
        0 <= k < tiles.len(),
    ensures
        forall|i: int| #[trigger] listed(tiles.take(k + 1), i) == (listed(tiles.take(k), i) || tiles[k] == i),
{
    assert forall|i: int| #[trigger] listed(tiles.take(k + 1), i) == (listed(tiles.take(k), i) || tiles[k] == i) by {
        let a = tiles.take(k);
        let b = tiles.take(k + 1);
        if listed(b, i) {
            let q = choose|q: int| 0 <= q < b.len() && b[q] == i;
            if q < k {
                assert(a[q] == i);
            }
        }
        if listed(a, i) {
            let q = choose|q: int| 0 <= q < a.len() && a[q] == i;
            assert(b[q] == i);
        }
        if tiles[k] == i {
            assert(b[k] == i);
        }
    }
}

} // verus!
