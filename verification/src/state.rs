//! The world: everything the simulation knows.
//!
//! A [`Territory`] is a connected block of tiles owned by one faction, with
//! its own treasury and capital. Units and territories are held in lists
//! ascending by id, and every set of tiles is an ascending list, so every
//! walk over the world visits things in the same order on every machine.

use crate::ids::{faction_ordinal, Faction, TerritoryId, TileId, UnitId};
use crate::rules::{TileKind, UnitKind};
use crate::tileset::{lemma_filter_take, lemma_take_all, strictly_increasing};
use crate::topology::Topology;
use std::sync::Arc;
use vstd::prelude::*;

verus! {

#[derive(Debug, Clone, Copy, PartialEq, Eq, Structural, PartialOrd, Ord, Hash)]
pub enum Terrain {
    Water,
    Land,
}

/// One tile of the planet.
#[derive(Debug, Clone, Copy, PartialEq, Eq, Structural)]
pub struct Tile {
    pub terrain: Terrain,
    /// Meaningful only on land; water carries `Empty` and is never owned,
    /// built on or entered.
    pub kind: TileKind,
    pub owner: Option<Faction>,
    /// The territory this tile belongs to; `Some` whenever `owner` is.
    pub territory: Option<TerritoryId>,
    pub unit: Option<UnitId>,
}

impl Tile {
    pub fn water() -> (t: Tile)
        ensures
            t == (Tile { terrain: Terrain::Water, kind: TileKind::Empty, owner: None, territory: None, unit: None }),
    {
        Tile { terrain: Terrain::Water, kind: TileKind::Empty, owner: None, territory: None, unit: None }
    }

    pub fn land(kind: TileKind) -> (t: Tile)
        ensures
            t == (Tile { terrain: Terrain::Land, kind, owner: None, territory: None, unit: None }),
    {
        Tile { terrain: Terrain::Land, kind, owner: None, territory: None, unit: None }
    }

    pub fn is_land(&self) -> (b: bool)
        ensures
            b == (self.terrain == Terrain::Land),
    {
        match self.terrain {
            Terrain::Land => true,
            Terrain::Water => false,
        }
    }
}

#[derive(Debug, Clone, Copy, PartialEq, Eq, Structural)]
pub struct Unit {
    pub id: UnitId,
    pub kind: UnitKind,
    pub faction: Faction,
    pub tile: TileId,
    /// Creation order, which decides who starves first. Upgrading keeps it.
    pub born: u32,
    /// Whether the unit has acted this turn.
    pub moved: bool,
}

#[derive(Debug, Clone, PartialEq, Eq)]
pub struct Territory {
    pub id: TerritoryId,
    pub faction: Faction,
    pub capital: TileId,
    pub wheat: i32,
    pub gold: i32,
    /// Ascending, no repeats.
    pub tiles: Vec<TileId>,
}

/// What a territory holds, as plain values.
pub struct TerritoryModel {
    pub id: TerritoryId,
    pub faction: Faction,
    pub capital: TileId,
    pub wheat: i32,
    pub gold: i32,
    pub tiles: Seq<TileId>,
}

impl View for Territory {
    type V = TerritoryModel;

    open spec fn view(&self) -> TerritoryModel {
        TerritoryModel {
            id: self.id,
            faction: self.faction,
            capital: self.capital,
            wheat: self.wheat,
            gold: self.gold,
            tiles: self.tiles@,
        }
    }
}

impl Territory {
    /// Number of tiles.
    pub fn size(&self) -> (n: u32)
        ensures
            n == self.tiles@.len() as u32,
    {
        #[verifier::truncate]
        let n = self.tiles.len() as u32;
        n
    }

    /// An identical territory.
    pub fn duplicate(&self) -> (t: Territory)
        ensures
            t@ == self@,
    {
        let tiles = self.tiles.clone();
        assert(tiles@ =~= self.tiles@);
        Territory {
            id: self.id,
            faction: self.faction,
            capital: self.capital,
            wheat: self.wheat,
            gold: self.gold,
            tiles,
        }
    }
}

#[derive(Debug, Clone, PartialEq, Eq)]
pub enum Controller {
    Human,
    /// Names an AI profile.
    Ai(String),
}

#[derive(Debug, Clone, PartialEq, Eq)]
pub struct Player {
    pub faction: Faction,
    pub controller: Controller,
    /// Set once the faction holds no tiles. Eliminated players are skipped
    /// in the turn order but stay listed.
    pub eliminated: bool,
}

impl Player {
    /// An identical player.
    pub fn duplicate(&self) -> (p: Player)
        ensures
            p.faction == self.faction,
            p.eliminated == self.eliminated,
            p.controller@ == self.controller@,
    {
        let controller = match &self.controller {
            Controller::Human => Controller::Human,
            Controller::Ai(name) => Controller::Ai(name.clone()),
        };
        Player { faction: self.faction, controller, eliminated: self.eliminated }
    }
}

impl View for Controller {
    type V = Option<Seq<char>>;

    open spec fn view(&self) -> Option<Seq<char>> {
        match self {
            Controller::Human => None,
            Controller::Ai(name) => Some(name@),
        }
    }
}

/// Per-faction running totals, reported on the victory screen.
#[derive(Debug, Clone, Copy, PartialEq, Eq, Structural)]
pub struct FactionStats {
    pub units_recruited: u32,
    pub units_upgraded: u32,
    pub units_lost: u32,
    pub units_killed: u32,
    pub units_starved: u32,
    pub gold_earned: u64,
    pub wheat_earned: u64,
    pub gold_looted: u64,
    pub tiles_captured: u32,
    pub tiles_lost: u32,
    pub towns_built: u32,
    pub fields_built: u32,
    pub capitals_razed: u32,
    pub peak_tiles: u32,
    pub peak_territories: u32,
}

pub open spec fn zero_stats() -> FactionStats {
    FactionStats {
        units_recruited: 0,
        units_upgraded: 0,
        units_lost: 0,
        units_killed: 0,
        units_starved: 0,
        gold_earned: 0,
        wheat_earned: 0,
        gold_looted: 0,
        tiles_captured: 0,
        tiles_lost: 0,
        towns_built: 0,
        fields_built: 0,
        capitals_razed: 0,
        peak_tiles: 0,
        peak_territories: 0,
    }
}

impl Default for FactionStats {
    fn default() -> (s: FactionStats)
        ensures
            s == zero_stats(),
    {
        FactionStats {
            units_recruited: 0,
            units_upgraded: 0,
            units_lost: 0,
            units_killed: 0,
            units_starved: 0,
            gold_earned: 0,
            wheat_earned: 0,
            gold_looted: 0,
            tiles_captured: 0,
            tiles_lost: 0,
            towns_built: 0,
            fields_built: 0,
            capitals_razed: 0,
            peak_tiles: 0,
            peak_territories: 0,
        }
    }
}

#[derive(Debug, Clone, Copy, PartialEq, Eq, Structural)]
pub enum VictoryReason {
    /// Every rival holds no tiles.
    Elimination,
    /// Held the dominance threshold long enough.
    Dominance,
}

#[derive(Debug, Clone, Copy, PartialEq, Eq, Structural)]
pub enum Outcome {
    Victory { faction: Faction, reason: VictoryReason, round: u32 },
    /// Every faction was eliminated in the same step.
    Draw { round: u32 },
}

/// The complete state of one match.
#[derive(Debug)]
pub struct World {
    /// The seed the planet was made from, and the root of every random
    /// stream drawn during play.
    pub seed: u64,
    /// Shared: the adjacency never changes during a match.
    pub topology: Arc<Topology>,
    /// Completed rounds.
    pub round: u32,
    /// Index into `players` of whoever is acting.
    pub turn_index: usize,
    pub tiles: Vec<Tile>,
    /// Ascending by id.
    pub units: Vec<Unit>,
    /// Ascending by id.
    pub territories: Vec<Territory>,
    pub players: Vec<Player>,
    /// Per faction, by ordinal; `None` until something is recorded.
    pub stats: Vec<Option<FactionStats>>,
    /// Consecutive rounds each faction (by ordinal) has met the dominance
    /// threshold.
    pub dominance_streak: Vec<u32>,
    pub outcome: Option<Outcome>,
    /// Where the next ids come from.
    pub counters: Counters,
}

/// The next unit id, territory id and creation stamp. Ids are never reused
/// within a match, so a stale id is always detectably stale.
#[derive(Debug, Clone, Copy, PartialEq, Eq, Structural)]
pub struct Counters {
    next_unit: u32,
    next_territory: u32,
    next_born: u32,
}

impl Counters {
    pub closed spec fn view(&self) -> (u32, u32, u32) {
        (self.next_unit, self.next_territory, self.next_born)
    }

    pub fn new() -> (c: Counters)
        ensures
            c.view() == (0u32, 0u32, 0u32),
    {
        Counters { next_unit: 0, next_territory: 0, next_born: 0 }
    }
}

// ---------------------------------------------------------------------------
// Lookups by id
// ---------------------------------------------------------------------------

/// Position of the first unit with id `id` at or after `from`, or -1.
pub open spec fn unit_pos_from(s: Seq<Unit>, id: UnitId, from: int) -> int
    decreases s.len() - from,
{
    if from < 0 || from >= s.len() {
        -1
    } else if s[from].id == id {
        from
    } else {
        unit_pos_from(s, id, from + 1)
    }
}

pub open spec fn unit_pos(s: Seq<Unit>, id: UnitId) -> int {
    unit_pos_from(s, id, 0)
}

pub open spec fn find_unit(s: Seq<Unit>, id: UnitId) -> Option<Unit> {
    if unit_pos(s, id) >= 0 {
        Some(s[unit_pos(s, id)])
    } else {
        None
    }
}

pub proof fn lemma_unit_pos_from(s: Seq<Unit>, id: UnitId, from: int)
    requires
        0 <= from,
    ensures
        unit_pos_from(s, id, from) == -1 || (from <= unit_pos_from(s, id, from) < s.len()
            && s[unit_pos_from(s, id, from)].id == id),
        unit_pos_from(s, id, from) == -1 ==> forall|j: int| from <= j < s.len() ==> s[j].id != id,
        unit_pos_from(s, id, from) >= 0 ==> forall|j: int| from <= j < unit_pos_from(s, id, from) ==> s[j].id != id,
    decreases s.len() - from,
{
    if from < s.len() && s[from].id != id {
        lemma_unit_pos_from(s, id, from + 1);
    }
}

/// Position of the first territory with id `id` at or after `from`, or -1.
pub open spec fn territory_pos_from(s: Seq<Territory>, id: TerritoryId, from: int) -> int
    decreases s.len() - from,
{
    if from < 0 || from >= s.len() {
        -1
    } else if s[from].id == id {
        from
    } else {
        territory_pos_from(s, id, from + 1)
    }
}

pub open spec fn territory_pos(s: Seq<Territory>, id: TerritoryId) -> int {
    territory_pos_from(s, id, 0)
}

pub open spec fn find_territory(s: Seq<Territory>, id: TerritoryId) -> Option<Territory> {
    if territory_pos(s, id) >= 0 {
        Some(s[territory_pos(s, id)])
    } else {
        None
    }
}

pub proof fn lemma_territory_pos_from(s: Seq<Territory>, id: TerritoryId, from: int)
    requires
        0 <= from,
    ensures
        territory_pos_from(s, id, from) == -1 || (from <= territory_pos_from(s, id, from) < s.len()
            && s[territory_pos_from(s, id, from)].id == id),
        territory_pos_from(s, id, from) == -1 ==> forall|j: int| from <= j < s.len() ==> s[j].id != id,
        territory_pos_from(s, id, from) >= 0 ==> forall|j: int| from <= j < territory_pos_from(s, id, from) ==> s[j].id != id,
    decreases s.len() - from,
{
    if from < s.len() && s[from].id != id {
        lemma_territory_pos_from(s, id, from + 1);
    }
}

pub proof fn lemma_find_unit_ascending(s: Seq<Unit>, j: int)
    requires
        units_ascending(s),
        0 <= j < s.len(),
    ensures
        unit_pos(s, s[j].id) == j,
        find_unit(s, s[j].id) == Some(s[j]),
{
    lemma_unit_pos_from(s, s[j].id, 0);
    let p = unit_pos(s, s[j].id);
    if p != j {
        if p < 0 {
            assert(s[j].id != s[j].id);
        } else if p > j {
            assert(s[j].id != s[j].id);
        } else {
            assert(s[p].id.0 < s[j].id.0);
        }
    }
}

pub proof fn lemma_find_territory_ascending(s: Seq<Territory>, j: int)
    requires
        territories_ascending(s),
        0 <= j < s.len(),
    ensures
        territory_pos(s, s[j].id) == j,
        find_territory(s, s[j].id) == Some(s[j]),
{
    lemma_territory_pos_from(s, s[j].id, 0);
    let p = territory_pos(s, s[j].id);
    if p != j {
        if p < 0 {
            assert(s[j].id != s[j].id);
        } else if p > j {
            assert(s[j].id != s[j].id);
        } else {
            assert(s[p].id.0 < s[j].id.0);
        }
    }
}

proof fn lemma_pos_same(a: Seq<Territory>, b: Seq<Territory>, id: TerritoryId, from: int)
    requires
        a.len() == b.len(),
        forall|j: int| 0 <= j < a.len() ==> (#[trigger] a[j]).id == b[j].id,
        0 <= from,
    ensures
        territory_pos_from(a, id, from) == territory_pos_from(b, id, from),
    decreases a.len() - from,
{
    if from < a.len() {
        assert(a[from].id == b[from].id);
        lemma_pos_same(a, b, id, from + 1);
    }
}

/// Units ascending by id with no repeats.
pub open spec fn units_ascending(s: Seq<Unit>) -> bool {
    forall|i: int, j: int| 0 <= i < j < s.len() ==> s[i].id.0 < s[j].id.0
}

/// Territories ascending by id with no repeats.
pub open spec fn territories_ascending(s: Seq<Territory>) -> bool {
    forall|i: int, j: int| 0 <= i < j < s.len() ==> s[i].id.0 < s[j].id.0
}

// ---------------------------------------------------------------------------
// Counting
// ---------------------------------------------------------------------------

pub open spec fn is_land_tile(t: Tile) -> bool {
    t.terrain == Terrain::Land
}

pub open spec fn land_tiles(tiles: Seq<Tile>) -> Seq<Tile> {
    tiles.filter(|t: Tile| is_land_tile(t))
}

pub open spec fn owned_by(tiles: Seq<Tile>, f: Faction) -> Seq<Tile> {
    tiles.filter(|t: Tile| t.owner == Some(f))
}

/// Ids of the tiles a faction owns, ascending.
pub open spec fn owned_ids(tiles: Seq<Tile>, f: Faction) -> Set<int> {
    Set::new(|i: int| 0 <= i < tiles.len() && tiles[i].owner == Some(f))
}

/// The members of `ids` whose tile has kind `k`.
pub open spec fn of_kind(tiles: Seq<Tile>, ids: Seq<TileId>, k: TileKind) -> Seq<TileId> {
    ids.filter(|t: TileId| 0 <= t.0 < tiles.len() && tiles[t.0 as int].kind == k)
}

/// Tiles whose kinds agree on being `k` pick out the same members.
pub proof fn lemma_of_kind_same(a: Seq<Tile>, b: Seq<Tile>, ids: Seq<TileId>, k: TileKind)
    requires
        a.len() == b.len(),
        forall|i: int| 0 <= i < a.len() ==> ((#[trigger] a[i]).kind == k <==> b[i].kind == k),
    ensures
        of_kind(a, ids, k) == of_kind(b, ids, k),
{
    let fa = |t: TileId| 0 <= t.0 < a.len() && a[t.0 as int].kind == k;
    let fb = |t: TileId| 0 <= t.0 < b.len() && b[t.0 as int].kind == k;
    assert(fa =~= fb);
}

/// The units standing on `ids`, in the order of the tiles.
pub open spec fn units_on(tiles: Seq<Tile>, ids: Seq<TileId>) -> Seq<UnitId> {
    ids.filter(|t: TileId| 0 <= t.0 < tiles.len() && tiles[t.0 as int].unit is Some).map_values(
        |t: TileId| tiles[t.0 as int].unit->0,
    )
}

impl World {
    // ---- shape ---------------------------------------------------------

    /// The allocation counters: next unit id, next territory id, next
    /// creation stamp.
    pub open spec fn counters(&self) -> (u32, u32, u32) {
        self.counters.view()
    }

    /// What the simulation relies on to index without failing: one tile per
    /// topology tile, ids ascending, every reference in range, per-faction
    /// tables of four.
    pub open spec fn wf(&self) -> bool {
        &&& self.tiles@.len() == self.topology.count()
        &&& self.tiles@.len() <= u32::MAX
        &&& units_ascending(self.units@)
        &&& territories_ascending(self.territories@)
        &&& forall|i: int| 0 <= i < self.units@.len() ==> (#[trigger] self.units@[i]).tile.0 < self.tiles@.len()
        &&& forall|i: int| 0 <= i < self.territories@.len() ==> {
            &&& strictly_increasing((#[trigger] self.territories@[i]).tiles@)
            &&& forall|k: int| 0 <= k < self.territories@[i].tiles@.len() ==> (#[trigger] self.territories@[i].tiles@[k]).0 < self.tiles@.len()
            &&& self.territories@[i].capital.0 < self.tiles@.len()
        }
        &&& self.stats@.len() == 4
        &&& self.dominance_streak@.len() == 4
        &&& forall|i: int| 0 <= i < self.units@.len() ==> (#[trigger] self.units@[i]).id.0 < self.counters().0
        &&& forall|i: int| 0 <= i < self.territories@.len() ==> (#[trigger] self.territories@[i]).id.0 < self.counters().1
    }

    /// An all-water planet with no players.
    pub fn empty(seed: u64, topology: Arc<Topology>) -> (w: World)
        ensures
            w.wf(),
            w.seed == seed,
            w.topology == topology,
            w.round == 0,
            w.turn_index == 0,
            w.tiles@.len() == topology.count(),
            forall|i: int| 0 <= i < w.tiles@.len() ==> #[trigger] w.tiles@[i] == (Tile {
                terrain: Terrain::Water,
                kind: TileKind::Empty,
                owner: None,
                territory: None,
                unit: None,
            }),
            w.units@.len() == 0,
            w.territories@.len() == 0,
            w.players@.len() == 0,
            w.stats@ == seq![None::<FactionStats>, None, None, None],
            w.dominance_streak@ == seq![0u32, 0, 0, 0],
            w.outcome is None,
            w.counters() == (0u32, 0u32, 0u32),
    {
        proof {
            use_type_invariant(&*topology);
        }
        let n = topology.tile_count();
        let mut tiles: Vec<Tile> = Vec::new();
        let mut i: usize = 0;
        while i < n
            invariant
                i <= n,
                tiles@.len() == i,
                forall|j: int| 0 <= j < i ==> #[trigger] tiles@[j] == (Tile {
                    terrain: Terrain::Water,
                    kind: TileKind::Empty,
                    owner: None,
                    territory: None,
                    unit: None,
                }),
            decreases n - i,
        {
            tiles.push(Tile::water());
            i = i + 1;
        }
        let stats: Vec<Option<FactionStats>> = vec![None, None, None, None];
        let dominance_streak: Vec<u32> = vec![0, 0, 0, 0];
        let w = World {
            seed,
            topology,
            round: 0,
            turn_index: 0,
            tiles,
            units: Vec::new(),
            territories: Vec::new(),
            players: Vec::new(),
            stats,
            dominance_streak,
            outcome: None,
            counters: Counters::new(),
        };
        assert(w.stats@ =~= seq![None::<FactionStats>, None, None, None]);
        assert(w.dominance_streak@ =~= seq![0u32, 0, 0, 0]);
        w
    }

    // ---- tile access ---------------------------------------------------

    pub fn tile(&self, id: TileId) -> (t: &Tile)
        requires
            id.0 < self.tiles@.len(),
        ensures
            *t == self.tiles@[id.0 as int],
    {
        &self.tiles[id.index()]
    }

    pub fn tile_mut(&mut self, id: TileId) -> (t: &mut Tile)
        requires
            id.0 < old(self).tiles@.len(),
        ensures
            *t == old(self).tiles@[id.0 as int],
            final(self).tiles@ == old(self).tiles@.update(id.0 as int, *final(t)),
            final(self).units == old(self).units,
            final(self).territories == old(self).territories,
            final(self).players == old(self).players,
            final(self).stats == old(self).stats,
            final(self).dominance_streak == old(self).dominance_streak,
            final(self).outcome == old(self).outcome,
            final(self).seed == old(self).seed,
            final(self).topology == old(self).topology,
            final(self).round == old(self).round,
            final(self).turn_index == old(self).turn_index,
            final(self).counters() == old(self).counters(),
    {
        &mut self.tiles[id.index()]
    }

    /// Every tile id, ascending.
    pub fn tile_ids(&self) -> (ids: Vec<TileId>)
        requires
            self.tiles@.len() <= u32::MAX,
        ensures
            ids@.len() == self.tiles@.len(),
            forall|i: int| 0 <= i < ids@.len() ==> #[trigger] ids@[i] == TileId(i as u32),
    {
        let n = self.tiles.len();
        let mut ids: Vec<TileId> = Vec::new();
        let mut i: usize = 0;
        while i < n
            invariant
                n == self.tiles@.len(),
                n <= u32::MAX,
                i <= n,
                ids@.len() == i,
                forall|j: int| 0 <= j < i ==> #[trigger] ids@[j] == TileId(j as u32),
            decreases n - i,
        {
            ids.push(TileId(i as u32));
            i = i + 1;
        }
        ids
    }

    /// How many land tiles the planet has.
    pub fn land_tile_count(&self) -> (n: u32)
        requires
            self.tiles@.len() <= u32::MAX,
        ensures
            n == land_tiles(self.tiles@).len(),
    {
        let mut n: u32 = 0;
        let mut i: usize = 0;
        while i < self.tiles.len()
            invariant
                self.tiles@.len() <= u32::MAX,
                i <= self.tiles@.len(),
                n == land_tiles(self.tiles@.take(i as int)).len(),
                n <= i,
            decreases self.tiles@.len() - i,
        {
            proof {
                lemma_filter_take(self.tiles@, |t: Tile| is_land_tile(t), i as int);
            }
            if self.tiles[i].is_land() {
                n = n + 1;
            }
            i = i + 1;
        }
        proof {
            lemma_take_all(self.tiles@);
        }
        n
    }

    /// Tiles owned by a faction, ascending.
    pub fn tiles_of(&self, faction: Faction) -> (ids: Vec<TileId>)
        requires
            self.tiles@.len() <= u32::MAX,
        ensures
            strictly_increasing(ids@),
            forall|i: int| 0 <= i < ids@.len() ==> (#[trigger] ids@[i]).0 < self.tiles@.len(),
            forall|t: TileId| #[trigger] ids@.contains(t) <==> owned_ids(self.tiles@, faction).contains(t.0 as int),
    {
        let n = self.tiles.len();
        let mut ids: Vec<TileId> = Vec::new();
        let mut i: usize = 0;
        while i < n
            invariant
                n == self.tiles@.len(),
                n <= u32::MAX,
                i <= n,
                strictly_increasing(ids@),
                forall|k: int| 0 <= k < ids@.len() ==> (#[trigger] ids@[k]).0 < i,
                forall|t: TileId| #[trigger] ids@.contains(t) <==> (t.0 < i && self.tiles@[t.0 as int].owner == Some(faction)),
            decreases n - i,
        {
            let ghost before = ids@;
            if self.tiles[i].owner == Some(faction) {
                ids.push(TileId(i as u32));
                proof {
                    assert forall|t: TileId| #[trigger] ids@.contains(t) <==> (t.0 < i + 1 && self.tiles@[t.0 as int].owner == Some(faction)) by {
                        if ids@.contains(t) {
                            let k = choose|k: int| 0 <= k < ids@.len() && ids@[k] == t;
                            if k < before.len() {
                                assert(before.contains(t));
                            }
                        }
                        if t.0 < i + 1 && self.tiles@[t.0 as int].owner == Some(faction) {
                            if t.0 < i {
                                assert(before.contains(t));
                                let k = choose|k: int| 0 <= k < before.len() && before[k] == t;
                                assert(ids@[k] == t);
                            } else {
                                assert(ids@[ids@.len() - 1] == t);
                            }
                        }
                    }
                }
            } else {
                proof {
                    assert forall|t: TileId| #[trigger] ids@.contains(t) <==> (t.0 < i + 1 && self.tiles@[t.0 as int].owner == Some(faction)) by {
                        if ids@.contains(t) {
                            let k = choose|k: int| 0 <= k < ids@.len() && ids@[k] == t;
                            assert(ids@[k].0 < i);
                        }
                    }
                }
            }
            i = i + 1;
        }
        ids
    }

    /// Number of tiles a faction owns.
    pub fn tile_count_of(&self, faction: Faction) -> (n: u32)
        requires
            self.tiles@.len() <= u32::MAX,
        ensures
            n == owned_by(self.tiles@, faction).len(),
    {
        let mut n: u32 = 0;
        let mut i: usize = 0;
        while i < self.tiles.len()
            invariant
                self.tiles@.len() <= u32::MAX,
                i <= self.tiles@.len(),
                n == owned_by(self.tiles@.take(i as int), faction).len(),
                n <= i,
            decreases self.tiles@.len() - i,
        {
            proof {
                lemma_filter_take(self.tiles@, |t: Tile| t.owner == Some(faction), i as int);
            }
            if self.tiles[i].owner == Some(faction) {
                n = n + 1;
            }
            i = i + 1;
        }
        proof {
            lemma_take_all(self.tiles@);
        }
        n
    }

    // ---- territory access ----------------------------------------------

    /// Position of a territory in the list.
    pub fn territory_index(&self, id: TerritoryId) -> (r: Option<usize>)
        ensures
            match r {
                Some(i) => i as int == territory_pos(self.territories@, id) && i < self.territories@.len(),
                None => territory_pos(self.territories@, id) == -1,
            },
    {
        let mut i: usize = 0;
        while i < self.territories.len()
            invariant
                i <= self.territories@.len(),
                territory_pos_from(self.territories@, id, i as int) == territory_pos(self.territories@, id),
            decreases self.territories@.len() - i,
        {
            if self.territories[i].id == id {
                return Some(i);
            }
            i = i + 1;
        }
        None
    }

    pub fn territory(&self, id: TerritoryId) -> (t: Option<&Territory>)
        ensures
            match t {
                Some(r) => find_territory(self.territories@, id) == Some(*r),
                None => find_territory(self.territories@, id) is None,
            },
    {
        match self.territory_index(id) {
            Some(i) => Some(&self.territories[i]),
            None => None,
        }
    }

    pub fn territory_mut(&mut self, id: TerritoryId) -> (t: Option<&mut Territory>)
        ensures
            match t {
                Some(r) => {
                    let i = territory_pos(old(self).territories@, id);
                    &&& i >= 0
                    &&& *r == old(self).territories@[i]
                    &&& final(self).territories@ == old(self).territories@.update(i, *final(r))
                },
                None => territory_pos(old(self).territories@, id) == -1 && final(self).territories == old(self).territories,
            },
            final(self).tiles == old(self).tiles,
            final(self).units == old(self).units,
            final(self).players == old(self).players,
            final(self).stats == old(self).stats,
            final(self).dominance_streak == old(self).dominance_streak,
            final(self).outcome == old(self).outcome,
            final(self).seed == old(self).seed,
            final(self).topology == old(self).topology,
            final(self).round == old(self).round,
            final(self).turn_index == old(self).turn_index,
            final(self).counters() == old(self).counters(),
    {
        match self.territory_index(id) {
            Some(i) => Some(&mut self.territories[i]),
            None => None,
        }
    }

    /// The territory a tile belongs to, if it is owned.
    pub fn territory_at(&self, tile: TileId) -> (t: Option<&Territory>)
        requires
            tile.0 < self.tiles@.len(),
        ensures
            match t {
                Some(r) => self.tiles@[tile.0 as int].territory matches Some(id) && find_territory(self.territories@, id) == Some(*r),
                None => match self.tiles@[tile.0 as int].territory {
                    Some(id) => find_territory(self.territories@, id) is None,
                    None => true,
                },
            },
    {
        match self.tiles[tile.index()].territory {
            Some(id) => self.territory(id),
            None => None,
        }
    }

    /// The territories of one faction, ascending by id.
    pub fn territories_of(&self, faction: Faction) -> (ts: Vec<&Territory>)
        ensures
            ts@.len() == self.territories@.filter(|t: Territory| t.faction == faction).len(),
            forall|k: int| 0 <= k < ts@.len() ==> *(#[trigger] ts@[k]) == self.territories@.filter(|t: Territory| t.faction == faction)[k],
    {
        let ghost p = |t: Territory| t.faction == faction;
        let mut ts: Vec<&Territory> = Vec::new();
        let mut i: usize = 0;
        while i < self.territories.len()
            invariant
                i <= self.territories@.len(),
                p == (|t: Territory| t.faction == faction),
                ts@.len() == self.territories@.take(i as int).filter(p).len(),
                forall|k: int| 0 <= k < ts@.len() ==> *(#[trigger] ts@[k]) == self.territories@.take(i as int).filter(p)[k],
            decreases self.territories@.len() - i,
        {
            proof {
                lemma_filter_take(self.territories@, p, i as int);
            }
            if self.territories[i].faction == faction {
                ts.push(&self.territories[i]);
            }
            i = i + 1;
        }
        proof {
            lemma_take_all(self.territories@);
        }
        ts
    }

    /// How many tiles of a kind a territory holds; 0 for an unknown one.
    pub fn count_kind_in(&self, territory: TerritoryId, kind: TileKind) -> (n: u32)
        requires
            self.wf(),
        ensures
            n == match find_territory(self.territories@, territory) {
                Some(t) => of_kind(self.tiles@, t.tiles@, kind).len(),
                None => 0,
            },
    {
        let idx = self.territory_index(territory);
        match idx {
            None => 0,
            Some(ti) => {
                let t = &self.territories[ti];
                proof {
                    assert(strictly_increasing(t.tiles@));
                    if t.tiles@.len() > 0 {
                        crate::tileset::lemma_increasing_bound(t.tiles@, self.tiles@.len() as int);
                    }
                }
                let mut n: u32 = 0;
                let mut i: usize = 0;
                while i < t.tiles.len()
                    invariant
                        i <= t.tiles@.len(),
                        t.tiles@.len() <= u32::MAX,
                        n == of_kind(self.tiles@, t.tiles@.take(i as int), kind).len(),
                        n <= i,
                        forall|k: int| 0 <= k < t.tiles@.len() ==> (#[trigger] t.tiles@[k]).0 < self.tiles@.len(),
                    decreases t.tiles@.len() - i,
                {
                    proof {
                        lemma_filter_take(t.tiles@, |x: TileId| 0 <= x.0 < self.tiles@.len() && self.tiles@[x.0 as int].kind == kind, i as int);
                    }
                    let x = t.tiles[i];
                    if self.tiles[x.index()].kind == kind {
                        n = n + 1;
                    }
                    i = i + 1;
                }
                proof {
                    lemma_take_all(t.tiles@);
                }
                n
            },
        }
    }

    // ---- unit access ---------------------------------------------------

    /// Position of a unit in the list.
    pub fn unit_index(&self, id: UnitId) -> (r: Option<usize>)
        ensures
            match r {
                Some(i) => i as int == unit_pos(self.units@, id) && i < self.units@.len(),
                None => unit_pos(self.units@, id) == -1,
            },
    {
        let mut i: usize = 0;
        while i < self.units.len()
            invariant
                i <= self.units@.len(),
                unit_pos_from(self.units@, id, i as int) == unit_pos(self.units@, id),
            decreases self.units@.len() - i,
        {
            if self.units[i].id == id {
                return Some(i);
            }
            i = i + 1;
        }
        None
    }

    pub fn unit(&self, id: UnitId) -> (u: Option<&Unit>)
        ensures
            match u {
                Some(r) => find_unit(self.units@, id) == Some(*r),
                None => find_unit(self.units@, id) is None,
            },
    {
        match self.unit_index(id) {
            Some(i) => Some(&self.units[i]),
            None => None,
        }
    }

    pub fn unit_mut(&mut self, id: UnitId) -> (u: Option<&mut Unit>)
        ensures
            match u {
                Some(r) => {
                    let i = unit_pos(old(self).units@, id);
                    &&& i >= 0
                    &&& *r == old(self).units@[i]
                    &&& final(self).units@ == old(self).units@.update(i, *final(r))
                },
                None => unit_pos(old(self).units@, id) == -1 && final(self).units == old(self).units,
            },
            final(self).tiles == old(self).tiles,
            final(self).territories == old(self).territories,
            final(self).players == old(self).players,
            final(self).stats == old(self).stats,
            final(self).dominance_streak == old(self).dominance_streak,
            final(self).outcome == old(self).outcome,
            final(self).seed == old(self).seed,
            final(self).topology == old(self).topology,
            final(self).round == old(self).round,
            final(self).turn_index == old(self).turn_index,
            final(self).counters() == old(self).counters(),
    {
        match self.unit_index(id) {
            Some(i) => Some(&mut self.units[i]),
            None => None,
        }
    }

    /// Units standing inside a territory, ascending by id; empty for an
    /// unknown territory. Units belong to territories only by where they
    /// stand.
    pub fn units_in(&self, territory: TerritoryId) -> (ids: Vec<UnitId>)
        requires
            self.wf(),
        ensures
            sorted_units(ids@),
            match find_territory(self.territories@, territory) {
                Some(t) => {
                    &&& ids@.len() == units_on(self.tiles@, t.tiles@).len()
                    &&& forall|u: UnitId| #[trigger] ids@.contains(u) <==> units_on(self.tiles@, t.tiles@).contains(u)
                    &&& ids@.to_multiset() == units_on(self.tiles@, t.tiles@).to_multiset()
                },
                None => ids@.len() == 0,
            },
    {
        let idx = self.territory_index(territory);
        match idx {
            None => Vec::new(),
            Some(ti) => {
                let t = &self.territories[ti];
                let ghost p = |x: TileId| 0 <= x.0 < self.tiles@.len() && self.tiles@[x.0 as int].unit is Some;
                let ghost f = |x: TileId| self.tiles@[x.0 as int].unit->0;
                let mut ids: Vec<UnitId> = Vec::new();
                let mut i: usize = 0;
                proof {
                    assert(t.tiles@.take(0).filter(p).map_values(f) =~= ids@);
                }
                while i < t.tiles.len()
                    invariant
                        i <= t.tiles@.len(),
                        p == (|x: TileId| 0 <= x.0 < self.tiles@.len() && self.tiles@[x.0 as int].unit is Some),
                        f == (|x: TileId| self.tiles@[x.0 as int].unit->0),
                        forall|k: int| 0 <= k < t.tiles@.len() ==> (#[trigger] t.tiles@[k]).0 < self.tiles@.len(),
                        sorted_units(ids@),
                        ids@.len() == t.tiles@.take(i as int).filter(p).len(),
                        forall|u: UnitId| #[trigger] ids@.contains(u) <==> t.tiles@.take(i as int).filter(p).map_values(f).contains(u),
                        ids@.to_multiset() == t.tiles@.take(i as int).filter(p).map_values(f).to_multiset(),
                    decreases t.tiles@.len() - i,
                {
                    let ghost prev = ids@;
                    let ghost pre = t.tiles@.take(i as int).filter(p);
                    proof {
                        lemma_filter_take(t.tiles@, p, i as int);
                    }
                    let x = t.tiles[i];
                    match self.tiles[x.index()].unit {
                        Some(u) => {
                            insert_sorted_unit(&mut ids, u);
                            proof {
                                let post = t.tiles@.take(i + 1).filter(p);
                                assert(post == pre.push(x));
                                assert(post.map_values(f) =~= pre.map_values(f).push(u));
                                vstd::seq_lib::to_multiset_build(pre.map_values(f), u);
                                assert forall|v: UnitId| #[trigger] ids@.contains(v) <==> post.map_values(f).contains(v) by {
                                    assert(ids@.contains(v) <==> (prev.contains(v) || v == u));
                                    assert(prev.contains(v) <==> pre.map_values(f).contains(v));
                                    if post.map_values(f).contains(v) {
                                        let k = choose|k: int| 0 <= k < post.map_values(f).len() && post.map_values(f)[k] == v;
                                        if k < pre.len() {
                                            assert(pre.map_values(f)[k] == v);
                                        }
                                    }
                                    if pre.map_values(f).contains(v) {
                                        let k = choose|k: int| 0 <= k < pre.map_values(f).len() && pre.map_values(f)[k] == v;
                                        assert(post.map_values(f)[k] == v);
                                    }
                                    if v == u {
                                        assert(post.map_values(f)[pre.len() as int] == v);
                                    }
                                }
                            }
                        },
                        None => {
                            proof {
                                assert(t.tiles@.take(i + 1).filter(p) == pre);
                                assert(t.tiles@.take(i + 1).filter(p).map_values(f) == pre.map_values(f));
                            }
                        },
                    }
                    i = i + 1;
                }
                proof {
                    lemma_take_all(t.tiles@);
                }
                ids
            },
        }
    }

    /// Units inside a territory whose kind is picked by `pick` (pawn,
    /// warrior, knight); 0 for an unknown territory.
    pub fn count_units_picked(&self, territory: TerritoryId, pick: (bool, bool, bool)) -> (n: u32)
        requires
            self.wf(),
        ensures
            n == match find_territory(self.territories@, territory) {
                Some(t) => t.tiles@.filter(unit_counted(self.tiles@, self.units@, pick)).len(),
                None => 0,
            },
    {
        let idx = self.territory_index(territory);
        match idx {
            None => 0,
            Some(ti) => {
                let t = &self.territories[ti];
                let ghost p = unit_counted(self.tiles@, self.units@, pick);
                proof {
                    if t.tiles@.len() > 0 {
                        crate::tileset::lemma_increasing_bound(t.tiles@, self.tiles@.len() as int);
                    }
                }
                let mut n: u32 = 0;
                let mut i: usize = 0;
                while i < t.tiles.len()
                    invariant
                        i <= t.tiles@.len(),
                        t.tiles@.len() <= u32::MAX,
                        p == unit_counted(self.tiles@, self.units@, pick),
                        n == t.tiles@.take(i as int).filter(p).len(),
                        n <= i,
                        forall|k: int| 0 <= k < t.tiles@.len() ==> (#[trigger] t.tiles@[k]).0 < self.tiles@.len(),
                    decreases t.tiles@.len() - i,
                {
                    proof {
                        lemma_filter_take(t.tiles@, p, i as int);
                    }
                    let x = t.tiles[i];
                    match self.tiles[x.index()].unit {
                        Some(uid) => match self.unit(uid) {
                            Some(u) => {
                                let picked = match u.kind {
                                    UnitKind::Pawn => pick.0,
                                    UnitKind::Warrior => pick.1,
                                    UnitKind::Knight => pick.2,
                                };
                                if picked {
                                    n = n + 1;
                                }
                            },
                            None => {},
                        },
                        None => {},
                    }
                    i = i + 1;
                }
                proof {
                    lemma_take_all(t.tiles@);
                }
                n
            },
        }
    }

    /// Units inside a territory whose kind passes `filter`.
    pub fn count_units_in<F: Fn(UnitKind) -> bool>(&self, territory: TerritoryId, filter: F) -> (n: u32)
        requires
            self.wf(),
            forall|k: UnitKind| call_requires(filter, (k,)),
        ensures
            exists|pick: (bool, bool, bool)|
                {
                    &&& call_ensures(filter, (UnitKind::Pawn,), pick.0)
                    &&& call_ensures(filter, (UnitKind::Warrior,), pick.1)
                    &&& call_ensures(filter, (UnitKind::Knight,), pick.2)
                    &&& n == match find_territory(self.territories@, territory) {
                        Some(t) => t.tiles@.filter(unit_counted(self.tiles@, self.units@, pick)).len(),
                        None => 0,
                    }
                },
    {
        let a = filter(UnitKind::Pawn);
        let b = filter(UnitKind::Warrior);
        let c = filter(UnitKind::Knight);
        let pick = (a, b, c);
        let n = self.count_units_picked(territory, pick);
        assert(call_ensures(filter, (UnitKind::Pawn,), pick.0));
        assert(call_ensures(filter, (UnitKind::Warrior,), pick.1));
        assert(call_ensures(filter, (UnitKind::Knight,), pick.2));
        n
    }

    // ---- players -------------------------------------------------------

    pub fn current_player(&self) -> (p: Option<&Player>)
        ensures
            p == (if self.turn_index < self.players@.len() {
                Some(&self.players@[self.turn_index as int])
            } else {
                None
            }),
    {
        if self.turn_index < self.players.len() {
            Some(&self.players[self.turn_index])
        } else {
            None
        }
    }

    pub fn current_faction(&self) -> (f: Option<Faction>)
        ensures
            f == current_faction_of(self.players@, self.turn_index),
    {
        if self.turn_index < self.players.len() {
            Some(self.players[self.turn_index].faction)
        } else {
            None
        }
    }

    /// The first player of a faction.
    pub fn player(&self, faction: Faction) -> (p: Option<&Player>)
        ensures
            match p {
                Some(pl) => exists|i: int| 0 <= i < self.players@.len() && *pl == self.players@[i]
                    && pl.faction == faction && forall|j: int| 0 <= j < i ==> (#[trigger] self.players@[j]).faction != faction,
                None => forall|j: int| 0 <= j < self.players@.len() ==> (#[trigger] self.players@[j]).faction != faction,
            },
    {
        let mut i: usize = 0;
        while i < self.players.len()
            invariant
                i <= self.players@.len(),
                forall|j: int| 0 <= j < i ==> (#[trigger] self.players@[j]).faction != faction,
            decreases self.players@.len() - i,
        {
            if self.players[i].faction == faction {
                return Some(&self.players[i]);
            }
            i = i + 1;
        }
        None
    }

    pub fn is_over(&self) -> (b: bool)
        ensures
            b == self.outcome is Some,
    {
        self.outcome.is_some()
    }

    /// The running totals of a faction, created empty on first use.
    pub fn stats_mut(&mut self, faction: Faction) -> (s: &mut FactionStats)
        requires
            old(self).stats@.len() == 4,
        ensures
            *s == stats_or_zero(old(self).stats@, faction),
            final(self).stats@ == old(self).stats@.update(faction_ordinal(faction) as int, Some(*final(s))),
            final(self).tiles == old(self).tiles,
            final(self).units == old(self).units,
            final(self).territories == old(self).territories,
            final(self).players == old(self).players,
            final(self).dominance_streak == old(self).dominance_streak,
            final(self).outcome == old(self).outcome,
            final(self).seed == old(self).seed,
            final(self).topology == old(self).topology,
            final(self).round == old(self).round,
            final(self).turn_index == old(self).turn_index,
            final(self).counters() == old(self).counters(),
    {
        let i = faction.ordinal() as usize;
        self.stats[i].get_or_insert(FactionStats::default())
    }

    /// The running totals of a faction, all zero when nothing is recorded.
    pub fn stats_of(&self, faction: Faction) -> (s: FactionStats)
        requires
            self.stats@.len() == 4,
        ensures
            s == stats_or_zero(self.stats@, faction),
    {
        match self.stats[faction.ordinal() as usize] {
            Some(s) => s,
            None => FactionStats::default(),
        }
    }

    // ---- id allocation -------------------------------------------------

    /// A fresh unit id. Ids are never reused within a match.
    pub fn alloc_unit_id(&mut self) -> (id: UnitId)
        requires
            old(self).counters().0 < u32::MAX,
        ensures
            id.0 == old(self).counters().0,
            final(self).counters() == (
                (old(self).counters().0 + 1) as u32,
                old(self).counters().1,
                old(self).counters().2,
            ),
            final(self).same_except_counters(*old(self)),
    {
        let id = UnitId(self.counters.next_unit);
        self.counters.next_unit = self.counters.next_unit + 1;
        id
    }

    /// A fresh territory id. Ids are never reused within a match.
    pub fn alloc_territory_id(&mut self) -> (id: TerritoryId)
        requires
            old(self).counters().1 < u32::MAX,
        ensures
            id.0 == old(self).counters().1,
            final(self).counters() == (
                old(self).counters().0,
                (old(self).counters().1 + 1) as u32,
                old(self).counters().2,
            ),
            final(self).same_except_counters(*old(self)),
    {
        let id = TerritoryId(self.counters.next_territory);
        self.counters.next_territory = self.counters.next_territory + 1;
        id
    }

    /// The next creation stamp, which orders who starves first.
    pub fn alloc_born(&mut self) -> (n: u32)
        requires
            old(self).counters().2 < u32::MAX,
        ensures
            n == old(self).counters().2,
            final(self).counters() == (
                old(self).counters().0,
                old(self).counters().1,
                (old(self).counters().2 + 1) as u32,
            ),
            final(self).same_except_counters(*old(self)),
    {
        let n = self.counters.next_born;
        self.counters.next_born = self.counters.next_born + 1;
        n
    }

    /// Replace one tile.
    pub fn set_tile(&mut self, id: TileId, tile: Tile)
        requires
            id.0 < old(self).tiles@.len(),
        ensures
            final(self).tiles@ == old(self).tiles@.update(id.0 as int, tile),
            final(self).same_except_tiles(*old(self)),
            old(self).wf() ==> final(self).wf(),
    {
        self.tiles.set(id.index(), tile);
    }

    /// Remove the unit at a position in the unit list.
    pub fn remove_unit_at(&mut self, i: usize) -> (u: Unit)
        requires
            i < old(self).units@.len(),
        ensures
            u == old(self).units@[i as int],
            final(self).units@ == old(self).units@.remove(i as int),
            final(self).tiles == old(self).tiles,
            final(self).territories == old(self).territories,
            final(self).players == old(self).players,
            final(self).stats == old(self).stats,
            final(self).dominance_streak == old(self).dominance_streak,
            final(self).outcome == old(self).outcome,
            final(self).seed == old(self).seed,
            final(self).topology == old(self).topology,
            final(self).round == old(self).round,
            final(self).turn_index == old(self).turn_index,
            final(self).counters() == old(self).counters(),
            old(self).wf() ==> final(self).wf(),
    {
        let u = self.units.remove(i);
        proof {
            let o = old(self).units@;
            let nw = self.units@;
            if old(self).wf() {
                assert forall|a: int, b: int| 0 <= a < b < nw.len() implies nw[a].id.0 < nw[b].id.0 by {
                    let oa = if a < i { a } else { a + 1 };
                    let ob = if b < i { b } else { b + 1 };
                    assert(nw[a] == o[oa]);
                    assert(nw[b] == o[ob]);
                }
                assert forall|a: int| 0 <= a < nw.len() implies #[trigger] nw[a].tile.0 < self.tiles@.len() && nw[a].id.0 < self.counters().0 by {
                    let oa = if a < i { a } else { a + 1 };
                    assert(nw[a] == o[oa]);
                }
            }
        }
        u
    }

    /// Add a territory, keeping the list ascending by id; one with the same
    /// id is replaced.
    pub fn put_territory(&mut self, t: Territory)
        requires
            old(self).wf(),
            strictly_increasing(t.tiles@),
            forall|k: int| 0 <= k < t.tiles@.len() ==> (#[trigger] t.tiles@[k]).0 < old(self).tiles@.len(),
            t.capital.0 < old(self).tiles@.len(),
            t.id.0 < old(self).counters().1,
        ensures
            final(self).wf(),
            final(self).same_except_territories(*old(self)),
            find_territory(final(self).territories@, t.id) == Some(t),
            forall|id: TerritoryId| id != t.id ==> find_territory(final(self).territories@, id) == find_territory(old(self).territories@, id),
    {
        let mut p: usize = 0;
        while p < self.territories.len() && self.territories[p].id.0 < t.id.0
            invariant
                p <= self.territories@.len(),
                forall|j: int| 0 <= j < p ==> self.territories@[j].id.0 < t.id.0,
            decreases self.territories@.len() - p,
        {
            p = p + 1;
        }
        let ghost o = self.territories@;
        if p < self.territories.len() && self.territories[p].id.0 == t.id.0 {
            self.territories.set(p, t);
            proof {
                let nw = self.territories@;
                assert forall|a: int, b: int| 0 <= a < b < nw.len() implies nw[a].id.0 < nw[b].id.0 by {
                    assert(o[a].id.0 < o[b].id.0);
                }
                assert forall|id: TerritoryId| true implies find_territory(nw, id) == (if id == t.id { Some(t) } else { find_territory(o, id) }) by {
                    lemma_territory_pos_from(nw, id, 0);
                    lemma_territory_pos_from(o, id, 0);
                    if id == t.id {
                        lemma_find_territory_ascending(nw, p as int);
                    } else {
                        let pn = territory_pos(nw, id);
                        let po = territory_pos(o, id);
                        if pn >= 0 {
                            assert(nw[pn] == o[pn]);
                            lemma_find_territory_ascending(o, pn);
                        }
                        if po >= 0 {
                            assert(po != p);
                            assert(nw[po] == o[po]);
                            lemma_find_territory_ascending(nw, po);
                        }
                    }
                }
            }
        } else {
            self.territories.insert(p, t);
            proof {
                let nw = self.territories@;
                assert forall|a: int, b: int| 0 <= a < b < nw.len() implies nw[a].id.0 < nw[b].id.0 by {
                    if a < p && b < p {
                        assert(o[a].id.0 < o[b].id.0);
                    } else if a < p && b == p {
                    } else if a < p {
                        assert(o[a].id.0 < o[b - 1].id.0 || a == b - 1);
                        assert(nw[b] == o[b - 1]);
                        if p < o.len() {
                            assert(o[p as int].id.0 > t.id.0);
                            assert(o[p as int].id.0 <= o[b - 1].id.0 || p as int == b - 1);
                        }
                    } else if a == p {
                        assert(nw[b] == o[b - 1]);
                        assert(o[p as int].id.0 > t.id.0);
                        assert(o[p as int].id.0 <= o[b - 1].id.0 || p as int == b - 1);
                    } else {
                        assert(nw[a] == o[a - 1]);
                        assert(nw[b] == o[b - 1]);
                    }
                }
                assert forall|id: TerritoryId| true implies find_territory(nw, id) == (if id == t.id { Some(t) } else { find_territory(o, id) }) by {
                    lemma_territory_pos_from(nw, id, 0);
                    lemma_territory_pos_from(o, id, 0);
                    if id == t.id {
                        lemma_find_territory_ascending(nw, p as int);
                    } else {
                        let pn = territory_pos(nw, id);
                        let po = territory_pos(o, id);
                        if pn >= 0 {
                            assert(pn != p);
                            let q = if pn < p { pn } else { pn - 1 };
                            assert(nw[pn] == o[q]);
                            lemma_find_territory_ascending(o, q);
                        }
                        if po >= 0 {
                            let q = if po < p { po } else { po + 1 };
                            assert(nw[q] == o[po]);
                            lemma_find_territory_ascending(nw, q);
                        }
                    }
                }
            }
        }
        proof {
            let nw = self.territories@;
            assert forall|i: int| 0 <= i < nw.len() implies {
                &&& strictly_increasing((#[trigger] nw[i]).tiles@)
                &&& forall|k: int| 0 <= k < nw[i].tiles@.len() ==> (#[trigger] nw[i].tiles@[k]).0 < self.tiles@.len()
                &&& nw[i].capital.0 < self.tiles@.len()
                &&& nw[i].id.0 < self.counters().1
            } by {
                if nw[i] != t {
                    if exists|j: int| 0 <= j < o.len() && o[j] == nw[i] {
                        let j = choose|j: int| 0 <= j < o.len() && o[j] == nw[i];
                        assert(o[j] == nw[i]);
                    } else {
                        if p < nw.len() && i == p {
                        } else {
                            let q = if i < p { i } else if nw.len() == o.len() { i } else { i - 1 };
                            assert(nw[i] == o[q]);
                        }
                    }
                }
            }
        }
    }

    /// Keep only the territories of other factions.
    pub fn drop_territories_of(&mut self, faction: Faction)
        requires
            old(self).wf(),
        ensures
            final(self).wf(),
            final(self).same_except_territories(*old(self)),
            forall|i: int| 0 <= i < final(self).territories@.len() ==> (#[trigger] final(self).territories@[i]).faction != faction,
            forall|id: TerritoryId| #[trigger] find_territory(final(self).territories@, id) == match find_territory(old(self).territories@, id) {
                Some(t) => if t.faction == faction { None } else { Some(t) },
                None => None,
            },
    {
        let ghost o = self.territories@;
        let mut kept: Vec<Territory> = Vec::new();
        let mut old_list: Vec<Territory> = Vec::new();
        std::mem::swap(&mut old_list, &mut self.territories);
        let ghost src = old_list@;
        let total = old_list.len();
        let mut i: usize = 0;
        let ghost mut map: Seq<int> = Seq::empty();
        while old_list.len() > 0
            invariant
                total == src.len(),
                old_list@ == src.skip(i as int),
                src == o,
                i <= src.len(),
                territories_ascending(src),
                map.len() == kept@.len(),
                forall|k: int| 0 <= k < map.len() ==> 0 <= #[trigger] map[k] < i && kept@[k] == src[map[k]] && src[map[k]].faction != faction,
                forall|a: int, b: int| 0 <= a < b < map.len() ==> map[a] < map[b],
                forall|j: int| 0 <= j < i && src[j].faction != faction ==> exists|k: int| 0 <= k < map.len() && #[trigger] map[k] == j,
            decreases old_list@.len(),
        {
            proof {
                assert(src.skip(i as int).len() == src.len() - i);
            }
            let t = old_list.remove(0);
            proof {
                assert(t == src[i as int]);
            }
            let ghost before_map = map;
            if t.faction != faction {
                kept.push(t);
                proof {
                    map = map.push(i as int);
                }
            }
            proof {
                assert(old_list@ =~= src.skip(i + 1));
                assert forall|j: int| 0 <= j < i + 1 && src[j].faction != faction implies exists|k: int| 0 <= k < map.len() && #[trigger] map[k] == j by {
                    if j < i {
                        let k = choose|k: int| 0 <= k < before_map.len() && #[trigger] before_map[k] == j;
                        assert(map[k] == j);
                    } else {
                        assert(map[map.len() - 1] == j);
                    }
                }
            }
            i = i + 1;
        }
        proof {
            assert(src.skip(i as int).len() == 0);
        }
        self.territories = kept;
        proof {
            let nw = self.territories@;
            assert forall|a: int, b: int| 0 <= a < b < nw.len() implies nw[a].id.0 < nw[b].id.0 by {
                assert(src[map[a]].id.0 < src[map[b]].id.0);
            }
            assert forall|k: int| 0 <= k < nw.len() implies (#[trigger] nw[k]).faction != faction by {
                assert(nw[k] == src[map[k]]);
            }
            assert forall|k: int| 0 <= k < nw.len() implies {
                &&& strictly_increasing((#[trigger] nw[k]).tiles@)
                &&& forall|q: int| 0 <= q < nw[k].tiles@.len() ==> (#[trigger] nw[k].tiles@[q]).0 < self.tiles@.len()
                &&& nw[k].capital.0 < self.tiles@.len()
            } by {
                assert(nw[k] == src[map[k]]);
            }
            assert forall|k: int| 0 <= k < nw.len() implies (#[trigger] nw[k]).id.0 < self.counters().1 by {
                assert(nw[k] == src[map[k]]);
            }
            assert forall|id: TerritoryId| #[trigger] find_territory(nw, id) == match find_territory(o, id) {
                Some(t) => if t.faction == faction { None } else { Some(t) },
                None => None,
            } by {
                lemma_territory_pos_from(nw, id, 0);
                lemma_territory_pos_from(o, id, 0);
                let pn = territory_pos(nw, id);
                let po = territory_pos(o, id);
                if pn >= 0 {
                    let j = map[pn];
                    lemma_find_territory_ascending(o, j);
                }
                if po >= 0 && o[po].faction != faction {
                    let k = choose|k: int| 0 <= k < map.len() && #[trigger] map[k] == po;
                    lemma_find_territory_ascending(nw, k);
                }
            }
        }
    }

    pub open spec fn same_except_tiles(&self, other: World) -> bool {
        &&& self.seed == other.seed
        &&& self.topology == other.topology
        &&& self.round == other.round
        &&& self.turn_index == other.turn_index
        &&& self.units == other.units
        &&& self.territories == other.territories
        &&& self.players == other.players
        &&& self.stats == other.stats
        &&& self.dominance_streak == other.dominance_streak
        &&& self.outcome == other.outcome
        &&& self.counters() == other.counters()
    }

    pub open spec fn same_except_units(&self, other: World) -> bool {
        &&& self.seed == other.seed
        &&& self.topology == other.topology
        &&& self.round == other.round
        &&& self.turn_index == other.turn_index
        &&& self.tiles == other.tiles
        &&& self.territories == other.territories
        &&& self.players == other.players
        &&& self.stats == other.stats
        &&& self.dominance_streak == other.dominance_streak
        &&& self.outcome == other.outcome
        &&& self.counters() == other.counters()
    }

    pub open spec fn same_except_stats(&self, other: World) -> bool {
        &&& self.seed == other.seed
        &&& self.topology == other.topology
        &&& self.round == other.round
        &&& self.turn_index == other.turn_index
        &&& self.tiles == other.tiles
        &&& self.units == other.units
        &&& self.territories == other.territories
        &&& self.players == other.players
        &&& self.dominance_streak == other.dominance_streak
        &&& self.outcome == other.outcome
        &&& self.counters() == other.counters()
    }

    pub open spec fn same_except_territories(&self, other: World) -> bool {
        &&& self.seed == other.seed
        &&& self.topology == other.topology
        &&& self.round == other.round
        &&& self.turn_index == other.turn_index
        &&& self.units == other.units
        &&& self.tiles == other.tiles
        &&& self.players == other.players
        &&& self.stats == other.stats
        &&& self.dominance_streak == other.dominance_streak
        &&& self.outcome == other.outcome
        &&& self.counters() == other.counters()
    }

    /// Record a faction's running totals.
    pub fn set_stats(&mut self, faction: Faction, s: FactionStats)
        requires
            old(self).stats@.len() == 4,
        ensures
            final(self).stats@ == old(self).stats@.update(faction_ordinal(faction) as int, Some(s)),
            final(self).tiles == old(self).tiles,
            final(self).units == old(self).units,
            final(self).territories == old(self).territories,
            final(self).players == old(self).players,
            final(self).dominance_streak == old(self).dominance_streak,
            final(self).outcome == old(self).outcome,
            final(self).seed == old(self).seed,
            final(self).topology == old(self).topology,
            final(self).round == old(self).round,
            final(self).turn_index == old(self).turn_index,
            final(self).counters() == old(self).counters(),
            old(self).wf() ==> final(self).wf(),
    {
        self.stats.set(faction.ordinal() as usize, Some(s));
    }

    /// Change the treasury of the territory at a position in the list.
    pub fn set_treasury(&mut self, i: usize, wheat: i32, gold: i32)
        requires
            i < old(self).territories@.len(),
        ensures
            final(self).territories@.len() == old(self).territories@.len(),
            final(self).territories@[i as int]@ == (TerritoryModel { wheat, gold, ..old(self).territories@[i as int]@ }),
            forall|j: int| 0 <= j < old(self).territories@.len() && j != i ==> final(self).territories@[j] == old(self).territories@[j],
            final(self).tiles == old(self).tiles,
            final(self).units == old(self).units,
            final(self).players == old(self).players,
            final(self).stats == old(self).stats,
            final(self).dominance_streak == old(self).dominance_streak,
            final(self).outcome == old(self).outcome,
            final(self).seed == old(self).seed,
            final(self).topology == old(self).topology,
            final(self).round == old(self).round,
            final(self).turn_index == old(self).turn_index,
            final(self).counters() == old(self).counters(),
            old(self).wf() ==> final(self).wf(),
            forall|id: TerritoryId| #[trigger] territory_pos(final(self).territories@, id) == territory_pos(old(self).territories@, id),
    {
        let ghost o = self.territories@;
        let mut t = self.territories.remove(i);
        t.wheat = wheat;
        t.gold = gold;
        self.territories.insert(i, t);
        proof {
            let nw = self.territories@;
            assert forall|j: int| 0 <= j < o.len() && j != i implies nw[j] == o[j] by {}
            assert forall|id: TerritoryId| #[trigger] territory_pos(nw, id) == territory_pos(o, id) by {
                lemma_pos_same(nw, o, id, 0);
            }
            if old(self).wf() {
                assert forall|a: int, b: int| 0 <= a < b < nw.len() implies nw[a].id.0 < nw[b].id.0 by {
                    assert(nw[a].id == o[a].id);
                    assert(nw[b].id == o[b].id);
                }
                assert forall|k: int| 0 <= k < nw.len() implies {
                    &&& strictly_increasing((#[trigger] nw[k]).tiles@)
                    &&& forall|q: int| 0 <= q < nw[k].tiles@.len() ==> (#[trigger] nw[k].tiles@[q]).0 < self.tiles@.len()
                    &&& nw[k].capital.0 < self.tiles@.len()
                } by {
                    assert(nw[k].tiles@ == o[k].tiles@);
                    assert(nw[k].capital == o[k].capital);
                }
                assert forall|k: int| 0 <= k < nw.len() implies (#[trigger] nw[k]).id.0 < self.counters().1 by {
                    assert(nw[k].id == o[k].id);
                }
            }
        }
    }

    /// Replace the unit at a position with one of the same id.
    pub fn set_unit_at(&mut self, i: usize, u: Unit)
        requires
            i < old(self).units@.len(),
            u.id == old(self).units@[i as int].id,
            u.tile.0 < old(self).tiles@.len(),
        ensures
            final(self).units@ == old(self).units@.update(i as int, u),
            final(self).same_except_units(*old(self)),
            old(self).wf() ==> final(self).wf(),
    {
        self.units.set(i, u);
        proof {
            if old(self).wf() {
                let o = old(self).units@;
                let nw = self.units@;
                assert forall|a: int, b: int| 0 <= a < b < nw.len() implies nw[a].id.0 < nw[b].id.0 by {
                    assert(nw[a].id == o[a].id);
                    assert(nw[b].id == o[b].id);
                }
                assert forall|a: int| 0 <= a < nw.len() implies (#[trigger] nw[a]).tile.0 < self.tiles@.len() && nw[a].id.0 < self.counters().0 by {
                    assert(nw[a].id == o[a].id);
                }
            }
        }
    }

    /// Add a unit whose id is newer than every unit's.
    pub fn add_unit(&mut self, u: Unit)
        requires
            old(self).wf(),
            u.tile.0 < old(self).tiles@.len(),
            u.id.0 < old(self).counters().0,
            forall|i: int| 0 <= i < old(self).units@.len() ==> (#[trigger] old(self).units@[i]).id.0 < u.id.0,
        ensures
            final(self).wf(),
            final(self).units@ == old(self).units@.push(u),
            final(self).same_except_units(*old(self)),
    {
        self.units.push(u);
    }

    /// Room left in the id counters for any one command: a unit, a stamp,
    /// and a territory id for every tile twice over.
    pub open spec fn headroom(&self) -> bool {
        &&& self.counters().0 < u32::MAX
        &&& self.counters().2 < u32::MAX
        &&& self.counters().1 + 2 * self.tiles@.len() <= u32::MAX
    }

    pub fn has_headroom(&self) -> (b: bool)
        ensures
            b == self.headroom(),
    {
        let n = self.tiles.len();
        if n > u32::MAX as usize {
            return false;
        }
        self.counters.next_unit < u32::MAX && self.counters.next_born < u32::MAX && (self.counters.next_territory as u64)
            + 2 * (n as u64) <= u32::MAX as u64
    }

    /// An identical, independent copy.
    pub fn snapshot(&self) -> (w: World)
        ensures
            same_world(w, *self),
    {
        let mut territories: Vec<Territory> = Vec::new();
        let mut i: usize = 0;
        while i < self.territories.len()
            invariant
                i <= self.territories@.len(),
                territories@.len() == i,
                forall|j: int| 0 <= j < i ==> (#[trigger] territories@[j])@ == self.territories@[j]@,
            decreases self.territories@.len() - i,
        {
            territories.push(self.territories[i].duplicate());
            i = i + 1;
        }
        let mut players: Vec<Player> = Vec::new();
        let mut i: usize = 0;
        while i < self.players.len()
            invariant
                i <= self.players@.len(),
                players@.len() == i,
                forall|j: int| 0 <= j < i ==> same_player(#[trigger] players@[j], self.players@[j]),
            decreases self.players@.len() - i,
        {
            players.push(self.players[i].duplicate());
            i = i + 1;
        }
        let tiles = self.tiles.clone();
        let units = self.units.clone();
        let stats = self.stats.clone();
        let dominance_streak = self.dominance_streak.clone();
        proof {
            assert(tiles@ =~= self.tiles@);
            assert(units@ =~= self.units@);
            assert(stats@ =~= self.stats@);
            assert(dominance_streak@ =~= self.dominance_streak@);
        }
        World {
            seed: self.seed,
            topology: share(&self.topology),
            round: self.round,
            turn_index: self.turn_index,
            tiles,
            units,
            territories,
            players,
            stats,
            dominance_streak,
            outcome: self.outcome,
            counters: self.counters,
        }
    }

    /// Every field but the allocation counters agrees.
    pub open spec fn same_except_counters(&self, other: World) -> bool {
        &&& self.seed == other.seed
        &&& self.topology == other.topology
        &&& self.round == other.round
        &&& self.turn_index == other.turn_index
        &&& self.tiles == other.tiles
        &&& self.units == other.units
        &&& self.territories == other.territories
        &&& self.players == other.players
        &&& self.stats == other.stats
        &&& self.dominance_streak == other.dominance_streak
        &&& self.outcome == other.outcome
    }
}

/// Two players agree on everything.
pub open spec fn same_player(a: Player, b: Player) -> bool {
    a.faction == b.faction && a.eliminated == b.eliminated && a.controller@ == b.controller@
}

/// Two worlds hold the same state.
pub open spec fn same_world(a: World, b: World) -> bool {
    &&& a.seed == b.seed
    &&& a.topology == b.topology
    &&& a.round == b.round
    &&& a.turn_index == b.turn_index
    &&& a.tiles@ == b.tiles@
    &&& a.units@ == b.units@
    &&& a.territories@.len() == b.territories@.len()
    &&& forall|i: int| 0 <= i < a.territories@.len() ==> (#[trigger] a.territories@[i])@ == b.territories@[i]@
    &&& a.players@.len() == b.players@.len()
    &&& forall|i: int| 0 <= i < a.players@.len() ==> same_player(#[trigger] a.players@[i], b.players@[i])
    &&& a.stats@ == b.stats@
    &&& a.dominance_streak@ == b.dominance_streak@
    &&& a.outcome == b.outcome
    &&& a.counters() == b.counters()
}

/// Equal states are equally well formed.
pub proof fn lemma_same_world_wf(a: World, b: World)
    requires
        same_world(a, b),
        b.wf(),
    ensures
        a.wf(),
{
    assert forall|i: int| 0 <= i < a.territories@.len() implies {
        &&& strictly_increasing((#[trigger] a.territories@[i]).tiles@)
        &&& forall|k: int| 0 <= k < a.territories@[i].tiles@.len() ==> (#[trigger] a.territories@[i].tiles@[k]).0 < a.tiles@.len()
        &&& a.territories@[i].capital.0 < a.tiles@.len()
    } by {
        assert(a.territories@[i]@ == b.territories@[i]@);
    }
    assert forall|i: int, j: int| 0 <= i < j < a.territories@.len() implies a.territories@[i].id.0 < a.territories@[j].id.0 by {
        assert(a.territories@[i]@ == b.territories@[i]@);
        assert(a.territories@[j]@ == b.territories@[j]@);
    }
    assert forall|i: int| 0 <= i < a.territories@.len() implies (#[trigger] a.territories@[i]).id.0 < a.counters().1 by {
        assert(a.territories@[i]@ == b.territories@[i]@);
    }
}

/// Another handle on the same shared topology.
#[verifier::external_body]
fn share(t: &Arc<Topology>) -> (r: Arc<Topology>)
    ensures
        r == *t,
{
    Arc::clone(t)
}

/// Whether `pick` (pawn, warrior, knight) selects a kind.
pub open spec fn kind_picked(k: UnitKind, pick: (bool, bool, bool)) -> bool {
    match k {
        UnitKind::Pawn => pick.0,
        UnitKind::Warrior => pick.1,
        UnitKind::Knight => pick.2,
    }
}

/// A tile holding a live unit whose kind `pick` selects.
pub open spec fn unit_counted(tiles: Seq<Tile>, units: Seq<Unit>, pick: (bool, bool, bool)) -> spec_fn(TileId) -> bool {
    |x: TileId| 0 <= x.0 < tiles.len() && match tiles[x.0 as int].unit {
        Some(id) => match find_unit(units, id) {
            Some(u) => kind_picked(u.kind, pick),
            None => false,
        },
        None => false,
    }
}

/// The faction whose turn it is.
pub open spec fn current_faction_of(players: Seq<Player>, turn_index: usize) -> Option<Faction> {
    if turn_index < players.len() {
        Some(players[turn_index as int].faction)
    } else {
        None
    }
}

/// The totals recorded for a faction, or all zero.
pub open spec fn stats_or_zero(stats: Seq<Option<FactionStats>>, f: Faction) -> FactionStats {
    match stats[faction_ordinal(f) as int] {
        Some(s) => s,
        None => zero_stats(),
    }
}

/// Ascending, repeats allowed.
pub open spec fn sorted_units(s: Seq<UnitId>) -> bool {
    forall|i: int, j: int| 0 <= i < j < s.len() ==> s[i].0 <= s[j].0
}

/// Insert a unit id into an ascending list, after any equal ids.
pub fn insert_sorted_unit(v: &mut Vec<UnitId>, u: UnitId)
    requires
        sorted_units(old(v)@),
    ensures
        sorted_units(final(v)@),
        final(v)@.len() == old(v)@.len() + 1,
        forall|x: UnitId| #[trigger] final(v)@.contains(x) <==> (old(v)@.contains(x) || x == u),
        final(v)@.to_multiset() == old(v)@.to_multiset().insert(u),
{
    let mut p: usize = 0;
    while p < v.len() && v[p].0 <= u.0
        invariant
            p <= v@.len(),
            forall|j: int| 0 <= j < p ==> v@[j].0 <= u.0,
        decreases v@.len() - p,
    {
        p = p + 1;
    }
    let ghost before = v@;
    v.insert(p, u);
    proof {
        vstd::seq_lib::to_multiset_insert(before, p as int, u);
    }
    assert forall|x: UnitId| #[trigger] v@.contains(x) <==> (before.contains(x) || x == u) by {
        if v@.contains(x) {
            let k = choose|k: int| 0 <= k < v@.len() && v@[k] == x;
            if k < p {
                assert(before[k] == x);
            } else if k > p {
                assert(before[k - 1] == x);
            }
        }
        if before.contains(x) {
            let k = choose|k: int| 0 <= k < before.len() && before[k] == x;
            if k < p {
                assert(v@[k] == x);
            } else {
                assert(v@[k + 1] == x);
            }
        }
        if x == u {
            assert(v@[p as int] == u);
        }
    }
}

} // verus!
