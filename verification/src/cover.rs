//! Ground cover: villages, woods and fields sown in clumps over the land of a
//! freshly grown planet.
//!
//! Each kind claims its share of the land in turn. A clump starts on a random
//! bare land tile and spreads outward ring by ring, each neighbour joining
//! with a chance that thins from ring to ring until it falls to the floor.

use crate::digest::{fnv1a_spec, le_u32, Digest};
use crate::ids::TileId;
use crate::pack::{packed_bytes, word_count, write_packed};
use crate::rng::{stream, Rng, SeedDomain};
use crate::rules::TileKind;
use crate::state::Terrain;
use crate::terrain::{land_in, TerrainMap};
use crate::topology::Topology;
use vstd::prelude::*;

verus! {

/// What covers a land tile.
#[derive(Debug, Clone, Copy, PartialEq, Eq, Structural, PartialOrd, Ord, Hash)]
pub enum Cover {
    Village,
    Forest,
    Field,
}

/// The tile kind the simulation is told a cover is.
pub open spec fn spec_tile_kind(c: Cover) -> TileKind {
    match c {
        Cover::Village => TileKind::Town,
        Cover::Forest => TileKind::Forest,
        Cover::Field => TileKind::Field,
    }
}

/// Position of a cover in the seeding order.
pub open spec fn cover_ordinal(c: Cover) -> int {
    match c {
        Cover::Village => 0,
        Cover::Forest => 1,
        Cover::Field => 2,
    }
}

impl Cover {
    /// Every cover, in seeding order: villages, then woods, then fields.
    pub const ALL: [Cover; 3] = [Cover::Village, Cover::Forest, Cover::Field];

    /// The tile kind the simulation is told this cover is.
    pub fn tile_kind(self) -> (k: TileKind)
        ensures
            k == spec_tile_kind(self),
    {
        match self {
            Cover::Village => TileKind::Town,
            Cover::Forest => TileKind::Forest,
            Cover::Field => TileKind::Field,
        }
    }

    fn ordinal(self) -> (i: usize)
        ensures
            i == cover_ordinal(self),
    {
        match self {
            Cover::Village => 0,
            Cover::Forest => 1,
            Cover::Field => 2,
        }
    }
}

/// The two-bit code a tile's cover is fingerprinted as.
pub open spec fn cover_code(c: Option<Cover>) -> u32 {
    match c {
        None => 0,
        Some(Cover::Village) => 1,
        Some(Cover::Forest) => 2,
        Some(Cover::Field) => 3,
    }
}

fn code_of(c: Option<Cover>) -> (n: u32)
    ensures
        n == cover_code(c),
{
    match c {
        None => 0,
        Some(Cover::Village) => 1,
        Some(Cover::Forest) => 2,
        Some(Cover::Field) => 3,
    }
}

/// How much of the land one kind claims, and how tightly it clumps.
#[derive(Debug, Clone, Copy, PartialEq, Eq, Structural)]
pub struct CoverKindRules {
    /// Share of the land tiles this kind claims, as a percentage.
    pub share_percent: u32,
    /// Chance, as a percentage, that a neighbour of the first ring joins.
    pub cling_percent: u32,
}

/// The rules of each cover kind that has them.
#[derive(Debug, Clone, PartialEq, Eq)]
pub struct CoverTable {
    village: Option<CoverKindRules>,
    forest: Option<CoverKindRules>,
    field: Option<CoverKindRules>,
}

impl CoverTable {
    pub closed spec fn spec_get(&self, c: Cover) -> Option<CoverKindRules> {
        match c {
            Cover::Village => self.village,
            Cover::Forest => self.forest,
            Cover::Field => self.field,
        }
    }

    pub fn new() -> (t: CoverTable)
        ensures
            forall|c: Cover| t.spec_get(c) is None,
    {
        CoverTable { village: None, forest: None, field: None }
    }

    pub fn get(&self, c: &Cover) -> (r: Option<CoverKindRules>)
        ensures
            r == self.spec_get(*c),
    {
        match c {
            Cover::Village => self.village,
            Cover::Forest => self.forest,
            Cover::Field => self.field,
        }
    }

    pub fn contains_key(&self, c: &Cover) -> (b: bool)
        ensures
            b == self.spec_get(*c) is Some,
    {
        self.get(c).is_some()
    }

    /// Set the rules of a kind, returning those they replaced.
    pub fn insert(&mut self, c: Cover, r: CoverKindRules) -> (prev: Option<CoverKindRules>)
        ensures
            prev == old(self).spec_get(c),
            final(self).spec_get(c) == Some(r),
            forall|d: Cover| d != c ==> final(self).spec_get(d) == old(self).spec_get(d),
    {
        let prev = self.get(&c);
        match c {
            Cover::Village => self.village = Some(r),
            Cover::Forest => self.forest = Some(r),
            Cover::Field => self.field = Some(r),
        }
        prev
    }

    /// Drop the rules of a kind, returning them.
    pub fn remove(&mut self, c: &Cover) -> (prev: Option<CoverKindRules>)
        ensures
            prev == old(self).spec_get(*c),
            final(self).spec_get(*c) is None,
            forall|d: Cover| d != *c ==> final(self).spec_get(d) == old(self).spec_get(d),
    {
        let prev = self.get(c);
        match c {
            Cover::Village => self.village = None,
            Cover::Forest => self.forest = None,
            Cover::Field => self.field = None,
        }
        prev
    }
}

/// The data that shapes cover: how clumps thin out, and each kind's rules.
#[derive(Debug, Clone, PartialEq, Eq)]
pub struct CoverRules {
    pub version: u32,
    /// Each ring's cling is this percentage of the previous ring's.
    pub ring_decay_percent: u32,
    /// A clump stops spreading once its cling falls to this percentage.
    pub ring_floor_percent: u32,
    pub kinds: CoverTable,
}

/// The schema version this build understands.
pub const COVER_RULES_VERSION: u32 = 1;

/// Why cover rules were refused.
#[derive(Debug, Clone, PartialEq, Eq)]
pub enum CoverRulesError {
    Parse(String),
    Version { found: u32, expected: u32 },
    Missing(Cover),
    OutOfRange { field: &'static str, value: u32, min: u32, max: u32 },
    Oversubscribed { total: u32 },
}

/// The bundled cover rules.
pub open spec fn is_bundled_cover(r: CoverRules) -> bool {
    &&& r.version == COVER_RULES_VERSION
    &&& r.ring_decay_percent == 62
    &&& r.ring_floor_percent == 20
    &&& r.kinds.spec_get(Cover::Village) == Some(CoverKindRules { share_percent: 8, cling_percent: 92 })
    &&& r.kinds.spec_get(Cover::Forest) == Some(CoverKindRules { share_percent: 20, cling_percent: 90 })
    &&& r.kinds.spec_get(Cover::Field) == Some(CoverKindRules { share_percent: 16, cling_percent: 85 })
}

/// The sum of the shares of the kinds that have rules.
pub open spec fn share_total(r: CoverRules) -> int {
    (match r.kinds.spec_get(Cover::Village) { Some(k) => k.share_percent as int, None => 0 })
        + (match r.kinds.spec_get(Cover::Forest) { Some(k) => k.share_percent as int, None => 0 })
        + (match r.kinds.spec_get(Cover::Field) { Some(k) => k.share_percent as int, None => 0 })
}

/// The problem with one kind's rules: missing, or a number out of range.
pub open spec fn kind_fault(r: CoverRules, c: Cover) -> Option<CoverRulesError> {
    match r.kinds.spec_get(c) {
        None => Some(CoverRulesError::Missing(c)),
        Some(k) => if !(k.share_percent <= 100) {
            Some(CoverRulesError::OutOfRange { field: "share_percent", value: k.share_percent, min: 0, max: 100 })
        } else if !(k.cling_percent <= 100) {
            Some(CoverRulesError::OutOfRange { field: "cling_percent", value: k.cling_percent, min: 0, max: 100 })
        } else {
            None
        },
    }
}

/// The first problem cover rules have, in the order they are checked:
/// version, decay, floor, each kind in seeding order, then the total.
pub open spec fn cover_fault(r: CoverRules) -> Option<CoverRulesError> {
    if r.version != COVER_RULES_VERSION {
        Some(CoverRulesError::Version { found: r.version, expected: COVER_RULES_VERSION })
    } else if !(1 <= r.ring_decay_percent <= 99) {
        Some(CoverRulesError::OutOfRange { field: "ring_decay_percent", value: r.ring_decay_percent, min: 1, max: 99 })
    } else if !(r.ring_floor_percent <= 100) {
        Some(CoverRulesError::OutOfRange { field: "ring_floor_percent", value: r.ring_floor_percent, min: 0, max: 100 })
    } else if kind_fault(r, Cover::Village) is Some {
        kind_fault(r, Cover::Village)
    } else if kind_fault(r, Cover::Forest) is Some {
        kind_fault(r, Cover::Forest)
    } else if kind_fault(r, Cover::Field) is Some {
        kind_fault(r, Cover::Field)
    } else if share_total(r) >= 100 {
        Some(CoverRulesError::Oversubscribed { total: share_total(r) as u32 })
    } else {
        None
    }
}

fn in_range(field: &'static str, value: u32, min: u32, max: u32) -> (res: Result<(), CoverRulesError>)
    ensures
        res is Ok <==> min <= value <= max,
        res matches Err(e) ==> e == (CoverRulesError::OutOfRange { field, value, min, max }),
{
    if min <= value && value <= max {
        Ok(())
    } else {
        Err(CoverRulesError::OutOfRange { field, value, min, max })
    }
}

impl CoverRules {
    /// The rules compiled into the library. They are valid.
    pub fn bundled() -> (r: CoverRules)
        ensures
            is_bundled_cover(r),
            cover_fault(r) is None,
    {
        let mut kinds = CoverTable::new();
        kinds.insert(Cover::Village, CoverKindRules { share_percent: 8, cling_percent: 92 });
        kinds.insert(Cover::Forest, CoverKindRules { share_percent: 20, cling_percent: 90 });
        kinds.insert(Cover::Field, CoverKindRules { share_percent: 16, cling_percent: 85 });
        CoverRules { version: COVER_RULES_VERSION, ring_decay_percent: 62, ring_floor_percent: 20, kinds }
    }

    fn check_kind(&self, c: Cover) -> (res: Result<u32, CoverRulesError>)
        ensures
            match kind_fault(*self, c) {
                Some(e) => res == Err::<u32, CoverRulesError>(e),
                None => res == Ok::<u32, CoverRulesError>(self.kinds.spec_get(c)->0.share_percent),
            },
    {
        let k = match self.kinds.get(&c) {
            None => return Err(CoverRulesError::Missing(c)),
            Some(k) => k,
        };
        match in_range("share_percent", k.share_percent, 0, 100) {
            Err(e) => return Err(e),
            Ok(()) => {},
        }
        match in_range("cling_percent", k.cling_percent, 0, 100) {
            Err(e) => return Err(e),
            Ok(()) => {},
        }
        Ok(k.share_percent)
    }

    /// Check everything cover generation relies on, reporting the first
    /// problem.
    pub fn validate(&self) -> (res: Result<(), CoverRulesError>)
        ensures
            res == match cover_fault(*self) {
                Some(e) => Err(e),
                None => Ok(()),
            },
    {
        if self.version != COVER_RULES_VERSION {
            return Err(CoverRulesError::Version { found: self.version, expected: COVER_RULES_VERSION });
        }
        match in_range("ring_decay_percent", self.ring_decay_percent, 1, 99) {
            Err(e) => return Err(e),
            Ok(()) => {},
        }
        match in_range("ring_floor_percent", self.ring_floor_percent, 0, 100) {
            Err(e) => return Err(e),
            Ok(()) => {},
        }
        let a = match self.check_kind(Cover::Village) {
            Err(e) => return Err(e),
            Ok(s) => s,
        };
        let b = match self.check_kind(Cover::Forest) {
            Err(e) => return Err(e),
            Ok(s) => s,
        };
        let c = match self.check_kind(Cover::Field) {
            Err(e) => return Err(e),
            Ok(s) => s,
        };
        let total = a + b + c;
        if total >= 100 {
            return Err(CoverRulesError::Oversubscribed { total });
        }
        Ok(())
    }
}

// ---------------------------------------------------------------------------
// The cover of a planet
// ---------------------------------------------------------------------------

/// Tiles of `tiles` covered by `c`.
pub open spec fn covered_as(tiles: Seq<Option<Cover>>, c: Cover) -> nat
    decreases tiles.len(),
{
    if tiles.len() == 0 {
        0
    } else {
        covered_as(tiles.drop_last(), c) + if tiles.last() == Some(c) { 1nat } else { 0nat }
    }
}

/// The fingerprint of a cover map: the tile count, then two bits per tile,
/// sixteen tiles to a word.
pub open spec fn cover_hash_spec(tiles: Seq<Option<Cover>>) -> u64 {
    fnv1a_spec(le_u32(tiles.len() as u32) + packed_bytes(
        Seq::new(tiles.len(), |i: int| cover_code(tiles[i])),
        16,
        4,
        word_count(tiles.len() as int, 16) as nat,
    ))
}

/// What covers each tile of a planet.
#[derive(Debug, PartialEq, Eq)]
pub struct CoverMap {
    tiles: Vec<Option<Cover>>,
    counts: [usize; 3],
}

impl CoverMap {
    #[verifier::type_invariant]
    spec fn counted(&self) -> bool {
        &&& self.tiles@.len() <= u32::MAX
        &&& self.tiles@.len() + 32 <= usize::MAX
        &&& self.counts@[0] == covered_as(self.tiles@, Cover::Village)
        &&& self.counts@[1] == covered_as(self.tiles@, Cover::Forest)
        &&& self.counts@[2] == covered_as(self.tiles@, Cover::Field)
    }

    /// The cover of each tile, by id.
    pub closed spec fn view(&self) -> Seq<Option<Cover>> {
        self.tiles@
    }

    /// How many tiles the planet has.
    pub fn tile_count(&self) -> (n: usize)
        ensures
            n == self.view().len(),
    {
        self.tiles.len()
    }

    /// The cover of a tile.
    pub fn get(&self, tile: TileId) -> (c: Option<Cover>)
        requires
            tile.0 < self.view().len(),
        ensures
            c == self.view()[tile.0 as int],
    {
        self.tiles[tile.index()]
    }

    /// The tile kind the simulation is told a tile's cover is.
    pub fn tile_kind(&self, tile: TileId) -> (k: Option<TileKind>)
        requires
            tile.0 < self.view().len(),
        ensures
            k == match self.view()[tile.0 as int] {
                Some(c) => Some(spec_tile_kind(c)),
                None => None,
            },
    {
        match self.get(tile) {
            Some(c) => Some(c.tile_kind()),
            None => None,
        }
    }

    /// Every tile's cover, by id.
    pub fn tiles(&self) -> (t: &[Option<Cover>])
        ensures
            t@ == self.view(),
    {
        self.tiles.as_slice()
    }

    /// How many tiles one kind covers.
    pub fn count(&self, cover: Cover) -> (n: usize)
        ensures
            n == covered_as(self.view(), cover),
    {
        proof {
            use_type_invariant(self);
        }
        self.counts[cover.ordinal()]
    }

    /// How many tiles have any cover.
    pub fn covered_count(&self) -> (n: usize)
        ensures
            n == covered_as(self.view(), Cover::Village) + covered_as(self.view(), Cover::Forest)
                + covered_as(self.view(), Cover::Field),
    {
        proof {
            use_type_invariant(self);
            lemma_covered_total(self.tiles@);
        }
        self.counts[0] + self.counts[1] + self.counts[2]
    }

    /// A fingerprint of the cover.
    pub fn cover_hash(&self) -> (h: u64)
        ensures
            h == cover_hash_spec(self.view()),
    {
        proof {
            use_type_invariant(self);
        }
        let n = self.tiles.len();
        let ghost want = Seq::new(self.tiles@.len(), |i: int| cover_code(self.tiles@[i]));
        let mut codes: Vec<u32> = Vec::new();
        let mut i: usize = 0;
        while i < n
            invariant
                n == self.tiles@.len(),
                i <= n,
                want == Seq::new(self.tiles@.len(), |i: int| cover_code(self.tiles@[i])),
                codes@ == want.take(i as int),
                forall|k: int| 0 <= k < codes@.len() ==> (#[trigger] codes@[k]) < 4,
            decreases n - i,
        {
            codes.push(code_of(self.tiles[i]));
            proof {
                assert(codes@ == want.take(i as int + 1));
            }
            i = i + 1;
        }
        proof {
            assert(codes@ == want);
        }
        let mut d = Digest::new();
        d.u32(n as u32);
        write_packed(&mut d, &codes, 16, 4);
        d.finish()
    }
}

proof fn lemma_covered_total(tiles: Seq<Option<Cover>>)
    ensures
        covered_as(tiles, Cover::Village) + covered_as(tiles, Cover::Forest) + covered_as(tiles, Cover::Field) <= tiles.len(),
    decreases tiles.len(),
{
    if tiles.len() > 0 {
        lemma_covered_total(tiles.drop_last());
    }
}

/// Covering a bare tile with `c` counts one more `c` and leaves the other
/// kinds' counts alone.
proof fn lemma_covered_update(tiles: Seq<Option<Cover>>, i: int, c: Cover, d: Cover)
    requires
        0 <= i < tiles.len(),
        tiles[i] is None,
    ensures
        covered_as(tiles.update(i, Some(c)), d) == covered_as(tiles, d) + if c == d { 1nat } else { 0nat },
    decreases tiles.len(),
{
    let u = tiles.update(i, Some(c));
    if i == tiles.len() - 1 {
        assert(u.drop_last() == tiles.drop_last());
    } else {
        assert(u.drop_last() == tiles.drop_last().update(i, Some(c)));
        lemma_covered_update(tiles.drop_last(), i, c, d);
    }
}

/// The nearest whole number of tiles to `percent` of `land` tiles.
pub open spec fn spec_tiles_for_share(land: int, percent: int) -> int {
    (land * percent + 50) / 100
}

/// The nearest whole number of tiles to `percent` of `land` tiles.
pub fn tiles_for_share(land: usize, percent: u32) -> (n: u128)
    ensures
        n == spec_tiles_for_share(land as int, percent as int),
{
    proof {
        let (l, p) = (land as int, percent as int);
        assert(l * p <= 0xffff_ffff_ffff_ffff * 0xffff_ffff) by (nonlinear_arith)
            requires 0 <= l <= 0xffff_ffff_ffff_ffff, 0 <= p <= 0xffff_ffff;
    }
    (land as u128 * percent as u128 + 50) / 100
}

/// Parts per million.
pub const PPM: u32 = 1_000_000;

/// A percentage in parts per million.
pub fn ppm(percent: u32) -> (n: u32)
    requires
        percent <= 100,
    ensures
        n == percent * 10_000,
{
    percent * (PPM / 100)
}

/// How a clump spreads: the chance a neighbour of the current ring joins,
/// how fast that chance falls, and where it stops.
#[derive(Debug, Clone, Copy)]
pub struct Clump {
    pub cling: u32,
    pub decay: u32,
    pub floor: u32,
}

impl Clump {
    pub fn new(kind: &CoverKindRules, rules: &CoverRules) -> (c: Clump)
        requires
            kind.cling_percent <= 100,
            rules.ring_floor_percent <= 100,
            rules.ring_decay_percent <= 100,
        ensures
            c.cling == kind.cling_percent * 10_000,
            c.decay == rules.ring_decay_percent,
            c.floor == rules.ring_floor_percent * 10_000,
    {
        Clump { cling: ppm(kind.cling_percent), decay: rules.ring_decay_percent, floor: ppm(rules.ring_floor_percent) }
    }

    /// Whether the clump still grows another ring.
    pub fn spreading(self) -> (b: bool)
        ensures
            b == (self.cling > self.floor),
    {
        self.cling > self.floor
    }

    /// The clump one ring further out.
    pub fn thinned(self) -> (c: Clump)
        requires
            self.cling <= PPM,
            self.decay <= 100,
        ensures
            c == (Clump { cling: (self.cling * self.decay / 100) as u32, ..self }),
            c.cling <= PPM,
    {
        proof {
            let (a, b) = (self.cling as int, self.decay as int);
            assert(a * b <= 1_000_000 * 100) by (nonlinear_arith)
                requires 0 <= a <= 1_000_000, 0 <= b <= 100;
            assert(a * b / 100 <= a) by (nonlinear_arith)
                requires 0 <= a, 0 <= b <= 100;
        }
        Clump { cling: self.cling * self.decay / 100, ..self }
    }
}

// ---------------------------------------------------------------------------
// Sowing
// ---------------------------------------------------------------------------

/// What sowing may assume of the rules: every number within the range
/// validation allows. A kind may be missing; it then claims nothing.
pub open spec fn cover_rules_usable(r: CoverRules) -> bool {
    &&& r.ring_decay_percent <= 100
    &&& r.ring_floor_percent <= 100
    &&& forall|c: Cover| #[trigger] r.kinds.spec_get(c) matches Some(k) ==> k.cling_percent <= 100
}

/// Land tiles of `land` that no cover claims yet.
pub open spec fn bare_in(land: Seq<TileId>, tiles: Seq<Option<Cover>>) -> nat
    decreases land.len(),
{
    if land.len() == 0 {
        0
    } else {
        bare_in(land.drop_last(), tiles) + if tiles[land.last().0 as int] is None { 1nat } else { 0nat }
    }
}

proof fn lemma_bare_zero(land: Seq<TileId>, tiles: Seq<Option<Cover>>)
    requires
        bare_in(land, tiles) == 0,
    ensures
        forall|k: int| 0 <= k < land.len() ==> tiles[(#[trigger] land[k]).0 as int] is Some,
    decreases land.len(),
{
    if land.len() > 0 {
        lemma_bare_zero(land.drop_last(), tiles);
        assert forall|k: int| 0 <= k < land.len() implies tiles[(#[trigger] land[k]).0 as int] is Some by {
            if k < land.len() - 1 {
                assert(land.drop_last()[k] == land[k]);
            }
        }
    }
}

proof fn lemma_bare_bound(land: Seq<TileId>, tiles: Seq<Option<Cover>>)
    ensures
        bare_in(land, tiles) <= land.len(),
    decreases land.len(),
{
    if land.len() > 0 {
        lemma_bare_bound(land.drop_last(), tiles);
    }
}

/// The sown tiles: one per planet tile, and cover only ever on land.
pub open spec fn sown(tiles: Seq<Option<Cover>>, terrain: Seq<Terrain>) -> bool {
    &&& tiles.len() == terrain.len()
    &&& forall|i: int| 0 <= i < tiles.len() && (#[trigger] tiles[i]) is Some ==> terrain[i] == Terrain::Land
}

/// `land` lists land tiles of the planet, and every one of them.
pub open spec fn lists_land(land: Seq<TileId>, terrain: Seq<Terrain>) -> bool {
    &&& forall|k: int| 0 <= k < land.len() ==> (#[trigger] land[k]).0 < terrain.len() && terrain[land[k].0 as int] == Terrain::Land
    &&& forall|i: int| 0 <= i < terrain.len() && terrain[i] == Terrain::Land ==> exists|k: int| 0 <= k < land.len() && (#[trigger] land[k]).0 == i
}

/// Every land tile is claimed.
pub open spec fn land_full(tiles: Seq<Option<Cover>>, terrain: Seq<Terrain>) -> bool {
    forall|i: int| 0 <= i < terrain.len() && terrain[i] == Terrain::Land ==> (#[trigger] tiles[i]) is Some
}

/// Cover only ever grows: a claimed tile keeps its claim.
pub open spec fn grew_from(tiles: Seq<Option<Cover>>, start: Seq<Option<Cover>>) -> bool {
    &&& tiles.len() == start.len()
    &&& forall|i: int| 0 <= i < start.len() && (#[trigger] start[i]) is Some ==> tiles[i] == start[i]
}

/// The bare tile of `land` that `skip` other bare tiles precede, in list
/// order.
pub open spec fn nth_bare(land: Seq<TileId>, tiles: Seq<Option<Cover>>, skip: int) -> Option<TileId>
    decreases land.len(),
{
    if land.len() == 0 {
        None
    } else if tiles[land[0].0 as int] is None {
        if skip == 0 {
            Some(land[0])
        } else {
            nth_bare(land.drop_first(), tiles, skip - 1)
        }
    } else {
        nth_bare(land.drop_first(), tiles, skip)
    }
}

/// Drawing a start tile: with no bare land nothing is drawn; otherwise one
/// draw below the number of bare tiles picks which of them, in list order.
pub open spec fn draw_spec(land: Seq<TileId>, tiles: Seq<Option<Cover>>, s: (u64, u64, u64, u64)) -> (Option<TileId>, (u64, u64, u64, u64)) {
    let b = bare_in(land, tiles);
    if b == 0 {
        (None, s)
    } else {
        let (r, s2) = crate::rng::below_spec(s, b as u32);
        (nth_bare(land, tiles, r as int), s2)
    }
}

proof fn lemma_nth_bare_is_bare(land: Seq<TileId>, tiles: Seq<Option<Cover>>, skip: int)
    ensures
        nth_bare(land, tiles, skip) matches Some(x) ==> tiles[x.0 as int] is None && land.contains(x),
    decreases land.len(),
{
    if land.len() > 0 {
        let rest = land.drop_first();
        if tiles[land[0].0 as int] is None {
            if skip != 0 {
                lemma_nth_bare_is_bare(rest, tiles, skip - 1);
            }
        } else {
            lemma_nth_bare_is_bare(rest, tiles, skip);
        }
        if nth_bare(land, tiles, skip) is Some && nth_bare(land, tiles, skip) != Some(land[0]) {
            let x = nth_bare(land, tiles, skip)->0;
            let k = choose|k: int| 0 <= k < rest.len() && rest[k] == x;
            assert(land[k + 1] == x);
        } else if nth_bare(land, tiles, skip) is Some {
            assert(land[0] == land[0]);
        }
    }
}

/// Pick a bare land tile uniformly with one draw, or `None` when every land
/// tile is claimed.
fn draw_bare(land: &Vec<TileId>, tiles: &Vec<Option<Cover>>, rng: &mut Rng) -> (r: Option<TileId>)
    requires
        land@.len() <= u32::MAX,
        forall|k: int| 0 <= k < land@.len() ==> (#[trigger] land@[k]).0 < tiles@.len(),
    ensures
        r matches Some(t) ==> t.0 < tiles@.len() && tiles@[t.0 as int] is None && exists|k: int| 0 <= k < land@.len() && land@[k] == t,
        r is None ==> forall|k: int| 0 <= k < land@.len() ==> tiles@[(#[trigger] land@[k]).0 as int] is Some,
        (r, final(rng).state()) == draw_spec(land@, tiles@, old(rng).state()),
{
    let n = land.len();
    let mut bare: usize = 0;
    let mut k: usize = 0;
    while k < n
        invariant
            n == land@.len(),
            k <= n,
            forall|q: int| 0 <= q < land@.len() ==> (#[trigger] land@[q]).0 < tiles@.len(),
            bare == bare_in(land@.take(k as int), tiles@),
            bare <= k,
        decreases n - k,
    {
        proof {
            assert(land@.take(k as int + 1).drop_last() == land@.take(k as int));
        }
        if tiles[land[k].index()].is_none() {
            bare = bare + 1;
        }
        k = k + 1;
    }
    proof {
        assert(land@.take(n as int) == land@);
    }
    if bare == 0 {
        proof {
            lemma_bare_zero(land@, tiles@);
        }
        return None;
    }
    let mut skip = rng.below(bare as u32) as usize;
    let ghost target = nth_bare(land@, tiles@, skip as int);
    let ghost drawn = draw_spec(land@, tiles@, old(rng).state());
    proof {
        assert(drawn == (target, rng.state()));
    }
    proof {
        assert(land@.skip(0) =~= land@);
    }
    let mut k: usize = 0;
    while k < n
        invariant
            n == land@.len(),
            k <= n,
            nth_bare(land@.skip(k as int), tiles@, skip as int) == target,
            drawn == (target, rng.state()),
            drawn == draw_spec(land@, tiles@, old(rng).state()),
            forall|q: int| 0 <= q < land@.len() ==> (#[trigger] land@[q]).0 < tiles@.len(),
            bare == bare_in(land@, tiles@),
            skip + bare_in(land@.take(k as int), tiles@) < bare,
        decreases n - k,
    {
        proof {
            assert(land@.take(k as int + 1).drop_last() == land@.take(k as int));
        }
        let t = land[k];
        proof {
            assert(land@.skip(k as int).drop_first() =~= land@.skip(k + 1));
            assert(land@.skip(k as int)[0] == t);
        }
        if tiles[t.index()].is_none() {
            if skip == 0 {
                proof {
                    assert(land@[k as int] == t);
                    assert(nth_bare(land@.skip(k as int), tiles@, skip as int) == Some(t));
                }
                return Some(t);
            }
            skip = skip - 1;
        }
        k = k + 1;
    }
    proof {
        assert(land@.take(n as int) == land@);
        assert(land@.skip(n as int).len() == 0);
    }
    None
}

/// Whether a neighbour of the current ring joins the clump.
fn clings(rng: &mut Rng, cling: u32) -> (b: bool)
    ensures
        (b, final(rng).state()) == ({
            let (r, s) = crate::rng::below_spec(old(rng).state(), PPM);
            (r < cling, s)
        }),
{
    rng.below(PPM) < cling
}

/// The state of a planet being sown with one kind.
pub open spec fn sowing(tiles: Seq<Option<Cover>>, terrain: Seq<Terrain>, start: Seq<Option<Cover>>, kind: Cover, claimed: int) -> bool {
    &&& sown(tiles, terrain)
    &&& grew_from(tiles, start)
    &&& covered_as(tiles, kind) == covered_as(start, kind) + claimed
    &&& forall|d: Cover| d != kind ==> #[trigger] covered_as(tiles, d) == covered_as(start, d)
}

/// Claim bare tile `t` for `kind`.
fn claim(tiles: &mut Vec<Option<Cover>>, t: TileId, kind: Cover, Ghost(terrain): Ghost<Seq<Terrain>>,
    Ghost(start): Ghost<Seq<Option<Cover>>>, Ghost(claimed): Ghost<int>)
    requires
        t.0 < old(tiles)@.len(),
        old(tiles)@[t.0 as int] is None,
        terrain[t.0 as int] == Terrain::Land,
        sowing(old(tiles)@, terrain, start, kind, claimed),
    ensures
        final(tiles)@ == old(tiles)@.update(t.0 as int, Some(kind)),
        sowing(final(tiles)@, terrain, start, kind, claimed + 1),
{
    let ghost before = tiles@;
    tiles.set(t.index(), Some(kind));
    proof {
        lemma_covered_update(before, t.0 as int, kind, kind);
        assert forall|d: Cover| d != kind implies #[trigger] covered_as(tiles@, d) == covered_as(start, d) by {
            lemma_covered_update(before, t.0 as int, kind, d);
        }
    }
}

/// What growing a clump works on: the cover, the random state, the budget
/// left, and the tiles claimed in the current ring.
pub type GrowState = (Seq<Option<Cover>>, (u64, u64, u64, u64), u64, Seq<TileId>);

/// One neighbour's turn: while budget is left, a bare land tile gets one
/// draw and joins the clump when the draw is below the cling.
pub open spec fn grow_step(st: GrowState, nb: TileId, kind: Cover, cling: u32, t: Seq<Terrain>) -> GrowState {
    if st.2 == 0 {
        st
    } else if st.0[nb.0 as int] is None && t[nb.0 as int] == Terrain::Land {
        let (d, s2) = crate::rng::below_spec(st.1, PPM);
        if d < cling {
            (st.0.update(nb.0 as int, Some(kind)), s2, (st.2 - 1) as u64, st.3.push(nb))
        } else {
            (st.0, s2, st.2, st.3)
        }
    } else {
        st
    }
}

/// The turns of `nbs` from the `i`-th on.
pub open spec fn sweep_from(st: GrowState, nbs: Seq<TileId>, i: int, kind: Cover, cling: u32, t: Seq<Terrain>) -> GrowState
    decreases nbs.len() - i,
{
    if i < 0 || i >= nbs.len() {
        st
    } else {
        sweep_from(grow_step(st, nbs[i], kind, cling, t), nbs, i + 1, kind, cling, t)
    }
}

/// The neighbours of each ring tile from the `r`-th on, in order.
pub open spec fn rings_from(st: GrowState, ring: Seq<TileId>, r: int, adj: Seq<Seq<TileId>>, kind: Cover, cling: u32, t: Seq<Terrain>) -> GrowState
    decreases ring.len() - r,
{
    if r < 0 || r >= ring.len() {
        st
    } else {
        rings_from(sweep_from(st, adj[ring[r].0 as int], 0, kind, cling, t), ring, r + 1, adj, kind, cling, t)
    }
}

pub proof fn lemma_sweep_budget(st: GrowState, nbs: Seq<TileId>, i: int, kind: Cover, cling: u32, t: Seq<Terrain>)
    ensures
        ({
            let e = sweep_from(st, nbs, i, kind, cling, t);
            &&& e.2 <= st.2
            &&& e.2 + e.3.len() == st.2 + st.3.len()
            &&& st.2 == 0 ==> e == st
        }),
    decreases nbs.len() - i,
{
    if 0 <= i < nbs.len() {
        lemma_sweep_budget(grow_step(st, nbs[i], kind, cling, t), nbs, i + 1, kind, cling, t);
    }
}

pub proof fn lemma_rings_budget(st: GrowState, ring: Seq<TileId>, r: int, adj: Seq<Seq<TileId>>, kind: Cover, cling: u32, t: Seq<Terrain>)
    ensures
        ({
            let e = rings_from(st, ring, r, adj, kind, cling, t);
            &&& e.2 <= st.2
            &&& e.2 + e.3.len() == st.2 + st.3.len()
            &&& st.2 == 0 ==> e == st
        }),
    decreases ring.len() - r,
{
    if 0 <= r < ring.len() {
        let st1 = sweep_from(st, adj[ring[r].0 as int], 0, kind, cling, t);
        lemma_sweep_budget(st, adj[ring[r].0 as int], 0, kind, cling, t);
        lemma_rings_budget(st1, ring, r + 1, adj, kind, cling, t);
    }
}

/// A clump grown ring by ring while budget is left, the ring is not empty
/// and its cling is above the floor; each ring's cling thinned by the decay.
/// The cover, the random state and the budget left at the end.
pub open spec fn grow_spec(tiles: Seq<Option<Cover>>, s: (u64, u64, u64, u64), left: u64, ring: Seq<TileId>, clump: Clump,
    adj: Seq<Seq<TileId>>, t: Seq<Terrain>, kind: Cover) -> (Seq<Option<Cover>>, (u64, u64, u64, u64), u64)
    decreases left, ring.len(),
{
    if left == 0 || ring.len() == 0 || clump.cling <= clump.floor {
        (tiles, s, left)
    } else {
        let e = rings_from((tiles, s, left, seq![]), ring, 0, adj, kind, clump.cling, t);
        proof {
            lemma_rings_budget((tiles, s, left, seq![]), ring, 0, adj, kind, clump.cling, t);
        }
        grow_spec(e.0, e.1, e.2, e.3, Clump { cling: (clump.cling * clump.decay / 100) as u32, ..clump }, adj, t, kind)
    }
}

/// Every neighbour list names tiles below `n`.
pub open spec fn nbrs_in(adj: Seq<Seq<TileId>>, n: nat) -> bool {
    forall|i: int, k: int| 0 <= i < adj.len() && 0 <= k < adj[i].len() ==> (#[trigger] adj[i][k]).0 < n
}

/// Every tile of `ring` is below `n`.
pub open spec fn ring_in(ring: Seq<TileId>, n: nat) -> bool {
    forall|k: int| 0 <= k < ring.len() ==> (#[trigger] ring[k]).0 < n
}

pub proof fn lemma_grow_budget(tiles: Seq<Option<Cover>>, s: (u64, u64, u64, u64), left: u64, ring: Seq<TileId>, clump: Clump,
    adj: Seq<Seq<TileId>>, t: Seq<Terrain>, kind: Cover)
    ensures
        grow_spec(tiles, s, left, ring, clump, adj, t, kind).2 <= left,
    decreases left, ring.len(),
{
    if !(left == 0 || ring.len() == 0 || clump.cling <= clump.floor) {
        let e = rings_from((tiles, s, left, seq![]), ring, 0, adj, kind, clump.cling, t);
        lemma_rings_budget((tiles, s, left, seq![]), ring, 0, adj, kind, clump.cling, t);
        lemma_grow_budget(e.0, e.1, e.2, e.3, Clump { cling: (clump.cling * clump.decay / 100) as u32, ..clump }, adj, t, kind);
    }
}

proof fn lemma_step_keeps(st: GrowState, nb: TileId, kind: Cover, cling: u32, t: Seq<Terrain>)
    requires
        nb.0 < st.0.len(),
        ring_in(st.3, st.0.len()),
    ensures
        grew_from(grow_step(st, nb, kind, cling, t).0, st.0),
        ring_in(grow_step(st, nb, kind, cling, t).3, st.0.len()),
{
}

proof fn lemma_sweep_keeps(st: GrowState, nbs: Seq<TileId>, i: int, kind: Cover, cling: u32, t: Seq<Terrain>)
    requires
        ring_in(nbs, st.0.len()),
        ring_in(st.3, st.0.len()),
    ensures
        grew_from(sweep_from(st, nbs, i, kind, cling, t).0, st.0),
        ring_in(sweep_from(st, nbs, i, kind, cling, t).3, st.0.len()),
    decreases nbs.len() - i,
{
    if 0 <= i < nbs.len() {
        let st1 = grow_step(st, nbs[i], kind, cling, t);
        lemma_step_keeps(st, nbs[i], kind, cling, t);
        lemma_sweep_keeps(st1, nbs, i + 1, kind, cling, t);
    }
}

proof fn lemma_rings_keeps(st: GrowState, ring: Seq<TileId>, r: int, adj: Seq<Seq<TileId>>, kind: Cover, cling: u32, t: Seq<Terrain>)
    requires
        st.0.len() == adj.len(),
        nbrs_in(adj, adj.len()),
        ring_in(ring, adj.len()),
        ring_in(st.3, adj.len()),
    ensures
        grew_from(rings_from(st, ring, r, adj, kind, cling, t).0, st.0),
        ring_in(rings_from(st, ring, r, adj, kind, cling, t).3, adj.len()),
    decreases ring.len() - r,
{
    if 0 <= r < ring.len() {
        let nbs = adj[ring[r].0 as int];
        assert(ring_in(nbs, st.0.len())) by {
            assert forall|k: int| 0 <= k < nbs.len() implies (#[trigger] nbs[k]).0 < st.0.len() by {
                assert(adj[ring[r].0 as int][k] == nbs[k]);
            }
        }
        let st1 = sweep_from(st, nbs, 0, kind, cling, t);
        lemma_sweep_keeps(st, nbs, 0, kind, cling, t);
        lemma_rings_keeps(st1, ring, r + 1, adj, kind, cling, t);
    }
}

proof fn lemma_grow_keeps(tiles: Seq<Option<Cover>>, s: (u64, u64, u64, u64), left: u64, ring: Seq<TileId>, clump: Clump,
    adj: Seq<Seq<TileId>>, t: Seq<Terrain>, kind: Cover)
    requires
        tiles.len() == adj.len(),
        nbrs_in(adj, adj.len()),
        ring_in(ring, adj.len()),
    ensures
        grew_from(grow_spec(tiles, s, left, ring, clump, adj, t, kind).0, tiles),
        grow_spec(tiles, s, left, ring, clump, adj, t, kind).2 <= left,
    decreases left, ring.len(),
{
    lemma_grow_budget(tiles, s, left, ring, clump, adj, t, kind);
    if !(left == 0 || ring.len() == 0 || clump.cling <= clump.floor) {
        let st: GrowState = (tiles, s, left, seq![]);
        let e = rings_from(st, ring, 0, adj, kind, clump.cling, t);
        lemma_rings_budget(st, ring, 0, adj, kind, clump.cling, t);
        lemma_rings_keeps(st, ring, 0, adj, kind, clump.cling, t);
        lemma_grow_keeps(e.0, e.1, e.2, e.3, Clump { cling: (clump.cling * clump.decay / 100) as u32, ..clump }, adj, t, kind);
    }
}

/// Grow a clump ring by ring from `first` while budget is left, the ring is
/// not empty, and its cling is above the floor.
fn grow(topology: &Topology, terrain: &TerrainMap, tiles: &mut Vec<Option<Cover>>, rng: &mut Rng,
    kind: Cover, first: TileId, left: &mut u64, clump: Clump, Ghost(start): Ghost<Seq<Option<Cover>>>, Ghost(claimed): Ghost<int>)
    requires
        topology.count() == terrain.view().len(),
        first.0 < topology.count(),
        clump.cling <= PPM,
        clump.decay <= 100,
        sowing(old(tiles)@, terrain.view(), start, kind, claimed),
    ensures
        *final(left) <= *old(left),
        sowing(final(tiles)@, terrain.view(), start, kind, claimed + (*old(left) - *final(left))),
        (final(tiles)@, final(rng).state(), *final(left)) == grow_spec(old(tiles)@, old(rng).state(), *old(left), seq![first], clump,
            topology.adj(), terrain.view(), kind),
{
    proof {
        use_type_invariant(topology);
    }
    let ghost t = terrain.view();
    let ghost left0 = *left;
    let mut ring: Vec<TileId> = Vec::new();
    ring.push(first);
    let mut clump = clump;
    let ghost goal = grow_spec(tiles@, rng.state(), *left, ring@, clump, topology.adj(), terrain.view(), kind);
    while *left > 0 && ring.len() > 0 && clump.spreading()
        invariant
            grow_spec(tiles@, rng.state(), *left, ring@, clump, topology.adj(), t, kind) == goal,
            topology.count() == t.len(),
            t == terrain.view(),
            crate::topology::valid_adjacency(topology.adj()),
            forall|k: int| 0 <= k < ring@.len() ==> (#[trigger] ring@[k]).0 < topology.count(),
            clump.cling <= PPM,
            clump.decay <= 100,
            *left <= left0,
            sowing(tiles@, t, start, kind, claimed + (left0 - *left)),
        decreases *left, ring@.len(),
    {
        let mut next: Vec<TileId> = Vec::new();
        let ghost left_ring = *left;
        let ghost target = rings_from((tiles@, rng.state(), *left, next@), ring@, 0, topology.adj(), kind, clump.cling, t);
        let mut r: usize = 0;
        let mut done = false;
        while r < ring.len() && !done
            invariant
                rings_from((tiles@, rng.state(), *left, next@), ring@, r as int, topology.adj(), kind, clump.cling, t) == target,
                done ==> *left == 0,
                topology.count() == t.len(),
                t == terrain.view(),
                crate::topology::valid_adjacency(topology.adj()),
                forall|k: int| 0 <= k < ring@.len() ==> (#[trigger] ring@[k]).0 < topology.count(),
                forall|k: int| 0 <= k < next@.len() ==> (#[trigger] next@[k]).0 < topology.count(),
                *left + next@.len() == left_ring,
                left_ring <= left0,
                sowing(tiles@, t, start, kind, claimed + (left0 - *left)),
            decreases ring@.len() - r, if done { 0int } else { 1int },
        {
            let neighbors = topology.neighbors(ring[r]);
            proof {
                assert forall|k: int| 0 <= k < neighbors@.len() implies (#[trigger] neighbors@[k]).0 < topology.count() by {
                    assert(topology.adj()[ring@[r as int].0 as int].contains(neighbors@[k]));
                }
            }
            let mut q: usize = 0;
            proof {
                lemma_sweep_budget((tiles@, rng.state(), *left, next@), neighbors@, 0, kind, clump.cling, t);
            }
            while q < neighbors.len() && !done
                invariant
                    rings_from(
                        sweep_from((tiles@, rng.state(), *left, next@), neighbors@, q as int, kind, clump.cling, t),
                        ring@,
                        r + 1,
                        topology.adj(),
                        kind,
                        clump.cling,
                        t,
                    ) == target,
                    r < ring@.len(),
                    done ==> *left == 0,
                    topology.count() == t.len(),
                    t == terrain.view(),
                    neighbors@ == topology.adj()[ring@[r as int].0 as int],
                    forall|k: int| 0 <= k < neighbors@.len() ==> (#[trigger] neighbors@[k]).0 < topology.count(),
                    forall|k: int| 0 <= k < next@.len() ==> (#[trigger] next@[k]).0 < topology.count(),
                    *left + next@.len() == left_ring,
                    left_ring <= left0,
                    sowing(tiles@, t, start, kind, claimed + (left0 - *left)),
                decreases neighbors@.len() - q, if done { 0int } else { 1int },
            {
                if *left == 0 {
                    done = true;
                } else {
                    let nb = neighbors[q];
                    let ghost before: GrowState = (tiles@, rng.state(), *left, next@);
                    if tiles[nb.index()].is_none() && terrain.is_land(nb) {
                        if clings(rng, clump.cling) {
                            claim(tiles, nb, kind, Ghost(t), Ghost(start), Ghost(claimed + (left0 - *left)));
                            *left = *left - 1;
                            next.push(nb);
                        }
                    }
                    proof {
                        assert((tiles@, rng.state(), *left, next@) == grow_step(before, nb, kind, clump.cling, t));
                    }
                    q = q + 1;
                }
            }
            proof {
                let cur: GrowState = (tiles@, rng.state(), *left, next@);
                lemma_sweep_budget(cur, neighbors@, q as int, kind, clump.cling, t);
                if done {
                    lemma_rings_budget(cur, ring@, r + 1, topology.adj(), kind, clump.cling, t);
                    lemma_rings_budget(cur, ring@, r as int, topology.adj(), kind, clump.cling, t);
                }
            }
            if !done {
                r = r + 1;
            }
        }
        proof {
            let cur: GrowState = (tiles@, rng.state(), *left, next@);
            lemma_rings_budget(cur, ring@, r as int, topology.adj(), kind, clump.cling, t);
            assert(cur == target);
        }
        ring = next;
        clump = clump.thinned();
    }
}

/// Sowing one kind with `left` tiles of budget: while budget is left and
/// bare land remains, draw a start tile, claim it, and grow a clump from it
/// ring by ring (as `grow_spec` says) before drawing the next. The cover,
/// the random state and the budget left at the end.
pub open spec fn sow_spec(tiles: Seq<Option<Cover>>, s: (u64, u64, u64, u64), left: u64, land: Seq<TileId>, clump: Clump,
    adj: Seq<Seq<TileId>>, t: Seq<Terrain>, kind: Cover) -> (Seq<Option<Cover>>, (u64, u64, u64, u64), u64)
    decreases left,
{
    if left == 0 {
        (tiles, s, left)
    } else {
        let (d, s2) = draw_spec(land, tiles, s);
        match d {
            None => (tiles, s2, left),
            Some(f) => {
                let g = grow_spec(tiles.update(f.0 as int, Some(kind)), s2, (left - 1) as u64, seq![f], clump, adj, t, kind);
                proof {
                    lemma_grow_budget(tiles.update(f.0 as int, Some(kind)), s2, (left - 1) as u64, seq![f], clump, adj, t, kind);
                }
                sow_spec(g.0, g.1, g.2, land, clump, adj, t, kind)
            },
        }
    }
}

proof fn lemma_sow_keeps(tiles: Seq<Option<Cover>>, s: (u64, u64, u64, u64), left: u64, land: Seq<TileId>, clump: Clump,
    adj: Seq<Seq<TileId>>, t: Seq<Terrain>, kind: Cover)
    requires
        tiles.len() == adj.len(),
        nbrs_in(adj, adj.len()),
        ring_in(land, adj.len()),
    ensures
        grew_from(sow_spec(tiles, s, left, land, clump, adj, t, kind).0, tiles),
    decreases left,
{
    if left > 0 {
        let (d, s2) = draw_spec(land, tiles, s);
        if d is Some {
            let f = d->0;
            let b = bare_in(land, tiles);
            if b > 0 {
                let r = crate::rng::below_spec(s, b as u32).0;
                lemma_nth_bare_is_bare(land, tiles, r as int);
            }
            let k = choose|k: int| 0 <= k < land.len() && land[k] == f;
            assert(f.0 < adj.len());
            let tiles1 = tiles.update(f.0 as int, Some(kind));
            assert(ring_in(seq![f], adj.len()));
            lemma_grow_keeps(tiles1, s2, (left - 1) as u64, seq![f], clump, adj, t, kind);
            let g = grow_spec(tiles1, s2, (left - 1) as u64, seq![f], clump, adj, t, kind);
            lemma_sow_keeps(g.0, g.1, g.2, land, clump, adj, t, kind);
            assert(tiles[f.0 as int] is None);
            assert(grew_from(tiles1, tiles));
            assert(sow_spec(tiles, s, left, land, clump, adj, t, kind) == sow_spec(g.0, g.1, g.2, land, clump, adj, t, kind));
        }
    }
}

/// Cover arrives in clumps, not confetti: once a start tile is drawn, its
/// clump grows from it before anything else is drawn. So when budget is
/// left beyond the start tile, the clump's cling is above its floor, and
/// the start tile's first neighbour is bare land whose draw comes in below
/// the cling, that neighbour ends up covered with the same kind, whatever
/// the rest of the sowing does.
pub proof fn lemma_start_tile_grows_a_clump(tiles: Seq<Option<Cover>>, s: (u64, u64, u64, u64), left: u64, land: Seq<TileId>,
    clump: Clump, adj: Seq<Seq<TileId>>, t: Seq<Terrain>, kind: Cover, f: TileId, s2: (u64, u64, u64, u64), nb: TileId)
    requires
        tiles.len() == adj.len(),
        nbrs_in(adj, adj.len()),
        ring_in(land, adj.len()),
        left >= 2,
        draw_spec(land, tiles, s) == (Some(f), s2),
        adj[f.0 as int].len() > 0,
        nb == adj[f.0 as int][0],
        nb != f,
        tiles[nb.0 as int] is None,
        t[nb.0 as int] == Terrain::Land,
        clump.cling > clump.floor,
        crate::rng::below_spec(s2, PPM).0 < clump.cling,
    ensures
        sow_spec(tiles, s, left, land, clump, adj, t, kind).0[nb.0 as int] == Some(kind),
{
    let b = bare_in(land, tiles);
    let r = crate::rng::below_spec(s, b as u32).0;
    lemma_nth_bare_is_bare(land, tiles, r as int);
    let k = choose|k: int| 0 <= k < land.len() && land[k] == f;
    assert(f.0 < adj.len());
    assert(nb.0 < adj.len()) by {
        assert(adj[f.0 as int][0] == nb);
    }
    let tiles1 = tiles.update(f.0 as int, Some(kind));
    let st0: GrowState = (tiles1, s2, (left - 1) as u64, seq![]);
    let nbs = adj[f.0 as int];
    assert(ring_in(nbs, adj.len())) by {
        assert forall|q: int| 0 <= q < nbs.len() implies (#[trigger] nbs[q]).0 < adj.len() by {
            assert(adj[f.0 as int][q] == nbs[q]);
        }
    }
    assert(tiles1[nb.0 as int] is None);
    let (d3, s3) = crate::rng::below_spec(s2, PPM);
    let st1: GrowState = (tiles1.update(nb.0 as int, Some(kind)), s3, (left - 2) as u64, seq![nb]);
    assert(grow_step(st0, nb, kind, clump.cling, t) == st1);
    assert(sweep_from(st0, nbs, 0, kind, clump.cling, t) == sweep_from(st1, nbs, 1, kind, clump.cling, t));
    assert(ring_in(st1.3, adj.len()));
    assert(st1.0[nb.0 as int] == Some(kind));
    lemma_sweep_keeps(st1, nbs, 1, kind, clump.cling, t);
    let e1 = sweep_from(st1, nbs, 1, kind, clump.cling, t);
    assert(grew_from(e1.0, st1.0));
    assert(e1.0[nb.0 as int] == Some(kind));
    assert(rings_from(e1, seq![f], 1, adj, kind, clump.cling, t) == e1);
    assert(rings_from(st0, seq![f], 0, adj, kind, clump.cling, t) == e1);
    let e = e1;
    let thin = Clump { cling: (clump.cling * clump.decay / 100) as u32, ..clump };
    assert(grow_spec(tiles1, s2, (left - 1) as u64, seq![f], clump, adj, t, kind) == grow_spec(e.0, e.1, e.2, e.3, thin, adj, t, kind));
    lemma_grow_keeps(e.0, e.1, e.2, e.3, thin, adj, t, kind);
    let g = grow_spec(e.0, e.1, e.2, e.3, thin, adj, t, kind);
    assert(g.0[nb.0 as int] == Some(kind));
    assert(sow_spec(tiles, s, left, land, clump, adj, t, kind) == sow_spec(g.0, g.1, g.2, land, clump, adj, t, kind));
    lemma_sow_keeps(g.0, g.1, g.2, land, clump, adj, t, kind);
}

/// Sow one kind until its budget is met or no bare land is left, returning
/// how many tiles it claimed.
fn sow(topology: &Topology, terrain: &TerrainMap, tiles: &mut Vec<Option<Cover>>, rng: &mut Rng,
    kind: Cover, land: &Vec<TileId>, budget: u64, clump: Clump) -> (claimed: u64)
    requires
        topology.count() == terrain.view().len(),
        land@.len() <= u32::MAX,
        lists_land(land@, terrain.view()),
        clump.cling <= PPM,
        clump.decay <= 100,
        sown(old(tiles)@, terrain.view()),
    ensures
        claimed <= budget,
        sowing(final(tiles)@, terrain.view(), old(tiles)@, kind, claimed as int),
        claimed < budget ==> land_full(final(tiles)@, terrain.view()),
        (final(tiles)@, final(rng).state(), (budget - claimed) as u64) == sow_spec(old(tiles)@, old(rng).state(), budget, land@, clump,
            topology.adj(), terrain.view(), kind),
{
    let ghost start = tiles@;
    let ghost t = terrain.view();
    let ghost goal = sow_spec(tiles@, rng.state(), budget, land@, clump, topology.adj(), t, kind);
    let mut left = budget;
    while left > 0
        invariant_except_break
            sow_spec(tiles@, rng.state(), left, land@, clump, topology.adj(), t, kind) == goal,
        invariant
            topology.count() == t.len(),
            t == terrain.view(),
            land@.len() <= u32::MAX,
            lists_land(land@, t),
            clump.cling <= PPM,
            clump.decay <= 100,
            left <= budget,
            sowing(tiles@, t, start, kind, budget - left),
        ensures
            left <= budget,
            sowing(tiles@, t, start, kind, budget - left),
            left > 0 ==> land_full(tiles@, t),
            (tiles@, rng.state(), left) == goal,
        decreases left,
    {
        let ghost tb = tiles@;
        let ghost sb = rng.state();
        let ghost lb = left;
        let first = match draw_bare(land, tiles, rng) {
            None => {
                proof {
                    assert forall|i: int| 0 <= i < t.len() && t[i] == Terrain::Land implies (#[trigger] tiles@[i]) is Some by {
                        let k = choose|k: int| 0 <= k < land@.len() && (#[trigger] land@[k]).0 == i;
                        assert(tiles@[land@[k].0 as int] is Some);
                    }
                    assert(draw_spec(land@, tb, sb) == (None::<TileId>, rng.state()));
                    assert(sow_spec(tb, sb, lb, land@, clump, topology.adj(), t, kind) == (tb, rng.state(), lb));
                }
                break;
            },
            Some(f) => f,
        };
        proof {
            let k = choose|k: int| 0 <= k < land@.len() && land@[k] == first;
            assert(t[land@[k].0 as int] == Terrain::Land);
        }
        claim(tiles, first, kind, Ghost(t), Ghost(start), Ghost((budget - left) as int));
        left = left - 1;
        let ghost so_far = (budget - left) as int;
        let ghost tc = tiles@;
        let ghost s2 = rng.state();
        grow(topology, terrain, tiles, rng, kind, first, &mut left, clump, Ghost(start), Ghost(so_far));
        proof {
            assert(draw_spec(land@, tb, sb) == (Some(first), s2));
            assert(tc == tb.update(first.0 as int, Some(kind)));
            let g = grow_spec(tc, s2, (lb - 1) as u64, seq![first], clump, topology.adj(), t, kind);
            assert((tiles@, rng.state(), left) == g);
            assert(sow_spec(tb, sb, lb, land@, clump, topology.adj(), t, kind) == sow_spec(g.0, g.1, g.2, land@, clump, topology.adj(), t, kind));
        }
    }
    proof {
        if left == 0 {
            assert(sow_spec(tiles@, rng.state(), 0, land@, clump, topology.adj(), t, kind) == (tiles@, rng.state(), 0u64));
        }
    }
    budget - left
}

proof fn lemma_covered_none(tiles: Seq<Option<Cover>>, c: Cover)
    requires
        forall|i: int| 0 <= i < tiles.len() ==> (#[trigger] tiles[i]) is None,
    ensures
        covered_as(tiles, c) == 0,
    decreases tiles.len(),
{
    if tiles.len() > 0 {
        lemma_covered_none(tiles.drop_last(), c);
    }
}

/// The clump a kind of cover grows with under `r`.
pub open spec fn kind_clump(k: CoverKindRules, r: CoverRules) -> Clump {
    Clump { cling: (k.cling_percent * 10_000) as u32, decay: r.ring_decay_percent, floor: (r.ring_floor_percent * 10_000) as u32 }
}

/// Sowing `kind` as the rules say: nothing when the rules lack it, else its
/// share of the land sown in clumps. The cover and the random state after.
pub open spec fn sow_kind_spec(tiles: Seq<Option<Cover>>, s: (u64, u64, u64, u64), land: Seq<TileId>, r: CoverRules,
    adj: Seq<Seq<TileId>>, t: Seq<Terrain>, kind: Cover) -> (Seq<Option<Cover>>, (u64, u64, u64, u64)) {
    match r.kinds.spec_get(kind) {
        None => (tiles, s),
        Some(k) => {
            let e = sow_spec(tiles, s, spec_tiles_for_share(land_in(t) as int, k.share_percent as int) as u64, land, kind_clump(k, r), adj, t, kind);
            (e.0, e.1)
        },
    }
}

/// The land tiles of a planet, in id order.
pub open spec fn land_list(t: Seq<Terrain>) -> Seq<TileId>
    decreases t.len(),
{
    if t.len() == 0 {
        Seq::empty()
    } else if t.last() == Terrain::Land {
        land_list(t.drop_last()).push(TileId((t.len() - 1) as u32))
    } else {
        land_list(t.drop_last())
    }
}

/// The cover a planet gets from a seed: from bare ground, villages, then
/// woods, then fields are sown, all from the cover-seeding stream.
pub open spec fn cover_spec(t: Seq<Terrain>, adj: Seq<Seq<TileId>>, seed: u64, r: CoverRules) -> Seq<Option<Cover>> {
    let t0 = Seq::new(t.len(), |i: int| None::<Cover>);
    let s0 = crate::rng::seeded(crate::rng::stream_mixer(seed, SeedDomain::CoverSeeding, 0, 0));
    let land = land_list(t);
    let a = sow_kind_spec(t0, s0, land, r, adj, t, Cover::Village);
    let b = sow_kind_spec(a.0, a.1, land, r, adj, t, Cover::Forest);
    sow_kind_spec(b.0, b.1, land, r, adj, t, Cover::Field).0
}

/// Sow one kind if the rules have it; a kind without rules claims nothing.
fn sow_kind(topology: &Topology, terrain: &TerrainMap, tiles: &mut Vec<Option<Cover>>, rng: &mut Rng,
    kind: Cover, land: &Vec<TileId>, rules: &CoverRules) -> (claimed: u64)
    requires
        topology.count() == terrain.view().len(),
        land@.len() <= u32::MAX,
        land@.len() == land_in(terrain.view()),
        lists_land(land@, terrain.view()),
        cover_rules_usable(*rules),
        sown(old(tiles)@, terrain.view()),
    ensures
        sowing(final(tiles)@, terrain.view(), old(tiles)@, kind, claimed as int),
        match rules.kinds.spec_get(kind) {
            None => claimed == 0,
            Some(k) => claimed <= spec_tiles_for_share(land_in(terrain.view()) as int, k.share_percent as int)
                && (claimed < spec_tiles_for_share(land_in(terrain.view()) as int, k.share_percent as int)
                ==> land_full(final(tiles)@, terrain.view())),
        },
        (final(tiles)@, final(rng).state()) == sow_kind_spec(old(tiles)@, old(rng).state(), land@, *rules, topology.adj(), terrain.view(), kind),
{
    match rules.kinds.get(&kind) {
        None => 0,
        Some(k) => {
            let share = tiles_for_share(land.len(), k.share_percent);
            proof {
                let (l, p) = (land@.len() as int, k.share_percent as int);
                assert((l * p + 50) / 100 <= 0xffff_ffff_ffff_ffff) by (nonlinear_arith)
                    requires 0 <= l <= 0xffff_ffff, 0 <= p <= 0xffff_ffff;
            }
            let budget = share as u64;
            proof {
                assert(rules.kinds.spec_get(kind) matches Some(k) ==> k.cling_percent <= 100);
            }
            let clump = Clump::new(&k, rules);
            proof {
                assert(clump == kind_clump(k, *rules));
            }
            sow(topology, terrain, tiles, rng, kind, land, budget, clump)
        },
    }
}

/// The cover of a planet: villages, then woods, then fields each claim their
/// share of the land, drawn from the cover-seeding stream of the world seed.
pub fn cover(topology: &Topology, terrain: &TerrainMap, world_seed: u64, rules: &CoverRules) -> (m: CoverMap)
    requires
        topology.count() == terrain.view().len(),
        cover_rules_usable(*rules),
    ensures
        sown(m.view(), terrain.view()),
        forall|c: Cover| #[trigger] rules.kinds.spec_get(c) is None ==> covered_as(m.view(), c) == 0,
        forall|c: Cover| #[trigger] rules.kinds.spec_get(c) matches Some(k) ==> {
            let budget = spec_tiles_for_share(land_in(terrain.view()) as int, k.share_percent as int);
            &&& covered_as(m.view(), c) <= budget
            &&& covered_as(m.view(), c) < budget ==> land_full(m.view(), terrain.view())
        },
        m.view() == cover_spec(terrain.view(), topology.adj(), world_seed, *rules),
{
    let ghost t = terrain.view();
    let n = terrain.tile_count();
    let mut land: Vec<TileId> = Vec::new();
    let mut i: usize = 0;
    while i < n
        invariant
            n == t.len(),
            t == terrain.view(),
            n <= u32::MAX,
            i <= n,
            land@.len() == land_in(t.take(i as int)),
            land@ == land_list(t.take(i as int)),
            land@.len() <= i,
            forall|k: int| 0 <= k < land@.len() ==> (#[trigger] land@[k]).0 < i && t[land@[k].0 as int] == Terrain::Land,
            forall|j: int| 0 <= j < i && t[j] == Terrain::Land ==> exists|k: int| 0 <= k < land@.len() && (#[trigger] land@[k]).0 == j,
        decreases n - i,
    {
        proof {
            assert(t.take(i as int + 1).drop_last() == t.take(i as int));
        }
        let ghost before = land@;
        if terrain.is_land(TileId(i as u32)) {
            land.push(TileId(i as u32));
        }
        proof {
            assert forall|j: int| 0 <= j < i + 1 && t[j] == Terrain::Land implies exists|k: int| 0 <= k < land@.len() && (#[trigger] land@[k]).0 == j by {
                if j == i {
                    assert(land@[land@.len() - 1].0 == i);
                } else {
                    let k = choose|k: int| 0 <= k < before.len() && (#[trigger] before[k]).0 == j;
                    assert(land@[k] == before[k]);
                }
            }
        }
        i = i + 1;
    }
    proof {
        assert(t.take(n as int) == t);
    }
    let mut tiles: Vec<Option<Cover>> = Vec::new();
    let mut i: usize = 0;
    while i < n
        invariant
            i <= n,
            tiles@.len() == i,
            forall|j: int| 0 <= j < i ==> (#[trigger] tiles@[j]) is None,
        decreases n - i,
    {
        tiles.push(None);
        i = i + 1;
    }
    let ghost empty = tiles@;
    proof {
        assert(empty =~= Seq::new(t.len(), |i: int| None::<Cover>));
        assert(land@ == land_list(t));
        lemma_covered_none(empty, Cover::Village);
        lemma_covered_none(empty, Cover::Forest);
        lemma_covered_none(empty, Cover::Field);
    }
    let mut rng = stream(world_seed, SeedDomain::CoverSeeding, 0, 0);
    let ghost t0 = tiles@;
    let village = sow_kind(topology, terrain, &mut tiles, &mut rng, Cover::Village, &land, rules);
    let ghost t1 = tiles@;
    let forest = sow_kind(topology, terrain, &mut tiles, &mut rng, Cover::Forest, &land, rules);
    let ghost t2 = tiles@;
    let field = sow_kind(topology, terrain, &mut tiles, &mut rng, Cover::Field, &land, rules);
    let ghost t3 = tiles@;
    proof {
        assert(covered_as(t3, Cover::Village) == village);
        assert(covered_as(t3, Cover::Forest) == forest);
        assert(covered_as(t3, Cover::Field) == field);
        lemma_covered_total(t3);
        if land_full(t1, t) {
            assert forall|i: int| 0 <= i < t.len() && t[i] == Terrain::Land implies (#[trigger] t3[i]) is Some by {
                assert(t1[i] is Some);
                assert(t2[i] == t1[i]);
            }
        }
        if land_full(t2, t) {
            assert forall|i: int| 0 <= i < t.len() && t[i] == Terrain::Land implies (#[trigger] t3[i]) is Some by {
                assert(t2[i] is Some);
            }
        }
    }
    let counts: [usize; 3] = [village as usize, forest as usize, field as usize];
    CoverMap { tiles, counts }
}

} // verus!
