//! Which tiles of a planet are land: the map itself, its fingerprint, the
//! land share it aims at, and the two passes that turn a raw cut through an
//! elevation field into a coastline.

use crate::digest::{fnv1a_spec, le_u32, Digest};
use crate::ids::TileId;
use crate::pack::{packed_bytes, word_count, write_packed};
use crate::state::Terrain;
use crate::topology::Topology;
use vstd::prelude::*;

verus! {

/// The share of the planet that comes out as land, as a percentage.
pub const LAND_PERCENT: usize = 42;

/// A land tile keeps its land only if this many neighbours are land too.
pub const MIN_LAND_NEIGHBORS: usize = 2;

/// Land tiles among `tiles`.
pub open spec fn land_in(tiles: Seq<Terrain>) -> nat
    decreases tiles.len(),
{
    if tiles.len() == 0 {
        0
    } else {
        land_in(tiles.drop_last()) + if tiles.last() == Terrain::Land { 1nat } else { 0nat }
    }
}

/// One bit per tile: 1 for land.
pub open spec fn land_codes(tiles: Seq<Terrain>) -> Seq<u32> {
    Seq::new(tiles.len(), |i: int| if tiles[i] == Terrain::Land { 1u32 } else { 0u32 })
}

/// The fingerprint of a land mask: the tile count, then the mask packed
/// thirty-two tiles to a word, lowest id in the lowest bit.
pub open spec fn terrain_hash_spec(tiles: Seq<Terrain>) -> u64 {
    fnv1a_spec(le_u32(tiles.len() as u32) + packed_bytes(land_codes(tiles), 32, 2, word_count(tiles.len() as int, 32) as nat))
}

/// Which tiles of a planet are land and which are water, by tile id.
#[derive(Debug, PartialEq, Eq)]
pub struct TerrainMap {
    tiles: Vec<Terrain>,
    land: usize,
}

impl TerrainMap {
    #[verifier::type_invariant]
    spec fn counted(&self) -> bool {
        &&& self.land == land_in(self.tiles@)
        &&& self.tiles@.len() <= u32::MAX
        &&& self.tiles@.len() + 32 <= usize::MAX
    }

    /// The tiles, by id.
    pub closed spec fn view(&self) -> Seq<Terrain> {
        self.tiles@
    }

    /// A map of the given tiles.
    pub fn from_tiles(tiles: Vec<Terrain>) -> (m: TerrainMap)
        requires
            tiles@.len() <= u32::MAX,
            tiles@.len() + 32 <= usize::MAX,
        ensures
            m.view() == tiles@,
    {
        let n = tiles.len();
        let mut land: usize = 0;
        let mut i: usize = 0;
        while i < n
            invariant
                n == tiles@.len(),
                i <= n,
                land == land_in(tiles@.take(i as int)),
                land <= i,
            decreases n - i,
        {
            proof {
                assert(tiles@.take(i as int + 1).drop_last() == tiles@.take(i as int));
            }
            if tiles[i] == Terrain::Land {
                land = land + 1;
            }
            i = i + 1;
        }
        proof {
            assert(tiles@.take(n as int) == tiles@);
        }
        TerrainMap { tiles, land }
    }

    /// How many tiles the planet has.
    pub fn tile_count(&self) -> (n: usize)
        ensures
            n == self.view().len(),
            n <= u32::MAX,
            n + 32 <= usize::MAX,
    {
        proof {
            use_type_invariant(self);
        }
        self.tiles.len()
    }

    /// Land or water, by tile id.
    pub fn get(&self, tile: TileId) -> (t: Terrain)
        requires
            tile.0 < self.view().len(),
        ensures
            t == self.view()[tile.0 as int],
    {
        self.tiles[tile.index()]
    }

    /// Whether a tile is land.
    pub fn is_land(&self, tile: TileId) -> (b: bool)
        requires
            tile.0 < self.view().len(),
        ensures
            b == (self.view()[tile.0 as int] == Terrain::Land),
    {
        self.get(tile) == Terrain::Land
    }

    /// Every tile, by id.
    pub fn tiles(&self) -> (t: &[Terrain])
        ensures
            t@ == self.view(),
    {
        self.tiles.as_slice()
    }

    /// How many tiles are land.
    pub fn land_count(&self) -> (n: usize)
        ensures
            n == land_in(self.view()),
    {
        proof {
            use_type_invariant(self);
        }
        self.land
    }

    /// How many tiles are water.
    pub fn water_count(&self) -> (n: usize)
        ensures
            n == self.view().len() - land_in(self.view()),
    {
        proof {
            use_type_invariant(self);
            lemma_land_in_bound(self.tiles@);
        }
        self.tiles.len() - self.land
    }

    /// A fingerprint of the land mask.
    pub fn terrain_hash(&self) -> (h: u64)
        ensures
            h == terrain_hash_spec(self.view()),
    {
        proof {
            use_type_invariant(self);
        }
        let n = self.tiles.len();
        let mut codes: Vec<u32> = Vec::new();
        let mut i: usize = 0;
        while i < n
            invariant
                n == self.tiles@.len(),
                i <= n,
                codes@ == land_codes(self.tiles@).take(i as int),
            decreases n - i,
        {
            codes.push(if self.tiles[i] == Terrain::Land { 1 } else { 0 });
            proof {
                assert(codes@ == land_codes(self.tiles@).take(i as int + 1));
            }
            i = i + 1;
        }
        proof {
            assert(codes@ == land_codes(self.tiles@));
        }
        let mut d = Digest::new();
        d.u32(n as u32);
        write_packed(&mut d, &codes, 32, 2);
        d.finish()
    }
}

proof fn lemma_land_in_bound(tiles: Seq<Terrain>)
    ensures
        land_in(tiles) <= tiles.len(),
    decreases tiles.len(),
{
    if tiles.len() > 0 {
        lemma_land_in_bound(tiles.drop_last());
    }
}

/// The nearest whole number of tiles to `LAND_PERCENT` of a planet.
pub open spec fn spec_target_land(tile_count: int) -> int {
    (tile_count * 42 + 50) / 100
}

/// How many tiles of a planet of `tile_count` tiles should be land: the
/// nearest whole tile to `LAND_PERCENT` of it.
pub fn target_land(tile_count: usize) -> (n: usize)
    requires
        tile_count * 42 + 50 <= usize::MAX,
    ensures
        n == spec_target_land(tile_count as int),
{
    (tile_count * LAND_PERCENT + 50) / 100
}

// ---------------------------------------------------------------------------
// Coastlines
// ---------------------------------------------------------------------------

/// How many of `neighbors` are land in `land`.
pub open spec fn land_around(neighbors: Seq<TileId>, land: Seq<bool>) -> nat
    decreases neighbors.len(),
{
    if neighbors.len() == 0 {
        0
    } else {
        land_around(neighbors.drop_last(), land) + if land[neighbors.last().0 as int] { 1nat } else { 0nat }
    }
}

fn count_land_around(neighbors: &[TileId], land: &Vec<bool>) -> (n: usize)
    requires
        forall|k: int| 0 <= k < neighbors@.len() ==> (#[trigger] neighbors@[k]).0 < land@.len(),
    ensures
        n == land_around(neighbors@, land@),
        n <= neighbors@.len(),
{
    let mut n: usize = 0;
    let mut k: usize = 0;
    while k < neighbors.len()
        invariant
            k <= neighbors@.len(),
            n <= k,
            forall|q: int| 0 <= q < neighbors@.len() ==> (#[trigger] neighbors@[q]).0 < land@.len(),
            n == land_around(neighbors@.take(k as int), land@),
        decreases neighbors@.len() - k,
    {
        proof {
            assert(neighbors@.take(k as int + 1).drop_last() == neighbors@.take(k as int));
        }
        if land[neighbors[k].index()] {
            n = n + 1;
        }
        k = k + 1;
    }
    proof {
        assert(neighbors@.take(neighbors@.len() as int) == neighbors@);
    }
    n
}

/// Tile `i` after one smoothing pass over `before`: land keeps its land with
/// at least two land neighbours; water fills when every neighbour but at
/// most one is land.
pub open spec fn smoothed(adj: Seq<Seq<TileId>>, before: Seq<bool>, i: int) -> bool {
    let around = land_around(adj[i], before);
    if before[i] {
        around >= MIN_LAND_NEIGHBORS
    } else {
        around + 1 >= adj[i].len()
    }
}

/// Tile `i` after lone tiles are removed from `before`: a land tile with no
/// land neighbour drowns, a water tile with nothing but land around fills.
pub open spec fn settled(adj: Seq<Seq<TileId>>, before: Seq<bool>, i: int) -> bool {
    let around = land_around(adj[i], before);
    if before[i] && around == 0 {
        false
    } else if !before[i] && around == adj[i].len() {
        true
    } else {
        before[i]
    }
}

/// One smoothing pass: every tile reads the state the pass started in, so
/// the result does not depend on the order tiles are visited.
pub fn smooth_coastline(topology: &Topology, land: &mut Vec<bool>)
    requires
        old(land)@.len() == topology.count(),
    ensures
        final(land)@.len() == old(land)@.len(),
        forall|i: int| 0 <= i < old(land)@.len() ==> #[trigger] final(land)@[i] == smoothed(topology.adj(), old(land)@, i),
{
    proof {
        use_type_invariant(topology);
    }
    let before = land.clone();
    let n = land.len();
    let mut i: usize = 0;
    while i < n
        invariant
            n == land@.len(),
            n == before@.len(),
            n == topology.count(),
            i <= n,
            crate::topology::valid_adjacency(topology.adj()),
            forall|j: int| 0 <= j < i ==> #[trigger] land@[j] == smoothed(topology.adj(), before@, j),
        decreases n - i,
    {
        let neighbors = topology.neighbors(TileId(i as u32));
        proof {
            assert forall|k: int| 0 <= k < neighbors@.len() implies (#[trigger] neighbors@[k]).0 < before@.len() by {
                assert(topology.adj()[i as int].contains(neighbors@[k]));
            }
        }
        let around = count_land_around(neighbors, &before);
        let now = if before[i] { around >= MIN_LAND_NEIGHBORS } else { neighbors.len() == 0 || around >= neighbors.len() - 1 };
        land.set(i, now);
        i = i + 1;
    }
}

/// Drown every single-tile island and fill every single-tile lake, reading
/// the state the pass started in.
pub fn remove_lone_tiles(topology: &Topology, land: &mut Vec<bool>)
    requires
        old(land)@.len() == topology.count(),
    ensures
        final(land)@.len() == old(land)@.len(),
        forall|i: int| 0 <= i < old(land)@.len() ==> #[trigger] final(land)@[i] == settled(topology.adj(), old(land)@, i),
{
    proof {
        use_type_invariant(topology);
    }
    let before = land.clone();
    let n = land.len();
    let mut i: usize = 0;
    while i < n
        invariant
            n == land@.len(),
            n == before@.len(),
            n == topology.count(),
            i <= n,
            crate::topology::valid_adjacency(topology.adj()),
            forall|j: int| 0 <= j < i ==> #[trigger] land@[j] == settled(topology.adj(), before@, j),
            forall|j: int| i <= j < n ==> #[trigger] land@[j] == before@[j],
        decreases n - i,
    {
        let neighbors = topology.neighbors(TileId(i as u32));
        proof {
            assert forall|k: int| 0 <= k < neighbors@.len() implies (#[trigger] neighbors@[k]).0 < before@.len() by {
                assert(topology.adj()[i as int].contains(neighbors@[k]));
            }
        }
        let around = count_land_around(neighbors, &before);
        if before[i] && around == 0 {
            land.set(i, false);
        } else if !before[i] && around == neighbors.len() {
            land.set(i, true);
        }
        i = i + 1;
    }
}

} // verus!
