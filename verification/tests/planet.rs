//! The integer side of the planet: the icosahedron it starts from, the
//! geodesic lattice keys, land shares and the coastline passes.

use claimlands::geodesic::{check_frequency, edge_key, lattice_key, triangle_count, vertex_count, Kind, LatticeKey, MAX_FREQUENCY};
use claimlands::digest::fnv1a;
use claimlands::ids::TileId;
use claimlands::planet_hash::{adjacency_hash, lattice_hash, tiling_hash, CellShape};
use claimlands::state::Terrain;
use claimlands::terrain::{remove_lone_tiles, smooth_coastline, target_land, TerrainMap};
use claimlands::topo::{self, FACES, FACE_COUNT, VERTEX_COUNT};
use std::collections::{BTreeMap, BTreeSet};

#[test]
fn every_vertex_belongs_to_exactly_five_faces() {
    let mut uses = [0u32; VERTEX_COUNT];
    for face in FACES {
        for v in face {
            uses[v as usize] += 1;
        }
    }
    assert_eq!(uses, [5; VERTEX_COUNT]);
}

#[test]
fn the_surface_is_closed_and_consistently_wound() {
    let mut directed = BTreeSet::new();
    let mut undirected: BTreeMap<(u8, u8), u32> = BTreeMap::new();

    for face in FACES {
        for k in 0..3 {
            let (a, b) = (face[k], face[(k + 1) % 3]);
            assert!(directed.insert((a, b)), "directed edge {a}->{b} reused");
            *undirected.entry((a.min(b), a.max(b))).or_default() += 1;
        }
    }

    assert_eq!(undirected.len(), 30, "an icosahedron has 30 edges");
    assert!(undirected.values().all(|&n| n == 2));
    assert_eq!(VERTEX_COUNT + FACE_COUNT - undirected.len(), 2);
}

#[test]
fn the_two_faces_sharing_an_edge_agree_on_its_points() {
    let n = 5;
    assert_eq!(edge_key(2, 7, n, 1), edge_key(7, 2, n, n - 1));
    assert_eq!(edge_key(9, 4, n, 3), edge_key(4, 9, n, n - 3));
    // Distinct steps stay distinct.
    assert_ne!(edge_key(2, 7, n, 1), edge_key(2, 7, n, 2));
}

#[test]
fn the_share_is_the_nearest_whole_tile() {
    assert_eq!(target_land(642), 270); // 269.64
    assert_eq!(target_land(1442), 606); // 605.64
    assert_eq!(target_land(100), 42);
    assert_eq!(target_land(0), 0);
    assert_eq!(target_land(50), 21);
}

#[test]
fn an_out_of_range_frequency_is_refused_in_geodesics_own_words() {
    assert_eq!(check_frequency(0).unwrap_err(), "geodesic frequency must be 1..=512, got 0");
    assert_eq!(check_frequency(MAX_FREQUENCY + 1).unwrap_err(), "geodesic frequency must be 1..=512, got 513");
    assert!(check_frequency(1).is_ok());
    assert!(check_frequency(MAX_FREQUENCY).is_ok());
}

#[test]
fn closed_form_counts_at_the_playable_sizes() {
    assert_eq!(vertex_count(1), 12);
    assert_eq!(vertex_count(2), 42);
    assert_eq!(vertex_count(8), 642);
    assert_eq!(vertex_count(12), 1442);
    assert_eq!(triangle_count(1), 20);
    assert_eq!(triangle_count(8), 1280);
}

#[test]
fn lattice_keys_name_corners_edges_and_interiors() {
    let face = [0u8, 11, 5];
    assert_eq!(lattice_key(0, face, 3, 0, 0), LatticeKey::Corner(0));
    assert_eq!(lattice_key(0, face, 3, 3, 0), LatticeKey::Corner(11));
    assert_eq!(lattice_key(0, face, 3, 0, 3), LatticeKey::Corner(5));
    assert_eq!(lattice_key(0, face, 3, 1, 0), LatticeKey::Edge { from: 0, to: 11, step: 1 });
    assert_eq!(lattice_key(0, face, 3, 2, 1), LatticeKey::Edge { from: 5, to: 11, step: 2 });
    assert_eq!(lattice_key(0, face, 3, 1, 1), LatticeKey::Interior { face: 0, i: 1, j: 1 });
}

#[test]
fn export_kinds_are_named() {
    assert_eq!(Kind::Tiles.as_str(), "tiles");
    assert_eq!(Kind::Mesh.as_str(), "mesh");
}

#[test]
fn a_terrain_map_counts_its_land() {
    let map = TerrainMap::from_tiles(vec![Terrain::Land, Terrain::Water, Terrain::Land]);
    assert_eq!(map.tile_count(), 3);
    assert_eq!(map.land_count(), 2);
    assert_eq!(map.water_count(), 1);
    assert!(map.is_land(TileId(0)));
    assert!(!map.is_land(TileId(1)));
    assert_eq!(map.get(TileId(2)), Terrain::Land);
}

#[test]
fn the_terrain_fingerprint_notices_a_single_tile() {
    let a = TerrainMap::from_tiles(vec![Terrain::Land; 40]);
    let mut tiles = vec![Terrain::Land; 40];
    tiles[33] = Terrain::Water;
    let b = TerrainMap::from_tiles(tiles);
    assert_ne!(a.terrain_hash(), b.terrain_hash());
}

#[test]
fn the_terrain_fingerprint_packs_a_bit_per_tile() {
    // One land tile out of one: the count word, then a word holding bit 0.
    let map = TerrainMap::from_tiles(vec![Terrain::Land]);
    let mut bytes = Vec::new();
    bytes.extend_from_slice(&1u32.to_le_bytes());
    bytes.extend_from_slice(&1u32.to_le_bytes());
    assert_eq!(map.terrain_hash(), claimlands::digest::fnv1a(&bytes));
}

#[test]
fn smoothing_drowns_a_spit_and_fills_a_puddle() {
    // On a line every tile has at most two neighbours.
    let t = topo::line(5);
    let mut land = vec![true, false, true, true, true];
    smooth_coastline(&t, &mut land);
    // Tile 0 has no land neighbour and drowns; tile 1 has land on both sides
    // and fills; tiles 2 and 4 have one land neighbour and drown.
    assert_eq!(land, vec![false, true, false, true, false]);
}

#[test]
fn lone_tiles_are_removed_in_one_pass() {
    let t = topo::line(5);
    let mut land = vec![true, false, false, true, true];
    remove_lone_tiles(&t, &mut land);
    assert_eq!(land, vec![false, false, false, true, true]);

    let mut land = vec![true, false, true, false, false];
    remove_lone_tiles(&t, &mut land);
    assert_eq!(land, vec![false, true, false, false, false]);
}

#[test]
fn the_adjacency_fingerprint_hashes_counts_then_rows() {
    let rows = vec![vec![1u32, 2], vec![0], vec![]];
    let bytes = [3u8, 0, 0, 0, 2, 1, 0, 0, 0, 2, 0, 0, 0, 1, 0, 0, 0, 0, 0];
    assert_eq!(adjacency_hash(&rows), fnv1a(&bytes));
    assert_ne!(adjacency_hash(&rows), adjacency_hash(&vec![vec![2u32, 1], vec![0], vec![]]));
}

#[test]
fn the_lattice_fingerprint_tags_each_key() {
    let keys = vec![
        LatticeKey::Corner(4),
        LatticeKey::Edge { from: 1, to: 2, step: 3 },
        LatticeKey::Interior { face: 5, i: 1, j: 2 },
    ];
    let triangles = vec![[0u32, 1, 2]];
    let bytes = [
        2u8, 0, 0, 0, 3, 0, 0, 0, // frequency, point count
        0, 4, // corner
        1, 1, 2, 3, 0, 0, 0, // edge
        2, 5, 1, 0, 0, 0, 2, 0, 0, 0, // interior
        1, 0, 0, 0, 0, 0, 0, 0, 1, 0, 0, 0, 2, 0, 0, 0, // one triangle
    ];
    assert_eq!(lattice_hash(2, 3, &keys, &triangles), fnv1a(&bytes));
}

#[test]
fn the_tiling_fingerprint_covers_cells_and_corners() {
    let cells = vec![CellShape { sides: 1, corners: vec![7], neighbors: vec![9] }];
    let corners = vec![[0u32, 0, 0]];
    let bytes = [
        1u8, 0, 0, 0, 1, 0, 0, 0, // frequency, cell count
        1, 7, 0, 0, 0, 9, 0, 0, 0, // the cell
        1, 0, 0, 0, 0, 0, 0, 0, 0, 0, 0, 0, 0, 0, 0, 0, // one corner
    ];
    assert_eq!(tiling_hash(1, &cells, &corners), fnv1a(&bytes));
}
