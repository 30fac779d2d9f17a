//! Adjacency, hop distance, components and centrality.

use claimlands::ids::TileId;
use claimlands::topo;
use claimlands::topology::{Topology, TopologyError};

/// A line of `n` tiles: 0-1-2-...-(n-1).
fn line(n: u32) -> Topology {
    let neighbors = (0..n)
        .map(|i| {
            let mut v = Vec::new();
            if i > 0 {
                v.push(TileId(i - 1));
            }
            if i + 1 < n {
                v.push(TileId(i + 1));
            }
            v
        })
        .collect();
    Topology::new(neighbors).unwrap()
}

/// The tiles of `ids`, ascending and without repeats.
fn set(ids: &[u32]) -> Vec<TileId> {
    let mut v: Vec<TileId> = ids.iter().copied().map(TileId).collect();
    v.sort();
    v.dedup();
    v
}

#[test]
fn rejects_asymmetric_adjacency() {
    let err = Topology::new(vec![vec![TileId(1)], vec![]]).unwrap_err();
    assert!(matches!(err, TopologyError::Asymmetric { .. }));
}

#[test]
fn rejects_self_loops() {
    let err = Topology::new(vec![vec![TileId(0)]]).unwrap_err();
    assert_eq!(err, TopologyError::SelfLoop(TileId(0)));
}

#[test]
fn rejects_out_of_range_neighbours() {
    let err = Topology::new(vec![vec![TileId(5)]]).unwrap_err();
    assert!(matches!(err, TopologyError::OutOfRange { .. }));
}

#[test]
fn measures_hop_distance_along_a_line() {
    let t = line(5);
    assert_eq!(t.distance(TileId(0), TileId(4), |_| true), Some(4));
    assert_eq!(t.distance(TileId(0), TileId(0), |_| true), Some(0));
}

#[test]
fn impassable_tiles_block_the_path() {
    let t = line(5);
    // Tile 2 is a wall, so 0 cannot reach 4.
    assert_eq!(t.distance(TileId(0), TileId(4), |x| x != TileId(2)), None);
}

#[test]
fn splits_a_broken_line_into_two_components() {
    let t = line(5);
    let comps = t.components(&set(&[0, 1, 3, 4]));
    assert_eq!(comps, vec![set(&[0, 1]), set(&[3, 4])]);
}

#[test]
fn components_are_ordered_by_lowest_member() {
    let t = line(7);
    let comps = t.components(&set(&[5, 6, 0, 1]));
    assert_eq!(comps[0], set(&[0, 1]));
    assert_eq!(comps[1], set(&[5, 6]));
}

#[test]
fn most_central_finds_the_middle_of_a_line() {
    let t = line(5);
    let members = set(&[0, 1, 2, 3, 4]);
    let candidates: Vec<TileId> = (0..5).map(TileId).collect();
    assert_eq!(t.most_central(&members, &candidates), vec![TileId(2)]);
}

#[test]
fn most_central_returns_every_tie() {
    let t = line(4);
    let members = set(&[0, 1, 2, 3]);
    let candidates: Vec<TileId> = (0..4).map(TileId).collect();
    // Both middle tiles have total distance 1+0+1+2 = 4.
    assert_eq!(t.most_central(&members, &candidates), vec![TileId(1), TileId(2)]);
}

#[test]
fn neighbour_lists_come_back_sorted_without_repeats() {
    let t = Topology::new(vec![vec![TileId(2), TileId(1), TileId(2)], vec![TileId(0)], vec![TileId(0)]]).unwrap();
    assert_eq!(t.neighbors(TileId(0)), &[TileId(1), TileId(2)]);
}

#[test]
fn distances_from_reach_every_tile_of_a_closed_surface() {
    let t = topo::torus(4, 3);
    let dist = t.distances_from(TileId(0), |_| true);
    assert_eq!(dist.len(), 12);
    assert_eq!(dist[0], Some(0));
    assert_eq!(dist[1], Some(1));
    assert_eq!(dist[3], Some(1), "the row wraps");
    assert_eq!(dist[6], Some(3));
}
