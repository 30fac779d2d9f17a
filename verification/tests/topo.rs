//! The small fixture topologies: flat ones with edges and closed ones
//! without.

use claimlands::ids::TileId;
use claimlands::topo;
use claimlands::topology::Topology;
use std::collections::BTreeSet;

/// A surface is closed when no tile has fewer neighbours than any other.
fn is_closed(t: &Topology) -> bool {
    let degrees: BTreeSet<usize> = t.tiles().into_iter().map(|id| t.neighbors(id).len()).collect();
    degrees.len() == 1
}

#[test]
fn line_ends_have_one_neighbour() {
    let t = topo::line(5);
    assert_eq!(t.neighbors(TileId(0)).len(), 1);
    assert_eq!(t.neighbors(TileId(4)).len(), 1);
    assert_eq!(t.neighbors(TileId(2)).len(), 2);
}

#[test]
fn grid_interior_has_four_neighbours() {
    let t = topo::grid(4, 4);
    assert_eq!(t.neighbors(TileId(5)).len(), 4);
    assert_eq!(t.neighbors(TileId(0)).len(), 2);
}

#[test]
fn hex_grid_interior_has_six_neighbours() {
    let t = topo::hex_grid(5, 5);
    // Tile (2,2) is fully surrounded.
    assert_eq!(t.neighbors(TileId(12)).len(), 6);
}

#[test]
fn hex_grid_adjacency_is_symmetric_for_both_row_parities() {
    let _ = topo::hex_grid(6, 5);
    let _ = topo::hex_grid(5, 6);
}

#[test]
fn the_icosahedron_is_twelve_pentagons() {
    let t = topo::icosahedron();
    assert_eq!(t.tile_count(), 12, "10n^2+2 at n=1");
    for id in t.tiles() {
        assert_eq!(t.neighbors(id).len(), 5, "{id:?} should be a pentagon like every other tile");
    }
}

#[test]
fn flat_topologies_have_edges_and_closed_ones_do_not() {
    assert!(!is_closed(&topo::line(5)));
    assert!(!is_closed(&topo::grid(4, 4)));
    assert!(!is_closed(&topo::hex_grid(5, 5)));

    assert!(is_closed(&topo::icosahedron()));
    assert!(is_closed(&topo::torus(6, 4)));
}

#[test]
fn every_tile_of_a_closed_surface_reaches_every_other() {
    for t in [topo::icosahedron(), topo::torus(5, 4)] {
        let dist = t.distances_from(TileId(0), |_| true);
        assert!(dist.iter().all(Option::is_some), "a closed surface has no unreachable tile");
    }
}

#[test]
fn a_torus_wraps_in_both_directions() {
    let t = topo::torus(6, 4);
    // Column 0 and column 5 are neighbours; row 0 and row 3 likewise.
    assert!(t.neighbors(TileId(0)).contains(&TileId(5)));
    assert!(t.neighbors(TileId(0)).contains(&TileId(18)));

    // Going the short way round beats going the long way.
    assert_eq!(t.distance(TileId(0), TileId(5), |_| true), Some(1));
}

#[test]
fn hex_rows_are_offset_by_parity() {
    let t = topo::hex_grid(4, 3);
    // Tile 5 is (1, 1), an odd row: its diagonals are columns 1 and 2.
    let mut ns: Vec<u32> = t.neighbors(TileId(5)).iter().map(|x| x.0).collect();
    ns.sort();
    assert_eq!(ns, vec![1, 2, 4, 6, 9, 10]);
    // Tile 1 is (1, 0), an even row: its lower diagonals are columns 0 and 1.
    let mut ns: Vec<u32> = t.neighbors(TileId(1)).iter().map(|x| x.0).collect();
    ns.sort();
    assert_eq!(ns, vec![0, 2, 4, 5]);
}
