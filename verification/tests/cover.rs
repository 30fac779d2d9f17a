//! Ground cover: the rules that shape it and the sowing itself.

use claimlands::cover::{cover, ppm, tiles_for_share, Cover, CoverRules, CoverRulesError, COVER_RULES_VERSION};
use claimlands::ids::TileId;
use claimlands::rules::TileKind;
use claimlands::state::Terrain;
use claimlands::terrain::TerrainMap;
use claimlands::topo;

fn bundled() -> CoverRules {
    CoverRules::bundled()
}

#[test]
fn the_bundled_rules_are_valid() {
    let rules = bundled();
    assert!(rules.validate().is_ok());
    assert_eq!(rules.version, COVER_RULES_VERSION);
}

#[test]
fn the_bundled_rules_are_the_prototypes_numbers() {
    let rules = bundled();
    assert_eq!(rules.ring_decay_percent, 62);
    assert_eq!(rules.kinds.get(&Cover::Village).unwrap().share_percent, 8);
    assert_eq!(rules.kinds.get(&Cover::Forest).unwrap().share_percent, 20);
    assert_eq!(rules.kinds.get(&Cover::Field).unwrap().share_percent, 16);
    assert_eq!(rules.kinds.get(&Cover::Village).unwrap().cling_percent, 92);
    assert_eq!(rules.kinds.get(&Cover::Forest).unwrap().cling_percent, 90);
    assert_eq!(rules.kinds.get(&Cover::Field).unwrap().cling_percent, 85);
}

#[test]
fn the_seeding_order_is_villages_then_woods_then_fields() {
    assert_eq!(Cover::ALL, [Cover::Village, Cover::Forest, Cover::Field]);
}

#[test]
fn every_kind_maps_onto_a_tile_the_simulation_knows() {
    assert_eq!(Cover::Village.tile_kind(), TileKind::Town);
    assert_eq!(Cover::Forest.tile_kind(), TileKind::Forest);
    assert_eq!(Cover::Field.tile_kind(), TileKind::Field);
    for kind in Cover::ALL {
        assert_ne!(kind.tile_kind(), TileKind::Empty);
        assert_ne!(kind.tile_kind(), TileKind::Capital);
    }
}

#[test]
fn a_share_is_the_nearest_whole_tile() {
    assert_eq!(tiles_for_share(270, 8), 22); // 21.6
    assert_eq!(tiles_for_share(270, 20), 54);
    assert_eq!(tiles_for_share(270, 16), 43); // 43.2
    assert_eq!(tiles_for_share(0, 20), 0);
    assert_eq!(tiles_for_share(100, 0), 0);
    assert_eq!(tiles_for_share(50, 16), 8);
}

#[test]
fn a_clump_gets_the_rings_the_prototype_gives_it() {
    let rules = bundled();
    let floor = ppm(rules.ring_floor_percent);

    for (kind, expected) in [(Cover::Village, 4), (Cover::Forest, 4), (Cover::Field, 4)] {
        let mut cling = ppm(rules.kinds.get(&kind).unwrap().cling_percent);
        let mut rings = 0;
        while cling > floor {
            rings += 1;
            cling = cling * rules.ring_decay_percent / 100;
        }
        assert_eq!(rings, expected, "{kind:?} grew {rings} rings");
    }
}

#[test]
fn validation_rejects_rules_that_cannot_produce_a_planet() {
    let over = |mutate: fn(&mut CoverRules)| {
        let mut rules = bundled();
        mutate(&mut rules);
        rules.validate().expect_err("should have been rejected")
    };

    assert_eq!(over(|r| r.version = 2), CoverRulesError::Version { found: 2, expected: 1 });
    assert!(matches!(over(|r| r.ring_decay_percent = 100), CoverRulesError::OutOfRange { .. }));
    assert!(matches!(
        over(|r| {
            let mut k = r.kinds.get(&Cover::Field).unwrap();
            k.share_percent = 101;
            r.kinds.insert(Cover::Field, k);
        }),
        CoverRulesError::OutOfRange { .. }
    ));
    assert_eq!(
        over(|r| {
            r.kinds.remove(&Cover::Forest);
        }),
        CoverRulesError::Missing(Cover::Forest)
    );
    assert_eq!(
        over(|r| {
            let mut k = r.kinds.get(&Cover::Forest).unwrap();
            k.share_percent = 80;
            r.kinds.insert(Cover::Forest, k);
        }),
        CoverRulesError::Oversubscribed { total: 104 }
    );
}

/// Every other tile of a torus is land.
fn striped(w: u32, h: u32) -> TerrainMap {
    TerrainMap::from_tiles((0..w * h).map(|i| if i % 2 == 0 { Terrain::Land } else { Terrain::Water }).collect())
}

#[test]
fn cover_only_ever_lands_on_land() {
    let t = topo::torus(10, 8);
    let terrain = striped(10, 8);
    let map = cover(&t, &terrain, 7, &bundled());
    assert_eq!(map.tile_count(), 80);
    for id in 0..80u32 {
        if map.get(TileId(id)).is_some() {
            assert!(terrain.is_land(TileId(id)), "tile {id} is water but covered");
        }
    }
}

#[test]
fn every_kind_gets_exactly_the_share_the_data_asks_for() {
    let t = topo::torus(10, 8);
    let terrain = striped(10, 8);
    let map = cover(&t, &terrain, 11, &bundled());
    // 40 land tiles: 8% is 3, 20% is 8, 16% is 6.
    assert_eq!(map.count(Cover::Village), 3);
    assert_eq!(map.count(Cover::Forest), 8);
    assert_eq!(map.count(Cover::Field), 6);
    assert_eq!(map.covered_count(), 17);
    let counted = map.tiles().iter().filter(|c| **c == Some(Cover::Forest)).count();
    assert_eq!(counted, 8);
    assert_eq!(map.tile_kind(TileId(0)).is_some(), map.get(TileId(0)).is_some());
}

#[test]
fn a_planet_with_no_land_gets_no_cover() {
    let t = topo::torus(4, 4);
    let ocean = TerrainMap::from_tiles(vec![Terrain::Water; 16]);
    let map = cover(&t, &ocean, 1, &bundled());
    assert_eq!(map.covered_count(), 0);
    assert!(map.tiles().iter().all(Option::is_none));
}

#[test]
fn a_kind_missing_from_the_rules_claims_nothing() {
    let t = topo::torus(10, 8);
    let terrain = striped(10, 8);
    let mut rules = bundled();
    rules.kinds.remove(&Cover::Forest);
    let map = cover(&t, &terrain, 5, &rules);
    assert_eq!(map.count(Cover::Forest), 0);
    assert!(map.count(Cover::Village) > 0);
    assert!(map.count(Cover::Field) > 0);
}

#[test]
fn sowing_is_seeded_and_reproducible() {
    let t = topo::torus(10, 8);
    let terrain = striped(10, 8);
    let a = cover(&t, &terrain, 3, &bundled());
    let b = cover(&t, &terrain, 3, &bundled());
    assert_eq!(a.tiles(), b.tiles());
    assert_eq!(a.cover_hash(), b.cover_hash());
}

#[test]
fn a_crowded_planet_runs_out_of_land_rather_than_over_it() {
    // Three land tiles cannot hold shares that round up past them.
    let t = topo::line(3);
    let terrain = TerrainMap::from_tiles(vec![Terrain::Land; 3]);
    let mut rules = bundled();
    let mut k = rules.kinds.get(&Cover::Village).unwrap();
    k.share_percent = 60;
    rules.kinds.insert(Cover::Village, k);
    let mut k = rules.kinds.get(&Cover::Forest).unwrap();
    k.share_percent = 60;
    rules.kinds.insert(Cover::Forest, k);
    let map = cover(&t, &terrain, 9, &rules);
    assert_eq!(map.count(Cover::Village), 2);
    assert_eq!(map.count(Cover::Forest), 1, "only one tile was left");
    assert_eq!(map.covered_count(), 3);
}
