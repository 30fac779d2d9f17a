//! The planet is a sphere, so the playfield has no edges. Nothing in the
//! simulation knows geometry: it sees only adjacency, and these fixtures use
//! closed surfaces (the twelve-tile planet and a torus) to show every rule is
//! right where a map wraps.

use claimlands::apply::legal_commands;
use claimlands::builder::WorldBuilder;
use claimlands::command::Command;
use claimlands::ids::{Faction, TileId};
use claimlands::invariants::check;
use claimlands::movement::reachable;
use claimlands::rng::Rng;
use claimlands::rules::{TileKind, UnitKind};
use claimlands::state::{Territory, World};
use claimlands::topo;

fn assert_sound(world: &World) {
    let violations = check(world);
    assert!(violations.is_empty(), "{violations:?}");
}

#[test]
fn closed_surface_a_territory_can_encircle_the_planet() {
    // Red owns an entire wrapping row of a 6x4 torus.
    let (world, _) = WorldBuilder::new(topo::torus(6, 4))
        .all_land()
        .player(Faction::Red)
        .own(Faction::Red, &[0, 1, 2, 3, 4, 5])
        .capital(0)
        .build();

    assert_sound(&world);
    let territories: Vec<&Territory> = world.territories_of(Faction::Red);
    assert_eq!(territories.len(), 1, "the ring closes on itself, so it is a single territory");
    assert_eq!(territories[0].size(), 6);
}

#[test]
fn closed_surface_cutting_an_encircling_territory_once_does_not_split_it() {
    let mut session = WorldBuilder::new(topo::torus(6, 4))
        .all_land()
        .player(Faction::Blue)
        .player(Faction::Red)
        .own(Faction::Red, &[0, 1, 2, 3, 4, 5])
        .capital(0)
        // Blue sits one row below tile 2, ready to punch through the ring.
        .own(Faction::Blue, &[8])
        .capital(8)
        .unit(UnitKind::Pawn, 8)
        .session();

    let pawn = session.world().tile(TileId(8)).unit.unwrap();
    session
        .execute(Command::MoveUnit { unit: pawn, to: TileId(2) })
        .expect("a pawn may take empty enemy ground");

    let world = session.world();
    assert_sound(world);

    let territories: Vec<&Territory> = world.territories_of(Faction::Red);
    assert_eq!(territories.len(), 1, "tiles 3-4-5 still reach 0-1 by wrapping past tile 5, so the ring holds");
    assert_eq!(territories[0].size(), 5);
    assert_eq!(territories[0].capital, TileId(0), "no relocation was needed");
}

#[test]
fn closed_surface_cutting_an_encircling_territory_twice_splits_it() {
    let mut session = WorldBuilder::new(topo::torus(6, 4))
        .all_land()
        .player(Faction::Blue)
        .player(Faction::Red)
        .own(Faction::Red, &[0, 1, 2, 3, 4, 5])
        .capital(0)
        .treasury(0, 20, 20)
        .own(Faction::Blue, &[8, 11])
        .capital(8)
        .unit(UnitKind::Pawn, 8)
        .unit(UnitKind::Pawn, 11)
        .session();

    // Cut at tile 2 and at tile 5, on opposite sides of the ring.
    let first = session.world().tile(TileId(8)).unit.unwrap();
    let second = session.world().tile(TileId(11)).unit.unwrap();
    session.execute(Command::MoveUnit { unit: first, to: TileId(2) }).unwrap();
    session.execute(Command::MoveUnit { unit: second, to: TileId(5) }).unwrap();

    let world = session.world();
    assert_sound(world);

    let mut sizes: Vec<u32> = world.territories_of(Faction::Red).iter().map(|t| t.size()).collect();
    sizes.sort_unstable();
    assert_eq!(sizes, vec![2, 2], "the ring became two arcs: {{0,1}} and {{3,4}}");

    // The treasury still divides in proportion and conserves exactly.
    let wheat: i32 = world.territories_of(Faction::Red).iter().map(|t| t.wheat).sum();
    let gold: i32 = world.territories_of(Faction::Red).iter().map(|t| t.gold).sum();
    assert_eq!(wheat, 20);
    assert_eq!(gold, 20);
}

#[test]
fn movement_wraps_around_the_planet() {
    let session = WorldBuilder::new(topo::torus(6, 4))
        .all_land()
        .player(Faction::Red)
        .own(Faction::Red, &[0, 1, 2, 3, 4, 5])
        .capital(0)
        .treasury(0, 50, 50)
        .unit(UnitKind::Pawn, 0)
        .session();

    let pawn = session.world().tile(TileId(0)).unit.unwrap();
    let can_reach = reachable(session.world(), session.rules(), pawn);

    // Tile 5 is one step backwards around the ring, not five forwards.
    assert!(can_reach.contains(&TileId(5)), "the pawn should see tile 5 as adjacent");
    for t in [1u32, 2, 3, 4, 5] {
        assert!(can_reach.contains(&TileId(t)), "tile {t} should be reachable");
    }
}

#[test]
fn closed_surface_a_capital_rehouses_on_a_surface_with_no_centre() {
    let mut session = WorldBuilder::new(topo::torus(6, 4))
        .all_land()
        .player(Faction::Blue)
        .player(Faction::Red)
        .own(Faction::Red, &[0, 1, 2, 3, 4, 5])
        .capital(3)
        .own(Faction::Blue, &[9])
        .capital(9)
        .treasury(9, 20, 0)
        .unit(UnitKind::Warrior, 9)
        .session();

    let warrior = session.world().tile(TileId(9)).unit.unwrap();
    session
        .execute(Command::MoveUnit { unit: warrior, to: TileId(3) })
        .expect("a warrior may take a capital");

    let world = session.world();
    assert_sound(world);

    let territories: Vec<&Territory> = world.territories_of(Faction::Red);
    assert_eq!(territories.len(), 1, "an arc of five, still connected");
    assert!(territories[0].tiles.contains(&territories[0].capital), "the rehoused capital is inside its own territory");
    assert_eq!(world.tile(territories[0].capital).kind, TileKind::Capital, "and the tile is marked as one");
}

#[test]
fn the_invariants_hold_on_a_real_planet() {
    for seed in 0..60u64 {
        let mut session = WorldBuilder::new(topo::icosahedron())
            .seed(seed)
            .all_land()
            .player(Faction::Red)
            .player(Faction::Blue)
            .own(Faction::Red, &[0])
            .capital(0)
            .own(Faction::Blue, &[3])
            .capital(3)
            .session();

        let mut rng = Rng::seed_from_u64(seed);
        for step in 0..200 {
            if session.world().is_over() {
                break;
            }
            let options = legal_commands(session.world(), session.rules());
            let Some(cmd) = rng.pick(&options).cloned() else {
                break;
            };
            session
                .execute(cmd)
                .unwrap_or_else(|e| panic!("seed {seed} step {step}: {cmd:?} was refused: {e:?}"));

            let violations = check(session.world());
            assert!(violations.is_empty(), "seed {seed} step {step} ({cmd:?}) broke a 12-tile planet: {violations:?}");
        }
    }
}

#[test]
fn the_invariants_hold_on_a_wrapping_world() {
    for seed in 0..40u64 {
        let mut session = WorldBuilder::new(topo::torus(7, 6))
            .seed(seed)
            .all_land()
            .player(Faction::Red)
            .player(Faction::Yellow)
            .player(Faction::Green)
            .player(Faction::Blue)
            .own(Faction::Red, &[0])
            .capital(0)
            .own(Faction::Yellow, &[3])
            .capital(3)
            .own(Faction::Green, &[24])
            .capital(24)
            .own(Faction::Blue, &[38])
            .capital(38)
            .session();

        let mut rng = Rng::seed_from_u64(seed ^ 0xABCD);
        for step in 0..300 {
            if session.world().is_over() {
                break;
            }
            let options = legal_commands(session.world(), session.rules());
            let Some(cmd) = rng.pick(&options).cloned() else {
                break;
            };
            session.execute(cmd).unwrap_or_else(|e| panic!("seed {seed} step {step}: {cmd:?}: {e:?}"));

            let violations = check(session.world());
            assert!(violations.is_empty(), "seed {seed} step {step} ({cmd:?}) broke a wrapping world: {violations:?}");
        }
    }
}
