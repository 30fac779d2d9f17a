//! Properties of random play.
//!
//! These play thousands of randomised matches and assert, after every single
//! command, that the world is still structurally sound. Where the golden
//! replays pin down *known* scenarios, this finds the ones nobody thought of:
//! the compound capture that splits one territory while merging two others,
//! the famine that empties a territory on the same turn its capital falls.
//!
//! Every command comes from [`legal_commands`], so the fuzzer only ever plays
//! moves a real player could have made.

use claimlands::apply::legal_commands;
use claimlands::builder::WorldBuilder;
use claimlands::command::Command;
use claimlands::ids::{Faction, TileId};
use claimlands::invariants;
use claimlands::rng::Rng;
use claimlands::rules::{TileKind, UnitKind};
use claimlands::session::Session;
use claimlands::state::World;
use claimlands::topo;

fn assert_sound(world: &World) {
    let violations = invariants::check(world);
    assert!(violations.is_empty(), "{violations:?}");
}

/// Four factions on a 6×6 hex grid, one capital each in a corner.
///
/// Small enough that thousands of matches run in seconds, big enough that
/// territories genuinely split, merge and collapse.
fn arena() -> Session {
    WorldBuilder::new(topo::hex_grid(6, 6))
        .all_land()
        .player(Faction::Red)
        .player(Faction::Yellow)
        .player(Faction::Green)
        .player(Faction::Blue)
        .own(Faction::Red, &[0])
        .capital(0)
        .own(Faction::Yellow, &[5])
        .capital(5)
        .own(Faction::Green, &[30])
        .capital(30)
        .own(Faction::Blue, &[35])
        .capital(35)
        // Some scenery to capture and raze.
        .kinds(&[8, 9, 14], TileKind::Forest)
        .session()
}

/// Play randomly, checking the world after every command.
fn play_random(seed: u64, steps: usize, check_every_step: bool) -> Session {
    let mut session = arena();
    let mut rng = Rng::seed_from_u64(seed);

    for step in 0..steps {
        if session.world().is_over() {
            break;
        }
        let options = legal_commands(session.world(), session.rules());
        let Some(cmd) = rng.pick(&options).cloned() else {
            break;
        };

        session.execute(cmd).unwrap_or_else(|e| {
            panic!("legal_commands offered {cmd:?} at step {step}, but it was refused: {e:?}")
        });

        if check_every_step {
            let violations = invariants::check(session.world());
            assert!(violations.is_empty(), "after step {step} ({cmd:?}) the world broke: {violations:?}");
        }
    }

    session
}

/// No sequence of legal moves can produce an unsound world.
#[test]
fn random_play_never_breaks_the_invariants() {
    for seed in [0u64, 1, 2, 3, 0xdead_beef, u64::MAX] {
        play_random(seed, 300, true);
    }
}

/// The same command log against the same starting world always lands on the
/// same state.
#[test]
fn replaying_a_random_match_reproduces_it_exactly() {
    for seed in [5u64, 6, 7, 0x1234_5678] {
        let session = play_random(seed, 200, false);
        let expected = session.state_hash();

        let replayed = Session::replay(
            session.initial_world().snapshot(),
            session.rules().clone(),
            Some(session.rules().hash()),
            session.log(),
        )
        .expect("a log this build produced always replays");

        assert_eq!(replayed.state_hash(), expected);
    }
}

/// Running the same seed twice produces identical play.
#[test]
fn the_same_seed_always_plays_the_same_match() {
    for seed in [9u64, 10, 11] {
        let a = play_random(seed, 150, false);
        let b = play_random(seed, 150, false);
        assert_eq!(a.state_hash(), b.state_hash());
        assert_eq!(a.log(), b.log());
    }
}

/// Undoing the last command and replaying it must land exactly where it was.
#[test]
fn undo_then_redo_is_the_identity() {
    for seed in 0..40u64 {
        let mut session = play_random(seed, 60, false);
        if !session.can_undo() {
            continue;
        }

        let before = session.state_hash();
        let last = session
            .log()
            .last()
            .cloned()
            .expect("can_undo implies a command");

        session.undo().expect("can_undo was true");
        session
            .execute(last)
            .unwrap_or_else(|e| panic!("seed {seed}: redoing {last:?} failed: {e:?}"));

        assert_eq!(
            session.state_hash(),
            before,
            "seed {seed}: undo followed by redo changed the world"
        );
    }
}

/// A split must not create or destroy wheat or gold. Checked directly rather
/// than through random play, because income makes the global total move.
#[test]
fn splitting_a_territory_conserves_its_treasury() {
    // Sweep widths and break points so the floor-division remainder lands in
    // every possible place.
    for width in [7u32, 8, 11, 16] {
        for cut in 2..width - 2 {
            for purse in [0i32, 1, 7, 15, 100, 101] {
                let mut session = WorldBuilder::new(topo::grid(width, 2))
                    .all_land()
                    .player(Faction::Blue)
                    .player(Faction::Red)
                    .own(Faction::Red, &(0..width).collect::<Vec<_>>())
                    .capital(0)
                    .treasury(0, purse, purse)
                    .own(Faction::Blue, &[width + cut])
                    .capital(width + cut)
                    .treasury(width + cut, 20, 0)
                    .unit(UnitKind::Pawn, width + cut)
                    .session();

                let pawn = session.world().tile(TileId(width + cut)).unit.unwrap();
                session
                    .execute(Command::MoveUnit {
                        unit: pawn,
                        to: TileId(cut),
                    })
                    .unwrap_or_else(|e| panic!("w={width} cut={cut}: {e:?}"));

                let world = session.world();
                assert_sound(world);

                let wheat: i32 = world.territories_of(Faction::Red).iter().map(|t| t.wheat).sum();
                let gold: i32 = world.territories_of(Faction::Red).iter().map(|t| t.gold).sum();
                assert_eq!(
                    wheat, purse,
                    "w={width} cut={cut} purse={purse}: wheat was not conserved"
                );
                assert_eq!(
                    gold, purse,
                    "w={width} cut={cut} purse={purse}: gold was not conserved"
                );
            }
        }
    }
}

/// Territories are a partition: every owned tile belongs to exactly one, and
/// no territory claims a tile it does not own.
#[test]
fn territories_always_partition_the_tiles_a_faction_owns() {
    for seed in 0..30u64 {
        let session = play_random(seed, 120, false);
        let world = session.world();

        for faction in Faction::ALL {
            let owned: std::collections::BTreeSet<TileId> = world.tiles_of(faction).into_iter().collect();
            let claimed: std::collections::BTreeSet<TileId> = world
                .territories_of(faction)
                .iter()
                .flat_map(|t| t.tiles.iter().copied())
                .collect();
            assert_eq!(
                owned, claimed,
                "seed {seed}: {faction:?}'s territories do not cover exactly its tiles"
            );
        }
    }
}

#[test]
fn quiet_commands_keep_a_sound_world_sound() {
    let mut session = WorldBuilder::new(topo::line(8))
        .all_land()
        .player(Faction::Red)
        .own(Faction::Red, &[0, 1, 2, 3, 4])
        .capital(0)
        .treasury(0, 200, 200)
        .unit(UnitKind::Pawn, 1)
        .unit(UnitKind::Pawn, 2)
        .session();
    assert_sound(session.world());
    let territory = session.world().territory_at(TileId(0)).unwrap().id;
    let first = session.world().tile(TileId(1)).unit.unwrap();
    let second = session.world().tile(TileId(2)).unit.unwrap();
    let commands = [
        Command::MoveUnit { unit: second, to: TileId(4) },
        Command::UpgradeUnit { unit: first },
        Command::RecruitUnit { territory, at: TileId(2) },
        Command::BuildTown { territory, at: TileId(3) },
        Command::BuildField { territory, at: TileId(4) },
    ];
    for command in commands {
        session.execute(command).unwrap();
        assert_sound(session.world());
    }
}

#[test]
fn random_play_on_the_arena_is_checked_and_repeatable() {
    for seed in [1u64, 2, 3] {
        let first = claimlands::playout::play_out(seed, 300, true).unwrap();
        let second = claimlands::playout::play_out(seed, 300, false).unwrap();
        assert!(first.log().len() <= 300);
        assert_eq!(first.log(), second.log());
        assert_eq!(first.state_hash(), second.state_hash());
        assert_sound(first.world());
    }
}

#[test]
fn the_arena_has_four_corners_held() {
    let session = claimlands::playout::arena(4);
    let world = session.world();
    assert_eq!(world.players.len(), 4);
    assert_eq!(world.tiles.len(), 64);
    for (faction, tile) in [(Faction::Red, 0u32), (Faction::Yellow, 7), (Faction::Green, 56), (Faction::Blue, 63)] {
        assert_eq!(world.tile(TileId(tile)).owner, Some(faction));
        assert_eq!(world.tile(TileId(tile)).kind, TileKind::Capital);
    }
    assert_eq!(world.tile(TileId(18)).kind, TileKind::Forest);
    assert!(session.log().is_empty());
}
