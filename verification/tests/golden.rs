//! Golden replays and the world builder they stand on.

use claimlands::builder::WorldBuilder;
use claimlands::command::{Command, Rejection};
use claimlands::golden::{GoldenError, GoldenReplay, PlayerSpec, Setup, TopologySpec};
use claimlands::ids::{Faction, TileId, UnitId};
use claimlands::rules::{Ruleset, TileKind, UnitKind};
use claimlands::state::Terrain;
use claimlands::replay_text::patch_hash_lines;
use claimlands::topo;

fn setup() -> Setup {
    Setup {
        topology: TopologySpec::Line(6),
        seed: 17,
        land: None,
        players: vec![
            PlayerSpec { faction: Faction::Red, ai: None },
            PlayerSpec { faction: Faction::Blue, ai: Some("steady".to_owned()) },
        ],
        ownership: vec![(Faction::Red, vec![0, 1, 2]), (Faction::Blue, vec![5])],
        capitals: vec![0, 5],
        kinds: vec![(1, TileKind::Field)],
        units: vec![(Faction::Red, UnitKind::Pawn, 2)],
        treasuries: vec![(0, 30, 30)],
    }
}

fn replay(commands: Vec<Command>) -> GoldenReplay {
    GoldenReplay {
        name: "duel".to_owned(),
        description: "a pawn walks east".to_owned(),
        rules: vec![],
        ruleset_hash: Ruleset::bundled().hash(),
        setup: setup(),
        commands,
        expected_state_hash: 0,
    }
}

#[test]
fn a_setup_builds_the_world_it_describes() {
    let (world, rules) = setup().build();
    assert_eq!(world.seed, 17);
    assert_eq!(world.tiles.len(), 6);
    assert_eq!(world.players.len(), 2);
    assert_eq!(world.tile(TileId(1)).kind, TileKind::Field);
    assert_eq!(world.territory_at(TileId(0)).unwrap().wheat, 30);
    assert_eq!(world.units.len(), 1);
    assert_eq!(rules.hash(), Ruleset::bundled().hash());
}

#[test]
fn a_rerecorded_replay_verifies() {
    let pawn = UnitId(0);
    let mut r = replay(vec![Command::MoveUnit { unit: pawn, to: TileId(3) }, Command::EndTurn, Command::EndTurn]);
    r.ruleset_hash = 0;
    r.rerecord().unwrap();
    assert_eq!(r.ruleset_hash, Ruleset::bundled().hash());
    assert!(r.verify().is_ok());
}

#[test]
fn a_moved_hash_is_a_mismatch() {
    let mut r = replay(vec![Command::EndTurn]);
    r.rerecord().unwrap();
    let good = r.expected_state_hash;
    r.expected_state_hash = good ^ 1;
    match r.verify() {
        Err(GoldenError::HashMismatch { expected, actual, .. }) => {
            assert_eq!(expected, good ^ 1);
            assert_eq!(actual, good);
        }
        other => panic!("expected a mismatch, got {other:?}"),
    }
}

#[test]
fn a_changed_ruleset_is_refused_before_any_command() {
    let mut r = replay(vec![]);
    r.ruleset_hash ^= 0xdead_beef;
    match r.run() {
        Err(GoldenError::RulesetChanged { recorded, current, .. }) => {
            assert_eq!(recorded, Ruleset::bundled().hash() ^ 0xdead_beef);
            assert_eq!(current, Ruleset::bundled().hash());
        }
        other => panic!("expected a ruleset change, got {other:?}"),
    }
}

#[test]
fn a_rejected_command_names_its_index() {
    let r = replay(vec![Command::EndTurn, Command::MoveUnit { unit: UnitId(0), to: TileId(3) }]);
    match r.run() {
        Err(GoldenError::CommandRejected { index, reason, .. }) => {
            assert_eq!(index, 1);
            assert!(matches!(reason, Rejection::NotYourUnit { .. }));
        }
        other => panic!("expected a rejection, got {other:?}"),
    }
}

#[test]
fn the_builder_raises_water_it_hands_out() {
    let b = WorldBuilder::new(topo::line(4)).land(&[0]).own(Faction::Red, &[3]);
    assert_eq!(b.tiles[1].terrain, Terrain::Water);
    assert_eq!(b.tiles[0].terrain, Terrain::Land);
    assert_eq!(b.tiles[3].terrain, Terrain::Land);
    assert_eq!(b.tiles[3].owner, Some(Faction::Red));
    assert_eq!(b.current, Some(Faction::Red));
}

#[test]
fn the_builder_places_units_and_treasuries_after_territories() {
    let (world, rules) = WorldBuilder::new(topo::line(5))
        .all_land()
        .player(Faction::Red)
        .own(Faction::Red, &[0, 1, 2])
        .capital(1)
        .unit(UnitKind::Warrior, 2)
        .treasury(0, 9, 4)
        .build();
    let t = world.territory_at(TileId(2)).unwrap();
    assert_eq!((t.wheat, t.gold), (9, 4));
    assert_eq!(t.capital, TileId(1));
    let id = world.tile(TileId(2)).unit.unwrap();
    assert_eq!(world.unit(id).unwrap().kind, UnitKind::Warrior);
    assert_eq!(rules.economy.starting_wheat, 5);
}

#[test]
fn the_hash_lines_are_rewritten_and_nothing_else() {
    let text = "GoldenReplay(\n    name: \"duel\",\n    ruleset_hash: 12,\n    expected_state_hash   : 0x00ff,\n    ruleset_hash_note: 7,\n    commands: [],\n)";
    let out = patch_hash_lines(text, 345, 6789);
    assert_eq!(
        out,
        "GoldenReplay(\n    name: \"duel\",\n    ruleset_hash: 345,\n    expected_state_hash: 6789,\n    ruleset_hash_note: 7,\n    commands: [],\n)\n"
    );
}

#[test]
fn rewriting_hash_lines_ends_lines_with_a_bare_newline() {
    assert_eq!(patch_hash_lines("a\r\n\truleset_hash: 1,\r\n", 0, 0), "a\n\truleset_hash: 0,\n");
    assert_eq!(patch_hash_lines("", 1, 2), "\n");
    assert_eq!(patch_hash_lines("x\n\ny", 1, 2), "x\n\ny\n");
}
