//! Concrete cases of what the library states of its operations: the heir of
//! a split, the shape of the legal command list, replays that stop early,
//! and what a builder declares.

use claimlands::apply::legal_commands;
use claimlands::builder::WorldBuilder;
use claimlands::command::{Command, Rejection};
use claimlands::ids::{Faction, TerritoryId, TileId, UnitId};
use claimlands::rules::UnitKind;
use claimlands::session::{ReplayError, Session};
use claimlands::state::Territory;
use claimlands::territory::split_treasury;
use claimlands::topo;
use claimlands::cover::tiles_for_share;
use claimlands::economy::resolve_territory;
use claimlands::event::{Event, EventSink};
use claimlands::invariants::{check, Violation};
use claimlands::territory::retopologize;

fn duel() -> Session {
    WorldBuilder::new(topo::line(6))
        .all_land()
        .player(Faction::Red)
        .player(Faction::Blue)
        .own(Faction::Red, &[0, 1, 2])
        .capital(0)
        .treasury(0, 50, 50)
        .unit(UnitKind::Pawn, 2)
        .own(Faction::Blue, &[5])
        .capital(5)
        .treasury(5, 50, 50)
        .session()
}

#[test]
fn without_its_capital_the_largest_piece_is_the_heir() {
    let old = Territory {
        id: TerritoryId(3),
        faction: Faction::Red,
        capital: TileId(9),
        wheat: 10,
        gold: 7,
        tiles: vec![TileId(0), TileId(1), TileId(2), TileId(3), TileId(9)],
    };
    let out = split_treasury(&old, vec![vec![TileId(0)], vec![TileId(1), TileId(2), TileId(3)]]);
    assert_eq!(out.len(), 2);
    assert!(!out[0].heir);
    assert!(out[1].heir);
    assert_eq!(out[0].capital, None);
    assert_eq!(out[1].capital, None);
    // Floor shares of 10 and 7 over four tiles; the remainder goes to the heir.
    assert_eq!((out[0].wheat, out[0].gold), (2, 1));
    assert_eq!((out[1].wheat, out[1].gold), (8, 6));
}

#[test]
fn the_piece_holding_the_capital_is_the_heir_even_when_smaller() {
    let old = Territory {
        id: TerritoryId(1),
        faction: Faction::Blue,
        capital: TileId(0),
        wheat: 9,
        gold: 9,
        tiles: vec![TileId(0), TileId(2), TileId(3), TileId(4)],
    };
    let out = split_treasury(&old, vec![vec![TileId(0)], vec![TileId(2), TileId(3), TileId(4)]]);
    assert!(out[0].heir);
    assert!(!out[1].heir);
    assert_eq!(out[0].capital, Some(TileId(0)));
    assert_eq!(out[0].wheat + out[1].wheat, 9);
    assert_eq!(out[0].gold + out[1].gold, 9);
}

#[test]
fn the_legal_command_list_ends_with_a_single_end_turn() {
    let session = duel();
    let cmds = legal_commands(session.world(), session.rules());
    assert!(cmds.len() > 1);
    assert_eq!(cmds.last(), Some(&Command::EndTurn));
    assert_eq!(cmds.iter().filter(|c| **c == Command::EndTurn).count(), 1);
}

#[test]
fn a_replay_is_refused_at_its_first_unacceptable_command() {
    let session = duel();
    let log = [Command::EndTurn, Command::EndTurn, Command::UpgradeUnit { unit: UnitId(99) }, Command::EndTurn];
    let err = Session::replay(session.initial_world().snapshot(), session.rules().clone(), None, &log).unwrap_err();
    assert_eq!(err, ReplayError::Rejected { index: 2, source: Rejection::NoSuchUnit(UnitId(99)) });
}

#[test]
fn a_replay_without_a_recorded_hash_reproduces_the_log() {
    let mut session = duel();
    session.execute(Command::EndTurn).unwrap();
    session.execute(Command::EndTurn).unwrap();
    let replayed = Session::replay(session.initial_world().snapshot(), session.rules().clone(), None, session.log()).unwrap();
    assert_eq!(replayed.log(), session.log());
    assert_eq!(replayed.state_hash(), session.state_hash());
    assert_eq!(replayed.world().round, 2);
}

#[test]
fn executing_a_command_leaves_one_world_to_undo() {
    let mut session = duel();
    let pawn = session.world().tile(TileId(2)).unit.unwrap();
    session.execute(Command::MoveUnit { unit: pawn, to: TileId(1) }).unwrap();
    assert!(session.can_undo());
    assert!(session.undo().is_some());
    assert!(!session.can_undo());
}

#[test]
fn built_units_are_numbered_and_stamped_in_declaration_order() {
    let (world, _) = WorldBuilder::new(topo::line(4))
        .all_land()
        .player(Faction::Red)
        .own(Faction::Red, &[0, 1, 2, 3])
        .capital(0)
        .unit(UnitKind::Pawn, 1)
        .unit(UnitKind::Pawn, 3)
        .build();
    let units: Vec<_> = world.units.iter().map(|u| (u.id, u.tile, u.born, u.moved)).collect();
    assert_eq!(units, vec![(UnitId(0), TileId(1), 0, false), (UnitId(1), TileId(3), 1, false)]);
    assert_eq!(world.tile(TileId(3)).unit, Some(UnitId(1)));
}

#[test]
fn the_last_treasury_declared_for_a_territory_wins() {
    let (world, _) = WorldBuilder::new(topo::line(4))
        .all_land()
        .player(Faction::Red)
        .own(Faction::Red, &[0, 1, 2, 3])
        .capital(0)
        .treasury(0, 5, 6)
        .treasury(3, 7, 8)
        .build();
    let t = world.territory_at(TileId(0)).unwrap();
    assert_eq!((t.wheat, t.gold), (7, 8));
}

#[test]
fn a_share_of_a_very_large_land_count_is_computed_without_overflow() {
    assert_eq!(tiles_for_share(usize::MAX, 100), usize::MAX as u128);
    assert_eq!(tiles_for_share(270, 8), 22);
}

#[test]
fn a_match_opens_with_the_first_round() {
    let session = duel();
    assert_eq!(session.last_events().first(), Some(&Event::RoundBegan { round: 1 }));
}

#[test]
fn undo_with_nothing_to_take_back_changes_nothing() {
    let mut session = duel();
    let events = session.last_events().to_vec();
    let hash = session.state_hash();
    assert!(session.undo().is_none());
    assert_eq!(session.last_events(), events.as_slice());
    assert_eq!(session.state_hash(), hash);
}

#[test]
fn a_territory_in_debt_is_reported_with_its_amounts() {
    let (mut world, _) = WorldBuilder::new(topo::line(3))
        .all_land()
        .player(Faction::Red)
        .own(Faction::Red, &[0, 1, 2])
        .capital(0)
        .build();
    world.territories[0].gold = -5;
    let t = world.territories[0].clone();
    let violations = check(&world);
    assert!(violations.contains(&Violation::NegativeTreasury { territory: t.id, wheat: t.wheat, gold: -5 }));
}

#[test]
fn after_a_split_every_owned_tile_names_the_one_territory_holding_it() {
    let (mut world, rules) = WorldBuilder::new(topo::line(7))
        .all_land()
        .player(Faction::Red)
        .own(Faction::Red, &[0, 1, 2, 3, 4, 5, 6])
        .capital(0)
        .build();
    world.tile_mut(TileId(3)).owner = None;
    world.tile_mut(TileId(3)).territory = None;
    let mut sink = EventSink::new();
    retopologize(&mut world, &rules, Faction::Red, None, &mut sink);
    let ts: Vec<Territory> = world.territories_of(Faction::Red).into_iter().cloned().collect();
    assert_eq!(ts.len(), 2);
    for i in [0u32, 1, 2, 4, 5, 6] {
        let id = world.tile(TileId(i)).territory.unwrap();
        let holding: Vec<&Territory> = ts.iter().filter(|t| t.tiles.contains(&TileId(i))).collect();
        assert_eq!(holding.len(), 1);
        assert_eq!(holding[0].id, id);
    }
}

#[test]
fn a_territory_reports_its_production_first() {
    let (mut world, rules) = WorldBuilder::new(topo::line(3))
        .all_land()
        .player(Faction::Red)
        .own(Faction::Red, &[0, 1, 2])
        .capital(0)
        .build();
    let id = world.territory_at(TileId(0)).unwrap().id;
    let mut sink = EventSink::new();
    resolve_territory(&mut world, &rules, id, &mut sink);
    assert!(matches!(sink.events().first(), Some(Event::ResourcesProduced { territory, .. }) if *territory == id));
}

#[test]
fn a_step_reports_exactly_the_move() {
    let mut session = duel();
    let pawn = session.world().tile(TileId(2)).unit.unwrap();
    let events = session.execute(Command::MoveUnit { unit: pawn, to: TileId(1) }).unwrap().to_vec();
    assert_eq!(events, vec![Event::UnitMoved { unit: pawn, from: TileId(2), to: TileId(1) }]);
}

#[test]
fn a_capture_reports_the_capture_and_the_move() {
    let mut session = duel();
    let pawn = session.world().tile(TileId(2)).unit.unwrap();
    let events = session.execute(Command::MoveUnit { unit: pawn, to: TileId(3) }).unwrap().to_vec();
    assert!(events.contains(&Event::UnitMoved { unit: pawn, from: TileId(2), to: TileId(3) }));
    assert!(events.iter().any(|e| matches!(e, Event::TileCaptured { tile, .. } if *tile == TileId(3))));
}

#[test]
fn ending_a_turn_first_reports_whose_turn_ended() {
    let mut session = duel();
    let events = session.execute(Command::EndTurn).unwrap().to_vec();
    assert_eq!(events.first(), Some(&Event::TurnEnded { faction: Faction::Red }));
}
