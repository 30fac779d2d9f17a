//! Level validation: what is refused, and how the refusal reads.

use claimlands::ids::Faction;
use claimlands::levels::{Level, LevelError, LevelPlayer, PlayerKind, TileOverride};
use claimlands::rules::TileKind;
use claimlands::state::Terrain;

/// A level that passes every check, as the starting point for tests that then
/// break exactly one thing.
fn valid() -> Level {
    Level {
        id: "campaign/03-the-narrows".to_owned(),
        freq: 8,
        seed: 194_837,
        players: vec![
            LevelPlayer {
                faction: Faction::Red,
                kind: PlayerKind::Human,
            },
            LevelPlayer {
                faction: Faction::Blue,
                kind: PlayerKind::Ai {
                    profile: "aggressive-2".to_owned(),
                },
            },
        ],
        overrides: vec![
            TileOverride {
                id: 214,
                terrain: Terrain::Land,
                kind: TileKind::Capital,
                owner: Some(Faction::Red),
            },
            TileOverride {
                id: 297,
                terrain: Terrain::Land,
                kind: TileKind::Forest,
                owner: None,
            },
            TileOverride {
                id: 401,
                terrain: Terrain::Land,
                kind: TileKind::Capital,
                owner: Some(Faction::Blue),
            },
            TileOverride {
                id: 402,
                terrain: Terrain::Water,
                kind: TileKind::Empty,
                owner: None,
            },
        ],
    }
}

// ---- validation ---------------------------------------------------------
//
// Every message below names the field it is complaining about.

#[test]
fn rejects_an_override_out_of_range() {
    let mut level = valid();
    level.freq = 2; // 42 tiles, so 214 is well past the end.
    level.overrides[0].id = 214;
    let err = level.validate().unwrap_err();

    assert_eq!(
        err,
        LevelError::OverrideOutOfRange {
            index: 0,
            tile: 214,
            freq: 2,
            count: 42,
        }
    );
    assert!(err.message().contains("overrides[0].id"), "got: {err:?}");
}

#[test]
fn rejects_the_last_tile_id_plus_one() {
    // The off-by-one that a range check gets wrong: id 641 is the last tile of
    // a frequency-8 planet, 642 is not a tile.
    let mut level = valid();
    level.overrides[0].id = 641;
    assert!(level.validate().is_ok());

    level.overrides[0].id = 642;
    assert!(matches!(
        level.validate(),
        Err(LevelError::OverrideOutOfRange { tile: 642, .. })
    ));
}

#[test]
fn rejects_a_faction_with_no_capital() {
    let mut level = valid();
    level.overrides.retain(|t| t.owner != Some(Faction::Blue));
    let err = level.validate().unwrap_err();

    assert_eq!(
        err,
        LevelError::FactionWithoutCapital {
            index: 1,
            faction: Faction::Blue,
        }
    );
    assert!(err.message().contains("players[1]"), "got: {err:?}");
}

#[test]
fn rejects_a_faction_that_owns_tiles_but_no_capital() {
    // Owning ground is not the same as having somewhere to start from.
    let mut level = valid();
    for tile in &mut level.overrides {
        if tile.owner == Some(Faction::Blue) {
            tile.kind = TileKind::Field;
        }
    }
    assert!(matches!(
        level.validate(),
        Err(LevelError::FactionWithoutCapital {
            faction: Faction::Blue,
            ..
        })
    ));
}

#[test]
fn rejects_fewer_than_two_players() {
    let mut level = valid();
    level.players.truncate(1);
    let err = level.validate().unwrap_err();

    assert_eq!(
        err,
        LevelError::PlayerCount {
            min: 2,
            max: 4,
            found: 1,
        }
    );
    assert!(err.message().contains("players"), "got: {err:?}");
}

#[test]
fn rejects_more_than_four_players() {
    let mut level = valid();
    level.players = Faction::ALL
        .iter()
        .chain(std::iter::once(&Faction::Red))
        .map(|&faction| LevelPlayer {
            faction,
            kind: PlayerKind::Human,
        })
        .collect();

    assert!(matches!(
        level.validate(),
        Err(LevelError::PlayerCount { found: 5, .. })
    ));
}

#[test]
fn rejects_the_same_faction_twice() {
    let mut level = valid();
    level.players[1].faction = Faction::Red;

    assert_eq!(
        level.validate(),
        Err(LevelError::DuplicateFaction {
            index: 1,
            first: 0,
            faction: Faction::Red,
        })
    );
}

#[test]
fn rejects_two_overrides_for_one_tile() {
    let mut level = valid();
    level.overrides[1].id = level.overrides[0].id;

    assert_eq!(
        level.validate(),
        Err(LevelError::DuplicateOverride {
            index: 1,
            first: 0,
            tile: 214,
        })
    );
}

#[test]
fn rejects_an_owner_who_is_not_playing() {
    let mut level = valid();
    level.overrides[1].owner = Some(Faction::Green);

    assert_eq!(
        level.validate(),
        Err(LevelError::UnknownOwner {
            index: 1,
            faction: Faction::Green,
        })
    );
}

#[test]
fn rejects_water_that_is_owned_or_built_on() {
    // The same statement the invariants make about a live world,
    // made before the world exists.
    let mut level = valid();
    level.overrides[3].owner = Some(Faction::Red);
    assert!(matches!(
        level.validate(),
        Err(LevelError::WaterNotNeutral { index: 3, .. })
    ));

    let mut level = valid();
    level.overrides[3].kind = TileKind::Town;
    assert!(matches!(
        level.validate(),
        Err(LevelError::WaterNotNeutral { index: 3, .. })
    ));
}

#[test]
fn rejects_a_capital_that_belongs_to_nobody() {
    let mut level = valid();
    level.overrides[1].kind = TileKind::Capital;

    assert_eq!(
        level.validate(),
        Err(LevelError::UnownedCapital { index: 1 })
    );
}

#[test]
fn rejects_an_out_of_range_frequency() {
    for freq in [0, 13, 1_000] {
        let mut level = valid();
        level.freq = freq;
        assert!(
            matches!(level.validate(), Err(LevelError::Frequency { found, .. }) if found == freq),
            "freq {freq} should be refused"
        );
    }
}

#[test]
fn rejects_an_empty_id() {
    let mut level = valid();
    level.id = "  ".to_owned();
    assert_eq!(level.validate(), Err(LevelError::MissingId));
}

#[test]
fn rejects_an_ai_with_no_profile() {
    let mut level = valid();
    level.players[1].kind = PlayerKind::Ai {
        profile: String::new(),
    };
    assert_eq!(
        level.validate(),
        Err(LevelError::EmptyAiProfile { index: 1 })
    );
}


#[test]
fn the_documented_level_shape_validates() {
    let level = valid();
    assert!(level.validate().is_ok());
    assert_eq!(level.tile_count(), 642, "10n^2+2 at n=8");
    assert_eq!(
        level.player(Faction::Blue).map(|p| &p.kind),
        Some(&PlayerKind::Ai { profile: "aggressive-2".to_owned() })
    );
    assert!(level.player(Faction::Green).is_none());
    assert!(!level.is_ocean());
}

#[test]
fn an_id_of_unicode_white_space_is_empty() {
    let mut level = valid();
    level.id = "\u{3000}\t\u{2003}".to_owned();
    assert_eq!(level.validate(), Err(LevelError::MissingId));
    level.id = " x ".to_owned();
    assert!(level.validate().is_ok());
}

#[test]
fn refusals_read_as_they_are_written() {
    assert_eq!(LevelError::MissingId.message(), "id must not be empty");
    assert_eq!(
        LevelError::Frequency { min: 1, max: 12, found: 13 }.message(),
        "freq must be within 1..=12, found 13"
    );
    assert_eq!(
        LevelError::PlayerCount { min: 2, max: 4, found: 1 }.message(),
        "players must hold 2 to 4 entries, found 1"
    );
    assert_eq!(
        LevelError::DuplicateFaction { index: 1, first: 0, faction: Faction::Red }.message(),
        "players[1].faction is Red, which players[0] already holds"
    );
    assert_eq!(
        LevelError::OverrideOutOfRange { index: 0, tile: 214, freq: 2, count: 42 }.message(),
        "overrides[0].id is 214, which is out of range (freq 2 has 42 tiles, 0..42)"
    );
    assert_eq!(
        LevelError::WaterNotNeutral { index: 3, kind: TileKind::Town, owner: Some(Faction::Blue) }.message(),
        "overrides[3].terrain is Water, so its kind must be Empty and its owner None (found kind Town, owner Some(Blue))"
    );
    assert_eq!(
        LevelError::FactionWithoutCapital { index: 1, faction: Faction::Blue }.message(),
        "players[1] holds Blue, which has no capital: no entry in overrides gives Blue a tile of kind Capital"
    );
    assert_eq!(
        LevelError::PlanetSize { what: "tiles", freq: 2, expected: 42, found: 2 }.message(),
        "the planet source returned 2 tiles for freq 2, which has 42 tiles"
    );
    assert_eq!(
        LevelError::Parse("bad".to_owned()).message(),
        "failed to parse level: bad"
    );
}

#[test]
fn the_first_problem_in_file_order_is_the_one_reported() {
    // Both the frequency and the players are wrong; the frequency comes first.
    let mut level = valid();
    level.freq = 0;
    level.players.truncate(1);
    assert!(matches!(level.validate(), Err(LevelError::Frequency { found: 0, .. })));
}
