//! The ruleset: the bundled numbers, their fingerprint, and validation.

use claimlands::digest::fnv1a;
use claimlands::rules::{Ruleset, TileKind, UnitKind, Yield};
use claimlands::rules_check::RulesetError;

#[test]
fn default_rules_are_valid() {
    let r = Ruleset::bundled();
    assert!(r.validate().is_ok());
}

#[test]
fn ruleset_hash_is_stable_across_parses() {
    assert_eq!(Ruleset::bundled().hash(), Ruleset::bundled().hash());
}

#[test]
fn ruleset_hash_changes_when_a_number_changes() {
    let a = Ruleset::bundled();
    let mut b = Ruleset::bundled();
    b.economy.town.wheat_cost += 1;
    assert_ne!(a.hash(), b.hash());
}

#[test]
fn rejects_town_yield_in_the_wrong_place() {
    let mut r = Ruleset::bundled();
    r.economy.tile_yields.insert(TileKind::Town, Yield { wheat: 0, gold: 2 });
    assert_eq!(r.validate(), Err(RulesetError::TownYieldMisplaced));
}

#[test]
fn rejects_incomplete_starvation_priority() {
    let mut r = Ruleset::bundled();
    r.units.starvation_priority = vec![UnitKind::Pawn, UnitKind::Pawn, UnitKind::Knight];
    assert!(matches!(r.validate(), Err(RulesetError::StarvationPriority { .. })));
}

#[test]
fn rejects_out_of_range_loot_percent() {
    let mut r = Ruleset::bundled();
    r.territory.capital_loot_percent = 250;
    assert!(matches!(r.validate(), Err(RulesetError::OutOfRange { .. })));
}

#[test]
fn rejects_unsupported_version() {
    let mut r = Ruleset::bundled();
    r.version = 99;
    assert!(matches!(r.validate(), Err(RulesetError::Version { .. })));
}

#[test]
fn fnv1a_matches_reference_vectors() {
    // Published FNV-1a 64 test vectors.
    assert_eq!(fnv1a(b""), 0xcbf2_9ce4_8422_2325);
    assert_eq!(fnv1a(b"a"), 0xaf63_dc4c_8601_ec8c);
    assert_eq!(fnv1a(b"foobar"), 0x85944171f73967e8);
}

#[test]
fn a_missing_tile_yield_is_named() {
    let mut r = Ruleset::bundled();
    r.economy.tile_yields.remove(&TileKind::Field);
    assert_eq!(r.validate(), Err(RulesetError::MissingTileYield(TileKind::Field)));
}

#[test]
fn a_self_upgrade_is_refused() {
    let r = Ruleset::bundled();
    let mut profiles = r.units.profiles.clone();
    let mut pawn = profiles.get(&UnitKind::Pawn).unwrap().clone();
    pawn.upgrades_to = Some(UnitKind::Pawn);
    profiles.insert(UnitKind::Pawn, pawn);
    let mut r = r;
    r.units.profiles = profiles;
    assert_eq!(r.validate(), Err(RulesetError::SelfUpgrade(UnitKind::Pawn)));
}

#[test]
fn a_negative_starting_treasury_is_refused() {
    let mut r = Ruleset::bundled();
    r.economy.starting_gold = -1;
    assert!(matches!(r.validate(), Err(RulesetError::Negative { found: -1, .. })));
}

#[test]
fn relocating_onto_a_capital_is_refused() {
    let mut r = Ruleset::bundled();
    r.territory.capital_relocation_preference.push(TileKind::Capital);
    assert_eq!(r.validate(), Err(RulesetError::RelocateOntoCapital));
}
