//! Commands: the only way the world ever changes.
//!
//! Validation is separate from application: checking a command never
//! mutates, so a front end can ask "may I?" before committing, and applying
//! can rely on the command being legal.

use crate::ids::{Faction, TerritoryId, TileId, UnitId};
use crate::rules::{TileKind, UnitKind};
use vstd::prelude::*;

verus! {

/// A single player action.
#[derive(Debug, Clone, Copy, PartialEq, Eq, Structural)]
pub enum Command {
    /// Move a unit, capturing the destination if it is not already ours.
    MoveUnit { unit: UnitId, to: TileId },
    /// Promote a unit to the next kind up. Costs gold and the unit's action.
    UpgradeUnit { unit: UnitId },
    /// Buy a new pawn and place it on an owned tile.
    RecruitUnit { territory: TerritoryId, at: TileId },
    /// Build a town on an owned empty tile.
    BuildTown { territory: TerritoryId, at: TileId },
    /// Build a field on an owned empty tile.
    BuildField { territory: TerritoryId, at: TileId },
    /// Pass control to the next surviving player.
    EndTurn,
}

/// Why a command was refused; each names the rule that was broken.
#[derive(Debug, Clone, Copy, PartialEq, Eq, Structural)]
pub enum Rejection {
    GameOver,
    NoActivePlayer,
    NoSuchUnit(UnitId),
    NoSuchTerritory(TerritoryId),
    NoSuchTile(TileId),
    NotYourUnit { unit: UnitId, owner: Faction, active: Faction },
    NotYourTerritory { territory: TerritoryId, owner: Faction, active: Faction },
    AlreadyMoved(UnitId),
    NotLand(TileId),
    NotInTerritory { tile: TileId, territory: TerritoryId },
    TileOccupied(TileId),
    TileNotEmpty { tile: TileId, found: TileKind },
    Unreachable { from: TileId, to: TileId },
    CannotCaptureTile { mover: UnitKind, target: TileKind },
    CannotDefeatUnit { mover: UnitKind, target: UnitKind },
    BlockedByAlly(TileId),
    NoUpgradeAvailable(UnitKind),
    NotEnoughGold { territory: TerritoryId, needed: i32, available: i32 },
}

} // verus!
