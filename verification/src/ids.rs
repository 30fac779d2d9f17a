//! Typed identifiers and the four playable colours.

use vstd::prelude::*;

verus! {

/// Index of a tile on the planet. Dense: `0..topology.tile_count()`.
#[derive(Debug, Clone, Copy, PartialEq, Eq, Structural, PartialOrd, Ord, Hash)]
pub struct TileId(pub u32);

/// A connected block of tiles owned by one faction, with one capital.
/// Ids are never reused within a game.
#[derive(Debug, Clone, Copy, PartialEq, Eq, Structural, PartialOrd, Ord, Hash)]
pub struct TerritoryId(pub u32);

/// A unit. Ids are never reused within a game.
#[derive(Debug, Clone, Copy, PartialEq, Eq, Structural, PartialOrd, Ord, Hash)]
pub struct UnitId(pub u32);

impl TileId {
    pub fn index(self) -> (i: usize)
        ensures
            i == self.0,
    {
        self.0 as usize
    }
}

impl TerritoryId {
    pub fn index(self) -> (i: usize)
        ensures
            i == self.0,
    {
        self.0 as usize
    }
}

impl UnitId {
    pub fn index(self) -> (i: usize)
        ensures
            i == self.0,
    {
        self.0 as usize
    }
}

/// The four playable colours.
#[derive(Debug, Clone, Copy, PartialEq, Eq, Structural, PartialOrd, Ord, Hash)]
pub enum Faction {
    Red,
    Yellow,
    Green,
    Blue,
}

/// Stable small integer of a faction, used for seeding and hashing.
pub open spec fn faction_ordinal(f: Faction) -> nat {
    match f {
        Faction::Red => 0,
        Faction::Yellow => 1,
        Faction::Green => 2,
        Faction::Blue => 3,
    }
}

/// The colour's name as shown to a player.
pub open spec fn faction_name(f: Faction) -> Seq<char> {
    match f {
        Faction::Red => "Red"@,
        Faction::Yellow => "Yellow"@,
        Faction::Green => "Green"@,
        Faction::Blue => "Blue"@,
    }
}

impl Faction {
    pub const ALL: [Faction; 4] = [Faction::Red, Faction::Yellow, Faction::Green, Faction::Blue];

    /// Stable small integer, used for seeding and for the wire format.
    pub fn ordinal(self) -> (n: u32)
        ensures
            n == faction_ordinal(self),
    {
        match self {
            Faction::Red => 0,
            Faction::Yellow => 1,
            Faction::Green => 2,
            Faction::Blue => 3,
        }
    }

    /// The faction whose ordinal is `n`, for `n < 4`.
    pub fn from_ordinal(n: u32) -> (f: Faction)
        requires
            n < 4,
        ensures
            faction_ordinal(f) == n,
    {
        if n == 0 {
            Faction::Red
        } else if n == 1 {
            Faction::Yellow
        } else if n == 2 {
            Faction::Green
        } else {
            Faction::Blue
        }
    }

    /// The colour's name as shown to a player.
    pub fn name(self) -> (s: &'static str)
        ensures
            s@ == faction_name(self),
    {
        match self {
            Faction::Red => "Red",
            Faction::Yellow => "Yellow",
            Faction::Green => "Green",
            Faction::Blue => "Blue",
        }
    }
}

} // verus!
