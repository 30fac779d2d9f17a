//! Authored levels: a planet frequency, the seed its terrain grows from, who
//! plays, and the sparse set of tiles an author placed by hand.
//!
//! Everything here is decided from the level alone except the planet itself,
//! which arrives through [`PlanetSource`].

use crate::arith::{decimal, join, join_num};
use crate::ids::{faction_name, Faction};
use crate::rules::TileKind;
use crate::event::EventSink;
use crate::rules::Ruleset;
use crate::state::{Controller, Player, Terrain, Territory, Tile, World};
use crate::territory::retopologize;
use crate::ids::TileId;
use crate::topology::Topology;
use std::sync::Arc;
use vstd::prelude::*;
use vstd::string::*;

verus! {

/// Lowest planet frequency a level may name: twelve tiles.
pub const MIN_FREQUENCY: u32 = 1;

/// Highest planet frequency a level may name: 1442 tiles.
pub const MAX_FREQUENCY: u32 = 12;

/// Fewest players a match can be played with.
pub const MIN_PLAYERS: usize = 2;

/// Most players a match can be played with: one per faction.
pub const MAX_PLAYERS: usize = 4;

/// The seed that means "no terrain at all", for authoring.
pub const OCEAN_SEED: u64 = 0;

/// Tiles on a frequency-`freq` planet: `10·freq² + 2`.
pub open spec fn tiles_at(freq: int) -> int {
    10 * freq * freq + 2
}

/// Tiles on a frequency-`freq` planet: `10·freq² + 2`.
pub fn tile_count(freq: u32) -> (n: u32)
    requires
        tiles_at(freq as int) <= u32::MAX,
    ensures
        n == tiles_at(freq as int),
{
    proof {
        assert(10 * freq <= 10 * freq * freq + 2) by (nonlinear_arith)
            requires freq >= 0;
    }
    10 * freq * freq + 2
}

/// One authored level.
#[derive(Debug, Clone, PartialEq, Eq)]
pub struct Level {
    /// Stable name, and the key a save file records.
    pub id: String,
    /// Planet frequency; override ids index a planet of exactly this size.
    pub freq: u32,
    /// Root of the terrain and of every random stream drawn during play.
    /// [`OCEAN_SEED`] means an empty ocean world.
    pub seed: u64,
    /// Turn order, first to last.
    pub players: Vec<LevelPlayer>,
    /// The tiles the author changed, in no required order.
    pub overrides: Vec<TileOverride>,
}

/// A seat at the table.
#[derive(Debug, Clone, PartialEq, Eq)]
pub struct LevelPlayer {
    pub faction: Faction,
    pub kind: PlayerKind,
}

/// Who plays a seat.
#[derive(Debug, Clone, PartialEq, Eq)]
pub enum PlayerKind {
    Human,
    /// Names an AI profile.
    Ai { profile: String },
}

/// One tile the author set by hand, overriding whatever the seed grew there.
#[derive(Debug, Clone, Copy, PartialEq, Eq, Structural)]
pub struct TileOverride {
    /// Index into the planet's tiles, `0..tile_count(freq)`.
    pub id: u32,
    pub terrain: Terrain,
    /// Meaningful only on land; water must carry `Empty`.
    pub kind: TileKind,
    pub owner: Option<Faction>,
}

/// The first seat before `upto` holding `faction`, if any.
#[verifier::opaque]
pub open spec fn first_seat_before(players: Seq<LevelPlayer>, faction: Faction, upto: int) -> Option<int> {
    if exists|i: int| 0 <= i < upto && (#[trigger] players[i]).faction == faction {
        Some(
            choose|i: int|
                0 <= i < upto && (#[trigger] players[i]).faction == faction && forall|j: int|
                    0 <= j < i ==> (#[trigger] players[j]).faction != faction,
        )
    } else {
        None
    }
}

/// No seat before `upto` holds `faction`.
pub proof fn lemma_no_seat(players: Seq<LevelPlayer>, faction: Faction, upto: int)
    requires
        forall|k: int| 0 <= k < upto ==> (#[trigger] players[k]).faction != faction,
    ensures
        first_seat_before(players, faction, upto) is None,
{
    reveal(first_seat_before);
}

/// The first seat holding `faction`, if any.
pub open spec fn seat_of(players: Seq<LevelPlayer>, faction: Faction) -> Option<int> {
    first_seat_before(players, faction, players.len() as int)
}

/// Seat `j` is the first before `upto` to hold `faction`.
pub proof fn lemma_first_seat(players: Seq<LevelPlayer>, faction: Faction, upto: int, j: int)
    requires
        0 <= j < upto <= players.len(),
        players[j].faction == faction,
        forall|k: int| 0 <= k < j ==> (#[trigger] players[k]).faction != faction,
    ensures
        first_seat_before(players, faction, upto) == Some(j),
{
    reveal(first_seat_before);
    assert(0 <= j < upto && players[j].faction == faction);
    let c = first_seat_before(players, faction, upto)->0;
    assert(0 <= c < upto && players[c].faction == faction);
    if c < j {
        assert(players[c].faction != faction);
    }
    if j < c {
        assert(players[j].faction != faction);
    }
}

/// Whether some seat holds `faction`.
pub open spec fn seated(players: Seq<LevelPlayer>, faction: Faction) -> bool {
    exists|i: int| 0 <= i < players.len() && (#[trigger] players[i]).faction == faction
}

impl Level {
    /// Tiles on the planet this level is played on.
    pub fn tile_count(&self) -> (n: u32)
        requires
            tiles_at(self.freq as int) <= u32::MAX,
        ensures
            n == tiles_at(self.freq as int),
    {
        tile_count(self.freq)
    }

    /// Whether this is an authoring level with no procedural terrain.
    pub fn is_ocean(&self) -> (b: bool)
        ensures
            b == (self.seed == OCEAN_SEED),
    {
        self.seed == OCEAN_SEED
    }

    /// The player holding a faction, if any: the first such seat.
    pub fn player(&self, faction: Faction) -> (p: Option<&LevelPlayer>)
        ensures
            match seat_of(self.players@, faction) {
                Some(i) => p == Some(&self.players@[i]),
                None => p is None,
            },
    {
        let mut i: usize = 0;
        while i < self.players.len()
            invariant
                i <= self.players@.len(),
                forall|j: int| 0 <= j < i ==> (#[trigger] self.players@[j]).faction != faction,
            decreases self.players@.len() - i,
        {
            if self.players[i].faction == faction {
                proof {
                    lemma_first_seat(self.players@, faction, self.players@.len() as int, i as int);
                }
                return Some(&self.players[i]);
            }
            i = i + 1;
        }
        proof {
            lemma_no_seat(self.players@, faction, self.players@.len() as int);
        }
        None
    }
}

// ---------------------------------------------------------------------------
// Blank text
// ---------------------------------------------------------------------------

/// Unicode `White_Space`: what `char::is_whitespace` accepts.
pub open spec fn is_white(c: char) -> bool {
    let n = c as u32;
    ||| 9 <= n <= 13
    ||| n == 0x20
    ||| n == 0x85
    ||| n == 0xA0
    ||| n == 0x1680
    ||| 0x2000 <= n <= 0x200A
    ||| n == 0x2028
    ||| n == 0x2029
    ||| n == 0x202F
    ||| n == 0x205F
    ||| n == 0x3000
}

/// Text that is empty once surrounding white space is trimmed.
pub open spec fn blank(s: Seq<char>) -> bool {
    forall|i: int| 0 <= i < s.len() ==> is_white(#[trigger] s[i])
}

pub(crate) fn white(c: char) -> (b: bool)
    ensures
        b == is_white(c),
{
    let n = c as u32;
    (9 <= n && n <= 13) || n == 0x20 || n == 0x85 || n == 0xA0 || n == 0x1680 || (0x2000 <= n
        && n <= 0x200A) || n == 0x2028 || n == 0x2029 || n == 0x202F || n == 0x205F || n == 0x3000
}

/// Whether `s` holds nothing but white space.
pub fn is_blank(s: &str) -> (b: bool)
    ensures
        b == blank(s@),
{
    let n = s.unicode_len();
    let mut i: usize = 0;
    while i < n
        invariant
            n == s@.len(),
            i <= n,
            forall|j: int| 0 <= j < i ==> is_white(#[trigger] s@[j]),
        decreases n - i,
    {
        if !white(s.get_char(i)) {
            return false;
        }
        i = i + 1;
    }
    true
}

// ---------------------------------------------------------------------------
// Validation
// ---------------------------------------------------------------------------

/// Why a level was refused.
#[derive(Debug, Clone, PartialEq, Eq)]
pub enum LevelError {
    Parse(String),
    Serialize(String),
    MissingId,
    Frequency { min: u32, max: u32, found: u32 },
    PlayerCount { min: usize, max: usize, found: usize },
    DuplicateFaction { index: usize, first: usize, faction: Faction },
    EmptyAiProfile { index: usize },
    OverrideOutOfRange { index: usize, tile: u32, freq: u32, count: u32 },
    DuplicateOverride { index: usize, first: usize, tile: u32 },
    UnknownOwner { index: usize, faction: Faction },
    WaterNotNeutral { index: usize, kind: TileKind, owner: Option<Faction> },
    UnownedCapital { index: usize },
    FactionWithoutCapital { index: usize, faction: Faction },
    Planet { freq: u32, message: String },
    PlanetSize { what: &'static str, freq: u32, expected: u32, found: usize },
}

/// The problem with seat `i`, given that no earlier seat had one.
pub open spec fn seat_fault(players: Seq<LevelPlayer>, i: int) -> Option<LevelError> {
    let p = players[i];
    match first_seat_before(players, p.faction, i) {
        Some(j) => Some(
            LevelError::DuplicateFaction { index: i as usize, first: j as usize, faction: p.faction },
        ),
        None => if p.kind is Ai && blank(p.kind->profile@) {
            Some(LevelError::EmptyAiProfile { index: i as usize })
        } else {
            None
        },
    }
}

/// The first problem among the first `n` seats.
pub open spec fn seats_fault(players: Seq<LevelPlayer>, n: int) -> Option<LevelError>
    decreases n,
{
    if n <= 0 {
        None
    } else {
        match seats_fault(players, n - 1) {
            Some(e) => Some(e),
            None => seat_fault(players, n - 1),
        }
    }
}

/// The first override before `upto` naming tile `id`, if any.
#[verifier::opaque]
pub open spec fn first_override_before(overrides: Seq<TileOverride>, id: u32, upto: int) -> Option<int> {
    if exists|i: int| 0 <= i < upto && (#[trigger] overrides[i]).id == id {
        Some(
            choose|i: int|
                0 <= i < upto && (#[trigger] overrides[i]).id == id && forall|j: int|
                    0 <= j < i ==> (#[trigger] overrides[j]).id != id,
        )
    } else {
        None
    }
}

/// Override `j` is the first before `upto` to name tile `id`.
pub proof fn lemma_first_override(overrides: Seq<TileOverride>, id: u32, upto: int, j: int)
    requires
        0 <= j < upto <= overrides.len(),
        overrides[j].id == id,
        forall|k: int| 0 <= k < j ==> (#[trigger] overrides[k]).id != id,
    ensures
        first_override_before(overrides, id, upto) == Some(j),
{
    reveal(first_override_before);
    assert(0 <= j < upto && overrides[j].id == id);
    let c = first_override_before(overrides, id, upto)->0;
    assert(0 <= c < upto && overrides[c].id == id);
    if c < j {
        assert(overrides[c].id != id);
    }
    if j < c {
        assert(overrides[j].id != id);
    }
}

/// No override before `upto` names tile `id`.
pub proof fn lemma_no_override(overrides: Seq<TileOverride>, id: u32, upto: int)
    requires
        forall|k: int| 0 <= k < upto ==> (#[trigger] overrides[k]).id != id,
    ensures
        first_override_before(overrides, id, upto) is None,
{
    reveal(first_override_before);
}

/// The problem with override `i`, given that no earlier override had one.
pub open spec fn override_fault(level: Level, i: int) -> Option<LevelError> {
    let t = level.overrides@[i];
    let count = tiles_at(level.freq as int);
    if t.id >= count {
        Some(
            LevelError::OverrideOutOfRange {
                index: i as usize,
                tile: t.id,
                freq: level.freq,
                count: count as u32,
            },
        )
    } else if first_override_before(level.overrides@, t.id, i) is Some {
        Some(
            LevelError::DuplicateOverride {
                index: i as usize,
                first: first_override_before(level.overrides@, t.id, i)->0 as usize,
                tile: t.id,
            },
        )
    } else if t.owner is Some && !seated(level.players@, t.owner->0) {
        Some(LevelError::UnknownOwner { index: i as usize, faction: t.owner->0 })
    } else if t.terrain == Terrain::Water && (t.kind != TileKind::Empty || t.owner is Some) {
        Some(LevelError::WaterNotNeutral { index: i as usize, kind: t.kind, owner: t.owner })
    } else if t.kind == TileKind::Capital && t.owner is None {
        Some(LevelError::UnownedCapital { index: i as usize })
    } else {
        None
    }
}

/// The first problem among the first `n` overrides.
pub open spec fn overrides_fault(level: Level, n: int) -> Option<LevelError>
    decreases n,
{
    if n <= 0 {
        None
    } else {
        match overrides_fault(level, n - 1) {
            Some(e) => Some(e),
            None => override_fault(level, n - 1),
        }
    }
}

/// Some override places a capital for `faction`.
pub open spec fn has_capital(overrides: Seq<TileOverride>, faction: Faction) -> bool {
    exists|k: int|
        0 <= k < overrides.len() && (#[trigger] overrides[k]).kind == TileKind::Capital
            && overrides[k].owner == Some(faction)
}

/// The first of the first `n` seats whose faction has no capital.
pub open spec fn capitals_fault(level: Level, n: int) -> Option<LevelError>
    decreases n,
{
    if n <= 0 {
        None
    } else {
        match capitals_fault(level, n - 1) {
            Some(e) => Some(e),
            None => {
                let f = level.players@[n - 1].faction;
                if has_capital(level.overrides@, f) {
                    None
                } else {
                    Some(LevelError::FactionWithoutCapital { index: (n - 1) as usize, faction: f })
                }
            },
        }
    }
}

/// The first problem a level has, in file order: id, frequency, players,
/// overrides, then capitals.
pub open spec fn level_fault(level: Level) -> Option<LevelError> {
    let np = level.players@.len();
    if blank(level.id@) {
        Some(LevelError::MissingId)
    } else if level.freq < MIN_FREQUENCY || level.freq > MAX_FREQUENCY {
        Some(LevelError::Frequency { min: MIN_FREQUENCY, max: MAX_FREQUENCY, found: level.freq })
    } else if np < MIN_PLAYERS || np > MAX_PLAYERS {
        Some(LevelError::PlayerCount { min: MIN_PLAYERS, max: MAX_PLAYERS, found: np as usize })
    } else if seats_fault(level.players@, np as int) is Some {
        seats_fault(level.players@, np as int)
    } else if overrides_fault(level, level.overrides@.len() as int) is Some {
        overrides_fault(level, level.overrides@.len() as int)
    } else {
        capitals_fault(level, np as int)
    }
}

/// A level every later stage may rely on.
pub open spec fn level_ok(level: Level) -> bool {
    level_fault(level) is None
}

impl Level {
    /// Check everything the rest of the game is allowed to assume, reporting
    /// the first problem in file order.
    pub fn validate(&self) -> (res: Result<(), LevelError>)
        ensures
            res == match level_fault(*self) {
                Some(e) => Err(e),
                None => Ok(()),
            },
    {
        if is_blank(self.id.as_str()) {
            return Err(LevelError::MissingId);
        }
        if self.freq < MIN_FREQUENCY || self.freq > MAX_FREQUENCY {
            return Err(LevelError::Frequency { min: MIN_FREQUENCY, max: MAX_FREQUENCY, found: self.freq });
        }
        let np = self.players.len();
        if np < MIN_PLAYERS || np > MAX_PLAYERS {
            return Err(LevelError::PlayerCount { min: MIN_PLAYERS, max: MAX_PLAYERS, found: np });
        }
        match self.check_seats() {
            Err(e) => return Err(e),
            Ok(()) => {},
        }
        match self.check_overrides() {
            Err(e) => return Err(e),
            Ok(()) => {},
        }
        self.check_capitals()
    }

    fn check_seats(&self) -> (res: Result<(), LevelError>)
        ensures
            res == match seats_fault(self.players@, self.players@.len() as int) {
                Some(e) => Err(e),
                None => Ok(()),
            },
    {
        let n = self.players.len();
        let mut i: usize = 0;
        while i < n
            invariant
                n == self.players@.len(),
                i <= n,
                seats_fault(self.players@, i as int) is None,
            decreases n - i,
        {
            let f = self.players[i].faction;
            let mut j: usize = 0;
            while j < i
                invariant
                    n == self.players@.len(),
                    j <= i < n,
                    f == self.players@[i as int].faction,
                    seats_fault(self.players@, i as int) is None,
                    forall|k: int| 0 <= k < j ==> (#[trigger] self.players@[k]).faction != f,
                decreases i - j,
            {
                if self.players[j].faction == f {
                    proof {
                        lemma_first_seat(self.players@, f, i as int, j as int);
                        assert(seats_fault(self.players@, i as int + 1) == seat_fault(self.players@, i as int));
                        lemma_seats_fault_stays(self.players@, i as int + 1, n as int);
                    }
                    return Err(LevelError::DuplicateFaction { index: i, first: j, faction: f });
                }
                j = j + 1;
            }
            proof {
                lemma_no_seat(self.players@, f, i as int);
            }
            match &self.players[i].kind {
                PlayerKind::Ai { profile } => {
                    if is_blank(profile.as_str()) {
                        proof {
                            assert(seats_fault(self.players@, i as int + 1) == seat_fault(self.players@, i as int));
                            lemma_seats_fault_stays(self.players@, i as int + 1, n as int);
                        }
                        return Err(LevelError::EmptyAiProfile { index: i });
                    }
                },
                PlayerKind::Human => {},
            }
            i = i + 1;
        }
        Ok(())
    }

    fn check_overrides(&self) -> (res: Result<(), LevelError>)
        requires
            MIN_FREQUENCY <= self.freq <= MAX_FREQUENCY,
        ensures
            res == match overrides_fault(*self, self.overrides@.len() as int) {
                Some(e) => Err(e),
                None => Ok(()),
            },
    {
        let n = self.overrides.len();
        proof {
            let f = self.freq as int;
            assert(tiles_at(f) <= 1442) by (nonlinear_arith)
                requires 1 <= f <= 12;
        }
        let count = tile_count(self.freq);
        let mut i: usize = 0;
        while i < n
            invariant
                n == self.overrides@.len(),
                i <= n,
                count == tiles_at(self.freq as int),
                overrides_fault(*self, i as int) is None,
            decreases n - i,
        {
            let t = self.overrides[i];
            if t.id >= count {
                proof {
                    assert(overrides_fault(*self, i as int + 1) == override_fault(*self, i as int));
                    lemma_overrides_fault_stays(*self, i as int + 1, n as int);
                }
                return Err(LevelError::OverrideOutOfRange { index: i, tile: t.id, freq: self.freq, count });
            }
            let mut j: usize = 0;
            while j < i
                invariant
                    n == self.overrides@.len(),
                    j <= i < n,
                    t == self.overrides@[i as int],
                    count == tiles_at(self.freq as int),
                    t.id < count,
                    overrides_fault(*self, i as int) is None,
                    forall|k: int| 0 <= k < j ==> (#[trigger] self.overrides@[k]).id != t.id,
                decreases i - j,
            {
                if self.overrides[j].id == t.id {
                    proof {
                        lemma_first_override(self.overrides@, t.id, i as int, j as int);
                        assert(overrides_fault(*self, i as int + 1) == override_fault(*self, i as int));
                        lemma_overrides_fault_stays(*self, i as int + 1, n as int);
                    }
                    return Err(LevelError::DuplicateOverride { index: i, first: j, tile: t.id });
                }
                j = j + 1;
            }
            proof {
                lemma_no_override(self.overrides@, t.id, i as int);
            }
            match t.owner {
                Some(f) => {
                    if !self.is_seated(f) {
                        proof {
                            assert(overrides_fault(*self, i as int + 1) == override_fault(*self, i as int));
                            lemma_overrides_fault_stays(*self, i as int + 1, n as int);
                        }
                        return Err(LevelError::UnknownOwner { index: i, faction: f });
                    }
                },
                None => {},
            }
            if t.terrain == Terrain::Water && (t.kind != TileKind::Empty || t.owner.is_some()) {
                proof {
                    assert(overrides_fault(*self, i as int + 1) == override_fault(*self, i as int));
                    lemma_overrides_fault_stays(*self, i as int + 1, n as int);
                }
                return Err(LevelError::WaterNotNeutral { index: i, kind: t.kind, owner: t.owner });
            }
            if t.kind == TileKind::Capital && t.owner.is_none() {
                proof {
                    assert(overrides_fault(*self, i as int + 1) == override_fault(*self, i as int));
                    lemma_overrides_fault_stays(*self, i as int + 1, n as int);
                }
                return Err(LevelError::UnownedCapital { index: i });
            }
            i = i + 1;
        }
        Ok(())
    }

    /// Whether some seat holds `faction`.
    fn is_seated(&self, faction: Faction) -> (b: bool)
        ensures
            b == seated(self.players@, faction),
    {
        let mut i: usize = 0;
        while i < self.players.len()
            invariant
                i <= self.players@.len(),
                forall|j: int| 0 <= j < i ==> (#[trigger] self.players@[j]).faction != faction,
            decreases self.players@.len() - i,
        {
            if self.players[i].faction == faction {
                return true;
            }
            i = i + 1;
        }
        false
    }

    fn check_capitals(&self) -> (res: Result<(), LevelError>)
        ensures
            res == match capitals_fault(*self, self.players@.len() as int) {
                Some(e) => Err(e),
                None => Ok(()),
            },
    {
        let n = self.players.len();
        let mut i: usize = 0;
        while i < n
            invariant
                n == self.players@.len(),
                i <= n,
                capitals_fault(*self, i as int) is None,
            decreases n - i,
        {
            let f = self.players[i].faction;
            let mut found = false;
            let mut k: usize = 0;
            while k < self.overrides.len()
                invariant
                    k <= self.overrides@.len(),
                    n == self.players@.len(),
                    i < n,
                    f == self.players@[i as int].faction,
                    capitals_fault(*self, i as int) is None,
                    found ==> has_capital(self.overrides@, f),
                    !found ==> forall|q: int| 0 <= q < k ==> !((#[trigger] self.overrides@[q]).kind == TileKind::Capital && self.overrides@[q].owner == Some(f)),
                decreases self.overrides@.len() - k,
            {
                if self.overrides[k].kind == TileKind::Capital && self.overrides[k].owner == Some(f) {
                    found = true;
                }
                k = k + 1;
            }
            if !found {
                proof {
                    lemma_capitals_fault_stays(*self, i as int + 1, n as int);
                }
                return Err(LevelError::FactionWithoutCapital { index: i, faction: f });
            }
            i = i + 1;
        }
        Ok(())
    }
}

// ---------------------------------------------------------------------------
// Messages
// ---------------------------------------------------------------------------

/// A tile kind as `{:?}` writes it.
pub open spec fn kind_text(k: TileKind) -> Seq<char> {
    match k {
        TileKind::Empty => "Empty"@,
        TileKind::Capital => "Capital"@,
        TileKind::Town => "Town"@,
        TileKind::Field => "Field"@,
        TileKind::Forest => "Forest"@,
    }
}

/// An optional owner as `{:?}` writes it.
pub open spec fn owner_text(o: Option<Faction>) -> Seq<char> {
    match o {
        None => "None"@,
        Some(f) => "Some("@ + faction_name(f) + ")"@,
    }
}

pub open spec fn dec(n: int) -> Seq<char> {
    decimal(n as nat)
}

/// What a refusal says, naming the field at fault.
pub open spec fn error_text(e: LevelError) -> Seq<char> {
    match e {
        LevelError::Parse(m) => "failed to parse level: "@ + m@,
        LevelError::Serialize(m) => "failed to write level: "@ + m@,
        LevelError::MissingId => "id must not be empty"@,
        LevelError::Frequency { min, max, found } => "freq must be within "@ + dec(min as int) + "..="@
            + dec(max as int) + ", found "@ + dec(found as int),
        LevelError::PlayerCount { min, max, found } => "players must hold "@ + dec(min as int)
            + " to "@ + dec(max as int) + " entries, found "@ + dec(found as int),
        LevelError::DuplicateFaction { index, first, faction } => "players["@ + dec(index as int)
            + "].faction is "@ + faction_name(faction) + ", which players["@ + dec(first as int)
            + "] already holds"@,
        LevelError::EmptyAiProfile { index } => "players["@ + dec(index as int)
            + "].kind is Ai with an empty profile name"@,
        LevelError::OverrideOutOfRange { index, tile, freq, count } => "overrides["@ + dec(
            index as int,
        ) + "].id is "@ + dec(tile as int) + ", which is out of range (freq "@ + dec(freq as int)
            + " has "@ + dec(count as int) + " tiles, 0.."@ + dec(count as int) + ")"@,
        LevelError::DuplicateOverride { index, first, tile } => "overrides["@ + dec(index as int)
            + "].id is "@ + dec(tile as int) + ", which overrides["@ + dec(first as int)
            + "] already set"@,
        LevelError::UnknownOwner { index, faction } => "overrides["@ + dec(index as int)
            + "].owner is "@ + faction_name(faction) + ", which is not one of the players"@,
        LevelError::WaterNotNeutral { index, kind, owner } => "overrides["@ + dec(index as int)
            + "].terrain is Water, so its kind must be Empty and its owner None (found kind "@
            + kind_text(kind) + ", owner "@ + owner_text(owner) + ")"@,
        LevelError::UnownedCapital { index } => "overrides["@ + dec(index as int)
            + "].kind is Capital but its owner is None; a capital is somebody's"@,
        LevelError::FactionWithoutCapital { index, faction } => "players["@ + dec(index as int)
            + "] holds "@ + faction_name(faction)
            + ", which has no capital: no entry in overrides gives "@ + faction_name(faction)
            + " a tile of kind Capital"@,
        LevelError::Planet { freq, message } => "the planet source could not build the freq "@
            + dec(freq as int) + " planet: "@ + message@,
        LevelError::PlanetSize { what, freq, expected, found } => "the planet source returned "@
            + dec(found as int) + " "@ + what@ + " for freq "@ + dec(freq as int) + ", which has "@
            + dec(expected as int) + " tiles"@,
    }
}

fn kind_str(k: TileKind) -> (s: &'static str)
    ensures
        s@ == kind_text(k),
{
    match k {
        TileKind::Empty => "Empty",
        TileKind::Capital => "Capital",
        TileKind::Town => "Town",
        TileKind::Field => "Field",
        TileKind::Forest => "Forest",
    }
}

fn owner_string(o: Option<Faction>) -> (s: String)
    ensures
        s@ == owner_text(o),
{
    match o {
        None => "None".to_owned(),
        Some(f) => join(join("Some(".to_owned(), f.name()), ")"),
    }
}

fn text(s: &str) -> (r: String)
    ensures
        r@ == s@,
{
    s.to_owned()
}

impl LevelError {
    /// What the refusal says, naming the field at fault.
    pub fn message(&self) -> (s: String)
        ensures
            s@ == error_text(*self),
    {
        match self {
            LevelError::Parse(m) => join(text("failed to parse level: "), m.as_str()),
            LevelError::Serialize(m) => join(text("failed to write level: "), m.as_str()),
            LevelError::MissingId => text("id must not be empty"),
            LevelError::Frequency { min, max, found } => {
                let s = join_num(text("freq must be within "), *min as u64);
                let s = join_num(join(s, "..="), *max as u64);
                join_num(join(s, ", found "), *found as u64)
            },
            LevelError::PlayerCount { min, max, found } => {
                let s = join_num(text("players must hold "), *min as u64);
                let s = join_num(join(s, " to "), *max as u64);
                join_num(join(s, " entries, found "), *found as u64)
            },
            LevelError::DuplicateFaction { index, first, faction } => {
                let s = join_num(text("players["), *index as u64);
                let s = join(join(s, "].faction is "), faction.name());
                let s = join_num(join(s, ", which players["), *first as u64);
                join(s, "] already holds")
            },
            LevelError::EmptyAiProfile { index } => {
                let s = join_num(text("players["), *index as u64);
                join(s, "].kind is Ai with an empty profile name")
            },
            LevelError::OverrideOutOfRange { index, tile, freq, count } => {
                let s = join_num(text("overrides["), *index as u64);
                let s = join_num(join(s, "].id is "), *tile as u64);
                let s = join_num(join(s, ", which is out of range (freq "), *freq as u64);
                let s = join_num(join(s, " has "), *count as u64);
                let s = join_num(join(s, " tiles, 0.."), *count as u64);
                join(s, ")")
            },
            LevelError::DuplicateOverride { index, first, tile } => {
                let s = join_num(text("overrides["), *index as u64);
                let s = join_num(join(s, "].id is "), *tile as u64);
                let s = join_num(join(s, ", which overrides["), *first as u64);
                join(s, "] already set")
            },
            LevelError::UnknownOwner { index, faction } => {
                let s = join_num(text("overrides["), *index as u64);
                let s = join(join(s, "].owner is "), faction.name());
                join(s, ", which is not one of the players")
            },
            LevelError::WaterNotNeutral { index, kind, owner } => {
                let s = join_num(text("overrides["), *index as u64);
                let s = join(
                    join(s, "].terrain is Water, so its kind must be Empty and its owner None (found kind "),
                    kind_str(*kind),
                );
                let o = owner_string(*owner);
                let s = join(join(s, ", owner "), o.as_str());
                join(s, ")")
            },
            LevelError::UnownedCapital { index } => {
                let s = join_num(text("overrides["), *index as u64);
                join(s, "].kind is Capital but its owner is None; a capital is somebody's")
            },
            LevelError::FactionWithoutCapital { index, faction } => {
                let s = join_num(text("players["), *index as u64);
                let s = join(join(s, "] holds "), faction.name());
                let s = join(join(s, ", which has no capital: no entry in overrides gives "), faction.name());
                join(s, " a tile of kind Capital")
            },
            LevelError::Planet { freq, message } => {
                let s = join_num(text("the planet source could not build the freq "), *freq as u64);
                join(join(s, " planet: "), message.as_str())
            },
            LevelError::PlanetSize { what, freq, expected, found } => {
                let s = join_num(text("the planet source returned "), *found as u64);
                let s = join(join(s, " "), *what);
                let s = join_num(join(s, " for freq "), *freq as u64);
                let s = join_num(join(s, ", which has "), *expected as u64);
                join(s, " tiles")
            },
        }
    }
}

/// Once a prefix of seats has a fault, every longer prefix has the same one.
proof fn lemma_seats_fault_stays(players: Seq<LevelPlayer>, m: int, n: int)
    requires
        0 <= m <= n,
        seats_fault(players, m) is Some,
    ensures
        seats_fault(players, n) == seats_fault(players, m),
    decreases n - m,
{
    if m < n {
        lemma_seats_fault_stays(players, m, n - 1);
    }
}

proof fn lemma_overrides_fault_stays(level: Level, m: int, n: int)
    requires
        0 <= m <= n,
        overrides_fault(level, m) is Some,
    ensures
        overrides_fault(level, n) == overrides_fault(level, m),
    decreases n - m,
{
    if m < n {
        lemma_overrides_fault_stays(level, m, n - 1);
    }
}

proof fn lemma_capitals_fault_stays(level: Level, m: int, n: int)
    requires
        0 <= m <= n,
        capitals_fault(level, m) is Some,
    ensures
        capitals_fault(level, n) == capitals_fault(level, m),
    decreases n - m,
{
    if m < n {
        lemma_capitals_fault_stays(level, m, n - 1);
    }
}

// ---------------------------------------------------------------------------
// Building a world
// ---------------------------------------------------------------------------

/// Where the planet named by a level's frequency and seed comes from.
///
/// One implementation wraps the planet generator; tests implement it with a
/// topology small enough to draw on paper.
pub trait PlanetSource {
    /// Tile adjacency of a frequency-`freq` planet, which must have exactly
    /// `10·freq²+2` tiles. The shape does not depend on the seed.
    fn topology(&self, freq: u32) -> Result<Topology, String>;

    /// Which of those tiles are land, in tile order. Never asked for the
    /// authoring seed: its ocean is made here.
    fn terrain(&self, freq: u32, seed: u64) -> Result<Vec<Terrain>, String>
        requires
            seed != OCEAN_SEED,
    ;
}

/// What a valid level guarantees of its overrides: in range, one per tile,
/// and water that nobody owns or builds on.
pub open spec fn overrides_sound(level: Level) -> bool {
    let ov = level.overrides@;
    &&& forall|k: int| 0 <= k < ov.len() ==> (#[trigger] ov[k]).id < tiles_at(level.freq as int)
    &&& forall|j: int, k: int| 0 <= j < k < ov.len() ==> (#[trigger] ov[j]).id != (#[trigger] ov[k]).id
    &&& forall|k: int| 0 <= k < ov.len() && (#[trigger] ov[k]).terrain == Terrain::Water
        ==> ov[k].kind == TileKind::Empty && ov[k].owner is None
}

proof fn lemma_overrides_prefix(level: Level, m: int, n: int)
    requires
        0 <= m <= n,
        overrides_fault(level, n) is None,
    ensures
        overrides_fault(level, m) is None,
    decreases n - m,
{
    if m < n {
        lemma_overrides_prefix(level, m + 1, n);
    }
}

/// A valid level's overrides are sound.
pub proof fn lemma_valid_overrides(level: Level)
    requires
        level_ok(level),
    ensures
        overrides_sound(level),
        MIN_FREQUENCY <= level.freq <= MAX_FREQUENCY,
        MIN_PLAYERS <= level.players@.len() <= MAX_PLAYERS,
{
    let ov = level.overrides@;
    let n = ov.len() as int;
    assert forall|k: int| 0 <= k < n implies override_fault(level, k) is None by {
        lemma_overrides_prefix(level, k + 1, n);
    }
    assert forall|j: int, k: int| 0 <= j < k < n implies (#[trigger] ov[j]).id != (#[trigger] ov[k]).id by {
        assert(override_fault(level, k) is None);
        if ov[j].id == ov[k].id {
            reveal(first_override_before);
            assert(0 <= j < k && ov[j].id == ov[k].id);
        }
    }
    assert forall|k: int| 0 <= k < n implies (#[trigger] ov[k]).id < tiles_at(level.freq as int) by {
        assert(override_fault(level, k) is None);
    }
    assert forall|k: int| 0 <= k < n && (#[trigger] ov[k]).terrain == Terrain::Water
        implies ov[k].kind == TileKind::Empty && ov[k].owner is None by {
        assert(override_fault(level, k) is None);
    }
}

/// The tile an override puts in place.
pub open spec fn override_tile(t: TileOverride) -> Tile {
    Tile {
        terrain: t.terrain,
        kind: if t.terrain == Terrain::Water { TileKind::Empty } else { t.kind },
        owner: t.owner,
        territory: None,
        unit: None,
    }
}

/// Tile `i` as the seed grew it: land where the grown terrain says so, sea
/// elsewhere, and sea everywhere on an ocean world.
pub open spec fn grown_tile(terrain: Option<Seq<Terrain>>, i: int) -> Tile {
    match terrain {
        Some(t) => if t[i] == Terrain::Land {
            Tile { terrain: Terrain::Land, kind: TileKind::Empty, owner: None, territory: None, unit: None }
        } else {
            Tile { terrain: Terrain::Water, kind: TileKind::Empty, owner: None, territory: None, unit: None }
        },
        None => Tile { terrain: Terrain::Water, kind: TileKind::Empty, owner: None, territory: None, unit: None },
    }
}

/// Some override among the first `k` names tile `i`.
#[verifier::opaque]
pub open spec fn named(overrides: Seq<TileOverride>, k: int, i: int) -> bool {
    exists|j: int| 0 <= j < k && (#[trigger] overrides[j]).id == i
}

proof fn lemma_named_step(overrides: Seq<TileOverride>, k: int, i: int)
    requires
        0 <= k < overrides.len(),
    ensures
        named(overrides, k + 1, i) == (named(overrides, k, i) || overrides[k].id == i),
{
    reveal(named);
    if named(overrides, k + 1, i) && overrides[k].id != i {
        let j = choose|j: int| 0 <= j < k + 1 && (#[trigger] overrides[j]).id == i;
        assert(0 <= j < k && overrides[j].id == i);
    }
    if named(overrides, k, i) {
        let j = choose|j: int| 0 <= j < k && (#[trigger] overrides[j]).id == i;
        assert(0 <= j < k + 1 && overrides[j].id == i);
    }
    if overrides[k].id == i {
        assert(0 <= k < k + 1 && overrides[k].id == i);
    }
}

proof fn lemma_named_none(overrides: Seq<TileOverride>, i: int)
    ensures
        !named(overrides, 0, i),
{
    reveal(named);
}

/// The controller a seat's kind describes, by view.
pub open spec fn kind_view(k: PlayerKind) -> Option<Seq<char>> {
    match k {
        PlayerKind::Human => None,
        PlayerKind::Ai { profile } => Some(profile@),
    }
}

/// The world's players are the level's seats, in order, none eliminated.
pub open spec fn seats_match(players: Seq<Player>, seats: Seq<LevelPlayer>) -> bool {
    &&& players.len() == seats.len()
    &&& forall|i: int| 0 <= i < seats.len() ==> {
        &&& (#[trigger] players[i]).faction == seats[i].faction
        &&& players[i].controller@ == kind_view(seats[i].kind)
        &&& !players[i].eliminated
    }
}

/// The planet source's adjacency, checked against the level's frequency.
pub fn checked_topology(freq: u32, planet: Result<Topology, String>) -> (res: Result<Topology, LevelError>)
    requires
        tiles_at(freq as int) <= u32::MAX,
    ensures
        match planet {
            Err(m) => res == Err::<Topology, LevelError>(LevelError::Planet { freq, message: m }),
            Ok(t) => if t.count() == tiles_at(freq as int) {
                res == Ok::<Topology, LevelError>(t)
            } else {
                res matches Err(LevelError::PlanetSize { what, freq: f, expected, found }) && what@
                    == "tiles"@ && f == freq && expected == tiles_at(freq as int) && found == t.count()
            },
        },
{
    let expected = tile_count(freq);
    match planet {
        Err(message) => Err(LevelError::Planet { freq, message }),
        Ok(t) => {
            let found = t.tile_count();
            if found != expected as usize {
                Err(LevelError::PlanetSize { what: "tiles", freq, expected, found })
            } else {
                Ok(t)
            }
        },
    }
}

/// The planet source's terrain, checked against the level's frequency.
pub fn checked_terrain(freq: u32, planet: Result<Vec<Terrain>, String>) -> (res: Result<Vec<Terrain>, LevelError>)
    requires
        tiles_at(freq as int) <= u32::MAX,
    ensures
        match planet {
            Err(m) => res == Err::<Vec<Terrain>, LevelError>(LevelError::Planet { freq, message: m }),
            Ok(t) => if t@.len() == tiles_at(freq as int) {
                res == Ok::<Vec<Terrain>, LevelError>(t)
            } else {
                res matches Err(LevelError::PlanetSize { what, freq: f, expected, found }) && what@
                    == "terrain entries"@ && f == freq && expected == tiles_at(freq as int) && found
                    == t@.len()
            },
        },
{
    let expected = tile_count(freq);
    match planet {
        Err(message) => Err(LevelError::Planet { freq, message }),
        Ok(t) => {
            let found = t.len();
            if found != expected as usize {
                Err(LevelError::PlanetSize { what: "terrain entries", freq, expected, found })
            } else {
                Ok(t)
            }
        },
    }
}

fn seat_player(seat: &LevelPlayer) -> (p: Player)
    ensures
        p.faction == seat.faction,
        p.controller@ == kind_view(seat.kind),
        !p.eliminated,
{
    let controller = match &seat.kind {
        PlayerKind::Human => Controller::Human,
        PlayerKind::Ai { profile } => Controller::Ai(profile.clone()),
    };
    Player { faction: seat.faction, controller, eliminated: false }
}

impl Level {
    /// Lay a valid level over a planet of the right size: the grown terrain
    /// (none on an ocean world), then every override, then the seats. No
    /// territory exists yet.
    pub fn lay_out(&self, topology: Topology, terrain: Option<Vec<Terrain>>) -> (w: World)
        requires
            level_ok(*self),
            topology.count() == tiles_at(self.freq as int),
            terrain matches Some(t) ==> t@.len() == tiles_at(self.freq as int),
        ensures
            w.wf(),
            w.seed == self.seed,
            *w.topology == topology,
            w.round == 0,
            w.turn_index == 0,
            w.tiles@.len() == tiles_at(self.freq as int),
            forall|k: int| 0 <= k < self.overrides@.len() ==> w.tiles@[(#[trigger] self.overrides@[k]).id as int]
                == override_tile(self.overrides@[k]),
            forall|i: int| 0 <= i < w.tiles@.len() && !named(self.overrides@, self.overrides@.len() as int, i)
                ==> #[trigger] w.tiles@[i] == grown_tile(
                match terrain {
                    Some(t) => Some(t@),
                    None => None,
                },
                i,
            ),
            w.units@.len() == 0,
            w.territories@.len() == 0,
            seats_match(w.players@, self.players@),
            w.outcome is None,
            w.counters() == (0u32, 0u32, 0u32),
    {
        proof {
            lemma_valid_overrides(*self);
        }
        let ghost grown: Option<Seq<Terrain>> = match &terrain {
            Some(t) => Some(t@),
            None => None,
        };
        let mut world = World::empty(self.seed, Arc::new(topology));
        let mut tiles = grown_tiles(world.tiles.len(), &terrain);
        apply_overrides(&mut tiles, &self.overrides);
        world.tiles = tiles;
        world.players = self.seat_players();
        world
    }

    /// The world's players, one per seat, in turn order.
    fn seat_players(&self) -> (ps: Vec<Player>)
        ensures
            seats_match(ps@, self.players@),
    {
        let mut ps: Vec<Player> = Vec::new();
        let mut p: usize = 0;
        while p < self.players.len()
            invariant
                p <= self.players@.len(),
                ps@.len() == p,
                forall|i: int| 0 <= i < p ==> {
                    &&& (#[trigger] ps@[i]).faction == self.players@[i].faction
                    &&& ps@[i].controller@ == kind_view(self.players@[i].kind)
                    &&& !ps@[i].eliminated
                },
            decreases self.players@.len() - p,
        {
            ps.push(seat_player(&self.players[p]));
            p = p + 1;
        }
        ps
    }
}

/// The tiles as the seed grew them.
fn grown_tiles(n: usize, terrain: &Option<Vec<Terrain>>) -> (tiles: Vec<Tile>)
    requires
        terrain matches Some(t) ==> t@.len() == n,
    ensures
        tiles@.len() == n,
        forall|i: int| 0 <= i < n ==> #[trigger] tiles@[i] == grown_tile(
            match terrain {
                Some(t) => Some(t@),
                None => None,
            },
            i,
        ),
{
    let ghost grown: Option<Seq<Terrain>> = match terrain {
        Some(t) => Some(t@),
        None => None,
    };
    let mut tiles: Vec<Tile> = Vec::new();
    let mut i: usize = 0;
    while i < n
        invariant
            i <= n,
            tiles@.len() == i,
            terrain matches Some(t) ==> t@.len() == n,
            grown == match terrain {
                Some(t) => Some(t@),
                None => None::<Seq<Terrain>>,
            },
            forall|j: int| 0 <= j < i ==> #[trigger] tiles@[j] == grown_tile(grown, j),
        decreases n - i,
    {
        let land = match terrain {
            Some(t) => t[i] == Terrain::Land,
            None => false,
        };
        if land {
            tiles.push(Tile::land(TileKind::Empty));
        } else {
            tiles.push(Tile::water());
        }
        i = i + 1;
    }
    tiles
}

/// Put every override in place over the grown tiles.
fn apply_overrides(tiles: &mut Vec<Tile>, overrides: &Vec<TileOverride>)
    requires
        forall|k: int| 0 <= k < overrides@.len() ==> (#[trigger] overrides@[k]).id < old(tiles)@.len(),
        forall|j: int, k: int| 0 <= j < k < overrides@.len() ==> (#[trigger] overrides@[j]).id != (#[trigger] overrides@[k]).id,
    ensures
        final(tiles)@.len() == old(tiles)@.len(),
        forall|j: int| 0 <= j < overrides@.len() ==> final(tiles)@[(#[trigger] overrides@[j]).id as int] == override_tile(overrides@[j]),
        forall|i: int| 0 <= i < old(tiles)@.len() && !named(overrides@, overrides@.len() as int, i)
            ==> #[trigger] final(tiles)@[i] == old(tiles)@[i],
{
    let ghost start = tiles@;
    proof {
        assert forall|i: int| !named(overrides@, 0, i) by {
            lemma_named_none(overrides@, i);
        }
    }
    let n = tiles.len();
    let m = overrides.len();
    let mut k: usize = 0;
    while k < m
        invariant
            m == overrides@.len(),
            n == tiles@.len(),
            n == start.len(),
            k <= m,
            forall|q: int| 0 <= q < overrides@.len() ==> (#[trigger] overrides@[q]).id < n,
            forall|a: int, b: int| 0 <= a < b < overrides@.len() ==> (#[trigger] overrides@[a]).id != (#[trigger] overrides@[b]).id,
            forall|j: int| 0 <= j < k ==> tiles@[(#[trigger] overrides@[j]).id as int] == override_tile(overrides@[j]),
            forall|i: int| 0 <= i < n && !named(overrides@, k as int, i) ==> #[trigger] tiles@[i] == start[i],
        decreases m - k,
    {
        let e = overrides[k];
        let tile = match e.terrain {
            Terrain::Water => Tile { owner: e.owner, ..Tile::water() },
            Terrain::Land => Tile { owner: e.owner, ..Tile::land(e.kind) },
        };
        tiles.set(e.id as usize, tile);
        proof {
            assert forall|j: int| 0 <= j < k + 1 implies tiles@[(#[trigger] overrides@[j]).id as int] == override_tile(overrides@[j]) by {
                if j < k {
                    assert(overrides@[j].id != overrides@[k as int].id);
                }
            }
            assert forall|i: int| 0 <= i < n && !named(overrides@, k + 1, i)
                implies #[trigger] tiles@[i] == start[i] by {
                lemma_named_step(overrides@, k as int, i);
            }
        }
        k = k + 1;
    }
}

/// Every territory holds the ruleset's starting treasury.
pub open spec fn endowed(territories: Seq<Territory>, rules: Ruleset) -> bool {
    forall|i: int| 0 <= i < territories.len() ==> {
        &&& (#[trigger] territories[i])@.wheat == rules.economy.starting_wheat
        &&& territories[i]@.gold == rules.economy.starting_gold
    }
}

/// Derive the territories of every faction that owns ground, in colour
/// order, then endow every territory with the ruleset's starting treasury:
/// territories present from the first turn have nothing to inherit.
pub fn settle(world: &mut World, rules: &Ruleset)
    requires
        old(world).wf(),
        old(world).counters().1 + 4 * old(world).tiles@.len() <= u32::MAX,
    ensures
        final(world).wf(),
        final(world).tiles@.len() == old(world).tiles@.len(),
        final(world).players == old(world).players,
        final(world).seed == old(world).seed,
        final(world).topology == old(world).topology,
        final(world).round == old(world).round,
        final(world).turn_index == old(world).turn_index,
        final(world).outcome == old(world).outcome,
        final(world).stats == old(world).stats,
        final(world).dominance_streak == old(world).dominance_streak,
        final(world).counters().0 == old(world).counters().0,
        final(world).counters().2 == old(world).counters().2,
        endowed(final(world).territories@, *rules),
        forall|j: int| 0 <= j < old(world).tiles@.len() ==> (#[trigger] final(world).tiles@[j]).terrain == old(world).tiles@[j].terrain
            && (final(world).tiles@[j].owner == old(world).tiles@[j].owner || final(world).tiles@[j].owner is None),
        forall|i: int| 0 <= i < final(world).units@.len() ==> old(world).units@.contains(#[trigger] final(world).units@[i]),
{
    let mut sink = EventSink::new();
    let ghost start = *world;
    let mut f: u32 = 0;
    while f < 4
        invariant
            f <= 4,
            world.wf(),
            world.tiles@.len() == start.tiles@.len(),
            world.players == start.players,
            world.seed == start.seed,
            world.topology == start.topology,
            world.round == start.round,
            world.turn_index == start.turn_index,
            world.outcome == start.outcome,
            world.stats == start.stats,
            world.dominance_streak == start.dominance_streak,
            world.counters().1 + (4 - f) * world.tiles@.len() <= u32::MAX,
            world.counters().0 == start.counters().0,
            world.counters().2 == start.counters().2,
            forall|j: int| 0 <= j < start.tiles@.len() ==> (#[trigger] world.tiles@[j]).terrain == start.tiles@[j].terrain
                && (world.tiles@[j].owner == start.tiles@[j].owner || world.tiles@[j].owner is None),
            forall|i: int| 0 <= i < world.units@.len() ==> start.units@.contains(#[trigger] world.units@[i]),
        decreases 4 - f,
    {
        let faction = Faction::from_ordinal(f);
        let ghost before = *world;
        let ghost len = world.tiles@.len() as int;
        proof {
            let g = f as int;
            assert((4 - g) * len == (4 - (g + 1)) * len + len) by (nonlinear_arith);
            assert(0 <= (4 - (g + 1)) * len) by (nonlinear_arith)
                requires g < 4, len >= 0;
        }
        if world.tile_count_of(faction) > 0 {
            retopologize(world, rules, faction, None, &mut sink);
            proof {
                assert forall|i: int| 0 <= i < world.units@.len() implies start.units@.contains(#[trigger] world.units@[i]) by {
                    assert(before.units@.contains(world.units@[i]));
                    let p = choose|p: int| 0 <= p < before.units@.len() && before.units@[p] == world.units@[i];
                    assert(start.units@.contains(before.units@[p]));
                }
                assert forall|j: int| 0 <= j < start.tiles@.len() implies (#[trigger] world.tiles@[j]).terrain == start.tiles@[j].terrain
                    && (world.tiles@[j].owner == start.tiles@[j].owner || world.tiles@[j].owner is None) by {
                    assert(before.tiles@[j].terrain == start.tiles@[j].terrain);
                }
            }
        }
        f = f + 1;
    }
    let n = world.territories.len();
    let mut i: usize = 0;
    while i < n
        invariant
            n == world.territories@.len(),
            i <= n,
            world.wf(),
            world.tiles@.len() == start.tiles@.len(),
            world.players == start.players,
            world.seed == start.seed,
            world.topology == start.topology,
            world.round == start.round,
            world.turn_index == start.turn_index,
            world.outcome == start.outcome,
            world.stats == start.stats,
            world.dominance_streak == start.dominance_streak,
            world.counters().0 == start.counters().0,
            world.counters().2 == start.counters().2,
            forall|j: int| 0 <= j < i ==> {
                &&& (#[trigger] world.territories@[j])@.wheat == rules.economy.starting_wheat
                &&& world.territories@[j]@.gold == rules.economy.starting_gold
            },
            forall|j: int| 0 <= j < start.tiles@.len() ==> (#[trigger] world.tiles@[j]).terrain == start.tiles@[j].terrain
                && (world.tiles@[j].owner == start.tiles@[j].owner || world.tiles@[j].owner is None),
            forall|q: int| 0 <= q < world.units@.len() ==> start.units@.contains(#[trigger] world.units@[q]),
        decreases n - i,
    {
        world.set_treasury(i, rules.economy.starting_wheat, rules.economy.starting_gold);
        i = i + 1;
    }
}

/// What a built world is: valid, grown from the level's seed on a planet of
/// the level's size, with the level's seats in turn order, and every territory holding the starting treasury.
pub open spec fn built(w: World, level: Level, rules: Ruleset) -> bool {
    &&& w.wf()
    &&& w.seed == level.seed
    &&& w.tiles@.len() == tiles_at(level.freq as int)
    &&& seats_match(w.players@, level.players@)
    &&& w.round == 0
    &&& w.turn_index == 0
    &&& w.outcome is None
    &&& endowed(w.territories@, rules)
}

impl Level {
    /// Build the world this level describes, ready for a session: terrain,
    /// overrides, players, territories and starting treasuries.
    ///
    /// The level is validated before the planet is touched; the planet's
    /// adjacency and terrain are checked against the level's frequency; an
    /// ocean level never asks for terrain.
    pub fn build<P: PlanetSource>(&self, planet: &P, rules: &Ruleset) -> (res: Result<World, LevelError>)
        ensures
            level_fault(*self) matches Some(e) ==> res == Err::<World, LevelError>(e),
            res matches Ok(w) ==> level_ok(*self) && built(w, *self, *rules),
            res matches Err(e) ==> {
                ||| level_fault(*self) == Some(e)
                ||| e matches LevelError::Planet { freq, .. } && freq == self.freq
                ||| e matches LevelError::PlanetSize { freq, expected, found, .. } && freq == self.freq
                    && expected == tiles_at(self.freq as int) && found != expected
            },
    {
        match self.validate() {
            Err(e) => return Err(e),
            Ok(()) => {},
        }
        proof {
            lemma_valid_overrides(*self);
            let f = self.freq as int;
            assert(tiles_at(f) <= 1442) by (nonlinear_arith)
                requires 1 <= f <= 12;
        }
        let topology = match checked_topology(self.freq, planet.topology(self.freq)) {
            Err(e) => return Err(e),
            Ok(t) => t,
        };
        let terrain = if self.is_ocean() {
            None
        } else {
            match checked_terrain(self.freq, planet.terrain(self.freq, self.seed)) {
                Err(e) => return Err(e),
                Ok(t) => Some(t),
            }
        };
        let mut world = self.lay_out(topology, terrain);
        settle(&mut world, rules);
        Ok(world)
    }
}

} // verus!
