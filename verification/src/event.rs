//! What happened: the record a front end animates and a log replays.

use crate::ids::{Faction, TerritoryId, TileId, UnitId};
use crate::rules::{TileKind, UnitKind};
use crate::state::Outcome;
use vstd::prelude::*;

verus! {

#[derive(Debug, Clone, PartialEq, Eq)]
pub enum Event {
    TurnBegan { faction: Faction, round: u32 },
    TurnEnded { faction: Faction },
    RoundBegan { round: u32 },
    ResourcesProduced { territory: TerritoryId, wheat: i32, gold: i32 },
    TownsFed { territory: TerritoryId, fed: u32, of: u32 },
    UnitStarved { unit: UnitId, kind: UnitKind, faction: Faction, at: TileId },
    UnitRecruited { unit: UnitId, kind: UnitKind, faction: Faction, at: TileId, territory: TerritoryId, cost: i32 },
    UnitUpgraded { unit: UnitId, from: UnitKind, to: UnitKind, at: TileId, cost: i32 },
    UnitMoved { unit: UnitId, from: TileId, to: TileId },
    UnitKilled { unit: UnitId, kind: UnitKind, faction: Faction, at: TileId, by: UnitId },
    UnitDisbanded { unit: UnitId, kind: UnitKind, faction: Faction, at: TileId },
    TileBuilt { tile: TileId, kind: TileKind, territory: TerritoryId, cost: i32 },
    TileCaptured { tile: TileId, from: Option<Faction>, to: Faction, previous_kind: TileKind },
    CapitalRazed { tile: TileId, faction: Faction, gold_looted: i32 },
    ForestSpread { from: TileId, to: TileId },
    TerritoryCreated { territory: TerritoryId, faction: Faction, capital: TileId, tiles: u32, wheat: i32, gold: i32 },
    TerritoryDissolved { territory: TerritoryId, faction: Faction },
    CapitalRelocated { territory: TerritoryId, from: Option<TileId>, to: TileId },
    TerritorySplit { parent: TerritoryId, into: Vec<TerritoryId> },
    TerritoriesMerged { kept: TerritoryId, absorbed: Vec<TerritoryId> },
    TerritoryDisbanded { territory: TerritoryId, faction: Faction, tiles: u32 },
    PlayerEliminated { faction: Faction },
    GameOver { outcome: Outcome },
}

/// Collects events in the order they happen.
#[derive(Debug, Clone, PartialEq, Eq)]
pub struct EventSink {
    events: Vec<Event>,
}

/// `b` is `a` with more events after it.
pub open spec fn extends(a: Seq<Event>, b: Seq<Event>) -> bool {
    a.len() <= b.len() && b.subrange(0, a.len() as int) == a
}

/// Extending is transitive.
pub proof fn lemma_extends_trans(a: Seq<Event>, b: Seq<Event>, c: Seq<Event>)
    requires
        extends(a, b),
        extends(b, c),
    ensures
        extends(a, c),
{
    assert(c.subrange(0, a.len() as int) =~= b.subrange(0, a.len() as int));
}

/// What one sequence holds, any extension of it holds.
pub proof fn lemma_extends_contains(a: Seq<Event>, b: Seq<Event>, e: Event)
    requires
        extends(a, b),
        a.contains(e),
    ensures
        b.contains(e),
{
    let k = choose|k: int| 0 <= k < a.len() && a[k] == e;
    assert(b.subrange(0, a.len() as int)[k] == b[k]);
}

/// An event pushed stays where it was in any extension.
pub proof fn lemma_kept_at(a: Seq<Event>, e: Event, c: Seq<Event>)
    requires
        extends(a.push(e), c),
    ensures
        c.len() > a.len(),
        c[a.len() as int] == e,
{
    assert(c.subrange(0, a.len() + 1 as int)[a.len() as int] == c[a.len() as int]);
}

/// Appending extends.
pub proof fn lemma_extends_append(a: Seq<Event>, b: Seq<Event>)
    ensures
        extends(a, a + b),
{
    assert((a + b).subrange(0, a.len() as int) =~= a);
}

/// Every sequence extends itself.
pub proof fn lemma_extends_refl(a: Seq<Event>)
    ensures
        extends(a, a),
{
    assert(a.subrange(0, a.len() as int) =~= a);
}

/// Pushing extends.
pub proof fn lemma_extends_push(a: Seq<Event>, e: Event)
    ensures
        extends(a, a.push(e)),
{
    assert(a.push(e).subrange(0, a.len() as int) =~= a);
}

impl EventSink {
    /// The events collected so far, in order.
    pub closed spec fn view(&self) -> Seq<Event> {
        self.events@
    }

    pub fn new() -> (s: EventSink)
        ensures
            s.view() == Seq::<Event>::empty(),
    {
        EventSink { events: Vec::new() }
    }

    pub fn push(&mut self, event: Event)
        ensures
            final(self).view() == old(self).view().push(event),
    {
        self.events.push(event);
    }

    pub fn events(&self) -> (s: &[Event])
        ensures
            s@ == self.view(),
    {
        self.events.as_slice()
    }

    pub fn into_events(self) -> (v: Vec<Event>)
        ensures
            v@ == self.view(),
    {
        self.events
    }

    pub fn is_empty(&self) -> (b: bool)
        ensures
            b == (self.view().len() == 0),
    {
        self.events.len() == 0
    }

    pub fn len(&self) -> (n: usize)
        ensures
            n == self.view().len(),
    {
        self.events.len()
    }

    /// Append events, in order.
    pub fn extend(&mut self, more: Vec<Event>)
        ensures
            final(self).view() == old(self).view() + more@,
    {
        let mut more = more;
        self.events.append(&mut more);
    }
}

} // verus!
