//! Golden replays: a fixed setup, a recorded command log, and the state hash
//! the log must end on. A replay pins behaviour end to end, so a rule change
//! that moves any number shows up as a hash mismatch rather than going
//! unnoticed.

use crate::builder::WorldBuilder;
use crate::command::{Command, Rejection};
use crate::hash::world_bytes;
use crate::digest::fnv1a_spec;
use crate::ids::{Faction, TileId};
use crate::invariants::{check, sound, Violation};
use crate::rules::{Ruleset, TileKind, UnitKind};
use crate::rules_default::{is_bundled, ruleset_hash_spec};
use crate::session::Session;
use crate::state::World;
use crate::topo;
use crate::topology::Topology;
use vstd::prelude::*;

verus! {

/// Why a golden replay did not hold.
#[derive(Debug)]
pub enum GoldenError {
    /// The replay file could not be read.
    Io { path: String, message: String },
    /// The replay file is not a replay.
    Parse { path: String, message: String },
    /// The balance changed since the replay was recorded.
    RulesetChanged { name: String, recorded: u64, current: u64 },
    /// A recorded command is no longer legal.
    CommandRejected { name: String, index: usize, command: Command, reason: Rejection },
    /// The replay ended somewhere else.
    HashMismatch { name: String, expected: u64, actual: u64 },
    /// The replay left the world breaking an invariant.
    Unsound { name: String, violations: Vec<Violation> },
    /// The match ran out of fresh ids before the command at `index`.
    IdsExhausted { name: String, index: usize },
}

/// The shape a replay is played on.
#[derive(Debug, Clone, Copy, PartialEq, Eq, Structural)]
pub enum TopologySpec {
    Line(u32),
    Grid(u32, u32),
    HexGrid(u32, u32),
}

/// Tiles on the shape.
pub open spec fn spec_tiles(t: TopologySpec) -> int {
    match t {
        TopologySpec::Line(n) => n as int,
        TopologySpec::Grid(w, h) => w * h,
        TopologySpec::HexGrid(w, h) => w * h,
    }
}

impl TopologySpec {
    pub fn build(&self) -> (t: Topology)
        requires
            spec_tiles(*self) <= u32::MAX,
        ensures
            t.count() == spec_tiles(*self),
    {
        match *self {
            TopologySpec::Line(n) => topo::line(n),
            TopologySpec::Grid(w, h) => topo::grid(w, h),
            TopologySpec::HexGrid(w, h) => topo::hex_grid(w, h),
        }
    }
}

/// Who sits at a seat of a replay.
#[derive(Debug, Clone, PartialEq, Eq)]
pub struct PlayerSpec {
    pub faction: Faction,
    /// An AI profile, or `None` for a human.
    pub ai: Option<String>,
}

/// The world a replay starts from, as plain data for the builder.
#[derive(Debug, Clone, PartialEq, Eq)]
pub struct Setup {
    pub topology: TopologySpec,
    pub seed: u64,
    /// Land tiles; `None` means every tile is land.
    pub land: Option<Vec<u32>>,
    pub players: Vec<PlayerSpec>,
    pub ownership: Vec<(Faction, Vec<u32>)>,
    pub capitals: Vec<u32>,
    pub kinds: Vec<(u32, TileKind)>,
    pub units: Vec<(Faction, UnitKind, u32)>,
    pub treasuries: Vec<(u32, i32, i32)>,
}

/// Every tile a setup names lies on its shape, and the shape is small
/// enough to build on.
pub open spec fn setup_ok(s: Setup) -> bool {
    let n = spec_tiles(s.topology);
    &&& 4 * n <= u32::MAX
    &&& s.units@.len() < u32::MAX
    &&& s.land matches Some(l) ==> forall|k: int| 0 <= k < l@.len() ==> (#[trigger] l@[k]) < n
    &&& forall|o: int, k: int| 0 <= o < s.ownership@.len() && 0 <= k < s.ownership@[o].1@.len()
        ==> (#[trigger] s.ownership@[o].1@[k]) < n
    &&& forall|k: int| 0 <= k < s.kinds@.len() ==> (#[trigger] s.kinds@[k]).0 < n
    &&& forall|k: int| 0 <= k < s.capitals@.len() ==> (#[trigger] s.capitals@[k]) < n
    &&& forall|k: int| 0 <= k < s.units@.len() ==> (#[trigger] s.units@[k]).2 < n
    &&& forall|k: int| 0 <= k < s.treasuries@.len() ==> (#[trigger] s.treasuries@[k]).0 < n
}

impl Setup {
    /// Whether every tile the setup names lies on its shape and the shape is
    /// small enough to build on.
    pub fn fits(&self) -> (b: bool)
        ensures
            b == setup_ok(*self),
    {
        let n64: u64 = match self.topology {
            TopologySpec::Line(n) => n as u64,
            TopologySpec::Grid(w, h) => {
                proof {
                    assert(w * h <= 0xffff_ffff * 0xffff_ffff) by (nonlinear_arith)
                        requires w <= 0xffff_ffff, h <= 0xffff_ffff;
                }
                w as u64 * h as u64
            },
            TopologySpec::HexGrid(w, h) => {
                proof {
                    assert(w * h <= 0xffff_ffff * 0xffff_ffff) by (nonlinear_arith)
                        requires w <= 0xffff_ffff, h <= 0xffff_ffff;
                }
                w as u64 * h as u64
            },
        };
        assert(n64 == spec_tiles(self.topology));
        if n64 > (u32::MAX / 4) as u64 || self.units.len() >= u32::MAX as usize {
            return false;
        }
        let n = n64 as u32;
        match &self.land {
            Some(l) => {
                let mut k: usize = 0;
                while k < l.len()
                    invariant
                        n == spec_tiles(self.topology),
                        self.land == Some(*l),
                        k <= l@.len(),
                        forall|q: int| 0 <= q < k ==> (#[trigger] l@[q]) < n,
                    decreases l@.len() - k,
                {
                    if l[k] >= n {
                        proof {
                            assert(l@[k as int] >= n);
                            let lv = self.land->0;
                            assert(lv@ == l@);
                            assert(!(forall|q: int| 0 <= q < lv@.len() ==> (#[trigger] lv@[q]) < n));
                        }
                        return false;
                    }
                    k = k + 1;
                }
            },
            None => {},
        }
        let mut o: usize = 0;
        while o < self.ownership.len()
            invariant
                        n == spec_tiles(self.topology),
                o <= self.ownership@.len(),
                forall|a: int, k: int| 0 <= a < o && 0 <= k < self.ownership@[a].1@.len()
                    ==> (#[trigger] self.ownership@[a].1@[k]) < n,
            decreases self.ownership@.len() - o,
        {
            let tiles = &self.ownership[o].1;
            let mut k: usize = 0;
            while k < tiles.len()
                invariant
                        n == spec_tiles(self.topology),
                    o < self.ownership@.len(),
                    k <= tiles@.len(),
                    tiles@ == self.ownership@[o as int].1@,
                    forall|q: int| 0 <= q < k ==> (#[trigger] tiles@[q]) < n,
                decreases tiles@.len() - k,
            {
                if tiles[k] >= n {
                    proof {
                        assert(self.ownership@[o as int].1@[k as int] >= n);
                    }
                    return false;
                }
                k = k + 1;
            }
            o = o + 1;
        }
        let mut k: usize = 0;
        while k < self.kinds.len()
            invariant
                        n == spec_tiles(self.topology),
                k <= self.kinds@.len(),
                forall|q: int| 0 <= q < k ==> (#[trigger] self.kinds@[q]).0 < n,
            decreases self.kinds@.len() - k,
        {
            if self.kinds[k].0 >= n {
                proof {
                    assert(self.kinds@[k as int].0 >= n);
                }
                return false;
            }
            k = k + 1;
        }
        let mut k: usize = 0;
        while k < self.capitals.len()
            invariant
                        n == spec_tiles(self.topology),
                k <= self.capitals@.len(),
                forall|q: int| 0 <= q < k ==> (#[trigger] self.capitals@[q]) < n,
            decreases self.capitals@.len() - k,
        {
            if self.capitals[k] >= n {
                proof {
                    assert(self.capitals@[k as int] >= n);
                }
                return false;
            }
            k = k + 1;
        }
        let mut k: usize = 0;
        while k < self.units.len()
            invariant
                        n == spec_tiles(self.topology),
                k <= self.units@.len(),
                forall|q: int| 0 <= q < k ==> (#[trigger] self.units@[q]).2 < n,
            decreases self.units@.len() - k,
        {
            if self.units[k].2 >= n {
                proof {
                    assert(self.units@[k as int].2 >= n);
                }
                return false;
            }
            k = k + 1;
        }
        let mut k: usize = 0;
        while k < self.treasuries.len()
            invariant
                        n == spec_tiles(self.topology),
                k <= self.treasuries@.len(),
                forall|q: int| 0 <= q < k ==> (#[trigger] self.treasuries@[q]).0 < n,
            decreases self.treasuries@.len() - k,
        {
            if self.treasuries[k].0 >= n {
                proof {
                    assert(self.treasuries@[k as int].0 >= n);
                }
                return false;
            }
            k = k + 1;
        }
        true
    }

    /// The world and ruleset this setup describes: land, players, ownership,
    /// kinds, capitals, units and treasuries, in that order, on the bundled
    /// rules.
    pub fn build(&self) -> (r: (World, Ruleset))
        requires
            setup_ok(*self),
        ensures
            r.0.wf(),
            is_bundled(r.1),
            r.0.seed == self.seed,
            r.0.tiles@.len() == spec_tiles(self.topology),
            r.0.players@.len() == self.players@.len(),
            r.0.round == 0,
            r.0.turn_index == 0,
            r.0.outcome is None,
    {
        let mut b = WorldBuilder::new(self.topology.build()).seed(self.seed);
        let ghost n = spec_tiles(self.topology);
        b = match &self.land {
            None => b.all_land(),
            Some(tiles) => b.land(tiles.as_slice()),
        };
        let mut k: usize = 0;
        while k < self.players.len()
            invariant
                b.wf(),
                b.tiles@.len() == n,
                is_bundled(b.rules),
                b.seed == self.seed,
                b.units@.len() == 0,
                b.treasuries@.len() == 0,
                b.players@.len() == k,
                k <= self.players@.len(),
            decreases self.players@.len() - k,
        {
            let p = &self.players[k];
            b = match &p.ai {
                None => b.player(p.faction),
                Some(profile) => b.ai_player(p.faction, profile.as_str()),
            };
            k = k + 1;
        }
        let mut k: usize = 0;
        while k < self.ownership.len()
            invariant
                setup_ok(*self),
                n == spec_tiles(self.topology),
                b.wf(),
                b.tiles@.len() == n,
                is_bundled(b.rules),
                b.seed == self.seed,
                b.units@.len() == 0,
                b.treasuries@.len() == 0,
                b.players@.len() == self.players@.len(),
                k <= self.ownership@.len(),
            decreases self.ownership@.len() - k,
        {
            let (faction, tiles) = &self.ownership[k];
            proof {
                assert forall|q: int| 0 <= q < tiles@.len() implies (#[trigger] tiles@[q]) < b.tiles@.len() by {
                    assert(self.ownership@[k as int].1@[q] < n);
                }
            }
            b = b.own(*faction, tiles.as_slice());
            k = k + 1;
        }
        let mut k: usize = 0;
        while k < self.kinds.len()
            invariant
                setup_ok(*self),
                n == spec_tiles(self.topology),
                b.wf(),
                b.tiles@.len() == n,
                is_bundled(b.rules),
                b.seed == self.seed,
                b.units@.len() == 0,
                b.treasuries@.len() == 0,
                b.players@.len() == self.players@.len(),
                k <= self.kinds@.len(),
            decreases self.kinds@.len() - k,
        {
            let (tile, kind) = self.kinds[k];
            b = b.kind(tile, kind);
            k = k + 1;
        }
        let mut k: usize = 0;
        while k < self.capitals.len()
            invariant
                setup_ok(*self),
                n == spec_tiles(self.topology),
                b.wf(),
                b.tiles@.len() == n,
                is_bundled(b.rules),
                b.seed == self.seed,
                b.units@.len() == 0,
                b.treasuries@.len() == 0,
                b.players@.len() == self.players@.len(),
                k <= self.capitals@.len(),
            decreases self.capitals@.len() - k,
        {
            b = b.capital(self.capitals[k]);
            k = k + 1;
        }
        let mut k: usize = 0;
        while k < self.units.len()
            invariant
                setup_ok(*self),
                n == spec_tiles(self.topology),
                b.wf(),
                b.tiles@.len() == n,
                is_bundled(b.rules),
                b.seed == self.seed,
                b.units@.len() == k,
                forall|q: int| 0 <= q < b.units@.len() ==> (#[trigger] b.units@[q]).2.0 < n,
                b.treasuries@.len() == 0,
                b.players@.len() == self.players@.len(),
                k <= self.units@.len(),
            decreases self.units@.len() - k,
        {
            let (faction, kind, tile) = self.units[k];
            b = b.unit_of(faction, kind, tile);
            k = k + 1;
        }
        let mut k: usize = 0;
        while k < self.treasuries.len()
            invariant
                setup_ok(*self),
                n == spec_tiles(self.topology),
                b.wf(),
                b.tiles@.len() == n,
                is_bundled(b.rules),
                b.seed == self.seed,
                b.units@.len() == self.units@.len(),
                forall|q: int| 0 <= q < b.units@.len() ==> (#[trigger] b.units@[q]).2.0 < n,
                b.treasuries@.len() == k,
                forall|q: int| 0 <= q < b.treasuries@.len() ==> (#[trigger] b.treasuries@[q]).0.0 < n,
                b.players@.len() == self.players@.len(),
                k <= self.treasuries@.len(),
            decreases self.treasuries@.len() - k,
        {
            let (tile, wheat, gold) = self.treasuries[k];
            b = b.treasury(tile, wheat, gold);
            k = k + 1;
        }
        b.build()
    }
}

/// A recorded match: its setup, its commands, and the hashes that pin it.
#[derive(Debug, Clone, PartialEq, Eq)]
pub struct GoldenReplay {
    pub name: String,
    pub description: String,
    /// The rule ids this replay protects.
    pub rules: Vec<String>,
    pub ruleset_hash: u64,
    pub setup: Setup,
    pub commands: Vec<Command>,
    pub expected_state_hash: u64,
}

impl GoldenReplay {
    /// Build the setup and play every command, failing on the first thing
    /// that no longer holds: a changed ruleset, then a refused command.
    #[verifier::rlimit(40)]
    pub fn run(&self) -> (res: Result<Session, GoldenError>)
        requires
            setup_ok(self.setup),
        ensures
            res matches Ok(s) ==> s.inv() && s.commands() == self.commands@ && is_bundled(s.ruleset())
                && ruleset_hash_spec(s.ruleset()) == self.ruleset_hash,
            res matches Err(GoldenError::RulesetChanged { name, recorded, current }) ==> name@ == self.name@
                && recorded == self.ruleset_hash && current != recorded,
            res matches Err(GoldenError::CommandRejected { name, index, command, .. }) ==> name@ == self.name@
                && index < self.commands@.len() && command == self.commands@[index as int],
            res matches Err(e) ==> e is RulesetChanged || e is CommandRejected || e is IdsExhausted,
            !is_bundled_hash(self.ruleset_hash) ==> res matches Err(GoldenError::RulesetChanged { .. }),
    {
        let (world, rules) = self.setup.build();
        let current = rules.hash();
        proof {
            if self.ruleset_hash == current {
                assert(is_bundled(rules) && ruleset_hash_spec(rules) == self.ruleset_hash);
            }
        }
        if self.ruleset_hash != current {
            return Err(GoldenError::RulesetChanged { name: self.name.clone(), recorded: self.ruleset_hash, current });
        }
        let mut session = Session::start(world, rules);
        let mut index: usize = 0;
        while index < self.commands.len()
            invariant
                index <= self.commands@.len(),
                session.inv(),
                session.commands() == self.commands@.take(index as int),
                is_bundled(session.ruleset()),
                ruleset_hash_spec(session.ruleset()) == self.ruleset_hash,
            decreases self.commands@.len() - index,
        {
            let cmd = self.commands[index];
            if !session.world().has_headroom() {
                return Err(GoldenError::IdsExhausted { name: self.name.clone(), index });
            }
            match session.execute(cmd) {
                Ok(_) => {},
                Err(reason) => {
                    return Err(GoldenError::CommandRejected { name: self.name.clone(), index, command: cmd, reason });
                },
            }
            proof {
                assert(self.commands@.take(index as int).push(cmd) == self.commands@.take(index as int + 1));
            }
            index = index + 1;
        }
        proof {
            assert(self.commands@.take(self.commands@.len() as int) == self.commands@);
        }
        Ok(session)
    }

    /// Run the replay and check that it leaves a sound world on exactly the
    /// recorded state hash.
    pub fn verify(&self) -> (res: Result<(), GoldenError>)
        requires
            setup_ok(self.setup),
        ensures
            res matches Err(GoldenError::HashMismatch { name, expected, actual }) ==> name@ == self.name@
                && expected == self.expected_state_hash && actual != expected,
            res matches Err(GoldenError::Unsound { name, violations }) ==> name@ == self.name@
                && violations@.len() > 0,
            !is_bundled_hash(self.ruleset_hash) ==> res matches Err(GoldenError::RulesetChanged { .. }),
            res is Ok ==> is_bundled_hash(self.ruleset_hash),
    {
        let session = match self.run() {
            Ok(s) => s,
            Err(e) => return Err(e),
        };
        proof {
            assert(is_bundled(session.ruleset()) && ruleset_hash_spec(session.ruleset()) == self.ruleset_hash);
        }
        let violations = check(session.world());
        if violations.len() > 0 {
            return Err(GoldenError::Unsound { name: self.name.clone(), violations });
        }
        let actual = session.state_hash();
        if actual != self.expected_state_hash {
            return Err(GoldenError::HashMismatch { name: self.name.clone(), expected: self.expected_state_hash, actual });
        }
        Ok(())
    }

    /// Take the current ruleset hash and the state the commands now end on
    /// as the recorded ones.
    pub fn rerecord(&mut self) -> (res: Result<(), GoldenError>)
        requires
            setup_ok(old(self).setup),
        ensures
            final(self).name == old(self).name,
            final(self).setup == old(self).setup,
            final(self).commands == old(self).commands,
            is_bundled_hash(final(self).ruleset_hash),
    {
        let (_, rules) = self.setup.build();
        self.ruleset_hash = rules.hash();
        let session = match self.run() {
            Ok(s) => s,
            Err(e) => return Err(e),
        };
        self.expected_state_hash = session.state_hash();
        Ok(())
    }
}

/// `h` is the hash of the bundled ruleset.
pub open spec fn is_bundled_hash(h: u64) -> bool {
    exists|r: Ruleset| is_bundled(r) && ruleset_hash_spec(r) == h
}

} // verus!
