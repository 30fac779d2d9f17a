//! A match in progress: the world, its command log, and undo.
//!
//! Every command of the current turn keeps the world it was applied to, so
//! taking one back puts that exact world back; the events undo reports come
//! from replaying the turn's remaining commands from the turn's start.

use crate::apply::{applied, apply, reported, validate, validate_spec};
use crate::command::{Command, Rejection};
use crate::event::{Event, EventSink};
use crate::hash::{world_bytes, world_hash};
use crate::digest::fnv1a_spec;
use crate::rules::Ruleset;
use crate::rules_default::ruleset_hash_spec;
use crate::state::{lemma_same_world_wf, same_world, World};
use crate::turn::{match_started, start_match};
use vstd::prelude::*;

verus! {

#[derive(Debug, Clone, Copy, PartialEq, Eq, Structural)]
pub enum ReplayError {
    /// The replay was recorded against other balance numbers.
    RulesetMismatch { recorded: u64, current: u64 },
    /// A command of the replay was refused.
    Rejected { index: usize, source: Rejection },
}

#[derive(Debug)]
pub struct Session {
    rules: Ruleset,
    world: World,
    initial: World,
    log: Vec<Command>,
    turn_start: World,
    turn_start_index: usize,
    /// The world before each command of the current turn, oldest first.
    history: Vec<World>,
    last_events: Vec<Event>,
}

impl Session {
    /// What every session keeps: well-formed worlds, a usable ruleset, and a
    /// turn start inside the log.
    pub closed spec fn inv(&self) -> bool {
        &&& self.world.wf()
        &&& self.turn_start.wf()
        &&& self.initial.wf()
        &&& self.rules.has_all_profiles()
        &&& self.turn_start_index <= self.log@.len()
        &&& self.history@.len() == self.log@.len() - self.turn_start_index
        &&& forall|k: int| 0 <= k < self.history@.len() ==> (#[trigger] self.history@[k]).wf()
    }

    /// The world before each command of the current turn, oldest first: what
    /// undo goes back to.
    pub closed spec fn undo_stack(&self) -> Seq<World> {
        self.history@
    }

    pub closed spec fn current(&self) -> World {
        self.world
    }

    pub closed spec fn ruleset(&self) -> Ruleset {
        self.rules
    }

    pub closed spec fn commands(&self) -> Seq<Command> {
        self.log@
    }

    pub closed spec fn turn_start_len(&self) -> nat {
        self.turn_start_index as nat
    }

    pub closed spec fn events_view(&self) -> Seq<Event> {
        self.last_events@
    }

    /// The world the match started from.
    pub closed spec fn initial_view(&self) -> World {
        self.initial
    }

    /// Begin a match on a prepared world.
    pub fn start(world: World, rules: Ruleset) -> (s: Session)
        requires
            world.wf(),
            rules.has_all_profiles(),
        ensures
            s.inv(),
            s.current().wf(),
            s.ruleset() == rules,
            s.commands().len() == 0,
            s.turn_start_len() == 0,
            s.undo_stack().len() == 0,
            match_started(world, s.current()),
            same_world(s.initial_view(), world),
            s.events_view().len() > 0,
            s.events_view()[0] == (Event::RoundBegan { round: 1 }),
    {
        let ghost w0 = world;
        let mut world = world;
        let initial = world.snapshot();
        let mut sink = EventSink::new();
        start_match(&mut world, &rules, &mut sink);
        let turn_start = world.snapshot();
        proof {
            lemma_same_world_wf(initial, w0);
            lemma_same_world_wf(turn_start, world);
        }
        Session {
            turn_start,
            initial,
            rules,
            world,
            log: Vec::new(),
            turn_start_index: 0,
            history: Vec::new(),
            last_events: sink.into_events(),
        }
    }

    pub fn world(&self) -> (w: &World)
        requires
            self.inv(),
        ensures
            *w == self.current(),
            w.wf(),
    {
        &self.world
    }

    pub fn rules(&self) -> (r: &Ruleset)
        requires
            self.inv(),
        ensures
            *r == self.ruleset(),
            r.has_all_profiles(),
    {
        &self.rules
    }

    pub fn log(&self) -> (l: &[Command])
        requires
            self.inv(),
        ensures
            l@ == self.commands(),
    {
        self.log.as_slice()
    }

    pub fn last_events(&self) -> (e: &[Event])
        requires
            self.inv(),
        ensures
            e@ == self.events_view(),
    {
        self.last_events.as_slice()
    }

    /// The fingerprint of the current world.
    pub fn state_hash(&self) -> (h: u64)
        requires
            self.inv(),
        ensures
            h == fnv1a_spec(world_bytes(self.current())),
    {
        world_hash(&self.world)
    }

    /// Whether a command would be accepted now, without applying it.
    pub fn can(&self, cmd: &Command) -> (res: Result<(), Rejection>)
        requires
            self.inv(),
        ensures
            res == validate_spec(self.current(), self.ruleset(), *cmd),
    {
        validate(&self.world, &self.rules, cmd)
    }

    /// Apply a command and log it. Within a turn the world it was applied to
    /// is kept for undo; ending a turn commits the turn, and nothing before
    /// it can be taken back. A refused command changes nothing.
    pub fn execute(&mut self, cmd: Command) -> (res: Result<&[Event], Rejection>)
        requires
            old(self).inv(),
            old(self).current().headroom(),
        ensures
            final(self).inv(),
            res is Err <==> validate_spec(old(self).current(), old(self).ruleset(), cmd) is Err,
            res matches Err(e) ==> validate_spec(old(self).current(), old(self).ruleset(), cmd) == Err::<(), Rejection>(e)
                && final(self).current() == old(self).current() && final(self).commands() == old(self).commands()
                && final(self).undo_stack() == old(self).undo_stack(),
            res is Ok ==> final(self).commands() == old(self).commands().push(cmd),
            res is Ok ==> applied(old(self).current(), final(self).current(), old(self).ruleset(), cmd),
            res matches Ok(ev) ==> reported(old(self).current(), old(self).ruleset(), cmd, ev@)
                && final(self).events_view() == ev@,
            final(self).initial_view() == old(self).initial_view(),
            res is Ok && cmd == Command::EndTurn ==> final(self).turn_start_len() == final(self).commands().len()
                && final(self).undo_stack().len() == 0,
            res is Ok && cmd != Command::EndTurn ==> final(self).turn_start_len() == old(self).turn_start_len()
                && kept_for_undo(*old(self), *final(self)),
            final(self).ruleset() == old(self).ruleset(),
    {
        let before = self.world.snapshot();
        proof {
            lemma_same_world_wf(before, self.world);
        }
        let events = match apply(&mut self.world, &self.rules, &cmd) {
            Ok(events) => events,
            Err(e) => return Err(e),
        };
        let ends_turn = match cmd {
            Command::EndTurn => true,
            _ => false,
        };
        self.log.push(cmd);
        if ends_turn {
            self.turn_start = self.world.snapshot();
            proof {
                lemma_same_world_wf(self.turn_start, self.world);
            }
            self.turn_start_index = self.log.len();
            self.history = Vec::new();
        } else {
            let ghost kept = self.history@;
            self.history.push(before);
            proof {
                assert(self.history@.drop_last() =~= kept);
            }
        }
        self.last_events = events;
        Ok(self.last_events.as_slice())
    }

    /// Execute a command for a replay, keeping only whether it was accepted.
    fn record(&mut self, cmd: Command) -> (res: Result<(), Rejection>)
        requires
            old(self).inv(),
            old(self).current().headroom(),
        ensures
            final(self).inv(),
            final(self).ruleset() == old(self).ruleset(),
            res is Ok ==> final(self).commands() == old(self).commands().push(cmd),
            res is Ok ==> applied(old(self).current(), final(self).current(), old(self).ruleset(), cmd),
            final(self).initial_view() == old(self).initial_view(),
            res is Err <==> validate_spec(old(self).current(), old(self).ruleset(), cmd) is Err,
            res matches Err(e) ==> validate_spec(old(self).current(), old(self).ruleset(), cmd) == Err::<(), Rejection>(e)
                && final(self).current() == old(self).current() && final(self).commands() == old(self).commands(),
    {
        match self.execute(cmd) {
            Ok(_) => Ok(()),
            Err(e) => Err(e),
        }
    }

    /// Whether the current turn has a command to take back.
    pub fn can_undo(&self) -> (b: bool)
        requires
            self.inv(),
        ensures
            b == (self.commands().len() > self.turn_start_len()),
    {
        self.log.len() > self.turn_start_index
    }

    /// Take back the last command of the current turn, putting back the
    /// world it was applied to. `None` when there is nothing to take back
    /// this turn. The events reported are those of replaying the turn's
    /// remaining commands from the turn's start; that replay stops at a
    /// command that is refused, and before one when the id counters have run
    /// out.
    pub fn undo(&mut self) -> (res: Option<&[Event]>)
        requires
            old(self).inv(),
        ensures
            final(self).inv(),
            res is None <==> old(self).commands().len() <= old(self).turn_start_len(),
            res is None ==> *final(self) == *old(self),
            res is Some ==> taken_back(*old(self), *final(self)),
            final(self).turn_start_len() == old(self).turn_start_len(),
            final(self).ruleset() == old(self).ruleset(),
            final(self).initial_view() == old(self).initial_view(),
    {
        if !self.can_undo() {
            return None;
        }
        proof {
            assert(self.history@.len() > 0);
        }
        self.log.pop();
        let restored = match self.history.pop() {
            Some(w) => w,
            None => {
                proof {
                    assert(false);
                }
                return None;
            },
        };
        self.world = restored;
        let mut scratch = self.turn_start.snapshot();
        proof {
            lemma_same_world_wf(scratch, self.turn_start);
        }
        let mut sink = EventSink::new();
        let mut i = self.turn_start_index;
        while i < self.log.len()
            invariant
                scratch.wf(),
                self.rules.has_all_profiles(),
                self.turn_start_index <= i <= self.log@.len(),
            decreases self.log@.len() - i,
        {
            if !scratch.has_headroom() {
                break;
            }
            let cmd = self.log[i];
            match apply(&mut scratch, &self.rules, &cmd) {
                Ok(events) => sink.extend(events),
                Err(_) => break,
            }
            i = i + 1;
        }
        self.last_events = sink.into_events();
        Some(self.last_events.as_slice())
    }

    /// Rebuild a match from its start and its command log, after checking
    /// that it was recorded against these balance numbers.
    pub fn replay(initial: World, rules: Ruleset, recorded_ruleset_hash: Option<u64>, commands: &[Command]) -> (res: Result<Session, ReplayError>)
        requires
            initial.wf(),
            rules.has_all_profiles(),
        ensures
            match recorded_ruleset_hash {
                Some(h) => h != ruleset_hash_spec(rules) ==> res == Err::<Session, ReplayError>(
                    ReplayError::RulesetMismatch { recorded: h, current: ruleset_hash_spec(rules) },
                ),
                None => true,
            },
            res matches Err(ReplayError::RulesetMismatch { recorded, current }) ==> recorded_ruleset_hash == Some(recorded)
                && current == ruleset_hash_spec(rules) && recorded != current,
            res matches Ok(s) ==> {
                &&& s.inv()
                &&& s.ruleset() == rules
                &&& same_world(s.initial_view(), initial)
                &&& s.commands().len() <= commands@.len()
                &&& s.commands() == commands@.take(s.commands().len() as int)
                &&& s.commands().len() < commands@.len() ==> !s.current().headroom()
                &&& exists|ws: Seq<World>| match_started(initial, ws[0]) && #[trigger] replayed(rules, ws, s.commands())
                    && ws.last() == s.current()
            },
            res matches Err(ReplayError::Rejected { index, source }) ==> {
                &&& index < commands@.len()
                &&& exists|ws: Seq<World>| match_started(initial, ws[0]) && #[trigger] replayed(rules, ws, commands@.take(index as int))
                    && ws.last().headroom() && validate_spec(ws.last(), rules, commands@[index as int]) == Err::<(), Rejection>(source)
            },
    {
        match recorded_ruleset_hash {
            Some(recorded) => {
                let current = rules.hash();
                if recorded != current {
                    return Err(ReplayError::RulesetMismatch { recorded, current });
                }
            },
            None => {},
        }
        let ghost start = initial;
        let mut session = Session::start(initial, rules);
        let ghost mut ws: Seq<World> = seq![session.current()];
        let mut index: usize = 0;
        while index < commands.len()
            invariant_except_break
                start == initial,
                match recorded_ruleset_hash {
                    Some(h) => h == ruleset_hash_spec(rules),
                    None => true,
                },
                index <= commands@.len(),
                session.inv(),
                session.commands() == commands@.take(index as int),
                session.ruleset() == rules,
                same_world(session.initial_view(), start),
                match_started(start, ws[0]),
                replayed(rules, ws, session.commands()),
                ws.last() == session.current(),
            ensures
                start == initial,
                match recorded_ruleset_hash {
                    Some(h) => h == ruleset_hash_spec(rules),
                    None => true,
                },
                index <= commands@.len(),
                session.inv(),
                session.commands() == commands@.take(index as int),
                session.ruleset() == rules,
                same_world(session.initial_view(), start),
                match_started(start, ws[0]),
                replayed(rules, ws, session.commands()),
                ws.last() == session.current(),
                index < commands@.len() ==> !session.current().headroom(),
            decreases commands@.len() - index,
        {
            if !session.world.has_headroom() {
                break;
            }
            let cmd = commands[index];
            let ghost prev = session;
            match session.record(cmd) {
                Ok(()) => {},
                Err(source) => {
                    proof {
                        assert(commands@.take(index as int) == prev.commands());
                        assert(replayed(rules, ws, commands@.take(index as int)));
                        assert(match_started(initial, ws[0]) && replayed(rules, ws, commands@.take(index as int))
                            && ws.last().headroom() && validate_spec(ws.last(), rules, commands@[index as int])
                            == Err::<(), Rejection>(source));
                    }
                    return Err(ReplayError::Rejected { index, source });
                },
            }
            proof {
                let old_ws = ws;
                ws = ws.push(session.current());
                assert(session.commands() =~= commands@.take(index + 1));
                assert forall|k: int| 0 <= k < session.commands().len() implies
                    validate_spec(ws[k], rules, #[trigger] session.commands()[k]) is Ok
                    && applied(ws[k], ws[k + 1], rules, session.commands()[k]) by {
                    if k < prev.commands().len() {
                        assert(session.commands()[k] == prev.commands()[k]);
                        assert(ws[k] == old_ws[k]);
                        assert(ws[k + 1] == old_ws[k + 1]);
                    }
                }
            }
            index = index + 1;
        }
        Ok(session)
    }

    /// The world the match started from.
    pub fn initial_world(&self) -> (w: &World)
        requires
            self.inv(),
        ensures
            w.wf(),
            *w == self.initial_view(),
    {
        &self.initial
    }
}

/// `ws` is a run of `cmds` under `r`: one world more than commands, and
/// each command accepted by the world before it and applied to make the
/// next.
pub open spec fn replayed(r: Ruleset, ws: Seq<World>, cmds: Seq<Command>) -> bool {
    &&& ws.len() == cmds.len() + 1
    &&& forall|k: int|
        0 <= k < cmds.len() ==> validate_spec(ws[k], r, #[trigger] cmds[k]) is Ok && applied(ws[k], ws[k + 1], r, cmds[k])
}

/// The undo stack holds one world for each command of the current turn.
pub proof fn lemma_undo_depth(s: Session)
    requires
        s.inv(),
    ensures
        s.undo_stack().len() == s.commands().len() - s.turn_start_len(),
        s.turn_start_len() <= s.commands().len(),
{
}

/// `after` executed one command of the turn on `before`, keeping the world
/// it was applied to on top of the undo stack.
pub open spec fn kept_for_undo(before: Session, after: Session) -> bool {
    &&& after.undo_stack().len() == before.undo_stack().len() + 1
    &&& after.undo_stack().drop_last() == before.undo_stack()
    &&& same_world(after.undo_stack().last(), before.current())
}

/// `after` took back the last command of `before`'s turn: the command left
/// the log, and the world it was applied to is the world again.
pub open spec fn taken_back(before: Session, after: Session) -> bool {
    &&& before.undo_stack().len() > 0
    &&& after.commands() == before.commands().drop_last()
    &&& after.undo_stack() == before.undo_stack().drop_last()
    &&& same_world(after.current(), before.undo_stack().last())
}

/// Undo inverts execute: taking back a command executed within a turn puts
/// back exactly the world and the log it was executed on.
pub proof fn lemma_undo_inverts_execute(start: Session, executed: Session, undone: Session, cmd: Command)
    requires
        executed.commands() == start.commands().push(cmd),
        kept_for_undo(start, executed),
        taken_back(executed, undone),
    ensures
        same_world(undone.current(), start.current()),
        undone.commands() == start.commands(),
        undone.undo_stack() == start.undo_stack(),
{
    assert(undone.commands() =~= start.commands());
}

} // verus!
