//! Random play on a four-colour arena: the engine behind the `play` and
//! `fuzz` tools.

use crate::apply::{legal_commands, validate_spec};
use crate::builder::WorldBuilder;
use crate::command::{Command, Rejection};
use crate::ids::Faction;
use crate::invariants::{check, sound, Violation};
use crate::rng::Rng;
use crate::rules::TileKind;
use crate::session::Session;
use crate::topo;
use vstd::prelude::*;

verus! {

/// Why random play stopped early.
#[derive(Debug)]
pub enum PlayoutError {
    /// The world ran out of fresh ids before step `step`.
    IdsExhausted { seed: u64, step: usize },
    /// A command listed as legal was refused.
    Refused { seed: u64, step: usize, command: Command, reason: Rejection },
    /// The command of step `step` left the world unsound.
    Unsound { seed: u64, step: usize, command: Command, violations: Vec<Violation> },
}

/// Four factions on an 8×8 board, one capital each in a corner and some
/// forest between them; a bounded hex grid on even seeds and a wrapping
/// torus on odd ones.
pub fn arena(seed: u64) -> (s: Session)
    ensures
        s.inv(),
        s.current().seed == seed,
        s.current().players@.len() == 4,
        s.commands().len() == 0,
{
    let topology = if seed % 2 == 0 {
        topo::hex_grid(8, 8)
    } else {
        topo::torus(8, 8)
    };
    let b = WorldBuilder::new(topology).seed(seed).all_land();
    let b = b.player(Faction::Red).player(Faction::Yellow).player(Faction::Green).player(Faction::Blue);
    let b = b.own(Faction::Red, &[0]).capital(0);
    let b = b.own(Faction::Yellow, &[7]).capital(7);
    let b = b.own(Faction::Green, &[56]).capital(56);
    let b = b.own(Faction::Blue, &[63]).capital(63);
    let b = b.kinds(&[18, 19, 27, 36, 44, 45], TileKind::Forest);
    b.session()
}

/// Play the arena of `seed` with uniformly random legal commands until the
/// match ends, no command is legal or `steps` commands have been played.
/// A listed command is never refused; with `check_each_step` every command
/// is followed by a soundness check, and play stops on the first failure.
pub fn play_out(seed: u64, steps: usize, check_each_step: bool) -> (res: Result<Session, PlayoutError>)
    ensures
        !(res matches Err(PlayoutError::Refused { .. })),
        res matches Err(PlayoutError::Unsound { seed: s, step, violations, .. }) ==> check_each_step && s == seed
            && step < steps && violations@.len() > 0,
        res matches Err(PlayoutError::IdsExhausted { seed: s, step }) ==> s == seed && step < steps,
        res matches Ok(s) ==> {
            &&& s.inv()
            &&& s.commands().len() <= steps
            &&& s.commands().len() < steps ==> s.current().outcome is Some || forall|c: Command|
                validate_spec(s.current(), s.ruleset(), c) is Err
            &&& check_each_step && s.commands().len() > 0 ==> sound(s.current())
        },
{
    let mut session = arena(seed);
    let mut rng = Rng::seed_from_u64(seed ^ 0x9e37_79b9u64);
    let mut step: usize = 0;
    while step < steps
        invariant
            session.inv(),
            step <= steps,
            session.commands().len() == step,
            check_each_step && step > 0 ==> sound(session.current()),
        decreases steps - step,
    {
        if session.world().is_over() {
            return Ok(session);
        }
        if !session.world().has_headroom() {
            return Err(PlayoutError::IdsExhausted { seed, step });
        }
        let options = legal_commands(session.world(), session.rules());
        let cmd = match rng.pick(options.as_slice()) {
            Some(c) => *c,
            None => {
                proof {
                    assert forall|c: Command| validate_spec(session.current(), session.ruleset(), c) is Err by {
                        if validate_spec(session.current(), session.ruleset(), c) is Ok {
                            assert(options@.contains(c));
                        }
                    }
                }
                return Ok(session);
            },
        };
        proof {
            assert(options@.contains(cmd));
        }
        match session.execute(cmd) {
            Ok(_) => {},
            Err(reason) => {
                return Err(PlayoutError::Refused { seed, step, command: cmd, reason });
            },
        }
        if check_each_step {
            let violations = check(session.world());
            if violations.len() > 0 {
                return Err(PlayoutError::Unsound { seed, step, command: cmd, violations });
            }
        }
        step = step + 1;
    }
    Ok(session)
}

} // verus!
