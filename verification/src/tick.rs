//! The tick orchestrator: once per fixed interval, drain the buffered
//! player commands in arrival order, advance food spawning, advance every
//! snake, and resolve collisions — in that order, as one explicit call
//! sequence.

use vstd::prelude::*;
use crate::protocol::{Command, QuitCmd};
use crate::collision::{collisions_spec, eliminated};
use crate::movement::heads_spec;
use crate::sim::{
    direction_spec, join_spec, teardown_spec, SimModel, SimulationState, FOOD_SPAWN_MS,
    HEAD_MOV_START_MS,
};
use crate::spawner::foods_rel;

verus! {

impl Clone for Command {
    fn clone(&self) -> (r: Self)
        ensures
            r == *self,
    {
        match self {
            Command::Dir(d) => Command::Dir(*d),
            Command::Start(name) => Command::Start(name.clone()),
            Command::Quit => Command::Quit,
        }
    }
}

/// What one buffered command does to the state.
pub open spec fn apply_command_spec(m: SimModel, sid: usize, c: Command) -> SimModel {
    match c {
        Command::Dir(d) => direction_spec(m, sid, d),
        Command::Start(name) => join_spec(m, sid, name),
        Command::Quit => teardown_spec(m, sid),
    }
}

/// The state after draining a whole command buffer in arrival order.
pub open spec fn drain_spec(m: SimModel, cmds: Seq<(usize, Command)>) -> SimModel
    decreases cmds.len(),
{
    if cmds.len() == 0 {
        m
    } else {
        apply_command_spec(drain_spec(m, cmds.drop_last()), cmds.last().0, cmds.last().1)
    }
}

impl SimulationState {
    /// Applies every buffered command, in arrival order, before anything
    /// else of the tick runs — a disconnect drained here is exactly a quit.
    #[verifier::loop_isolation(false)]
    pub fn drain_commands(&mut self, commands: &Vec<(usize, Command)>)
        requires
            old(self).wf(),
        ensures
            final(self).wf(),
            final(self).model() == drain_spec(old(self).model(), commands@),
    {
        let ghost m0 = self.model();
        let mut t: usize = 0;
        while t < commands.len()
            invariant
                t <= commands@.len(),
                self.wf(),
                self.model() == drain_spec(m0, commands@.take(t as int)),
            decreases commands@.len() - t,
        {
            proof {
                assert(commands@.take(t as int + 1).drop_last() =~= commands@.take(t as int));
                assert(commands@.take(t as int + 1).last() == commands@[t as int]);
            }
            let sid = commands[t].0;
            let cmd = commands[t].1.clone();
            match cmd {
                Command::Dir(d) => self.on_direction(sid, d),
                Command::Start(name) => self.on_start(sid, name),
                Command::Quit => self.on_quit(sid),
            }
            t += 1;
        }
        proof {
            assert(commands@.take(commands@.len() as int) =~= commands@);
        }
    }

    /// One full simulation tick of `delta_ms` milliseconds: drain the
    /// command buffer, run the food spawner, move every snake that is due,
    /// then resolve collisions on the settled positions. Returns the
    /// eliminated sessions with their terminal notices. The only freedom
    /// the contract leaves open is the food phase's random cell.
    pub fn tick(&mut self, delta_ms: usize, commands: &Vec<(usize, Command)>) -> (out: Vec<
        (usize, QuitCmd),
    >)
        requires
            old(self).wf(),
            delta_ms <= usize::MAX - FOOD_SPAWN_MS,
            delta_ms <= usize::MAX - HEAD_MOV_START_MS,
        ensures
            final(self).wf(),
            exists|mid: SimModel|
                {
                    let moved = heads_spec(mid, delta_ms, mid.players.len() as int);
                    &&& #[trigger] foods_rel(
                        drain_spec(old(self).model(), commands@),
                        mid,
                        delta_ms,
                    )
                    &&& final(self).model() == collisions_spec(moved)
                    &&& out@.len() == eliminated(moved).len()
                    &&& forall|t: int|
                        0 <= t < out@.len() ==> (#[trigger] out@[t]).0 == eliminated(
                            moved,
                        )[t].session
                },
    {
        self.drain_commands(commands);
        self.update_foods(delta_ms);
        let ghost mid = self.model();
        self.update_heads(delta_ms);
        let out = self.update_collisions();
        proof {
            let moved = heads_spec(mid, delta_ms, mid.players.len() as int);
            assert(foods_rel(drain_spec(old(self).model(), commands@), mid, delta_ms));
            assert(self.model() == collisions_spec(moved));
        }
        out
    }
}

} // verus!
