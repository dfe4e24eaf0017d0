//! The worker behind a running simulation: how it answers commands, when it steps, what
//! it reports, and the bounded buffer of events for the UI.

use std::collections::VecDeque;
use vstd::prelude::*;
use crate::phase::Phase;
use crate::sim::RunConfig;
use crate::surface::RockType;

verus! {

/// Progress events buffered for the UI. When it falls behind, the oldest are dropped.
pub const DEFAULT_EVENT_CAPACITY: usize = 512;

/// Commands to the worker.
#[derive(Clone, Copy, Debug, PartialEq, Eq, Structural)]
pub enum SimCommand {
    /// Run steps until paused or finished.
    Start,
    /// Stop stepping.
    Pause,
    /// Make exactly one step and stay paused.
    StepOnce,
    /// Throw the planet away and build a new one, on a new mesh.
    Regenerate(RunConfig),
    /// Reload the checkpoint written before this phase and run from there.
    RerunFromPhase(Phase, RunConfig),
    /// Exit.
    Shutdown,
}

/// What the worker is doing.
#[derive(Clone, Copy, Debug, PartialEq, Eq, Structural)]
pub enum SimState {
    /// Made or made anew, never started.
    Idle,
    /// Stepping through this phase.
    Running(Phase),
    /// Stopped part-way through this phase.
    Paused(Phase),
    /// Every phase has completed.
    Done,
}

/// How far the worker is.
#[derive(Clone, Copy, Debug, PartialEq, Eq, Structural)]
pub struct SimStatus {
    pub state: SimState,
    /// Elapsed simulated time in millions of years, as a bit pattern.
    pub time_myr: u64,
    /// Steps made.
    pub step_index: u64,
    /// Steps of the whole run.
    pub total_steps: u64,
}

/// The worker's mode.
#[derive(Clone, Copy, Debug, PartialEq, Eq, Structural)]
pub enum Mode {
    Idle,
    Running,
    Paused,
    Done,
}

/// What a command asks of the simulation.
#[derive(Clone, Copy, Debug, PartialEq, Eq, Structural)]
pub enum Reaction {
    /// Nothing.
    Nothing,
    /// Build a mesh for this configuration and start over on it.
    Reset(RunConfig),
    /// Try to run again from this phase.
    Rerun(Phase, RunConfig),
    /// The command is refused: it asks for another mesh level.
    Refuse,
    /// Leave.
    Exit,
}

/// What the worker does next.
#[derive(Clone, Copy, Debug, PartialEq, Eq, Structural)]
pub enum Next {
    /// Handle the commands that have arrived, then step.
    Poll,
    /// Wait for a command.
    Wait,
}

/// The worker's own state.
#[derive(Clone, Copy, Debug, PartialEq, Eq, Structural)]
pub struct Worker {
    pub mode: Mode,
    /// Single steps asked for and not made yet.
    pub pending_steps: u64,
}

impl Worker {
    /// The worker steps on its own or has steps to make.
    pub open spec fn stepping(self) -> bool {
        self.mode == Mode::Running || self.pending_steps > 0
    }

    /// The worker after a command, on a mesh of level `level`, and what the command asks
    /// of the simulation.
    pub open spec fn handled(self, cmd: SimCommand, level: u8) -> (Worker, Reaction) {
        match cmd {
            SimCommand::Start => (
                Worker {
                    mode: if self.mode == Mode::Done {
                        Mode::Done
                    } else {
                        Mode::Running
                    },
                    ..self
                },
                Reaction::Nothing,
            ),
            SimCommand::Pause => (
                Worker {
                    mode: if self.mode == Mode::Running {
                        Mode::Paused
                    } else {
                        self.mode
                    },
                    pending_steps: 0,
                },
                Reaction::Nothing,
            ),
            SimCommand::StepOnce => (
                if self.mode == Mode::Done {
                    self
                } else {
                    Worker {
                        mode: if self.mode == Mode::Running {
                            Mode::Paused
                        } else {
                            self.mode
                        },
                        pending_steps: (self.pending_steps + 1) as u64,
                    }
                },
                Reaction::Nothing,
            ),
            SimCommand::Regenerate(config) => (
                Worker { mode: Mode::Idle, pending_steps: 0 },
                Reaction::Reset(config),
            ),
            SimCommand::RerunFromPhase(phase, config) => (
                self,
                if config.level != level {
                    Reaction::Refuse
                } else {
                    Reaction::Rerun(phase, config)
                },
            ),
            SimCommand::Shutdown => (self, Reaction::Exit),
        }
    }

    /// The worker after a step has been tried; `stepped` tells whether there was one to make.
    pub open spec fn tried(self, stepped: bool) -> Worker {
        if stepped {
            Worker {
                pending_steps: if self.pending_steps > 0 {
                    (self.pending_steps - 1) as u64
                } else {
                    0
                },
                ..self
            }
        } else {
            Worker { mode: Mode::Done, pending_steps: 0 }
        }
    }

    /// What the worker reports, by the phase that the run is in.
    pub open spec fn reported(self, phase: Option<Phase>) -> SimState {
        match phase {
            None => SimState::Done,
            Some(p) => match self.mode {
                Mode::Idle => SimState::Idle,
                Mode::Running => SimState::Running(p),
                Mode::Paused => SimState::Paused(p),
                Mode::Done => SimState::Done,
            },
        }
    }

    /// The worker after `n` steps that were there to make, as long as it steps.
    pub open spec fn worked(self, n: nat) -> Worker
        decreases n,
    {
        if n == 0 || !self.stepping() {
            self
        } else {
            self.tried(true).worked((n - 1) as nat)
        }
    }

    /// A worker for a run that may be finished already.
    pub fn new(finished: bool) -> (w: Worker)
        ensures
            w.mode == (if finished {
                Mode::Done
            } else {
                Mode::Idle
            }),
            w.pending_steps == 0,
    {
        Worker {
            mode: if finished {
                Mode::Done
            } else {
                Mode::Idle
            },
            pending_steps: 0,
        }
    }

    /// Whether to poll for commands and step, or to wait for one.
    pub fn next(&self) -> (n: Next)
        ensures
            n == (if self.stepping() {
                Next::Poll
            } else {
                Next::Wait
            }),
    {
        if self.mode == Mode::Running || self.pending_steps > 0 {
            Next::Poll
        } else {
            Next::Wait
        }
    }

    /// Handles a command.
    pub fn handle(&mut self, cmd: SimCommand, level: u8) -> (r: Reaction)
        requires
            old(self).pending_steps < u64::MAX,
        ensures
            (*final(self), r) == old(self).handled(cmd, level),
    {
        match cmd {
            SimCommand::Start => {
                if self.mode != Mode::Done {
                    self.mode = Mode::Running;
                }
                Reaction::Nothing
            },
            SimCommand::Pause => {
                self.pending_steps = 0;
                if self.mode == Mode::Running {
                    self.mode = Mode::Paused;
                }
                Reaction::Nothing
            },
            SimCommand::StepOnce => {
                if self.mode != Mode::Done {
                    if self.mode == Mode::Running {
                        self.mode = Mode::Paused;
                    }
                    self.pending_steps = self.pending_steps + 1;
                }
                Reaction::Nothing
            },
            SimCommand::Regenerate(config) => {
                self.mode = Mode::Idle;
                self.pending_steps = 0;
                Reaction::Reset(config)
            },
            SimCommand::RerunFromPhase(phase, config) => {
                if config.level != level {
                    Reaction::Refuse
                } else {
                    Reaction::Rerun(phase, config)
                }
            },
            SimCommand::Shutdown => Reaction::Exit,
        }
    }

    /// A rerun has been tried. One that failed leaves the worker alone.
    pub fn rerun_tried(&mut self, ok: bool)
        ensures
            *final(self) == (if ok {
                (Worker { mode: Mode::Idle, pending_steps: 0 })
            } else {
                *old(self)
            }),
    {
        if ok {
            self.mode = Mode::Idle;
            self.pending_steps = 0;
        }
    }

    /// A step has been tried; `stepped` tells whether there was one to make.
    pub fn step_tried(&mut self, stepped: bool)
        ensures
            *final(self) == old(self).tried(stepped),
    {
        if stepped {
            if self.pending_steps > 0 {
                self.pending_steps = self.pending_steps - 1;
            }
        } else {
            self.mode = Mode::Done;
            self.pending_steps = 0;
        }
    }

    /// What the worker reports. A run without a phase left is done, whatever its mode.
    pub fn state(&self, phase: Option<Phase>) -> (s: SimState)
        ensures
            s == self.reported(phase),
    {
        match phase {
            None => SimState::Done,
            Some(p) => match self.mode {
                Mode::Idle => SimState::Idle,
                Mode::Running => SimState::Running(p),
                Mode::Paused => SimState::Paused(p),
                Mode::Done => SimState::Done,
            },
        }
    }
}

/// Asking for one step makes a worker step once and then wait, whether it was idle, paused or
/// running. One that was not running is then as it was; one that was running is paused.
pub proof fn step_once_makes_exactly_one_step(w: Worker, level: u8)
    requires
        w.mode != Mode::Done,
        w.pending_steps == 0,
    ensures
        ({
            let asked = w.handled(SimCommand::StepOnce, level).0;
            let after = asked.tried(true);
            &&& asked.stepping()
            &&& !after.stepping()
            &&& after.pending_steps == 0
            &&& after.mode == (if w.mode == Mode::Running {
                Mode::Paused
            } else {
                w.mode
            })
        }),
{
}

/// Steps asked for add up: with `k` steps still to make, one more is made before the worker
/// waits, however long it is left alone, and not one step less.
pub proof fn every_step_asked_for_is_made(w: Worker, level: u8, n: nat)
    requires
        w.mode != Mode::Done,
        w.pending_steps < u64::MAX,
    ensures
        ({
            let asked = w.handled(SimCommand::StepOnce, level).0;
            &&& n <= w.pending_steps ==> asked.worked(n).stepping()
            &&& n > w.pending_steps ==> !asked.worked(n).stepping()
        }),
{
    let asked = w.handled(SimCommand::StepOnce, level).0;
    lemma_pending_steps(asked, n);
}

proof fn lemma_pending_steps(w: Worker, n: nat)
    requires
        w.mode != Mode::Running,
    ensures
        w.worked(n).mode == w.mode,
        w.worked(n).pending_steps == (if n <= w.pending_steps {
            w.pending_steps - n
        } else {
            0
        }),
    decreases n,
{
    if n > 0 && w.stepping() {
        lemma_pending_steps(w.tried(true), (n - 1) as nat);
    }
}

/// A started worker goes on by itself: every step that is there to make leaves it stepping, and
/// the first that is not ends it.
pub proof fn a_started_worker_runs_to_the_end(w: Worker, level: u8, n: nat)
    requires
        w.mode != Mode::Done,
    ensures
        ({
            let started = w.handled(SimCommand::Start, level).0;
            &&& started.mode == Mode::Running
            &&& started.worked(n).stepping()
            &&& started.worked(n).mode == Mode::Running
            &&& started.worked(n).tried(false).mode == Mode::Done
            &&& !started.worked(n).tried(false).stepping()
        }),
{
    lemma_running_stays(w.handled(SimCommand::Start, level).0, n);
}

proof fn lemma_running_stays(w: Worker, n: nat)
    requires
        w.mode == Mode::Running,
    ensures
        w.worked(n).mode == Mode::Running,
    decreases n,
{
    if n > 0 {
        lemma_running_stays(w.tried(true), (n - 1) as nat);
    }
}

/// What a command asks of the simulation: a new planet with the configuration that the user
/// gave, a rerun on the mesh at hand only, and an exit. Nothing else reaches the simulation, and
/// a rerun leaves the worker as it is until it has been tried.
pub proof fn commands_ask_what_they_say(w: Worker, cmd: SimCommand, level: u8)
    ensures
        w.handled(cmd, level).1 == Reaction::Exit <==> cmd == SimCommand::Shutdown,
        w.handled(cmd, level).1 is Reset <==> cmd is Regenerate,
        w.handled(cmd, level).1 matches Reaction::Reset(config) ==> cmd == SimCommand::Regenerate(
            config,
        ),
        w.handled(cmd, level).1 is Rerun <==> cmd is RerunFromPhase && (
        cmd->RerunFromPhase_1).level == level,
        w.handled(cmd, level).1 matches Reaction::Rerun(p, config) ==> cmd
            == SimCommand::RerunFromPhase(p, config),
        w.handled(cmd, level).1 == Reaction::Refuse <==> cmd is RerunFromPhase && (
        cmd->RerunFromPhase_1).level != level,
        cmd is RerunFromPhase || cmd is Shutdown ==> w.handled(cmd, level).0 == w,
        cmd is Regenerate ==> !w.handled(cmd, level).0.stepping() && w.handled(cmd, level).0.mode
            == Mode::Idle,
{
}

/// A report says that a run is done exactly where it has no phase left or its worker is done,
/// and otherwise names the phase that it is in; only a worker that runs by itself is reported
/// running.
pub proof fn reports_are_true(w: Worker, phase: Option<Phase>)
    ensures
        w.reported(phase) == SimState::Done <==> phase is None || w.mode == Mode::Done,
        w.reported(phase) is Running <==> w.mode == Mode::Running && phase is Some,
        w.reported(phase) is Paused <==> w.mode == Mode::Paused && phase is Some,
        w.reported(phase) matches SimState::Running(p) ==> phase == Some(p),
        w.reported(phase) matches SimState::Paused(p) ==> phase == Some(p),
{
}

/// A pause stops a worker whatever it was doing, and leaves one that was not running as
/// it was.
pub proof fn a_pause_stops(w: Worker, level: u8)
    ensures
        !w.handled(SimCommand::Pause, level).0.stepping(),
        w.mode != Mode::Running ==> w.handled(SimCommand::Pause, level).0.mode == w.mode,
{
}

/// A finished worker stays finished until the planet is made anew: starting it or asking
/// for a step changes nothing.
pub proof fn done_stays_done(w: Worker, level: u8)
    requires
        w.mode == Mode::Done,
    ensures
        w.handled(SimCommand::Start, level).0 == w,
        w.handled(SimCommand::StepOnce, level).0 == w,
        forall|config: RunConfig|
            (#[trigger] w.handled(SimCommand::Regenerate(config), level)).0.mode == Mode::Idle,
{
}

/// Bounded buffer of events that drops the oldest.
pub struct EventRing<T> {
    cap: usize,
    queue: VecDeque<T>,
    dropped: u64,
}

impl<T> EventRing<T> {
    /// Most events the buffer holds.
    pub closed spec fn capacity(&self) -> nat {
        self.cap as nat
    }

    /// The events, oldest first.
    pub closed spec fn events(&self) -> Seq<T> {
        self.queue@
    }

    /// How many events were dropped.
    pub closed spec fn lost(&self) -> u64 {
        self.dropped
    }

    /// There is room for an event, and never more are held than there is room for.
    pub open spec fn wf(&self) -> bool {
        self.capacity() >= 1 && self.events().len() <= self.capacity()
    }

    /// An empty buffer with room for `cap` events, for one at least.
    pub fn new(cap: usize) -> (r: EventRing<T>)
        ensures
            r.wf(),
            r.capacity() == (if cap > 1 {
                cap
            } else {
                1
            }),
            r.events().len() == 0,
            r.lost() == 0,
    {
        let cap: usize = if cap > 1 {
            cap
        } else {
            1
        };
        EventRing { cap, queue: VecDeque::new(), dropped: 0 }
    }

    /// Adds an event; drops the oldest where there is no room.
    pub fn push(&mut self, ev: T)
        requires
            old(self).wf(),
            old(self).lost() < u64::MAX,
        ensures
            final(self).wf(),
            final(self).capacity() == old(self).capacity(),
            (final(self).events(), final(self).lost() as nat) == ring_push(
                old(self).capacity(),
                old(self).events(),
                old(self).lost() as nat,
                ev,
            ),
    {
        let ghost before = self.queue@;
        if self.queue.len() == self.cap {
            let _ = self.queue.pop_front();
            self.dropped = self.dropped + 1;
            assert(self.queue@ =~= before.drop_first());
        }
        self.queue.push_back(ev);
    }

    /// Takes every event out, oldest first.
    pub fn drain(&mut self) -> (out: Vec<T>)
        requires
            old(self).wf(),
        ensures
            out@ == old(self).events(),
            final(self).events().len() == 0,
            final(self).capacity() == old(self).capacity(),
            final(self).lost() == old(self).lost(),
            final(self).wf(),
    {
        let ghost all = self.queue@;
        let mut out: Vec<T> = Vec::new();
        assert(out@ + self.queue@ =~= all);
        while self.queue.len() > 0
            invariant
                out@ + self.queue@ == all,
                self.cap == old(self).cap,
                self.dropped == old(self).dropped,
                all == old(self).queue@,
                self.cap >= 1,
            decreases self.queue@.len(),
        {
            let ghost q = self.queue@;
            let ghost o = out@;
            match self.queue.pop_front() {
                Some(ev) => {
                    out.push(ev);
                    assert(out@ + self.queue@ =~= o + q);
                },
                None => {},
            }
        }
        assert(out@ =~= all);
        out
    }

    /// How many events were dropped.
    pub fn dropped(&self) -> (n: u64)
        ensures
            n == self.lost(),
    {
        self.dropped
    }
}

/// What a buffer of `cap` events holds after one more, and how many it has lost by then.
pub open spec fn ring_push<T>(cap: nat, held: Seq<T>, lost: nat, ev: T) -> (Seq<T>, nat) {
    if held.len() == cap {
        (held.drop_first().push(ev), lost + 1)
    } else {
        (held.push(ev), lost)
    }
}

/// What a buffer of `cap` events holds after `pushed`, from empty, and how many it lost.
pub open spec fn ring_after<T>(cap: nat, pushed: Seq<T>) -> (Seq<T>, nat)
    decreases pushed.len(),
{
    if pushed.len() == 0 {
        (Seq::empty(), 0)
    } else {
        let (held, lost) = ring_after(cap, pushed.drop_last());
        ring_push(cap, held, lost, pushed.last())
    }
}

/// The buffer holds the newest events, in order, and counts every one that it lost.
pub proof fn the_ring_keeps_the_newest<T>(cap: nat, pushed: Seq<T>)
    requires
        cap >= 1,
    ensures
        ring_after(cap, pushed).0.len() == (if pushed.len() < cap {
            pushed.len()
        } else {
            cap
        }),
        ring_after(cap, pushed).0 == pushed.skip(
            pushed.len() - ring_after(cap, pushed).0.len(),
        ),
        ring_after(cap, pushed).1 + ring_after(cap, pushed).0.len() == pushed.len(),
    decreases pushed.len(),
{
    if pushed.len() > 0 {
        the_ring_keeps_the_newest(cap, pushed.drop_last());
        let held = ring_after(cap, pushed).0;
        assert(held =~= pushed.skip(pushed.len() - held.len()));
    } else {
        assert(ring_after(cap, pushed).0 =~= pushed.skip(0));
    }
}

/// One layer of a rock column.
#[derive(Clone, Copy, Debug, PartialEq, Eq, Structural)]
pub struct Stratum {
    pub rock: RockType,
    /// Thickness in metres, as a bit pattern.
    pub thickness_m: u32,
    /// When it was laid down, in millions of years, as a bit pattern.
    pub deposited_myr: u32,
}

/// The rock column of a cell, bottom to top; empty for a cell that does not exist.
pub fn column_of(columns: &[Vec<Stratum>], cell: u32) -> (col: Vec<Stratum>)
    ensures
        col@ == (if cell < columns@.len() {
            columns@[cell as int]@
        } else {
            Seq::empty()
        }),
{
    let mut col: Vec<Stratum> = Vec::new();
    if (cell as usize) < columns.len() {
        let from = &columns[cell as usize];
        let mut i: usize = 0;
        while i < from.len()
            invariant
                i <= from@.len(),
                col@ == from@.take(i as int),
            decreases from@.len() - i,
        {
            col.push(from[i]);
            i = i + 1;
            assert(col@ =~= from@.take(i as int));
        }
        assert(col@ =~= from@);
    }
    col
}

} // verus!
