//! The orchestrator: what a run announces, saves and publishes, and when.

use vstd::prelude::*;
use crate::phase::{
    a_step_count_names_one_place, index_of, lemma_before_mono, lemma_skip, phase_at, skip_empty,
    stands_at, the_end, Cursor, Phase, Schedule, PHASES,
};

verus! {

/// Snapshots are published no more often than every so many steps.
pub const DEFAULT_PUBLISH_STEPS: u64 = 25;

/// ...and no more often than this, in milliseconds.
pub const DEFAULT_PUBLISH_INTERVAL_MS: u64 = 250;

/// A narration line every so many steps, besides those at phase boundaries.
pub const NARRATE_EVERY_STEPS: u64 = 20;

/// About how many step reports a phase makes.
pub const STEP_EVENTS_PER_PHASE: u64 = 200;

/// What a run is configured with, as far as the schedule goes.
#[derive(Clone, Copy, Debug, PartialEq, Eq, Structural)]
pub struct RunConfig {
    /// Steps of each phase.
    pub schedule: Schedule,
    /// Number of cells asked for.
    pub cell_budget: u32,
    /// Subdivision level of the mesh.
    pub level: u8,
}

/// What the orchestrator needs to know of a stored planet.
#[derive(Clone, Copy, Debug, PartialEq, Eq, Structural)]
pub struct Saved {
    /// Steps the planet has made.
    pub step_index: u64,
    /// Its number of cells.
    pub cells: usize,
    /// Number of mesh generators stored with it; zero if it has none.
    pub generators: usize,
    /// What it was configured with.
    pub config: RunConfig,
    /// The phase it was in.
    pub phase: Phase,
}

/// Why a run could not be taken up.
#[derive(Clone, Copy, Debug, PartialEq, Eq, Structural)]
pub enum ResumeError {
    /// The checkpoint written when this phase completed is not there.
    MissingCheckpoint(Phase),
    /// The planet and the mesh have different numbers of cells.
    CellMismatch { planet: usize, mesh: usize },
    /// The number of cells asked for has changed.
    BudgetChanged { from: u32, to: u32 },
    /// The subdivision level of the mesh has changed.
    LevelChanged { had: u8, wanted: u8 },
}

/// What a run does besides stepping, in order.
#[derive(Clone, Copy, Debug, PartialEq, Eq, Structural)]
pub enum SimEvent {
    /// A phase begins.
    PhaseStarted(Phase),
    /// A narration line for this phase is due.
    Narration(Phase),
    /// A snapshot with this version is due.
    Publish(u64),
    /// A report of the step just made.
    Step { phase: Phase, step: u64, of: u64 },
    /// The mesh is to be rebuilt for the coming phase.
    Retessellate { epoch: u64 },
    /// The planet is to be saved under this phase's tag.
    Checkpoint(Phase),
    /// A phase is complete.
    PhaseCompleted(Phase),
}

/// The schedule side of a simulation.
#[derive(Clone, Copy, Debug, PartialEq, Eq, Structural)]
pub struct Simulation {
    pub config: RunConfig,
    pub cursor: Cursor,
    /// Steps made so far.
    pub step_index: u64,
    /// The phase the planet is in.
    pub phase: Phase,
    /// Number of cells of the mesh.
    pub mesh_cells: usize,
    /// Whether the mesh was built from generators, and so can be rebuilt.
    pub mesh_adapts: bool,
    /// Version of the last snapshot.
    pub version: u64,
    /// Steps between snapshots.
    pub publish_steps: u64,
    /// Step at which the last snapshot was taken.
    pub last_publish_step: u64,
}

/// The start of the schedule, past phases without steps.
pub open spec fn first_place(s: Schedule) -> Cursor {
    Cursor { phase_idx: skip_empty(s, 0) as usize, step_in_phase: 0 }
}

/// Whether the step just made is reported.
pub open spec fn is_reported(step: u64, of: u64) -> bool {
    let every = if of / STEP_EVENTS_PER_PHASE > 1 {
        of / STEP_EVENTS_PER_PHASE
    } else {
        1
    };
    step % every == 0 || step == of
}

impl Simulation {
    /// The schedule can be counted, and the cursor names a phase that goes on, or the
    /// end.
    pub open spec fn wf(self) -> bool {
        &&& self.config.schedule.wf()
        &&& self.publish_steps >= 1
        &&& self.cursor.phase_idx <= PHASES
        &&& self.cursor.phase_idx < PHASES ==> self.cursor.step_in_phase
            < self.config.schedule.steps_at(self.cursor.phase_idx as int)
        &&& self.cursor.phase_idx == PHASES ==> self.cursor.step_in_phase == 0
    }

    /// A snapshot has been taken.
    pub open spec fn published(self) -> Simulation {
        Simulation {
            version: (self.version + 1) as u64,
            last_publish_step: self.step_index,
            ..self
        }
    }

    /// What is done before a step of phase `p`.
    pub open spec fn begun(self, p: Phase) -> (Simulation, Seq<SimEvent>) {
        if self.cursor.step_in_phase == 0 {
            (
                Simulation { phase: p, ..self }.published(),
                seq![
                    SimEvent::PhaseStarted(p),
                    SimEvent::Narration(p),
                    SimEvent::Publish((self.version + 1) as u64),
                ],
            )
        } else {
            (self, Seq::empty())
        }
    }

    /// The step is counted.
    pub open spec fn counted(self) -> Simulation {
        Simulation {
            step_index: (self.step_index + 1) as u64,
            cursor: Cursor {
                step_in_phase: (self.cursor.step_in_phase + 1) as u64,
                ..self.cursor
            },
            ..self
        }
    }

    /// Report, narration and snapshot after a step of phase `p`. `elapsed` tells whether
    /// enough time has passed since the last snapshot.
    pub open spec fn reported(self, p: Phase, elapsed: bool) -> (Simulation, Seq<SimEvent>) {
        let step = self.cursor.step_in_phase;
        let of = self.config.schedule.steps(p) as u64;
        let report = if is_reported(step, of) {
            seq![SimEvent::Step { phase: p, step, of }]
        } else {
            Seq::empty()
        };
        let told = if self.step_index % NARRATE_EVERY_STEPS == 0 {
            report.push(SimEvent::Narration(p))
        } else {
            report
        };
        if self.step_index - self.last_publish_step >= self.publish_steps && elapsed {
            (self.published(), told.push(SimEvent::Publish((self.version + 1) as u64)))
        } else {
            (self, told)
        }
    }

    /// What is done when phase `p` is complete: the mesh is rebuilt if another phase
    /// follows, the planet saved, and the schedule moves on.
    pub open spec fn completed(self, p: Phase) -> (Simulation, Seq<SimEvent>) {
        let rebuild = if phase_at(index_of(p) + 1) is Some && self.mesh_adapts {
            seq![SimEvent::Retessellate { epoch: (index_of(p) + 1) as u64 }]
        } else {
            Seq::empty()
        };
        (
            Simulation {
                phase: p,
                cursor: Cursor {
                    phase_idx: skip_empty(
                        self.config.schedule,
                        self.cursor.phase_idx + 1,
                    ) as usize,
                    step_in_phase: 0,
                },
                ..self
            }.published(),
            rebuild + seq![
                SimEvent::Checkpoint(p),
                SimEvent::PhaseCompleted(p),
                SimEvent::Narration(p),
                SimEvent::Publish((self.version + 1) as u64),
            ],
        )
    }

    /// What is done after a step of phase `p`.
    pub open spec fn ended(self, p: Phase, elapsed: bool) -> (Simulation, Seq<SimEvent>) {
        let (told, events) = self.counted().reported(p, elapsed);
        if told.cursor.step_in_phase >= self.config.schedule.steps(p) {
            let (done, more) = told.completed(p);
            (done, events + more)
        } else {
            (told, events)
        }
    }

    /// A new planet with this configuration, on a mesh of `cells` cells.
    pub open spec fn restarted(self, config: RunConfig, cells: usize, adapts: bool) -> Simulation {
        Simulation {
            config,
            cursor: first_place(config.schedule),
            step_index: 0,
            phase: Phase::CrustalFormation,
            mesh_cells: cells,
            mesh_adapts: adapts,
            ..self
        }.published()
    }

    /// Why `phase` cannot be run again with `config` from `saved`, if it cannot.
    pub open spec fn rerun_refused(
        self,
        phase: Phase,
        config: RunConfig,
        saved: Option<Saved>,
    ) -> Option<ResumeError> {
        match phase_at(index_of(phase) - 1) {
            None => None,
            Some(prev) => match saved {
                None => Some(ResumeError::MissingCheckpoint(prev)),
                Some(s) => if s.cells != self.mesh_cells {
                    Some(ResumeError::CellMismatch { planet: s.cells, mesh: self.mesh_cells })
                } else if s.config.cell_budget != config.cell_budget {
                    Some(
                        ResumeError::BudgetChanged {
                            from: s.config.cell_budget,
                            to: config.cell_budget,
                        },
                    )
                } else if s.config.level != config.level {
                    Some(ResumeError::LevelChanged { had: s.config.level, wanted: config.level })
                } else {
                    None
                },
            },
        }
    }

    /// The run that makes `phase` and everything after it again.
    pub open spec fn rerun(self, phase: Phase, config: RunConfig, saved: Option<Saved>) -> Simulation {
        match (phase_at(index_of(phase) - 1), saved) {
            (Some(_), Some(s)) => (Simulation {
                config,
                phase,
                step_index: s.step_index,
                cursor: Cursor {
                    phase_idx: skip_empty(config.schedule, index_of(phase)) as usize,
                    step_in_phase: 0,
                },
                ..self
            }).published(),
            _ => self.restarted(config, self.mesh_cells, self.mesh_adapts),
        }
    }

    /// A fresh run. Nothing is published before the first step.
    pub fn new(config: RunConfig, cells: usize, adapts: bool) -> (sim: Simulation)
        requires
            config.schedule.wf(),
        ensures
            sim.wf(),
            sim.config == config,
            sim.cursor == first_place(config.schedule),
            sim.step_index == 0,
            sim.phase == Phase::CrustalFormation,
            sim.mesh_cells == cells,
            sim.mesh_adapts == adapts,
            sim.version == 0,
            sim.publish_steps == DEFAULT_PUBLISH_STEPS,
            sim.last_publish_step == 0,
    {
        let cursor = Cursor::start().normalized(&config.schedule);
        proof {
            lemma_skip(config.schedule, 0);
        }
        Simulation {
            config,
            cursor,
            step_index: 0,
            phase: Phase::CrustalFormation,
            mesh_cells: cells,
            mesh_adapts: adapts,
            version: 0,
            publish_steps: DEFAULT_PUBLISH_STEPS,
            last_publish_step: 0,
        }
    }

    /// The phase that is being stepped, none once the run is finished.
    pub fn current_phase(&self) -> (p: Option<Phase>)
        ensures
            p == phase_at(self.cursor.phase_idx as int),
    {
        self.cursor.phase()
    }

    /// Whether every phase has run to completion.
    pub fn is_done(&self) -> (b: bool)
        ensures
            b == (phase_at(self.cursor.phase_idx as int) is None),
    {
        self.cursor.phase().is_none()
    }

    /// Steps in the whole run.
    pub fn total_steps(&self) -> (n: u64)
        requires
            self.wf(),
        ensures
            n == self.config.schedule.total(),
    {
        self.config.schedule.total_steps()
    }

    /// Sets how many steps lie at least between snapshots: never less than one.
    pub fn set_publish_throttle(&mut self, steps: u64)
        ensures
            *final(self) == (Simulation {
                publish_steps: if steps > 1 {
                    steps
                } else {
                    1
                },
                ..*old(self)
            }),
    {
        self.publish_steps = if steps > 1 {
            steps
        } else {
            1
        };
    }

    /// Takes a snapshot.
    fn publish(&mut self) -> (e: SimEvent)
        requires
            old(self).version < u64::MAX,
        ensures
            *final(self) == old(self).published(),
            e == SimEvent::Publish((old(self).version + 1) as u64),
    {
        self.version = self.version + 1;
        self.last_publish_step = self.step_index;
        SimEvent::Publish(self.version)
    }

    /// Begins a step: names the phase to step and what is to be done first; none once
    /// the run is finished.
    pub fn begin_step(&mut self) -> (r: Option<(Phase, Vec<SimEvent>)>)
        requires
            old(self).wf(),
            old(self).version < u64::MAX,
        ensures
            r is None <==> phase_at(old(self).cursor.phase_idx as int) is None,
            r is None ==> *final(self) == *old(self),
            r matches Some((p, events)) ==> phase_at(old(self).cursor.phase_idx as int) == Some(p)
                && (*final(self), events@) == old(self).begun(p),
            final(self).wf(),
    {
        let p = match self.cursor.phase() {
            Some(p) => p,
            None => {
                return None;
            },
        };
        let mut events: Vec<SimEvent> = Vec::new();
        if self.cursor.step_in_phase == 0 {
            self.phase = p;
            events.push(SimEvent::PhaseStarted(p));
            events.push(SimEvent::Narration(p));
            let e = self.publish();
            events.push(e);
        }
        assert(events@ =~= old(self).begun(p).1);
        Some((p, events))
    }

    /// Ends the step that [`Simulation::begin_step`] began, once the processes have run.
    /// Returns what is to be done, in order.
    pub fn end_step(&mut self, elapsed: bool) -> (events: Vec<SimEvent>)
        requires
            old(self).wf(),
            old(self).cursor.phase_idx < PHASES,
            old(self).step_index < u64::MAX,
            old(self).version < u64::MAX - 1,
        ensures
            final(self).wf(),
            phase_at(old(self).cursor.phase_idx as int) matches Some(p) && (
                *final(self),
                events@,
            ) == old(self).ended(p, elapsed),
    {
        let ghost before = *self;
        let p = match self.cursor.phase() {
            Some(p) => p,
            None => Phase::RecentPast,
        };
        self.step_index = self.step_index + 1;
        self.cursor.step_in_phase = self.cursor.step_in_phase + 1;
        assert(*self == before.counted());
        let mut events = self.report(p, elapsed);
        let ghost told = *self;
        let ghost first = events@;
        if self.cursor.step_in_phase >= self.config.schedule.steps_in(p) {
            let mut more = self.complete(p);
            events.append(&mut more);
            assert(events@ =~= first + told.completed(p).1);
        }
        events
    }

    /// Reports a step of phase `p`, narrates, and publishes where both are due.
    fn report(&mut self, p: Phase, elapsed: bool) -> (events: Vec<SimEvent>)
        requires
            old(self).version < u64::MAX,
        ensures
            (*final(self), events@) == old(self).reported(p, elapsed),
    {
        let ghost before = *self;
        let of = self.config.schedule.steps_in(p);
        let step = self.cursor.step_in_phase;
        let mut events: Vec<SimEvent> = Vec::new();
        let every: u64 = if of / STEP_EVENTS_PER_PHASE > 1 {
            of / STEP_EVENTS_PER_PHASE
        } else {
            1
        };
        if step % every == 0 || step == of {
            events.push(SimEvent::Step { phase: p, step, of });
        }
        if self.step_index % NARRATE_EVERY_STEPS == 0 {
            events.push(SimEvent::Narration(p));
        }
        let since: u64 = if self.step_index >= self.last_publish_step {
            self.step_index - self.last_publish_step
        } else {
            0
        };
        if self.step_index >= self.last_publish_step && since >= self.publish_steps && elapsed {
            let e = self.publish();
            events.push(e);
        }
        assert(events@ =~= before.reported(p, elapsed).1);
        events
    }

    /// Completes phase `p` and moves the schedule on.
    fn complete(&mut self, p: Phase) -> (events: Vec<SimEvent>)
        requires
            old(self).version < u64::MAX,
            old(self).cursor.phase_idx < PHASES,
        ensures
            (*final(self), events@) == old(self).completed(p),
            final(self).cursor.phase_idx <= PHASES,
            final(self).cursor.step_in_phase == 0,
            final(self).cursor.phase_idx < PHASES ==> final(self).config.schedule.steps_at(
                final(self).cursor.phase_idx as int,
            ) > 0,
    {
        let ghost before = *self;
        let mut events: Vec<SimEvent> = Vec::new();
        self.phase = p;
        if p.next().is_some() && self.mesh_adapts {
            events.push(SimEvent::Retessellate { epoch: p.index() as u64 + 1 });
        }
        events.push(SimEvent::Checkpoint(p));
        events.push(SimEvent::PhaseCompleted(p));
        events.push(SimEvent::Narration(p));
        let e = self.publish();
        events.push(e);
        proof {
            lemma_skip(self.config.schedule, self.cursor.phase_idx + 1);
        }
        self.cursor = Cursor {
            phase_idx: self.cursor.phase_idx + 1,
            step_in_phase: 0,
        }.normalized(&self.config.schedule);
        assert(events@ =~= before.completed(p).1);
        events
    }

    /// Throws the planet away and starts over. Snapshot versions go on counting.
    pub fn reset(&mut self, config: RunConfig, cells: usize, adapts: bool) -> (e: SimEvent)
        requires
            config.schedule.wf(),
            old(self).version < u64::MAX,
            old(self).publish_steps >= 1,
        ensures
            *final(self) == old(self).restarted(config, cells, adapts),
            final(self).wf(),
            e == SimEvent::Publish(final(self).version),
    {
        proof {
            lemma_skip(config.schedule, 0);
        }
        self.config = config;
        self.mesh_cells = cells;
        self.mesh_adapts = adapts;
        self.step_index = 0;
        self.phase = Phase::CrustalFormation;
        self.cursor = Cursor::start().normalized(&config.schedule);
        self.publish()
    }

    /// Whether a stored planet brings a mesh of its own that has to be rebuilt first.
    pub fn wants_mesh(&self, saved: &Saved) -> (b: bool)
        ensures
            b == (saved.generators != 0 && saved.generators != self.mesh_cells),
    {
        saved.generators != 0 && saved.generators != self.mesh_cells
    }

    /// The mesh has been rebuilt from generators.
    pub fn mesh_rebuilt(&mut self, cells: usize)
        ensures
            *final(self) == (Simulation { mesh_cells: cells, mesh_adapts: true, ..*old(self) }),
    {
        self.mesh_cells = cells;
        self.mesh_adapts = true;
    }

    /// Goes on from a stored planet. Where the schedule stands follows from the steps the
    /// planet has made under its own configuration.
    pub fn resume_from(&mut self, saved: &Saved) -> (r: Result<SimEvent, ResumeError>)
        requires
            saved.config.schedule.wf(),
            old(self).version < u64::MAX,
            old(self).publish_steps >= 1,
        ensures
            match r {
                Ok(e) => {
                    &&& saved.cells == old(self).mesh_cells
                    &&& final(self).wf()
                    &&& stands_at(
                        saved.config.schedule,
                        saved.step_index as nat,
                        final(self).cursor,
                    )
                    &&& *final(self) == (Simulation {
                        config: saved.config,
                        step_index: saved.step_index,
                        phase: saved.phase,
                        cursor: final(self).cursor,
                        ..*old(self)
                    }).published()
                    &&& e == SimEvent::Publish(final(self).version)
                },
                Err(e) => {
                    &&& saved.cells != old(self).mesh_cells
                    &&& *final(self) == *old(self)
                    &&& e == (ResumeError::CellMismatch {
                        planet: saved.cells,
                        mesh: old(self).mesh_cells,
                    })
                },
            },
    {
        if saved.cells != self.mesh_cells {
            return Err(
                ResumeError::CellMismatch { planet: saved.cells, mesh: self.mesh_cells },
            );
        }
        let cursor = Cursor::from_step_index(&saved.config.schedule, saved.step_index);
        self.config = saved.config;
        self.step_index = saved.step_index;
        self.phase = saved.phase;
        self.cursor = cursor.normalized(&self.config.schedule);
        Ok(self.publish())
    }

    /// Runs `phase` and everything after it again with `config`, from the checkpoint
    /// written when the phase before it completed (`saved`, if it is there). Fails where that
    /// checkpoint is missing or has another number of cells than the mesh, and where `config`
    /// asks for another number of cells or another subdivision level. The first phase has no
    /// such checkpoint: running it again is starting over.
    pub fn rerun_from_phase(
        &mut self,
        phase: Phase,
        config: RunConfig,
        saved: Option<Saved>,
    ) -> (r: Result<SimEvent, ResumeError>)
        requires
            config.schedule.wf(),
            old(self).version < u64::MAX,
            old(self).publish_steps >= 1,
        ensures
            match old(self).rerun_refused(phase, config, saved) {
                Some(e) => r == Err::<SimEvent, ResumeError>(e) && *final(self) == *old(self),
                None => r is Ok && *final(self) == old(self).rerun(phase, config, saved),
            },
            r matches Ok(e) ==> final(self).wf() && e == SimEvent::Publish(final(self).version),
    {
        let i = phase.index();
        if i == 0 {
            let cells = self.mesh_cells;
            let adapts = self.mesh_adapts;
            return Ok(self.reset(config, cells, adapts));
        }
        let prev = match Phase::at(i - 1) {
            Some(p) => p,
            None => Phase::CrustalFormation,
        };
        let s = match saved {
            None => {
                return Err(ResumeError::MissingCheckpoint(prev));
            },
            Some(s) => s,
        };
        if s.cells != self.mesh_cells {
            return Err(ResumeError::CellMismatch { planet: s.cells, mesh: self.mesh_cells });
        }
        if s.config.cell_budget != config.cell_budget {
            return Err(
                ResumeError::BudgetChanged {
                    from: s.config.cell_budget,
                    to: config.cell_budget,
                },
            );
        }
        if s.config.level != config.level {
            return Err(ResumeError::LevelChanged { had: s.config.level, wanted: config.level });
        }
        proof {
            lemma_skip(config.schedule, i as int);
        }
        self.config = config;
        self.phase = phase;
        self.step_index = s.step_index;
        self.cursor = Cursor { phase_idx: i, step_in_phase: 0 }.normalized(&config.schedule);
        Ok(self.publish())
    }
}

/// The checkpoint that re-running `phase` starts from: that of the phase before it.
pub fn rerun_source(phase: Phase) -> (p: Option<Phase>)
    ensures
        p == phase_at(index_of(phase) - 1),
{
    let i = phase.index();
    if i == 0 {
        None
    } else {
        Phase::at(i - 1)
    }
}

/// One whole step.
pub open spec fn stepped(sim: Simulation, elapsed: bool) -> Simulation {
    match phase_at(sim.cursor.phase_idx as int) {
        Some(p) => sim.begun(p).0.ended(p, elapsed).0,
        None => sim,
    }
}

/// The simulation after as many steps as `elapsed` has entries.
pub open spec fn stepped_times(sim: Simulation, elapsed: Seq<bool>) -> Simulation
    decreases elapsed.len(),
{
    if elapsed.len() == 0 {
        sim
    } else {
        stepped(stepped_times(sim, elapsed.drop_last()), elapsed.last())
    }
}

/// A step moves the run on by one step of the schedule, whatever is published.
pub proof fn a_step_is_one_step(sim: Simulation, elapsed: bool)
    requires
        sim.wf(),
        stands_at(sim.config.schedule, sim.step_index as nat, sim.cursor),
        sim.step_index < sim.config.schedule.total(),
    ensures
        stepped(sim, elapsed).step_index == sim.step_index + 1,
        stands_at(
            sim.config.schedule,
            (sim.step_index + 1) as nat,
            stepped(sim, elapsed).cursor,
        ),
        stepped(sim, elapsed).config == sim.config,
        stepped(sim, elapsed).wf(),
{
    let s = sim.config.schedule;
    let i = sim.cursor.phase_idx as int;
    let p = phase_at(i)->0;
    let t = sim.begun(p).0;
    let (told, events) = t.counted().reported(p, elapsed);
    if told.cursor.step_in_phase >= s.steps(p) {
        lemma_skip(s, i + 1);
        let j = skip_empty(s, i + 1);
        if j < PHASES {
            lemma_before_mono(s, j + 1, PHASES as int);
        }
    } else {
        lemma_before_mono(s, i + 1, PHASES as int);
    }
}

/// A run makes exactly the steps of its schedule: as long as fewer than all have been
/// made it goes on, each step counts, and after the last it is finished.
pub proof fn a_run_makes_every_step(sim: Simulation, elapsed: Seq<bool>)
    requires
        sim.wf(),
        stands_at(sim.config.schedule, sim.step_index as nat, sim.cursor),
        sim.step_index + elapsed.len() <= sim.config.schedule.total(),
    ensures
        stepped_times(sim, elapsed).step_index == sim.step_index + elapsed.len(),
        stands_at(
            sim.config.schedule,
            (sim.step_index + elapsed.len()) as nat,
            stepped_times(sim, elapsed).cursor,
        ),
        stepped_times(sim, elapsed).config == sim.config,
        stepped_times(sim, elapsed).wf(),
        sim.step_index + elapsed.len() == sim.config.schedule.total() ==> stepped_times(
            sim,
            elapsed,
        ).cursor == the_end(),
    decreases elapsed.len(),
{
    if elapsed.len() > 0 {
        a_run_makes_every_step(sim, elapsed.drop_last());
        a_step_is_one_step(stepped_times(sim, elapsed.drop_last()), elapsed.last());
    }
}

/// A fresh run stands at the start of its schedule.
pub proof fn a_fresh_run_stands_at_zero(s: Schedule)
    ensures
        stands_at(s, 0, first_place(s)),
{
    lemma_skip(s, 0);
    let j = skip_empty(s, 0);
    if j < PHASES {
        lemma_before_mono(s, j + 1, PHASES as int);
    } else {
        assert(s.total() == 0);
    }
}

/// A run taken up from a stored planet stands exactly where the uninterrupted run stood
/// when the planet was stored.
pub proof fn resuming_matches_an_uninterrupted_run(
    fresh: Simulation,
    elapsed: Seq<bool>,
    resumed: Cursor,
)
    requires
        fresh.wf(),
        fresh.step_index == 0,
        fresh.cursor == first_place(fresh.config.schedule),
        elapsed.len() <= fresh.config.schedule.total(),
        stands_at(fresh.config.schedule, elapsed.len(), resumed),
    ensures
        stepped_times(fresh, elapsed).cursor == resumed,
        stepped_times(fresh, elapsed).step_index == elapsed.len(),
{
    a_fresh_run_stands_at_zero(fresh.config.schedule);
    a_run_makes_every_step(fresh, elapsed);
    a_step_count_names_one_place(
        fresh.config.schedule,
        elapsed.len(),
        stepped_times(fresh, elapsed).cursor,
        resumed,
    );
}

/// What is published among `events` is newer than `from`, at most `to`, and each newer than
/// what was published before it.
pub open spec fn newer_and_newer(events: Seq<SimEvent>, from: u64, to: u64) -> bool {
    &&& from <= to
    &&& forall|i: int|
        0 <= i < events.len() && (#[trigger] events[i]) is Publish ==> from < events[i]->Publish_0
            <= to
    &&& forall|i: int, j: int|
        0 <= i < j < events.len() && (#[trigger] events[i]) is Publish && (
        #[trigger] events[j]) is Publish ==> events[i]->Publish_0 < events[j]->Publish_0
}

/// Newer events follow newer events.
proof fn lemma_newer_joins(a: Seq<SimEvent>, b: Seq<SimEvent>, from: u64, mid: u64, to: u64)
    requires
        newer_and_newer(a, from, mid),
        newer_and_newer(b, mid, to),
    ensures
        newer_and_newer(a + b, from, to),
{
    let all = a + b;
    assert forall|i: int| 0 <= i < all.len() && (#[trigger] all[i]) is Publish implies from
        < all[i]->Publish_0 <= to by {
        if i < a.len() {
            assert(all[i] == a[i]);
        } else {
            assert(all[i] == b[i - a.len()]);
        }
    }
    assert forall|i: int, j: int|
        0 <= i < j < all.len() && (#[trigger] all[i]) is Publish && (
        #[trigger] all[j]) is Publish implies all[i]->Publish_0 < all[j]->Publish_0 by {
        if j < a.len() {
            assert(all[i] == a[i] && all[j] == a[j]);
        } else if i < a.len() {
            assert(all[i] == a[i] && all[j] == b[j - a.len()]);
        } else {
            assert(all[i] == b[i - a.len()] && all[j] == b[j - a.len()]);
        }
    }
}

/// What a report publishes.
proof fn lemma_reported_newer(sim: Simulation, p: Phase, elapsed: bool)
    requires
        sim.version < u64::MAX,
    ensures
        newer_and_newer(
            sim.reported(p, elapsed).1,
            sim.version,
            sim.reported(p, elapsed).0.version,
        ),
        sim.reported(p, elapsed).0.version <= sim.version + 1,
{
}

/// What a completed phase publishes.
proof fn lemma_completed_newer(sim: Simulation, p: Phase)
    requires
        sim.version < u64::MAX,
    ensures
        newer_and_newer(sim.completed(p).1, sim.version, sim.completed(p).0.version),
{
}

/// Snapshot versions only grow: every snapshot that a step publishes is newer than all
/// before it, within the step too.
pub proof fn versions_strictly_increase(sim: Simulation, elapsed: bool)
    requires
        sim.wf(),
        sim.cursor.phase_idx < PHASES,
        sim.version < u64::MAX - 2,
    ensures
        ({
            let p = phase_at(sim.cursor.phase_idx as int)->0;
            newer_and_newer(
                sim.begun(p).1 + sim.begun(p).0.ended(p, elapsed).1,
                sim.version,
                stepped(sim, elapsed).version,
            )
        }),
{
    let p = phase_at(sim.cursor.phase_idx as int)->0;
    let (t, b) = sim.begun(p);
    assert(newer_and_newer(b, sim.version, t.version));
    let (told, r) = t.counted().reported(p, elapsed);
    lemma_reported_newer(t.counted(), p, elapsed);
    if told.cursor.step_in_phase >= t.config.schedule.steps(p) {
        lemma_completed_newer(told, p);
        let (done, more) = told.completed(p);
        lemma_newer_joins(r, more, t.version, told.version, done.version);
        lemma_newer_joins(b, r + more, sim.version, t.version, done.version);
    } else {
        lemma_newer_joins(b, r, sim.version, t.version, told.version);
    }
}

/// Number of the first `n` steps of a phase of `of` steps that are reported.
pub open spec fn reports(n: u64, of: u64) -> nat
    decreases n,
{
    if n == 0 {
        0
    } else {
        reports((n - 1) as u64, of) + if is_reported(n, of) {
            1nat
        } else {
            0nat
        }
    }
}

/// A phase makes at most 400 step reports, however many steps it has.
pub proof fn step_reports_are_throttled(of: u64)
    ensures
        reports(of, of) <= 2 * STEP_EVENTS_PER_PHASE,
{
    let every = if of / STEP_EVENTS_PER_PHASE > 1 {
        of / STEP_EVENTS_PER_PHASE
    } else {
        1
    };
    if of > 0 {
        lemma_reports((of - 1) as u64, of, every);
        lemma_reports_last((of - 1) as u64, of, every);
    }
}

proof fn lemma_reports(n: u64, of: u64, every: u64)
    requires
        n < of,
        every >= 1,
        every == (if of / STEP_EVENTS_PER_PHASE > 1 {
            of / STEP_EVENTS_PER_PHASE
        } else {
            1
        }),
    ensures
        reports(n, of) == n / every,
    decreases n,
{
    if n > 0 {
        lemma_reports((n - 1) as u64, of, every);
        let d = every as int;
        let a = n as int;
        assert((a - 1) / d + (if a % d == 0 {
            1int
        } else {
            0int
        }) == a / d) by (nonlinear_arith)
            requires
                a >= 1,
                d >= 1,
        ;
    } else {
        assert(0int / (every as int) == 0) by (nonlinear_arith)
            requires
                every >= 1,
        ;
    }
}

proof fn lemma_reports_last(n: u64, of: u64, every: u64)
    requires
        n + 1 == of,
        every >= 1,
        every == (if of / STEP_EVENTS_PER_PHASE > 1 {
            of / STEP_EVENTS_PER_PHASE
        } else {
            1
        }),
    ensures
        n / every < 2 * STEP_EVENTS_PER_PHASE,
{
    let d = every as int;
    let a = n as int;
    assert(a < 400 * d) by {
        if of / STEP_EVENTS_PER_PHASE > 1 {
            assert(of < 200 * (d + 1));
        }
    }
    assert(a / d < 400) by (nonlinear_arith)
        requires
            a < 400 * d,
            d >= 1,
    ;
}

/// A run goes on only from a planet that fits: the first phase starts over with no planet at
/// all; any other is refused without a checkpoint, with one of another mesh, and where the user
/// asks for another number of cells or another level, and for no other reason.
pub proof fn reruns_go_on_from_what_fits(
    sim: Simulation,
    phase: Phase,
    config: RunConfig,
    saved: Option<Saved>,
)
    ensures
        sim.rerun_refused(phase, config, saved) is None <==> phase == Phase::CrustalFormation || (
        saved matches Some(s) && s.cells == sim.mesh_cells && s.config.cell_budget
            == config.cell_budget && s.config.level == config.level),
        sim.rerun_refused(phase, config, saved) matches Some(ResumeError::MissingCheckpoint(p))
            ==> saved is None && index_of(p) == index_of(phase) - 1,
        sim.rerun_refused(phase, config, saved) matches Some(ResumeError::CellMismatch {
            planet,
            mesh,
        }) ==> saved is Some && planet == (saved->0).cells && mesh == sim.mesh_cells && planet
            != mesh,
        sim.rerun_refused(phase, config, saved) matches Some(ResumeError::BudgetChanged {
            from,
            to,
        }) ==> saved is Some && from == (saved->0).config.cell_budget && to == config.cell_budget
            && from != to,
        sim.rerun_refused(phase, config, saved) matches Some(ResumeError::LevelChanged {
            had,
            wanted,
        }) ==> saved is Some && had == (saved->0).config.level && wanted == config.level && had
            != wanted,
{
}

/// A rerun makes the phase that was asked for, or the next that has steps, from its first step,
/// on the mesh at hand, with the new configuration, and counts on from the steps that the
/// checkpoint has made; the first phase counts from zero.
pub proof fn a_rerun_starts_its_phase(
    sim: Simulation,
    phase: Phase,
    config: RunConfig,
    saved: Option<Saved>,
)
    requires
        sim.rerun_refused(phase, config, saved) is None,
    ensures
        ({
            let again = sim.rerun(phase, config, saved);
            &&& again.config == config
            &&& again.mesh_cells == sim.mesh_cells
            &&& again.mesh_adapts == sim.mesh_adapts
            &&& again.cursor.step_in_phase == 0
            &&& config.schedule.steps(phase) > 0 ==> phase_at(again.cursor.phase_idx as int)
                == Some(phase)
            &&& index_of(phase) <= again.cursor.phase_idx <= 4
            &&& again.step_index == (if phase == Phase::CrustalFormation {
                0
            } else {
                (saved->0).step_index
            })
            &&& again.last_publish_step == again.step_index
        }),
{
    lemma_skip(config.schedule, index_of(phase));
}

/// What a step says besides its phase's start and end: it narrates every twentieth step of the
/// run, and takes a snapshot exactly where enough time and enough steps have passed since the
/// last.
pub proof fn reports_come_when_they_are_due(sim: Simulation, p: Phase, elapsed: bool)
    ensures
        ({
            let (now, events) = sim.reported(p, elapsed);
            let due = elapsed && sim.step_index >= sim.last_publish_step + sim.publish_steps;
            &&& (exists|i: int| 0 <= i < events.len() && (#[trigger] events[i]) is Publish) <==> due
            &&& (exists|i: int| 0 <= i < events.len() && (#[trigger] events[i]) is Narration)
                <==> sim.step_index % 20 == 0
            &&& (exists|i: int| 0 <= i < events.len() && (#[trigger] events[i]) is Step)
                <==> is_reported(
                sim.cursor.step_in_phase,
                sim.config.schedule.steps(p) as u64,
            )
            &&& due ==> now.last_publish_step == sim.step_index
            &&& !due ==> now == sim
        }),
{
    let (now, events) = sim.reported(p, elapsed);
    let step = sim.cursor.step_in_phase;
    let of = sim.config.schedule.steps(p) as u64;
    let r = if is_reported(step, of) {
        1int
    } else {
        0int
    };
    let t = if sim.step_index % 20 == 0 {
        1int
    } else {
        0int
    };
    let due = elapsed && sim.step_index >= sim.last_publish_step + sim.publish_steps;
    if r == 1 {
        assert(events[0] is Step);
    }
    if t == 1 {
        assert(events[r] is Narration);
    }
    if due {
        assert(events[r + t] is Publish);
    }
}

/// What the end of a phase does, in order: the mesh is rebuilt for the coming phase, where there
/// is one and the mesh can be rebuilt, before the planet is saved, so that the checkpoint holds
/// the new mesh; only then is the phase announced as complete.
pub proof fn a_phase_is_saved_on_its_new_mesh(sim: Simulation, p: Phase)
    ensures
        ({
            let events = sim.completed(p).1;
            let n = events.len() as int;
            &&& n == (if sim.mesh_adapts && p != Phase::RecentPast {
                5
            } else {
                4int
            })
            &&& n == 5 ==> events[0] == SimEvent::Retessellate { epoch: (index_of(p) + 1) as u64 }
            &&& events[n - 4] == SimEvent::Checkpoint(p)
            &&& events[n - 3] == SimEvent::PhaseCompleted(p)
            &&& events[n - 2] == SimEvent::Narration(p)
            &&& events[n - 1] == SimEvent::Publish(sim.completed(p).0.version)
        }),
{
}

/// A phase of fewer than 400 steps reports every one; a longer one makes at least 200 reports,
/// and the last step is always among them.
pub proof fn step_reports_do_not_run_dry(step: u64, of: u64)
    requires
        1 <= step <= of,
    ensures
        of < 400 ==> is_reported(step, of),
        of >= 400 ==> reports(of, of) >= 200,
        is_reported(of, of),
{
    if of < 400 {
        assert(of / 200 <= 1);
        assert(step as int % 1 == 0);
    } else {
        let every = of / 200;
        lemma_reports((of - 1) as u64, of, every);
        let (d, a) = (every as int, of as int);
        assert((a - 1) / d + 1 >= 200) by (nonlinear_arith)
            requires
                d == a / 200,
                a >= 400,
        ;
    }
}

/// A phase is announced before its first step, and before no other: it is named, narrated and
/// shown, in that order, under a new version. A later step starts with nothing said and nothing
/// changed, and no start moves the run on.
pub proof fn a_phase_is_announced_once(sim: Simulation, p: Phase)
    requires
        sim.version < u64::MAX,
    ensures
        ({
            let (now, events) = sim.begun(p);
            &&& sim.cursor.step_in_phase == 0 ==> events.len() == 3 && events[0]
                == SimEvent::PhaseStarted(p) && events[1] == SimEvent::Narration(p) && events[2]
                == SimEvent::Publish(now.version) && now.version == sim.version + 1 && now.phase
                == p && now.last_publish_step == sim.step_index
            &&& sim.cursor.step_in_phase > 0 ==> events.len() == 0 && now == sim
            &&& now.cursor == sim.cursor
            &&& now.step_index == sim.step_index
            &&& now.config == sim.config
        }),
{
}

} // verus!
