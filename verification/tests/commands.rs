use infinite_worlds::phase::{phase_tag, Phase, Schedule};
use infinite_worlds::sim::{rerun_source, RunConfig, Saved, SimEvent, Simulation};
use infinite_worlds::surface::RockType;
use infinite_worlds::test_util::{ring_mesh, tiny_mesh, MemoryStore, MIN_LEVEL};
use infinite_worlds::worker::{
    column_of, EventRing, Next, Reaction, SimCommand, SimState, Stratum, Worker,
    DEFAULT_EVENT_CAPACITY,
};

fn config_of(steps: u64) -> RunConfig {
    RunConfig {
        schedule: Schedule {
            crustal_formation: steps,
            drift: steps,
            refinement: steps,
            recent_past: steps,
        },
        cell_budget: 1000,
        level: MIN_LEVEL,
    }
}

/// 100 steps per phase.
fn config() -> RunConfig {
    config_of(100)
}

/// A worker and the simulation that it drives, turned by hand.
struct Rig {
    worker: Worker,
    sim: Simulation,
    store: MemoryStore<Saved>,
    ring: EventRing<SimEvent>,
    meshes_built: usize,
}

impl Rig {
    fn spawn(c: RunConfig) -> Rig {
        let sim = Simulation::new(c, tiny_mesh().graph.n_cells(), false);
        Rig {
            worker: Worker::new(sim.is_done()),
            sim,
            store: MemoryStore::new(),
            ring: EventRing::new(DEFAULT_EVENT_CAPACITY),
            meshes_built: 0,
        }
    }

    fn state(&self) -> SimState {
        self.worker.state(self.sim.current_phase())
    }

    fn send(&mut self, cmd: SimCommand) {
        match self.worker.handle(cmd, MIN_LEVEL) {
            Reaction::Nothing | Reaction::Refuse | Reaction::Exit => {}
            Reaction::Reset(c) => {
                self.meshes_built += 1;
                let mesh = ring_mesh(6 + c.level as usize);
                let e = self.sim.reset(c, mesh.graph.n_cells(), false);
                self.ring.push(e);
            }
            Reaction::Rerun(phase, c) => {
                let planet = match rerun_source(phase) {
                    Some(p) => self.store.load(&phase_tag(p)).copied(),
                    None => None,
                };
                let r = self.sim.rerun_from_phase(phase, c, planet);
                self.worker.rerun_tried(r.is_ok());
            }
        }
    }

    /// Up to `n` turns of the loop; stops early where the worker waits.
    fn turn(&mut self, n: usize) {
        for _ in 0..n {
            if self.worker.next() == Next::Wait {
                return;
            }
            match self.sim.begin_step() {
                None => self.worker.step_tried(false),
                Some((phase, events)) => {
                    for e in events {
                        self.ring.push(e);
                    }
                    for e in self.sim.end_step(false) {
                        if e == SimEvent::Checkpoint(phase) {
                            let planet = Saved {
                                step_index: self.sim.step_index,
                                cells: self.sim.mesh_cells,
                                generators: 0,
                                config: self.sim.config,
                                phase,
                            };
                            self.store.save(&phase_tag(phase), planet);
                        }
                        self.ring.push(e);
                    }
                    self.worker.step_tried(true);
                }
            }
        }
    }
}

#[test]
fn starts_idle_and_does_not_step_until_told() {
    let mut rig = Rig::spawn(config());
    assert_eq!(rig.state(), SimState::Idle);
    rig.turn(50);
    assert_eq!(rig.sim.step_index, 0);
    assert_eq!(rig.sim.total_steps(), 400);
}

#[test]
fn pause_stops_the_run_mid_phase() {
    let mut rig = Rig::spawn(config());
    rig.send(SimCommand::Start);
    rig.turn(3);
    assert!(rig.sim.step_index >= 3);
    assert!(matches!(
        rig.state(),
        SimState::Running(Phase::CrustalFormation)
    ));

    rig.send(SimCommand::Pause);
    assert!(matches!(rig.state(), SimState::Paused(_)));
    let stopped_at = rig.sim.step_index;
    rig.turn(10);
    assert_eq!(
        rig.sim.step_index, stopped_at,
        "steps kept coming after Pause"
    );

    // ...and Start picks it up again from where it stopped.
    rig.send(SimCommand::Start);
    rig.turn(1);
    assert!(rig.sim.step_index > stopped_at);
}

#[test]
fn step_once_advances_exactly_one_step() {
    let mut rig = Rig::spawn(config());
    rig.send(SimCommand::StepOnce);
    rig.turn(5);
    assert_eq!(rig.sim.step_index, 1, "StepOnce ran away");

    rig.send(SimCommand::StepOnce);
    rig.send(SimCommand::StepOnce);
    rig.turn(5);
    assert_eq!(rig.sim.step_index, 3);
}

#[test]
fn regenerate_resets_time_and_rebuilds_the_tessellation() {
    let mut rig = Rig::spawn(config());
    rig.send(SimCommand::Start);
    rig.turn(3);
    assert!(rig.sim.step_index >= 3);

    // Every regenerate is a fresh tessellation (a new seed or budget means
    // new generators), so the builder is called each time.
    rig.send(SimCommand::Regenerate(config()));
    assert_eq!(rig.sim.step_index, 0);
    assert_eq!(
        rig.state(),
        SimState::Idle,
        "Regenerate must leave it paused"
    );
    assert_eq!(rig.meshes_built, 1, "builder not called");

    let mut bigger = config();
    bigger.level = MIN_LEVEL + 1;
    rig.send(SimCommand::Regenerate(bigger));
    assert_eq!(rig.meshes_built, 2);
    assert_eq!(rig.sim.mesh_cells, 6 + MIN_LEVEL as usize + 1);

    // ...and the fresh planet still runs.
    rig.send(SimCommand::Start);
    rig.turn(2);
    assert!(rig.sim.step_index >= 2);
}

#[test]
fn rerun_from_phase_reloads_the_previous_checkpoint() {
    // Four steps per phase so a full run finishes quickly.
    let cfg = config_of(4);
    let mut rig = Rig::spawn(cfg);
    rig.send(SimCommand::Start);
    rig.turn(100);
    assert_eq!(rig.state(), SimState::Done);
    assert_eq!(rig.sim.step_index, 16);

    rig.send(SimCommand::RerunFromPhase(Phase::RecentPast, cfg));
    assert_eq!(rig.sim.step_index, 12);
    assert_eq!(rig.state(), SimState::Idle);
    rig.send(SimCommand::Start);
    rig.turn(100);
    assert_eq!(rig.state(), SimState::Done);
    assert_eq!(rig.sim.step_index, 16);

    // A cell-budget change is refused (it would invalidate every per-cell
    // array) and leaves the sim alone.
    let mut wrong = cfg;
    wrong.cell_budget += 12_345;
    rig.send(SimCommand::RerunFromPhase(Phase::Drift, wrong));
    assert_eq!(rig.sim.step_index, 16);
    assert_eq!(rig.state(), SimState::Done);

    // So is another mesh level.
    let mut level = cfg;
    level.level += 1;
    assert_eq!(
        rig.worker
            .handle(SimCommand::RerunFromPhase(Phase::Drift, level), MIN_LEVEL),
        Reaction::Refuse
    );
}

#[test]
fn shutdown_ends_a_worker_even_while_it_runs() {
    let mut rig = Rig::spawn(config());
    rig.send(SimCommand::Start);
    rig.turn(2);
    assert_eq!(
        rig.worker.handle(SimCommand::Shutdown, MIN_LEVEL),
        Reaction::Exit
    );
}

#[test]
fn events_are_queued_for_the_ui_and_drained_once() {
    let mut rig = Rig::spawn(config());
    rig.send(SimCommand::Start);
    rig.turn(5);
    rig.send(SimCommand::Pause);
    let first = rig.ring.drain();
    assert!(
        first
            .iter()
            .any(|e| matches!(e, SimEvent::PhaseStarted(_))),
        "no PhaseStarted in {first:?}"
    );
    assert!(first.iter().any(|e| matches!(e, SimEvent::Narration(_))));
    assert!(first.iter().any(|e| matches!(e, SimEvent::Step { .. })));
    // Draining is destructive.
    assert!(rig
        .ring
        .drain()
        .iter()
        .all(|e| !matches!(e, SimEvent::PhaseStarted(_))));
    assert_eq!(rig.ring.dropped(), 0);
}

#[test]
fn views_are_published_from_the_worker() {
    let mut rig = Rig::spawn(config());
    rig.send(SimCommand::Start);
    rig.turn(1);
    assert!(rig.sim.version > 0);
    assert_eq!(rig.sim.phase, Phase::CrustalFormation);
    assert_eq!(rig.sim.mesh_cells, 4);
}

#[test]
fn a_full_ring_keeps_the_newest_events() {
    let mut ring: EventRing<u32> = EventRing::new(3);
    for i in 0..10 {
        ring.push(i);
    }
    assert_eq!(ring.dropped(), 7);
    assert_eq!(ring.drain(), vec![7, 8, 9]);
    assert_eq!(ring.drain(), Vec::<u32>::new());
}

#[test]
fn done_stays_done_until_regenerated() {
    let mut w = Worker::new(true);
    assert_eq!(w.state(Some(Phase::Drift)), SimState::Done);
    w.handle(SimCommand::Start, MIN_LEVEL);
    assert_eq!(w.next(), Next::Wait);
    w.handle(SimCommand::StepOnce, MIN_LEVEL);
    assert_eq!(w.next(), Next::Wait);
    assert_eq!(
        w.handle(SimCommand::Regenerate(config()), MIN_LEVEL),
        Reaction::Reset(config())
    );
    assert_eq!(w.state(Some(Phase::Drift)), SimState::Idle);
    assert_eq!(w.state(None), SimState::Done);
}

#[test]
fn query_column_answers_while_the_worker_runs() {
    let layer = |rock: RockType, t: f32| Stratum {
        rock,
        thickness_m: 100.0f32.to_bits(),
        deposited_myr: t.to_bits(),
    };
    let columns = vec![
        vec![layer(RockType::Basalt, 0.0), layer(RockType::Shale, 1.0)],
        vec![],
    ];
    let column = column_of(&columns, 0);
    assert!(
        column.len() >= 2,
        "expected a stacked column, got {column:?}"
    );
    assert!(column
        .iter()
        .all(|s| f32::from_bits(s.thickness_m) > 0.0));
    // Bottom-to-top: deposition times must not decrease.
    assert!(column
        .windows(2)
        .all(|w| f32::from_bits(w[0].deposited_myr) <= f32::from_bits(w[1].deposited_myr)));

    // A cell with nothing deposited, and an out-of-range cell, both answer.
    assert_eq!(column_of(&columns, 1), Vec::new());
    assert_eq!(column_of(&columns, 9999), Vec::new());
}
