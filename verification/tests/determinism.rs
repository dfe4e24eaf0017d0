use infinite_worlds::phase::{phase_tag, Phase, Schedule};
use infinite_worlds::sim::{rerun_source, ResumeError, RunConfig, Saved, SimEvent, Simulation};
use infinite_worlds::test_util::{
    ring_mesh, tiny_mesh, MemoryStore, RngNoiseProcess, SlowProcess, UnbalancedProcess, MIN_LEVEL,
};

/// 10 / 20 / 20 / 10 steps.
fn config() -> RunConfig {
    RunConfig {
        schedule: Schedule {
            crustal_formation: 10,
            drift: 20,
            refinement: 20,
            recent_past: 10,
        },
        cell_budget: 40_000,
        level: MIN_LEVEL,
    }
}

fn new_sim() -> Simulation {
    Simulation::new(config(), tiny_mesh().graph.n_cells(), false)
}

fn saved(sim: &Simulation) -> Saved {
    Saved {
        step_index: sim.step_index,
        cells: sim.mesh_cells,
        generators: 0,
        config: sim.config,
        phase: sim.phase,
    }
}

fn step_once(sim: &mut Simulation) -> bool {
    if sim.begin_step().is_none() {
        return false;
    }
    sim.end_step(false);
    true
}

fn run(sim: &mut Simulation, store: &mut MemoryStore<Saved>) {
    while let Some((phase, _)) = sim.begin_step() {
        sim.end_step(false);
        if sim.current_phase() != Some(phase) {
            store.save(&phase_tag(phase), saved(sim));
        }
    }
}

#[test]
fn resume_mid_phase_matches_an_uninterrupted_run() {
    let mut store = MemoryStore::new();
    let mut sim = new_sim();
    // Stop 27 steps in: mid-Drift, nowhere near a phase boundary.
    for _ in 0..27 {
        assert!(step_once(&mut sim));
    }
    assert_eq!(sim.current_phase(), Some(Phase::Drift));
    store.save("mid-run", saved(&sim));

    let mut resumed = new_sim();
    resumed.resume_from(store.load("mid-run").unwrap()).unwrap();
    assert_eq!(resumed.step_index, 27);
    assert_eq!(resumed.current_phase(), Some(Phase::Drift));
    assert_eq!(resumed.cursor, sim.cursor);
    // Both go on in step to the end.
    loop {
        let a = step_once(&mut sim);
        let b = step_once(&mut resumed);
        assert_eq!(a, b);
        assert_eq!(sim.cursor, resumed.cursor);
        assert_eq!(sim.step_index, resumed.step_index);
        if !a {
            break;
        }
    }
    assert_eq!(resumed.step_index, 60);
}

#[test]
fn rerun_from_phase_boundary_matches_an_uninterrupted_run() {
    let mut store = MemoryStore::new();
    let mut sim = new_sim();
    run(&mut sim, &mut store);
    assert!(store.tags().contains(&phase_tag(Phase::Refinement)));
    let end = sim.step_index;

    // Re-run the last phase from the Refinement checkpoint with the same config.
    let from = rerun_source(Phase::RecentPast).unwrap();
    assert_eq!(from, Phase::Refinement);
    let planet = store.load(&phase_tag(from)).copied();
    sim.rerun_from_phase(Phase::RecentPast, config(), planet)
        .unwrap();
    assert_eq!(sim.current_phase(), Some(Phase::RecentPast));
    assert_eq!(sim.step_index, 50);
    run(&mut sim, &mut store);
    assert_eq!(sim.step_index, end);
    assert!(sim.is_done());
}

#[test]
fn rerun_of_the_first_phase_is_a_regenerate() {
    let mut store = MemoryStore::new();
    let mut sim = new_sim();
    run(&mut sim, &mut store);
    assert_eq!(rerun_source(Phase::CrustalFormation), None);
    sim.rerun_from_phase(Phase::CrustalFormation, config(), None)
        .unwrap();
    assert_eq!(sim.step_index, 0);
    assert_eq!(sim.current_phase(), Some(Phase::CrustalFormation));
    run(&mut sim, &mut store);
    assert_eq!(sim.step_index, 60);
}

#[test]
fn rerun_rejects_a_budget_change_and_a_missing_checkpoint() {
    let mut store: MemoryStore<Saved> = MemoryStore::new();
    let mut sim = new_sim();
    // No checkpoints written yet.
    let tag = phase_tag(rerun_source(Phase::Drift).unwrap());
    assert_eq!(tag, "phase-crustal_formation");
    let err = sim
        .rerun_from_phase(Phase::Drift, config(), store.load(&tag).copied())
        .unwrap_err();
    assert_eq!(err, ResumeError::MissingCheckpoint(Phase::CrustalFormation));

    // With a checkpoint present, a cell-budget change is refused: it would
    // invalidate every per-cell array.
    store.save("phase-crustal_formation", saved(&sim));
    let mut wrong = config();
    wrong.cell_budget += 54_321;
    let before = sim;
    let err = sim
        .rerun_from_phase(Phase::Drift, wrong, store.load(&tag).copied())
        .unwrap_err();
    assert_eq!(
        err,
        ResumeError::BudgetChanged {
            from: 40_000,
            to: 94_321
        }
    );
    assert_eq!(sim, before);
}

#[test]
fn rerun_rejects_another_subdivision_level() {
    let mut store: MemoryStore<Saved> = MemoryStore::new();
    let mut sim = new_sim();
    run(&mut sim, &mut store);
    let mut wrong = config();
    wrong.level += 1;
    let before = sim;
    let tag = phase_tag(rerun_source(Phase::Drift).unwrap());
    assert_eq!(
        sim.rerun_from_phase(Phase::Drift, wrong, store.load(&tag).copied()),
        Err(ResumeError::LevelChanged {
            had: MIN_LEVEL,
            wanted: MIN_LEVEL + 1
        })
    );
    assert_eq!(sim, before);
    // The first phase starts over, whatever the level.
    assert!(sim.rerun_from_phase(Phase::CrustalFormation, wrong, None).is_ok());
}

/// Everything that a run says, by whether a snapshot is due after each step.
fn chronicle(mut sim: Simulation, due: impl Fn(u64) -> bool) -> (Simulation, Vec<SimEvent>) {
    let mut said = Vec::new();
    while let Some((_, events)) = sim.begin_step() {
        said.extend(events);
        let due = due(sim.step_index);
        said.extend(sim.end_step(due));
    }
    (sim, said)
}

#[test]
fn when_snapshots_are_due_changes_nothing_else() {
    let mut eager = new_sim();
    eager.set_publish_throttle(1);
    let (a, said_a) = chronicle(eager, |_| true);
    let (b, said_b) = chronicle(new_sim(), |i| i % 7 == 3);
    assert_eq!(a.cursor, b.cursor);
    assert_eq!(a.step_index, b.step_index);
    let plain = |said: &[SimEvent]| -> Vec<SimEvent> {
        said.iter()
            .copied()
            .filter(|e| !matches!(e, SimEvent::Publish(_)))
            .collect()
    };
    assert_ne!(said_a, said_b);
    assert_eq!(plain(&said_a), plain(&said_b));
}

/// Goes on for at most `steps` steps with a planet that remembers, in one number, every step and
/// every mesh that it went through.
fn live(sim: &mut Simulation, mut planet: u64, steps: u64, due: impl Fn(u64) -> bool) -> u64 {
    for _ in 0..steps {
        let Some((phase, mut events)) = sim.begin_step() else {
            break;
        };
        planet = (planet ^ sim.step_index).wrapping_mul(31).wrapping_add(phase.index() as u64);
        let due = due(sim.step_index);
        events.extend(sim.end_step(due));
        for e in events {
            if let SimEvent::Retessellate { epoch } = e {
                planet = planet.rotate_left(5) ^ epoch;
                sim.mesh_rebuilt(sim.mesh_cells + 1);
            }
        }
    }
    planet
}

#[test]
fn two_runs_make_one_planet() {
    let mut eager = Simulation::new(config(), 500, true);
    eager.set_publish_throttle(1);
    let mut lazy = Simulation::new(config(), 700, true);
    let a = live(&mut eager, 1, 100, |_| true);
    let b = live(&mut lazy, 1, 100, |i| i % 7 == 3);
    assert_eq!(a, b);
    // Four phases: the mesh is rebuilt three times.
    assert_eq!(eager.mesh_cells, 503);
    assert_ne!(a, live(&mut Simulation::new(config(), 500, false), 1, 100, |_| true));
    assert_ne!(a, live(&mut Simulation::new(config(), 500, true), 2, 100, |_| true));
}

#[test]
fn a_planet_taken_up_again_ends_the_same() {
    let whole = live(&mut Simulation::new(config(), 500, true), 1, 100, |_| false);
    // 30 steps end the second phase, 37 do not end any.
    for at in [0, 27, 30, 37, 60] {
        let mut sim = Simulation::new(config(), 500, true);
        let stored = live(&mut sim, 1, at, |_| false);
        let mut resumed = Simulation::new(config(), sim.mesh_cells, true);
        resumed.resume_from(&saved(&sim)).unwrap();
        assert_eq!(live(&mut resumed, stored, 100, |_| true), whole);
        assert!(resumed.is_done());
    }
}

#[test]
fn a_phase_run_again_ends_the_same() {
    let whole = live(&mut Simulation::new(config(), 500, true), 1, 100, |_| false);
    for (phase, at) in [(Phase::Drift, 10), (Phase::Refinement, 30), (Phase::RecentPast, 50)] {
        let mut sim = Simulation::new(config(), 500, true);
        let stored = live(&mut sim, 1, at, |_| false);
        let checkpoint = saved(&sim);
        live(&mut sim, stored, 100, |_| false);
        sim.mesh_rebuilt(checkpoint.cells);
        sim.rerun_from_phase(phase, config(), Some(checkpoint)).unwrap();
        assert_eq!(live(&mut sim, stored, 100, |_| true), whole);
    }
    // The first phase starts over.
    let mut sim = Simulation::new(config(), 500, true);
    live(&mut sim, 1, 41, |_| false);
    sim.rerun_from_phase(Phase::CrustalFormation, config(), None).unwrap();
    assert_eq!(live(&mut sim, 1, 100, |_| false), whole);
}

#[test]
fn every_phase_starts_is_saved_and_completes_once() {
    let mut c = config();
    c.schedule.refinement = 0;
    let sim = Simulation::new(c, 9, true);
    let (_, said) = chronicle(sim, |_| false);
    let milestones: Vec<SimEvent> = said
        .into_iter()
        .filter(|e| {
            matches!(
                e,
                SimEvent::PhaseStarted(_) | SimEvent::Checkpoint(_) | SimEvent::PhaseCompleted(_)
            )
        })
        .collect();
    let mut expected = Vec::new();
    for p in [Phase::CrustalFormation, Phase::Drift, Phase::RecentPast] {
        expected.push(SimEvent::PhaseStarted(p));
        expected.push(SimEvent::Checkpoint(p));
        expected.push(SimEvent::PhaseCompleted(p));
    }
    assert_eq!(milestones, expected);
}

#[test]
fn resume_rejects_a_planet_from_another_mesh() {
    let mut store = MemoryStore::new();
    let big = Simulation::new(config(), ring_mesh(9).graph.n_cells(), false);
    store.save("wide", saved(&big));
    let mut small = new_sim();
    let err = small.resume_from(store.load("wide").unwrap()).unwrap_err();
    assert_eq!(err, ResumeError::CellMismatch { planet: 9, mesh: 4 });
}

#[test]
fn a_stored_planet_brings_its_own_mesh() {
    let mut sim = new_sim();
    let mut planet = saved(&sim);
    planet.generators = 30;
    planet.cells = 30;
    assert!(sim.wants_mesh(&planet));
    sim.mesh_rebuilt(30);
    assert!(!sim.wants_mesh(&planet));
    assert!(sim.mesh_adapts);
    sim.resume_from(&planet).unwrap();
    planet.generators = 0;
    assert!(!sim.wants_mesh(&planet));
}

#[test]
fn a_store_in_memory_keeps_one_planet_per_tag() {
    let mut store = MemoryStore::new();
    assert!(store.is_empty());
    store.save("b", 1);
    store.save("a", 2);
    store.save("b", 3);
    assert_eq!(store.len(), 2);
    assert_eq!(store.tags(), vec!["b".to_string(), "a".to_string()]);
    assert_eq!(store.load("b"), Some(&3));
    assert_eq!(store.load("a"), Some(&2));
    assert_eq!(store.load("c"), None);
}

#[test]
fn stand_in_processes_have_names() {
    assert_eq!(RngNoiseProcess::default().name(), "rng-noise");
    assert_eq!(RngNoiseProcess::new("tectonics-ish").name(), "tectonics-ish");
    assert_eq!(SlowProcess::new(10).per_step, 10);
    assert_eq!(SlowProcess::new(10).name(), "slow");
    assert_eq!(UnbalancedProcess.name(), "unbalanced");
}

#[test]
fn small_meshes_are_what_they_say() {
    let tiny = tiny_mesh();
    assert_eq!(tiny.level, MIN_LEVEL);
    for c in 0..4 {
        let around: Vec<usize> = (0..tiny.graph.degree(c))
            .map(|k| tiny.graph.neighbor(c, k))
            .collect();
        let others: Vec<usize> = (0..4).filter(|m| *m != c).collect();
        assert_eq!(around, others);
        assert_eq!(tiny.corners.n_corners(c), 3);
        for k in 0..3 {
            assert_eq!(tiny.corners.corner_at(c, k) as usize, (c + k) % 4);
        }
    }
    let ring = ring_mesh(5);
    assert_eq!(ring.graph.n_cells(), 5);
    for c in 0..5 {
        assert_eq!(ring.graph.degree(c), 2);
        assert_eq!(ring.graph.neighbor(c, 0), (c + 4) % 5);
        assert_eq!(ring.graph.neighbor(c, 1), (c + 1) % 5);
        // Every edge can be walked back.
        for k in 0..2 {
            let m = ring.graph.neighbor(c, k);
            assert!((0..2).any(|j| ring.graph.neighbor(m, j) == c));
        }
    }
}
