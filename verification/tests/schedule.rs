use infinite_worlds::phase::{phase_slug, phase_tag, Cursor, Phase, Schedule};
use infinite_worlds::sim::{RunConfig, SimEvent, Simulation};
use infinite_worlds::test_util::{tiny_mesh, MemoryStore, NoopProcess, MIN_LEVEL};

const ALL: [Phase; 4] = [
    Phase::CrustalFormation,
    Phase::Drift,
    Phase::Refinement,
    Phase::RecentPast,
];

fn schedule(steps: [u64; 4]) -> Schedule {
    Schedule {
        crustal_formation: steps[0],
        drift: steps[1],
        refinement: steps[2],
        recent_past: steps[3],
    }
}

fn config(steps: [u64; 4]) -> RunConfig {
    RunConfig {
        schedule: schedule(steps),
        cell_budget: 4,
        level: MIN_LEVEL,
    }
}

/// 10 / 20 / 20 / 20 steps.
fn short_config() -> RunConfig {
    config([10, 20, 20, 20])
}

fn new_sim(c: RunConfig) -> Simulation {
    Simulation::new(c, tiny_mesh().graph.n_cells(), false)
}

/// One whole step; `None` once the run is finished.
fn step(sim: &mut Simulation, elapsed: bool) -> Option<Vec<SimEvent>> {
    let (_, mut events) = sim.begin_step()?;
    events.extend(sim.end_step(elapsed));
    Some(events)
}

fn run(sim: &mut Simulation, elapsed: bool) -> Vec<SimEvent> {
    let mut all = Vec::new();
    while let Some(events) = step(sim, elapsed) {
        all.extend(events);
    }
    all
}

#[test]
fn cursor_maps_step_index_to_phase() {
    // 200 / 400 / 300 / 400 steps.
    let c = schedule([200, 400, 300, 400]);
    assert_eq!(Cursor::from_step_index(&c, 0), Cursor::start());
    assert_eq!(
        Cursor::from_step_index(&c, 199),
        Cursor {
            phase_idx: 0,
            step_in_phase: 199
        }
    );
    assert_eq!(
        Cursor::from_step_index(&c, 200),
        Cursor {
            phase_idx: 1,
            step_in_phase: 0
        }
    );
    assert_eq!(
        Cursor::from_step_index(&c, 900),
        Cursor {
            phase_idx: 3,
            step_in_phase: 0
        }
    );
    assert_eq!(Cursor::from_step_index(&c, 1300), Cursor::done());
    assert_eq!(Cursor::from_step_index(&c, 99_999), Cursor::done());
}

#[test]
fn cursor_skips_zero_length_phases() {
    let c = schedule([0, 10, 0, 0]);
    assert_eq!(
        Cursor::from_step_index(&c, 0),
        Cursor {
            phase_idx: 1,
            step_in_phase: 0
        }
    );
    assert_eq!(Cursor::from_step_index(&c, 10), Cursor::done());
}

#[test]
fn tags_are_stable() {
    assert_eq!(
        phase_tag(Phase::CrustalFormation),
        "phase-crustal_formation"
    );
    assert_eq!(phase_tag(Phase::RecentPast), "phase-recent_past");
}

#[test]
fn tags_and_slugs_of_all_phases_differ() {
    let tags: Vec<String> = ALL.iter().map(|p| phase_tag(*p)).collect();
    for i in 0..4 {
        assert_eq!(tags[i], format!("phase-{}", phase_slug(ALL[i])));
        for j in 0..i {
            assert_ne!(tags[i], tags[j]);
        }
    }
    assert_eq!(phase_slug(Phase::Drift), "drift");
    assert_eq!(phase_slug(Phase::Refinement), "refinement");
    for (i, p) in ALL.iter().enumerate() {
        assert_eq!(p.index(), i);
        assert_eq!(Phase::at(i), Some(*p));
        assert_eq!(p.next(), Phase::at(i + 1));
    }
    assert_eq!(Phase::at(4), None);
}

#[test]
fn default_config_step_counts() {
    let c = config([200, 400, 300, 400]);
    assert_eq!(c.schedule.steps_in(Phase::CrustalFormation), 200);
    assert_eq!(c.schedule.steps_in(Phase::Drift), 400);
    assert_eq!(c.schedule.steps_in(Phase::Refinement), 300);
    assert_eq!(c.schedule.steps_in(Phase::RecentPast), 400);

    let sim = new_sim(c);
    assert_eq!(sim.total_steps(), 1300);
    assert_eq!(sim.current_phase(), Some(Phase::CrustalFormation));
    assert!(!sim.is_done());
}

#[test]
fn full_run_walks_every_phase_and_lands_on_total_time() {
    let c = short_config();
    let mut sim = new_sim(c);
    assert_eq!(NoopProcess.name(), "noop");
    let expected_steps: u64 = ALL.iter().map(|p| c.schedule.steps_in(*p)).sum();
    assert_eq!(expected_steps, 10 + 20 + 20 + 20);

    let events = run(&mut sim, false);

    assert!(sim.is_done());
    assert_eq!(sim.current_phase(), None);
    assert_eq!(sim.step_index, expected_steps);
    assert_eq!(sim.phase, Phase::RecentPast);

    // Phase events, in order, exactly once each.
    let phase_events: Vec<(bool, Phase)> = events
        .iter()
        .filter_map(|e| match e {
            SimEvent::PhaseStarted(phase) => Some((true, *phase)),
            SimEvent::PhaseCompleted(phase) => Some((false, *phase)),
            _ => None,
        })
        .collect();
    let expected: Vec<(bool, Phase)> = ALL.iter().flat_map(|p| [(true, *p), (false, *p)]).collect();
    assert_eq!(phase_events, expected);

    // One checkpoint per phase completion, in order.
    let mut store: MemoryStore<u64> = MemoryStore::new();
    for e in &events {
        if let SimEvent::Checkpoint(p) = e {
            store.save(&phase_tag(*p), 0);
        }
    }
    let expected_tags: Vec<String> = ALL.iter().map(|p| phase_tag(*p)).collect();
    assert_eq!(store.tags(), expected_tags);

    // Step events carry a monotone step within each phase and end at `of`.
    let mut last: Option<(Phase, u64, u64)> = None;
    for ev in &events {
        if let SimEvent::Step { phase, step, of } = ev {
            if let Some((lp, ls, _)) = last {
                if lp == *phase {
                    assert!(*step > ls);
                }
            }
            assert!(*step <= *of);
            last = Some((*phase, *step, *of));
        }
    }
    assert_eq!(
        last.map(|(p, s, of)| (p, s == of)),
        Some((Phase::RecentPast, true))
    );

    let narration = events
        .iter()
        .filter(|e| matches!(e, SimEvent::Narration(_)))
        .count();
    assert!(narration >= 8, "only {} narration lines", narration);
}

#[test]
fn every_step_belongs_to_the_phase_whose_turn_it_is() {
    let c = short_config();
    let mut sim = new_sim(c);
    for phase in ALL {
        for _ in 0..c.schedule.steps_in(phase) {
            assert_eq!(sim.current_phase(), Some(phase));
            assert!(step(&mut sim, false).is_some());
        }
    }
    assert!(step(&mut sim, false).is_none());
}

#[test]
fn zero_length_phases_are_skipped() {
    let mut sim = new_sim(config([0, 4, 0, 0]));
    assert_eq!(sim.current_phase(), Some(Phase::Drift));
    let events = run(&mut sim, false);
    assert_eq!(sim.step_index, 4);
    let saved: Vec<Phase> = events
        .iter()
        .filter_map(|e| match e {
            SimEvent::Checkpoint(p) => Some(*p),
            _ => None,
        })
        .collect();
    assert_eq!(saved, vec![Phase::Drift]);
}

#[test]
fn works_without_any_processes_and_publishes_snapshots() {
    let mut sim = new_sim(short_config());
    assert_eq!(sim.version, 0, "nothing published before a run");
    sim.set_publish_throttle(1);
    run(&mut sim, true);
    assert!(sim.version > 0);
    assert_eq!(sim.mesh_cells, 4);
    assert_eq!(sim.phase, Phase::RecentPast);
}

#[test]
fn snapshot_versions_strictly_increase() {
    let mut sim = new_sim(short_config());
    sim.set_publish_throttle(1);
    let mut versions = Vec::new();
    let mut published = Vec::new();
    while let Some(events) = step(&mut sim, true) {
        versions.push(sim.version);
        for e in events {
            if let SimEvent::Publish(v) = e {
                published.push(v);
            }
        }
    }
    assert!(versions.len() > 10);
    assert!(
        versions.windows(2).all(|w| w[1] > w[0]),
        "versions not strictly increasing: {versions:?}"
    );
    assert!(published.windows(2).all(|w| w[1] == w[0] + 1));
    // A regenerate must not rewind the version counter.
    let last = *versions.last().unwrap();
    let e = sim.reset(short_config(), 4, false);
    assert!(sim.version > last);
    assert_eq!(e, SimEvent::Publish(sim.version));
}

#[test]
fn throttled_publishing_is_rarer_than_stepping() {
    let mut sim = new_sim(short_config());
    // The only publishes are the phase boundaries: no time passes.
    run(&mut sim, false);
    let version = sim.version;
    assert!(version <= 8, "published {version} times for 70 steps");
    assert!(version >= 4, "phase boundaries must publish");
}

#[test]
fn step_events_are_throttled_to_about_200_per_phase() {
    let mut sim = new_sim(config([2000, 0, 0, 0]));
    let events = run(&mut sim, false);
    assert_eq!(sim.step_index, 2000);
    let steps = events
        .iter()
        .filter(|e| matches!(e, SimEvent::Step { .. }))
        .count();
    assert!(
        (190..=210).contains(&steps),
        "{steps} step events for 2000 steps"
    );

    let mut sim2 = new_sim(short_config());
    assert!(!run(&mut sim2, false).is_empty());
}

#[test]
fn a_mesh_that_adapts_is_rebuilt_between_phases_only() {
    let mut sim = Simulation::new(config([1, 1, 1, 1]), 100, true);
    let epochs: Vec<u64> = run(&mut sim, false)
        .iter()
        .filter_map(|e| match e {
            SimEvent::Retessellate { epoch } => Some(*epoch),
            _ => None,
        })
        .collect();
    assert_eq!(epochs, vec![1, 2, 3]);
}

#[test]
fn a_throttle_of_zero_steps_is_one() {
    let mut sim = new_sim(short_config());
    sim.set_publish_throttle(0);
    assert_eq!(sim.publish_steps, 1);
    sim.set_publish_throttle(7);
    assert_eq!(sim.publish_steps, 7);
}
