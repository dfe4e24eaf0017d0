//! What a whole run announces, saves and publishes, in order, and what it makes of a planet.
//!
//! The planet and what the processes do to it are left open: whatever they are, as long as they
//! go by the planet, the phase and the step alone.

use vstd::prelude::*;
use crate::phase::{
    index_of, lemma_before_mono, lemma_skip, phase_at, skip_empty, stands_at, Cursor, Phase,
    Schedule, PHASES,
};
use crate::sim::{
    a_fresh_run_stands_at_zero, a_run_makes_every_step, first_place,
    resuming_matches_an_uninterrupted_run, stepped, stepped_times, SimEvent, Simulation,
};

verus! {

/// The events of one whole step.
pub open spec fn step_events(sim: Simulation, elapsed: bool) -> Seq<SimEvent> {
    match phase_at(sim.cursor.phase_idx as int) {
        Some(p) => sim.begun(p).1 + sim.begun(p).0.ended(p, elapsed).1,
        None => Seq::empty(),
    }
}

/// The events of as many steps as `elapsed` has entries.
pub open spec fn run_events(sim: Simulation, elapsed: Seq<bool>) -> Seq<SimEvent>
    decreases elapsed.len(),
{
    if elapsed.len() == 0 {
        Seq::empty()
    } else {
        run_events(sim, elapsed.drop_last()) + step_events(
            stepped_times(sim, elapsed.drop_last()),
            elapsed.last(),
        )
    }
}

/// The events that `pred` admits, in order.
pub open spec fn kept(events: Seq<SimEvent>, pred: spec_fn(SimEvent) -> bool) -> Seq<SimEvent>
    decreases events.len(),
{
    if events.len() == 0 {
        Seq::empty()
    } else if pred(events.last()) {
        kept(events.drop_last(), pred).push(events.last())
    } else {
        kept(events.drop_last(), pred)
    }
}

/// Everything but snapshots.
pub open spec fn no_snapshot() -> spec_fn(SimEvent) -> bool {
    |e: SimEvent| !(e is Publish)
}

/// The start of a phase, its checkpoint and its completion.
pub open spec fn milestone() -> spec_fn(SimEvent) -> bool {
    |e: SimEvent| e is PhaseStarted || e is Checkpoint || e is PhaseCompleted
}

proof fn lemma_kept_joins(a: Seq<SimEvent>, b: Seq<SimEvent>, pred: spec_fn(SimEvent) -> bool)
    ensures
        kept(a + b, pred) == kept(a, pred) + kept(b, pred),
    decreases b.len(),
{
    if b.len() == 0 {
        assert(a + b =~= a);
    } else {
        lemma_kept_joins(a, b.drop_last(), pred);
        assert((a + b).drop_last() =~= a + b.drop_last());
    }
}

proof fn lemma_kept_push(s: Seq<SimEvent>, e: SimEvent, pred: spec_fn(SimEvent) -> bool)
    ensures
        kept(s.push(e), pred) == (if pred(e) {
            kept(s, pred).push(e)
        } else {
            kept(s, pred)
        }),
{
    assert(s.push(e).drop_last() =~= s);
}

/// Two runs take the same course: they differ in their snapshots at most.
pub open spec fn same_course(a: Simulation, b: Simulation) -> bool {
    a == (Simulation {
        version: a.version,
        publish_steps: a.publish_steps,
        last_publish_step: a.last_publish_step,
        ..b
    })
}

/// What a report keeps besides snapshots.
proof fn lemma_reported_kept(a: Simulation, b: Simulation, p: Phase, ea: bool, eb: bool)
    requires
        same_course(a, b),
    ensures
        same_course(a.reported(p, ea).0, b.reported(p, eb).0),
        kept(a.reported(p, ea).1, no_snapshot()) == kept(b.reported(p, eb).1, no_snapshot()),
{
    let plain = b.reported(p, false).1;
    assert(a.reported(p, false).1 == plain);
    lemma_kept_push(plain, SimEvent::Publish((a.version + 1) as u64), no_snapshot());
    lemma_kept_push(plain, SimEvent::Publish((b.version + 1) as u64), no_snapshot());
}

/// What the completion of a phase keeps besides snapshots.
proof fn lemma_completed_kept(a: Simulation, b: Simulation, p: Phase)
    requires
        same_course(a, b),
    ensures
        same_course(a.completed(p).0, b.completed(p).0),
        kept(a.completed(p).1, no_snapshot()) == kept(b.completed(p).1, no_snapshot()),
{
    let ea = a.completed(p).1;
    let eb = b.completed(p).1;
    assert(ea.drop_last() =~= eb.drop_last());
    assert(no_snapshot()(ea.last()) == false);
    assert(no_snapshot()(eb.last()) == false);
}

/// What the start of a step keeps besides snapshots.
proof fn lemma_begun_kept(a: Simulation, b: Simulation, p: Phase)
    requires
        same_course(a, b),
    ensures
        same_course(a.begun(p).0, b.begun(p).0),
        kept(a.begun(p).1, no_snapshot()) == kept(b.begun(p).1, no_snapshot()),
{
    let ea = a.begun(p).1;
    let eb = b.begun(p).1;
    if a.cursor.step_in_phase == 0 {
        assert(ea.drop_last() =~= eb.drop_last());
        assert(no_snapshot()(ea.last()) == false);
        assert(no_snapshot()(eb.last()) == false);
    }
}

proof fn lemma_step_kept(a: Simulation, b: Simulation, ea: bool, eb: bool)
    requires
        same_course(a, b),
    ensures
        same_course(stepped(a, ea), stepped(b, eb)),
        kept(step_events(a, ea), no_snapshot()) == kept(step_events(b, eb), no_snapshot()),
{
    if phase_at(a.cursor.phase_idx as int) is Some {
        let p = phase_at(a.cursor.phase_idx as int)->0;
        lemma_begun_kept(a, b, p);
        let (ta, ba) = a.begun(p);
        let (tb, bb) = b.begun(p);
        lemma_reported_kept(ta.counted(), tb.counted(), p, ea, eb);
        let (da, ra) = ta.counted().reported(p, ea);
        let (db, rb) = tb.counted().reported(p, eb);
        if da.cursor.step_in_phase >= ta.config.schedule.steps(p) {
            lemma_completed_kept(da, db, p);
            lemma_kept_joins(ra, da.completed(p).1, no_snapshot());
            lemma_kept_joins(rb, db.completed(p).1, no_snapshot());
        }
        lemma_kept_joins(ba, ta.ended(p, ea).1, no_snapshot());
        lemma_kept_joins(bb, tb.ended(p, eb).1, no_snapshot());
    }
}

/// Snapshots do not steer: two runs of one configuration that make the same number of steps
/// stand at the same place and have announced and saved the same things in the same order,
/// whenever their snapshots were due.
pub proof fn snapshots_do_not_steer(
    a: Simulation,
    b: Simulation,
    due_a: Seq<bool>,
    due_b: Seq<bool>,
)
    requires
        same_course(a, b),
        due_a.len() == due_b.len(),
    ensures
        same_course(stepped_times(a, due_a), stepped_times(b, due_b)),
        kept(run_events(a, due_a), no_snapshot()) == kept(run_events(b, due_b), no_snapshot()),
    decreases due_a.len(),
{
    if due_a.len() > 0 {
        snapshots_do_not_steer(a, b, due_a.drop_last(), due_b.drop_last());
        let sa = stepped_times(a, due_a.drop_last());
        let sb = stepped_times(b, due_b.drop_last());
        lemma_step_kept(sa, sb, due_a.last(), due_b.last());
        lemma_kept_joins(
            run_events(a, due_a.drop_last()),
            step_events(sa, due_a.last()),
            no_snapshot(),
        );
        lemma_kept_joins(
            run_events(b, due_b.drop_last()),
            step_events(sb, due_b.last()),
            no_snapshot(),
        );
    }
}

/// What the phases before position `i` leave behind: each that has steps starts, is saved and
/// completes, in order.
pub open spec fn annals(s: Schedule, i: int) -> Seq<SimEvent>
    decreases i,
{
    if i <= 0 {
        Seq::empty()
    } else {
        match phase_at(i - 1) {
            Some(p) => if s.steps(p) > 0 {
                annals(s, i - 1) + seq![
                    SimEvent::PhaseStarted(p),
                    SimEvent::Checkpoint(p),
                    SimEvent::PhaseCompleted(p),
                ]
            } else {
                annals(s, i - 1)
            },
            None => annals(s, i - 1),
        }
    }
}

/// Phases without steps leave nothing behind.
proof fn lemma_annals_skip(s: Schedule, i: int)
    requires
        0 <= i <= PHASES,
    ensures
        annals(s, skip_empty(s, i)) == annals(s, i),
    decreases PHASES - i,
{
    if i < PHASES && s.steps_at(i) == 0 {
        lemma_annals_skip(s, i + 1);
    }
}

/// The milestones of a run that stands where `sim` does.
spec fn milestones_so_far(sim: Simulation) -> Seq<SimEvent> {
    let i = sim.cursor.phase_idx as int;
    if sim.cursor.step_in_phase == 0 {
        annals(sim.config.schedule, i)
    } else {
        annals(sim.config.schedule, i).push(SimEvent::PhaseStarted(phase_at(i)->0))
    }
}

proof fn lemma_step_milestones(sim: Simulation, elapsed: bool)
    requires
        sim.wf(),
        sim.cursor.phase_idx < PHASES,
    ensures
        milestones_so_far(sim) + kept(step_events(sim, elapsed), milestone()) == milestones_so_far(
            stepped(sim, elapsed),
        ),
{
    let m = milestone();
    let s = sim.config.schedule;
    let i = sim.cursor.phase_idx as int;
    let p = phase_at(i)->0;
    let (t, b) = sim.begun(p);
    let (told, r) = t.counted().reported(p, elapsed);
    let none = Seq::<SimEvent>::empty();
    assert(kept(none, m) == none);
    if sim.cursor.step_in_phase == 0 {
        let s1 = none.push(SimEvent::PhaseStarted(p));
        let s2 = s1.push(SimEvent::Narration(p));
        let s3 = s2.push(SimEvent::Publish((sim.version + 1) as u64));
        lemma_kept_push(none, SimEvent::PhaseStarted(p), m);
        lemma_kept_push(s1, SimEvent::Narration(p), m);
        lemma_kept_push(s2, SimEvent::Publish((sim.version + 1) as u64), m);
        assert(b =~= s3);
    }
    lemma_reported_milestones(t.counted(), p, elapsed);
    assert(kept(r, m) == none);
    lemma_kept_joins(b, t.ended(p, elapsed).1, m);
    if told.cursor.step_in_phase >= s.steps(p) {
        let (done, more) = told.completed(p);
        lemma_completed_milestones(told, p);
        lemma_kept_joins(r, more, m);
        lemma_skip(s, i + 1);
        lemma_annals_skip(s, i + 1);
        assert(milestones_so_far(sim) + kept(step_events(sim, elapsed), m) =~= annals(s, i) + seq![
            SimEvent::PhaseStarted(p),
            SimEvent::Checkpoint(p),
            SimEvent::PhaseCompleted(p),
        ]);
    } else {
        assert(milestones_so_far(sim) + kept(step_events(sim, elapsed), m) =~= annals(s, i).push(
            SimEvent::PhaseStarted(p),
        ));
    }
}

/// Reports, narration and snapshots are no milestones.
proof fn lemma_reported_milestones(sim: Simulation, p: Phase, elapsed: bool)
    ensures
        kept(sim.reported(p, elapsed).1, milestone()) == Seq::<SimEvent>::empty(),
{
    let m = milestone();
    let step = sim.cursor.step_in_phase;
    let of = sim.config.schedule.steps(p) as u64;
    let none = Seq::<SimEvent>::empty();
    let e = SimEvent::Step { phase: p, step, of };
    let publish = SimEvent::Publish((sim.version + 1) as u64);
    lemma_kept_push(none, e, m);
    assert(none.push(e) =~= seq![e]);
    lemma_kept_push(none, SimEvent::Narration(p), m);
    lemma_kept_push(none.push(e), SimEvent::Narration(p), m);
    lemma_kept_push(none, publish, m);
    lemma_kept_push(none.push(e), publish, m);
    lemma_kept_push(none.push(SimEvent::Narration(p)), publish, m);
    lemma_kept_push(none.push(e).push(SimEvent::Narration(p)), publish, m);
}

/// A completed phase is saved, then complete.
proof fn lemma_completed_milestones(sim: Simulation, p: Phase)
    ensures
        kept(sim.completed(p).1, milestone()) == seq![
            SimEvent::Checkpoint(p),
            SimEvent::PhaseCompleted(p),
        ],
{
    let m = milestone();
    let more = sim.completed(p).1;
    let publish = SimEvent::Publish((sim.version + 1) as u64);
    let none = Seq::<SimEvent>::empty();
    let rebuild = SimEvent::Retessellate { epoch: (index_of(p) + 1) as u64 };
    lemma_kept_push(none, rebuild, m);
    assert(none.push(rebuild) =~= seq![rebuild]);
    let first = if phase_at(index_of(p) + 1) is Some && sim.mesh_adapts {
        none.push(rebuild)
    } else {
        none
    };
    let s1 = first.push(SimEvent::Checkpoint(p));
    let s2 = s1.push(SimEvent::PhaseCompleted(p));
    let s3 = s2.push(SimEvent::Narration(p));
    lemma_kept_push(first, SimEvent::Checkpoint(p), m);
    lemma_kept_push(s1, SimEvent::PhaseCompleted(p), m);
    lemma_kept_push(s2, SimEvent::Narration(p), m);
    lemma_kept_push(s3, publish, m);
    assert(more =~= s3.push(publish));
    assert(kept(more, m) =~= seq![SimEvent::Checkpoint(p), SimEvent::PhaseCompleted(p)]);
}

/// Over a whole run each phase with steps starts once, is saved once and completes once, in
/// the order of the phases; phases without steps do none of it.
pub proof fn every_phase_runs_once(fresh: Simulation, elapsed: Seq<bool>)
    requires
        fresh.wf(),
        fresh.step_index == 0,
        fresh.cursor == first_place(fresh.config.schedule),
        elapsed.len() == fresh.config.schedule.total(),
    ensures
        kept(run_events(fresh, elapsed), milestone()) == annals(
            fresh.config.schedule,
            PHASES as int,
        ),
{
    a_fresh_run_stands_at_zero(fresh.config.schedule);
    lemma_run_milestones(fresh, elapsed);
    a_run_makes_every_step(fresh, elapsed);
}

proof fn lemma_run_milestones(fresh: Simulation, elapsed: Seq<bool>)
    requires
        fresh.wf(),
        fresh.step_index == 0,
        fresh.cursor == first_place(fresh.config.schedule),
        stands_at(fresh.config.schedule, 0, fresh.cursor),
        elapsed.len() <= fresh.config.schedule.total(),
    ensures
        kept(run_events(fresh, elapsed), milestone()) == milestones_so_far(
            stepped_times(fresh, elapsed),
        ),
    decreases elapsed.len(),
{
    let s = fresh.config.schedule;
    if elapsed.len() == 0 {
        lemma_skip(s, 0);
        lemma_annals_skip(s, 0);
    } else {
        let before = elapsed.drop_last();
        lemma_run_milestones(fresh, before);
        a_run_makes_every_step(fresh, before);
        let sim = stepped_times(fresh, before);
        lemma_step_milestones(sim, elapsed.last());
        lemma_kept_joins(run_events(fresh, before), step_events(sim, elapsed.last()), milestone());
    }
}

/// The planet after the mesh has been rebuilt wherever `events` ask for it. `rebuild` gives the
/// planet on the mesh of an era.
pub open spec fn rebuilt<P>(
    planet: P,
    rebuild: spec_fn(P, u64) -> P,
    events: Seq<SimEvent>,
) -> P
    decreases events.len(),
{
    if events.len() == 0 {
        planet
    } else {
        let before = rebuilt(planet, rebuild, events.drop_last());
        match events.last() {
            SimEvent::Retessellate { epoch } => rebuild(before, epoch),
            _ => before,
        }
    }
}

/// The planet after one whole step: the processes work on it, and the mesh is rebuilt where the
/// step asks for it. `work` gives what the processes make of a planet in a phase at a step.
pub open spec fn planet_stepped<P>(
    sim: Simulation,
    planet: P,
    work: spec_fn(P, Phase, u64) -> P,
    rebuild: spec_fn(P, u64) -> P,
    elapsed: bool,
) -> P {
    match phase_at(sim.cursor.phase_idx as int) {
        Some(p) => rebuilt(work(planet, p, sim.step_index), rebuild, step_events(sim, elapsed)),
        None => planet,
    }
}

/// The planet after as many steps as `elapsed` has entries.
pub open spec fn planet_after<P>(
    sim: Simulation,
    planet: P,
    work: spec_fn(P, Phase, u64) -> P,
    rebuild: spec_fn(P, u64) -> P,
    elapsed: Seq<bool>,
) -> P
    decreases elapsed.len(),
{
    if elapsed.len() == 0 {
        planet
    } else {
        planet_stepped(
            stepped_times(sim, elapsed.drop_last()),
            planet_after(sim, planet, work, rebuild, elapsed.drop_last()),
            work,
            rebuild,
            elapsed.last(),
        )
    }
}

/// Snapshots rebuild nothing.
proof fn lemma_rebuilt_kept<P>(planet: P, rebuild: spec_fn(P, u64) -> P, events: Seq<SimEvent>)
    ensures
        rebuilt(planet, rebuild, events) == rebuilt(
            planet,
            rebuild,
            kept(events, no_snapshot()),
        ),
    decreases events.len(),
{
    if events.len() > 0 {
        lemma_rebuilt_kept(planet, rebuild, events.drop_last());
        let before = kept(events.drop_last(), no_snapshot());
        assert(before.push(events.last()).drop_last() =~= before);
    }
}

/// The two runs have the same steps before them: they differ at most in the phase last noted,
/// in how many cells their meshes have, and in their snapshots.
pub open spec fn as_far(a: Simulation, b: Simulation) -> bool {
    &&& a.config == b.config
    &&& a.cursor == b.cursor
    &&& a.step_index == b.step_index
    &&& a.mesh_adapts == b.mesh_adapts
}

/// `b` is `a` but for the phase last noted and the cells of the mesh.
spec fn noted_otherwise(a: Simulation, b: Simulation) -> bool {
    b == (Simulation { phase: b.phase, mesh_cells: b.mesh_cells, ..a })
}

/// Neither the phase last noted nor the cells of the mesh steer a step.
proof fn lemma_notes_do_not_steer(a: Simulation, b: Simulation, elapsed: bool)
    requires
        noted_otherwise(a, b),
    ensures
        noted_otherwise(stepped(a, elapsed), stepped(b, elapsed)),
        step_events(a, elapsed) == step_events(b, elapsed),
{
    if phase_at(a.cursor.phase_idx as int) is Some {
        let p = phase_at(a.cursor.phase_idx as int)->0;
        assert(a.begun(p).1 == b.begun(p).1);
        let (ta, tb) = (a.begun(p).0.counted(), b.begun(p).0.counted());
        assert(noted_otherwise(ta, tb));
        lemma_reported_alike(ta, tb, p, elapsed);
        let (da, db) = (ta.reported(p, elapsed).0, tb.reported(p, elapsed).0);
        assert(da.completed(p).1 == db.completed(p).1);
        assert(noted_otherwise(da.completed(p).0, db.completed(p).0));
    }
}

/// Nor do they steer what is reported.
proof fn lemma_reported_alike(a: Simulation, b: Simulation, p: Phase, elapsed: bool)
    requires
        noted_otherwise(a, b),
    ensures
        noted_otherwise(a.reported(p, elapsed).0, b.reported(p, elapsed).0),
        a.reported(p, elapsed).1 == b.reported(p, elapsed).1,
{
}

/// Runs that have the same steps before them make the same step, and rebuild the same.
proof fn lemma_same_step<P>(
    a: Simulation,
    b: Simulation,
    planet: P,
    rebuild: spec_fn(P, u64) -> P,
    ea: bool,
    eb: bool,
)
    requires
        as_far(a, b),
    ensures
        as_far(stepped(a, ea), stepped(b, eb)),
        rebuilt(planet, rebuild, step_events(a, ea)) == rebuilt(
            planet,
            rebuild,
            step_events(b, eb),
        ),
{
    let c = Simulation { phase: b.phase, mesh_cells: b.mesh_cells, ..a };
    lemma_notes_do_not_steer(a, c, ea);
    lemma_step_kept(c, b, ea, eb);
    lemma_rebuilt_kept(planet, rebuild, step_events(a, ea));
    lemma_rebuilt_kept(planet, rebuild, step_events(b, eb));
}

/// Two runs make one planet: runs that have the same steps before them, and so any two of one
/// configuration, end with the same planet after the same number of steps, whenever their
/// snapshots were due.
pub proof fn two_runs_make_one_planet<P>(
    a: Simulation,
    b: Simulation,
    planet: P,
    work: spec_fn(P, Phase, u64) -> P,
    rebuild: spec_fn(P, u64) -> P,
    due_a: Seq<bool>,
    due_b: Seq<bool>,
)
    requires
        as_far(a, b),
        due_a.len() == due_b.len(),
    ensures
        planet_after(a, planet, work, rebuild, due_a) == planet_after(
            b,
            planet,
            work,
            rebuild,
            due_b,
        ),
        as_far(stepped_times(a, due_a), stepped_times(b, due_b)),
    decreases due_a.len(),
{
    if due_a.len() > 0 {
        let (ea, eb) = (due_a.drop_last(), due_b.drop_last());
        two_runs_make_one_planet(a, b, planet, work, rebuild, ea, eb);
        let (sa, sb) = (stepped_times(a, ea), stepped_times(b, eb));
        let before = planet_after(a, planet, work, rebuild, ea);
        let worked = match phase_at(sa.cursor.phase_idx as int) {
            Some(p) => work(before, p, sa.step_index),
            None => before,
        };
        lemma_same_step(sa, sb, worked, rebuild, due_a.last(), due_b.last());
    }
}

/// A run can be cut in two: the steps of `first` and then those of `second` are the steps of
/// both together.
pub proof fn a_run_can_be_cut_in_two<P>(
    sim: Simulation,
    planet: P,
    work: spec_fn(P, Phase, u64) -> P,
    rebuild: spec_fn(P, u64) -> P,
    first: Seq<bool>,
    second: Seq<bool>,
)
    ensures
        stepped_times(sim, first + second) == stepped_times(stepped_times(sim, first), second),
        planet_after(sim, planet, work, rebuild, first + second) == planet_after(
            stepped_times(sim, first),
            planet_after(sim, planet, work, rebuild, first),
            work,
            rebuild,
            second,
        ),
    decreases second.len(),
{
    if second.len() == 0 {
        assert(first + second =~= first);
    } else {
        a_run_can_be_cut_in_two(sim, planet, work, rebuild, first, second.drop_last());
        assert((first + second).drop_last() =~= first + second.drop_last());
        assert((first + second).last() == second.last());
    }
}

/// A resumed run ends as the uninterrupted one: a planet that is stored after the steps of
/// `first`, and taken up where its step count stands in the schedule, is after the steps of
/// `later` what the uninterrupted run makes of it in as many.
pub proof fn a_resumed_run_ends_as_the_uninterrupted_one<P>(
    fresh: Simulation,
    resumed: Simulation,
    planet: P,
    work: spec_fn(P, Phase, u64) -> P,
    rebuild: spec_fn(P, u64) -> P,
    first: Seq<bool>,
    second: Seq<bool>,
    later: Seq<bool>,
)
    requires
        fresh.wf(),
        fresh.step_index == 0,
        fresh.cursor == first_place(fresh.config.schedule),
        first.len() <= fresh.config.schedule.total(),
        second.len() == later.len(),
        resumed.config == fresh.config,
        resumed.step_index == first.len(),
        stands_at(fresh.config.schedule, first.len(), resumed.cursor),
        resumed.mesh_adapts == fresh.mesh_adapts,
    ensures
        planet_after(
            resumed,
            planet_after(fresh, planet, work, rebuild, first),
            work,
            rebuild,
            later,
        ) == planet_after(fresh, planet, work, rebuild, first + second),
        as_far(stepped_times(resumed, later), stepped_times(fresh, first + second)),
{
    let at = stepped_times(fresh, first);
    resuming_matches_an_uninterrupted_run(fresh, first, resumed.cursor);
    a_fresh_run_stands_at_zero(fresh.config.schedule);
    a_run_makes_every_step(fresh, first);
    lemma_mesh_stays(fresh, first);
    a_run_can_be_cut_in_two(fresh, planet, work, rebuild, first, second);
    let stored = planet_after(fresh, planet, work, rebuild, first);
    two_runs_make_one_planet(resumed, at, stored, work, rebuild, later, second);
}

/// Steps leave alone whether the mesh can be rebuilt.
proof fn lemma_mesh_stays(sim: Simulation, elapsed: Seq<bool>)
    ensures
        stepped_times(sim, elapsed).mesh_adapts == sim.mesh_adapts,
    decreases elapsed.len(),
{
    if elapsed.len() > 0 {
        lemma_mesh_stays(sim, elapsed.drop_last());
    }
}

/// Running a phase again ends as the uninterrupted run: from the planet that was saved when all
/// the phases before `phase` were complete, the run that starts `phase` anew makes in the steps
/// of `later` what the uninterrupted run makes in as many.
pub proof fn a_rerun_ends_as_the_uninterrupted_one<P>(
    fresh: Simulation,
    rerun: Simulation,
    phase: Phase,
    planet: P,
    work: spec_fn(P, Phase, u64) -> P,
    rebuild: spec_fn(P, u64) -> P,
    first: Seq<bool>,
    second: Seq<bool>,
    later: Seq<bool>,
)
    requires
        fresh.wf(),
        fresh.step_index == 0,
        fresh.cursor == first_place(fresh.config.schedule),
        first.len() == fresh.config.schedule.before(index_of(phase)),
        second.len() == later.len(),
        rerun.config == fresh.config,
        rerun.step_index == first.len(),
        rerun.cursor == (Cursor {
            phase_idx: skip_empty(fresh.config.schedule, index_of(phase)) as usize,
            step_in_phase: 0,
        }),
        rerun.mesh_adapts == fresh.mesh_adapts,
    ensures
        planet_after(
            rerun,
            planet_after(fresh, planet, work, rebuild, first),
            work,
            rebuild,
            later,
        ) == planet_after(fresh, planet, work, rebuild, first + second),
        as_far(stepped_times(rerun, later), stepped_times(fresh, first + second)),
{
    let s = fresh.config.schedule;
    let i = index_of(phase);
    lemma_skip(s, i);
    lemma_before_mono(s, i, PHASES as int);
    let j = skip_empty(s, i);
    if j < PHASES {
        lemma_before_mono(s, j + 1, PHASES as int);
    }
    a_resumed_run_ends_as_the_uninterrupted_one(
        fresh,
        rerun,
        planet,
        work,
        rebuild,
        first,
        second,
        later,
    );
}

/// Starting over repeats the run: a simulation that is reset, whatever it has done, makes of a
/// planet what a fresh one with the same configuration makes of it. Running the first phase
/// again is starting over on the mesh at hand.
pub proof fn starting_over_repeats_the_run<P>(
    sim: Simulation,
    fresh: Simulation,
    cells: usize,
    planet: P,
    work: spec_fn(P, Phase, u64) -> P,
    rebuild: spec_fn(P, u64) -> P,
    due: Seq<bool>,
    due_fresh: Seq<bool>,
)
    requires
        fresh.step_index == 0,
        fresh.cursor == first_place(fresh.config.schedule),
        due.len() == due_fresh.len(),
    ensures
        ({
            let again = sim.restarted(fresh.config, cells, fresh.mesh_adapts);
            planet_after(again, planet, work, rebuild, due) == planet_after(
                fresh,
                planet,
                work,
                rebuild,
                due_fresh,
            )
        }),
{
    let again = sim.restarted(fresh.config, cells, fresh.mesh_adapts);
    two_runs_make_one_planet(again, fresh, planet, work, rebuild, due, due_fresh);
}

} // verus!
