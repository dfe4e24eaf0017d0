//! The four eras of a planet's history, and where a run stands in them.

use vstd::prelude::*;

verus! {

/// Number of phases.
pub const PHASES: usize = 4;

/// An era of the planet's history.
#[derive(Clone, Copy, Debug, PartialEq, Eq, Structural)]
pub enum Phase {
    CrustalFormation,
    Drift,
    Refinement,
    RecentPast,
}

/// The phase at position `i`, if there is one.
pub open spec fn phase_at(i: int) -> Option<Phase> {
    if i == 0 {
        Some(Phase::CrustalFormation)
    } else if i == 1 {
        Some(Phase::Drift)
    } else if i == 2 {
        Some(Phase::Refinement)
    } else if i == 3 {
        Some(Phase::RecentPast)
    } else {
        None
    }
}

/// The position of a phase.
pub open spec fn index_of(p: Phase) -> int {
    match p {
        Phase::CrustalFormation => 0,
        Phase::Drift => 1,
        Phase::Refinement => 2,
        Phase::RecentPast => 3,
    }
}

impl Phase {
    /// The phase at position `i`, if there is one.
    pub fn at(i: usize) -> (p: Option<Phase>)
        ensures
            p == phase_at(i as int),
    {
        if i == 0 {
            Some(Phase::CrustalFormation)
        } else if i == 1 {
            Some(Phase::Drift)
        } else if i == 2 {
            Some(Phase::Refinement)
        } else if i == 3 {
            Some(Phase::RecentPast)
        } else {
            None
        }
    }

    /// The position of the phase.
    pub fn index(self) -> (i: usize)
        ensures
            i == index_of(self),
            i < PHASES,
    {
        match self {
            Phase::CrustalFormation => 0,
            Phase::Drift => 1,
            Phase::Refinement => 2,
            Phase::RecentPast => 3,
        }
    }

    /// The phase after this one, if there is one.
    pub fn next(self) -> (p: Option<Phase>)
        ensures
            p == phase_at(index_of(self) + 1),
    {
        Phase::at(self.index() + 1)
    }
}

/// The name of a phase in checkpoint tags.
pub open spec fn slug_of(p: Phase) -> Seq<char> {
    match p {
        Phase::CrustalFormation => "crustal_formation"@,
        Phase::Drift => "drift"@,
        Phase::Refinement => "refinement"@,
        Phase::RecentPast => "recent_past"@,
    }
}

/// Stable, filesystem-safe name of a phase, used in checkpoint tags.
pub fn phase_slug(phase: Phase) -> (s: &'static str)
    ensures
        s@ == slug_of(phase),
{
    match phase {
        Phase::CrustalFormation => "crustal_formation",
        Phase::Drift => "drift",
        Phase::Refinement => "refinement",
        Phase::RecentPast => "recent_past",
    }
}

/// Checkpoint tag written when `phase` completes: `phase-<slug>`.
pub fn phase_tag(phase: Phase) -> (s: String)
    ensures
        s@ == "phase-"@ + slug_of(phase),
{
    let mut s = "phase-".to_owned();
    s.append(phase_slug(phase));
    s
}

/// Different phases have different tags.
pub proof fn tags_differ(a: Phase, b: Phase)
    requires
        a != b,
    ensures
        "phase-"@ + slug_of(a) != "phase-"@ + slug_of(b),
{
    reveal_strlit("phase-");
    reveal_strlit("crustal_formation");
    reveal_strlit("drift");
    reveal_strlit("refinement");
    reveal_strlit("recent_past");
    let sa = "phase-"@ + slug_of(a);
    let sb = "phase-"@ + slug_of(b);
    if sa == sb {
        assert(sa.len() == sb.len());
        assert(sa[6] == slug_of(a)[0]);
        assert(sb[6] == slug_of(b)[0]);
        assert(sa[8] == slug_of(a)[2]);
        assert(sb[8] == slug_of(b)[2]);
    }
}

/// How many steps each phase takes.
#[derive(Clone, Copy, Debug, PartialEq, Eq, Structural)]
pub struct Schedule {
    pub crustal_formation: u64,
    pub drift: u64,
    pub refinement: u64,
    pub recent_past: u64,
}

impl Schedule {
    /// Steps of phase `p`.
    pub open spec fn steps(self, p: Phase) -> nat {
        match p {
            Phase::CrustalFormation => self.crustal_formation as nat,
            Phase::Drift => self.drift as nat,
            Phase::Refinement => self.refinement as nat,
            Phase::RecentPast => self.recent_past as nat,
        }
    }

    /// Steps of the phase at position `i`.
    pub open spec fn steps_at(self, i: int) -> nat {
        match phase_at(i) {
            Some(p) => self.steps(p),
            None => 0,
        }
    }

    /// Steps of the phases before position `i`.
    pub open spec fn before(self, i: int) -> nat
        decreases i,
    {
        if i <= 0 {
            0
        } else {
            self.before(i - 1) + self.steps_at(i - 1)
        }
    }

    /// Steps of the whole run.
    pub open spec fn total(self) -> nat {
        self.before(PHASES as int)
    }

    /// The whole run can be counted.
    pub open spec fn wf(self) -> bool {
        self.total() <= u64::MAX
    }

    /// Steps of phase `p`.
    pub fn steps_in(&self, p: Phase) -> (n: u64)
        ensures
            n == self.steps(p),
    {
        match p {
            Phase::CrustalFormation => self.crustal_formation,
            Phase::Drift => self.drift,
            Phase::Refinement => self.refinement,
            Phase::RecentPast => self.recent_past,
        }
    }

    /// Steps of the whole run.
    pub fn total_steps(&self) -> (n: u64)
        requires
            self.wf(),
        ensures
            n == self.total(),
    {
        proof {
            lemma_total(*self);
        }
        self.crustal_formation + self.drift + self.refinement + self.recent_past
    }
}

pub proof fn lemma_total(s: Schedule)
    ensures
        s.before(1) == s.crustal_formation,
        s.before(2) == s.crustal_formation + s.drift,
        s.before(3) == s.crustal_formation + s.drift + s.refinement,
        s.total() == s.crustal_formation + s.drift + s.refinement + s.recent_past,
{
    reveal_with_fuel(Schedule::before, 5);
}

/// Where a run stands: which phase, and how many of its steps are done.
#[derive(Clone, Copy, Debug, PartialEq, Eq, Structural)]
pub struct Cursor {
    /// Position of the phase; [`PHASES`] once the run is finished.
    pub phase_idx: usize,
    /// Steps of that phase that are done.
    pub step_in_phase: u64,
}

/// The end of a run.
pub open spec fn the_end() -> Cursor {
    Cursor { phase_idx: PHASES, step_in_phase: 0 }
}

/// The first phase from position `i` on that has steps; [`PHASES`] if none has.
pub open spec fn skip_empty(s: Schedule, i: int) -> int
    decreases PHASES - i,
{
    if i >= PHASES || s.steps_at(i) > 0 {
        i
    } else {
        skip_empty(s, i + 1)
    }
}

/// `c` is where a run stands after `n` steps: `n` steps lie before it, in a phase that
/// goes on; past all phases once `n` steps are all there are.
pub open spec fn stands_at(s: Schedule, n: nat, c: Cursor) -> bool {
    if n < s.total() {
        &&& c.phase_idx < PHASES
        &&& c.step_in_phase < s.steps_at(c.phase_idx as int)
        &&& s.before(c.phase_idx as int) + c.step_in_phase == n
    } else {
        c == the_end()
    }
}

impl Cursor {
    /// The end of a run.
    pub fn done() -> (c: Cursor)
        ensures
            c == the_end(),
    {
        Cursor { phase_idx: PHASES, step_in_phase: 0 }
    }

    /// The start of a run.
    pub fn start() -> (c: Cursor)
        ensures
            c == (Cursor { phase_idx: 0, step_in_phase: 0 }),
    {
        Cursor { phase_idx: 0, step_in_phase: 0 }
    }

    /// Where a run stands after `step_index` steps. Phases without steps are skipped.
    pub fn from_step_index(s: &Schedule, step_index: u64) -> (c: Cursor)
        ensures
            stands_at(*s, step_index as nat, c),
    {
        let mut rem: u64 = step_index;
        let mut i: usize = 0;
        while i < PHASES
            invariant
                i <= PHASES,
                step_index == s.before(i as int) + rem,
            decreases PHASES - i,
        {
            proof {
                lemma_before_mono(*s, i + 1, PHASES as int);
            }
            let p = match i {
                0 => Phase::CrustalFormation,
                1 => Phase::Drift,
                2 => Phase::Refinement,
                _ => Phase::RecentPast,
            };
            let steps = s.steps_in(p);
            if rem < steps {
                return Cursor { phase_idx: i, step_in_phase: rem };
            }
            rem = rem - steps;
            i = i + 1;
        }
        Cursor::done()
    }

    /// The phase that is being stepped; none once the run is finished.
    pub fn phase(&self) -> (p: Option<Phase>)
        ensures
            p == phase_at(self.phase_idx as int),
    {
        Phase::at(self.phase_idx)
    }

    /// Skips forward over phases without steps, so that the phase is one that runs.
    pub fn normalized(self, s: &Schedule) -> (c: Cursor)
        requires
            self.phase_idx <= PHASES,
        ensures
            c.phase_idx == skip_empty(*s, self.phase_idx as int),
            c.step_in_phase == (if c.phase_idx == self.phase_idx {
                self.step_in_phase
            } else {
                0
            }),
            c.phase_idx <= PHASES,
    {
        let mut c = self;
        while c.phase_idx < PHASES
            invariant_except_break
                skip_empty(*s, self.phase_idx as int) == skip_empty(*s, c.phase_idx as int),
            invariant
                self.phase_idx <= c.phase_idx <= PHASES,
                c.step_in_phase == (if c.phase_idx == self.phase_idx {
                    self.step_in_phase
                } else {
                    0
                }),
            ensures
                c.phase_idx == skip_empty(*s, self.phase_idx as int),
            decreases PHASES - c.phase_idx,
        {
            let steps: u64 = match c.phase() {
                Some(p) => s.steps_in(p),
                None => 0,
            };
            if steps > 0 {
                break;
            }
            c = Cursor { phase_idx: c.phase_idx + 1, step_in_phase: 0 };
        }
        c
    }
}

pub proof fn lemma_before_mono(s: Schedule, a: int, b: int)
    requires
        a <= b,
    ensures
        s.before(a) <= s.before(b),
    decreases b - a,
{
    if a < b {
        lemma_before_mono(s, a, b - 1);
    }
}

/// Skipping phases without steps skips no step.
pub proof fn lemma_skip(s: Schedule, i: int)
    requires
        0 <= i <= PHASES,
    ensures
        i <= skip_empty(s, i) <= PHASES,
        s.before(skip_empty(s, i)) == s.before(i),
        skip_empty(s, i) < PHASES ==> s.steps_at(skip_empty(s, i)) > 0,
    decreases PHASES - i,
{
    if i < PHASES && s.steps_at(i) == 0 {
        lemma_skip(s, i + 1);
    }
}

/// A step count names one place in the schedule.
pub proof fn a_step_count_names_one_place(s: Schedule, n: nat, a: Cursor, b: Cursor)
    requires
        stands_at(s, n, a),
        stands_at(s, n, b),
    ensures
        a == b,
{
    if n < s.total() {
        if a.phase_idx < b.phase_idx {
            lemma_before_mono(s, a.phase_idx + 1, b.phase_idx as int);
        } else if b.phase_idx < a.phase_idx {
            lemma_before_mono(s, b.phase_idx + 1, a.phase_idx as int);
        }
    }
}

/// The eras come in one order, each has one place, and there are four of them.
pub proof fn the_eras_come_in_order(p: Phase, i: int)
    ensures
        phase_at(index_of(p)) == Some(p),
        phase_at(i) is Some <==> 0 <= i < 4,
        phase_at(i) is Some ==> index_of(phase_at(i)->0) == i,
        index_of(Phase::CrustalFormation) < index_of(Phase::Drift) < index_of(Phase::Refinement)
            < index_of(Phase::RecentPast),
{
}

/// Which era the next step belongs to after `n` steps, and how many of its steps are done, by
/// the steps that each era takes. After the last step there is none.
pub proof fn a_step_belongs_to_one_era(s: Schedule, n: nat, c: Cursor)
    requires
        stands_at(s, n, c),
    ensures
        ({
            let (a, b, r, l) = (
                s.crustal_formation as int,
                s.drift as int,
                s.refinement as int,
                s.recent_past as int,
            );
            if n < a {
                phase_at(c.phase_idx as int) == Some(Phase::CrustalFormation) && c.step_in_phase == n
            } else if n < a + b {
                phase_at(c.phase_idx as int) == Some(Phase::Drift) && c.step_in_phase == n - a
            } else if n < a + b + r {
                phase_at(c.phase_idx as int) == Some(Phase::Refinement) && c.step_in_phase == n - a
                    - b
            } else if n < a + b + r + l {
                phase_at(c.phase_idx as int) == Some(Phase::RecentPast) && c.step_in_phase == n - a
                    - b - r
            } else {
                phase_at(c.phase_idx as int) is None && c.step_in_phase == 0
            }
        }),
{
    lemma_total(s);
    assert(s.before(0) == 0);
}

} // verus!
