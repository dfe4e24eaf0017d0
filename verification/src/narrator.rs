//! Progress narration: a pool of lines in named sections, and how one is picked.

use vstd::prelude::*;
use crate::phase::{index_of, Phase};
use crate::stream::{draw_first, first_word};
use crate::text::{
    all_space, at_line_end, at_line_start, chars_of, end_of_line, lemma_lines_around,
    lemma_lines_join, lemma_trimmed_padding, line_end, lines_of, one_line, spells, string_of, trim, trimmed,
};

verus! {

/// Name of the random stream that lines are picked from.
pub const NARRATOR_STREAM: &'static str = "narrator";

/// Number of sections: one per phase, and the one that is mixed in always.
pub const SECTION_COUNT: usize = 5;

/// Position of the section that is mixed in always.
pub const GENERIC: usize = 4;

/// The name of section `i`.
pub open spec fn section_name(i: int) -> Seq<char> {
    if i == 0 {
        "crust"@
    } else if i == 1 {
        "drift"@
    } else if i == 2 {
        "refine"@
    } else if i == 3 {
        "recent"@
    } else {
        "generic"@
    }
}

/// Section `i` is called `name`, and none before it is.
pub open spec fn is_section(name: Seq<char>, i: int) -> bool {
    &&& 0 <= i < SECTION_COUNT
    &&& section_name(i) == name
    &&& forall|j: int| 0 <= j < i ==> #[trigger] section_name(j) != name
}

/// What a line of the pool is.
pub enum LineKind {
    /// Blank or a comment.
    Skip,
    /// The start of a section.
    Header(Seq<char>),
    /// A line to narrate.
    Text(Seq<char>),
}

/// What a line of the pool is, white space at its ends aside.
pub open spec fn line_kind(raw: Seq<char>) -> LineKind {
    let t = trimmed(raw);
    if t.len() == 0 || t[0] == '#' {
        LineKind::Skip
    } else if t.len() >= 2 && t[0] == '[' && t.last() == ']' {
        LineKind::Header(trimmed(t.subrange(1, t.len() - 1)))
    } else {
        LineKind::Text(t)
    }
}

/// A pool as far as it has been read.
pub struct Draft {
    /// Lines of each section.
    pub sections: Seq<Seq<Seq<char>>>,
    /// The section that lines go to.
    pub current: Option<int>,
}

/// What is wrong with a pool, and on which line.
pub enum Flaw {
    Unknown(Seq<char>, nat),
    Orphan(nat),
}

/// The first `i` lines read: a section of an unknown name and a line before any section
/// are flaws, and the first flaw ends the reading.
pub open spec fn read_lines(lines: Seq<Seq<char>>, i: int) -> Result<Draft, Flaw>
    decreases i,
{
    if i <= 0 {
        Ok(
            Draft {
                sections: Seq::new(SECTION_COUNT as nat, |k: int| Seq::empty()),
                current: None,
            },
        )
    } else {
        match read_lines(lines, i - 1) {
            Err(e) => Err(e),
            Ok(d) => match line_kind(lines[i - 1]) {
                LineKind::Skip => Ok(d),
                LineKind::Header(name) => if exists|k: int| is_section(name, k) {
                    Ok(Draft { current: Some(choose|k: int| is_section(name, k)), ..d })
                } else {
                    Err(Flaw::Unknown(name, i as nat))
                },
                LineKind::Text(t) => match d.current {
                    Some(k) => Ok(
                        Draft { sections: d.sections.update(k, d.sections[k].push(t)), ..d },
                    ),
                    None => Err(Flaw::Orphan(i as nat)),
                },
            },
        }
    }
}

/// The pool that a text holds, if it has no flaw and every section has a line.
pub open spec fn pool_in(text: Seq<char>) -> Option<Seq<Seq<Seq<char>>>> {
    match read_lines(lines_of(text), lines_of(text).len() as int) {
        Ok(d) => if forall|k: int| 0 <= k < SECTION_COUNT ==> (#[trigger] d.sections[k]).len() > 0 {
            Some(d.sections)
        } else {
            None
        },
        Err(_) => None,
    }
}

/// Why a pool was refused.
#[derive(Debug)]
pub enum NarratorError {
    /// A section of an unknown name.
    UnknownSection { name: String, line: usize },
    /// A line before any section.
    Orphan { line: usize },
    /// A section without lines, by its position.
    EmptySection { section: usize },
}

/// The characters of the lines of every section.
pub open spec fn texts(sections: Seq<Vec<String>>) -> Seq<Seq<Seq<char>>> {
    Seq::new(
        sections.len(),
        |i: int| Seq::new(sections[i]@.len(), |j: int| sections[i]@[j]@),
    )
}

/// A pool of narration lines, in sections.
#[derive(Debug)]
pub struct Narrator {
    sections: Vec<Vec<String>>,
}

impl Narrator {
    /// Lines of every section.
    pub closed spec fn pool(&self) -> Seq<Seq<Seq<char>>> {
        texts(self.sections@)
    }

    /// Every section is there and has a line.
    pub open spec fn wf(&self) -> bool {
        &&& self.pool().len() == SECTION_COUNT
        &&& forall|i: int| 0 <= i < SECTION_COUNT ==> (#[trigger] self.pool()[i]).len() > 0
    }

    /// Reads a pool.
    ///
    /// Sections start with `[name]`; blank lines and `#` comments are skipped. A section
    /// of an unknown name is an error, as is a line before any section and a section
    /// without lines, so that a slip in a pool does not pass in silence.
    pub fn from_str(text: &str) -> (r: Result<Narrator, NarratorError>)
        ensures
            match r {
                Ok(n) => n.wf() && (read_lines(
                    lines_of(text@),
                    lines_of(text@).len() as int,
                ) matches Ok(d) && n.pool() == d.sections),
                Err(NarratorError::UnknownSection { name, line }) => (read_lines(
                    lines_of(text@),
                    lines_of(text@).len() as int,
                ) matches Err(Flaw::Unknown(given, at)) && name@ == given && line == at),
                Err(NarratorError::Orphan { line }) => (read_lines(
                    lines_of(text@),
                    lines_of(text@).len() as int,
                ) matches Err(Flaw::Orphan(at)) && line == at),
                Err(NarratorError::EmptySection { section }) => (read_lines(
                    lines_of(text@),
                    lines_of(text@).len() as int,
                ) matches Ok(d) && section < SECTION_COUNT && d.sections[section as int].len() == 0
                    && forall|k: int| 0 <= k < section ==> (#[trigger] d.sections[k]).len() > 0),
            },
            match r {
                Ok(n) => pool_in(text@) == Some(n.pool()),
                Err(_) => pool_in(text@) is None,
            },
    {
        let s = chars_of(text);
        let ghost lines = lines_of(text@);
        let mut sections: Vec<Vec<String>> = Vec::new();
        while sections.len() < SECTION_COUNT
            invariant
                sections@.len() <= SECTION_COUNT,
                forall|k: int| 0 <= k < sections@.len() ==> (#[trigger] sections@[k])@.len() == 0,
            decreases SECTION_COUNT - sections@.len(),
        {
            sections.push(Vec::new());
        }
        let mut current: usize = SECTION_COUNT;
        let mut at: usize = 0;
        let mut line: usize = 0;
        let ghost empty = Draft {
            sections: Seq::new(SECTION_COUNT as nat, |k: int| Seq::<Seq<char>>::empty()),
            current: None,
        };
        proof {
            assert(s@.skip(0) =~= s@);
            assert(texts(sections@) =~~= empty.sections);
            assert(lines.skip(0) =~= lines);
        }
        while at < s.len()
            invariant
                at <= s@.len(),
                s@ == text@,
                lines == lines_of(text@),
                line <= at,
                line <= lines.len(),
                lines.skip(line as int) == lines_of(s@.skip(at as int)),
                sections@.len() == SECTION_COUNT,
                current <= SECTION_COUNT,
                read_lines(lines, line as int) == Ok::<Draft, Flaw>(
                    Draft {
                        sections: texts(sections@),
                        current: if current < SECTION_COUNT {
                            Some(current as int)
                        } else {
                            None
                        },
                    },
                ),
            decreases s@.len() - at,
        {
            let end = end_of_line(s.as_slice(), at);
            let ghost rest = s@.skip(at as int);
            let ghost raw = lines[line as int];
            proof {
                assert(rest.len() > 0);
                assert(lines.skip(line as int).len() > 0);
                assert(lines.skip(line as int)[0] == raw);
                if end < s@.len() {
                    assert(rest.take(line_end(rest)) =~= s@.subrange(at as int, end as int));
                    assert(rest.skip(line_end(rest) + 1) =~= s@.skip(end + 1));
                    assert(lines.skip(line + 1) =~= lines.skip(line as int).drop_first());
                    assert(lines_of(rest).drop_first() =~= lines_of(rest.skip(line_end(rest) + 1)));
                } else {
                    assert(rest =~= s@.subrange(at as int, end as int));
                    assert(lines.skip(line + 1) =~= lines.skip(line as int).drop_first());
                    assert(lines_of(rest) =~= seq![rest]);
                    assert(lines_of(rest).drop_first() =~= Seq::<Seq<char>>::empty());
                    assert(s@.skip(end as int) =~= Seq::<char>::empty());
                }
                assert(raw == s@.subrange(at as int, end as int));
            }
            line = line + 1;
            let (a, b) = trim(s.as_slice(), at, end);
            let ghost t = trimmed(raw);
            assert(t == s@.subrange(a as int, b as int));
            if a < b && s[a] != '#' {
                assert(t[0] == s@[a as int]);
                assert(t.last() == s@[b - 1]);
                if b - a >= 2 && s[a] == '[' && s[b - 1] == ']' {
                    let (c, d) = trim(s.as_slice(), a + 1, b - 1);
                    assert(t.subrange(1, t.len() - 1) =~= s@.subrange(a + 1, b - 1));
                    let ghost name = s@.subrange(c as int, d as int);
                    assert(line_kind(raw) == LineKind::Header(name));
                    match section_of(s.as_slice(), c, d) {
                        Some(k) => {
                            proof {
                                lemma_section_unique(name, k as int);
                            }
                            current = k;
                        },
                        None => {
                            let name = string_of(s.as_slice(), c, d);
                            proof {
                                lemma_flaw_stays(lines, line as int, lines.len() as int);
                            }
                            return Err(NarratorError::UnknownSection { name, line });
                        },
                    }
                } else {
                    assert(line_kind(raw) == LineKind::Text(t));
                    if current == SECTION_COUNT {
                        proof {
                            lemma_flaw_stays(lines, line as int, lines.len() as int);
                        }
                        return Err(NarratorError::Orphan { line });
                    }
                    let words = string_of(s.as_slice(), a, b);
                    let ghost before = sections@;
                    let ghost told = texts(sections@);
                    sections[current].push(words);
                    proof {
                        let k = current as int;
                        assert(texts(sections@) =~~= told.update(k, told[k].push(t)));
                    }
                }
            } else {
                assert(line_kind(raw) is Skip);
            }
            if end < s.len() {
                at = end + 1;
            } else {
                at = end;
            }
        }
        proof {
            assert(s@.skip(at as int) =~= Seq::<char>::empty());
            assert(lines.skip(line as int).len() == 0);
        }
        let mut k: usize = 0;
        while k < SECTION_COUNT
            invariant
                k <= SECTION_COUNT,
                sections@.len() == SECTION_COUNT,
                forall|j: int| 0 <= j < k ==> (#[trigger] texts(sections@)[j]).len() > 0,
                read_lines(lines, lines.len() as int) matches Ok(d) && d.sections == texts(
                    sections@,
                ),
                lines == lines_of(text@),
            decreases SECTION_COUNT - k,
        {
            if sections[k].len() == 0 {
                assert(texts(sections@)[k as int].len() == 0);
                return Err(NarratorError::EmptySection { section: k });
            }
            assert(texts(sections@)[k as int].len() > 0);
            k = k + 1;
        }
        Ok(Narrator { sections })
    }

    /// Lines of the section called `name`, if it is one.
    pub fn section(&self, name: &str) -> (lines: Option<&[String]>)
        requires
            self.wf(),
        ensures
            match lines {
                Some(l) => exists|i: int| #[trigger]
                    is_section(name@, i) && spoken(l@) == self.pool()[i],
                None => forall|i: int| !#[trigger] is_section(name@, i),
            },
    {
        let n = chars_of(name);
        assert(n@.subrange(0, n@.len() as int) =~= name@);
        match section_of(n.as_slice(), 0, n.len()) {
            Some(i) => {
                assert(spoken(self.sections@[i as int]@) =~= self.pool()[i as int]);
                assert(is_section(name@, i as int));
                Some(self.sections[i].as_slice())
            },
            None => None,
        }
    }

    /// Lines of a phase, those mixed in always left out.
    pub fn phase_lines(&self, phase: Phase) -> (lines: &[String])
        requires
            self.wf(),
        ensures
            spoken(lines@) == self.pool()[index_of(phase)],
    {
        let i = phase.index();
        assert(spoken(self.sections@[i as int]@) =~= self.pool()[i as int]);
        self.sections[i].as_slice()
    }

    /// Lines that are mixed in always.
    pub fn generic_lines(&self) -> (lines: &[String])
        requires
            self.wf(),
        ensures
            spoken(lines@) == self.pool()[GENERIC as int],
    {
        assert(spoken(self.sections@[GENERIC as int]@) =~= self.pool()[GENERIC as int]);
        self.sections[GENERIC].as_slice()
    }

    /// Picks a line for `phase` by the stream that starts from `state`. The same stream
    /// picks the same line on every run and every machine.
    pub fn line(&self, phase: Phase, state: u128) -> (l: &str)
        requires
            self.wf(),
            self.pool()[index_of(phase)].len() + self.pool()[GENERIC as int].len() <= usize::MAX,
        ensures
            l@ == picked(self.pool(), phase, first_word(state)),
    {
        self.line_by(phase, draw_first(state))
    }

    /// Picks a line for `phase` by a random number: from the lines of the phase followed
    /// by those mixed in always.
    pub fn line_by(&self, phase: Phase, draw: u64) -> (l: &str)
        requires
            self.wf(),
            self.pool()[index_of(phase)].len() + self.pool()[GENERIC as int].len() <= usize::MAX,
        ensures
            l@ == picked(self.pool(), phase, draw),
    {
        let lines = self.phase_lines(phase);
        let generic = self.generic_lines();
        proof {
            assert(self.pool()[index_of(phase)].len() > 0);
        }
        let total: u64 = (lines.len() + generic.len()) as u64;
        let pick: usize = (draw % total) as usize;
        if pick < lines.len() {
            assert(spoken(lines@)[pick as int] == lines@[pick as int]@);
            lines[pick].as_str()
        } else {
            assert(spoken(generic@)[pick - lines@.len()] == generic@[pick - lines@.len()]@);
            generic[pick - lines.len()].as_str()
        }
    }
}

/// The characters of some lines.
pub open spec fn spoken(lines: Seq<String>) -> Seq<Seq<char>> {
    Seq::new(lines.len(), |j: int| lines[j]@)
}

/// The line that `draw` picks for `phase`.
pub open spec fn picked(pool: Seq<Seq<Seq<char>>>, phase: Phase, draw: u64) -> Seq<char> {
    let all = pool[index_of(phase)] + pool[GENERIC as int];
    all[draw as int % all.len() as int]
}

/// The section that `s[a..b]` names.
fn section_of(s: &[char], a: usize, b: usize) -> (i: Option<usize>)
    requires
        a <= b <= s@.len(),
    ensures
        match i {
            Some(i) => is_section(s@.subrange(a as int, b as int), i as int),
            None => forall|k: int| !#[trigger] is_section(s@.subrange(a as int, b as int), k),
        },
{
    let mut i: usize = 0;
    while i < SECTION_COUNT
        invariant
            i <= SECTION_COUNT,
            a <= b <= s@.len(),
            forall|j: int|
                0 <= j < i ==> #[trigger] section_name(j) != s@.subrange(a as int, b as int),
        decreases SECTION_COUNT - i,
    {
        let name: &str = if i == 0 {
            "crust"
        } else if i == 1 {
            "drift"
        } else if i == 2 {
            "refine"
        } else if i == 3 {
            "recent"
        } else {
            "generic"
        };
        if spells(s, a, b, name) {
            return Some(i);
        }
        i = i + 1;
    }
    None
}

proof fn lemma_section_unique(name: Seq<char>, k: int)
    requires
        is_section(name, k),
    ensures
        k == (choose|i: int| is_section(name, i)),
{
    let i = choose|i: int| is_section(name, i);
    assert(is_section(name, i));
    if i < k {
        assert(section_name(i) != name);
    } else if k < i {
        assert(section_name(k) != name);
    }
}

proof fn lemma_flaw_stays(lines: Seq<Seq<char>>, i: int, n: int)
    requires
        0 <= i <= n,
        read_lines(lines, i) is Err,
    ensures
        read_lines(lines, n) == read_lines(lines, i),
    decreases n - i,
{
    if i < n {
        lemma_flaw_stays(lines, i, n - 1);
    }
}

/// Every line that is picked is one of the phase's or one of those mixed in always.
pub proof fn a_picked_line_is_in_the_pool(n: &Narrator, phase: Phase, draw: u64)
    requires
        n.wf(),
    ensures
        n.pool()[index_of(phase)].contains(picked(n.pool(), phase, draw))
            || n.pool()[GENERIC as int].contains(picked(n.pool(), phase, draw)),
{
    let own = n.pool()[index_of(phase)];
    let generic = n.pool()[GENERIC as int];
    let all = own + generic;
    assert(own.len() > 0);
    let k = draw as int % all.len() as int;
    assert(0 <= k < all.len());
    if k < own.len() {
        assert(own[k] == all[k]);
    } else {
        assert(generic[k - own.len()] == all[k]);
    }
}

/// What the lines of a pool say, in order: those that are skipped say nothing.
spec fn told(lines: Seq<Seq<char>>) -> Seq<LineKind>
    decreases lines.len(),
{
    if lines.len() == 0 {
        Seq::empty()
    } else if line_kind(lines.last()) is Skip {
        told(lines.drop_last())
    } else {
        told(lines.drop_last()).push(line_kind(lines.last()))
    }
}

/// The draft that lines make which say `kinds`; none where one of them is flawed.
spec fn drafted(kinds: Seq<LineKind>) -> Option<Draft>
    decreases kinds.len(),
{
    if kinds.len() == 0 {
        Some(
            Draft {
                sections: Seq::new(SECTION_COUNT as nat, |k: int| Seq::empty()),
                current: None,
            },
        )
    } else {
        match drafted(kinds.drop_last()) {
            None => None,
            Some(d) => match kinds.last() {
                LineKind::Skip => Some(d),
                LineKind::Header(name) => if exists|k: int| is_section(name, k) {
                    Some(Draft { current: Some(choose|k: int| is_section(name, k)), ..d })
                } else {
                    None
                },
                LineKind::Text(t) => match d.current {
                    Some(k) => Some(
                        Draft { sections: d.sections.update(k, d.sections[k].push(t)), ..d },
                    ),
                    None => None,
                },
            },
        }
    }
}

proof fn lemma_told_joins(a: Seq<Seq<char>>, b: Seq<Seq<char>>)
    ensures
        told(a + b) == told(a) + told(b),
    decreases b.len(),
{
    if b.len() == 0 {
        assert(a + b =~= a);
        assert(told(a) + told(b) =~= told(a));
    } else {
        assert((a + b).drop_last() =~= a + b.drop_last());
        lemma_told_joins(a, b.drop_last());
        assert(told(a + b) =~= told(a) + told(b));
    }
}

/// What a pool holds depends on what its lines say alone.
proof fn lemma_reading_is_told(lines: Seq<Seq<char>>, i: int)
    requires
        0 <= i <= lines.len(),
    ensures
        drafted(told(lines.take(i))) == (match read_lines(lines, i) {
            Ok(d) => Some(d),
            Err(_) => None,
        }),
    decreases i,
{
    if i == 0 {
        assert(lines.take(0) =~= Seq::<Seq<char>>::empty());
    } else {
        lemma_reading_is_told(lines, i - 1);
        assert(lines.take(i).drop_last() =~= lines.take(i - 1));
        assert(lines.take(i).last() == lines[i - 1]);
        let before = told(lines.take(i - 1));
        assert(before.push(line_kind(lines[i - 1])).drop_last() =~= before);
    }
}

/// Texts whose lines say the same hold the same pool.
proof fn lemma_same_pool(a: Seq<char>, b: Seq<char>)
    requires
        told(lines_of(a)) == told(lines_of(b)),
    ensures
        pool_in(a) == pool_in(b),
{
    lemma_reading_is_told(lines_of(a), lines_of(a).len() as int);
    lemma_reading_is_told(lines_of(b), lines_of(b).len() as int);
    assert(lines_of(a).take(lines_of(a).len() as int) =~= lines_of(a));
    assert(lines_of(b).take(lines_of(b).len() as int) =~= lines_of(b));
}

/// What the lines around a line say, and the line itself.
proof fn lemma_told_around(head: Seq<char>, l: Seq<char>, tail: Seq<char>)
    requires
        at_line_start(head),
        one_line(l),
        at_line_end(tail),
    ensures
        told(lines_of(head + l + tail)) == told(lines_of(head)) + told(seq![l]) + told(
            lines_of(if tail.len() == 0 {
                tail
            } else {
                tail.skip(1)
            }),
        ),
{
    lemma_lines_around(head, l, tail);
    let first = lines_of(head);
    let none = Seq::<LineKind>::empty();
    assert(seq![l].drop_last() =~= Seq::<Seq<char>>::empty());
    if tail.len() == 0 {
        assert(told(lines_of(tail)) =~= none);
        if l.len() == 0 {
            assert(trimmed(l).len() == 0);
            assert(told(seq![l]) =~= none);
            lemma_told_joins(first, Seq::empty());
        } else {
            lemma_told_joins(first, seq![l]);
        }
    } else {
        let rest = lines_of(tail.skip(1));
        lemma_told_joins(first, seq![l] + rest);
        lemma_told_joins(seq![l], rest);
    }
    assert(told(lines_of(head + l + tail)) =~= told(first) + told(seq![l]) + told(
        lines_of(if tail.len() == 0 {
            tail
        } else {
            tail.skip(1)
        }),
    ));
}

/// Blank lines and comments change nothing: a pool with such a line put in, wherever a line
/// starts or at its end, holds what it held without it.
pub proof fn skipped_lines_do_not_count(head: Seq<char>, line: Seq<char>, tail: Seq<char>)
    requires
        at_line_start(head),
        one_line(line),
        line_kind(line) is Skip,
    ensures
        pool_in(head + line + (seq!['\n'] + tail)) == pool_in(head + tail),
        pool_in(head + line) == pool_in(head),
{
    let none = Seq::<char>::empty();
    let behind = seq!['\n'] + tail;
    assert(seq![line].drop_last() =~= Seq::<Seq<char>>::empty());
    assert(told(Seq::empty()) =~= Seq::<LineKind>::empty());
    assert(seq![line].last() == line);
    assert(told(seq![line]) =~= Seq::<LineKind>::empty());
    lemma_told_around(head, line, behind);
    assert(behind.skip(1) =~= tail);
    lemma_told_around(head, line, none);
    assert(head + line + none =~= head + line);
    lemma_lines_join(head, tail);
    lemma_told_joins(lines_of(head), lines_of(tail));
    assert(told(lines_of(none)) =~= Seq::<LineKind>::empty());
    assert(told(lines_of(head + line + behind)) =~= told(lines_of(head + tail)));
    assert(told(lines_of(head + line)) =~= told(lines_of(head)));
    lemma_same_pool(head + line + behind, head + tail);
    lemma_same_pool(head + line, head);
}

/// White space at the ends of a line changes nothing in a pool.
pub proof fn white_space_at_line_ends_does_not_count(
    head: Seq<char>,
    before: Seq<char>,
    line: Seq<char>,
    after: Seq<char>,
    tail: Seq<char>,
)
    requires
        at_line_start(head),
        at_line_end(tail),
        one_line(before),
        one_line(line),
        one_line(after),
        all_space(before),
        all_space(after),
    ensures
        pool_in(head + (before + line + after) + tail) == pool_in(head + line + tail),
{
    let padded = before + line + after;
    lemma_trimmed_padding(before, line, after);
    lemma_told_around(head, padded, tail);
    lemma_told_around(head, line, tail);
    assert(seq![padded].drop_last() =~= Seq::<Seq<char>>::empty());
    assert(seq![line].drop_last() =~= Seq::<Seq<char>>::empty());
    assert(told(seq![padded]) =~= told(seq![line]));
    lemma_same_pool(head + padded + tail, head + line + tail);
}

/// A draw walks through the lines of the phase, then through those mixed in always, and then
/// starts again: so every line of either can be picked.
pub proof fn every_line_can_be_picked(pool: Seq<Seq<Seq<char>>>, phase: Phase, draw: u64)
    requires
        pool.len() == 5,
    ensures
        ({
            let own = pool[index_of(phase)];
            let mixed = pool[4];
            let total = own.len() + mixed.len();
            &&& draw < own.len() ==> picked(pool, phase, draw) == own[draw as int]
            &&& own.len() <= draw < total ==> picked(pool, phase, draw) == mixed[draw - own.len()]
            &&& total > 0 && draw + total <= u64::MAX ==> picked(pool, phase, (draw + total) as u64)
                == picked(pool, phase, draw)
        }),
{
    let all = pool[index_of(phase)] + pool[4];
    let total = all.len() as int;
    if draw < total {
        vstd::arithmetic::div_mod::lemma_small_mod(draw as nat, total as nat);
    }
    if total > 0 && draw + total <= u64::MAX {
        vstd::arithmetic::div_mod::lemma_mod_add_multiples_vanish(draw as int, total);
    }
}

/// A line that is blank or starts with `#` says nothing; one in square brackets names a
/// section; every other line is narrated as it stands.
pub proof fn lines_say_what_they_show(raw: Seq<char>)
    ensures
        trimmed(raw).len() == 0 || trimmed(raw)[0] == '#' <==> line_kind(raw) is Skip,
        line_kind(raw) matches LineKind::Header(name) ==> trimmed(raw).len() >= 2
            && trimmed(raw)[0] == '[' && trimmed(raw).last() == ']' && name == trimmed(
            trimmed(raw).subrange(1, trimmed(raw).len() - 1),
        ),
        line_kind(raw) matches LineKind::Text(t) ==> t == trimmed(raw) && (t.len() == 1 || t[0]
            != '[' || t.last() != ']'),
{
}

/// The name in the last header among the first `i` lines.
pub open spec fn header_above(lines: Seq<Seq<char>>, i: int) -> Option<Seq<char>>
    decreases i,
{
    if i <= 0 {
        None
    } else {
        match line_kind(lines[i - 1]) {
            LineKind::Header(name) => Some(name),
            _ => header_above(lines, i - 1),
        }
    }
}

/// A line to narrate goes to the section of the last header above it, and stays there: no line
/// of a pool is lost and none goes elsewhere.
pub proof fn lines_go_to_their_section(lines: Seq<Seq<char>>, n: int, i: int)
    requires
        0 <= i < n <= lines.len(),
        read_lines(lines, n) is Ok,
    ensures
        line_kind(lines[i]) matches LineKind::Text(t) ==> exists|k: int|
            0 <= k < 5 && header_above(lines, i) == Some(#[trigger] section_name(k))
                && read_lines(lines, n)->Ok_0.sections[k].contains(t),
    decreases n,
{
    lemma_reading_keeps(lines, n);
    lemma_reading_keeps(lines, n - 1);
    let was = read_lines(lines, n - 1)->Ok_0;
    let now = read_lines(lines, n)->Ok_0;
    if let LineKind::Text(t) = line_kind(lines[i]) {
        if i < n - 1 {
            lines_go_to_their_section(lines, n - 1, i);
            let k = choose|k: int|
                0 <= k < 5 && header_above(lines, i) == Some(#[trigger] section_name(k))
                    && was.sections[k].contains(t);
            let j = choose|j: int| 0 <= j < was.sections[k].len() && was.sections[k][j] == t;
            assert(now.sections[k][j] == t);
            assert(header_above(lines, i) == Some(section_name(k)));
        } else {
            let k = was.current->0;
            assert(now.sections[k] == was.sections[k].push(t));
            assert(now.sections[k][was.sections[k].len() as int] == t);
            assert(header_above(lines, i) == Some(section_name(k)));
        }
    }
}

/// While a pool is read there are five sections, and lines go to the one named last.
proof fn lemma_reading_keeps(lines: Seq<Seq<char>>, n: int)
    requires
        0 <= n <= lines.len(),
        read_lines(lines, n) is Ok,
    ensures
        ({
            let d = read_lines(lines, n)->Ok_0;
            &&& d.sections.len() == 5
            &&& d.current is None <==> header_above(lines, n) is None
            &&& d.current matches Some(k) ==> 0 <= k < 5 && header_above(lines, n) == Some(
                section_name(k),
            )
        }),
        n > 0 ==> read_lines(lines, n - 1) is Ok,
    decreases n,
{
    if n > 0 {
        lemma_reading_keeps(lines, n - 1);
        if let LineKind::Header(name) = line_kind(lines[n - 1]) {
            let k = choose|k: int| is_section(name, k);
            assert(is_section(name, k));
        }
    }
}

/// Nothing is narrated that the pool does not say: every line of a section is a line to narrate
/// below a header with that section's name.
pub proof fn sections_hold_their_lines_alone(lines: Seq<Seq<char>>, n: int, k: int, j: int)
    requires
        0 <= n <= lines.len(),
        read_lines(lines, n) is Ok,
        0 <= k < 5,
        0 <= j < read_lines(lines, n)->Ok_0.sections[k].len(),
    ensures
        exists|i: int|
            0 <= i < n && line_kind(#[trigger] lines[i]) == LineKind::Text(
                read_lines(lines, n)->Ok_0.sections[k][j],
            ) && header_above(lines, i) == Some(section_name(k)),
    decreases n,
{
    if n > 0 {
        lemma_reading_keeps(lines, n);
        lemma_reading_keeps(lines, n - 1);
        let was = read_lines(lines, n - 1)->Ok_0;
        if j < was.sections[k].len() {
            sections_hold_their_lines_alone(lines, n - 1, k, j);
            let i = choose|i: int|
                0 <= i < n - 1 && line_kind(#[trigger] lines[i]) == LineKind::Text(
                    was.sections[k][j],
                ) && header_above(lines, i) == Some(section_name(k));
            assert(read_lines(lines, n)->Ok_0.sections[k][j] == was.sections[k][j]);
            assert(line_kind(lines[i]) == LineKind::Text(was.sections[k][j]));
        } else {
            assert(line_kind(lines[n - 1]) is Text);
            assert(was.current == Some(k));
        }
    }
}

} // verus!
