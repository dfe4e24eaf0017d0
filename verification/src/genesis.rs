//! The first landmass: how many pieces, where they are tried, and when cells join it.

use vstd::prelude::*;
use crate::plate::UNASSIGNED;
use crate::surface::{basement_of, RockType};

verus! {

/// Tries at placing one piece.
pub const GENESIS_TRIES: u32 = 4096;

/// Tries after which shield cores may stand closer.
pub const TRIES_PER_EASING: u32 = 128;

/// Fewest and most octaves of an outline.
pub const MIN_OCTAVES: u32 = 4;
pub const MAX_OCTAVES: u32 = 9;

/// Bits of the thicknesses, in metres, that fresh columns are laid down with.
pub const GABBRO_5000: u32 = 0x459c_4000;
pub const BASALT_2000: u32 = 0x44fa_0000;
pub const GNEISS_4000: u32 = 0x457a_0000;
pub const GRANITE_6000: u32 = 0x45bb_8000;

/// Microcontinents that go with a number of shield cores.
pub open spec fn micros(cores: usize) -> u32 {
    if cores <= 5 {
        0
    } else if cores <= 9 {
        1
    } else {
        2
    }
}

/// How many microcontinents go with a number of shield cores.
pub fn micro_count(cores: usize) -> (n: u32)
    ensures
        n == micros(cores),
{
    if cores <= 5 {
        0
    } else if cores <= 9 {
        1
    } else {
        2
    }
}

/// Octaves of an outline.
pub open spec fn octaves_of(wanted: u32) -> u32 {
    if wanted < MIN_OCTAVES {
        MIN_OCTAVES
    } else if wanted > MAX_OCTAVES {
        MAX_OCTAVES
    } else {
        wanted
    }
}

/// Octaves of an outline, within the band that makes sense.
pub fn octaves(wanted: u32) -> (n: u32)
    ensures
        n == octaves_of(wanted),
{
    if wanted < MIN_OCTAVES {
        MIN_OCTAVES
    } else if wanted > MAX_OCTAVES {
        MAX_OCTAVES
    } else {
        wanted
    }
}

/// How a try at placing a piece goes on.
#[derive(Debug, Clone, Copy, PartialEq, Eq, Structural)]
pub enum Trial {
    /// The place is taken.
    Placed,
    /// Another place is tried, with the spacing eased so many times.
    Again { easings: u32 },
    /// The piece is left out: there is no room.
    GivenUp,
}

/// A search for a place.
#[derive(Debug, Clone, Copy, PartialEq, Eq, Structural)]
pub struct Search {
    /// Places tried so far.
    pub tries: u32,
}

/// What comes of a try after `tries` others.
pub open spec fn trial_of(tries: u32, suits: bool) -> Trial {
    if suits {
        Trial::Placed
    } else if tries + 1 == GENESIS_TRIES {
        Trial::GivenUp
    } else {
        Trial::Again { easings: ((tries + 1) / TRIES_PER_EASING as int) as u32 }
    }
}

impl Search {
    /// A place is still being sought.
    pub open spec fn wf(self) -> bool {
        self.tries < GENESIS_TRIES
    }

    /// Nothing tried yet.
    pub fn start() -> (s: Search)
        ensures
            s.tries == 0,
            s.wf(),
    {
        Search { tries: 0 }
    }

    /// How often the spacing has been eased: once per [`TRIES_PER_EASING`] tries.
    pub fn easings(self) -> (n: u32)
        ensures
            n == self.tries / TRIES_PER_EASING,
    {
        self.tries / TRIES_PER_EASING
    }

    /// A place was tried, and does or does not suit.
    pub fn tried(&mut self, suits: bool) -> (t: Trial)
        requires
            old(self).wf(),
        ensures
            final(self).tries == old(self).tries + 1,
            t == trial_of(old(self).tries, suits),
            t is Again ==> final(self).wf(),
    {
        self.tries = self.tries + 1;
        if suits {
            Trial::Placed
        } else if self.tries == GENESIS_TRIES {
            Trial::GivenUp
        } else {
            Trial::Again { easings: self.easings() }
        }
    }
}

/// Mass `i` is the first that holds a point.
pub open spec fn first_holder(holds: Seq<bool>, i: int) -> bool {
    &&& 0 <= i < holds.len()
    &&& holds[i]
    &&& forall|j: int| 0 <= j < i ==> !#[trigger] holds[j]
}

/// `r` is the landmass that a point belongs to.
pub open spec fn belongs_to(holds: Seq<bool>, r: Option<usize>) -> bool {
    match r {
        Some(i) => first_holder(holds, i as int),
        None => forall|i: int| 0 <= i < holds.len() ==> !#[trigger] holds[i],
    }
}

/// The landmass that a point belongs to: the first that holds it.
pub fn membership(holds: &[bool]) -> (r: Option<usize>)
    ensures
        belongs_to(holds@, r),
{
    let mut i: usize = 0;
    while i < holds.len()
        invariant
            i <= holds@.len(),
            forall|j: int| 0 <= j < i ==> !#[trigger] holds@[j],
        decreases holds@.len() - i,
    {
        if holds[i] {
            return Some(i);
        }
        i = i + 1;
    }
    None
}

/// What a landmass was made for.
#[derive(Debug, Clone, Copy, PartialEq, Eq, Structural)]
pub struct GenesisKey {
    pub seed: u64,
    pub cores: usize,
    pub octaves: u32,
}

impl GenesisKey {
    /// Whether the landmass made for this key serves another.
    pub fn matches(&self, other: &GenesisKey) -> (b: bool)
        ensures
            b == (*self == *other),
    {
        self.seed == other.seed && self.cores == other.cores && self.octaves == other.octaves
    }
}

/// A cell that belongs to a landmass.
#[derive(Debug, Clone, Copy, PartialEq, Eq, Structural)]
pub struct Member {
    pub mass: u16,
    /// Key of how far out it lies: from a core at the middle to the rim.
    pub reach: i32,
}

/// Cell `c` joins its landmass now: the growth has come as far out as it lies, and it has not
/// joined before.
pub open spec fn joins(
    members: Seq<Option<Member>>,
    reveal: i32,
    continental: Seq<bool>,
    c: int,
) -> bool {
    members[c] matches Some(m) && m.reach <= reveal && !continental[c]
}

/// The cells that join among the first `n`.
pub open spec fn joining(
    members: Seq<Option<Member>>,
    reveal: i32,
    continental: Seq<bool>,
    n: int,
) -> Seq<u32>
    decreases n,
{
    if n <= 0 {
        Seq::empty()
    } else if joins(members, reveal, continental, n - 1) {
        joining(members, reveal, continental, n - 1).push((n - 1) as u32)
    } else {
        joining(members, reveal, continental, n - 1)
    }
}

/// The cells that join their landmass in a step, in order.
pub fn accrete(members: &[Option<Member>], reveal: i32, continental: &[bool]) -> (cells: Vec<u32>)
    requires
        members@.len() == continental@.len(),
        members@.len() <= u32::MAX,
    ensures
        cells@ == joining(members@, reveal, continental@, members@.len() as int),
{
    let mut cells: Vec<u32> = Vec::new();
    let mut c: usize = 0;
    while c < members.len()
        invariant
            members@.len() == continental@.len(),
            members@.len() <= u32::MAX,
            c <= members@.len(),
            cells@ == joining(members@, reveal, continental@, c as int),
        decreases members@.len() - c,
    {
        if let Some(m) = members[c] {
            if m.reach <= reveal && !continental[c] {
                cells.push(c as u32);
            }
        }
        c = c + 1;
    }
    cells
}

/// The last cells of the landmass have joined.
pub open spec fn is_assembled(grown: usize, complete: bool) -> bool {
    grown > 0 && complete
}

/// Whether the landmass is announced as assembled: some cells joined, and the growth has
/// reached the rim.
pub fn assembled(grown: usize, complete: bool) -> (b: bool)
    ensures
        b == is_assembled(grown, complete),
{
    grown > 0 && complete
}

/// The cells of a planet without plates: none belongs to one.
pub fn unassigned(n: usize) -> (ids: Vec<u16>)
    ensures
        ids@ == Seq::new(n as nat, |i: int| UNASSIGNED),
{
    let mut ids: Vec<u16> = Vec::new();
    let mut i: usize = 0;
    while i < n
        invariant
            i <= n,
            ids@ == Seq::new(i as nat, |k: int| UNASSIGNED),
        decreases n - i,
    {
        ids.push(UNASSIGNED);
        i = i + 1;
        assert(ids@ =~= Seq::new(i as nat, |k: int| UNASSIGNED));
    }
    ids
}

/// The layers of new crust, from below.
pub open spec fn layers_of(continental: bool) -> Seq<(RockType, u32)> {
    if continental {
        seq![(RockType::Gneiss, GNEISS_4000), (RockType::Granite, GRANITE_6000)]
    } else {
        seq![(RockType::Gabbro, GABBRO_5000), (RockType::Basalt, BASALT_2000)]
    }
}

/// What the column of a cell is laid down with anew, from below: rock, and the bits of its
/// thickness.
pub fn recipe(continental: bool) -> (r: [(RockType, u32); 2])
    ensures
        r@ == layers_of(continental),
{
    let r: [(RockType, u32); 2] = if continental {
        [(RockType::Gneiss, GNEISS_4000), (RockType::Granite, GRANITE_6000)]
    } else {
        [(RockType::Gabbro, GABBRO_5000), (RockType::Basalt, BASALT_2000)]
    };
    assert(r@ =~= layers_of(continental));
    r
}

/// A joining cell is among those that join.
proof fn lemma_joining(
    members: Seq<Option<Member>>,
    reveal: i32,
    continental: Seq<bool>,
    n: int,
    c: int,
)
    requires
        0 <= c < n,
        n <= u32::MAX,
    ensures
        joining(members, reveal, continental, n).contains(c as u32) <==> joins(
            members,
            reveal,
            continental,
            c,
        ),
    decreases n,
{
    let now = joining(members, reveal, continental, n);
    let was = joining(members, reveal, continental, n - 1);
    if c < n - 1 {
        lemma_joining(members, reveal, continental, n - 1, c);
        if joins(members, reveal, continental, n - 1) {
            if was.contains(c as u32) {
                let k = choose|k: int| 0 <= k < was.len() && was[k] == c as u32;
                assert(now[k] == c as u32);
            }
            if now.contains(c as u32) {
                let k = choose|k: int| 0 <= k < now.len() && now[k] == c as u32;
                assert(was[k] == c as u32);
            }
        }
    } else {
        lemma_joining_below(members, reveal, continental, n - 1);
        if joins(members, reveal, continental, c) {
            assert(now[now.len() - 1] == c as u32);
        }
    }
}

/// Cells that join are counted from below.
proof fn lemma_joining_below(
    members: Seq<Option<Member>>,
    reveal: i32,
    continental: Seq<bool>,
    n: int,
)
    requires
        0 <= n <= u32::MAX,
    ensures
        forall|k: int|
            0 <= k < joining(members, reveal, continental, n).len() ==> (#[trigger] joining(
                members,
                reveal,
                continental,
                n,
            )[k]) < n,
    decreases n,
{
    if n > 0 {
        lemma_joining_below(members, reveal, continental, n - 1);
        let was = joining(members, reveal, continental, n - 1);
        let now = joining(members, reveal, continental, n);
        assert forall|k: int| 0 <= k < now.len() implies (#[trigger] now[k]) < n by {
            if k < was.len() {
                assert(was[k] < n - 1);
            }
        }
    }
}

/// A landmass grows outward: a cell that joins at some reveal would have joined at any later
/// one, and the cells that join are exactly those that the growth has come to.
pub proof fn landmasses_grow_outward(
    members: Seq<Option<Member>>,
    earlier: i32,
    later: i32,
    continental: Seq<bool>,
    c: int,
)
    requires
        earlier <= later,
        0 <= c < members.len() <= u32::MAX,
        joining(members, earlier, continental, members.len() as int).contains(c as u32),
    ensures
        joining(members, later, continental, members.len() as int).contains(c as u32),
{
    lemma_joining(members, earlier, continental, members.len() as int, c);
    lemma_joining(members, later, continental, members.len() as int, c);
}

/// A cell joins its landmass exactly where it belongs to one, the growth has come as far out as
/// it lies, and it is not continental yet; the cells that join come in order, each once.
pub proof fn cells_join_when_they_are_reached(
    members: Seq<Option<Member>>,
    reveal: i32,
    continental: Seq<bool>,
    c: int,
)
    requires
        0 <= c < members.len() <= u32::MAX,
    ensures
        joining(members, reveal, continental, members.len() as int).contains(c as u32)
            <==> members[c] is Some && (members[c]->0).reach <= reveal && !continental[c],
        forall|i: int, j: int|
            0 <= i < j < joining(members, reveal, continental, members.len() as int).len()
                ==> #[trigger] joining(members, reveal, continental, members.len() as int)[i]
                < #[trigger] joining(members, reveal, continental, members.len() as int)[j],
{
    lemma_joining(members, reveal, continental, members.len() as int, c);
    lemma_joining_ascends(members, reveal, continental, members.len() as int);
}

proof fn lemma_joining_ascends(
    members: Seq<Option<Member>>,
    reveal: i32,
    continental: Seq<bool>,
    n: int,
)
    requires
        0 <= n <= u32::MAX,
    ensures
        forall|i: int, j: int|
            0 <= i < j < joining(members, reveal, continental, n).len() ==> #[trigger] joining(
                members,
                reveal,
                continental,
                n,
            )[i] < #[trigger] joining(members, reveal, continental, n)[j],
    decreases n,
{
    if n > 0 {
        lemma_joining_ascends(members, reveal, continental, n - 1);
        lemma_joining_below(members, reveal, continental, n - 1);
        let was = joining(members, reveal, continental, n - 1);
        let now = joining(members, reveal, continental, n);
        assert forall|i: int, j: int| 0 <= i < j < now.len() implies #[trigger] now[i]
            < #[trigger] now[j] by {
            assert(now[i] == was[i]);
            if j < was.len() {
                assert(now[j] == was[j]);
            }
        }
    }
}

/// A point belongs to the first landmass that holds it, and to none exactly where none does.
pub proof fn a_point_belongs_to_one_landmass(holds: Seq<bool>, r: Option<usize>, i: int)
    requires
        belongs_to(holds, r),
        0 <= i < holds.len(),
        holds[i],
    ensures
        r is Some,
        (r->0) <= i,
        holds[r->0 as int],
{
}

/// More shield cores bring no fewer microcontinents: none up to five, two from ten on.
pub proof fn more_cores_bring_more_islands(a: usize, b: usize)
    requires
        a <= b,
    ensures
        micros(a) <= micros(b) <= 2,
        micros(a) == 0 <==> a <= 5,
        micros(b) == 2 <==> b >= 10,
{
}

/// Outlines keep to the octaves that make sense, and to what was asked for within them.
pub proof fn octaves_keep_to_their_band(wanted: u32)
    ensures
        4 <= octaves_of(wanted) <= 9,
        4 <= wanted <= 9 ==> octaves_of(wanted) == wanted,
        wanted < 4 ==> octaves_of(wanted) == 4,
        wanted > 9 ==> octaves_of(wanted) == 9,
{
}

/// A place that suits is taken, whenever it is found; a search is given up after 4096 places and
/// no sooner; and shield cores may stand closer after every 128 of them.
pub proof fn searches_ease_and_end(tries: u32, suits: bool)
    requires
        tries < 4096,
    ensures
        trial_of(tries, suits) is Placed <==> suits,
        trial_of(tries, suits) is GivenUp <==> !suits && tries == 4095,
        trial_of(tries, suits) matches Trial::Again { easings } ==> 128 * easings <= tries + 1 < 128
            * (easings + 1),
{
}

/// New crust shows the rock that lies below every column of its kind, thicker in all on
/// continents than on the ocean floor; and a landmass is announced when its last cells join,
/// which is once: not while it grows and not when nothing joins any more.
pub proof fn new_crust_shows_its_basement(continental: bool, grown: usize, complete: bool)
    ensures
        layers_of(continental).len() == 2,
        layers_of(continental).last().0 == basement_of(continental),
        layers_of(continental)[0].0 != layers_of(continental)[1].0,
        layers_of(true)[1].1 > layers_of(false)[0].1 > layers_of(true)[0].1
            > layers_of(false)[1].1,
        !is_assembled(0, complete),
        !is_assembled(grown, false),
        grown > 0 ==> is_assembled(grown, true),
{
}

} // verus!
