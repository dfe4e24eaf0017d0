//! Rifting: where a rift starts, how it grows through a plate, and which cells
//! the new plate takes.

use vstd::prelude::*;
use crate::flood::{count_eq, flood, flooded, lemma_count_absent, lemma_count_positive, UNMARKED};
use crate::graph::CellGraph;
use crate::plate::{fragment_of, Mosaic, MAX_PLATES, MIN_RIFTABLE_CELLS};

verus! {

/// Smallest fragment that a rift may produce, in cells.
pub const MIN_RIFT_FRAGMENT: usize = 6;

/// Shortest rift that can sever a plate, in cells.
pub const MIN_RIFT_PATH: usize = 3;

/// Mark of the cells along a rift.
pub const RIFT_MARK: u32 = 0;

/// Smallest plate that may rift on a mesh of `n` cells.
pub open spec fn riftable_cells(n: int) -> int {
    if n / 80 > MIN_RIFTABLE_CELLS {
        n / 80
    } else {
        MIN_RIFTABLE_CELLS as int
    }
}

/// Smallest plate that may rift on a mesh of `n` cells.
pub fn min_riftable(n: usize) -> (m: usize)
    ensures
        m == riftable_cells(n as int),
{
    if n / 80 > MIN_RIFTABLE_CELLS {
        n / 80
    } else {
        MIN_RIFTABLE_CELLS
    }
}

/// Plate `p` rifts: its draw came up and it is large enough, and no plate before
/// it does.
pub open spec fn rifts_first(fired: Seq<bool>, count: Seq<u32>, least: int, p: int) -> bool {
    &&& 0 <= p < fired.len()
    &&& fired[p]
    &&& count[p] >= least
    &&& forall|q: int| 0 <= q < p ==> !(#[trigger] fired[q] && count[q] >= least)
}

/// `p` is the plate that rifts in a step, if one does.
pub open spec fn is_rifting(fired: Seq<bool>, count: Seq<u32>, n: int, p: Option<u16>) -> bool {
    match p {
        Some(p) => fired.len() < MAX_PLATES && rifts_first(
            fired,
            count,
            riftable_cells(n),
            p as int,
        ),
        None => fired.len() >= MAX_PLATES || forall|q: int|
            0 <= q < fired.len() ==> !(#[trigger] fired[q] && count[q] >= riftable_cells(n)),
    }
}

/// The plate that rifts this step: the first whose draw came up and that has
/// enough cells; none once there are [`MAX_PLATES`].
pub fn rifting_plate(fired: &[bool], count: &[u32], n_cells: usize) -> (p: Option<u16>)
    requires
        fired@.len() == count@.len(),
    ensures
        is_rifting(fired@, count@, n_cells as int, p),
{
    let np = fired.len();
    if np >= MAX_PLATES {
        return None;
    }
    let least = min_riftable(n_cells);
    let mut p: usize = 0;
    while p < np
        invariant
            p <= np,
            np == fired@.len(),
            np == count@.len(),
            np < MAX_PLATES,
            least == riftable_cells(n_cells as int),
            forall|q: int| 0 <= q < p ==> !(#[trigger] fired@[q] && count@[q] >= least),
        decreases np - p,
    {
        if fired[p] && count[p] as usize >= least {
            return Some(p as u16);
        }
        p = p + 1;
    }
    None
}

/// The cells of plate `p`, in order.
pub open spec fn members_of(cell: Seq<u16>, p: u16, n: int) -> Seq<u32>
    decreases n,
{
    if n <= 0 {
        Seq::empty()
    } else if cell[n - 1] == p {
        members_of(cell, p, n - 1).push((n - 1) as u32)
    } else {
        members_of(cell, p, n - 1)
    }
}

pub proof fn lemma_members(cell: Seq<u16>, p: u16, n: int)
    requires
        0 <= n <= cell.len(),
        n <= u32::MAX,
    ensures
        members_of(cell, p, n).len() == count_eq(cell.take(n), p),
        members_of(cell, p, n).len() <= n,
        forall|i: int|
            0 <= i < members_of(cell, p, n).len() ==> (#[trigger] members_of(cell, p, n)[i]) < n
                && cell[members_of(cell, p, n)[i] as int] == p,
        forall|i: int, j: int|
            0 <= i < j < members_of(cell, p, n).len() ==> (#[trigger] members_of(cell, p, n)[i]) < (
            #[trigger] members_of(cell, p, n)[j]),
        forall|c: int|
            0 <= c < n && #[trigger] cell[c] == p ==> members_of(cell, p, n).contains(c as u32),
    decreases n,
{
    if n > 0 {
        lemma_members(cell, p, n - 1);
        assert(cell.take(n).drop_last() =~= cell.take(n - 1));
        let m0 = members_of(cell, p, n - 1);
        let m = members_of(cell, p, n);
        assert forall|c: int| 0 <= c < n && #[trigger] cell[c] == p implies m.contains(
            c as u32,
        ) by {
            if c < n - 1 {
                assert(m0.contains(c as u32));
                let i = choose|i: int| 0 <= i < m0.len() && m0[i] == c as u32;
                assert(m[i] == c as u32);
            } else {
                assert(m[m.len() - 1] == c as u32);
            }
        }
    } else {
        assert(cell.take(0) =~= Seq::<u16>::empty());
    }
}

/// The cells of plate `p`, in order.
pub fn plate_members(cell: &[u16], p: u16) -> (members: Vec<u32>)
    requires
        cell@.len() <= u32::MAX,
    ensures
        members@ == members_of(cell@, p, cell@.len() as int),
{
    let mut members: Vec<u32> = Vec::new();
    let mut c: usize = 0;
    while c < cell.len()
        invariant
            c <= cell@.len(),
            cell@.len() <= u32::MAX,
            members@ == members_of(cell@, p, c as int),
        decreases cell@.len() - c,
    {
        if cell[c] == p {
            members.push(c as u32);
        }
        c = c + 1;
    }
    members
}

/// `s` is the weakest of `members`: the largest key, the lowest cell where several
/// tie.
pub open spec fn is_weakest(members: Seq<u32>, key: Seq<i32>, s: u32) -> bool {
    &&& members.contains(s)
    &&& forall|i: int|
        0 <= i < members.len() ==> {
            ||| key[#[trigger] members[i] as int] < key[s as int]
            ||| key[members[i] as int] == key[s as int] && s <= members[i]
        }
}

/// Where a rift starts: the weakest cell of the plate. `key` orders the cells by
/// weakness.
pub fn weakest(members: &[u32], key: &[i32]) -> (s: u32)
    requires
        members@.len() > 0,
        forall|i: int| 0 <= i < members@.len() ==> (#[trigger] members@[i]) < key@.len(),
    ensures
        is_weakest(members@, key@, s),
{
    let mut s: u32 = members[0];
    let mut i: usize = 1;
    assert(members@[0] == s);
    while i < members.len()
        invariant
            1 <= i <= members@.len(),
            members@.contains(s),
            s < key@.len(),
            forall|j: int| 0 <= j < members@.len() ==> (#[trigger] members@[j]) < key@.len(),
            forall|j: int|
                0 <= j < i ==> {
                    ||| key@[#[trigger] members@[j] as int] < key@[s as int]
                    ||| key@[members@[j] as int] == key@[s as int] && s <= members@[j]
                },
        decreases members@.len() - i,
    {
        let m = members[i];
        if key[m as usize] > key[s as usize] || (key[m as usize] == key[s as usize] && m < s) {
            s = m;
            assert(members@[i as int] == s);
        }
        i = i + 1;
    }
    s
}

/// `seed` is where a rift through plate `p` starts, if it may.
pub open spec fn is_seed(cell: Seq<u16>, p: u16, key: Seq<i32>, seed: Option<u32>) -> bool {
    match seed {
        Some(s) => count_eq(cell, p) >= riftable_cells(cell.len() as int) && s < cell.len()
            && cell[s as int] == p && is_weakest(
            members_of(cell, p, cell.len() as int),
            key,
            s,
        ),
        None => count_eq(cell, p) < riftable_cells(cell.len() as int),
    }
}

/// Where a rift through plate `p` starts; nowhere in a plate that is too small.
pub fn rift_seed(cell: &[u16], p: u16, key: &[i32]) -> (seed: Option<u32>)
    requires
        cell@.len() <= u32::MAX,
        key@.len() == cell@.len(),
    ensures
        is_seed(cell@, p, key@, seed),
{
    let members = plate_members(cell, p);
    proof {
        lemma_members(cell@, p, cell@.len() as int);
        assert(cell@.take(cell@.len() as int) =~= cell@);
    }
    if members.len() < min_riftable(cell.len()) {
        return None;
    }
    let s = weakest(members.as_slice(), key);
    proof {
        let i = choose|i: int| 0 <= i < members@.len() && members@[i] == s;
        assert(members@[i] < cell@.len());
    }
    Some(s)
}

/// What a growing rift meets in one of its neighbours.
#[derive(Clone, Copy, Debug, PartialEq, Eq, Structural)]
pub enum Ahead {
    /// Another plate: this leg has reached the edge.
    Edge,
    /// A cell of the rift itself.
    Taken,
    /// A cell it may grow into.
    Free(u32),
}

/// A rift on its way through a plate, grown in two legs from one seed.
pub struct RiftPath {
    /// The plate that is being rifted.
    pub plate: u16,
    /// [`RIFT_MARK`] on the cells of the rift, [`UNMARKED`] on all others.
    pub mark: Vec<u32>,
    /// The cells of the rift, in the order they joined.
    pub path: Vec<u32>,
}

impl RiftPath {
    /// The marks are those of the path, and the path lies in the plate.
    pub open spec fn wf(&self, cell: Seq<u16>) -> bool {
        &&& cell.len() <= u32::MAX
        &&& self.mark@.len() == cell.len()
        &&& self.path@.len() >= 1
        &&& self.path@.no_duplicates()
        &&& forall|i: int|
            0 <= i < self.path@.len() ==> (#[trigger] self.path@[i]) < cell.len()
                && cell[self.path@[i] as int] == self.plate
        &&& forall|c: int|
            0 <= c < cell.len() ==> #[trigger] self.mark@[c] == (if self.path@.contains(c as u32) {
                RIFT_MARK
            } else {
                UNMARKED
            })
    }

    /// A rift that has only its seed.
    pub fn start(cell: &[u16], seed: u32) -> (r: RiftPath)
        requires
            cell@.len() <= u32::MAX,
            seed < cell@.len(),
        ensures
            r.wf(cell@),
            r.plate == cell@[seed as int],
            r.path@ == seq![seed],
    {
        let n = cell.len();
        let mut mark: Vec<u32> = Vec::new();
        while mark.len() < n
            invariant
                mark@.len() <= n,
                forall|c: int| 0 <= c < mark@.len() ==> mark@[c] == UNMARKED,
            decreases n - mark@.len(),
        {
            mark.push(UNMARKED);
        }
        mark.set(seed as usize, RIFT_MARK);
        let mut path: Vec<u32> = Vec::new();
        path.push(seed);
        let r = RiftPath { plate: cell[seed as usize], mark, path };
        proof {
            assert(r.path@ =~= seq![seed]);
            assert(r.path@[0] == seed);
            assert forall|c: int| 0 <= c < n implies #[trigger] r.mark@[c] == (
            if r.path@.contains(c as u32) {
                RIFT_MARK
            } else {
                UNMARKED
            }) by {
                if r.path@.contains(c as u32) {
                    let i = choose|i: int| 0 <= i < r.path@.len() && r.path@[i] == c as u32;
                    assert(i == 0);
                }
                if c == seed {
                    assert(r.path@[0] == c as u32);
                }
            }
        }
        r
    }

    /// What lies in slot `k` around cell `cur`.
    pub fn ahead(&self, g: &CellGraph, cell: &[u16], cur: usize, k: usize) -> (a: Ahead)
        requires
            g.wf(),
            cell@.len() == g.cells(),
            self.wf(cell@),
            cur < g.cells(),
            k < g.valence(cur as int),
        ensures
            a == ({
                let m = g.nb(cur as int, k as int);
                if cell@[m] != self.plate {
                    Ahead::Edge
                } else if self.path@.contains(m as u32) {
                    Ahead::Taken
                } else {
                    Ahead::Free(m as u32)
                }
            }),
    {
        let m = g.neighbor(cur, k);
        if cell[m] != self.plate {
            Ahead::Edge
        } else {
            assert(self.mark@[m as int] == (if self.path@.contains(m as u32) {
                RIFT_MARK
            } else {
                UNMARKED
            }));
            if self.mark[m] == RIFT_MARK {
                Ahead::Taken
            } else {
                Ahead::Free(m as u32)
            }
        }
    }

    /// Grows the rift into `next`. Returns whether it may grow further: its length
    /// is at most `limit`.
    pub fn grow(&mut self, cell: &[u16], next: u32, limit: usize) -> (more: bool)
        requires
            old(self).wf(cell@),
            next < cell@.len(),
            cell@[next as int] == old(self).plate,
            !old(self).path@.contains(next),
        ensures
            final(self).wf(cell@),
            final(self).plate == old(self).plate,
            final(self).path@ == old(self).path@.push(next),
            more == (final(self).path@.len() <= limit),
    {
        let ghost path0 = self.path@;
        let ghost mark0 = self.mark@;
        self.mark.set(next as usize, RIFT_MARK);
        self.path.push(next);
        proof {
            assert(self.path@[path0.len() as int] == next);
            assert forall|c: int| 0 <= c < cell@.len() implies #[trigger] self.mark@[c] == (
            if self.path@.contains(c as u32) {
                RIFT_MARK
            } else {
                UNMARKED
            }) by {
                assert(mark0[c] == (if path0.contains(c as u32) {
                    RIFT_MARK
                } else {
                    UNMARKED
                }));
                if path0.contains(c as u32) {
                    let i = choose|i: int| 0 <= i < path0.len() && path0[i] == c as u32;
                    assert(self.path@[i] == c as u32);
                }
                if self.path@.contains(c as u32) && c != next {
                    let i = choose|i: int| 0 <= i < self.path@.len() && self.path@[i] == c as u32;
                    assert(path0[i] == c as u32);
                }
            }
        }
        self.path.len() <= limit
    }
}

/// `best` is the candidate a leg grows into: the first with the largest score.
pub open spec fn is_next(scored: Seq<(i32, u32)>, best: u32) -> bool {
    exists|i: int|
        0 <= i < scored.len() && (#[trigger] scored[i]).1 == best && forall|j: int|
            0 <= j < scored.len() ==> (#[trigger] scored[j]).0 < scored[i].0 || (scored[j].0
                == scored[i].0 && i <= j)
}

/// `next` is where a leg grows, if it does.
pub open spec fn grows_to(scored: Seq<(i32, u32)>, at_edge: bool, next: Option<u32>) -> bool {
    match next {
        Some(best) => !at_edge && is_next(scored, best),
        None => at_edge || scored.len() == 0,
    }
}

/// Where a leg grows next: the first candidate with the largest score, nowhere once
/// it has met the plate's edge or nothing was scored.
pub fn next_cell(scored: &[(i32, u32)], at_edge: bool) -> (next: Option<u32>)
    ensures
        grows_to(scored@, at_edge, next),
{
    if at_edge || scored.len() == 0 {
        return None;
    }
    let mut b: usize = 0;
    let mut i: usize = 1;
    while i < scored.len()
        invariant
            1 <= i <= scored@.len(),
            b < i,
            forall|j: int|
                0 <= j < i ==> (#[trigger] scored@[j]).0 < scored@[b as int].0 || (scored@[j].0
                    == scored@[b as int].0 && b <= j),
        decreases scored@.len() - i,
    {
        if scored[i].0 > scored[b].0 {
            b = i;
        }
        i = i + 1;
    }
    assert(scored@[b as int].1 == scored@[b as int].1);
    Some(scored[b].1)
}

/// The marks after the cells before `c` have been visited: each piece of plate `p`
/// that the rift leaves is numbered, from 1, by its first cell. Paired with the
/// next free number.
pub open spec fn pieces(
    g: CellGraph,
    cell: Seq<u16>,
    mark: Seq<u32>,
    p: u16,
    c: int,
) -> (Seq<u32>, u32)
    decreases c,
{
    if c <= 0 {
        (mark, 1)
    } else {
        let (m, next) = pieces(g, cell, mark, p, c - 1);
        if cell[c - 1] == p && m[c - 1] == UNMARKED {
            (flooded(g, cell, m, c - 1, next), (next + 1) as u32)
        } else {
            (m, next)
        }
    }
}

/// Piece `a` comes before piece `b`: it is larger, or as large with the lower
/// number.
pub open spec fn larger_piece(mark: Seq<u32>, a: u32, b: u32) -> bool {
    ||| count_eq(mark, a) > count_eq(mark, b)
    ||| count_eq(mark, a) == count_eq(mark, b) && a < b
}

/// `r` is the second largest of the pieces numbered from 1 to before `next`.
pub open spec fn is_second_piece(mark: Seq<u32>, next: u32, r: u32) -> bool {
    &&& 1 <= r < next
    &&& exists|t: u32|
        1 <= t < next && t != r && #[trigger] larger_piece(mark, t, r) && forall|q: u32|
            1 <= q < next && q != r && q != t ==> #[trigger] larger_piece(mark, r, q)
}

/// The second largest piece.
pub open spec fn second_piece(mark: Seq<u32>, next: u32) -> u32 {
    choose|r: u32| is_second_piece(mark, next, r)
}

/// The rift severs the plate: it is long enough, it leaves at least two pieces, and
/// the second largest is worth a plate of its own.
pub open spec fn severs(g: CellGraph, cell: Seq<u16>, mark: Seq<u32>, p: u16, len: nat) -> bool {
    let (m, next) = pieces(g, cell, mark, p, g.cells());
    len >= MIN_RIFT_PATH && next >= 3 && count_eq(m, second_piece(m, next)) >= MIN_RIFT_FRAGMENT
}

/// How the first `k` neighbours of cell `c` vote: those in piece `r` for it, those in
/// other pieces against it.
pub open spec fn votes(g: CellGraph, mark: Seq<u32>, r: u32, c: int, k: int) -> int
    decreases k,
{
    if k <= 0 {
        0
    } else {
        let m = mark[g.nb(c, k - 1)];
        votes(g, mark, r, c, k - 1) + if m == r {
            1int
        } else if m == RIFT_MARK || m == UNMARKED {
            0int
        } else {
            -1int
        }
    }
}

/// Cell `c` of the rifted plate goes to the new one: it is in piece `r`, or on the
/// rift and most of its neighbours in pieces are.
pub open spec fn goes_along(g: CellGraph, mark: Seq<u32>, r: u32, c: int) -> bool {
    if mark[c] == RIFT_MARK {
        votes(g, mark, r, c, g.valence(c)) > 0
    } else {
        mark[c] == r
    }
}

/// The cells after the rift has severed plate `p`: those that go along belong to
/// plate `id`.
pub open spec fn severed_cells(
    g: CellGraph,
    cell: Seq<u16>,
    mark: Seq<u32>,
    p: u16,
    id: u16,
) -> Seq<u16> {
    let (m, next) = pieces(g, cell, mark, p, g.cells());
    let r = second_piece(m, next);
    Seq::new(
        cell.len(),
        |c: int|
            if cell[c] == p && goes_along(g, m, r, c) {
                id
            } else {
                cell[c]
            },
    )
}

/// Cell `c` lies on the boundary that plate `id` has got.
pub open spec fn on_new_boundary(g: CellGraph, cell: Seq<u16>, id: u16, c: int) -> bool {
    exists|k: int|
        0 <= k < g.valence(c) && #[trigger] cell[g.nb(c, k)] != cell[c] && (cell[g.nb(c, k)] == id
            || cell[c] == id)
}

/// What holds of the pieces at every stage: the rift keeps its mark, cells of other
/// plates have none, and the numbers used so far are those below the next one.
pub proof fn lemma_pieces(g: &CellGraph, cell: Seq<u16>, mark: Seq<u32>, p: u16, c: int)
    requires
        g.wf(),
        cell.len() == g.cells(),
        mark.len() == g.cells(),
        0 <= c <= g.cells(),
        forall|x: int|
            0 <= x < mark.len() ==> #[trigger] mark[x] == UNMARKED || (mark[x] == RIFT_MARK
                && cell[x] == p),
    ensures
        ({
            let (m, next) = pieces(*g, cell, mark, p, c);
            &&& m.len() == g.cells()
            &&& 1 <= next <= c + 1
            &&& forall|x: int|
                0 <= x < m.len() ==> {
                    ||| #[trigger] m[x] == UNMARKED
                    ||| m[x] < next && cell[x] == p
                }
            &&& forall|x: int| 0 <= x < m.len() && mark[x] == RIFT_MARK ==> #[trigger] m[x] == RIFT_MARK
            &&& forall|x: int| 0 <= x < m.len() && #[trigger] m[x] == RIFT_MARK ==> mark[x] == RIFT_MARK
            &&& forall|x: int| 0 <= x < c && cell[x] == p ==> #[trigger] m[x] != UNMARKED
            &&& forall|q: u32| 1 <= q < next ==> #[trigger] count_eq(m, q) > 0
        }),
    decreases c,
{
    if c > 0 {
        lemma_pieces(g, cell, mark, p, c - 1);
        let (m0, next0) = pieces(*g, cell, mark, p, c - 1);
        let (m, next) = pieces(*g, cell, mark, p, c);
        if cell[c - 1] == p && m0[c - 1] == UNMARKED {
            let open = crate::flood::unmarked_of(cell, m0, cell[c - 1]);
            crate::graph::lemma_reaches_self(g, open, c - 1);
            assert forall|x: int| 0 <= x < m.len() && g.reaches(open, c - 1, x) implies m0[x]
                == UNMARKED && cell[x] == p by {
                let w = choose|walk: Seq<int>| #[trigger]
                    g.is_walk(open, walk) && walk[0] == c - 1 && walk.last() == x;
                assert(open(w.last()));
            }
            assert(m[c - 1] == next0);
            lemma_count_positive(m, next0, c - 1);
            assert forall|q: u32| 1 <= q < next implies #[trigger] count_eq(m, q) > 0 by {
                if q < next0 {
                    assert(count_eq(m0, q) > 0);
                    lemma_count_kept(m0, m, q);
                }
            }
            assert forall|x: int| 0 <= x < m.len() implies {
                ||| #[trigger] m[x] == UNMARKED
                ||| m[x] < next && cell[x] == p
            } by {
                assert(m0[x] == UNMARKED || m0[x] < next0 && cell[x] == p);
            }
            assert forall|x: int| 0 <= x < m.len() && mark[x] == RIFT_MARK implies #[trigger] m[x]
                == RIFT_MARK by {
                assert(m0[x] == RIFT_MARK);
            }
            assert forall|x: int| 0 <= x < m.len() && #[trigger] m[x] == RIFT_MARK implies mark[x]
                == RIFT_MARK by {
                assert(m0[x] == RIFT_MARK);
            }
            assert forall|x: int| 0 <= x < c && cell[x] == p implies #[trigger] m[x] != UNMARKED by {
                if x < c - 1 {
                    assert(m0[x] != UNMARKED);
                }
            }
        }
    }
}

/// Where every occurrence of `q` stays, there are at least as many.
proof fn lemma_count_kept(a: Seq<u32>, b: Seq<u32>, q: u32)
    requires
        a.len() == b.len(),
        forall|x: int| 0 <= x < a.len() && #[trigger] a[x] == q ==> b[x] == q,
    ensures
        count_eq(a, q) <= count_eq(b, q),
    decreases a.len(),
{
    if a.len() > 0 {
        let a1 = a.drop_last();
        let b1 = b.drop_last();
        assert forall|x: int| 0 <= x < a1.len() && #[trigger] a1[x] == q implies b1[x] == q by {
            assert(a[x] == q);
        }
        lemma_count_kept(a1, b1, q);
        if a.last() == q {
            assert(a[a.len() - 1] == q);
        }
    }
}

/// There is only one second largest piece.
proof fn lemma_second_unique(mark: Seq<u32>, next: u32, r: u32)
    requires
        is_second_piece(mark, next, r),
    ensures
        r == second_piece(mark, next),
{
    let s = second_piece(mark, next);
    assert(is_second_piece(mark, next, s));
    let t = choose|t: u32|
        1 <= t < next && t != r && #[trigger] larger_piece(mark, t, r) && forall|q: u32|
            1 <= q < next && q != r && q != t ==> #[trigger] larger_piece(mark, r, q);
    let u = choose|u: u32|
        1 <= u < next && u != s && #[trigger] larger_piece(mark, u, s) && forall|q: u32|
            1 <= q < next && q != s && q != u ==> #[trigger] larger_piece(mark, s, q);
    if r != s {
        if s != t {
            assert(larger_piece(mark, r, s));
            if r != u {
                assert(larger_piece(mark, s, r));
            } else {
                assert(larger_piece(mark, s, t));
            }
        } else if r != u {
            assert(larger_piece(mark, r, u));
        }
    }
}

/// Numbers the pieces that the rift leaves of plate `p`, and counts their cells.
fn number_pieces(g: &CellGraph, cell: &[u16], mark: &mut Vec<u32>, p: u16) -> (size: Vec<usize>)
    requires
        g.wf(),
        cell@.len() == g.cells(),
        old(mark)@.len() == g.cells(),
        forall|x: int|
            0 <= x < old(mark)@.len() ==> #[trigger] old(mark)@[x] == UNMARKED || (old(mark)@[x]
                == RIFT_MARK && cell@[x] == p),
    ensures
        final(mark)@ == pieces(*g, cell@, old(mark)@, p, g.cells()).0,
        size@.len() == pieces(*g, cell@, old(mark)@, p, g.cells()).1,
        forall|q: int|
            1 <= q < size@.len() ==> #[trigger] size@[q] == count_eq(final(mark)@, q as u32),
{
    let ghost mark0 = mark@;
    let n = g.n_cells();
    let mut size: Vec<usize> = Vec::new();
    size.push(0);
    let mut c: usize = 0;
    while c < n
        invariant
            c <= n,
            n == g.cells(),
            g.wf(),
            cell@.len() == g.cells(),
            mark0.len() == g.cells(),
            forall|x: int|
                0 <= x < mark0.len() ==> #[trigger] mark0[x] == UNMARKED || (mark0[x] == RIFT_MARK
                    && cell@[x] == p),
            (mark@, size@.len() as u32) == pieces(*g, cell@, mark0, p, c as int),
            1 <= size@.len() <= c + 1,
            mark@.len() == g.cells(),
            forall|q: int|
                1 <= q < size@.len() ==> #[trigger] size@[q] == count_eq(mark@, q as u32),
        decreases n - c,
    {
        if cell[c] == p && mark[c] == UNMARKED {
            let ghost m0 = mark@;
            let ghost size0 = size@;
            let id = size.len() as u32;
            proof {
                lemma_pieces(g, cell@, mark0, p, c as int);
                assert forall|x: int| 0 <= x < m0.len() implies m0[x] != id by {
                    assert(m0[x] == UNMARKED || m0[x] < id);
                }
                lemma_count_absent(m0, id);
            }
            let found: usize = flood(g, cell, mark, c, id);
            size.push(found);
            proof {
                lemma_pieces(g, cell@, mark0, p, c + 1);
                assert forall|q: int| 1 <= q < size@.len() implies #[trigger] size@[q] == count_eq(
                    mark@,
                    q as u32,
                ) by {
                    if q < id {
                        assert(size0[q] == count_eq(m0, q as u32));
                        let open = crate::flood::unmarked_of(cell@, m0, p);
                        assert forall|x: int| 0 <= x < m0.len() && #[trigger] m0[x]
                            == q as u32 implies mark@[x] == q as u32 by {
                            if g.reaches(open, c as int, x) {
                                let w = choose|walk: Seq<int>| #[trigger]
                                    g.is_walk(open, walk) && walk[0] == c as int && walk.last()
                                        == x;
                                assert(open(w.last()));
                            }
                        }
                        lemma_count_kept(m0, mark@, q as u32);
                        assert forall|x: int| 0 <= x < mark@.len() && #[trigger] mark@[x]
                            == q as u32 implies m0[x] == q as u32 by {}
                        lemma_count_kept(mark@, m0, q as u32);
                    }
                }
            }
        }
        c = c + 1;
    }
    size
}

/// The second largest of the pieces, by size and then by number.
fn runner_up(size: &Vec<usize>, Ghost(mark): Ghost<Seq<u32>>) -> (r: u32)
    requires
        3 <= size@.len() <= u32::MAX,
        forall|q: int| 1 <= q < size@.len() ==> #[trigger] size@[q] == count_eq(mark, q as u32),
    ensures
        is_second_piece(mark, size@.len() as u32, r),
{
    let n = size.len() as u32;
    let mut top: u32 = 1;
    let mut second: u32 = 2;
    assert(size@[1] == count_eq(mark, 1));
    assert(size@[2] == count_eq(mark, 2));
    if size[2] > size[1] {
        top = 2;
        second = 1;
    }
    let mut q: u32 = 3;
    while q < n
        invariant
            3 <= q <= n,
            n == size@.len(),
            1 <= top < q,
            1 <= second < q,
            top != second,
            forall|x: int| 1 <= x < size@.len() ==> #[trigger] size@[x] == count_eq(mark, x as u32),
            larger_piece(mark, top, second),
            forall|x: u32|
                1 <= x < q && x != top && x != second ==> #[trigger] larger_piece(mark, second, x),
        decreases n - q,
    {
        let ghost top0 = top;
        let ghost second0 = second;
        assert(size@[q as int] == count_eq(mark, q));
        assert(size@[top as int] == count_eq(mark, top));
        assert(size@[second as int] == count_eq(mark, second));
        if size[q as usize] > size[top as usize] {
            second = top;
            top = q;
        } else if size[q as usize] > size[second as usize] {
            second = q;
        }
        proof {
            assert forall|x: u32| 1 <= x < q + 1 && x != top && x != second implies #[trigger]
                larger_piece(mark, second, x) by {
                if x != q && x != top0 && x != second0 {
                    assert(larger_piece(mark, second0, x));
                }
            }
        }
        q = q + 1;
    }
    assert(larger_piece(mark, top, second));
    second
}

/// Whether cell `c` goes along with piece `r`.
fn sides_with(g: &CellGraph, mark: &Vec<u32>, r: u32, c: usize) -> (b: bool)
    requires
        g.wf(),
        mark@.len() == g.cells(),
        c < g.cells(),
    ensures
        b == goes_along(*g, mark@, r, c as int),
{
    if mark[c] != RIFT_MARK {
        return mark[c] == r;
    }
    let deg = g.degree(c);
    let mut tally: i64 = 0;
    let mut k: usize = 0;
    while k < deg
        invariant
            k <= deg,
            deg == g.valence(c as int),
            deg <= u32::MAX,
            g.wf(),
            mark@.len() == g.cells(),
            c < g.cells(),
            tally == votes(*g, mark@, r, c as int, k as int),
            -k <= tally <= k,
        decreases deg - k,
    {
        let m = mark[g.neighbor(c, k)];
        if m == r {
            tally = tally + 1;
        } else if m == RIFT_MARK || m == UNMARKED {
        } else {
            tally = tally - 1;
        }
        k = k + 1;
    }
    tally > 0
}

/// A rift that opened.
pub struct Opened {
    /// The plate that the rift made.
    pub new_id: u16,
    /// The cells of the rifted plate that lie on the new boundary, in order.
    pub boundary: Vec<u32>,
}

/// Those of `members` that lie on the new boundary.
pub open spec fn boundary_cells(
    g: CellGraph,
    cell: Seq<u16>,
    id: u16,
    members: Seq<u32>,
    i: int,
) -> Seq<u32>
    decreases i,
{
    if i <= 0 {
        Seq::empty()
    } else if on_new_boundary(g, cell, id, members[i - 1] as int) {
        boundary_cells(g, cell, id, members, i - 1).push(members[i - 1])
    } else {
        boundary_cells(g, cell, id, members, i - 1)
    }
}

impl Mosaic {
    /// Splits the plate that `rift` runs through, if the rift severs it.
    ///
    /// The second largest piece becomes a new plate; cells on the rift go where most
    /// of their neighbours go. The new plate starts as a fragment of the old one.
    pub fn sever(&mut self, g: &CellGraph, rift: &RiftPath) -> (opened: Option<Opened>)
        requires
            g.wf(),
            old(self)@.cell.len() == g.cells(),
            old(self)@.plates.len() < u16::MAX,
            rift.wf(old(self)@.cell),
            rift.plate < old(self)@.plates.len(),
        ensures
            opened is Some <==> severs(
                *g,
                old(self)@.cell,
                rift.mark@,
                rift.plate,
                rift.path@.len(),
            ),
            opened is None ==> final(self)@ == old(self)@,
            opened matches Some(o) ==> {
                &&& o.new_id == old(self)@.plates.len()
                &&& final(self)@.cell == severed_cells(
                    *g,
                    old(self)@.cell,
                    rift.mark@,
                    rift.plate,
                    o.new_id,
                )
                &&& final(self)@.plates == old(self)@.plates.push(
                    fragment_of(old(self)@.plates[rift.plate as int]),
                )
                &&& o.boundary@ == boundary_cells(
                    *g,
                    final(self)@.cell,
                    o.new_id,
                    members_of(old(self)@.cell, rift.plate, g.cells()),
                    members_of(old(self)@.cell, rift.plate, g.cells()).len() as int,
                )
            },
    {
        let ghost s = self@;
        let p = rift.plate;
        if rift.path.len() < MIN_RIFT_PATH {
            return None;
        }
        let n = g.n_cells();
        let mut mark: Vec<u32> = Vec::new();
        let mut i: usize = 0;
        while i < n
            invariant
                i <= n,
                n == rift.mark@.len(),
                mark@ == rift.mark@.take(i as int),
            decreases n - i,
        {
            mark.push(rift.mark[i]);
            i = i + 1;
            assert(mark@ =~= rift.mark@.take(i as int));
        }
        assert(mark@ =~= rift.mark@);
        proof {
            assert forall|x: int| 0 <= x < mark@.len() implies #[trigger] mark@[x] == UNMARKED || (
            mark@[x] == RIFT_MARK && s.cell[x] == p) by {
                assert(rift.mark@[x] == (if rift.path@.contains(x as u32) {
                    RIFT_MARK
                } else {
                    UNMARKED
                }));
                if rift.path@.contains(x as u32) {
                    let j = choose|j: int| 0 <= j < rift.path@.len() && rift.path@[j] == x as u32;
                    assert(s.cell[rift.path@[j] as int] == p);
                }
            }
        }
        let size = number_pieces(g, self.plate_id.as_slice(), &mut mark, p);
        if size.len() < 3 {
            return None;
        }
        proof {
            lemma_pieces(g, s.cell, rift.mark@, p, g.cells());
        }
        let r = runner_up(&size, Ghost(mark@));
        proof {
            lemma_second_unique(mark@, size@.len() as u32, r);
            assert(size@[r as int] == count_eq(mark@, r));
        }
        if size[r as usize] < MIN_RIFT_FRAGMENT {
            return None;
        }
        let members = plate_members(self.plate_id.as_slice(), p);
        let new_id = self.plates.len() as u16;
        let mut c: usize = 0;
        while c < n
            invariant
                c <= n,
                n == g.cells(),
                g.wf(),
                self.plate_id@.len() == n,
                self.plates@ == s.plates,
                s.cell.len() == n,
                mark@.len() == n,
                forall|d: int| c <= d < n ==> #[trigger] self.plate_id@[d] == s.cell[d],
                forall|d: int|
                    0 <= d < c ==> #[trigger] self.plate_id@[d] == (if s.cell[d] == p && goes_along(
                        *g,
                        mark@,
                        r,
                        d,
                    ) {
                        new_id
                    } else {
                        s.cell[d]
                    }),
            decreases n - c,
        {
            if self.plate_id[c] == p {
                if sides_with(g, &mark, r, c) {
                    self.plate_id.set(c, new_id);
                }
            }
            c = c + 1;
        }
        assert(self.plate_id@ =~= severed_cells(*g, s.cell, rift.mark@, p, new_id));
        let piece = self.plates[p as usize].fragment();
        self.plates.push(piece);
        let boundary = self.new_boundary(g, members.as_slice(), new_id, Ghost((s.cell, p)));
        Some(Opened { new_id, boundary })
    }

    /// Those of `members` that lie on the boundary of plate `id`.
    fn new_boundary(
        &self,
        g: &CellGraph,
        members: &[u32],
        id: u16,
        Ghost(of): Ghost<(Seq<u16>, u16)>,
    ) -> (b: Vec<u32>)
        requires
            g.wf(),
            self@.cell.len() == g.cells(),
            of.0.len() == g.cells(),
            members@ == members_of(of.0, of.1, g.cells()),
        ensures
            b@ == boundary_cells(*g, self@.cell, id, members@, members@.len() as int),
    {
        let mut b: Vec<u32> = Vec::new();
        let mut i: usize = 0;
        proof {
            lemma_members(of.0, of.1, g.cells());
        }
        while i < members.len()
            invariant
                i <= members@.len(),
                g.wf(),
                self@.cell.len() == g.cells(),
                forall|j: int| 0 <= j < members@.len() ==> (#[trigger] members@[j]) < g.cells(),
                b@ == boundary_cells(*g, self@.cell, id, members@, i as int),
            decreases members@.len() - i,
        {
            let c = members[i] as usize;
            let mine = self.plate_id[c];
            let deg = g.degree(c);
            let mut found = false;
            let mut k: usize = 0;
            while k < deg && !found
                invariant
                    k <= deg,
                    deg == g.valence(c as int),
                    g.wf(),
                    c < g.cells(),
                    self@.cell.len() == g.cells(),
                    mine == self@.cell[c as int],
                    found ==> on_new_boundary(*g, self@.cell, id, c as int),
                    !found ==> forall|j: int|
                        0 <= j < k ==> !(#[trigger] self@.cell[g.nb(c as int, j)] != mine && (
                        self@.cell[g.nb(c as int, j)] == id || mine == id)),
                decreases deg - k,
            {
                let m = g.neighbor(c, k);
                let theirs = self.plate_id[m];
                if theirs != mine && (theirs == id || mine == id) {
                    found = true;
                    assert(self@.cell[g.nb(c as int, k as int)] != mine);
                }
                k = k + 1;
            }
            assert(found == on_new_boundary(*g, self@.cell, id, c as int));
            if found {
                b.push(members[i]);
            }
            i = i + 1;
        }
        b
    }
}

/// A rift that opens leaves both plates with cells: the new one at least its whole
/// piece, the old one at least the largest piece. Cells of other plates stay.
pub proof fn a_rift_divides_one_plate(
    g: &CellGraph,
    cell: Seq<u16>,
    rift: &RiftPath,
    id: u16,
)
    requires
        g.wf(),
        cell.len() == g.cells(),
        rift.wf(cell),
        id != rift.plate,
        severs(*g, cell, rift.mark@, rift.plate, rift.path@.len()),
        forall|c: int| 0 <= c < cell.len() ==> #[trigger] cell[c] != id,
    ensures
        ({
            let after = severed_cells(*g, cell, rift.mark@, rift.plate, id);
            &&& count_eq(after, id) >= MIN_RIFT_FRAGMENT
            &&& count_eq(after, rift.plate) >= MIN_RIFT_FRAGMENT
            &&& forall|c: int|
                0 <= c < cell.len() && cell[c] != rift.plate ==> #[trigger] after[c] == cell[c]
            &&& forall|c: int|
                0 <= c < cell.len() && cell[c] == rift.plate ==> #[trigger] after[c] == rift.plate
                    || after[c] == id
        }),
{
    let p = rift.plate;
    let after = severed_cells(*g, cell, rift.mark@, p, id);
    assert forall|x: int| 0 <= x < rift.mark@.len() implies #[trigger] rift.mark@[x] == UNMARKED || (
    rift.mark@[x] == RIFT_MARK && cell[x] == p) by {
        if rift.path@.contains(x as u32) {
            let j = choose|j: int| 0 <= j < rift.path@.len() && rift.path@[j] == x as u32;
            assert(cell[rift.path@[j] as int] == p);
        }
    }
    lemma_pieces(g, cell, rift.mark@, p, g.cells());
    let (m, next) = pieces(*g, cell, rift.mark@, p, g.cells());
    let r = second_piece(m, next);
    lemma_second_exists(m, next);
    let t = choose|t: u32|
        1 <= t < next && t != r && #[trigger] larger_piece(m, t, r) && forall|q: u32|
            1 <= q < next && q != r && q != t ==> #[trigger] larger_piece(m, r, q);
    lemma_count_carried(m, r, after, id);
    lemma_count_carried(m, t, after, p);
}

/// With at least two pieces, one is the second largest.
proof fn lemma_second_exists(mark: Seq<u32>, next: u32)
    requires
        next >= 3,
    ensures
        is_second_piece(mark, next, second_piece(mark, next)),
{
    lemma_top_two(mark, next, next);
    let (t, r) = choose|t: u32, r: u32| #[trigger] top_two(mark, next, t, r);
    assert(larger_piece(mark, t, r));
    assert(is_second_piece(mark, next, r));
}

spec fn top_two(mark: Seq<u32>, upto: u32, t: u32, r: u32) -> bool {
    &&& 1 <= t < upto
    &&& 1 <= r < upto
    &&& t != r
    &&& larger_piece(mark, t, r)
    &&& forall|q: u32| 1 <= q < upto && q != r && q != t ==> #[trigger] larger_piece(mark, r, q)
}

proof fn lemma_top_two(mark: Seq<u32>, next: u32, upto: u32)
    requires
        3 <= upto <= next,
    ensures
        exists|t: u32, r: u32| #[trigger] top_two(mark, upto, t, r),
    decreases upto,
{
    if upto == 3 {
        if larger_piece(mark, 1, 2) {
            assert(top_two(mark, 3, 1, 2));
        } else {
            assert(top_two(mark, 3, 2, 1));
        }
    } else {
        let q = (upto - 1) as u32;
        lemma_top_two(mark, next, q);
        let (t, r) = choose|t: u32, r: u32| #[trigger] top_two(mark, q, t, r);
        if larger_piece(mark, q, t) {
            assert forall|x: u32| 1 <= x < upto && x != t && x != q implies #[trigger] larger_piece(
                mark,
                t,
                x,
            ) by {
                if x != r {
                    assert(larger_piece(mark, r, x));
                }
            }
            assert(top_two(mark, upto, q, t));
        } else if larger_piece(mark, q, r) {
            assert forall|x: u32| 1 <= x < upto && x != q && x != t implies #[trigger] larger_piece(
                mark,
                q,
                x,
            ) by {
                if x != r {
                    assert(larger_piece(mark, r, x));
                }
            }
            assert(top_two(mark, upto, t, q));
        } else {
            assert(top_two(mark, upto, t, r));
        }
    }
}

/// Where every cell marked `a` ends up with plate `v`, the plate has at least as many.
proof fn lemma_count_carried(
    mark: Seq<u32>,
    a: u32,
    after: Seq<u16>,
    v: u16,
)
    requires
        mark.len() == after.len(),
        forall|x: int| 0 <= x < mark.len() && #[trigger] mark[x] == a ==> after[x] == v,
    ensures
        count_eq(mark, a) <= count_eq(after, v),
    decreases mark.len(),
{
    if mark.len() > 0 {
        let m1 = mark.drop_last();
        let a1 = after.drop_last();
        assert forall|x: int| 0 <= x < m1.len() && #[trigger] m1[x] == a implies a1[x] == v by {
            assert(mark[x] == a);
        }
        lemma_count_carried(m1, a, a1, v);
        if mark.last() == a {
            assert(mark[mark.len() - 1] == a);
        }
    }
}

/// A plate may rift from an 80th of the planet and two dozen cells on, whichever is more.
pub proof fn only_large_plates_rift(n: int)
    requires
        n >= 0,
    ensures
        riftable_cells(n) >= 24,
        riftable_cells(n) >= n / 80,
        riftable_cells(n) == 24 || riftable_cells(n) == n / 80,
{
}

/// One plate rifts in a step, the first whose draw came up and that is large enough, and none
/// once there are 64. Where any may, one does.
pub proof fn the_first_large_plate_drawn_rifts(
    fired: Seq<bool>,
    count: Seq<u32>,
    n: int,
    p: Option<u16>,
    q: int,
)
    requires
        n >= 0,
        is_rifting(fired, count, n, p),
        0 <= q < fired.len(),
    ensures
        p matches Some(r) ==> fired.len() < 64 && r < fired.len() && fired[r as int] && count[
        r as int] >= 24 && count[r as int] >= n / 80,
        fired.len() < 64 && fired[q] && count[q] >= 24 && count[q] >= n / 80 ==> p is Some && p->0
            <= q,
{
    only_large_plates_rift(n);
    assert(fired[q] || !fired[q]);
}

/// A plate's list of cells holds exactly its cells, each once, in order.
pub proof fn members_are_the_cells_of_the_plate(cell: Seq<u16>, p: u16, c: int)
    requires
        cell.len() <= u32::MAX,
        0 <= c < cell.len(),
    ensures
        members_of(cell, p, cell.len() as int).contains(c as u32) <==> cell[c] == p,
        forall|i: int, j: int|
            0 <= i < j < members_of(cell, p, cell.len() as int).len() ==> (#[trigger] members_of(
                cell,
                p,
                cell.len() as int,
            )[i]) < (#[trigger] members_of(cell, p, cell.len() as int)[j]),
{
    lemma_members(cell, p, cell.len() as int);
    let m = members_of(cell, p, cell.len() as int);
    if m.contains(c as u32) {
        let i = choose|i: int| 0 <= i < m.len() && m[i] == c as u32;
        assert(m[i] < cell.len());
    }
}

/// A rift starts in the weakest cell of its plate, and only in a plate that is large enough.
pub proof fn rifts_start_at_the_weakest_cell(
    cell: Seq<u16>,
    p: u16,
    key: Seq<i32>,
    seed: Option<u32>,
    c: int,
)
    requires
        cell.len() <= u32::MAX,
        is_seed(cell, p, key, seed),
        0 <= c < cell.len(),
    ensures
        seed is Some <==> count_eq(cell, p) >= 24 && count_eq(cell, p) >= cell.len() / 80,
        seed matches Some(s) ==> s < cell.len() && cell[s as int] == p && (cell[c] == p
            ==> key[c] <= key[s as int] && (key[c] == key[s as int] ==> s <= c)),
{
    only_large_plates_rift(cell.len() as int);
    lemma_members(cell, p, cell.len() as int);
    if cell[c] == p {
        let m = members_of(cell, p, cell.len() as int);
        assert(m.contains(c as u32));
        let i = choose|i: int| 0 <= i < m.len() && m[i] == c as u32;
        assert(m[i] == c as u32);
    }
}

/// A leg grows into a cell that scores best, and ends at the edge of the plate or where nothing
/// is left to grow into.
pub proof fn rifts_grow_where_it_is_weakest(
    scored: Seq<(i32, u32)>,
    at_edge: bool,
    next: Option<u32>,
    j: int,
)
    requires
        grows_to(scored, at_edge, next),
        0 <= j < scored.len(),
    ensures
        next is None <==> at_edge,
        next matches Some(best) ==> exists|i: int|
            0 <= i < scored.len() && (#[trigger] scored[i]).1 == best && scored[j].0
                <= scored[i].0,
{
    if let Some(best) = next {
        let i = choose|i: int|
            0 <= i < scored.len() && (#[trigger] scored[i]).1 == best && forall|j: int|
                0 <= j < scored.len() ==> (#[trigger] scored[j]).0 < scored[i].0 || (scored[j].0
                    == scored[i].0 && i <= j);
        assert(scored[i].1 == best);
        assert(scored[j].0 <= scored[i].0);
    }
}

/// Neighbours in the plate, neither on the rift, are in one piece at every stage.
proof fn lemma_pieces_whole(
    g: &CellGraph,
    cell: Seq<u16>,
    mark: Seq<u32>,
    p: u16,
    c: int,
    x: int,
    y: int,
)
    requires
        g.wf(),
        g.symmetric(),
        cell.len() == g.cells(),
        mark.len() == g.cells(),
        0 <= c <= g.cells(),
        forall|z: int|
            0 <= z < mark.len() ==> #[trigger] mark[z] == UNMARKED || (mark[z] == RIFT_MARK
                && cell[z] == p),
        0 <= x < g.cells(),
        0 <= y < g.cells(),
        g.adjacent(x, y),
        cell[x] == p,
        cell[y] == p,
        mark[x] == UNMARKED,
        mark[y] == UNMARKED,
    ensures
        pieces(*g, cell, mark, p, c).0[x] == pieces(*g, cell, mark, p, c).0[y],
    decreases c,
{
    if c > 0 {
        lemma_pieces_whole(g, cell, mark, p, c - 1, x, y);
        lemma_pieces(g, cell, mark, p, c - 1);
        let (m, next) = pieces(*g, cell, mark, p, c - 1);
        if cell[c - 1] == p && m[c - 1] == UNMARKED {
            let open = crate::flood::unmarked_of(cell, m, cell[c - 1]);
            assert(g.adjacent(y, x));
            if g.reaches(open, c - 1, x) {
                let w = choose|walk: Seq<int>| #[trigger]
                    g.is_walk(open, walk) && walk[0] == c - 1 && walk.last() == x;
                assert(open(w.last()));
                crate::graph::lemma_reaches_step(g, open, c - 1, x, y);
            }
            if g.reaches(open, c - 1, y) {
                let w = choose|walk: Seq<int>| #[trigger]
                    g.is_walk(open, walk) && walk[0] == c - 1 && walk.last() == y;
                assert(open(w.last()));
                crate::graph::lemma_reaches_step(g, open, c - 1, y, x);
            }
        }
    }
}

/// A rift parts its plate along its path alone: two neighbours of the plate, neither of them on
/// the rift, are still on one plate when it has opened.
pub proof fn a_rift_parts_along_its_path(
    g: &CellGraph,
    cell: Seq<u16>,
    rift: &RiftPath,
    id: u16,
    x: int,
    y: int,
)
    requires
        g.wf(),
        g.symmetric(),
        cell.len() == g.cells(),
        rift.wf(cell),
        0 <= x < g.cells(),
        0 <= y < g.cells(),
        g.adjacent(x, y),
        cell[x] == rift.plate,
        cell[y] == rift.plate,
        !rift.path@.contains(x as u32),
        !rift.path@.contains(y as u32),
    ensures
        severed_cells(*g, cell, rift.mark@, rift.plate, id)[x] == severed_cells(
            *g,
            cell,
            rift.mark@,
            rift.plate,
            id,
        )[y],
{
    let p = rift.plate;
    assert forall|z: int| 0 <= z < rift.mark@.len() implies #[trigger] rift.mark@[z] == UNMARKED || (
    rift.mark@[z] == RIFT_MARK && cell[z] == p) by {
        if rift.path@.contains(z as u32) {
            let j = choose|j: int| 0 <= j < rift.path@.len() && rift.path@[j] == z as u32;
            assert(cell[rift.path@[j] as int] == p);
        }
    }
    assert(rift.mark@[x] == UNMARKED && rift.mark@[y] == UNMARKED);
    lemma_pieces_whole(g, cell, rift.mark@, p, g.cells(), x, y);
    lemma_pieces(g, cell, rift.mark@, p, g.cells());
    let m = pieces(*g, cell, rift.mark@, p, g.cells()).0;
    assert(m[x] != RIFT_MARK && m[y] != RIFT_MARK);
}

/// A rift opens only where it is three cells long and leaves two pieces of six cells or more;
/// then both plates have at least six cells, the larger side stays with the old plate, and no
/// other plate is touched.
pub proof fn a_rift_leaves_two_plates_worth_having(
    g: &CellGraph,
    cell: Seq<u16>,
    rift: &RiftPath,
    id: u16,
)
    requires
        g.wf(),
        cell.len() == g.cells(),
        rift.wf(cell),
        id != rift.plate,
        severs(*g, cell, rift.mark@, rift.plate, rift.path@.len()),
        forall|c: int| 0 <= c < cell.len() ==> #[trigger] cell[c] != id,
    ensures
        rift.path@.len() >= 3,
        ({
            let after = severed_cells(*g, cell, rift.mark@, rift.plate, id);
            let (m, next) = pieces(*g, cell, rift.mark@, rift.plate, g.cells());
            &&& count_eq(after, id) >= 6
            &&& count_eq(after, rift.plate) >= 6
            &&& exists|t: u32, r: u32|
                #![trigger count_eq(m, t), count_eq(m, r)]
                t != r && count_eq(m, t) >= count_eq(m, r) && (forall|c: int|
                    0 <= c < cell.len() && m[c] == t ==> #[trigger] after[c] == rift.plate) && (
                forall|c: int| 0 <= c < cell.len() && m[c] == r ==> #[trigger] after[c] == id) && (
                forall|q: u32|
                    1 <= q < next && q != t ==> #[trigger] count_eq(m, q) <= count_eq(m, r))
            &&& forall|c: int|
                0 <= c < cell.len() && cell[c] != rift.plate ==> #[trigger] after[c] == cell[c]
        }),
{
    let p = rift.plate;
    let after = severed_cells(*g, cell, rift.mark@, p, id);
    a_rift_divides_one_plate(g, cell, rift, id);
    assert forall|x: int| 0 <= x < rift.mark@.len() implies #[trigger] rift.mark@[x] == UNMARKED || (
    rift.mark@[x] == RIFT_MARK && cell[x] == p) by {
        if rift.path@.contains(x as u32) {
            let j = choose|j: int| 0 <= j < rift.path@.len() && rift.path@[j] == x as u32;
            assert(cell[rift.path@[j] as int] == p);
        }
    }
    lemma_pieces(g, cell, rift.mark@, p, g.cells());
    let (m, next) = pieces(*g, cell, rift.mark@, p, g.cells());
    let r = second_piece(m, next);
    lemma_second_exists(m, next);
    let t = choose|t: u32|
        1 <= t < next && t != r && #[trigger] larger_piece(m, t, r) && forall|q: u32|
            1 <= q < next && q != r && q != t ==> #[trigger] larger_piece(m, r, q);
    assert(count_eq(m, t) >= count_eq(m, r));
    assert forall|q: u32| 1 <= q < next && q != t implies #[trigger] count_eq(m, q) <= count_eq(
        m,
        r,
    ) by {
        if q != r {
            assert(larger_piece(m, r, q));
        }
    }
}

proof fn lemma_votes(g: &CellGraph, mark: Seq<u32>, r: u32, c: int, k: int)
    requires
        0 <= k,
    ensures
        ({
            let with = Set::new(|j: int| 0 <= j < k && mark[g.nb(c, j)] == r);
            let against = Set::new(
                |j: int|
                    0 <= j < k && mark[g.nb(c, j)] != r && mark[g.nb(c, j)] != RIFT_MARK && mark[g.nb(
                        c,
                        j,
                    )] != UNMARKED,
            );
            &&& with.finite()
            &&& against.finite()
            &&& votes(*g, mark, r, c, k) == with.len() - against.len()
        }),
    decreases k,
{
    let with = Set::new(|j: int| 0 <= j < k && mark[g.nb(c, j)] == r);
    let against = Set::new(
        |j: int|
            0 <= j < k && mark[g.nb(c, j)] != r && mark[g.nb(c, j)] != RIFT_MARK && mark[g.nb(c, j)]
                != UNMARKED,
    );
    if k > 0 {
        lemma_votes(g, mark, r, c, k - 1);
        let with0 = Set::new(|j: int| 0 <= j < k - 1 && mark[g.nb(c, j)] == r);
        let against0 = Set::new(
            |j: int|
                0 <= j < k - 1 && mark[g.nb(c, j)] != r && mark[g.nb(c, j)] != RIFT_MARK && mark[g.nb(
                    c,
                    j,
                )] != UNMARKED,
        );
        let m = mark[g.nb(c, k - 1)];
        if m == r {
            assert(with =~= with0.insert(k - 1));
            assert(against =~= against0);
        } else if m == RIFT_MARK || m == UNMARKED {
            assert(with =~= with0);
            assert(against =~= against0);
        } else {
            assert(with =~= with0);
            assert(against =~= against0.insert(k - 1));
        }
    } else {
        assert(with =~= Set::empty());
        assert(against =~= Set::empty());
    }
}

/// A cell on the rift goes with the new plate exactly where more of its neighbours are in the
/// piece that leaves than in pieces that stay.
pub proof fn rift_cells_go_with_the_majority(g: &CellGraph, mark: Seq<u32>, r: u32, c: int)
    requires
        g.wf(),
        0 <= c < g.cells(),
        mark[c] == RIFT_MARK,
    ensures
        goes_along(*g, mark, r, c) <==> Set::new(
            |j: int| 0 <= j < g.valence(c) && mark[g.nb(c, j)] == r,
        ).len() > Set::new(
            |j: int|
                0 <= j < g.valence(c) && mark[g.nb(c, j)] != r && mark[g.nb(c, j)] != RIFT_MARK
                    && mark[g.nb(c, j)] != UNMARKED,
        ).len(),
{
    assert(g.offsets@[c] <= g.offsets@[c + 1]);
    lemma_votes(g, mark, r, c, g.valence(c));
}

/// The new boundary is every cell of the old plate that has a neighbour on the other side of
/// it, and no other.
pub proof fn the_new_boundary_is_where_the_sides_meet(
    g: &CellGraph,
    cell: Seq<u16>,
    id: u16,
    members: Seq<u32>,
    c: u32,
)
    ensures
        boundary_cells(*g, cell, id, members, members.len() as int).contains(c)
            <==> members.contains(c) && exists|k: int|
            0 <= k < g.valence(c as int) && #[trigger] cell[g.nb(c as int, k)] != cell[c as int] && (
            cell[g.nb(c as int, k)] == id || cell[c as int] == id),
{
    lemma_boundary_cells(g, cell, id, members, members.len() as int, c);
    assert(on_new_boundary(*g, cell, id, c as int) == exists|k: int|
        0 <= k < g.valence(c as int) && #[trigger] cell[g.nb(c as int, k)] != cell[c as int] && (
        cell[g.nb(c as int, k)] == id || cell[c as int] == id));
    assert(members.contains(c) <==> exists|j: int| 0 <= j < members.len() && members[j] == c);
}

proof fn lemma_boundary_cells(
    g: &CellGraph,
    cell: Seq<u16>,
    id: u16,
    members: Seq<u32>,
    i: int,
    c: u32,
)
    requires
        0 <= i <= members.len(),
    ensures
        boundary_cells(*g, cell, id, members, i).contains(c) <==> on_new_boundary(
            *g,
            cell,
            id,
            c as int,
        ) && exists|j: int| 0 <= j < i && members[j] == c,
    decreases i,
{
    if i > 0 {
        lemma_boundary_cells(g, cell, id, members, i - 1, c);
        let was = boundary_cells(*g, cell, id, members, i - 1);
        let now = boundary_cells(*g, cell, id, members, i);
        if now.contains(c) {
            let j = choose|j: int| 0 <= j < now.len() && now[j] == c;
            if j < was.len() {
                assert(was[j] == c);
                assert(was.contains(c));
            } else {
                assert(members[i - 1] == c);
            }
        }
        if was.contains(c) {
            let j = choose|j: int| 0 <= j < was.len() && was[j] == c;
            assert(now[j] == c);
        }
        if members[i - 1] == c && on_new_boundary(*g, cell, id, c as int) {
            assert(now[now.len() - 1] == c);
        }
    }
}

} // verus!
