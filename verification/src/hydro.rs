//! Drainage: priority-flood depression filling and single-direction flow routing.
//!
//! Every cell below sea level is an outlet and waits in a heap at its own height.
//! Taking the lowest waiting cell and raising each unseen neighbour above it gives a
//! filled surface on which every cell drains. Heights are order keys; what lies a
//! little above a height is given by a function on keys.

use vstd::prelude::*;
use crate::graph::{lemma_closed_holds_reach, every_cell, whole, CellGraph};
use crate::heap::LevelHeap;

verus! {

/// "Drains nowhere": ocean cells and the global outlet.
pub const NO_DOWNSTREAM: u32 = u32::MAX;

/// "No edge": the cell has no downstream neighbour.
pub const FLOW_NONE: u8 = u8::MAX;

/// What `lift` makes of key `k`.
pub open spec fn lifted<F: Fn(i32) -> i32>(lift: F, k: i32) -> i32 {
    choose|r: i32| call_ensures(lift, (k,), r)
}

/// `lift` can be asked about every key, and answers by the key alone.
pub open spec fn is_lift<F: Fn(i32) -> i32>(lift: F) -> bool {
    &&& forall|k: i32| #[trigger] call_requires(lift, (k,))
    &&& forall|k: i32, r: i32| #[trigger] call_ensures(lift, (k,), r) ==> r == lifted(lift, k)
}

/// The function on keys that `lift` computes.
pub open spec fn lift_of<F: Fn(i32) -> i32>(lift: F) -> spec_fn(i32) -> i32 {
    |k: i32| lifted(lift, k)
}

/// `lift` has been asked about key `k`.
pub open spec fn answered<F: Fn(i32) -> i32>(lift: F, k: i32) -> bool {
    call_ensures(lift, (k,), lifted(lift, k))
}

/// `lift` has been asked about the height of every cell that the flood took.
pub open spec fn asked<F: Fn(i32) -> i32>(lift: F, filled: Seq<i32>, order: Seq<u32>) -> bool {
    forall|i: int| 0 <= i < order.len() ==> answered(lift, filled[#[trigger] order[i] as int])
}

/// A flood in progress.
#[verifier::ext_equal]
pub struct Tide {
    /// Filled height of the cells seen so far.
    pub filled: Seq<i32>,
    /// Cells that have been given a filled height.
    pub seen: Seq<bool>,
    /// Cells taken so far, in order.
    pub order: Seq<u32>,
}

impl Tide {
    /// Cell `c` has its height but has not been taken.
    pub open spec fn waits(self, c: int) -> bool {
        0 <= c < self.seen.len() && self.seen[c] && !self.order.contains(c as u32)
    }

    /// Cell `c` is taken next: it waits at the smallest height, with the smallest id.
    pub open spec fn is_next(self, c: int) -> bool {
        &&& self.waits(c)
        &&& forall|d: int| #[trigger]
            self.waits(d) ==> self.filled[c] < self.filled[d] || (self.filled[c] == self.filled[d]
                && c <= d)
    }

    /// The cell taken next.
    pub open spec fn next(self) -> int {
        choose|c: int| self.is_next(c)
    }

    /// Some cell waits.
    pub open spec fn busy(self) -> bool {
        exists|c: int| self.waits(c)
    }

    /// The tide after the first `k` neighbours of `c` have been raised above it.
    pub open spec fn spread(
        self,
        g: CellGraph,
        elev: Seq<i32>,
        up: spec_fn(i32) -> i32,
        c: int,
        k: int,
    ) -> Tide
        decreases k,
    {
        if k <= 0 {
            self
        } else {
            let t = self.spread(g, elev, up, c, k - 1);
            let m = g.nb(c, k - 1);
            if t.seen[m] {
                t
            } else {
                let above = up(self.filled[c]);
                Tide {
                    filled: t.filled.update(
                        m,
                        if elev[m] >= above {
                            elev[m]
                        } else {
                            above
                        },
                    ),
                    seen: t.seen.update(m, true),
                    ..t
                }
            }
        }
    }

    /// The tide after cell `c` has been taken.
    pub open spec fn take(self, g: CellGraph, elev: Seq<i32>, up: spec_fn(i32) -> i32, c: int) -> Tide {
        let t = Tide { order: self.order.push(c as u32), ..self };
        t.spread(g, elev, up, c, g.valence(c))
    }

    /// The tide after `n` more cells have been taken, or none waits any more.
    pub open spec fn run(
        self,
        g: CellGraph,
        elev: Seq<i32>,
        up: spec_fn(i32) -> i32,
        n: nat,
    ) -> Tide
        decreases n,
    {
        if n == 0 || !self.busy() {
            self
        } else {
            self.take(g, elev, up, self.next()).run(g, elev, up, (n - 1) as nat)
        }
    }
}

/// Cell `c` is the lowest, the first where several tie.
pub open spec fn is_lowest(elev: Seq<i32>, c: int) -> bool {
    &&& 0 <= c < elev.len()
    &&& forall|d: int|
        0 <= d < elev.len() ==> elev[c] < #[trigger] elev[d] || (elev[c] == elev[d] && c <= d)
}

/// Cell `c` is an outlet: it lies below sea level, or nothing does and it is the lowest.
pub open spec fn is_outlet(elev: Seq<i32>, sea: i32, c: int) -> bool {
    if exists|d: int| 0 <= d < elev.len() && #[trigger] elev[d] < sea {
        elev[c] < sea
    } else {
        is_lowest(elev, c)
    }
}

/// The tide at its start: every outlet waits at its own height.
pub open spec fn low_tide(elev: Seq<i32>, sea: i32) -> Tide {
    Tide {
        filled: Seq::new(
            elev.len(),
            |c: int|
                if is_outlet(elev, sea, c) {
                    elev[c]
                } else {
                    0
                },
        ),
        seen: Seq::new(elev.len(), |c: int| is_outlet(elev, sea, c)),
        order: Seq::empty(),
    }
}

/// The finished flood.
pub open spec fn high_tide(
    g: CellGraph,
    elev: Seq<i32>,
    sea: i32,
    up: spec_fn(i32) -> i32,
) -> Tide {
    low_tide(elev, sea).run(g, elev, up, elev.len())
}

/// Distinct cells among `n` are at most `n`.
pub proof fn lemma_distinct_bound(s: Seq<u32>, n: int)
    requires
        0 <= n,
        s.no_duplicates(),
        forall|i: int| 0 <= i < s.len() ==> (#[trigger] s[i]) < n,
    ensures
        s.len() <= n,
    decreases n,
{
    if n == 0 {
        if s.len() > 0 {
            assert(s[0] < 0);
        }
    } else if s.contains((n - 1) as u32) {
        let i = choose|i: int| 0 <= i < s.len() && s[i] == (n - 1) as u32;
        let t = s.remove(i);
        assert forall|j: int| 0 <= j < t.len() implies (#[trigger] t[j]) < n - 1 by {
            if j < i {
                assert(s[j] < n && s[j] != s[i]);
            } else {
                assert(s[j + 1] < n && s[j + 1] != s[i]);
            }
        }
        lemma_distinct_bound(t, n - 1);
    } else {
        assert forall|j: int| 0 <= j < s.len() implies (#[trigger] s[j]) < n - 1 by {
            assert(s[j] < n);
            if s[j] == n - 1 {
                assert(s.contains((n - 1) as u32));
            }
        }
        lemma_distinct_bound(s, n - 1);
    }
}

/// What every tide keeps: the cells taken are distinct cells that have been seen.
pub open spec fn sound(g: CellGraph, t: Tide) -> bool {
    &&& t.filled.len() == g.cells()
    &&& t.seen.len() == g.cells()
    &&& t.order.no_duplicates()
    &&& forall|i: int|
        0 <= i < t.order.len() ==> (#[trigger] t.order[i]) < g.cells()
            && t.seen[t.order[i] as int]
}

pub proof fn lemma_spread(
    g: &CellGraph,
    t: Tide,
    elev: Seq<i32>,
    up: spec_fn(i32) -> i32,
    c: int,
    k: int,
)
    requires
        g.wf(),
        sound(*g, t),
        0 <= c < g.cells(),
        0 <= k <= g.valence(c),
    ensures
        sound(*g, t.spread(*g, elev, up, c, k)),
        t.spread(*g, elev, up, c, k).order == t.order,
        forall|m: int|
            0 <= m < g.cells() && t.seen[m] ==> {
                &&& #[trigger] t.spread(*g, elev, up, c, k).seen[m]
                &&& t.spread(*g, elev, up, c, k).filled[m] == t.filled[m]
            },
        forall|m: int|
            0 <= m < g.cells() && !t.seen[m] && #[trigger] t.spread(*g, elev, up, c, k).seen[m] ==> {
                &&& t.spread(*g, elev, up, c, k).filled[m] == (if elev[m] >= up(t.filled[c]) {
                    elev[m]
                } else {
                    up(t.filled[c])
                })
                &&& g.adjacent(c, m)
            },
        forall|j: int| 0 <= j < k ==> t.spread(*g, elev, up, c, k).seen[#[trigger] g.nb(c, j)],
    decreases k,
{
    if k > 0 {
        lemma_spread(g, t, elev, up, c, k - 1);
        assert(g.offsets@[c + 1] <= g.offsets@[g.cells()]);
        let m = g.nb(c, k - 1);
        assert(0 <= m < g.cells());
        assert(g.adjacent(c, m));
        let before = t.spread(*g, elev, up, c, k - 1);
        let after = t.spread(*g, elev, up, c, k);
        assert forall|j: int| 0 <= j < k implies after.seen[#[trigger] g.nb(c, j)] by {
            if j < k - 1 {
                assert(before.seen[g.nb(c, j)]);
            }
        }
        assert forall|i: int| 0 <= i < after.order.len() implies (#[trigger] after.order[i])
            < g.cells() && after.seen[after.order[i] as int] by {
            assert(before.order[i] < g.cells());
        }
        assert forall|x: int| 0 <= x < g.cells() && t.seen[x] implies #[trigger] after.seen[x]
            && after.filled[x] == t.filled[x] by {
            assert(before.seen[x]);
        }
        assert forall|x: int|
            0 <= x < g.cells() && !t.seen[x] && #[trigger] after.seen[x] implies after.filled[x] == (
        if elev[x] >= up(t.filled[c]) {
            elev[x]
        } else {
            up(t.filled[c])
        }) && g.adjacent(c, x) by {
            if x != m {
                assert(before.seen[x]);
            }
        }
    }
}

/// Taking a waiting cell keeps the tide sound.
pub proof fn lemma_take(
    g: &CellGraph,
    t: Tide,
    elev: Seq<i32>,
    up: spec_fn(i32) -> i32,
    c: int,
)
    requires
        g.wf(),
        sound(*g, t),
        t.waits(c),
    ensures
        sound(*g, t.take(*g, elev, up, c)),
        t.take(*g, elev, up, c).order == t.order.push(c as u32),
        t.order.len() < g.cells(),
{
    let pushed = Tide { order: t.order.push(c as u32), ..t };
    assert(pushed.order.no_duplicates());
    assert(sound(*g, pushed));
    lemma_distinct_bound(pushed.order, g.cells());
    lemma_spread(g, pushed, elev, up, c, g.valence(c));
}

/// The next cell is unique.
pub proof fn lemma_next_unique(t: Tide, c: int)
    requires
        t.is_next(c),
    ensures
        c == t.next(),
        t.busy(),
{
    assert(t.is_next(t.next()));
    assert(t.waits(t.next()));
}

/// Drainage of the planet.
pub struct Hydrology {
    /// Filled surface, as order keys.
    pub filled: Vec<i32>,
    /// Cells in the order the flood took them: lowest first. Walked backwards, every
    /// cell comes before its receiver.
    pub order: Vec<u32>,
    /// Receiver of each cell, or [`NO_DOWNSTREAM`].
    pub downstream: Vec<u32>,
}

impl Hydrology {
    /// Empty drainage.
    pub fn new() -> (h: Hydrology)
        ensures
            h.filled@.len() == 0,
            h.order@.len() == 0,
            h.downstream@.len() == 0,
    {
        Hydrology { filled: Vec::new(), order: Vec::new(), downstream: Vec::new() }
    }

    /// Seeds the flood: which cells are outlets.
    fn outlets(elev: &[i32], sea: i32) -> (seen: Vec<bool>)
        requires
            elev@.len() > 0,
        ensures
            seen@ == low_tide(elev@, sea).seen,
    {
        let n = elev.len();
        let mut any = false;
        let mut seen: Vec<bool> = Vec::new();
        let mut c: usize = 0;
        while c < n
            invariant
                c <= n,
                n == elev@.len(),
                seen@.len() == c,
                forall|d: int| 0 <= d < c ==> #[trigger] seen@[d] == (elev@[d] < sea),
                any == exists|d: int| 0 <= d < c && #[trigger] elev@[d] < sea,
            decreases n - c,
        {
            let low = elev[c] < sea;
            seen.push(low);
            if low {
                any = true;
                assert(elev@[c as int] < sea);
            }
            c = c + 1;
        }
        if !any {
            let mut lowest: usize = 0;
            let mut i: usize = 1;
            while i < n
                invariant
                    1 <= i <= n,
                    n == elev@.len(),
                    lowest < i,
                    forall|d: int|
                        0 <= d < i ==> elev@[lowest as int] < #[trigger] elev@[d] || (
                        elev@[lowest as int] == elev@[d] && lowest <= d),
                decreases n - i,
            {
                if elev[i] < elev[lowest] {
                    lowest = i;
                }
                i = i + 1;
            }
            seen.set(lowest, true);
            proof {
                assert(is_lowest(elev@, lowest as int));
                assert forall|d: int| 0 <= d < n implies seen@[d] == low_tide(elev@, sea).seen[d] by {
                    if is_lowest(elev@, d) && d != lowest {
                        assert(elev@[d] < elev@[lowest as int] || (elev@[d]
                            == elev@[lowest as int] && d <= lowest));
                        assert(elev@[lowest as int] < elev@[d] || (elev@[lowest as int]
                            == elev@[d] && lowest <= d));
                    }
                }
            }
        }
        assert(seen@ =~= low_tide(elev@, sea).seen);
        seen
    }

    /// Fills depressions: floods the planet from its outlets. `lift` gives the key of
    /// the height that a neighbour of a cell must at least have.
    pub fn fill<F: Fn(i32) -> i32>(&mut self, g: &CellGraph, elev: &[i32], sea: i32, lift: F)
        requires
            g.wf(),
            elev@.len() == g.cells(),
            elev@.len() > 0,
            is_lift(lift),
        ensures
            final(self).filled@ == high_tide(*g, elev@, sea, lift_of(lift)).filled,
            final(self).order@ == high_tide(*g, elev@, sea, lift_of(lift)).order,
            final(self).downstream@ == old(self).downstream@,
            asked(lift, final(self).filled@, final(self).order@),
    {
        let n = g.n_cells();
        let ghost up = lift_of(lift);
        let mut seen = Hydrology::outlets(elev, sea);
        let mut filled: Vec<i32> = Vec::new();
        let mut order: Vec<u32> = Vec::new();
        let mut heap = LevelHeap::new();
        let ghost t0 = low_tide(elev@, sea);
        let mut c: usize = 0;
        while c < n
            invariant
                c <= n,
                n == elev@.len(),
                n <= u32::MAX,
                t0 == low_tide(elev@, sea),
                seen@ == t0.seen,
                filled@ == t0.filled.take(c as int),
                heap.wf(),
                forall|x: (i32, u32)| #[trigger]
                    heap.holds(x) <==> x.1 < c && t0.seen[x.1 as int] && x.0 == t0.filled[x.1 as int],
            decreases n - c,
        {
            if seen[c] {
                filled.push(elev[c]);
                heap.push((elev[c], c as u32));
            } else {
                filled.push(0);
            }
            c = c + 1;
            assert(filled@ =~= t0.filled.take(c as int));
        }
        let ghost mut t = t0;
        proof {
            assert(filled@ =~= t0.filled);
            assert(sound(*g, t0));
            assert(order@ =~= t0.order);
        }
        while !heap.is_empty()
            invariant
                g.wf(),
                n == g.cells(),
                n == elev@.len(),
                n <= u32::MAX,
                is_lift(lift),
                up == lift_of(lift),
                sound(*g, t),
                t.order.len() <= n,
                t0.run(*g, elev@, up, n as nat) == t.run(*g, elev@, up, (n - t.order.len()) as nat),
                filled@ == t.filled,
                seen@ == t.seen,
                order@ == t.order,
                asked(lift, t.filled, t.order),
                heap.wf(),
                forall|x: (i32, u32)| #[trigger]
                    heap.holds(x) <==> t.waits(x.1 as int) && x.0 == t.filled[x.1 as int],
            decreases n - t.order.len(),
        {
            let ghost h0 = heap;
            let it = heap.pop().unwrap();
            let x = it.1 as usize;
            let ghost xi = x as int;
            proof {
                assert(h0.holds(it));
                assert forall|d: int| #[trigger] t.waits(d) implies t.filled[xi] < t.filled[d] || (
                t.filled[xi] == t.filled[d] && xi <= d) by {
                    assert(h0.holds((t.filled[d], d as u32)));
                }
                assert(t.is_next(xi));
                lemma_next_unique(t, xi);
                lemma_take(g, t, elev@, up, xi);
                lemma_distinct_bound(t.order.push(xi as u32), n as int);
            }
            order.push(it.1);
            let ghost taken = Tide { order: t.order.push(xi as u32), ..t };
            proof {
                assert(sound(*g, taken));
                assert forall|y: (i32, u32)| #[trigger] heap.holds(y) <==> taken.waits(
                    y.1 as int,
                ) && y.0 == taken.filled[y.1 as int] by {
                    let s1 = taken.order;
                    assert(s1[t.order.len() as int] == xi as u32);
                    if t.order.contains(y.1) {
                        let i = choose|i: int| 0 <= i < t.order.len() && t.order[i] == y.1;
                        assert(s1[i] == y.1);
                    }
                    if s1.contains(y.1) && y.1 != xi {
                        let i = choose|i: int| 0 <= i < s1.len() && s1[i] == y.1;
                        assert(t.order[i] == y.1);
                    }
                    if h0.holds(y) && y != it {
                        assert(y.1 != it.1);
                    }
                }
            }
            let above: i32 = lift(it.0);
            assert(above == up(taken.filled[xi]));
            let deg = g.degree(x);
            let mut k: usize = 0;
            while k < deg
                invariant
                    k <= deg,
                    deg == g.valence(xi),
                    xi == x,
                    g.wf(),
                    x < n,
                    n == g.cells(),
                    n == elev@.len(),
                    n <= u32::MAX,
                    sound(*g, taken),
                    above == up(taken.filled[xi]),
                    filled@ == taken.spread(*g, elev@, up, xi, k as int).filled,
                    seen@ == taken.spread(*g, elev@, up, xi, k as int).seen,
                    order@ == taken.order,
                    heap.wf(),
                    forall|y: (i32, u32)| #[trigger]
                        heap.holds(y) <==> taken.spread(*g, elev@, up, xi, k as int).waits(
                            y.1 as int,
                        ) && y.0 == taken.spread(*g, elev@, up, xi, k as int).filled[y.1 as int],
                decreases deg - k,
            {
                let m = g.neighbor(x, k);
                let ghost before = taken.spread(*g, elev@, up, xi, k as int);
                let ghost after = taken.spread(*g, elev@, up, xi, k + 1);
                proof {
                    lemma_spread(g, taken, elev@, up, xi, k as int);
                    lemma_spread(g, taken, elev@, up, xi, k + 1);
                }
                if !seen[m] {
                    let level: i32 = if elev[m] >= above {
                        elev[m]
                    } else {
                        above
                    };
                    proof {
                        assert(!before.waits(m as int));
                        assert(!heap.holds((level, m as u32)));
                        if before.order.contains(m as u32) {
                            let i = choose|i: int|
                                0 <= i < before.order.len() && before.order[i] == m as u32;
                            assert(before.seen[before.order[i] as int]);
                        }
                    }
                    let ghost h1 = heap;
                    seen.set(m, true);
                    filled.set(m, level);
                    heap.push((level, m as u32));
                    proof {
                        assert forall|y: (i32, u32)| #[trigger] heap.holds(y) <==> after.waits(
                            y.1 as int,
                        ) && y.0 == after.filled[y.1 as int] by {
                            if y.1 != m as u32 {
                                assert(h1.holds(y) <==> before.waits(y.1 as int) && y.0
                                    == before.filled[y.1 as int]);
                            } else {
                                assert(!h1.holds(y));
                            }
                        }
                    }
                } else {
                    assert(after == before);
                }
                k = k + 1;
            }
            proof {
                let next = taken.spread(*g, elev@, up, xi, g.valence(xi));
                assert(next == t.take(*g, elev@, up, xi));
                lemma_spread(g, taken, elev@, up, xi, g.valence(xi));
                assert forall|i: int| 0 <= i < next.order.len() implies answered(
                    lift,
                    next.filled[#[trigger] next.order[i] as int],
                ) by {
                    assert(taken.seen[taken.order[i] as int]);
                    if i < t.order.len() {
                        assert(taken.order[i] == t.order[i]);
                        assert(answered(lift, t.filled[t.order[i] as int]));
                    }
                }
                assert(t.run(*g, elev@, up, (n - t.order.len()) as nat) == next.run(
                    *g,
                    elev@,
                    up,
                    (n - t.order.len() - 1) as nat,
                ));
                t = next;
            }
        }
        proof {
            assert(!t.busy()) by {
                if t.busy() {
                    let d = choose|d: int| t.waits(d);
                    assert(heap.holds((t.filled[d], d as u32)));
                }
            }
        }
        self.filled = filled;
        self.order = order;
    }
}

/// Slot `k` of cell `c` leads down the steepest: of the slots that lead to a lower cell it
/// has the largest slope, and the lowest cell id where several tie. `slope` orders the
/// slots, as they stand in the graph's lists, by how steeply the surface falls along them.
pub open spec fn is_steepest(
    g: CellGraph,
    slope: Seq<i32>,
    filled: Seq<i32>,
    c: int,
    k: int,
) -> bool {
    &&& 0 <= k < g.valence(c)
    &&& filled[g.nb(c, k)] < filled[c]
    &&& forall|j: int|
        0 <= j < g.valence(c) && filled[#[trigger] g.nb(c, j)] < filled[c] ==> slope[g.slot(c, j)]
            < slope[g.slot(c, k)] || (slope[g.slot(c, j)] == slope[g.slot(c, k)] && g.nb(c, k)
            <= g.nb(c, j))
}

/// Cell `r` is where cell `c` drains: its neighbour of steepest descent.
pub open spec fn is_receiver(
    g: CellGraph,
    slope: Seq<i32>,
    filled: Seq<i32>,
    c: int,
    r: int,
) -> bool {
    exists|k: int| #[trigger] is_steepest(g, slope, filled, c, k) && g.nb(c, k) == r
}

/// No neighbour of cell `c` lies below it.
pub open spec fn is_pit(g: CellGraph, filled: Seq<i32>, c: int) -> bool {
    forall|k: int| 0 <= k < g.valence(c) ==> filled[#[trigger] g.nb(c, k)] >= filled[c]
}

/// `d` is the receiver of cell `c`, or [`NO_DOWNSTREAM`] for ocean and pits.
pub open spec fn drains_to(
    g: CellGraph,
    elev: Seq<i32>,
    sea: i32,
    slope: Seq<i32>,
    filled: Seq<i32>,
    c: int,
    d: u32,
) -> bool {
    if elev[c] < sea || is_pit(g, filled, c) {
        d == NO_DOWNSTREAM
    } else {
        is_receiver(g, slope, filled, c, d as int)
    }
}

/// Every cell drains to where `down` says.
pub open spec fn drains(
    g: CellGraph,
    elev: Seq<i32>,
    sea: i32,
    slope: Seq<i32>,
    filled: Seq<i32>,
    down: Seq<u32>,
) -> bool {
    &&& down.len() == g.cells()
    &&& forall|c: int|
        0 <= c < g.cells() ==> drains_to(g, elev, sea, slope, filled, c, #[trigger] down[c])
}

/// `steep` can be asked about every slot and every two heights.
pub open spec fn is_steep<G: Fn(usize, i32, i32) -> i32>(steep: G) -> bool {
    forall|p: usize, here: i32, there: i32| #[trigger] call_requires(steep, (p, here, there))
}

/// `slope` holds what `steep` answers for every slot of the graph, asked with the slot, the
/// height of the cell it belongs to, and the height of the cell it leads to.
pub open spec fn graded<G: Fn(usize, i32, i32) -> i32>(
    steep: G,
    g: CellGraph,
    filled: Seq<i32>,
    slope: Seq<i32>,
) -> bool {
    &&& slope.len() == g.neighbors@.len()
    &&& forall|c: int, k: int|
        0 <= c < g.cells() && 0 <= k < g.valence(c) ==> call_ensures(
            steep,
            (g.slot(c, k) as usize, filled[c], filled[g.nb(c, k)]),
            slope[#[trigger] g.slot(c, k)],
        )
}

/// The slot of cell `c` that leads to cell `d` first.
pub open spec fn is_slot_to(g: CellGraph, c: int, d: int, k: int) -> bool {
    &&& 0 <= k < g.valence(c)
    &&& g.nb(c, k) == d
    &&& forall|j: int| 0 <= j < k ==> #[trigger] g.nb(c, j) != d
}

/// The river of cell `c`, which drains to `d`, leaves by edge `slot`.
pub open spec fn leaves_by(g: CellGraph, d: u32, c: int, slot: u8) -> bool {
    if d != NO_DOWNSTREAM && g.adjacent(c, d as int) {
        is_slot_to(g, c, d as int, slot as int)
    } else {
        slot == FLOW_NONE
    }
}

impl Hydrology {
    /// Routes the flow: steepest descent on the filled surface, ties to the lowest id.
    /// `slope` orders the slots by how steeply the surface falls along them.
    pub fn route(&mut self, g: &CellGraph, elev: &[i32], sea: i32, slope: &[i32])
        requires
            g.wf(),
            elev@.len() == g.cells(),
            slope@.len() == g.neighbors@.len(),
            old(self).filled@.len() == g.cells(),
        ensures
            final(self).filled@ == old(self).filled@,
            final(self).order@ == old(self).order@,
            drains(*g, elev@, sea, slope@, old(self).filled@, final(self).downstream@),
    {
        let n = g.n_cells();
        let mut downstream: Vec<u32> = Vec::new();
        let mut c: usize = 0;
        while c < n
            invariant
                c <= n,
                n == g.cells(),
                g.wf(),
                elev@.len() == n,
                slope@.len() == g.neighbors@.len(),
                self.filled@.len() == n,
                downstream@.len() == c,
                forall|d: int|
                    0 <= d < c ==> drains_to(
                        *g,
                        elev@,
                        sea,
                        slope@,
                        self.filled@,
                        d,
                        #[trigger] downstream@[d],
                    ),
            decreases n - c,
        {
            let d = if elev[c] < sea {
                NO_DOWNSTREAM
            } else {
                self.receiver(g, slope, c)
            };
            downstream.push(d);
            c = c + 1;
        }
        self.downstream = downstream;
    }

    /// The receiver of cell `c` on the filled surface.
    fn receiver(&self, g: &CellGraph, slope: &[i32], c: usize) -> (r: u32)
        requires
            g.wf(),
            slope@.len() == g.neighbors@.len(),
            self.filled@.len() == g.cells(),
            c < g.cells(),
        ensures
            is_pit(*g, self.filled@, c as int) ==> r == NO_DOWNSTREAM,
            !is_pit(*g, self.filled@, c as int) ==> is_receiver(
                *g,
                slope@,
                self.filled@,
                c as int,
                r as int,
            ),
    {
        let here = self.filled[c];
        let deg = g.degree(c);
        let base = g.offsets[c] as usize;
        let ghost ci = c as int;
        let mut best: u32 = NO_DOWNSTREAM;
        let mut best_slot: usize = 0;
        let mut k: usize = 0;
        while k < deg
            invariant
                k <= deg,
                deg == g.valence(ci),
                ci == c,
                base == g.offsets@[ci],
                base + deg <= g.neighbors@.len(),
                g.neighbors@.len() <= u32::MAX,
                g.wf(),
                g.cells() <= u32::MAX,
                slope@.len() == g.neighbors@.len(),
                self.filled@.len() == g.cells(),
                c < g.cells(),
                here == self.filled@[ci],
                best == NO_DOWNSTREAM ==> forall|j: int|
                    0 <= j < k ==> self.filled@[#[trigger] g.nb(ci, j)] >= here,
                best != NO_DOWNSTREAM ==> {
                    &&& best_slot < k
                    &&& best == g.nb(ci, best_slot as int)
                    &&& self.filled@[best as int] < here
                    &&& forall|j: int|
                        0 <= j < k && self.filled@[#[trigger] g.nb(ci, j)] < here ==> slope@[g.slot(
                            ci,
                            j,
                        )] < slope@[g.slot(ci, best_slot as int)] || (slope@[g.slot(ci, j)]
                            == slope@[g.slot(ci, best_slot as int)] && best <= g.nb(ci, j))
                },
            decreases deg - k,
        {
            let m = g.neighbor(c, k);
            if self.filled[m] < here {
                let fall: i32 = slope[base + k];
                if best == NO_DOWNSTREAM || fall > slope[base + best_slot] || (fall == slope[base
                    + best_slot] && (m as u32) < best) {
                    best = m as u32;
                    best_slot = k;
                }
            }
            k = k + 1;
        }
        proof {
            if best != NO_DOWNSTREAM {
                assert(is_steepest(*g, slope@, self.filled@, ci, best_slot as int));
            }
        }
        best
    }

    /// How steeply the filled surface falls along every slot, as `steep` orders it.
    fn slopes<G: Fn(usize, i32, i32) -> i32>(&self, g: &CellGraph, steep: &G) -> (slope: Vec<i32>)
        requires
            g.wf(),
            self.filled@.len() == g.cells(),
            is_steep(*steep),
        ensures
            graded(*steep, *g, self.filled@, slope@),
    {
        let n = g.n_cells();
        let mut slope: Vec<i32> = Vec::new();
        let mut c: usize = 0;
        while c < n
            invariant
                c <= n,
                n == g.cells(),
                g.wf(),
                self.filled@.len() == n,
                is_steep(*steep),
                slope@.len() == g.offsets@[c as int],
                forall|x: int, j: int|
                    0 <= x < c && 0 <= j < g.valence(x) ==> call_ensures(
                        *steep,
                        (g.slot(x, j) as usize, self.filled@[x], self.filled@[g.nb(x, j)]),
                        slope@[#[trigger] g.slot(x, j)],
                    ),
            decreases n - c,
        {
            let deg = g.degree(c);
            let base = g.offsets[c] as usize;
            let mut k: usize = 0;
            while k < deg
                invariant
                    k <= deg,
                    deg == g.valence(c as int),
                    base == g.offsets@[c as int],
                    base + deg <= g.neighbors@.len(),
                    g.neighbors@.len() <= u32::MAX,
                    c < n,
                    n == g.cells(),
                    g.wf(),
                    self.filled@.len() == n,
                    is_steep(*steep),
                    slope@.len() == base + k,
                    forall|x: int, j: int|
                        0 <= x < c && 0 <= j < g.valence(x) ==> call_ensures(
                            *steep,
                            (g.slot(x, j) as usize, self.filled@[x], self.filled@[g.nb(x, j)]),
                            slope@[#[trigger] g.slot(x, j)],
                        ),
                    forall|j: int|
                        0 <= j < k ==> call_ensures(
                            *steep,
                            (
                                g.slot(c as int, j) as usize,
                                self.filled@[c as int],
                                self.filled@[g.nb(c as int, j)],
                            ),
                            slope@[#[trigger] g.slot(c as int, j)],
                        ),
                decreases deg - k,
            {
                let m = g.neighbor(c, k);
                let fall: i32 = steep(base + k, self.filled[c], self.filled[m]);
                let ghost before = slope@;
                slope.push(fall);
                proof {
                    assert forall|x: int, j: int|
                        0 <= x < c && 0 <= j < g.valence(x) implies call_ensures(
                        *steep,
                        (g.slot(x, j) as usize, self.filled@[x], self.filled@[g.nb(x, j)]),
                        slope@[#[trigger] g.slot(x, j)],
                    ) by {
                        assert(g.offsets@[x + 1] <= g.offsets@[c as int]);
                        assert(slope@[g.slot(x, j)] == before[g.slot(x, j)]);
                    }
                }
                k = k + 1;
            }
            c = c + 1;
        }
        slope
    }

    /// The edge that each cell's river leaves by: the slot of its receiver among its
    /// neighbours, [`FLOW_NONE`] where there is none.
    pub fn publish_flow_edges(&self, g: &CellGraph) -> (flow: Vec<u8>)
        requires
            g.wf(),
            self.downstream@.len() == g.cells(),
            forall|c: int| 0 <= c < g.cells() ==> #[trigger] g.valence(c) <= FLOW_NONE,
        ensures
            flow@.len() == g.cells(),
            forall|c: int|
                0 <= c < g.cells() ==> leaves_by(
                    *g,
                    self.downstream@[c],
                    c,
                    #[trigger] flow@[c],
                ),
    {
        let n = g.n_cells();
        let mut flow: Vec<u8> = Vec::new();
        let mut c: usize = 0;
        while c < n
            invariant
                c <= n,
                n == g.cells(),
                g.wf(),
                self.downstream@.len() == n,
                forall|c: int| 0 <= c < g.cells() ==> #[trigger] g.valence(c) <= FLOW_NONE,
                flow@.len() == c,
                forall|x: int|
                    0 <= x < c ==> {
                        let d = self.downstream@[x];
                        if d != NO_DOWNSTREAM && g.adjacent(x, d as int) {
                            is_slot_to(*g, x, d as int, #[trigger] flow@[x] as int)
                        } else {
                            flow@[x] == FLOW_NONE
                        }
                    },
            decreases n - c,
        {
            let d = self.downstream[c];
            let deg = g.degree(c);
            assert(g.valence(c as int) <= FLOW_NONE);
            let mut slot: u8 = FLOW_NONE;
            if d != NO_DOWNSTREAM {
                let mut k: usize = 0;
                while k < deg && slot == FLOW_NONE
                    invariant
                        k <= deg,
                        deg == g.valence(c as int),
                        deg <= FLOW_NONE,
                        g.wf(),
                        g.cells() <= u32::MAX,
                        c < g.cells(),
                        slot == FLOW_NONE ==> forall|j: int|
                            0 <= j < k ==> #[trigger] g.nb(c as int, j) != d,
                        slot != FLOW_NONE ==> is_slot_to(*g, c as int, d as int, slot as int),
                    decreases deg - k,
                {
                    let m = g.neighbor(c, k);
                    if m as u32 == d {
                        slot = k as u8;
                    }
                    k = k + 1;
                }
                proof {
                    if slot != FLOW_NONE {
                        assert(g.nb(c as int, slot as int) == d as int);
                        assert(g.adjacent(c as int, d as int));
                    }
                }
            }
            flow.push(slot);
            c = c + 1;
        }
        flow
    }

    /// Fills depressions and routes the flow. `lift` gives the key of the height that a
    /// neighbour of a cell must at least have; `steep` orders the slots of a cell by how
    /// steeply the surface falls along them, from the slot and the heights at its two ends.
    pub fn solve<F: Fn(i32) -> i32, G: Fn(usize, i32, i32) -> i32>(
        &mut self,
        g: &CellGraph,
        elev: &[i32],
        sea: i32,
        lift: F,
        steep: G,
    )
        requires
            g.wf(),
            elev@.len() == g.cells(),
            elev@.len() > 0,
            is_lift(lift),
            is_steep(steep),
        ensures
            final(self).filled@ == high_tide(*g, elev@, sea, lift_of(lift)).filled,
            final(self).order@ == high_tide(*g, elev@, sea, lift_of(lift)).order,
            asked(lift, final(self).filled@, final(self).order@),
            exists|slope: Seq<i32>| #[trigger]
                graded(steep, *g, final(self).filled@, slope) && drains(
                    *g,
                    elev@,
                    sea,
                    slope,
                    final(self).filled@,
                    final(self).downstream@,
                ),
    {
        self.fill(g, elev, sea, lift);
        proof {
            lemma_high_tide(g, elev@, sea, lift_of(lift));
        }
        let slope = self.slopes(g, &steep);
        self.route(g, elev, sea, slope.as_slice());
        assert(graded(steep, *g, self.filled@, slope@));
    }

    /// Fills depressions and routes the flow where heights are whole numbers of a unit, and
    /// every step away from an outlet is a unit up. Every cell then reaches an outlet.
    pub fn solve_in_units<G: Fn(usize, i32, i32) -> i32>(
        &mut self,
        g: &CellGraph,
        elev: &[i32],
        sea: i32,
        steep: G,
    )
        requires
            g.wf(),
            g.symmetric(),
            whole(*g),
            elev@.len() == g.cells(),
            elev@.len() > 0,
            forall|c: int| 0 <= c < elev@.len() ==> #[trigger] elev@[c] + elev@.len() <= i32::MAX,
            is_steep(steep),
        ensures
            final(self).filled@ == high_tide(*g, elev@, sea, unit_up()).filled,
            final(self).order@ == high_tide(*g, elev@, sea, unit_up()).order,
            exists|slope: Seq<i32>| #[trigger]
                graded(steep, *g, final(self).filled@, slope) && drains(
                    *g,
                    elev@,
                    sea,
                    slope,
                    final(self).filled@,
                    final(self).downstream@,
                ),
            forall|c: int|
                0 <= c < g.cells() ==> is_outlet(
                    elev@,
                    sea,
                    #[trigger] downstream_of(final(self).downstream@, c, g.cells() as nat),
                ),
    {
        let lift = |k: i32| -> (r: i32)
            ensures
                r == unit_up()(k),
            {
                if k < i32::MAX {
                    k + 1
                } else {
                    k
                }
            };
        self.solve(g, elev, sea, lift, steep);
        proof {
            let t = high_tide(*g, elev@, sea, lift_of(lift));
            assert forall|i: int| 0 <= i < t.order.len() implies lift_of(lift)(
                t.filled[#[trigger] t.order[i] as int],
            ) == unit_up()(t.filled[t.order[i] as int]) by {
                assert(answered(lift, self.filled@[self.order@[i] as int]));
            }
            lemma_same_tide(g, elev@, sea, lift_of(lift), unit_up());
            let top = i32::MAX - g.cells();
            a_gentle_lift_climbs(g, elev@, sea, unit_up(), top, 1);
            let slope = choose|slope: Seq<i32>| #[trigger]
                graded(steep, *g, self.filled@, slope) && drains(
                    *g,
                    elev@,
                    sea,
                    slope,
                    self.filled@,
                    self.downstream@,
                );
            assert forall|c: int| 0 <= c < g.cells() implies is_outlet(
                elev@,
                sea,
                #[trigger] downstream_of(self.downstream@, c, g.cells() as nat),
            ) by {
                every_cell_reaches_an_outlet(
                    g,
                    elev@,
                    sea,
                    unit_up(),
                    slope,
                    self.downstream@,
                    c,
                );
            }
        }
    }
}

/// A unit up, as long as there is room.
pub open spec fn unit_up() -> spec_fn(i32) -> i32 {
    |k: i32|
        if k < i32::MAX {
            (k + 1) as i32
        } else {
            k
        }
}

/// What water does in a cell.
#[derive(Clone, Copy, Debug, PartialEq, Eq, Structural)]
pub enum Water {
    /// Sea: the run ends here.
    Sea,
    /// Standing water: it gains rain and melt and loses to evaporation.
    Lake,
    /// Ice: only its melt runs off.
    Ice,
    /// Bare land: rain beyond what the ground takes back, and melt.
    Land,
}

/// What water does in a cell, by what covers it.
pub open spec fn water_of(sea: bool, lake: bool, ice: bool) -> Water {
    if sea {
        Water::Sea
    } else if lake {
        Water::Lake
    } else if ice {
        Water::Ice
    } else {
        Water::Land
    }
}

/// What water does in a cell: below the sea, under a lake, under ice or on land.
pub fn water_in(sea: bool, lake: bool, ice: bool) -> (w: Water)
    ensures
        w == water_of(sea, lake, ice),
{
    if sea {
        Water::Sea
    } else if lake {
        Water::Lake
    } else if ice {
        Water::Ice
    } else {
        Water::Land
    }
}

/// What holds of a flood at every stage.
pub open spec fn tidal(
    g: CellGraph,
    elev: Seq<i32>,
    sea: i32,
    up: spec_fn(i32) -> i32,
    t: Tide,
) -> bool {
    &&& sound(g, t)
    &&& forall|i: int, k: int|
        0 <= i < t.order.len() && 0 <= k < g.valence(t.order[i] as int) ==> t.seen[#[trigger] g.nb(
            t.order[i] as int,
            k,
        )]
    &&& forall|c: int|
        0 <= c < g.cells() && is_outlet(elev, sea, c) ==> #[trigger] t.seen[c] && t.filled[c]
            == elev[c]
    &&& forall|c: int|
        0 <= c < g.cells() && #[trigger] t.seen[c] && !is_outlet(elev, sea, c) ==> raised(
            g,
            elev,
            up,
            t,
            c,
        )
}

/// Cell `c` was raised above a neighbour that had been taken.
pub open spec fn raised(
    g: CellGraph,
    elev: Seq<i32>,
    up: spec_fn(i32) -> i32,
    t: Tide,
    c: int,
) -> bool {
    exists|i: int|
        0 <= i < t.order.len() && g.adjacent(#[trigger] t.order[i] as int, c) && t.filled[c] == (
        if elev[c] >= up(t.filled[t.order[i] as int]) {
            elev[c]
        } else {
            up(t.filled[t.order[i] as int])
        })
}

/// Taking the next cell keeps what holds of a flood.
proof fn lemma_tidal_take(
    g: &CellGraph,
    elev: Seq<i32>,
    sea: i32,
    up: spec_fn(i32) -> i32,
    t: Tide,
    c: int,
)
    requires
        g.wf(),
        elev.len() == g.cells(),
        tidal(*g, elev, sea, up, t),
        t.waits(c),
    ensures
        tidal(*g, elev, sea, up, t.take(*g, elev, up, c)),
{
    let taken = Tide { order: t.order.push(c as u32), ..t };
    let after = t.take(*g, elev, up, c);
    lemma_take(g, t, elev, up, c);
    assert(taken.order.no_duplicates());
    assert(sound(*g, taken));
    lemma_spread(g, taken, elev, up, c, g.valence(c));
    assert forall|i: int, k: int|
        0 <= i < after.order.len() && 0 <= k < g.valence(
            after.order[i] as int,
        ) implies after.seen[#[trigger] g.nb(after.order[i] as int, k)] by {
        if i < t.order.len() {
            assert(after.order[i] == t.order[i]);
            assert(t.seen[g.nb(t.order[i] as int, k)]);
            assert(t.order[i] < g.cells());
            assert(g.offsets@[t.order[i] as int + 1] <= g.offsets@[g.cells()]);
            assert(0 <= g.nb(t.order[i] as int, k) < g.cells());
            assert(taken.seen[g.nb(t.order[i] as int, k)]);
        } else {
            assert(after.order[i] == c as u32);
        }
    }
    assert forall|x: int| 0 <= x < g.cells() && is_outlet(elev, sea, x) implies #[trigger] after.seen[x]
        && after.filled[x] == elev[x] by {
        assert(t.seen[x]);
    }
    assert forall|x: int|
        0 <= x < g.cells() && #[trigger] after.seen[x] && !is_outlet(elev, sea, x) implies raised(
        *g,
        elev,
        up,
        after,
        x,
    ) by {
        if t.seen[x] {
            assert(raised(*g, elev, up, t, x));
            let i = choose|i: int|
                0 <= i < t.order.len() && g.adjacent(#[trigger] t.order[i] as int, x)
                    && t.filled[x] == (if elev[x] >= up(t.filled[t.order[i] as int]) {
                    elev[x]
                } else {
                    up(t.filled[t.order[i] as int])
                });
            assert(after.order[i] == t.order[i]);
            assert(t.seen[t.order[i] as int]);
            assert(after.filled[t.order[i] as int] == t.filled[t.order[i] as int]);
        } else {
            let i = t.order.len() as int;
            assert(after.order[i] == c as u32);
            assert(t.seen[c]);
            assert(after.filled[c] == t.filled[c]);
            assert(g.adjacent(after.order[i] as int, x));
        }
    }
}

proof fn lemma_tidal_run(
    g: &CellGraph,
    elev: Seq<i32>,
    sea: i32,
    up: spec_fn(i32) -> i32,
    t: Tide,
    n: nat,
)
    requires
        g.wf(),
        elev.len() == g.cells(),
        tidal(*g, elev, sea, up, t),
        t.order.len() + n >= g.cells(),
    ensures
        tidal(*g, elev, sea, up, t.run(*g, elev, up, n)),
        !t.run(*g, elev, up, n).busy(),
    decreases n,
{
    if t.busy() {
        let w = choose|w: int| t.waits(w);
        lemma_take(g, t, elev, up, w);
        assert(n > 0);
        lemma_next_exists(t, g.cells());
        let c = t.next();
        lemma_take(g, t, elev, up, c);
        lemma_tidal_take(g, elev, sea, up, t, c);
        lemma_tidal_run(g, elev, sea, up, t.take(*g, elev, up, c), (n - 1) as nat);
    }
}

/// Cell `c` comes before every other of the waiting cells below `n`.
spec fn least_below(t: Tide, n: int, c: int) -> bool {
    &&& t.waits(c)
    &&& c < n
    &&& forall|d: int| #[trigger]
        t.waits(d) && d < n ==> t.filled[c] < t.filled[d] || (t.filled[c] == t.filled[d] && c <= d)
}

/// While cells wait, one of them is next.
proof fn lemma_next_exists(t: Tide, n: int)
    requires
        t.busy(),
        t.seen.len() == n,
    ensures
        t.is_next(t.next()),
{
    let w = choose|w: int| t.waits(w);
    let c = lemma_least_waiting(t, n, w);
    assert(t.is_next(c));
}

proof fn lemma_least_waiting(t: Tide, n: int, w: int) -> (c: int)
    requires
        t.waits(w),
        w < n,
        0 <= n <= t.seen.len(),
    ensures
        least_below(t, n, c),
    decreases n,
{
    if exists|v: int| t.waits(v) && v < n - 1 {
        let v = choose|v: int| t.waits(v) && v < n - 1;
        let c = lemma_least_waiting(t, n - 1, v);
        if t.waits(n - 1) && t.filled[n - 1] < t.filled[c] {
            n - 1
        } else {
            c
        }
    } else {
        w
    }
}

/// What holds of the finished flood.
pub proof fn lemma_high_tide(g: &CellGraph, elev: Seq<i32>, sea: i32, up: spec_fn(i32) -> i32)
    requires
        g.wf(),
        elev.len() == g.cells(),
    ensures
        tidal(*g, elev, sea, up, high_tide(*g, elev, sea, up)),
        !high_tide(*g, elev, sea, up).busy(),
{
    let t = low_tide(elev, sea);
    assert(sound(*g, t));
    assert(tidal(*g, elev, sea, up, t));
    lemma_tidal_run(g, elev, sea, up, t, elev.len());
}

/// On a planet in one piece the flood reaches every cell, once.
pub proof fn the_flood_reaches_every_cell(
    g: &CellGraph,
    elev: Seq<i32>,
    sea: i32,
    up: spec_fn(i32) -> i32,
)
    requires
        g.wf(),
        whole(*g),
        elev.len() == g.cells(),
        elev.len() > 0,
    ensures
        high_tide(*g, elev, sea, up).order.no_duplicates(),
        high_tide(*g, elev, sea, up).order.len() == g.cells(),
        forall|c: int|
            0 <= c < g.cells() ==> high_tide(*g, elev, sea, up).order.contains(#[trigger] (c as u32)),
{
    lemma_high_tide(g, elev, sea, up);
    let t = high_tide(*g, elev, sea, up);
    let held = |c: int| t.seen[c];
    let o = lemma_some_outlet(elev, sea);
    assert(t.seen[o]);
    assert forall|x: int, y: int|
        0 <= x < g.cells() && 0 <= y < g.cells() && held(x) && every_cell()(y)
            && #[trigger] g.adjacent(x, y) implies held(y) by {
        assert(!t.waits(x));
        assert(t.order.contains(x as u32));
        let i = choose|i: int| 0 <= i < t.order.len() && t.order[i] == x as u32;
        let k = choose|k: int| 0 <= k < g.valence(x) && #[trigger] g.nb(x, k) == y;
        assert(t.seen[g.nb(t.order[i] as int, k)]);
    }
    assert forall|c: int| 0 <= c < g.cells() implies t.order.contains(#[trigger] (c as u32)) by {
        assert(g.reaches(every_cell(), o, c));
        lemma_closed_holds_reach(g, every_cell(), held, o, c);
        assert(!t.waits(c));
    }
    lemma_distinct_bound(t.order, g.cells());
    lemma_all_present(t.order, g.cells());
}

/// A list that holds each of `n` cells has at least `n` entries.
proof fn lemma_all_present(s: Seq<u32>, n: int)
    requires
        0 <= n <= u32::MAX,
        forall|c: int| 0 <= c < n ==> s.contains(#[trigger] (c as u32)),
    ensures
        s.len() >= n,
    decreases n,
{
    if n > 0 {
        assert(s.contains((n - 1) as u32));
        let i = choose|i: int| 0 <= i < s.len() && s[i] == (n - 1) as u32;
        let t = s.remove(i);
        assert forall|c: int| 0 <= c < n - 1 implies t.contains(#[trigger] (c as u32)) by {
            assert(s.contains(c as u32));
            let j = choose|j: int| 0 <= j < s.len() && s[j] == c as u32;
            if j < i {
                assert(t[j] == c as u32);
            } else {
                assert(t[j - 1] == c as u32);
            }
        }
        lemma_all_present(t, n - 1);
    }
}

/// A planet has an outlet.
proof fn lemma_some_outlet(elev: Seq<i32>, sea: i32) -> (o: int)
    requires
        elev.len() > 0,
    ensures
        0 <= o < elev.len(),
        is_outlet(elev, sea, o),
{
    if exists|d: int| 0 <= d < elev.len() && #[trigger] elev[d] < sea {
        choose|d: int| 0 <= d < elev.len() && #[trigger] elev[d] < sea
    } else {
        lemma_lowest(elev, elev.len() as int)
    }
}

proof fn lemma_lowest(elev: Seq<i32>, n: int) -> (c: int)
    requires
        0 < n <= elev.len(),
    ensures
        0 <= c < n,
        forall|d: int|
            0 <= d < n ==> elev[c] < #[trigger] elev[d] || (elev[c] == elev[d] && c <= d),
    decreases n,
{
    if n == 1 {
        0
    } else {
        let c = lemma_lowest(elev, n - 1);
        if elev[n - 1] < elev[c] {
            n - 1
        } else {
            c
        }
    }
}

/// `up` leads strictly upwards from every height of the filled surface.
pub open spec fn climbs(up: spec_fn(i32) -> i32, filled: Seq<i32>) -> bool {
    forall|c: int| 0 <= c < filled.len() ==> up(#[trigger] filled[c]) > filled[c]
}

/// The flood goes on: what has a height keeps it, and what was taken stays taken.
proof fn lemma_run_keeps(
    g: &CellGraph,
    elev: Seq<i32>,
    up: spec_fn(i32) -> i32,
    t: Tide,
    n: nat,
)
    requires
        g.wf(),
        elev.len() == g.cells(),
        sound(*g, t),
    ensures
        sound(*g, t.run(*g, elev, up, n)),
        forall|m: int|
            0 <= m < g.cells() && t.seen[m] ==> #[trigger] t.run(*g, elev, up, n).filled[m]
                == t.filled[m],
        t.order.len() <= t.run(*g, elev, up, n).order.len(),
        forall|i: int|
            0 <= i < t.order.len() ==> #[trigger] t.run(*g, elev, up, n).order[i] == t.order[i],
    decreases n,
{
    if n > 0 && t.busy() {
        lemma_next_exists(t, g.cells());
        let c = t.next();
        let taken = Tide { order: t.order.push(c as u32), ..t };
        let after = t.take(*g, elev, up, c);
        lemma_take(g, t, elev, up, c);
        assert(taken.order.no_duplicates());
        assert(sound(*g, taken));
        lemma_spread(g, taken, elev, up, c, g.valence(c));
        lemma_run_keeps(g, elev, up, after, (n - 1) as nat);
        let end = after.run(*g, elev, up, (n - 1) as nat);
        assert(end == t.run(*g, elev, up, n));
        assert forall|m: int| 0 <= m < g.cells() && t.seen[m] implies #[trigger] end.filled[m]
            == t.filled[m] by {
            assert(after.seen[m]);
        }
        assert forall|i: int| 0 <= i < t.order.len() implies #[trigger] end.order[i]
            == t.order[i] by {
            assert(after.order[i] == t.order[i]);
        }
    }
}

/// Taking the next cell: it is among the cells that the flood takes in the end, at the
/// height that it has.
proof fn lemma_next_is_kept(
    g: &CellGraph,
    elev: Seq<i32>,
    up: spec_fn(i32) -> i32,
    t: Tide,
    n: nat,
)
    requires
        g.wf(),
        elev.len() == g.cells(),
        sound(*g, t),
        t.busy(),
        n > 0,
    ensures
        t.is_next(t.next()),
        0 <= t.next() < g.cells(),
        sound(*g, t.take(*g, elev, up, t.next())),
        t.take(*g, elev, up, t.next()).run(*g, elev, up, (n - 1) as nat) == t.run(
            *g,
            elev,
            up,
            n,
        ),
        t.run(*g, elev, up, n).filled.len() == g.cells(),
        t.run(*g, elev, up, n).filled[t.next()] == t.filled[t.next()],
        t.order.len() < t.run(*g, elev, up, n).order.len(),
        t.run(*g, elev, up, n).order[t.order.len() as int] == t.next(),
{
    lemma_next_exists(t, g.cells());
    let c = t.next();
    lemma_take(g, t, elev, up, c);
    let after = t.take(*g, elev, up, c);
    lemma_run_keeps(g, elev, up, t, n);
    lemma_run_keeps(g, elev, up, after, (n - 1) as nat);
    assert(after.order[t.order.len() as int] == c);
}

/// Two functions lead up from every cell that the flood took to the same height.
spec fn agree(up: spec_fn(i32) -> i32, other: spec_fn(i32) -> i32, t: Tide) -> bool {
    forall|i: int|
        0 <= i < t.order.len() ==> up(t.filled[#[trigger] t.order[i] as int]) == other(
            t.filled[t.order[i] as int],
        )
}

/// What the flood does depends on `up` at the heights of the cells that it takes alone.
proof fn lemma_same_run(
    g: &CellGraph,
    elev: Seq<i32>,
    up: spec_fn(i32) -> i32,
    other: spec_fn(i32) -> i32,
    t: Tide,
    n: nat,
)
    requires
        g.wf(),
        elev.len() == g.cells(),
        sound(*g, t),
        agree(up, other, t.run(*g, elev, up, n)),
    ensures
        t.run(*g, elev, up, n) == t.run(*g, elev, other, n),
    decreases n,
{
    if n > 0 && t.busy() {
        lemma_next_is_kept(g, elev, up, t, n);
        let c = t.next();
        let end = t.run(*g, elev, up, n);
        assert(up(end.filled[end.order[t.order.len() as int] as int]) == other(
            end.filled[end.order[t.order.len() as int] as int],
        ));
        let taken = Tide { order: t.order.push(c as u32), ..t };
        lemma_same_spread(*g, elev, up, other, taken, c, g.valence(c));
        lemma_same_run(g, elev, up, other, t.take(*g, elev, up, c), (n - 1) as nat);
    }
}

proof fn lemma_same_spread(
    g: CellGraph,
    elev: Seq<i32>,
    up: spec_fn(i32) -> i32,
    other: spec_fn(i32) -> i32,
    t: Tide,
    c: int,
    k: int,
)
    requires
        up(t.filled[c]) == other(t.filled[c]),
    ensures
        t.spread(g, elev, up, c, k) == t.spread(g, elev, other, c, k),
    decreases k,
{
    if k > 0 {
        lemma_same_spread(g, elev, up, other, t, c, k - 1);
    }
}

proof fn lemma_same_tide(
    g: &CellGraph,
    elev: Seq<i32>,
    sea: i32,
    up: spec_fn(i32) -> i32,
    other: spec_fn(i32) -> i32,
)
    requires
        g.wf(),
        elev.len() == g.cells(),
        agree(up, other, high_tide(*g, elev, sea, up)),
    ensures
        high_tide(*g, elev, sea, up) == high_tide(*g, elev, sea, other),
{
    let t0 = low_tide(elev, sea);
    assert(sound(*g, t0));
    lemma_same_run(g, elev, up, other, t0, elev.len());
}

/// The highest that a flood stands after `n` cells, from ground no higher than `top`.
spec fn bounded(t: Tide, top: int, step: int) -> bool {
    &&& forall|c: int|
        0 <= c < t.seen.len() && #[trigger] t.seen[c] ==> t.filled[c] <= top + step * t.order.len()
    &&& forall|i: int|
        0 <= i < t.order.len() ==> t.filled[#[trigger] t.order[i] as int] <= top + step * i
}

proof fn lemma_bounded_run(
    g: &CellGraph,
    elev: Seq<i32>,
    up: spec_fn(i32) -> i32,
    top: int,
    step: int,
    t: Tide,
    n: nat,
)
    requires
        g.wf(),
        elev.len() == g.cells(),
        sound(*g, t),
        bounded(t, top, step),
        step >= 0,
        forall|c: int| 0 <= c < elev.len() ==> #[trigger] elev[c] <= top,
        forall|k: i32| k <= top + step * (g.cells() - 1) ==> #[trigger] up(k) <= k + step,
    ensures
        bounded(t.run(*g, elev, up, n), top, step),
    decreases n,
{
    if n > 0 && t.busy() {
        lemma_next_exists(t, g.cells());
        let c = t.next();
        let taken = Tide { order: t.order.push(c as u32), ..t };
        let after = t.take(*g, elev, up, c);
        let len = t.order.len() as int;
        lemma_take(g, t, elev, up, c);
        assert(taken.order.no_duplicates());
        assert(sound(*g, taken));
        lemma_spread(g, taken, elev, up, c, g.valence(c));
        assert(t.seen[c]);
        assert(t.filled[c] <= top + step * len);
        assert(step * len <= step * (g.cells() - 1)) by (nonlinear_arith)
            requires
                step >= 0,
                len <= g.cells() - 1,
        ;
        assert(step * (len + 1) == step * len + step) by (nonlinear_arith);
        assert(0 <= step * len) by (nonlinear_arith)
            requires
                step >= 0,
                len >= 0,
        ;
        assert(up(t.filled[c]) <= t.filled[c] + step);
        assert forall|x: int| 0 <= x < after.seen.len() && #[trigger] after.seen[x] implies after.filled[x]
            <= top + step * after.order.len() by {
            if !t.seen[x] {
                assert(elev[x] <= top);
            } else {
                assert(t.filled[x] <= top + step * len);
            }
        }
        assert forall|i: int| 0 <= i < after.order.len() implies after.filled[
        #[trigger] after.order[i] as int] <= top + step * i by {
            if i < len {
                assert(after.order[i] == t.order[i]);
                assert(t.seen[t.order[i] as int]);
            }
        }
        lemma_bounded_run(g, elev, up, top, step, after, (n - 1) as nat);
    }
}

/// Where no ground lies above `top` and `up` leads upwards by at most `step` wherever the
/// flood can stand, the flood stands at most a step per cell above `top`, and so `up` climbs
/// from every height of the filled surface.
pub proof fn a_gentle_lift_climbs(
    g: &CellGraph,
    elev: Seq<i32>,
    sea: i32,
    up: spec_fn(i32) -> i32,
    top: int,
    step: int,
)
    requires
        g.wf(),
        whole(*g),
        elev.len() == g.cells(),
        elev.len() > 0,
        step >= 1,
        top + step * (g.cells() - 1) < i32::MAX,
        forall|c: int| 0 <= c < elev.len() ==> #[trigger] elev[c] <= top,
        forall|k: i32|
            k <= top + step * (g.cells() - 1) ==> k < #[trigger] up(k) && up(k) <= k + step,
    ensures
        climbs(up, high_tide(*g, elev, sea, up).filled),
        forall|c: int|
            0 <= c < g.cells() ==> #[trigger] high_tide(*g, elev, sea, up).filled[c] <= top + step
                * (g.cells() - 1),
{
    let t = high_tide(*g, elev, sea, up);
    let t0 = low_tide(elev, sea);
    assert(sound(*g, t0));
    assert forall|c: int| 0 <= c < t0.seen.len() && #[trigger] t0.seen[c] implies t0.filled[c]
        <= top + step * t0.order.len() by {
        assert(elev[c] <= top);
        assert(step * 0 == 0);
    }
    lemma_bounded_run(g, elev, up, top, step, t0, elev.len());
    lemma_high_tide(g, elev, sea, up);
    the_flood_reaches_every_cell(g, elev, sea, up);
    assert forall|c: int| 0 <= c < g.cells() implies #[trigger] t.filled[c] <= top + step * (
    g.cells() - 1) by {
        assert(t.order.contains(c as u32));
        let i = choose|i: int| 0 <= i < t.order.len() && t.order[i] == c as u32;
        assert(t.filled[t.order[i] as int] <= top + step * i);
        assert(step * i <= step * (g.cells() - 1)) by (nonlinear_arith)
            requires
                step >= 0,
                i <= g.cells() - 1,
        ;
    }
}

/// The cells come out lowest first: what has been taken lies no higher than what was
/// taken later or still waits.
spec fn ascending(t: Tide) -> bool {
    &&& forall|i: int, j: int|
        0 <= i < j < t.order.len() ==> t.filled[#[trigger] t.order[i] as int]
            <= t.filled[#[trigger] t.order[j] as int]
    &&& forall|i: int, d: int|
        0 <= i < t.order.len() && #[trigger] t.waits(d) ==> t.filled[#[trigger] t.order[i] as int]
            <= t.filled[d]
}

proof fn lemma_ascending_take(
    g: &CellGraph,
    elev: Seq<i32>,
    up: spec_fn(i32) -> i32,
    t: Tide,
)
    requires
        g.wf(),
        elev.len() == g.cells(),
        sound(*g, t),
        ascending(t),
        up(t.filled[t.next()]) > t.filled[t.next()],
        t.is_next(t.next()),
    ensures
        ascending(t.take(*g, elev, up, t.next())),
{
    let c = t.next();
    let taken = Tide { order: t.order.push(c as u32), ..t };
    let after = t.take(*g, elev, up, c);
    lemma_take(g, t, elev, up, c);
    assert(taken.order.no_duplicates());
    assert(sound(*g, taken));
    lemma_spread(g, taken, elev, up, c, g.valence(c));
    assert forall|i: int, j: int| 0 <= i < j < after.order.len() implies after.filled[
    #[trigger] after.order[i] as int] <= after.filled[#[trigger] after.order[j] as int] by {
        assert(after.order[i] == t.order[i]);
        assert(t.seen[t.order[i] as int]);
        assert(taken.seen[t.order[i] as int]);
        if j < t.order.len() {
            assert(after.order[j] == t.order[j]);
            assert(t.seen[t.order[j] as int]);
            assert(taken.seen[t.order[j] as int]);
        } else {
            assert(t.waits(c));
            assert(taken.seen[c]);
        }
    }
    assert forall|i: int, d: int|
        0 <= i < after.order.len() && #[trigger] after.waits(d) implies after.filled[
    #[trigger] after.order[i] as int] <= after.filled[d] by {
        assert(taken.seen[c]);
        assert(up(t.filled[c]) > t.filled[c]);
        let x = after.order[i] as int;
        if i < t.order.len() {
            assert(after.order[i] == t.order[i]);
            assert(t.seen[t.order[i] as int]);
            assert(taken.seen[x]);
            assert(t.waits(c));
        }
        if t.seen[d] {
            assert(taken.seen[d]);
            if t.order.contains(d as u32) {
                let k = choose|k: int| 0 <= k < t.order.len() && t.order[k] == d as u32;
                assert(after.order[k] == d as u32);
            }
            assert(t.waits(d));
        }
    }
}

proof fn lemma_ascending_run(
    g: &CellGraph,
    elev: Seq<i32>,
    up: spec_fn(i32) -> i32,
    t: Tide,
    n: nat,
)
    requires
        g.wf(),
        elev.len() == g.cells(),
        sound(*g, t),
        ascending(t),
        climbs(up, t.run(*g, elev, up, n).filled),
    ensures
        ascending(t.run(*g, elev, up, n)),
    decreases n,
{
    if n > 0 && t.busy() {
        lemma_next_is_kept(g, elev, up, t, n);
        let end = t.run(*g, elev, up, n);
        assert(up(end.filled[t.next()]) > end.filled[t.next()]);
        lemma_ascending_take(g, elev, up, t);
        lemma_ascending_run(g, elev, up, t.take(*g, elev, up, t.next()), (n - 1) as nat);
    }
}

/// The flood takes the cells lowest first.
pub proof fn the_flood_rises(
    g: &CellGraph,
    elev: Seq<i32>,
    sea: i32,
    up: spec_fn(i32) -> i32,
    i: int,
    j: int,
)
    requires
        g.wf(),
        elev.len() == g.cells(),
        climbs(up, high_tide(*g, elev, sea, up).filled),
        0 <= i <= j < high_tide(*g, elev, sea, up).order.len(),
    ensures
        ({
            let t = high_tide(*g, elev, sea, up);
            t.filled[t.order[i] as int] <= t.filled[t.order[j] as int]
        }),
{
    let t0 = low_tide(elev, sea);
    assert(sound(*g, t0));
    assert(ascending(t0));
    lemma_ascending_run(g, elev, up, t0, elev.len());
    let t = high_tide(*g, elev, sea, up);
    if i < j {
        assert(t.filled[t.order[i] as int] <= t.filled[t.order[j] as int]);
    }
}

/// The filled surface lies nowhere below the ground, and at the outlets on it.
pub proof fn the_fill_covers_the_ground(
    g: &CellGraph,
    elev: Seq<i32>,
    sea: i32,
    up: spec_fn(i32) -> i32,
    c: int,
)
    requires
        g.wf(),
        whole(*g),
        elev.len() == g.cells(),
        0 <= c < g.cells(),
    ensures
        high_tide(*g, elev, sea, up).filled[c] >= elev[c],
        is_outlet(elev, sea, c) ==> high_tide(*g, elev, sea, up).filled[c] == elev[c],
{
    lemma_high_tide(g, elev, sea, up);
    the_flood_reaches_every_cell(g, elev, sea, up);
    let t = high_tide(*g, elev, sea, up);
    assert(t.order.contains(c as u32));
    let i = choose|i: int| 0 <= i < t.order.len() && t.order[i] == c as u32;
    assert(t.seen[t.order[i] as int]);
    if !is_outlet(elev, sea, c) {
        assert(raised(*g, elev, up, t, c));
    }
}

/// No flats and no pits: every cell that is no outlet has a receiver, which lies
/// strictly below it and was taken before it. So the flow has no loops, and walking the
/// order backwards meets every cell before its receiver.
pub proof fn every_cell_drains(
    g: &CellGraph,
    elev: Seq<i32>,
    sea: i32,
    up: spec_fn(i32) -> i32,
    slope: Seq<i32>,
    c: int,
    r: int,
    i: int,
    j: int,
)
    requires
        g.wf(),
        g.symmetric(),
        whole(*g),
        elev.len() == g.cells(),
        climbs(up, high_tide(*g, elev, sea, up).filled),
        0 <= c < g.cells(),
        !is_outlet(elev, sea, c),
    ensures
        !is_pit(*g, high_tide(*g, elev, sea, up).filled, c),
        ({
            let t = high_tide(*g, elev, sea, up);
            0 <= r < g.cells() && is_receiver(*g, slope, t.filled, c, r) && 0 <= i < t.order.len() && 0
                <= j < t.order.len() && t.order[i] == c && t.order[j] == r ==> j < i
        }),
{
    lemma_high_tide(g, elev, sea, up);
    the_flood_reaches_every_cell(g, elev, sea, up);
    let t = high_tide(*g, elev, sea, up);
    assert(t.order.contains(c as u32));
    let x = choose|x: int| 0 <= x < t.order.len() && t.order[x] == c as u32;
    assert(t.seen[t.order[x] as int]);
    assert(raised(*g, elev, up, t, c));
    let p = choose|p: int|
        0 <= p < t.order.len() && g.adjacent(#[trigger] t.order[p] as int, c) && t.filled[c] == (
        if elev[c] >= up(t.filled[t.order[p] as int]) {
            elev[c]
        } else {
            up(t.filled[t.order[p] as int])
        });
    let parent = t.order[p] as int;
    assert(t.order[p] < g.cells());
    assert(up(t.filled[parent]) > t.filled[parent]);
    assert(g.adjacent(c, parent));
    let k = choose|k: int| 0 <= k < g.valence(c) && #[trigger] g.nb(c, k) == parent;
    assert(t.filled[g.nb(c, k)] < t.filled[c]);
    if 0 <= r < g.cells() && is_receiver(*g, slope, t.filled, c, r) && 0 <= i < t.order.len() && 0 <= j
        < t.order.len() && t.order[i] == c && t.order[j] == r && j >= i {
        the_flood_rises(g, elev, sea, up, i, j);
    }
}

/// Where cell `c` gets to after `n` steps downstream.
pub open spec fn downstream_of(down: Seq<u32>, c: int, n: nat) -> int
    decreases n,
{
    if n == 0 || down[c] == NO_DOWNSTREAM {
        c
    } else {
        downstream_of(down, down[c] as int, (n - 1) as nat)
    }
}

/// Every cell reaches an outlet: following the receivers ends there in fewer steps than
/// there are cells.
pub proof fn every_cell_reaches_an_outlet(
    g: &CellGraph,
    elev: Seq<i32>,
    sea: i32,
    up: spec_fn(i32) -> i32,
    slope: Seq<i32>,
    down: Seq<u32>,
    c: int,
)
    requires
        g.wf(),
        g.symmetric(),
        whole(*g),
        elev.len() == g.cells(),
        climbs(up, high_tide(*g, elev, sea, up).filled),
        drains(*g, elev, sea, slope, high_tide(*g, elev, sea, up).filled, down),
        0 <= c < g.cells(),
    ensures
        is_outlet(elev, sea, downstream_of(down, c, g.cells() as nat)),
{
    the_flood_reaches_every_cell(g, elev, sea, up);
    let t = high_tide(*g, elev, sea, up);
    assert(t.order.contains(c as u32));
    let i = choose|i: int| 0 <= i < t.order.len() && t.order[i] == c as u32;
    lemma_drains_by(g, elev, sea, up, slope, down, c, i, g.cells() as nat);
}

proof fn lemma_drains_by(
    g: &CellGraph,
    elev: Seq<i32>,
    sea: i32,
    up: spec_fn(i32) -> i32,
    slope: Seq<i32>,
    down: Seq<u32>,
    c: int,
    i: int,
    n: nat,
)
    requires
        g.wf(),
        g.symmetric(),
        whole(*g),
        elev.len() == g.cells(),
        climbs(up, high_tide(*g, elev, sea, up).filled),
        drains(*g, elev, sea, slope, high_tide(*g, elev, sea, up).filled, down),
        0 <= c < g.cells(),
        0 <= i < high_tide(*g, elev, sea, up).order.len(),
        high_tide(*g, elev, sea, up).order[i] == c,
        i < n,
    ensures
        is_outlet(elev, sea, downstream_of(down, c, n)),
    decreases i,
{
    let t = high_tide(*g, elev, sea, up);
    assert(drains_to(*g, elev, sea, slope, t.filled, c, down[c]));
    if !is_outlet(elev, sea, c) {
        every_cell_drains(g, elev, sea, up, slope, c, 0, 0, 0);
        if elev[c] < sea {
            assert(elev[c] < sea);
            assert(is_outlet(elev, sea, c));
        }
        let r = down[c] as int;
        assert(is_receiver(*g, slope, t.filled, c, r));
        let k = choose|k: int| #[trigger]
            is_steepest(*g, slope, t.filled, c, k) && g.nb(c, k) == r;
        assert(g.offsets@[c + 1] <= g.offsets@[g.cells()]);
        assert(0 <= r < g.cells());
        the_flood_reaches_every_cell(g, elev, sea, up);
        assert(t.order.contains(r as u32));
        let j = choose|j: int| 0 <= j < t.order.len() && t.order[j] == r as u32;
        every_cell_drains(g, elev, sea, up, slope, c, r, i, j);
        lemma_drains_by(g, elev, sea, up, slope, down, r, j, (n - 1) as nat);
    } else {
        lemma_outlet_stays(g, elev, sea, up, slope, down, c, n);
    }
}

/// An outlet drains nowhere.
proof fn lemma_outlet_stays(
    g: &CellGraph,
    elev: Seq<i32>,
    sea: i32,
    up: spec_fn(i32) -> i32,
    slope: Seq<i32>,
    down: Seq<u32>,
    c: int,
    n: nat,
)
    requires
        g.wf(),
        whole(*g),
        elev.len() == g.cells(),
        down.len() == g.cells(),
        drains_to(*g, elev, sea, slope, high_tide(*g, elev, sea, up).filled, c, down[c]),
        0 <= c < g.cells(),
        is_outlet(elev, sea, c),
    ensures
        downstream_of(down, c, n) == c,
{
    let t = high_tide(*g, elev, sea, up);
    if elev[c] >= sea {
        the_fill_covers_the_ground(g, elev, sea, up, c);
        assert(is_pit(*g, t.filled, c)) by {
            assert forall|k: int| 0 <= k < g.valence(c) implies t.filled[#[trigger] g.nb(c, k)]
                >= t.filled[c] by {
                assert(g.offsets@[c + 1] <= g.offsets@[g.cells()]);
                let m = g.nb(c, k);
                assert(0 <= m < g.cells());
                the_fill_covers_the_ground(g, elev, sea, up, m);
                assert(elev[c] <= elev[m]);
            }
        }
    }
}

/// Cell `c` was raised above the first of its neighbours that was taken.
spec fn raised_first(
    g: CellGraph,
    elev: Seq<i32>,
    up: spec_fn(i32) -> i32,
    t: Tide,
    c: int,
    p: int,
) -> bool {
    &&& 0 <= p < t.order.len()
    &&& g.adjacent(t.order[p] as int, c)
    &&& t.filled[c] == (if elev[c] >= up(t.filled[t.order[p] as int]) {
        elev[c]
    } else {
        up(t.filled[t.order[p] as int])
    })
    &&& forall|i: int| 0 <= i < p ==> !g.adjacent(#[trigger] t.order[i] as int, c)
}

spec fn first_come(g: CellGraph, elev: Seq<i32>, sea: i32, up: spec_fn(i32) -> i32, t: Tide) -> bool {
    forall|c: int|
        0 <= c < g.cells() && #[trigger] t.seen[c] && !is_outlet(elev, sea, c) ==> exists|p: int|
            #[trigger] raised_first(g, elev, up, t, c, p)
}

proof fn lemma_first_take(
    g: &CellGraph,
    elev: Seq<i32>,
    sea: i32,
    up: spec_fn(i32) -> i32,
    t: Tide,
    c: int,
)
    requires
        g.wf(),
        elev.len() == g.cells(),
        tidal(*g, elev, sea, up, t),
        first_come(*g, elev, sea, up, t),
        t.waits(c),
    ensures
        first_come(*g, elev, sea, up, t.take(*g, elev, up, c)),
{
    let taken = Tide { order: t.order.push(c as u32), ..t };
    let after = t.take(*g, elev, up, c);
    lemma_take(g, t, elev, up, c);
    assert(taken.order.no_duplicates());
    assert(sound(*g, taken));
    lemma_spread(g, taken, elev, up, c, g.valence(c));
    assert forall|x: int|
        0 <= x < g.cells() && #[trigger] after.seen[x] && !is_outlet(elev, sea, x) implies exists|
        p: int,
    | #[trigger] raised_first(*g, elev, up, after, x, p) by {
        if t.seen[x] {
            let p = choose|p: int| #[trigger] raised_first(*g, elev, up, t, x, p);
            assert(after.order[p] == t.order[p]);
            assert(t.seen[t.order[p] as int]);
            assert(after.filled[t.order[p] as int] == t.filled[t.order[p] as int]);
            assert forall|i: int| 0 <= i < p implies !g.adjacent(
                #[trigger] after.order[i] as int,
                x,
            ) by {
                assert(after.order[i] == t.order[i]);
            }
            assert(raised_first(*g, elev, up, after, x, p));
        } else {
            let p = t.order.len() as int;
            assert(after.order[p] == c as u32);
            assert(t.seen[c]);
            assert(after.filled[c] == t.filled[c]);
            assert forall|i: int| 0 <= i < p implies !g.adjacent(
                #[trigger] after.order[i] as int,
                x,
            ) by {
                assert(after.order[i] == t.order[i]);
                if g.adjacent(t.order[i] as int, x) {
                    let k = choose|k: int|
                        0 <= k < g.valence(t.order[i] as int) && #[trigger] g.nb(
                            t.order[i] as int,
                            k,
                        ) == x;
                    assert(t.seen[g.nb(t.order[i] as int, k)]);
                }
            }
            assert(raised_first(*g, elev, up, after, x, p));
        }
    }
}

proof fn lemma_first_run(
    g: &CellGraph,
    elev: Seq<i32>,
    sea: i32,
    up: spec_fn(i32) -> i32,
    t: Tide,
    n: nat,
)
    requires
        g.wf(),
        elev.len() == g.cells(),
        tidal(*g, elev, sea, up, t),
        first_come(*g, elev, sea, up, t),
    ensures
        first_come(*g, elev, sea, up, t.run(*g, elev, up, n)),
    decreases n,
{
    if n > 0 && t.busy() {
        lemma_next_exists(t, g.cells());
        let c = t.next();
        lemma_take(g, t, elev, up, c);
        lemma_tidal_take(g, elev, sea, up, t, c);
        lemma_first_take(g, elev, sea, up, t, c);
        lemma_first_run(g, elev, sea, up, t.take(*g, elev, up, c), (n - 1) as nat);
    }
}

/// Nothing is filled higher than it has to be: next to any cell, a cell stands at its own ground
/// or a little above that neighbour, whichever is higher, and never higher than that. So water
/// stands no deeper than what it needs to run off by its lowest way out.
pub proof fn nothing_is_filled_too_high(
    g: &CellGraph,
    elev: Seq<i32>,
    sea: i32,
    up: spec_fn(i32) -> i32,
    c: int,
    m: int,
)
    requires
        g.wf(),
        whole(*g),
        elev.len() == g.cells(),
        climbs(up, high_tide(*g, elev, sea, up).filled),
        forall|a: i32, b: i32| a <= b ==> #[trigger] up(a) <= #[trigger] up(b),
        0 <= c < g.cells(),
        0 <= m < g.cells(),
        g.adjacent(c, m),
    ensures
        ({
            let filled = high_tide(*g, elev, sea, up).filled;
            filled[m] == elev[m] || filled[m] <= up(filled[c])
        }),
{
    let t0 = low_tide(elev, sea);
    let t = high_tide(*g, elev, sea, up);
    assert(sound(*g, t0));
    assert(tidal(*g, elev, sea, up, t0));
    lemma_high_tide(g, elev, sea, up);
    lemma_first_run(g, elev, sea, up, t0, elev.len());
    the_flood_reaches_every_cell(g, elev, sea, up);
    assert(t.order.contains(c as u32) && t.order.contains(m as u32));
    let i = choose|i: int| 0 <= i < t.order.len() && t.order[i] == c as u32;
    let j = choose|j: int| 0 <= j < t.order.len() && t.order[j] == m as u32;
    assert(t.seen[t.order[j] as int]);
    if !is_outlet(elev, sea, m) {
        let p = choose|p: int| #[trigger] raised_first(*g, elev, up, t, m, p);
        assert(g.adjacent(t.order[i] as int, m));
        assert(p <= i);
        the_flood_rises(g, elev, sea, up, p, i);
        assert(up(t.filled[t.order[p] as int]) <= up(t.filled[c]));
    }
}

/// Water takes the steepest way down: the receiver of a cell is a neighbour that lies lower, and
/// no neighbour that lies lower falls away more steeply, nor as steeply with a lower id. Cells of the sea and pits have none, and
/// every other cell has one.
pub proof fn water_takes_the_steepest_way(
    g: &CellGraph,
    elev: Seq<i32>,
    sea: i32,
    slope: Seq<i32>,
    filled: Seq<i32>,
    down: Seq<u32>,
    c: int,
)
    requires
        g.wf(),
        filled.len() == g.cells(),
        drains(*g, elev, sea, slope, filled, down),
        0 <= c < g.cells(),
    ensures
        down[c] == u32::MAX <==> elev[c] < sea || forall|k: int|
            0 <= k < g.valence(c) ==> filled[#[trigger] g.nb(c, k)] >= filled[c],
        down[c] != u32::MAX ==> {
            &&& filled[down[c] as int] < filled[c]
            &&& exists|k: int|
                0 <= k < g.valence(c) && #[trigger] g.nb(c, k) == down[c] && forall|j: int|
                    0 <= j < g.valence(c) && filled[#[trigger] g.nb(c, j)] < filled[c] ==> slope[
                    g.offsets@[c] + j] < slope[g.offsets@[c] + k] || (slope[g.offsets@[c] + j]
                        == slope[g.offsets@[c] + k] && down[c] <= g.nb(c, j))
        },
{
    assert(drains_to(*g, elev, sea, slope, filled, c, down[c]));
    if !(elev[c] < sea || is_pit(*g, filled, c)) {
        let k = choose|k: int| #[trigger]
            is_steepest(*g, slope, filled, c, k) && g.nb(c, k) == down[c];
        assert(g.offsets@[c + 1] <= g.offsets@[g.cells()]);
        assert(0 <= g.nb(c, k) < g.cells());
        assert(g.nb(c, k) == down[c]);
        assert forall|j: int|
            0 <= j < g.valence(c) && filled[#[trigger] g.nb(c, j)] < filled[c] implies slope[
        g.offsets@[c] + j] < slope[g.offsets@[c] + k] || (slope[g.offsets@[c] + j]
            == slope[g.offsets@[c] + k] && down[c] <= g.nb(c, j)) by {
            assert(g.slot(c, j) == g.offsets@[c] + j && g.slot(c, k) == g.offsets@[c] + k);
        }
    }
}

/// A river leaves a cell by the first edge that leads to the cell it drains to; a cell that drains
/// nowhere has no such edge.
pub proof fn rivers_leave_towards_their_receiver(g: &CellGraph, d: u32, c: int, slot: u8)
    requires
        leaves_by(*g, d, c, slot),
        g.valence(c) <= u8::MAX,
        d != u32::MAX ==> g.adjacent(c, d as int),
    ensures
        slot == u8::MAX <==> d == u32::MAX,
        slot != u8::MAX ==> slot < g.valence(c) && g.nb(c, slot as int) == d && forall|j: int|
            0 <= j < slot ==> #[trigger] g.nb(c, j) != d,
{
}

/// The sea is where the ground lies below sea level. A planet without any has one outlet, and no
/// cell lies lower.
pub proof fn outlets_are_the_sea_or_the_lowest_ground(elev: Seq<i32>, sea: i32, c: int, d: int)
    requires
        0 <= c < elev.len(),
        0 <= d < elev.len(),
    ensures
        elev[c] < sea ==> is_outlet(elev, sea, c),
        is_outlet(elev, sea, c) && elev[c] >= sea ==> elev[d] >= sea && elev[c] <= elev[d],
        is_outlet(elev, sea, c) && is_outlet(elev, sea, d) && elev[c] >= sea ==> c == d,
{
    assert(elev[c] < sea || elev[c] >= sea);
    assert(elev[d] < sea || elev[d] >= sea);
}

/// Water runs off what covers a cell: the sea before all, then a lake, then ice, and bare land
/// only where there is none of them.
pub proof fn water_meets_what_covers_the_cell(sea: bool, lake: bool, ice: bool)
    ensures
        water_of(sea, lake, ice) == Water::Sea <==> sea,
        water_of(sea, lake, ice) == Water::Lake <==> lake && !sea,
        water_of(sea, lake, ice) == Water::Ice <==> ice && !sea && !lake,
{
}

} // verus!
