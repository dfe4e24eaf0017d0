//! The cell graph of the planet mesh: compressed adjacency lists, and what it
//! means to walk from one cell to another.

use vstd::prelude::*;

verus! {

/// Adjacency lists of the planet's cells, stored back to back.
///
/// The neighbours of cell `c` are `neighbors[offsets[c] .. offsets[c + 1]]`.
pub struct CellGraph {
    /// Start of each cell's list in `neighbors`, with one closing entry.
    pub offsets: Vec<u32>,
    /// All lists, one after the other.
    pub neighbors: Vec<u32>,
}

impl CellGraph {
    /// The offsets cut `neighbors` into one list per cell, and every entry is a
    /// cell.
    pub open spec fn wf(&self) -> bool {
        &&& self.offsets@.len() >= 1
        &&& self.offsets@.len() <= u32::MAX
        &&& self.offsets@[0] == 0
        &&& self.offsets@[self.cells()] == self.neighbors@.len()
        &&& forall|i: int, j: int|
            0 <= i <= j < self.offsets@.len() ==> self.offsets@[i] <= self.offsets@[j]
        &&& forall|k: int|
            0 <= k < self.neighbors@.len() ==> (#[trigger] self.neighbors@[k]) < self.cells()
    }

    /// Number of cells.
    pub open spec fn cells(&self) -> int {
        self.offsets@.len() - 1
    }

    /// Number of neighbours of cell `c`.
    pub open spec fn valence(&self, c: int) -> int {
        self.offsets@[c + 1] - self.offsets@[c]
    }

    /// Where slot `k` of cell `c` stands in `neighbors`.
    pub open spec fn slot(&self, c: int, k: int) -> int {
        self.offsets@[c] + k
    }

    /// The `k`-th neighbour of cell `c`.
    pub open spec fn nb(&self, c: int, k: int) -> int {
        self.neighbors@[self.offsets@[c] + k] as int
    }

    /// Cell `b` is in cell `a`'s list.
    pub open spec fn adjacent(&self, a: int, b: int) -> bool {
        exists|k: int| 0 <= k < self.valence(a) && #[trigger] self.nb(a, k) == b
    }

    /// Adjacency goes both ways.
    pub open spec fn symmetric(&self) -> bool {
        forall|a: int, b: int|
            0 <= a < self.cells() && 0 <= b < self.cells() && #[trigger] self.adjacent(a, b)
                ==> self.adjacent(b, a)
    }

    /// A walk: every entry is a cell that `open` admits, and each is adjacent to
    /// the one before.
    pub open spec fn is_walk(&self, open: spec_fn(int) -> bool, walk: Seq<int>) -> bool {
        &&& walk.len() >= 1
        &&& forall|i: int|
            0 <= i < walk.len() ==> 0 <= #[trigger] walk[i] < self.cells() && open(walk[i])
        &&& forall|i: int|
            #![trigger walk[i]]
            0 < i < walk.len() ==> self.adjacent(walk[i - 1], walk[i])
    }

    /// Some walk through admitted cells leads from `a` to `b`.
    pub open spec fn reaches(&self, open: spec_fn(int) -> bool, a: int, b: int) -> bool {
        exists|walk: Seq<int>| #[trigger]
            self.is_walk(open, walk) && walk[0] == a && walk.last() == b
    }

    /// Number of cells.
    pub fn n_cells(&self) -> (n: usize)
        requires
            self.wf(),
        ensures
            n == self.cells(),
    {
        self.offsets.len() - 1
    }

    /// Number of neighbours of cell `c`.
    pub fn degree(&self, c: usize) -> (d: usize)
        requires
            self.wf(),
            c < self.cells(),
        ensures
            d == self.valence(c as int),
            self.offsets@[c as int] + d <= self.neighbors@.len(),
    {
        (self.offsets[c + 1] - self.offsets[c]) as usize
    }

    /// The `k`-th neighbour of cell `c`.
    pub fn neighbor(&self, c: usize, k: usize) -> (m: usize)
        requires
            self.wf(),
            c < self.cells(),
            k < self.valence(c as int),
        ensures
            m == self.nb(c as int, k as int),
            m < self.cells(),
    {
        assert(self.offsets@[c as int + 1] <= self.offsets@[self.cells()]);
        self.neighbors[self.offsets[c] as usize + k] as usize
    }
}

/// Every cell.
pub open spec fn every_cell() -> spec_fn(int) -> bool {
    |c: int| true
}

/// The graph is in one piece: every cell can be walked to from every other.
pub open spec fn whole(g: CellGraph) -> bool {
    forall|a: int, b: int|
        0 <= a < g.cells() && 0 <= b < g.cells() ==> #[trigger] g.reaches(every_cell(), a, b)
}

/// A walk extended by one admitted neighbour is a walk.
pub proof fn lemma_walk_push(g: &CellGraph, open: spec_fn(int) -> bool, walk: Seq<int>, b: int)
    requires
        g.is_walk(open, walk),
        0 <= b < g.cells(),
        open(b),
        g.adjacent(walk.last(), b),
    ensures
        g.is_walk(open, walk.push(b)),
        walk.push(b)[0] == walk[0],
        walk.push(b).last() == b,
{
    let w = walk.push(b);
    assert forall|i: int| #![trigger w[i]] 0 < i < w.len() implies g.adjacent(w[i - 1], w[i]) by {
        if i == walk.len() {
            assert(w[i - 1] == walk.last());
        } else {
            assert(w[i - 1] == walk[i - 1] && w[i] == walk[i]);
        }
    }
}

/// A cell that `open` admits reaches itself.
pub proof fn lemma_reaches_self(g: &CellGraph, open: spec_fn(int) -> bool, a: int)
    requires
        0 <= a < g.cells(),
        open(a),
    ensures
        g.reaches(open, a, a),
{
    let w = seq![a];
    assert(g.is_walk(open, w));
    assert(w[0] == a && w.last() == a);
}

/// Reaching a cell reaches its admitted neighbours.
pub proof fn lemma_reaches_step(
    g: &CellGraph,
    open: spec_fn(int) -> bool,
    a: int,
    b: int,
    c: int,
)
    requires
        g.reaches(open, a, b),
        0 <= c < g.cells(),
        open(c),
        g.adjacent(b, c),
    ensures
        g.reaches(open, a, c),
{
    let w = choose|walk: Seq<int>| #[trigger]
        g.is_walk(open, walk) && walk[0] == a && walk.last() == b;
    lemma_walk_push(g, open, w, c);
}

/// A set of cells that no step through admitted cells leaves holds everything
/// that its members reach.
pub proof fn lemma_closed_holds_reach(
    g: &CellGraph,
    open: spec_fn(int) -> bool,
    held: spec_fn(int) -> bool,
    a: int,
    b: int,
)
    requires
        held(a),
        g.reaches(open, a, b),
        forall|x: int, y: int|
            0 <= x < g.cells() && 0 <= y < g.cells() && held(x) && open(y) && #[trigger] g.adjacent(
                x,
                y,
            ) ==> held(y),
    ensures
        held(b),
{
    let w = choose|walk: Seq<int>| #[trigger]
        g.is_walk(open, walk) && walk[0] == a && walk.last() == b;
    lemma_closed_holds_walk(g, open, held, w, w.len() as int - 1);
}

proof fn lemma_closed_holds_walk(
    g: &CellGraph,
    open: spec_fn(int) -> bool,
    held: spec_fn(int) -> bool,
    w: Seq<int>,
    i: int,
)
    requires
        g.is_walk(open, w),
        0 <= i < w.len(),
        held(w[0]),
        forall|x: int, y: int|
            0 <= x < g.cells() && 0 <= y < g.cells() && held(x) && open(y) && #[trigger] g.adjacent(
                x,
                y,
            ) ==> held(y),
    ensures
        held(w[i]),
    decreases i,
{
    if i > 0 {
        lemma_closed_holds_walk(g, open, held, w, i - 1);
        assert(g.adjacent(w[i - 1], w[i]));
    }
}

/// In a graph whose adjacency goes both ways, walks can be turned round.
pub proof fn lemma_reaches_symmetric(g: &CellGraph, open: spec_fn(int) -> bool, a: int, b: int)
    requires
        g.symmetric(),
        g.reaches(open, a, b),
    ensures
        g.reaches(open, b, a),
{
    let w = choose|walk: Seq<int>| #[trigger]
        g.is_walk(open, walk) && walk[0] == a && walk.last() == b;
    let r = w.reverse();
    assert forall|i: int| #![trigger r[i]] 0 < i < r.len() implies g.adjacent(r[i - 1], r[i]) by {
        let j = w.len() - 1 - i;
        assert(r[i] == w[j] && r[i - 1] == w[j + 1]);
        assert(g.adjacent(w[j + 1 - 1], w[j + 1]));
    }
    assert(g.is_walk(open, r));
    assert(r[0] == b && r.last() == a);
}

/// Walks can be joined end to start.
pub proof fn lemma_reaches_trans(
    g: &CellGraph,
    open: spec_fn(int) -> bool,
    a: int,
    b: int,
    c: int,
)
    requires
        g.reaches(open, a, b),
        g.reaches(open, b, c),
    ensures
        g.reaches(open, a, c),
{
    let held = |x: int| g.reaches(open, a, x);
    assert forall|x: int, y: int|
        0 <= x < g.cells() && 0 <= y < g.cells() && held(x) && open(y) && #[trigger] g.adjacent(
            x,
            y,
        ) implies held(y) by {
        lemma_reaches_step(g, open, a, x, y);
    }
    lemma_closed_holds_reach(g, open, held, b, c);
}

} // verus!
