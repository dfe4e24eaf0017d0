//! The river sweep: what rivers cut from the land is carried downstream until it settles.

use vstd::prelude::*;
use crate::graph::{whole, CellGraph};
use crate::hydro::{
    climbs, drains, drains_to, high_tide, lemma_high_tide, the_flood_reaches_every_cell,
    the_flood_rises, Hydrology, NO_DOWNSTREAM,
};
use crate::surface::{transport, Transport};

verus! {

/// One leg of what a river carries.
#[derive(Clone, Copy, Debug, PartialEq, Eq, Structural)]
pub enum Reach {
    /// The run ends on land: the load settles in the cell.
    Rest { at: u32 },
    /// The run ends in the sea: the load builds a delta around the cell.
    Delta { at: u32 },
    /// The water stands or carries nothing: the load settles in the cell.
    Settle { at: u32 },
    /// What the river can carry goes on to the next cell; the rest settles.
    Carry { from: u32, to: u32 },
}

/// What becomes of the load of cell `c`.
pub open spec fn reach_of(down: Seq<u32>, land: Seq<bool>, carries: Seq<bool>, c: u32) -> Reach {
    if down[c as int] == NO_DOWNSTREAM {
        if land[c as int] {
            Reach::Rest { at: c }
        } else {
            Reach::Delta { at: c }
        }
    } else if carries[c as int] {
        Reach::Carry { from: c, to: down[c as int] }
    } else {
        Reach::Settle { at: c }
    }
}

/// Which cells carry a load after a leg.
pub open spec fn after_reach(now: Seq<bool>, r: Reach) -> Seq<bool> {
    match r {
        Reach::Rest { at } => now.update(at as int, false),
        Reach::Delta { at } => now.update(at as int, false),
        Reach::Settle { at } => now.update(at as int, false),
        Reach::Carry { from, to } => now.update(to as int, true).update(from as int, false),
    }
}

/// Which cells carry a load after the last `i` cells of `order`, walked from its end, and
/// the legs so far.
pub open spec fn river_sweep(
    order: Seq<u32>,
    down: Seq<u32>,
    land: Seq<bool>,
    carries: Seq<bool>,
    cut: Seq<bool>,
    i: int,
) -> (Seq<bool>, Seq<Reach>)
    decreases i,
{
    if i <= 0 {
        (cut, Seq::empty())
    } else {
        let (now, legs) = river_sweep(order, down, land, carries, cut, i - 1);
        let c = order[order.len() - i];
        if now[c as int] {
            let r = reach_of(down, land, carries, c);
            (after_reach(now, r), legs.push(r))
        } else {
            (now, legs)
        }
    }
}

impl Hydrology {
    /// The order and the receivers are those of `n` cells.
    pub open spec fn covers(&self, n: int) -> bool {
        &&& self.downstream@.len() == n
        &&& forall|i: int| 0 <= i < self.order@.len() ==> (#[trigger] self.order@[i]) < n
        &&& forall|c: int|
            0 <= c < n ==> #[trigger] self.downstream@[c] == NO_DOWNSTREAM || self.downstream@[c]
                < n
    }

    /// Carries what the rivers cut downstream in one sweep, every cell before its receiver.
    /// `cut` tells where something was cut, `carries` where the river can carry anything.
    pub fn route_load(&self, land: &[bool], carries: &[bool], cut: &[bool]) -> (legs: Vec<Reach>)
        requires
            self.covers(cut@.len() as int),
            land@.len() == cut@.len(),
            carries@.len() == cut@.len(),
        ensures
            legs@ == river_sweep(
                self.order@,
                self.downstream@,
                land@,
                carries@,
                cut@,
                self.order@.len() as int,
            ).1,
    {
        let n = cut.len();
        let mut now: Vec<bool> = Vec::new();
        let mut c: usize = 0;
        while c < n
            invariant
                c <= n,
                n == cut@.len(),
                now@ == cut@.take(c as int),
            decreases n - c,
        {
            now.push(cut[c]);
            c = c + 1;
            assert(now@ =~= cut@.take(c as int));
        }
        assert(now@ =~= cut@);
        let mut legs: Vec<Reach> = Vec::new();
        let mut i: usize = 0;
        while i < self.order.len()
            invariant
                i <= self.order@.len(),
                n == cut@.len(),
                self.covers(n as int),
                land@.len() == n,
                carries@.len() == n,
                now@.len() == n,
                (now@, legs@) == river_sweep(
                    self.order@,
                    self.downstream@,
                    land@,
                    carries@,
                    cut@,
                    i as int,
                ),
            decreases self.order@.len() - i,
        {
            let at = self.order[self.order.len() - 1 - i];
            let c = at as usize;
            let to = self.downstream[c];
            match transport(now[c], to != NO_DOWNSTREAM, land[c], !carries[c]) {
                Transport::Idle => {},
                Transport::End { delta } => {
                    legs.push(if delta {
                        Reach::Delta { at }
                    } else {
                        Reach::Rest { at }
                    });
                    now.set(c, false);
                },
                Transport::Settle => {
                    legs.push(Reach::Settle { at });
                    now.set(c, false);
                },
                Transport::Carry => {
                    legs.push(Reach::Carry { from: at, to });
                    now.set(to as usize, true);
                    now.set(c, false);
                },
            }
            i = i + 1;
        }
        legs
    }
}

/// All that is cut in a step settles in the same step: after one sweep no cell of the
/// planet carries a load.
pub proof fn nothing_stays_in_the_rivers(
    g: &CellGraph,
    elev: Seq<i32>,
    sea: i32,
    up: spec_fn(i32) -> i32,
    slope: Seq<i32>,
    down: Seq<u32>,
    land: Seq<bool>,
    carries: Seq<bool>,
    cut: Seq<bool>,
    c: int,
)
    requires
        g.wf(),
        whole(*g),
        elev.len() == g.cells(),
        climbs(up, high_tide(*g, elev, sea, up).filled),
        drains(*g, elev, sea, slope, high_tide(*g, elev, sea, up).filled, down),
        cut.len() == g.cells(),
        0 <= c < g.cells(),
    ensures
        ({
            let order = high_tide(*g, elev, sea, up).order;
            !river_sweep(order, down, land, carries, cut, order.len() as int).0[c]
        }),
{
    the_flood_reaches_every_cell(g, elev, sea, up);
    let order = high_tide(*g, elev, sea, up).order;
    assert(order.contains(c as u32));
    let i = choose|i: int| 0 <= i < order.len() && order[i] == c as u32;
    lemma_visited_is_empty(g, elev, sea, up, slope, down, land, carries, cut, order.len() as int, i);
}

/// What the sweep has visited carries nothing any more.
proof fn lemma_visited_is_empty(
    g: &CellGraph,
    elev: Seq<i32>,
    sea: i32,
    up: spec_fn(i32) -> i32,
    slope: Seq<i32>,
    down: Seq<u32>,
    land: Seq<bool>,
    carries: Seq<bool>,
    cut: Seq<bool>,
    n: int,
    j: int,
)
    requires
        g.wf(),
        whole(*g),
        elev.len() == g.cells(),
        climbs(up, high_tide(*g, elev, sea, up).filled),
        drains(*g, elev, sea, slope, high_tide(*g, elev, sea, up).filled, down),
        cut.len() == g.cells(),
        0 <= n <= high_tide(*g, elev, sea, up).order.len(),
        high_tide(*g, elev, sea, up).order.len() - n <= j < high_tide(
            *g,
            elev,
            sea,
            up,
        ).order.len(),
    ensures
        ({
            let order = high_tide(*g, elev, sea, up).order;
            let now = river_sweep(order, down, land, carries, cut, n).0;
            now.len() == cut.len() && 0 <= order[j] < cut.len() && !now[order[j] as int]
        }),
    decreases n,
{
    let t = high_tide(*g, elev, sea, up);
    let order = t.order;
    lemma_high_tide(g, elev, sea, up);
    assert(order[j] < g.cells());
    the_flood_reaches_every_cell(g, elev, sea, up);
    assert forall|x: int| 0 <= x < cut.len() implies #[trigger] down[x] == NO_DOWNSTREAM || down[x]
        < cut.len() by {
        assert(drains_to(*g, elev, sea, slope, t.filled, x, down[x]));
        assert(g.offsets@[x + 1] <= g.offsets@[g.cells()]);
    }
    lemma_sweep_len(order, down, land, carries, cut, n - 1);
    lemma_sweep_len(order, down, land, carries, cut, n);
    let x = order.len() - n;
    let c = order[x];
    assert(0 <= order[j] < cut.len());
    assert(0 <= c < cut.len());
    let before = river_sweep(order, down, land, carries, cut, n - 1).0;
    if j > x {
        lemma_visited_is_empty(g, elev, sea, up, slope, down, land, carries, cut, n - 1, j);
        assert(order[j] != order[x]);
        if before[c as int] && reach_of(down, land, carries, c) is Carry {
            assert(drains_to(*g, elev, sea, slope, t.filled, c as int, down[c as int]));
            let r = down[c as int];
            if r == order[j] {
                the_flood_rises(g, elev, sea, up, x, j);
            }
        }
    } else if before[c as int] && reach_of(down, land, carries, c) is Carry {
        assert(drains_to(*g, elev, sea, slope, t.filled, c as int, down[c as int]));
    }
}

proof fn lemma_sweep_len(
    order: Seq<u32>,
    down: Seq<u32>,
    land: Seq<bool>,
    carries: Seq<bool>,
    cut: Seq<bool>,
    i: int,
)
    requires
        i <= order.len(),
        down.len() == cut.len(),
        forall|j: int| 0 <= j < order.len() ==> (#[trigger] order[j]) < cut.len(),
        forall|c: int|
            0 <= c < cut.len() ==> #[trigger] down[c] == NO_DOWNSTREAM || down[c] < cut.len(),
    ensures
        river_sweep(order, down, land, carries, cut, i).0.len() == cut.len(),
    decreases i,
{
    if i > 0 {
        assert(order[order.len() - i] < cut.len());
        lemma_sweep_len(order, down, land, carries, cut, i - 1);
    }
}

/// Every leg of a river follows the water: what goes on goes to the cell that the water drains
/// to, and what comes down does so at the end of the run, as a delta exactly where that is sea,
/// or where the river can carry nothing.
pub proof fn loads_follow_the_water(
    order: Seq<u32>,
    down: Seq<u32>,
    land: Seq<bool>,
    carries: Seq<bool>,
    cut: Seq<bool>,
    n: int,
    i: int,
)
    requires
        0 <= n <= order.len(),
        0 <= i < river_sweep(order, down, land, carries, cut, n).1.len(),
    ensures
        match river_sweep(order, down, land, carries, cut, n).1[i] {
            Reach::Rest { at } => down[at as int] == NO_DOWNSTREAM && land[at as int],
            Reach::Delta { at } => down[at as int] == NO_DOWNSTREAM && !land[at as int],
            Reach::Settle { at } => down[at as int] != NO_DOWNSTREAM && !carries[at as int],
            Reach::Carry { from, to } => to == down[from as int] && to != NO_DOWNSTREAM
                && carries[from as int],
        },
    decreases n,
{
    if n > 0 {
        let legs = river_sweep(order, down, land, carries, cut, n - 1).1;
        if i < legs.len() {
            loads_follow_the_water(order, down, land, carries, cut, n - 1, i);
        }
    }
}

} // verus!
