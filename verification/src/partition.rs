//! Dividing the whole planet into its first plates, by cutting the largest one again
//! and again.

use vstd::prelude::*;
use crate::drift::SUTURE;
use crate::graph::CellGraph;
use crate::plate::{Mosaic, Sheet, MAX_PLATES};
use crate::renumber::compacted;
use crate::rift::{lemma_members, plate_members};
use crate::sort::{in_order, keyed, lemma_order_is_unique, precedes, same_cells, sort_cells};
use crate::topology::{lemma_sweeps_len, swept_times, MAX_SWEEPS};

verus! {

/// Ceiling on the number of plates that the first division makes.
pub const HANDOFF_MAX_PLATES: usize = 24;

/// Fewest cells that a plate must have to be cut.
pub const MIN_CUT_CELLS: usize = 4;

/// A division in progress. Areas are counted in units small enough that every cell
/// has a whole number of them.
pub struct Division {
    /// Area of each cell.
    pub area: Vec<u64>,
    /// Plate of each cell.
    pub label: Vec<u16>,
    /// Area of each plate.
    pub plate_area: Vec<u64>,
    /// The plate that was cut and the plate it lost cells to, in order.
    pub splits: Vec<(u16, u16)>,
}

/// The area of those of the first `n` cells that belong to plate `p`.
pub open spec fn area_of(area: Seq<u64>, label: Seq<u16>, p: int, n: int) -> nat
    decreases n,
{
    if n <= 0 {
        0
    } else {
        area_of(area, label, p, n - 1) + if label[n - 1] == p {
            area[n - 1] as nat
        } else {
            0nat
        }
    }
}

/// The area of the first `n` cells.
pub open spec fn total_area(area: Seq<u64>, n: int) -> nat
    decreases n,
{
    if n <= 0 {
        0
    } else {
        total_area(area, n - 1) + area[n - 1] as nat
    }
}

impl Division {
    /// Every cell is on one of the plates, the plates' areas are those of their cells,
    /// and there is one split for every plate but the first.
    pub open spec fn wf(&self) -> bool {
        &&& self.area@.len() == self.label@.len()
        &&& self.area@.len() <= u32::MAX
        &&& total_area(self.area@, self.area@.len() as int) <= u64::MAX
        &&& 1 <= self.plate_area@.len() <= HANDOFF_MAX_PLATES
        &&& self.splits@.len() + 1 == self.plate_area@.len()
        &&& forall|c: int|
            0 <= c < self.label@.len() ==> (#[trigger] self.label@[c]) < self.plate_area@.len()
        &&& forall|p: int|
            0 <= p < self.plate_area@.len() ==> #[trigger] self.plate_area@[p] as nat == area_of(
                self.area@,
                self.label@,
                p,
                self.label@.len() as int,
            )
        &&& forall|i: int|
            0 <= i < self.splits@.len() ==> (#[trigger] self.splits@[i]).0 <= i
                && self.splits@[i].1 == i + 1
    }

    /// Everything on one plate.
    pub fn start(area: Vec<u64>) -> (d: Division)
        requires
            area@.len() <= u32::MAX,
            total_area(area@, area@.len() as int) <= u64::MAX,
        ensures
            d.wf(),
            d.area@ == area@,
            d.plate_area@.len() == 1,
            forall|c: int| 0 <= c < area@.len() ==> d.label@[c] == 0,
    {
        let mut label: Vec<u16> = Vec::new();
        let mut sum: u64 = 0;
        let n = area.len();
        let mut c: usize = 0;
        while c < n
            invariant
                c <= n,
                n == area@.len(),
                total_area(area@, n as int) <= u64::MAX,
                label@.len() == c,
                forall|j: int| 0 <= j < c ==> label@[j] == 0,
                sum == total_area(area@, c as int),
                sum == area_of(area@, label@, 0, c as int),
            decreases n - c,
        {
            proof {
                lemma_total_mono(area@, c + 1, n as int);
                lemma_area_prefix(area@, label@, label@.push(0), 0, c as int);
            }
            label.push(0);
            sum = sum + area[c];
            c = c + 1;
        }
        let mut plate_area: Vec<u64> = Vec::new();
        plate_area.push(sum);
        Division { area, label, plate_area, splits: Vec::new() }
    }

    /// The plate to cut next: the largest, the last where several tie; none once it is
    /// no larger than `limit` or there are enough plates.
    pub fn next_to_split(&self, limit: u64) -> (p: Option<u16>)
        requires
            self.wf(),
        ensures
            is_to_split(self.plate_area@, limit, p),
    {
        let np = self.plate_area.len();
        if np >= HANDOFF_MAX_PLATES {
            return None;
        }
        let mut p: usize = 0;
        let mut i: usize = 1;
        while i < np
            invariant
                1 <= i <= np,
                np == self.plate_area@.len(),
                p < i,
                forall|q: int|
                    0 <= q < i ==> #[trigger] self.plate_area@[q] < self.plate_area@[p as int] || (
                    self.plate_area@[q] == self.plate_area@[p as int] && q <= p),
            decreases np - i,
        {
            if self.plate_area[i] >= self.plate_area[p] {
                p = i;
            }
            i = i + 1;
        }
        if self.plate_area[p] <= limit {
            return None;
        }
        Some(p as u16)
    }

    /// Cuts plate `p`: its cells, ordered by `score` and then by id, go to a new plate
    /// until at least `target` area has moved. Nothing changes when the plate has too
    /// few cells, or when all of it would move or none.
    pub fn split(&mut self, p: u16, score: &[i32], target: u64) -> (done: bool)
        requires
            old(self).wf(),
            old(self).plate_area@.len() < HANDOFF_MAX_PLATES,
            p < old(self).plate_area@.len(),
            score@.len() == old(self).label@.len(),
        ensures
            final(self).wf(),
            final(self).area@ == old(self).area@,
            done == can_cut(
                old(self).area@,
                old(self).label@,
                score@,
                p,
                target,
                old(self).plate_area@[p as int],
            ),
            !done ==> *final(self) == *old(self),
            done ==> {
                &&& final(self).label@ == cut(
                    old(self).area@,
                    old(self).label@,
                    score@,
                    p,
                    target,
                    old(self).plate_area@.len() as u16,
                )
                &&& final(self).plate_area@.len() == old(self).plate_area@.len() + 1
                &&& final(self).splits@ == old(self).splits@.push(
                    (p, old(self).plate_area@.len() as u16),
                )
            },
    {
        let ghost before = *self;
        let ghost area = self.area@;
        let ghost label = self.label@;
        let order = self.ordered_members(p, score);
        proof {
            lemma_order_unique(label, score@, p, order@, cut_order(label, score@, p));
        }
        if order.len() < MIN_CUT_CELLS {
            return false;
        }
        let whole = self.plate_area[p as usize];
        assert(self.plate_area@[p as int] as nat == area_of(
            area,
            label,
            p as int,
            label.len() as int,
        ));
        let mut moved: u64 = 0;
        let mut k: usize = 0;
        while k < order.len() && moved < target
            invariant
                k <= order@.len(),
                self.area@ == area,
                area.len() == label.len(),
                area.len() <= u32::MAX,
                total_area(area, area.len() as int) <= u64::MAX,
                is_cut_order(label, score@, p, order@),
                moved == area_of_first(area, order@, k as int),
                k == prefix_len(area, order@, target, k as int),
            decreases order@.len() - k,
        {
            proof {
                lemma_first_fits(area, label, score@, p, order@, k + 1);
                assert(order@[k as int] < label.len());
            }
            moved = moved + self.area[order[k] as usize];
            k = k + 1;
        }
        proof {
            lemma_prefix_stops(area, order@, target, k as int);
        }
        if moved == 0 || moved >= whole {
            return false;
        }
        let child = self.plate_area.len() as u16;
        let mut i: usize = 0;
        while i < k
            invariant
                i <= k,
                k <= order@.len(),
                self.label@.len() == label.len(),
                self.area@ == area,
                self.plate_area@ == before.plate_area@,
                self.splits@ == before.splits@,
                is_cut_order(label, score@, p, order@),
                forall|c: int|
                    0 <= c < label.len() ==> #[trigger] self.label@[c] == (if order@.take(
                        i as int,
                    ).contains(c as u32) {
                        child
                    } else {
                        label[c]
                    }),
                label.len() <= u32::MAX,
            decreases k - i,
        {
            let c = order[i] as usize;
            let ghost now = self.label@;
            assert(order@[i as int] < label.len());
            self.label.set(c, child);
            proof {
                let t0 = order@.take(i as int);
                let t1 = order@.take(i + 1);
                assert(t1 =~= t0.push(order@[i as int]));
                assert forall|x: int| 0 <= x < label.len() implies #[trigger] self.label@[x] == (
                if t1.contains(x as u32) {
                    child
                } else {
                    label[x]
                }) by {
                    assert(now[x] == (if t0.contains(x as u32) {
                        child
                    } else {
                        label[x]
                    }));
                    if t0.contains(x as u32) {
                        let j = choose|j: int| 0 <= j < t0.len() && t0[j] == x as u32;
                        assert(t1[j] == x as u32);
                    }
                    if t1.contains(x as u32) {
                        let j = choose|j: int| 0 <= j < t1.len() && t1[j] == x as u32;
                        if j < t0.len() {
                            assert(t0[j] == x as u32);
                        }
                    }
                    if x == c {
                        assert(t1[i as int] == x as u32);
                    }
                }
            }
            i = i + 1;
        }
        self.plate_area.set(p as usize, whole - moved);
        self.plate_area.push(moved);
        self.splits.push((p, child));
        proof {
            let order_s = cut_order(label, score@, p);
            assert(order@ == order_s);
            assert(self.label@ =~= cut(area, label, score@, p, target, child));
            lemma_cut_areas(area, label, score@, p, child, order@, k as int);
            assert forall|q: int| 0 <= q < self.plate_area@.len() implies #[trigger]
                self.plate_area@[q] as nat == area_of(
                area,
                self.label@,
                q,
                self.label@.len() as int,
            ) by {
                if q < child && q != p {
                    assert(before.plate_area@[q] as nat == area_of(
                        area,
                        label,
                        q,
                        label.len() as int,
                    ));
                    lemma_area_other(
                        area,
                        label,
                        self.label@,
                        q,
                        label.len() as int,
                        p,
                        child,
                    );
                }
            }
            assert forall|c: int| 0 <= c < self.label@.len() implies (#[trigger] self.label@[c])
                < self.plate_area@.len() by {
                assert(before.label@[c] < before.plate_area@.len());
            }
        }
        true
    }

    /// The cells of plate `p`, ordered by score and then by id.
    fn ordered_members(&self, p: u16, score: &[i32]) -> (order: Vec<u32>)
        requires
            self.label@.len() <= u32::MAX,
            score@.len() == self.label@.len(),
        ensures
            is_cut_order(self.label@, score@, p, order@),
    {
        let members = plate_members(self.label.as_slice(), p);
        let ghost m = members@;
        proof {
            lemma_members(self.label@, p, self.label@.len() as int);
        }
        let order = sort_cells(members, score, false);
        proof {
            assert forall|i: int| 0 <= i < order@.len() implies (#[trigger] order@[i])
                < self.label@.len() && self.label@[order@[i] as int] == p by {
                assert(order@.contains(order@[i]));
                let j = choose|j: int| 0 <= j < m.len() && m[j] == order@[i];
                assert(m[j] < self.label@.len());
            }
            assert forall|c: int| 0 <= c < self.label@.len() && #[trigger] self.label@[c]
                == p implies order@.contains(c as u32) by {
                assert(m.contains(c as u32));
            }
        }
        order
    }
}

/// `p` is the plate to cut next, if one is to be cut.
pub open spec fn is_to_split(areas: Seq<u64>, limit: u64, p: Option<u16>) -> bool {
    match p {
        Some(p) => {
            &&& areas.len() < HANDOFF_MAX_PLATES
            &&& p < areas.len()
            &&& areas[p as int] > limit
            &&& is_last_largest(areas, p as int)
        },
        None => areas.len() >= HANDOFF_MAX_PLATES || forall|q: int|
            0 <= q < areas.len() ==> #[trigger] areas[q] <= limit,
    }
}

/// Plate `p` is the largest, the last where several tie.
pub open spec fn is_last_largest(areas: Seq<u64>, p: int) -> bool {
    forall|q: int|
        0 <= q < areas.len() ==> #[trigger] areas[q] < areas[p] || (areas[q] == areas[p] && q <= p)
}

/// `order` lists the cells of plate `p` along the cut: by rising score, then by id.
pub open spec fn is_cut_order(label: Seq<u16>, score: Seq<i32>, p: u16, order: Seq<u32>) -> bool {
    &&& in_order(score, false, order)
    &&& forall|i: int|
        0 <= i < order.len() ==> (#[trigger] order[i]) < label.len() && label[order[i] as int] == p
    &&& forall|c: int|
        0 <= c < label.len() && #[trigger] label[c] == p ==> order.contains(c as u32)
}

/// The cells of plate `p` along the cut.
pub open spec fn cut_order(label: Seq<u16>, score: Seq<i32>, p: u16) -> Seq<u32> {
    choose|order: Seq<u32>| is_cut_order(label, score, p, order)
}

/// The area of the first `k` cells along the cut.
pub open spec fn area_of_first(area: Seq<u64>, order: Seq<u32>, k: int) -> nat
    decreases k,
{
    if k <= 0 {
        0
    } else {
        area_of_first(area, order, k - 1) + area[order[k - 1] as int] as nat
    }
}

/// How many of the first `k` cells along the cut move: each as long as less than
/// `target` has moved before it.
pub open spec fn prefix_len(area: Seq<u64>, order: Seq<u32>, target: u64, k: int) -> int
    decreases k,
{
    if k <= 0 {
        0
    } else {
        let m = prefix_len(area, order, target, k - 1);
        if m == k - 1 && area_of_first(area, order, k - 1) < target {
            k
        } else {
            m
        }
    }
}

/// How many cells a cut moves.
pub open spec fn cut_len(
    area: Seq<u64>,
    label: Seq<u16>,
    score: Seq<i32>,
    p: u16,
    target: u64,
) -> int {
    let order = cut_order(label, score, p);
    prefix_len(area, order, target, order.len() as int)
}

/// A cut is made: the plate has cells enough, something moves, and something stays.
pub open spec fn can_cut(
    area: Seq<u64>,
    label: Seq<u16>,
    score: Seq<i32>,
    p: u16,
    target: u64,
    whole: u64,
) -> bool {
    let order = cut_order(label, score, p);
    let moved = area_of_first(area, order, cut_len(area, label, score, p, target));
    order.len() >= MIN_CUT_CELLS && 0 < moved < whole
}

/// The labels after a cut.
pub open spec fn cut(
    area: Seq<u64>,
    label: Seq<u16>,
    score: Seq<i32>,
    p: u16,
    target: u64,
    child: u16,
) -> Seq<u16> {
    let order = cut_order(label, score, p);
    let k = cut_len(area, label, score, p, target);
    Seq::new(
        label.len(),
        |c: int|
            if order.take(k).contains(c as u32) {
                child
            } else {
                label[c]
            },
    )
}

proof fn lemma_total_mono(area: Seq<u64>, a: int, b: int)
    requires
        0 <= a <= b,
    ensures
        total_area(area, a) <= total_area(area, b),
    decreases b - a,
{
    if a < b {
        lemma_total_mono(area, a, b - 1);
    }
}

proof fn lemma_area_prefix(area: Seq<u64>, a: Seq<u16>, b: Seq<u16>, p: int, n: int)
    requires
        forall|c: int| 0 <= c < n ==> a[c] == b[c],
    ensures
        area_of(area, a, p, n) == area_of(area, b, p, n),
    decreases n,
{
    if n > 0 {
        lemma_area_prefix(area, a, b, p, n - 1);
    }
}

proof fn lemma_area_other(
    area: Seq<u64>,
    a: Seq<u16>,
    b: Seq<u16>,
    q: int,
    n: int,
    p: u16,
    child: u16,
)
    requires
        0 <= n <= a.len(),
        a.len() == b.len(),
        q != p,
        q != child,
        forall|c: int|
            0 <= c < a.len() ==> #[trigger] b[c] == a[c] || (a[c] == p && b[c] == child),
    ensures
        area_of(area, a, q, n) == area_of(area, b, q, n),
    decreases n,
{
    if n > 0 {
        lemma_area_other(area, a, b, q, n - 1, p, child);
        assert(b[n - 1] == a[n - 1] || (a[n - 1] == p && b[n - 1] == child));
    }
}

/// There is only one order along the cut.
proof fn lemma_order_unique(
    label: Seq<u16>,
    score: Seq<i32>,
    p: u16,
    a: Seq<u32>,
    b: Seq<u32>,
)
    requires
        label.len() <= u32::MAX,
        is_cut_order(label, score, p, a),
        b == cut_order(label, score, p),
    ensures
        a == b,
        is_cut_order(label, score, p, b),
{
    assert(is_cut_order(label, score, p, b));
    assert forall|x: u32| #[trigger] a.contains(x) <==> b.contains(x) by {
        if a.contains(x) {
            let i = choose|i: int| 0 <= i < a.len() && a[i] == x;
            assert(label[a[i] as int] == p);
        }
        if b.contains(x) {
            let i = choose|i: int| 0 <= i < b.len() && b[i] == x;
            assert(label[b[i] as int] == p);
        }
    }
    lemma_order_is_unique(score, false, a, b);
}

/// `order` up to `k` as labels: those cells on a plate of their own.
spec fn set_apart(label: Seq<u16>, order: Seq<u32>, k: int, child: u16) -> Seq<u16> {
    Seq::new(
        label.len(),
        |c: int|
            if order.take(k).contains(c as u32) {
                child
            } else {
                label[c]
            },
    )
}

/// Moving cells one by one moves their area.
proof fn lemma_cut_areas(
    area: Seq<u64>,
    label: Seq<u16>,
    score: Seq<i32>,
    p: u16,
    child: u16,
    order: Seq<u32>,
    k: int,
)
    requires
        area.len() == label.len() <= u32::MAX,
        is_cut_order(label, score, p, order),
        child != p,
        forall|c: int| 0 <= c < label.len() ==> #[trigger] label[c] != child,
        0 <= k <= order.len(),
    ensures
        ({
            let now = set_apart(label, order, k, child);
            let n = label.len() as int;
            &&& area_of(area, now, child as int, n) == area_of_first(area, order, k)
            &&& area_of(area, now, p as int, n) + area_of_first(area, order, k) == area_of(
                area,
                label,
                p as int,
                n,
            )
        }),
    decreases k,
{
    let n = label.len() as int;
    if k == 0 {
        let now = set_apart(label, order, 0, child);
        assert forall|c: int| 0 <= c < n implies now[c] == label[c] by {
            assert(!order.take(0).contains(c as u32));
        }
        assert(now =~= label);
        lemma_area_absent(area, label, child as int, n);
    } else {
        lemma_cut_areas(area, label, score, p, child, order, k - 1);
        let prev = set_apart(label, order, k - 1, child);
        let now = set_apart(label, order, k, child);
        let x = order[k - 1] as int;
        assert(order[k - 1] < n);
        assert(order.take(k) =~= order.take(k - 1).push(order[k - 1]));
        let t0 = order.take(k - 1);
        let t1 = order.take(k);
        assert(!t0.contains(order[k - 1])) by {
            if t0.contains(order[k - 1]) {
                let j = choose|j: int| 0 <= j < t0.len() && t0[j] == order[k - 1];
                assert(precedes(score, false, order[j], order[k - 1]));
            }
        }
        assert forall|c: int| 0 <= c < n implies now[c] == prev.update(x, child)[c] by {
            if t1.contains(c as u32) {
                let j = choose|j: int| 0 <= j < t1.len() && t1[j] == c as u32;
                if j < k - 1 {
                    assert(t0[j] == c as u32);
                }
            }
            if t0.contains(c as u32) {
                let j = choose|j: int| 0 <= j < t0.len() && t0[j] == c as u32;
                assert(t1[j] == c as u32);
            }
            if c == x {
                assert(t1[k - 1] == c as u32);
            }
        }
        assert(now =~= prev.update(x, child));
        assert(prev[x] == p);
        lemma_area_update(area, prev, x, child, child as int, n);
        lemma_area_update(area, prev, x, child, p as int, n);
    }
}

proof fn lemma_area_absent(area: Seq<u64>, label: Seq<u16>, p: int, n: int)
    requires
        0 <= n <= label.len(),
        forall|c: int| 0 <= c < label.len() ==> #[trigger] label[c] != p,
    ensures
        area_of(area, label, p, n) == 0,
    decreases n,
{
    if n > 0 {
        lemma_area_absent(area, label, p, n - 1);
        assert(label[n - 1] != p);
    }
}

proof fn lemma_area_update(area: Seq<u64>, label: Seq<u16>, x: int, to: u16, q: int, n: int)
    requires
        0 <= x < label.len(),
        0 <= n <= label.len(),
    ensures
        area_of(area, label.update(x, to), q, n) + (if x < n && label[x] == q {
            area[x] as nat
        } else {
            0nat
        }) == area_of(area, label, q, n) + (if x < n && to == q {
            area[x] as nat
        } else {
            0nat
        }),
    decreases n,
{
    if n > 0 {
        lemma_area_update(area, label, x, to, q, n - 1);
    }
}

/// The area of the first cells along the cut fits.
proof fn lemma_first_fits(
    area: Seq<u64>,
    label: Seq<u16>,
    score: Seq<i32>,
    p: u16,
    order: Seq<u32>,
    k: int,
)
    requires
        area.len() == label.len() <= u32::MAX,
        is_cut_order(label, score, p, order),
        0 <= k <= order.len(),
        total_area(area, area.len() as int) <= u64::MAX,
    ensures
        area_of_first(area, order, k) <= u64::MAX,
{
    // Compare with a division in which plate ids are shifted so that one is free.
    let free: Seq<u16> = Seq::new(
        label.len(),
        |c: int|
            if label[c] == p {
                0u16
            } else {
                1u16
            },
    );
    assert(is_cut_order(free, score, 0, order)) by {
        assert forall|c: int| 0 <= c < free.len() && #[trigger] free[c] == 0 implies order.contains(
            c as u32,
        ) by {
            assert(label[c] == p);
        }
    }
    lemma_cut_areas(area, free, score, 0, 2, order, k);
    lemma_area_within(area, free, 0, label.len() as int);
}

proof fn lemma_area_within(area: Seq<u64>, label: Seq<u16>, p: int, n: int)
    requires
        0 <= n <= label.len(),
    ensures
        area_of(area, label, p, n) <= total_area(area, n),
    decreases n,
{
    if n > 0 {
        lemma_area_within(area, label, p, n - 1);
    }
}

proof fn lemma_prefix_stops(area: Seq<u64>, order: Seq<u32>, target: u64, k: int)
    requires
        0 <= k <= order.len(),
        k == prefix_len(area, order, target, k),
        k == order.len() || area_of_first(area, order, k) >= target,
    ensures
        prefix_len(area, order, target, order.len() as int) == k,
{
    lemma_prefix_from(area, order, target, k, order.len() as int);
}

proof fn lemma_prefix_from(area: Seq<u64>, order: Seq<u32>, target: u64, k: int, n: int)
    requires
        0 <= k <= n <= order.len(),
        k == prefix_len(area, order, target, k),
        k == order.len() || area_of_first(area, order, k) >= target,
    ensures
        prefix_len(area, order, target, n) == k,
    decreases n,
{
    if n > k {
        lemma_prefix_from(area, order, target, k, n - 1);
    }
}

/// Plates that parted last, after the first `i` splits: each split links its two
/// plates to each other.
pub open spec fn partners(splits: Seq<(u16, u16)>, np: nat, i: int) -> Seq<Option<u16>>
    decreases i,
{
    if i <= 0 {
        Seq::new(np, |p: int| None::<u16>)
    } else {
        let (a, b) = splits[i - 1];
        partners(splits, np, i - 1).update(a as int, Some(b)).update(b as int, Some(a))
    }
}

impl Division {
    /// For each plate the plate that it parted from last, if any: its freshest
    /// boundary.
    pub fn rift_partners(&self) -> (links: Vec<Option<u16>>)
        requires
            self.wf(),
        ensures
            links@ == partners(
                self.splits@,
                self.plate_area@.len(),
                self.splits@.len() as int,
            ),
    {
        let np = self.plate_area.len();
        let mut links: Vec<Option<u16>> = Vec::new();
        while links.len() < np
            invariant
                links@.len() <= np,
                forall|p: int| 0 <= p < links@.len() ==> links@[p] == None::<u16>,
            decreases np - links@.len(),
        {
            links.push(None);
        }
        assert(links@ =~= partners(self.splits@, np as nat, 0));
        let mut i: usize = 0;
        while i < self.splits.len()
            invariant
                i <= self.splits@.len(),
                self.wf(),
                np == self.plate_area@.len(),
                links@.len() == np,
                links@ == partners(self.splits@, np as nat, i as int),
            decreases self.splits@.len() - i,
        {
            let (a, b) = self.splits[i];
            assert(self.splits@[i as int].0 <= i && self.splits@[i as int].1 == i + 1);
            links.set(a as usize, Some(b));
            links.set(b as usize, Some(a));
            i = i + 1;
        }
        links
    }
}

/// The mosaic of a finished division: strays absorbed, none calved, empty plates
/// dropped.
pub open spec fn settled(g: CellGraph, s: Sheet) -> Sheet {
    compacted(
        swept_times(g, s, usize::MAX as nat, MAX_PLATES as nat, MAX_SWEEPS as nat),
    )
}

impl Mosaic {
    /// Whether the planet has still to be divided into plates.
    pub fn needs_partition(&self) -> (b: bool)
        ensures
            b == (self@.plates.len() == 0 || !self@.covered()),
    {
        let np = self.plates.len();
        if np == 0 {
            return true;
        }
        let mut c: usize = 0;
        while c < self.plate_id.len()
            invariant
                c <= self.plate_id@.len(),
                np == self@.plates.len(),
                forall|d: int| 0 <= d < c ==> (#[trigger] self@.cell[d]) < np,
            decreases self.plate_id@.len() - c,
        {
            if self.plate_id[c] as usize >= np {
                assert(self@.cell[c as int] >= np);
                return true;
            }
            c = c + 1;
        }
        false
    }

    /// Takes over a finished division: every stray is absorbed, never calved, so that
    /// no plate is added, and plates left empty are dropped.
    pub fn settle(&mut self, g: &CellGraph)
        requires
            g.wf(),
            g.symmetric(),
            old(self)@.cell.len() == g.cells(),
            old(self)@.plates.len() <= u16::MAX,
        ensures
            final(self)@ == settled(*g, old(self)@),
    {
        proof {
            lemma_sweeps_len(g, self@, usize::MAX as nat, MAX_PLATES as nat, MAX_SWEEPS as nat);
        }
        let _ = self.enforce_contiguity(g, usize::MAX, MAX_PLATES);
        let _ = self.compact_plates();
    }
}

/// The areas of the plates before `p`, added up.
pub open spec fn sum_of_plates(area: Seq<u64>, label: Seq<u16>, p: int) -> nat
    decreases p,
{
    if p <= 0 {
        0
    } else {
        sum_of_plates(area, label, p - 1) + area_of(area, label, p - 1, label.len() as int)
    }
}

/// However the planet is cut, its plates together keep its whole area.
pub proof fn division_conserves_area(d: &Division)
    requires
        d.wf(),
    ensures
        sum_of_plates(d.area@, d.label@, d.plate_area@.len() as int) == total_area(
            d.area@,
            d.area@.len() as int,
        ),
{
    lemma_sum_is_total(
        d.area@,
        d.label@,
        d.plate_area@.len() as int,
        d.label@.len() as int,
    );
    lemma_sum_same(d.area@, d.label@, d.plate_area@.len() as int);
}

spec fn sum_upto(area: Seq<u64>, label: Seq<u16>, p: int, n: int) -> nat
    decreases p,
{
    if p <= 0 {
        0
    } else {
        sum_upto(area, label, p - 1, n) + area_of(area, label, p - 1, n)
    }
}

proof fn lemma_sum_same(area: Seq<u64>, label: Seq<u16>, p: int)
    ensures
        sum_upto(area, label, p, label.len() as int) == sum_of_plates(area, label, p),
    decreases p,
{
    if p > 0 {
        lemma_sum_same(area, label, p - 1);
    }
}

proof fn lemma_sum_is_total(area: Seq<u64>, label: Seq<u16>, np: int, n: int)
    requires
        0 <= n <= label.len(),
        0 <= np,
        forall|c: int| 0 <= c < label.len() ==> (#[trigger] label[c]) < np,
    ensures
        sum_upto(area, label, np, n) == total_area(area, n),
    decreases n,
{
    if n == 0 {
        lemma_sum_zero(area, label, np);
    } else {
        lemma_sum_is_total(area, label, np, n - 1);
        assert(label[n - 1] < np);
        lemma_sum_step(area, label, np, n);
    }
}

proof fn lemma_sum_zero(area: Seq<u64>, label: Seq<u16>, p: int)
    ensures
        sum_upto(area, label, p, 0) == 0,
    decreases p,
{
    if p > 0 {
        lemma_sum_zero(area, label, p - 1);
    }
}

proof fn lemma_sum_step(area: Seq<u64>, label: Seq<u16>, p: int, n: int)
    requires
        0 <= p,
        0 < n <= label.len(),
    ensures
        sum_upto(area, label, p, n) == sum_upto(area, label, p, n - 1) + (if label[n - 1] < p {
            area[n - 1] as nat
        } else {
            0nat
        }),
    decreases p,
{
    if p > 0 {
        lemma_sum_step(area, label, p - 1, n);
    }
}

/// How many of `keys` lie below `v`.
pub open spec fn below(keys: Seq<i32>, v: i32, n: int) -> nat
    decreases n,
{
    if n <= 0 {
        0
    } else {
        below(keys, v, n - 1) + if keys[n - 1] < v {
            1nat
        } else {
            0nat
        }
    }
}

/// `t` stands at position `rank` among the sorted keys.
pub open spec fn has_rank(keys: Seq<i32>, rank: int, t: i32) -> bool {
    &&& keys.contains(t)
    &&& below(keys, t, keys.len() as int) <= rank
    &&& forall|v: i32|
        keys.contains(v) && v > t ==> #[trigger] below(keys, v, keys.len() as int) > rank
}

/// The key at position `rank` of the sorted keys.
pub fn key_at_rank(keys: &[i32], rank: usize) -> (t: i32)
    requires
        rank < keys@.len(),
        keys@.len() <= u32::MAX,
    ensures
        has_rank(keys@, rank as int, t),
{
    let n = keys.len();
    let mut cells: Vec<u32> = Vec::new();
    while cells.len() < n
        invariant
            cells@.len() <= n,
            n == keys@.len(),
            n <= u32::MAX,
            forall|c: int| 0 <= c < cells@.len() ==> #[trigger] cells@[c] == c,
        decreases n - cells@.len(),
    {
        let c: u32 = cells.len() as u32;
        cells.push(c);
    }
    let ghost all = cells@;
    let order = sort_cells(cells, keys, false);
    let t: i32 = keys[order[rank] as usize];
    proof {
        let s = order@;
        let r = rank as int;
        assert(keys@[s[r] as int] == t);
        lemma_below_is_prefix(keys@, s, t, n as int, r, all);
        assert forall|v: i32| keys@.contains(v) && v > t implies #[trigger] below(
            keys@,
            v,
            keys@.len() as int,
        ) > rank by {
            lemma_above_is_suffix(keys@, s, v, n as int, r, all);
        }
    }
    t
}

/// The first `k` cells of `s`.
spec fn among_first(s: Seq<u32>, k: int, c: int) -> bool {
    exists|i: int| 0 <= i < k && #[trigger] s[i] == c
}

/// How many of the cells before `n` are among the first `k` of `s`.
spec fn count_first(s: Seq<u32>, k: int, n: int) -> nat
    decreases n,
{
    if n <= 0 {
        0
    } else {
        count_first(s, k, n - 1) + if among_first(s, k, n - 1) {
            1nat
        } else {
            0nat
        }
    }
}

/// As many cells are among the first `k` as there are places.
proof fn lemma_count_first(s: Seq<u32>, k: int, n: int)
    requires
        0 <= k <= s.len(),
        0 <= n,
        forall|i: int, j: int| 0 <= i < j < s.len() ==> #[trigger] s[i] != #[trigger] s[j],
        forall|i: int| 0 <= i < s.len() ==> (#[trigger] s[i]) < n,
    ensures
        count_first(s, k, n) == k,
    decreases k,
{
    if k == 0 {
        lemma_count_first_zero(s, n);
    } else {
        lemma_count_first(s, k - 1, n);
        assert(s[k - 1] < n);
        assert(!among_first(s, k - 1, s[k - 1] as int)) by {
            if among_first(s, k - 1, s[k - 1] as int) {
                let i = choose|i: int| 0 <= i < k - 1 && #[trigger] s[i] == s[k - 1] as int;
                assert(s[i] != s[k - 1]);
            }
        }
        lemma_count_first_step(s, k, n);
    }
}

proof fn lemma_count_first_zero(s: Seq<u32>, n: int)
    ensures
        count_first(s, 0, n) == 0,
    decreases n,
{
    if n > 0 {
        lemma_count_first_zero(s, n - 1);
    }
}

proof fn lemma_count_first_step(s: Seq<u32>, k: int, n: int)
    requires
        0 < k <= s.len(),
        0 <= n,
        !among_first(s, k - 1, s[k - 1] as int),
    ensures
        count_first(s, k, n) == count_first(s, k - 1, n) + (if s[k - 1] < n {
            1nat
        } else {
            0nat
        }),
    decreases n,
{
    if n > 0 {
        lemma_count_first_step(s, k, n - 1);
        let c = n - 1;
        if among_first(s, k - 1, c) {
            let i = choose|i: int| 0 <= i < k - 1 && #[trigger] s[i] == c;
            assert(s[i] == c);
            assert(among_first(s, k, c));
        }
        if s[k - 1] == c {
            assert(among_first(s, k, c));
        }
        if among_first(s, k, c) {
            let i = choose|i: int| 0 <= i < k && #[trigger] s[i] == c;
            if i < k - 1 {
                assert(among_first(s, k - 1, c));
            }
        }
    }
}

/// Below the key at place `r` of the order lie at most the `r` cells before it.
proof fn lemma_below_is_prefix(
    keys: Seq<i32>,
    s: Seq<u32>,
    t: i32,
    n: int,
    r: int,
    all: Seq<u32>,
)
    requires
        n == keys.len() <= u32::MAX,
        all.len() == n,
        forall|c: int| 0 <= c < n ==> #[trigger] all[c] == c,
        same_cells(s, all),
        in_order(keys, false, s),
        keyed(keys, s),
        0 <= r < s.len(),
        keys[s[r] as int] == t,
    ensures
        below(keys, t, n) <= r,
{
    assert forall|i: int, j: int| 0 <= i < j < s.len() implies #[trigger] s[i] != #[trigger] s[j] by {
        assert(precedes(keys, false, s[i], s[j]));
    }
    lemma_count_first(s, r, n);
    assert forall|c: int| 0 <= c < n && #[trigger] keys[c] < t implies among_first(s, r, c) by {
        assert(all[c] == c);
        assert(all.contains(c as u32));
        assert(s.contains(c as u32));
        let i = choose|i: int| 0 <= i < s.len() && s[i] == c as u32;
        if i > r {
            assert(precedes(keys, false, s[r], s[i]));
        }
        assert(s[i] == c);
    }
    lemma_below_within(keys, t, s, r, n);
}

proof fn lemma_below_within(keys: Seq<i32>, t: i32, s: Seq<u32>, r: int, n: int)
    requires
        0 <= n <= keys.len(),
        forall|c: int| 0 <= c < n && #[trigger] keys[c] < t ==> among_first(s, r, c),
    ensures
        below(keys, t, n) <= count_first(s, r, n),
    decreases n,
{
    if n > 0 {
        lemma_below_within(keys, t, s, r, n - 1);
        if keys[n - 1] < t {
            assert(among_first(s, r, n - 1));
        }
    }
}

/// Below any larger key lie at least the first `r + 1` cells.
proof fn lemma_above_is_suffix(
    keys: Seq<i32>,
    s: Seq<u32>,
    v: i32,
    n: int,
    r: int,
    all: Seq<u32>,
)
    requires
        n == keys.len() <= u32::MAX,
        all.len() == n,
        forall|c: int| 0 <= c < n ==> #[trigger] all[c] == c,
        same_cells(s, all),
        in_order(keys, false, s),
        keyed(keys, s),
        0 <= r < s.len(),
        keys[s[r] as int] < v,
    ensures
        below(keys, v, n) > r,
{
    assert forall|i: int, j: int| 0 <= i < j < s.len() implies #[trigger] s[i] != #[trigger] s[j] by {
        assert(precedes(keys, false, s[i], s[j]));
    }
    lemma_count_first(s, r + 1, n);
    assert forall|c: int| 0 <= c < n && #[trigger] among_first(s, r + 1, c) implies keys[c] < v by {
        let i = choose|i: int| 0 <= i < r + 1 && #[trigger] s[i] == c;
        if i < r {
            assert(precedes(keys, false, s[i], s[r]));
        }
    }
    lemma_first_within(keys, v, s, r + 1, n);
}

proof fn lemma_first_within(keys: Seq<i32>, v: i32, s: Seq<u32>, k: int, n: int)
    requires
        0 <= n <= keys.len(),
        forall|c: int| 0 <= c < n && #[trigger] among_first(s, k, c) ==> keys[c] < v,
    ensures
        count_first(s, k, n) <= below(keys, v, n),
    decreases n,
{
    if n > 0 {
        lemma_first_within(keys, v, s, k, n - 1);
    }
}

/// `after` is `before` with every cell marked whose key is at least the one at position `rank`.
pub open spec fn marks_weak(
    before: Seq<u8>,
    keys: Seq<i32>,
    rank: int,
    after: Seq<u8>,
) -> bool {
    &&& after.len() == before.len()
    &&& exists|t: i32| #[trigger]
        has_rank(keys, rank, t) && forall|c: int|
            0 <= c < keys.len() ==> #[trigger] after[c] == (if keys[c] >= t {
                before[c] | SUTURE
            } else {
                before[c]
            })
}

/// Marks every cell whose key is at least the one at position `rank` as an old seam:
/// the web of inherited weakness that later rifts follow.
pub fn mark_weakness(flags: &mut Vec<u8>, keys: &[i32], rank: usize)
    requires
        keys@.len() == old(flags)@.len(),
        keys@.len() <= u32::MAX,
        rank < keys@.len(),
    ensures
        marks_weak(old(flags)@, keys@, rank as int, final(flags)@),
{
    let ghost before = flags@;
    let t = key_at_rank(keys, rank);
    let n = keys.len();
    let mut c: usize = 0;
    while c < n
        invariant
            c <= n,
            n == keys@.len(),
            n == flags@.len(),
            n == before.len(),
            forall|d: int| c <= d < n ==> #[trigger] flags@[d] == before[d],
            forall|d: int|
                0 <= d < c ==> #[trigger] flags@[d] == (if keys@[d] >= t {
                    before[d] | SUTURE
                } else {
                    before[d]
                }),
        decreases n - c,
    {
        if keys[c] >= t {
            let f: u8 = flags[c];
            flags.set(c, f | SUTURE);
        }
        c = c + 1;
    }
    assert(has_rank(keys@, rank as int, t));
}

/// The largest plate is cut, the youngest of equal ones, and cutting goes on exactly as long as it is larger than the limit
/// and there are fewer than 24 plates.
pub proof fn the_largest_plate_is_cut(areas: Seq<u64>, limit: u64, p: Option<u16>, q: int)
    requires
        is_to_split(areas, limit, p),
        0 <= q < areas.len(),
    ensures
        areas.len() < 24 && areas[q] > limit ==> p is Some,
        p matches Some(r) ==> areas.len() < 24 && r < areas.len() && areas[r as int] > limit
            && areas[q] <= areas[r as int] && (areas[q] == areas[r as int] ==> q <= r),
{
    assert(areas[q] <= limit || areas[q] > limit);
}

proof fn lemma_prefix(area: Seq<u64>, order: Seq<u32>, target: u64, n: int)
    requires
        0 <= n <= order.len(),
    ensures
        0 <= prefix_len(area, order, target, n) <= n,
        prefix_len(area, order, target, n) == n || area_of_first(
            area,
            order,
            prefix_len(area, order, target, n),
        ) >= target,
        prefix_len(area, order, target, n) > 0 ==> area_of_first(
            area,
            order,
            prefix_len(area, order, target, n) - 1,
        ) < target,
    decreases n,
{
    if n > 0 {
        lemma_prefix(area, order, target, n - 1);
    }
}

/// A cut takes one side of a plate: the cells that leave all come before those that stay, by
/// their score and then by their number; nothing of another plate moves; at least `target` area
/// leaves, and without the last cell that leaves it would be less; something stays. A plate of
/// fewer than four cells is not cut.
pub proof fn a_cut_takes_one_side(
    area: Seq<u64>,
    label: Seq<u16>,
    score: Seq<i32>,
    p: u16,
    target: u64,
    child: u16,
    order: Seq<u32>,
)
    requires
        area.len() == label.len() <= u32::MAX,
        is_cut_order(label, score, p, order),
        area_of(area, label, p as int, label.len() as int) <= u64::MAX,
        can_cut(
            area,
            label,
            score,
            p,
            target,
            area_of(area, label, p as int, label.len() as int) as u64,
        ),
        child != p,
        forall|c: int| 0 <= c < label.len() ==> #[trigger] label[c] != child,
    ensures
        ({
            let now = cut(area, label, score, p, target, child);
            let n = label.len() as int;
            &&& order.len() >= 4
            &&& now.len() == n
            &&& forall|a: int, b: int|
                0 <= a < n && 0 <= b < n && #[trigger] now[a] == child && label[b] == p
                    && #[trigger] now[b] == p ==> score[a] < score[b] || (score[a] == score[b] && a
                    < b)
            &&& forall|c: int| 0 <= c < n && label[c] != p ==> #[trigger] now[c] == label[c]
            &&& forall|c: int|
                0 <= c < n && label[c] == p ==> #[trigger] now[c] == p || now[c] == child
            &&& area_of(area, now, child as int, n) >= target
            &&& area_of(area, now, child as int, n) > 0
            &&& area_of(area, now, p as int, n) > 0
            &&& exists|x: int|
                0 <= x < n && #[trigger] now[x] == child && area_of(area, now, child as int, n)
                    - area[x] < target
        }),
{
    let n = label.len() as int;
    let now = cut(area, label, score, p, target, child);
    lemma_order_unique(label, score, p, order, cut_order(label, score, p));
    let k = cut_len(area, label, score, p, target);
    lemma_prefix(area, order, target, order.len() as int);
    lemma_cut_areas(area, label, score, p, child, order, k);
    assert(now =~= set_apart(label, order, k, child));
    if k == order.len() {
        lemma_cut_areas(area, label, score, p, child, order, k);
        assert forall|c: int| 0 <= c < n implies #[trigger] now[c] != p by {
            if label[c] == p {
                assert(order.contains(c as u32));
                assert(order.take(k) =~= order);
            }
        }
        lemma_area_absent(area, now, p as int, n);
    }
    assert forall|a: int, b: int|
        0 <= a < n && 0 <= b < n && #[trigger] now[a] == child && label[b] == p && #[trigger] now[b]
            == p implies score[a] < score[b] || (score[a] == score[b] && a < b) by {
        assert(label[a] != child);
        let first = order.take(k);
        assert(first.contains(a as u32));
        let i = choose|i: int| 0 <= i < first.len() && first[i] == a as u32;
        assert(order.contains(b as u32));
        let j = choose|j: int| 0 <= j < order.len() && order[j] == b as u32;
        if j < k {
            assert(first[j] == b as u32);
        }
        assert(order[i] == a as u32);
        assert(precedes(score, false, order[i], order[j]));
    }
    assert forall|c: int| 0 <= c < n && label[c] != p implies #[trigger] now[c] == label[c] by {
        let first = order.take(k);
        if first.contains(c as u32) {
            let i = choose|i: int| 0 <= i < first.len() && first[i] == c as u32;
            assert(label[order[i] as int] == p);
        }
    }
    assert(k > 0);
    let x = order[k - 1] as int;
    assert(order[k - 1] < label.len());
    assert(order.take(k)[k - 1] == order[k - 1]);
    assert(order.take(k).contains(x as u32));
    assert(now[x] == child);
}

/// Links name the freshest boundary: a plate's partner is the one on the other side of the last
/// split that it took part in, and a plate that took part in none has no partner.
pub proof fn partners_parted_last(splits: Seq<(u16, u16)>, np: nat, n: int, p: int)
    requires
        0 <= n <= splits.len(),
        forall|i: int|
            0 <= i < splits.len() ==> (#[trigger] splits[i]).0 < np && splits[i].1 < np
                && splits[i].0 != splits[i].1,
        0 <= p < np,
    ensures
        partners(splits, np, n).len() == np,
        match partners(splits, np, n)[p] {
            None => forall|i: int|
                0 <= i < n ==> (#[trigger] splits[i]).0 != p && splits[i].1 != p,
            Some(q) => exists|i: int|
                0 <= i < n && (#[trigger] splits[i] == (p as u16, q) || splits[i] == (q, p as u16))
                    && forall|j: int|
                    i < j < n ==> (#[trigger] splits[j]).0 != p && splits[j].1 != p,
        },
    decreases n,
{
    if n > 0 {
        partners_parted_last(splits, np, n - 1, p);
        let (a, b) = splits[n - 1];
        assert(splits[n - 1].0 < np);
        let was = partners(splits, np, n - 1);
        if a == p {
            assert(splits[n - 1] == (p as u16, b));
        } else if b == p {
            assert(splits[n - 1] == (a, p as u16));
        } else if was[p] is Some {
            let q = was[p]->0;
            let i = choose|i: int|
                0 <= i < n - 1 && (#[trigger] splits[i] == (p as u16, q) || splits[i] == (
                    q,
                    p as u16,
                )) && forall|j: int|
                    i < j < n - 1 ==> (#[trigger] splits[j]).0 != p && splits[j].1 != p;
            assert(splits[i] == (p as u16, q) || splits[i] == (q, p as u16));
        }
    }
}

/// Taking over a division makes no new plate: strays are absorbed, however large they are. Every
/// cell is still on a plate, and every plate has a cell.
pub proof fn settling_makes_no_plate(g: &CellGraph, s: Sheet)
    requires
        g.wf(),
        g.symmetric(),
        g.cells() > 0,
        s.cell.len() == g.cells(),
        s.plates.len() <= u16::MAX,
        s.covered(),
    ensures
        settled(*g, s).plates.len() <= s.plates.len(),
        settled(*g, s).covered(),
        crate::renumber::all_in_use(settled(*g, s)),
{
    let (max, sweeps) = (MAX_PLATES as nat, MAX_SWEEPS as nat);
    let t = swept_times(*g, s, usize::MAX as nat, max, sweeps);
    crate::topology::sweeping_keeps_the_mosaic_covered(g, s, usize::MAX as nat, max, sweeps);
    crate::topology::nothing_calves_below_the_limit(g, s, usize::MAX as nat, max, sweeps);
    crate::renumber::compaction_keeps_the_partition(t, 0, 0);
    crate::renumber::lemma_kept_len(t, t.plates.len() as int);
    crate::renumber::lemma_rank_bound(t.cell, t.plates.len() as int);
}

proof fn lemma_below_counts(keys: Seq<i32>, v: i32, n: int)
    requires
        0 <= n,
    ensures
        Set::new(|c: int| 0 <= c < n && keys[c] < v).finite(),
        below(keys, v, n) == Set::new(|c: int| 0 <= c < n && keys[c] < v).len(),
    decreases n,
{
    let now = Set::new(|c: int| 0 <= c < n && keys[c] < v);
    if n > 0 {
        lemma_below_counts(keys, v, n - 1);
        let was = Set::new(|c: int| 0 <= c < n - 1 && keys[c] < v);
        if keys[n - 1] < v {
            assert(now =~= was.insert(n - 1));
        } else {
            assert(now =~= was);
        }
    } else {
        assert(now =~= Set::empty());
    }
}

/// The key at a rank has at most that many keys below it, and any larger key has more below it
/// than the rank.
pub proof fn a_rank_counts_the_keys_below(keys: Seq<i32>, rank: int, t: i32, v: i32)
    requires
        has_rank(keys, rank, t),
        keys.contains(v),
    ensures
        keys.contains(t),
        Set::new(|c: int| 0 <= c < keys.len() && keys[c] < t).len() <= rank,
        v > t ==> Set::new(|c: int| 0 <= c < keys.len() && keys[c] < v).len() > rank,
{
    lemma_below_counts(keys, t, keys.len() as int);
    lemma_below_counts(keys, v, keys.len() as int);
}

/// The weakest cells are marked as old seams, and lose no other mark: a cell at least as weak as
/// a marked one is marked too, every other keeps its marks, and the cells that stay unmarked are
/// no more than the rank.
pub proof fn the_weakest_cells_are_marked(
    before: Seq<u8>,
    keys: Seq<i32>,
    rank: int,
    after: Seq<u8>,
)
    requires
        keys.len() == before.len(),
        marks_weak(before, keys, rank, after),
    ensures
        exists|t: i32|
            keys.contains(t) && #[trigger] below(keys, t, keys.len() as int) <= rank && Set::new(
                |c: int| 0 <= c < keys.len() && keys[c] < t,
            ).len() <= rank && forall|c: int|
                0 <= c < keys.len() ==> #[trigger] after[c] == (if keys[c] >= t {
                    before[c] | 64
                } else {
                    before[c]
                }),
{
    let t = choose|t: i32| #[trigger]
        has_rank(keys, rank, t) && forall|c: int|
            0 <= c < keys.len() ==> #[trigger] after[c] == (if keys[c] >= t {
                before[c] | SUTURE
            } else {
                before[c]
            });
    lemma_below_counts(keys, t, keys.len() as int);
    assert(below(keys, t, keys.len() as int) <= rank);
}

} // verus!
