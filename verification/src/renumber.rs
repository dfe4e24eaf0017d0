//! Folding slivers into their neighbours, and dropping plates that are left
//! without cells.

use vstd::prelude::*;
use crate::contact::{most_touched, most_touched_by_plate};
use crate::flood::{cells_of, count_eq, lemma_count_bound, lemma_count_positive, lemma_count_push};
use crate::graph::CellGraph;
use crate::plate::{Mosaic, Plate, Sheet};

verus! {

/// Some cell belongs to plate `p`.
pub open spec fn in_use(cell: Seq<u16>, p: int) -> bool {
    exists|c: int| 0 <= c < cell.len() && #[trigger] cell[c] == p
}

/// How many of the plates before `p` are in use.
pub open spec fn rank(cell: Seq<u16>, p: int) -> nat
    decreases p,
{
    if p <= 0 {
        0
    } else {
        rank(cell, p - 1) + if in_use(cell, p - 1) {
            1nat
        } else {
            0nat
        }
    }
}

/// A link to a plate, after renumbering: it follows the plate, and goes with it.
pub open spec fn relinked(cell: Seq<u16>, np: nat, link: Option<u16>) -> Option<u16> {
    match link {
        Some(w) => if w < np && in_use(cell, w as int) {
            Some(rank(cell, w as int) as u16)
        } else {
            None
        },
        None => None,
    }
}

/// A plate with both of its links renumbered.
pub open spec fn relinked_plate(cell: Seq<u16>, np: nat, p: Plate) -> Plate {
    Plate {
        welded_to: relinked(cell, np, p.welded_to),
        rift_partner: relinked(cell, np, p.rift_partner),
        ..p
    }
}

/// Those of the first `p` plates that are in use, links renumbered.
pub open spec fn kept_plates(s: Sheet, p: int) -> Seq<Plate>
    decreases p,
{
    if p <= 0 {
        Seq::empty()
    } else if in_use(s.cell, p - 1) {
        kept_plates(s, p - 1).push(relinked_plate(s.cell, s.plates.len(), s.plates[p - 1]))
    } else {
        kept_plates(s, p - 1)
    }
}

/// Every plate has a cell.
pub open spec fn all_in_use(s: Sheet) -> bool {
    forall|p: int| 0 <= p < s.plates.len() ==> #[trigger] in_use(s.cell, p)
}

/// The mosaic without its empty plates, the others renumbered in order.
pub open spec fn compacted(s: Sheet) -> Sheet {
    if all_in_use(s) {
        s
    } else {
        Sheet {
            cell: Seq::new(
                s.cell.len(),
                |c: int|
                    if s.cell[c] < s.plates.len() {
                        rank(s.cell, s.cell[c] as int) as u16
                    } else {
                        s.cell[c]
                    },
            ),
            plates: kept_plates(s, s.plates.len() as int),
        }
    }
}

pub proof fn lemma_rank_bound(cell: Seq<u16>, p: int)
    requires
        0 <= p,
    ensures
        rank(cell, p) <= p,
    decreases p,
{
    if p > 0 {
        lemma_rank_bound(cell, p - 1);
    }
}

pub proof fn lemma_rank_mono(cell: Seq<u16>, a: int, b: int)
    requires
        0 <= a <= b,
    ensures
        rank(cell, a) <= rank(cell, b),
        a < b && in_use(cell, a) ==> rank(cell, a) < rank(cell, b),
    decreases b - a,
{
    if a < b {
        lemma_rank_mono(cell, a + 1, b);
    }
}

pub proof fn lemma_kept_len(s: Sheet, p: int)
    requires
        0 <= p,
    ensures
        kept_plates(s, p).len() == rank(s.cell, p),
    decreases p,
{
    if p > 0 {
        lemma_kept_len(s, p - 1);
    }
}

pub proof fn lemma_kept_at(s: Sheet, p: int, n: int)
    requires
        0 <= p < n,
        in_use(s.cell, p),
    ensures
        rank(s.cell, p) < kept_plates(s, n).len(),
        kept_plates(s, n)[rank(s.cell, p) as int] == relinked_plate(
            s.cell,
            s.plates.len(),
            s.plates[p],
        ),
    decreases n,
{
    lemma_kept_len(s, n);
    lemma_kept_len(s, n - 1);
    if p < n - 1 {
        lemma_kept_at(s, p, n - 1);
    }
}

/// The cells of plate `from` handed to plate `to`.
pub open spec fn handed(cell: Seq<u16>, from: u16, to: u16) -> Seq<u16> {
    Seq::new(
        cell.len(),
        |c: int|
            if cell[c] == from {
                to
            } else {
                cell[c]
            },
    )
}

/// The cells after the first `p` of `np` plates have been looked at: one with
/// fewer than `min_cells` cells joins the plate it touches most.
pub open spec fn absorbed(
    g: CellGraph,
    cell: Seq<u16>,
    np: nat,
    min_cells: nat,
    p: int,
) -> Seq<u16>
    decreases p,
{
    if p <= 0 {
        cell
    } else {
        let now = absorbed(g, cell, np, min_cells, p - 1);
        let q = (p - 1) as u16;
        let to = most_touched(g, now, cells_of(now, q), q);
        if 0 < count_eq(now, q) < min_cells && to < np {
            handed(now, q, to)
        } else {
            now
        }
    }
}

proof fn lemma_handed_counts(cell: Seq<u16>, from: u16, to: u16, v: u16)
    requires
        from != to,
    ensures
        count_eq(handed(cell, from, to), v) == if v == from {
            0nat
        } else if v == to {
            count_eq(cell, from) + count_eq(cell, to)
        } else {
            count_eq(cell, v)
        },
    decreases cell.len(),
{
    let h = handed(cell, from, to);
    if cell.len() > 0 {
        lemma_handed_counts(cell.drop_last(), from, to, v);
        assert(h.drop_last() =~= handed(cell.drop_last(), from, to));
    }
}

proof fn lemma_absorbed_len(g: &CellGraph, cell: Seq<u16>, np: nat, min_cells: nat, p: int)
    ensures
        absorbed(*g, cell, np, min_cells, p).len() == cell.len(),
    decreases p,
{
    if p > 0 {
        lemma_absorbed_len(g, cell, np, min_cells, p - 1);
    }
}

/// Plate `p` stands in `kept` at its rank.
spec fn survives(s: Sheet, kept: Seq<Plate>, p: int) -> bool {
    &&& rank(s.cell, p) < kept.len()
    &&& kept[rank(s.cell, p) as int] == s.plates[p]
}

impl Mosaic {
    /// Which plates have a cell.
    fn plates_in_use(&self) -> (used: Vec<bool>)
        ensures
            used@.len() == self@.plates.len(),
            forall|p: int| 0 <= p < used@.len() ==> #[trigger] used@[p] == in_use(self@.cell, p),
    {
        let np = self.plates.len();
        let mut used: Vec<bool> = Vec::new();
        while used.len() < np
            invariant
                used@.len() <= np,
                forall|p: int| 0 <= p < used@.len() ==> !used@[p],
            decreases np - used@.len(),
        {
            used.push(false);
        }
        let mut c: usize = 0;
        while c < self.plate_id.len()
            invariant
                c <= self.plate_id@.len(),
                used@.len() == np,
                forall|p: int|
                    0 <= p < np ==> #[trigger] used@[p] == exists|d: int|
                        0 <= d < c && #[trigger] self.plate_id@[d] == p,
            decreases self.plate_id@.len() - c,
        {
            let p = self.plate_id[c] as usize;
            let ghost used0 = used@;
            if p < np {
                used.set(p, true);
            }
            proof {
                assert forall|q: int| 0 <= q < np implies #[trigger] used@[q] == exists|d: int|
                    0 <= d < c + 1 && #[trigger] self.plate_id@[d] == q by {
                    if used@[q] {
                        if q == p {
                            assert(self.plate_id@[c as int] == q);
                        } else {
                            assert(used0[q]);
                            let d = choose|d: int| 0 <= d < c && #[trigger] self.plate_id@[d] == q;
                            assert(self.plate_id@[d] == q);
                        }
                    }
                }
            }
            c = c + 1;
        }
        used
    }

    /// Drops plates with no cells and renumbers the others, in order. Links to a
    /// dropped plate are cleared. Returns whether anything changed.
    pub fn compact_plates(&mut self) -> (changed: bool)
        requires
            old(self)@.plates.len() <= u16::MAX,
        ensures
            final(self)@ == compacted(old(self)@),
            changed == !all_in_use(old(self)@),
    {
        let ghost s = self@;
        let np = self.plates.len();
        let used = self.plates_in_use();
        let mut remap: Vec<u16> = Vec::new();
        let mut kept: Vec<Plate> = Vec::new();
        let mut all = true;
        let mut i: usize = 0;
        while i < np
            invariant
                i <= np,
                np == s.plates.len(),
                np <= u16::MAX,
                self@ == s,
                used@.len() == np,
                forall|p: int| 0 <= p < np ==> #[trigger] used@[p] == in_use(s.cell, p),
                all == forall|p: int| 0 <= p < i ==> #[trigger] in_use(s.cell, p),
                remap@.len() == i,
                forall|p: int|
                    0 <= p < i ==> #[trigger] remap@[p] == (if in_use(s.cell, p) {
                        rank(s.cell, p) as u16
                    } else {
                        u16::MAX
                    }),
                kept@.len() == rank(s.cell, i as int),
                kept@.len() <= i,
                forall|p: int|
                    0 <= p < i && in_use(s.cell, p) ==> #[trigger] survives(s, kept@, p),
            decreases np - i,
        {
            let ghost kept0 = kept@;
            proof {
                assert(used@[i as int] == in_use(s.cell, i as int));
            }
            if used[i] {
                remap.push(kept.len() as u16);
                kept.push(self.plates[i]);
            } else {
                remap.push(u16::MAX);
                all = false;
                assert(!in_use(s.cell, i as int));
            }
            i = i + 1;
            proof {
                assert forall|p: int| 0 <= p < i && in_use(s.cell, p) implies #[trigger] survives(
                    s,
                    kept@,
                    p,
                ) by {
                    if p < i - 1 {
                        assert(survives(s, kept0, p));
                    }
                }
            }
        }
        if all {
            return false;
        }
        let ghost survivors = kept@;
        let mut j: usize = 0;
        proof {
            lemma_kept_len(s, np as int);
        }
        while j < kept.len()
            invariant
                j <= kept@.len(),
                np == s.plates.len(),
                np <= u16::MAX,
                survivors.len() == kept@.len(),
                remap@.len() == np,
                forall|p: int|
                    0 <= p < np ==> #[trigger] remap@[p] == (if in_use(s.cell, p) {
                        rank(s.cell, p) as u16
                    } else {
                        u16::MAX
                    }),
                forall|k: int| j <= k < kept@.len() ==> kept@[k] == survivors[k],
                forall|k: int|
                    0 <= k < j ==> #[trigger] kept@[k] == relinked_plate(
                        s.cell,
                        np as nat,
                        survivors[k],
                    ),
            decreases kept@.len() - j,
        {
            let mut p: Plate = kept[j];
            p.welded_to = follow(&remap, p.welded_to, Ghost(s));
            p.rift_partner = follow(&remap, p.rift_partner, Ghost(s));
            kept.set(j, p);
            j = j + 1;
        }
        let mut c: usize = 0;
        while c < self.plate_id.len()
            invariant
                c <= self.plate_id@.len(),
                np == s.plates.len(),
                np <= u16::MAX,
                self.plate_id@.len() == s.cell.len(),
                self.plates@ == s.plates,
                remap@.len() == np,
                forall|p: int|
                    0 <= p < np ==> #[trigger] remap@[p] == (if in_use(s.cell, p) {
                        rank(s.cell, p) as u16
                    } else {
                        u16::MAX
                    }),
                forall|d: int| c <= d < s.cell.len() ==> #[trigger] self.plate_id@[d] == s.cell[d],
                forall|d: int|
                    0 <= d < c ==> #[trigger] self.plate_id@[d] == (if s.cell[d] < np {
                        rank(s.cell, s.cell[d] as int) as u16
                    } else {
                        s.cell[d]
                    }),
            decreases self.plate_id@.len() - c,
        {
            let p = self.plate_id[c] as usize;
            if p < np {
                assert(in_use(s.cell, p as int)) by {
                    assert(s.cell[c as int] == p as int);
                }
                self.plate_id.set(c, remap[p]);
            }
            c = c + 1;
        }
        self.plates = kept;
        proof {
            assert(self.plate_id@ =~= compacted(s).cell);
            assert(self.plates@ =~= compacted(s).plates) by {
                assert forall|k: int| 0 <= k < self.plates@.len() implies self.plates@[k]
                    == kept_plates(s, np as int)[k] by {
                    lemma_rank_hit(s.cell, k, np as int);
                    let p = choose|p: int|
                        0 <= p < np && #[trigger] in_use(s.cell, p) && rank(s.cell, p) == k;
                    lemma_kept_at(s, p, np as int);
                    assert(survives(s, survivors, p));
                }
            }
        }
        true
    }

    /// Folds plates smaller than `min_cells` into whichever neighbour they touch
    /// most. Returns whether anything changed.
    pub fn absorb_tiny_plates(&mut self, g: &CellGraph, min_cells: usize) -> (changed: bool)
        requires
            g.wf(),
            old(self)@.cell.len() == g.cells(),
            old(self)@.plates.len() <= u16::MAX,
        ensures
            final(self)@.plates == old(self)@.plates,
            final(self)@.cell == (if old(self)@.plates.len() <= 2 {
                old(self)@.cell
            } else {
                absorbed(
                    *g,
                    old(self)@.cell,
                    old(self)@.plates.len(),
                    min_cells as nat,
                    old(self)@.plates.len() as int,
                )
            }),
            changed == (final(self)@.cell != old(self)@.cell),
    {
        let ghost s = self@;
        let np = self.plates.len();
        if np <= 2 {
            return false;
        }
        let n = g.n_cells();
        let mut count: Vec<usize> = Vec::new();
        while count.len() < np
            invariant
                count@.len() <= np,
                forall|p: int| 0 <= p < count@.len() ==> count@[p] == 0,
            decreases np - count@.len(),
        {
            count.push(0);
        }
        let mut c: usize = 0;
        assert(s.cell.take(0) =~= Seq::<u16>::empty());
        while c < n
            invariant
                c <= n,
                n == s.cell.len(),
                self@ == s,
                count@.len() == np,
                np <= u16::MAX,
                forall|p: int|
                    0 <= p < np ==> #[trigger] count@[p] == count_eq(
                        s.cell.take(c as int),
                        p as u16,
                    ),
            decreases n - c,
        {
            let p = self.plate_id[c] as usize;
            let ghost count0 = count@;
            if p < np {
                proof {
                    lemma_count_bound(s.cell.take(c as int), p as u16);
                }
                count.set(p, count[p] + 1);
            }
            proof {
                assert(s.cell.take(c + 1) =~= s.cell.take(c as int).push(s.cell[c as int]));
                assert forall|q: int| 0 <= q < np implies #[trigger] count@[q] == count_eq(
                    s.cell.take(c + 1),
                    q as u16,
                ) by {
                    lemma_count_push(s.cell.take(c as int), s.cell[c as int], q as u16);
                    assert(count0[q] == count_eq(s.cell.take(c as int), q as u16));
                }
            }
            c = c + 1;
        }
        assert(s.cell.take(n as int) =~= s.cell);
        let mut changed = false;
        let mut p: usize = 0;
        while p < np
            invariant
                p <= np,
                s == old(self)@,
                np == s.plates.len(),
                2 < np <= u16::MAX,
                n == g.cells(),
                n == s.cell.len(),
                g.wf(),
                self.plates@ == s.plates,
                self.plate_id@.len() == n,
                self.plate_id@ == absorbed(*g, s.cell, np as nat, min_cells as nat, p as int),
                count@.len() == np,
                forall|q: int|
                    0 <= q < np ==> #[trigger] count@[q] == count_eq(self.plate_id@, q as u16),
                !changed ==> self.plate_id@ == s.cell,
                changed ==> exists|q: int|
                    0 <= q < p && count_eq(s.cell, q as u16) > 0 && #[trigger] count@[q] == 0,
            decreases np - p,
        {
            let ghost now = self.plate_id@;
            let ghost q = p as u16;
            let ghost count0 = count@;
            if count[p] == 0 || count[p] >= min_cells {
                p = p + 1;
                continue;
            }
            let own = p as u16;
            let pick = most_touched_by_plate(g, self.plate_id.as_slice(), own);
            if pick as usize >= np {
                p = p + 1;
                continue;
            }
            proof {
                crate::topology::lemma_most_touched(g, now, cells_of(now, own), own);
                assert(pick != own);
                assert(count0[p as int] == count_eq(now, own));
                assert(count0[pick as int] == count_eq(now, pick));
                lemma_counts_fit(now, own, pick);
            }
            let mut c: usize = 0;
            while c < n
                invariant
                    c <= n,
                    n == now.len(),
                    self.plate_id@.len() == n,
                    self.plates@ == s.plates,
                    forall|d: int| c <= d < n ==> #[trigger] self.plate_id@[d] == now[d],
                    forall|d: int|
                        0 <= d < c ==> #[trigger] self.plate_id@[d] == handed(now, own, pick)[d],
                decreases n - c,
            {
                if self.plate_id[c] == own {
                    self.plate_id.set(c, pick);
                }
                c = c + 1;
            }
            assert(self.plate_id@ =~= handed(now, own, pick));
            let folded: usize = count[p];
            let held: usize = count[pick as usize];
            count.set(pick as usize, held + folded);
            count.set(p, 0);
            proof {
                assert forall|r: int| 0 <= r < np implies #[trigger] count@[r] == count_eq(
                    self.plate_id@,
                    r as u16,
                ) by {
                    lemma_handed_counts(now, own, pick, r as u16);
                    assert(count0[r] == count_eq(now, r as u16));
                }
                lemma_first_folded(g, s.cell, np as nat, min_cells as nat, p as int, own);
                if changed {
                    let r = choose|r: int|
                        0 <= r < p && count_eq(s.cell, r as u16) > 0 && #[trigger] count0[r] == 0;
                    if r != pick {
                        assert(count@[r] == 0);
                    } else {
                        lemma_most_touched_counts(g, now, own);
                    }
                }
                assert(count@[p as int] == 0);
            }
            changed = true;
            p = p + 1;
        }
        proof {
            if changed {
                let q = choose|q: int|
                    0 <= q < np && count_eq(s.cell, q as u16) > 0 && #[trigger] count@[q] == 0;
                assert(count_eq(self.plate_id@, q as u16) == 0);
            }
        }
        changed
    }
}

/// The plate that a link leads to after renumbering.
fn follow(remap: &Vec<u16>, link: Option<u16>, Ghost(s): Ghost<Sheet>) -> (to: Option<u16>)
    requires
        remap@.len() == s.plates.len(),
        s.plates.len() <= u16::MAX,
        forall|p: int|
            0 <= p < remap@.len() ==> #[trigger] remap@[p] == (if in_use(s.cell, p) {
                rank(s.cell, p) as u16
            } else {
                u16::MAX
            }),
    ensures
        to == relinked(s.cell, s.plates.len(), link),
{
    match link {
        Some(w) => {
            if (w as usize) < remap.len() {
                let r = remap[w as usize];
                proof {
                    lemma_rank_bound(s.cell, w as int);
                }
                if r != u16::MAX {
                    Some(r)
                } else {
                    None
                }
            } else {
                None
            }
        },
        None => None,
    }
}

proof fn lemma_rank_hit(cell: Seq<u16>, k: int, n: int)
    requires
        0 <= k < rank(cell, n),
    ensures
        exists|p: int| 0 <= p < n && #[trigger] in_use(cell, p) && rank(cell, p) == k,
    decreases n,
{
    if n > 0 {
        if k < rank(cell, n - 1) {
            lemma_rank_hit(cell, k, n - 1);
            let p = choose|p: int| 0 <= p < n - 1 && #[trigger] in_use(cell, p) && rank(cell, p)
                == k;
            assert(in_use(cell, p));
        } else {
            assert(in_use(cell, n - 1));
        }
    }
}

proof fn lemma_counts_fit(cell: Seq<u16>, a: u16, b: u16)
    requires
        a != b,
    ensures
        count_eq(cell, a) + count_eq(cell, b) <= cell.len(),
    decreases cell.len(),
{
    if cell.len() > 0 {
        lemma_counts_fit(cell.drop_last(), a, b);
    }
}

proof fn lemma_most_touched_counts(g: &CellGraph, cell: Seq<u16>, own: u16)
    requires
        g.wf(),
        cell.len() == g.cells(),
    ensures
        ({
            let r = most_touched(*g, cell, cells_of(cell, own), own);
            r != u16::MAX ==> count_eq(cell, r) > 0
        }),
{
    crate::topology::lemma_most_touched(g, cell, cells_of(cell, own), own);
    let r = most_touched(*g, cell, cells_of(cell, own), own);
    if r != u16::MAX {
        let c = choose|c: int| 0 <= c < cell.len() && #[trigger] cell[c] == r;
        lemma_count_positive(cell, r, c);
    }
}

/// A plate that is not reached yet still has the cells it started with.
proof fn lemma_first_folded(
    g: &CellGraph,
    cell: Seq<u16>,
    np: nat,
    min_cells: nat,
    p: int,
    own: u16,
)
    requires
        g.wf(),
        cell.len() == g.cells(),
        np <= u16::MAX,
        0 <= p <= own < np,
        count_eq(absorbed(*g, cell, np, min_cells, p), own) > 0,
    ensures
        count_eq(cell, own) > 0,
    decreases p,
{
    if p > 0 {
        let now = absorbed(*g, cell, np, min_cells, p - 1);
        lemma_absorbed_len(g, cell, np, min_cells, p - 1);
        let q = (p - 1) as u16;
        let to = most_touched(*g, now, cells_of(now, q), q);
        if 0 < count_eq(now, q) < min_cells && to < np {
            crate::topology::lemma_most_touched(g, now, cells_of(now, q), q);
            lemma_handed_counts(now, q, to, own);
            lemma_most_touched_counts(g, now, q);
        }
        lemma_first_folded(g, cell, np, min_cells, p - 1, own);
    }
}

/// Folding slivers in keeps every cell on one of the plates.
pub proof fn lemma_absorbed_covered(g: &CellGraph, cell: Seq<u16>, np: nat, min_cells: nat, p: int)
    requires
        forall|c: int| 0 <= c < cell.len() ==> (#[trigger] cell[c]) < np,
    ensures
        absorbed(*g, cell, np, min_cells, p).len() == cell.len(),
        forall|c: int|
            0 <= c < cell.len() ==> (#[trigger] absorbed(*g, cell, np, min_cells, p)[c]) < np,
    decreases p,
{
    if p > 0 {
        lemma_absorbed_covered(g, cell, np, min_cells, p - 1);
    }
}

/// Compaction leaves no empty plate, keeps a covered mosaic covered, and keeps
/// cells of different plates apart and in order.
pub proof fn compaction_keeps_the_partition(s: Sheet, a: int, b: int)
    requires
        s.covered(),
        s.plates.len() <= u16::MAX,
        0 <= a < s.cell.len(),
        0 <= b < s.cell.len(),
    ensures
        compacted(s).covered(),
        all_in_use(compacted(s)),
        s.cell[a] < s.cell[b] <==> compacted(s).cell[a] < compacted(s).cell[b],
{
    let t = compacted(s);
    let np = s.plates.len() as int;
    if !all_in_use(s) {
        lemma_kept_len(s, np);
        assert forall|c: int| 0 <= c < s.cell.len() implies (#[trigger] t.cell[c]) < t.plates.len()
            && t.cell[c] == rank(s.cell, s.cell[c] as int) by {
            assert(s.cell[c] < np);
            assert(in_use(s.cell, s.cell[c] as int));
            lemma_rank_mono(s.cell, s.cell[c] as int, np);
            lemma_rank_bound(s.cell, np);
        }
        assert forall|p: int| 0 <= p < t.plates.len() implies #[trigger] in_use(t.cell, p) by {
            lemma_rank_hit(s.cell, p, np);
            let q = choose|q: int| 0 <= q < np && #[trigger] in_use(s.cell, q) && rank(s.cell, q)
                == p;
            let c = choose|c: int| 0 <= c < s.cell.len() && #[trigger] s.cell[c] == q;
            assert(t.cell[c] == p);
        }
        assert(in_use(s.cell, s.cell[a] as int)) by {
            assert(s.cell[a] == s.cell[a] as int);
        }
        assert(in_use(s.cell, s.cell[b] as int)) by {
            assert(s.cell[b] == s.cell[b] as int);
        }
        assert(t.cell[a] == rank(s.cell, s.cell[a] as int));
        assert(t.cell[b] == rank(s.cell, s.cell[b] as int));
        if s.cell[a] < s.cell[b] {
            lemma_rank_mono(s.cell, s.cell[a] as int, s.cell[b] as int);
        } else {
            lemma_rank_mono(s.cell, s.cell[b] as int, s.cell[a] as int);
        }
    }
}

/// After compaction every link names a plate that exists.
pub proof fn compaction_leaves_no_dangling_link(s: Sheet, p: int)
    requires
        s.plates.len() <= u16::MAX,
        !all_in_use(s),
        0 <= p < compacted(s).plates.len(),
    ensures
        compacted(s).plates[p].welded_to matches Some(w) ==> w < compacted(s).plates.len(),
        compacted(s).plates[p].rift_partner matches Some(w) ==> w < compacted(s).plates.len(),
{
    let np = s.plates.len() as int;
    lemma_kept_len(s, np);
    lemma_rank_hit(s.cell, p, np);
    let q = choose|q: int| 0 <= q < np && #[trigger] in_use(s.cell, q) && rank(s.cell, q) == p;
    lemma_kept_at(s, q, np);
    lemma_rank_bound(s.cell, np);
    if let Some(w) = s.plates[q].welded_to {
        if w < np {
            lemma_rank_mono(s.cell, w as int, np);
        }
    }
    if let Some(w) = s.plates[q].rift_partner {
        if w < np {
            lemma_rank_mono(s.cell, w as int, np);
        }
    }
}

/// Plates that are large enough keep their cells while slivers are folded in, and cells of one
/// plate stay together.
pub proof fn lemma_absorbed_keeps(
    g: &CellGraph,
    cell: Seq<u16>,
    np: nat,
    min_cells: nat,
    p: int,
    big: u16,
)
    requires
        g.wf(),
        cell.len() == g.cells(),
        np <= u16::MAX,
        p <= np,
        count_eq(cell, big) >= min_cells,
    ensures
        absorbed(*g, cell, np, min_cells, p).len() == cell.len(),
        count_eq(absorbed(*g, cell, np, min_cells, p), big) >= min_cells,
        forall|c: int|
            0 <= c < cell.len() && cell[c] == big ==> #[trigger] absorbed(
                *g,
                cell,
                np,
                min_cells,
                p,
            )[c] == big,
    decreases p,
{
    if p > 0 {
        lemma_absorbed_keeps(g, cell, np, min_cells, p - 1, big);
        let now = absorbed(*g, cell, np, min_cells, p - 1);
        let q = (p - 1) as u16;
        let to = most_touched(*g, now, cells_of(now, q), q);
        if 0 < count_eq(now, q) < min_cells && to < np {
            assert(q != big);
            crate::topology::lemma_most_touched(g, now, cells_of(now, q), q);
            lemma_handed_counts(now, q, to, big);
        }
    }
}

/// Folding in never parts two cells of one plate.
pub proof fn lemma_absorbed_together(
    g: &CellGraph,
    cell: Seq<u16>,
    np: nat,
    min_cells: nat,
    p: int,
    a: int,
    b: int,
)
    requires
        0 <= a < cell.len(),
        0 <= b < cell.len(),
        cell[a] == cell[b],
    ensures
        absorbed(*g, cell, np, min_cells, p)[a] == absorbed(*g, cell, np, min_cells, p)[b],
    decreases p,
{
    if p > 0 {
        lemma_absorbed_together(g, cell, np, min_cells, p - 1, a, b);
        lemma_absorbed_len(g, cell, np, min_cells, p - 1);
    }
}

/// Compaction renumbers and drops, and changes nothing else: every cell's plate is the same
/// plate as before, with the same motion and history.
pub proof fn compaction_keeps_every_plate(s: Sheet, c: int)
    requires
        s.covered(),
        s.plates.len() <= u16::MAX,
        0 <= c < s.cell.len(),
    ensures
        ({
            let t = compacted(s);
            let (was, is) = (s.plates[s.cell[c] as int], t.plates[t.cell[c] as int]);
            &&& t.cell.len() == s.cell.len()
            &&& t.cell[c] < t.plates.len()
            &&& is.euler_pole == was.euler_pole
            &&& is.omega_rad_myr == was.omega_rad_myr
            &&& is.accum == was.accum
            &&& is.rift_born_myr == was.rift_born_myr
            &&& count_eq(t.cell, t.cell[c]) == count_eq(s.cell, s.cell[c])
        }),
{
    let t = compacted(s);
    let np = s.plates.len() as int;
    compaction_keeps_the_partition(s, c, c);
    assert(s.cell[c] < np);
    assert(in_use(s.cell, s.cell[c] as int)) by {
        assert(s.cell[c] == s.cell[c] as int);
    }
    if !all_in_use(s) {
        lemma_kept_at(s, s.cell[c] as int, np);
        lemma_rank_bound(s.cell, s.cell[c] as int);
    }
    assert forall|i: int| 0 <= i < t.cell.len() implies (#[trigger] t.cell[i] == t.cell[c]
        <==> s.cell[i] == s.cell[c]) by {
        compaction_keeps_the_partition(s, i, c);
        compaction_keeps_the_partition(s, c, i);
    }
    crate::flood::lemma_count_renamed(t.cell, s.cell, t.cell[c], s.cell[c]);
}

/// On a planet in one piece every plate that has been looked at is large enough, empty, or all
/// there is.
pub proof fn lemma_no_sliver_left(g: &CellGraph, cell: Seq<u16>, np: nat, min_cells: nat, p: int)
    requires
        g.wf(),
        g.symmetric(),
        crate::graph::whole(*g),
        cell.len() == g.cells(),
        np <= u16::MAX,
        0 <= p <= np,
        forall|c: int| 0 <= c < cell.len() ==> (#[trigger] cell[c]) < np,
    ensures
        ({
            let now = absorbed(*g, cell, np, min_cells, p);
            &&& now.len() == cell.len()
            &&& forall|c: int| 0 <= c < now.len() ==> (#[trigger] now[c]) < np
            &&& forall|q: u16|
                q < p ==> #[trigger] count_eq(now, q) == 0 || count_eq(now, q) >= min_cells
                    || forall|c: int| 0 <= c < now.len() ==> now[c] == q
        }),
    decreases p,
{
    lemma_absorbed_covered(g, cell, np, min_cells, p);
    if p > 0 {
        lemma_no_sliver_left(g, cell, np, min_cells, p - 1);
        let was = absorbed(*g, cell, np, min_cells, p - 1);
        let now = absorbed(*g, cell, np, min_cells, p);
        let own = (p - 1) as u16;
        let to = most_touched(*g, was, cells_of(was, own), own);
        crate::topology::lemma_most_touched(g, was, cells_of(was, own), own);
        assert forall|q: u16| q < p implies #[trigger] count_eq(now, q) == 0 || count_eq(now, q)
            >= min_cells || forall|c: int| 0 <= c < now.len() ==> now[c] == q by {
            if 0 < count_eq(was, own) < min_cells {
                if to < np {
                    lemma_handed_counts(was, own, to, q);
                    lemma_most_touched_counts(g, was, own);
                    if q != own && forall|c: int| 0 <= c < was.len() ==> was[c] == q {
                        crate::flood::lemma_count_absent(was, own);
                    }
                } else if q == own {
                    lemma_touches_nothing_is_all(g, was, own, np);
                }
            }
        }
    }
}

/// A plate that touches no other has every cell of a planet in one piece.
proof fn lemma_touches_nothing_is_all(g: &CellGraph, cell: Seq<u16>, own: u16, np: nat)
    requires
        g.wf(),
        g.symmetric(),
        crate::graph::whole(*g),
        cell.len() == g.cells(),
        forall|c: int| 0 <= c < cell.len() ==> (#[trigger] cell[c]) < np,
        count_eq(cell, own) > 0,
        most_touched(*g, cell, cells_of(cell, own), own) >= np,
    ensures
        forall|c: int| 0 <= c < cell.len() ==> cell[c] == own,
{
    let inside = cells_of(cell, own);
    let all = crate::graph::every_cell();
    if forall|c: int| 0 <= c < cell.len() ==> cell[c] != own {
        crate::flood::lemma_count_absent(cell, own);
    }
    let a = choose|a: int| 0 <= a < cell.len() && cell[a] == own;
    assert forall|c: int| 0 <= c < cell.len() implies cell[c] == own by {
        if cell[c] != own {
            assert(g.reaches(all, a, c));
            if forall|x: int, y: int|
                0 <= x < g.cells() && 0 <= y < g.cells() && inside(x) && all(y)
                    && #[trigger] g.adjacent(x, y) ==> inside(y) {
                crate::graph::lemma_closed_holds_reach(g, all, inside, a, c);
            }
            let (x, y) = choose|x: int, y: int|
                0 <= x < g.cells() && 0 <= y < g.cells() && inside(x) && all(y)
                    && #[trigger] g.adjacent(x, y) && !inside(y);
            crate::topology::lemma_neighbour_is_contact(g, cell, inside, x, y);
            crate::topology::lemma_most_touched(g, cell, inside, own);
            let r = most_touched(*g, cell, inside, own);
            let d = choose|d: int| 0 <= d < cell.len() && #[trigger] cell[d] == r;
            assert(cell[d] < np);
        }
    }
}

/// Compaction assigns nothing: a cell that is on no plate, by any number that no plate has, keeps
/// that number.
pub proof fn compaction_assigns_nothing(s: Sheet, c: int)
    requires
        0 <= c < s.cell.len(),
        s.cell[c] >= s.plates.len(),
    ensures
        compacted(s).cell[c] == s.cell[c],
{
}

} // verus!
