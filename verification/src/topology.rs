//! Plate bookkeeping on the cell graph: keeping plates in one piece, folding
//! slivers into their neighbours, and renumbering.
//!
//! Every routine goes by cell order and neighbour order, so nothing depends on
//! how a hash map is walked.

use vstd::prelude::*;
use crate::contact::{
    contacts, labelled, map_get, map_insert, map_new, most_touched, most_touched_by_label, slot_hits,
};
use crate::flood::{
    cells_of, component_labels, connected, count_eq, is_root, labels_are_components, lemma_connected_plate,
    lemma_connected_refl, lemma_count_bound, lemma_count_positive, lemma_count_push,
    lemma_root_exists, lemma_roots_before_bound, lemma_roots_before_mono, plate_components,
    root_of, roots_before,
};
use crate::graph::{every_cell, whole, CellGraph};
use crate::plate::{fragment_of, Mosaic, Plate, Sheet};

verus! {

/// Sweeps that [`Mosaic::enforce_contiguity`] makes at most: absorbing one stray
/// can connect another, and a few sweeps settle it.
pub const MAX_SWEEPS: u32 = 4;

/// Number of components of all plates together.
pub open spec fn n_components(g: CellGraph, cell: Seq<u16>) -> nat {
    roots_before(g, cell, g.cells())
}

/// Number of cells in each component.
pub open spec fn component_sizes(g: CellGraph, cell: Seq<u16>) -> Seq<nat> {
    Seq::new(
        n_components(g, cell),
        |k: int| count_eq(component_labels(g, cell), k as u32),
    )
}

/// The plate that each component belongs to.
pub open spec fn component_plates(g: CellGraph, cell: Seq<u16>) -> Seq<u16> {
    Seq::new(
        n_components(g, cell),
        |k: int|
            cell[choose|c: int|
                0 <= c < cell.len() && #[trigger] component_labels(g, cell)[c] == k as u32],
    )
}

/// Component `a` comes before `b`: it is larger, or as large with the lower id.
pub open spec fn outranks(size: Seq<nat>, a: int, b: int) -> bool {
    size[a] > size[b] || (size[a] == size[b] && a < b)
}

/// Component `k` is the one its plate keeps.
pub open spec fn is_kept(size: Seq<nat>, owner: Seq<u16>, k: int) -> bool {
    forall|j: int|
        0 <= j < size.len() && j != k && #[trigger] owner[j] == owner[k] ==> outranks(size, k, j)
}

/// `order` lists the components that their plates do not keep, largest first,
/// ties by id.
pub open spec fn is_stray_order(size: Seq<nat>, owner: Seq<u16>, order: Seq<u32>) -> bool {
    &&& forall|i: int, j: int|
        0 <= i < j < order.len() ==> outranks(
            size,
            #[trigger] order[i] as int,
            #[trigger] order[j] as int,
        )
    &&& forall|i: int|
        0 <= i < order.len() ==> (#[trigger] order[i]) < size.len() && !is_kept(
            size,
            owner,
            order[i] as int,
        )
    &&& forall|k: int|
        0 <= k < size.len() && !#[trigger] is_kept(size, owner, k) ==> order.contains(k as u32)
}

/// The components that their plates do not keep, in order.
pub open spec fn strays(size: Seq<nat>, owner: Seq<u16>) -> Seq<u32> {
    choose|order: Seq<u32>| is_stray_order(size, owner, order)
}

/// Where the first `i` strays go, and the plates by then: a stray of at least
/// `calve_min` cells becomes a plate of its own while there are fewer than
/// `max_plates`, any other joins the plate it touches most (`u16::MAX` where it
/// touches none).
pub open spec fn placed(
    g: CellGraph,
    cell: Seq<u16>,
    plates: Seq<Plate>,
    calve_min: nat,
    max_plates: nat,
    i: int,
) -> (Seq<Plate>, Seq<u16>)
    decreases i,
{
    let size = component_sizes(g, cell);
    let owner = component_plates(g, cell);
    if i <= 0 {
        (plates, Seq::new(size.len(), |k: int| u16::MAX))
    } else {
        let (now, target) = placed(g, cell, plates, calve_min, max_plates, i - 1);
        let k = strays(size, owner)[i - 1];
        if size[k as int] >= calve_min && now.len() < max_plates && owner[k as int] < now.len() {
            (
                now.push(fragment_of(now[owner[k as int] as int])),
                target.update(k as int, now.len() as u16),
            )
        } else {
            let labels = component_labels(g, cell);
            (
                now,
                target.update(
                    k as int,
                    most_touched(g, cell, labelled(labels, k), owner[k as int]),
                ),
            )
        }
    }
}

/// The mosaic after one sweep over its strays.
pub open spec fn swept(g: CellGraph, s: Sheet, calve_min: nat, max_plates: nat) -> Sheet {
    let labels = component_labels(g, s.cell);
    let order = strays(component_sizes(g, s.cell), component_plates(g, s.cell));
    let (plates, target) = placed(
        g,
        s.cell,
        s.plates,
        calve_min,
        max_plates,
        order.len() as int,
    );
    Sheet {
        cell: Seq::new(
            s.cell.len(),
            |c: int|
                if target[labels[c] as int] != u16::MAX {
                    target[labels[c] as int]
                } else {
                    s.cell[c]
                },
        ),
        plates,
    }
}

/// The mosaic after `n` sweeps.
pub open spec fn swept_times(
    g: CellGraph,
    s: Sheet,
    calve_min: nat,
    max_plates: nat,
    n: nat,
) -> Sheet
    decreases n,
{
    if n == 0 {
        s
    } else {
        swept_times(g, swept(g, s, calve_min, max_plates), calve_min, max_plates, (n - 1) as nat)
    }
}

/// Every cell's label is a component, and the component's plate is the cell's.
pub proof fn lemma_component_tables(g: &CellGraph, cell: Seq<u16>)
    requires
        g.wf(),
        g.symmetric(),
        cell.len() == g.cells(),
    ensures
        n_components(*g, cell) <= g.cells(),
        forall|c: int|
            0 <= c < cell.len() ==> {
                &&& (#[trigger] component_labels(*g, cell)[c]) < n_components(*g, cell)
                &&& component_plates(*g, cell)[component_labels(*g, cell)[c] as int] == cell[c]
            },
        forall|k: int|
            0 <= k < n_components(*g, cell) ==> (exists|c: int|
                0 <= c < cell.len() && #[trigger] component_labels(*g, cell)[c] == k as u32)
                && #[trigger] component_sizes(*g, cell)[k] > 0,
{
    let labels = component_labels(*g, cell);
    let n = g.cells();
    lemma_roots_before_bound(g, cell, n);
    assert forall|c: int| 0 <= c < cell.len() implies {
        &&& (#[trigger] labels[c]) < n_components(*g, cell)
        &&& component_plates(*g, cell)[labels[c] as int] == cell[c]
    } by {
        lemma_root_exists(g, cell, c);
        let r = root_of(*g, cell, c);
        lemma_roots_before_mono(g, cell, r, n);
        let k = labels[c] as int;
        let d = choose|d: int| 0 <= d < cell.len() && #[trigger] labels[d] == k as u32;
        assert(labels[c] == k as u32);
        labels_are_components(g, cell, d, c);
        lemma_connected_plate(g, cell, d, c);
    }
    assert forall|k: int| 0 <= k < n_components(*g, cell) implies (exists|c: int|
        0 <= c < cell.len() && #[trigger] labels[c] == k as u32) && #[trigger] component_sizes(
        *g,
        cell,
    )[k] > 0 by {
        lemma_component_has_root(g, cell, k, n);
        let r = choose|r: int|
            0 <= r < n && #[trigger] is_root(*g, cell, r) && roots_before(*g, cell, r) == k;
        lemma_connected_refl(g, cell, r);
        lemma_root_exists(g, cell, r);
        assert(labels[r] == k as u32);
        lemma_count_positive(labels, k as u32, r);
    }
}

proof fn lemma_component_has_root(g: &CellGraph, cell: Seq<u16>, k: int, c: int)
    requires
        0 <= c <= g.cells(),
        0 <= k < roots_before(*g, cell, c),
    ensures
        exists|r: int|
            0 <= r < c && #[trigger] is_root(*g, cell, r) && roots_before(*g, cell, r) == k,
    decreases c,
{
    if c > 0 {
        if k < roots_before(*g, cell, c - 1) {
            lemma_component_has_root(g, cell, k, c - 1);
            let r = choose|r: int|
                0 <= r < c - 1 && #[trigger] is_root(*g, cell, r) && roots_before(*g, cell, r) == k;
            assert(is_root(*g, cell, r));
        } else {
            assert(is_root(*g, cell, c - 1));
        }
    }
}

/// There is only one order of the strays.
pub proof fn lemma_stray_order_unique(
    size: Seq<nat>,
    owner: Seq<u16>,
    a: Seq<u32>,
    b: Seq<u32>,
)
    requires
        size.len() <= u32::MAX,
        is_stray_order(size, owner, a),
        is_stray_order(size, owner, b),
    ensures
        a == b,
{
    assert forall|i: int| 0 <= i < a.len() implies b.contains(#[trigger] a[i]) by {}
    assert forall|i: int| 0 <= i < b.len() implies a.contains(#[trigger] b[i]) by {}
    lemma_ranked_unique(size, a, b);
}

proof fn lemma_ranked_unique(size: Seq<nat>, a: Seq<u32>, b: Seq<u32>)
    requires
        forall|i: int, j: int|
            0 <= i < j < a.len() ==> outranks(
                size,
                #[trigger] a[i] as int,
                #[trigger] a[j] as int,
            ),
        forall|i: int, j: int|
            0 <= i < j < b.len() ==> outranks(
                size,
                #[trigger] b[i] as int,
                #[trigger] b[j] as int,
            ),
        forall|i: int| 0 <= i < a.len() ==> b.contains(#[trigger] a[i]),
        forall|i: int| 0 <= i < b.len() ==> a.contains(#[trigger] b[i]),
    ensures
        a == b,
    decreases a.len(),
{
    if a.len() == 0 {
        if b.len() > 0 {
            assert(a.contains(b[0]));
        }
        assert(a =~= b);
    } else {
        assert(b.contains(a[0]));
        assert(b.len() > 0);
        assert(a.contains(b[0]));
        let i = choose|i: int| 0 <= i < b.len() && b[i] == a[0];
        let j = choose|j: int| 0 <= j < a.len() && a[j] == b[0];
        if a[0] != b[0] {
            assert(outranks(size, b[0] as int, b[i] as int));
            assert(outranks(size, a[0] as int, a[j] as int));
        }
        let a1 = a.drop_first();
        let b1 = b.drop_first();
        assert forall|i: int| 0 <= i < a1.len() implies b1.contains(#[trigger] a1[i]) by {
            assert(b.contains(a[i + 1]));
            let m = choose|m: int| 0 <= m < b.len() && b[m] == a[i + 1];
            assert(outranks(size, a[0] as int, a[i + 1] as int));
            assert(b1[m - 1] == a1[i]);
        }
        assert forall|i: int| 0 <= i < b1.len() implies a1.contains(#[trigger] b1[i]) by {
            assert(a.contains(b[i + 1]));
            let m = choose|m: int| 0 <= m < a.len() && a[m] == b[i + 1];
            assert(outranks(size, b[0] as int, b[i + 1] as int));
            assert(a1[m - 1] == b1[i]);
        }
        assert forall|i: int, j: int| 0 <= i < j < a1.len() implies outranks(
            size,
            #[trigger] a1[i] as int,
            #[trigger] a1[j] as int,
        ) by {
            assert(outranks(size, a[i + 1] as int, a[j + 1] as int));
        }
        assert forall|i: int, j: int| 0 <= i < j < b1.len() implies outranks(
            size,
            #[trigger] b1[i] as int,
            #[trigger] b1[j] as int,
        ) by {
            assert(outranks(size, b[i + 1] as int, b[j + 1] as int));
        }
        lemma_ranked_unique(size, a1, b1);
        assert(a =~= seq![a[0]] + a1);
        assert(b =~= seq![b[0]] + b1);
    }
}

/// Sizes and plates of the components.
fn component_tables(g: &CellGraph, cell: &[u16], labels: &[u32], ncomp: u32) -> (r: (
    Vec<u32>,
    Vec<u16>,
))
    requires
        g.wf(),
        g.symmetric(),
        cell@.len() == g.cells(),
        labels@ == component_labels(*g, cell@),
        ncomp == n_components(*g, cell@),
    ensures
        r.0@.len() == ncomp,
        r.1@ == component_plates(*g, cell@),
        forall|k: int| 0 <= k < ncomp ==> #[trigger] r.0@[k] as nat == component_sizes(*g, cell@)[k],
{
    proof {
        lemma_component_tables(g, cell@);
    }
    let mut size: Vec<u32> = Vec::new();
    let mut owner: Vec<u16> = Vec::new();
    let mut k: u32 = 0;
    while k < ncomp
        invariant
            k <= ncomp,
            size@.len() == k,
            owner@.len() == k,
            forall|j: int| 0 <= j < k ==> size@[j] == 0,
        decreases ncomp - k,
    {
        size.push(0);
        owner.push(0);
        k = k + 1;
    }
    let n = g.n_cells();
    let mut c: usize = 0;
    assert(labels@.take(0) =~= Seq::<u32>::empty());
    while c < n
        invariant
            c <= n,
            n == g.cells(),
            n <= u32::MAX,
            cell@.len() == n,
            labels@.len() == n,
            size@.len() == ncomp,
            owner@.len() == ncomp,
            forall|j: int| 0 <= j < n ==> (#[trigger] labels@[j]) < ncomp,
            forall|j: int|
                0 <= j < n ==> component_plates(*g, cell@)[#[trigger] labels@[j] as int] == cell@[j],
            forall|j: int|
                0 <= j < ncomp ==> #[trigger] size@[j] as nat == count_eq(
                    labels@.take(c as int),
                    j as u32,
                ),
            forall|j: int|
                0 <= j < c ==> owner@[#[trigger] labels@[j] as int] == component_plates(
                    *g,
                    cell@,
                )[labels@[j] as int],
        decreases n - c,
    {
        let k = labels[c] as usize;
        let ghost size0 = size@;
        proof {
            lemma_count_bound(labels@.take(c as int), k as u32);
        }
        size.set(k, size[k] + 1);
        owner.set(k, cell[c]);
        proof {
            assert(labels@.take(c + 1) =~= labels@.take(c as int).push(labels@[c as int]));
            assert forall|j: int| 0 <= j < ncomp implies #[trigger] size@[j] as nat == count_eq(
                labels@.take(c + 1),
                j as u32,
            ) by {
                lemma_count_push(labels@.take(c as int), labels@[c as int], j as u32);
                assert(size0[j] as nat == count_eq(labels@.take(c as int), j as u32));
            }
        }
        c = c + 1;
    }
    proof {
        assert(labels@.take(n as int) =~= labels@);
        assert forall|k: int| 0 <= k < ncomp implies owner@[k] == component_plates(*g, cell@)[k] by {
            assert(component_sizes(*g, cell@)[k] > 0);
            let d = choose|d: int| 0 <= d < cell@.len() && #[trigger] labels@[d] == k as u32;
            assert(owner@[labels@[d] as int] == component_plates(*g, cell@)[labels@[d] as int]);
        }
        assert(owner@ =~= component_plates(*g, cell@));
    }
    (size, owner)
}

/// The sizes as numbers.
pub open spec fn as_nats(size: Seq<u32>) -> Seq<nat> {
    Seq::new(size.len(), |k: int| size[k] as nat)
}

/// The components that their plates do not keep, largest first, ties by id.
fn stray_components(size: &Vec<u32>, owner: &Vec<u16>) -> (order: Vec<u32>)
    requires
        size@.len() == owner@.len(),
        size@.len() < u32::MAX,
    ensures
        order@ == strays(as_nats(size@), owner@),
        is_stray_order(as_nats(size@), owner@, order@),
{
    let ghost sz = as_nats(size@);
    let n: u32 = size.len() as u32;
    let mut best = map_new();
    let mut k: u32 = 0;
    while k < n
        invariant
            k <= n,
            n == size@.len(),
            size@.len() == owner@.len(),
            sz == as_nats(size@),
            forall|j: int|
                0 <= j < k ==> {
                    &&& best@.dom().contains(#[trigger] owner@[j])
                    &&& best@[owner@[j]] < k
                    &&& owner@[best@[owner@[j]] as int] == owner@[j]
                    &&& j == best@[owner@[j]] || outranks(sz, best@[owner@[j]] as int, j)
                },
            forall|p: u16| #[trigger]
                best@.dom().contains(p) ==> best@[p] < k && owner@[best@[p] as int] == p,
        decreases n - k,
    {
        let p = owner[k as usize];
        match map_get(&best, p) {
            Some(e) => {
                if size[k as usize] > size[e as usize] {
                    map_insert(&mut best, p, k);
                }
            },
            None => {
                map_insert(&mut best, p, k);
            },
        }
        k = k + 1;
    }
    let mut order: Vec<u32> = Vec::new();
    let mut k: u32 = 0;
    while k < n
        invariant
            k <= n,
            n == size@.len(),
            size@.len() == owner@.len(),
            sz == as_nats(size@),
            forall|j: int|
                0 <= j < n ==> {
                    &&& best@.dom().contains(#[trigger] owner@[j])
                    &&& best@[owner@[j]] < n
                    &&& owner@[best@[owner@[j]] as int] == owner@[j]
                    &&& j == best@[owner@[j]] || outranks(sz, best@[owner@[j]] as int, j)
                },
            forall|i: int, j: int|
                0 <= i < j < order@.len() ==> outranks(
                    sz,
                    #[trigger] order@[i] as int,
                    #[trigger] order@[j] as int,
                ),
            forall|i: int|
                0 <= i < order@.len() ==> (#[trigger] order@[i]) < k && !is_kept(
                    sz,
                    owner@,
                    order@[i] as int,
                ),
            forall|j: int|
                0 <= j < k && !#[trigger] is_kept(sz, owner@, j) ==> order@.contains(j as u32),
        decreases n - k,
    {
        let p = owner[k as usize];
        let kept = match map_get(&best, p) {
            Some(e) => e == k,
            None => true,
        };
        proof {
            assert(owner@[k as int] == p);
            if kept {
                assert forall|j: int|
                    0 <= j < sz.len() && j != k && #[trigger] owner@[j] == owner@[k as int] implies outranks(
                    sz,
                    k as int,
                    j,
                ) by {}
                assert(is_kept(sz, owner@, k as int));
            } else {
                let e = best@[p] as int;
                assert(owner@[e] == owner@[k as int]);
                assert(outranks(sz, e, k as int));
                assert(!is_kept(sz, owner@, k as int));
            }
        }
        if !kept {
            let ghost order0 = order@;
            let mut at: usize = order.len();
            while at > 0 && size[order[at - 1] as usize] < size[k as usize]
                invariant
                    at <= order@.len(),
                    order@ == order0,
                    k < n,
                    n == size@.len(),
                    sz == as_nats(size@),
                    forall|i: int| 0 <= i < order@.len() ==> (#[trigger] order@[i]) < k,
                    forall|i: int|
                        at <= i < order@.len() ==> size@[#[trigger] order@[i] as int]
                            < size@[k as int],
                decreases at,
            {
                at = at - 1;
            }
            order.insert(at, k);
            proof {
                assert(order@ =~= order0.insert(at as int, k));
                assert forall|i: int, j: int| 0 <= i < j < order@.len() implies outranks(
                    sz,
                    #[trigger] order@[i] as int,
                    #[trigger] order@[j] as int,
                ) by {
                    let a = if i < at {
                        i
                    } else {
                        i - 1
                    };
                    let b = if j < at {
                        j
                    } else {
                        j - 1
                    };
                    if i != at && j != at {
                        assert(order@[i] == order0[a] && order@[j] == order0[b]);
                        assert(outranks(sz, order0[a] as int, order0[b] as int));
                    } else if j == at {
                        assert(order@[i] == order0[i]);
                        assert(order0[at - 1] < k);
                        if i < at - 1 {
                            assert(outranks(sz, order0[i] as int, order0[at - 1] as int));
                        }
                    } else {
                        assert(order@[j] == order0[j - 1]);
                    }
                }
                assert forall|j: int|
                    0 <= j < k + 1 && !#[trigger] is_kept(sz, owner@, j) implies order@.contains(
                    j as u32,
                ) by {
                    if j < k {
                        assert(order0.contains(j as u32));
                        let i = choose|i: int| 0 <= i < order0.len() && order0[i] == j as u32;
                        if i < at {
                            assert(order@[i] == j as u32);
                        } else {
                            assert(order@[i + 1] == j as u32);
                        }
                    } else {
                        assert(order@[at as int] == k);
                    }
                }
                assert forall|i: int| 0 <= i < order@.len() implies (#[trigger] order@[i]) < k + 1
                    && !is_kept(sz, owner@, order@[i] as int) by {
                    if i < at {
                        assert(order@[i] == order0[i]);
                    } else if i > at {
                        assert(order@[i] == order0[i - 1]);
                    }
                }
            }
        }
        k = k + 1;
    }
    proof {
        assert(is_stray_order(sz, owner@, order@));
        lemma_stray_order_unique(sz, owner@, order@, strays(sz, owner@));
    }
    order
}

/// A sweep that leaves the cells alone leaves the plates alone too.
proof fn lemma_swept_fixed(g: &CellGraph, s: Sheet, calve_min: nat, max_plates: nat, n: nat)
    requires
        swept(*g, s, calve_min, max_plates) == s,
    ensures
        swept_times(*g, s, calve_min, max_plates, n) == s,
    decreases n,
{
    if n > 0 {
        lemma_swept_fixed(g, s, calve_min, max_plates, (n - 1) as nat);
    }
}

/// A plate that a region touches is the plate of some cell.
proof fn lemma_contact_has_cell(
    g: &CellGraph,
    cell: Seq<u16>,
    inside: spec_fn(int) -> bool,
    q: u16,
    c: int,
)
    requires
        g.wf(),
        cell.len() == g.cells(),
        0 <= c <= g.cells(),
        contacts(*g, cell, inside, q, c) > 0,
    ensures
        exists|d: int, k: int|
            0 <= d < c && inside(d) && 0 <= k < g.valence(d) && 0 <= g.nb(d, k) < g.cells()
                && cell[#[trigger] g.nb(d, k)] == q,
    decreases c,
{
    if c > 0 {
        if contacts(*g, cell, inside, q, c - 1) > 0 {
            lemma_contact_has_cell(g, cell, inside, q, c - 1);
            let (d, k) = choose|d: int, k: int|
                0 <= d < c - 1 && inside(d) && 0 <= k < g.valence(d) && 0 <= g.nb(d, k) < g.cells()
                    && cell[#[trigger] g.nb(d, k)] == q;
            assert(cell[g.nb(d, k)] == q);
        } else {
            lemma_slot_hit(g, cell, c - 1, q, g.valence(c - 1));
            let k = choose|k: int|
                0 <= k < g.valence(c - 1) && 0 <= g.nb(c - 1, k) < g.cells()
                    && cell[#[trigger] g.nb(c - 1, k)] == q;
            assert(cell[g.nb(c - 1, k)] == q);
        }
    }
}

proof fn lemma_slot_hit(g: &CellGraph, cell: Seq<u16>, c: int, q: u16, k: int)
    requires
        g.wf(),
        cell.len() == g.cells(),
        0 <= c < g.cells(),
        0 <= k <= g.valence(c),
        slot_hits(*g, cell, c, q, k) > 0,
    ensures
        exists|j: int|
            0 <= j < k && 0 <= g.nb(c, j) < g.cells() && cell[#[trigger] g.nb(c, j)] == q,
    decreases k,
{
    if k > 0 {
        if cell[g.nb(c, k - 1)] == q {
            assert(g.offsets@[c + 1] <= g.offsets@[g.cells()]);
            assert(0 <= g.nb(c, k - 1) < g.cells());
        } else {
            lemma_slot_hit(g, cell, c, q, k - 1);
            let j = choose|j: int|
                0 <= j < k - 1 && 0 <= g.nb(c, j) < g.cells() && cell[#[trigger] g.nb(c, j)] == q;
            assert(cell[g.nb(c, j)] == q);
        }
    }
}

/// What holds of every placement of the first `i` strays.
proof fn lemma_placed(
    g: &CellGraph,
    cell: Seq<u16>,
    plates: Seq<Plate>,
    calve_min: nat,
    max_plates: nat,
    i: int,
)
    requires
        g.wf(),
        g.symmetric(),
        cell.len() == g.cells(),
        max_plates <= u16::MAX,
        is_stray_order(
            component_sizes(*g, cell),
            component_plates(*g, cell),
            strays(component_sizes(*g, cell), component_plates(*g, cell)),
        ),
        0 <= i <= strays(component_sizes(*g, cell), component_plates(*g, cell)).len(),
    ensures
        ({
            let order = strays(component_sizes(*g, cell), component_plates(*g, cell));
            let owner = component_plates(*g, cell);
            let (now, target) = placed(*g, cell, plates, calve_min, max_plates, i);
            &&& target.len() == n_components(*g, cell)
            &&& plates.len() <= now.len()
            &&& now.len() <= plates.len() || now.len() <= max_plates
            &&& forall|p: int| 0 <= p < plates.len() ==> now[p] == plates[p]
            &&& now.len() > plates.len() ==> exists|k: int|
                0 <= k < target.len() && #[trigger] target[k] != u16::MAX
            &&& forall|k: int|
                0 <= k < target.len() && #[trigger] target[k] != u16::MAX ==> target[k] != owner[k]
                    && order.contains(k as u32) && (target[k] < now.len() || exists|c: int|
                    0 <= c < cell.len() && #[trigger] cell[c] == target[k])
            &&& forall|k: int|
                0 <= k < target.len() && (forall|j: int| 0 <= j < i ==> #[trigger] order[j] != k)
                    ==> #[trigger] target[k] == u16::MAX
        }),
    decreases i,
{
    if i > 0 {
        lemma_placed(g, cell, plates, calve_min, max_plates, i - 1);
        let size = component_sizes(*g, cell);
        let order = strays(component_sizes(*g, cell), component_plates(*g, cell));
        let owner = component_plates(*g, cell);
        let (now0, target0) = placed(*g, cell, plates, calve_min, max_plates, i - 1);
        let (now, target) = placed(*g, cell, plates, calve_min, max_plates, i);
        let k = order[i - 1];
        assert(order.contains(k));
        assert(k < size.len());
        let labels = component_labels(*g, cell);
        let inside = labelled(labels, k);
        if !(size[k as int] >= calve_min && now0.len() < max_plates && owner[k as int]
            < now0.len()) {
            lemma_most_touched(g, cell, inside, owner[k as int]);
            assert(target[k as int] == most_touched(*g, cell, inside, owner[k as int]));
        }
        assert(target0[k as int] == u16::MAX) by {
            assert forall|j: int| 0 <= j < i - 1 implies #[trigger] order[j] != k by {
                assert(outranks(size, order[j] as int, order[i - 1] as int));
            }
        }
        assert forall|j: int|
            0 <= j < target.len() && #[trigger] target[j] != u16::MAX implies target[j] != owner[j]
            && order.contains(j as u32) && (target[j] < now.len() || exists|c: int|
            0 <= c < cell.len() && #[trigger] cell[c] == target[j]) by {
            if j != k {
                assert(target[j] == target0[j]);
            }
        }
        if now.len() > plates.len() {
            if now0.len() > plates.len() {
                let w = choose|w: int| 0 <= w < target0.len() && #[trigger] target0[w] != u16::MAX;
                assert(target[w] != u16::MAX);
            } else {
                assert(target[k as int] != u16::MAX);
            }
        }
        assert forall|j: int|
            0 <= j < target.len() && (forall|m: int| 0 <= m < i ==> #[trigger] order[m]
                != j) implies #[trigger] target[j] == u16::MAX by {
            assert(order[i - 1] != j);
            assert(target0[j] == u16::MAX);
        }
    }
}

/// What the most touched plate is not, and what it is.
pub(crate) proof fn lemma_most_touched(
    g: &CellGraph,
    cell: Seq<u16>,
    inside: spec_fn(int) -> bool,
    own: u16,
)
    requires
        g.wf(),
        cell.len() == g.cells(),
    ensures
        ({
            let r = most_touched(*g, cell, inside, own);
            r != u16::MAX ==> r != own && exists|c: int|
                0 <= c < cell.len() && #[trigger] cell[c] == r
        }),
        (exists|q: u16| q != own && #[trigger] contacts(*g, cell, inside, q, g.cells()) > 0) ==> {
            let r = most_touched(*g, cell, inside, own);
            r != own && contacts(*g, cell, inside, r, g.cells()) > 0 && exists|c: int|
                0 <= c < cell.len() && #[trigger] cell[c] == r
        },
{
    lemma_most_touched_exists(g, cell, inside, own);
    let r = most_touched(*g, cell, inside, own);
    if exists|q: u16| q != own && #[trigger] contacts(*g, cell, inside, q, g.cells()) > 0 {
        lemma_contact_has_cell(g, cell, inside, r, g.cells());
        let (d, k) = choose|d: int, k: int|
            0 <= d < g.cells() && inside(d) && 0 <= k < g.valence(d) && 0 <= g.nb(d, k) < g.cells()
                && cell[#[trigger] g.nb(d, k)] == r;
        assert(cell[g.nb(d, k)] == r);
    }
}

proof fn lemma_most_touched_exists(
    g: &CellGraph,
    cell: Seq<u16>,
    inside: spec_fn(int) -> bool,
    own: u16,
)
    ensures
        crate::contact::touches_most(
            *g,
            cell,
            inside,
            own,
            most_touched(*g, cell, inside, own),
        ),
{
    let n = g.cells();
    if exists|q: u16| q != own && #[trigger] contacts(*g, cell, inside, q, n) > 0 {
        let f = |q: u16| contacts(*g, cell, inside, q, n);
        let q0 = choose|q: u16| q != own && #[trigger] contacts(*g, cell, inside, q, n) > 0;
        assert(f(q0) > 0);
        let r = lemma_best_below(f, own, 0x1_0000);
        assert forall|q: u16| q != own implies {
            ||| #[trigger] contacts(*g, cell, inside, q, n) < contacts(*g, cell, inside, r, n)
            ||| contacts(*g, cell, inside, q, n) == contacts(*g, cell, inside, r, n) && r <= q
        } by {
            assert(f(q) < f(r) || (f(q) == f(r) && r <= q));
        }
        assert(crate::contact::touches_most(*g, cell, inside, own, r));
    } else {
        assert(crate::contact::touches_most(*g, cell, inside, own, u16::MAX));
    }
}

/// `r` is the key below `bound`, other than `own`, with the largest value; the
/// lowest where several tie.
spec fn is_best(f: spec_fn(u16) -> nat, own: u16, bound: int, r: u16) -> bool {
    &&& r < bound
    &&& r != own
    &&& f(r) > 0
    &&& forall|q: u16|
        q < bound && q != own ==> #[trigger] f(q) < f(r) || (f(q) == f(r) && r <= q)
}

proof fn lemma_best_below(f: spec_fn(u16) -> nat, own: u16, bound: int) -> (r: u16)
    requires
        0 <= bound <= 0x1_0000,
        exists|q: u16| q < bound && q != own && #[trigger] f(q) > 0,
    ensures
        is_best(f, own, bound, r),
    decreases bound,
{
    let q0 = choose|q: u16| q < bound && q != own && #[trigger] f(q) > 0;
    let last = (bound - 1) as u16;
    if exists|q: u16| q < bound - 1 && q != own && #[trigger] f(q) > 0 {
        let r = lemma_best_below(f, own, bound - 1);
        if last != own && f(last) > f(r) {
            last
        } else {
            r
        }
    } else {
        assert(q0 == last);
        last
    }
}

impl Mosaic {
    /// Sweeps once over the strays of every plate. Returns whether a cell
    /// changed hands.
    fn sweep(&mut self, g: &CellGraph, calve_min: usize, max_plates: usize) -> (changed: bool)
        requires
            g.wf(),
            g.symmetric(),
            old(self)@.cell.len() == g.cells(),
            max_plates <= u16::MAX,
        ensures
            final(self)@ == swept(*g, old(self)@, calve_min as nat, max_plates as nat),
            changed == (final(self)@ != old(self)@),
    {
        let ghost s0 = self@;
        let ghost cell = s0.cell;
        let n = g.n_cells();
        let mut labels: Vec<u32> = Vec::new();
        while labels.len() < n
            invariant
                labels@.len() <= n,
            decreases n - labels@.len(),
        {
            labels.push(0);
        }
        let ncomp = plate_components(g, self.plate_id.as_slice(), &mut labels);
        let (size, owner) = component_tables(
            g,
            self.plate_id.as_slice(),
            labels.as_slice(),
            ncomp,
        );
        proof {
            lemma_component_tables(g, cell);
            assert(as_nats(size@) =~= component_sizes(*g, cell));
        }
        let order = stray_components(&size, &owner);
        let mut target: Vec<u16> = Vec::new();
        while target.len() < ncomp as usize
            invariant
                target@.len() <= ncomp,
                forall|k: int| 0 <= k < target@.len() ==> target@[k] == u16::MAX,
            decreases ncomp - target@.len(),
        {
            target.push(u16::MAX);
        }
        proof {
            assert(target@ =~= placed(
                *g,
                cell,
                s0.plates,
                calve_min as nat,
                max_plates as nat,
                0,
            ).1);
        }
        let mut i: usize = 0;
        while i < order.len()
            invariant
                i <= order@.len(),
                g.wf(),
                g.symmetric(),
                max_plates <= u16::MAX,
                self.plate_id@ == cell,
                cell == s0.cell,
                cell.len() == g.cells(),
                labels@ == component_labels(*g, cell),
                as_nats(size@) == component_sizes(*g, cell),
                size@.len() == ncomp,
                ncomp == n_components(*g, cell),
                owner@ == component_plates(*g, cell),
                order@ == strays(component_sizes(*g, cell), component_plates(*g, cell)),
                is_stray_order(component_sizes(*g, cell), component_plates(*g, cell), order@),
                (self.plates@, target@) == placed(
                    *g,
                    cell,
                    s0.plates,
                    calve_min as nat,
                    max_plates as nat,
                    i as int,
                ),
            decreases order@.len() - i,
        {
            let k = order[i];
            let ghost size_nats = as_nats(size@);
            proof {
                lemma_placed(
                    g,
                    cell,
                    s0.plates,
                    calve_min as nat,
                    max_plates as nat,
                    i as int,
                );
                assert(order@[i as int] == k);
                assert(size_nats[k as int] == size@[k as int]);
            }
            let own = owner[k as usize];
            if size[k as usize] as usize >= calve_min && self.plates.len() < max_plates && (
            own as usize) < self.plates.len() {
                let id = self.plates.len() as u16;
                let piece = self.plates[own as usize].fragment();
                target.set(k as usize, id);
                self.plates.push(piece);
            } else {
                let to = most_touched_by_label(
                    g,
                    self.plate_id.as_slice(),
                    labels.as_slice(),
                    k,
                    own,
                );
                target.set(k as usize, to);
            }
            i = i + 1;
        }
        proof {
            lemma_placed(
                g,
                cell,
                s0.plates,
                calve_min as nat,
                max_plates as nat,
                order@.len() as int,
            );
        }
        let ghost plates1 = self.plates@;
        let mut changed = false;
        let mut c: usize = 0;
        while c < n
            invariant
                c <= n,
                n == g.cells(),
                cell.len() == n,
                labels@.len() == n,
                self.plate_id@.len() == n,
                self.plates@ == plates1,
                target@.len() == ncomp,
                forall|j: int| 0 <= j < n ==> (#[trigger] labels@[j]) < ncomp,
                forall|j: int|
                    0 <= j < c ==> #[trigger] self.plate_id@[j] == (if target@[labels@[j] as int]
                        != u16::MAX {
                        target@[labels@[j] as int]
                    } else {
                        cell[j]
                    }),
                forall|j: int| c <= j < n ==> #[trigger] self.plate_id@[j] == cell[j],
                changed == exists|j: int|
                    0 <= j < c && target@[#[trigger] labels@[j] as int] != u16::MAX,
            decreases n - c,
        {
            let t = target[labels[c] as usize];
            if t != u16::MAX {
                self.plate_id.set(c, t);
                changed = true;
                assert(target@[labels@[c as int] as int] != u16::MAX);
            }
            c = c + 1;
        }
        proof {
            let after = swept(*g, s0, calve_min as nat, max_plates as nat);
            assert(self.plate_id@ =~= after.cell);
            if changed {
                let j = choose|j: int|
                    0 <= j < n && target@[#[trigger] labels@[j] as int] != u16::MAX;
                assert(component_plates(*g, cell)[component_labels(*g, cell)[j] as int] == cell[j]);
                assert(self.plate_id@[j] != cell[j]);
                assert(self@.cell[j] != s0.cell[j]);
            } else {
                if plates1.len() > s0.plates.len() {
                    let k = choose|k: int| 0 <= k < target@.len() && #[trigger] target@[k]
                        != u16::MAX;
                    assert(component_sizes(*g, cell)[k] > 0);
                    let d = choose|d: int|
                        0 <= d < cell.len() && #[trigger] component_labels(*g, cell)[d] == k as u32;
                    assert(target@[labels@[d] as int] != u16::MAX);
                }
                assert(plates1 =~= s0.plates);
                assert(self.plate_id@ =~= cell);
            }
        }
        changed
    }

    /// Forces every plate towards a single connected region: as soon as a sweep moves nothing,
    /// every plate is one, and at most [`MAX_SWEEPS`] sweeps are made.
    ///
    /// For each plate the largest component is kept. Strays of at least
    /// `calve_min` cells become plates of their own as long as there are fewer
    /// than `max_plates`; the others join the neighbouring plate they touch most.
    /// Returns whether anything changed.
    pub fn enforce_contiguity(
        &mut self,
        g: &CellGraph,
        calve_min: usize,
        max_plates: usize,
    ) -> (changed: bool)
        requires
            g.wf(),
            g.symmetric(),
            old(self)@.cell.len() == g.cells(),
            max_plates <= u16::MAX,
        ensures
            final(self)@ == swept_times(
                *g,
                old(self)@,
                calve_min as nat,
                max_plates as nat,
                MAX_SWEEPS as nat,
            ),
            changed == (swept(*g, old(self)@, calve_min as nat, max_plates as nat) != old(self)@),
    {
        let ghost s0 = self@;
        let mut changed_any = false;
        let mut round: u32 = 0;
        while round < MAX_SWEEPS
            invariant
                round <= MAX_SWEEPS,
                s0 == old(self)@,
                g.wf(),
                g.symmetric(),
                self@.cell.len() == g.cells(),
                max_plates <= u16::MAX,
                swept_times(
                    *g,
                    s0,
                    calve_min as nat,
                    max_plates as nat,
                    MAX_SWEEPS as nat,
                ) == swept_times(
                    *g,
                    self@,
                    calve_min as nat,
                    max_plates as nat,
                    (MAX_SWEEPS - round) as nat,
                ),
                round == 0 ==> self@ == s0 && !changed_any,
                round > 0 ==> changed_any && swept(
                    *g,
                    s0,
                    calve_min as nat,
                    max_plates as nat,
                ) != s0,
            decreases MAX_SWEEPS - round,
        {
            let ghost s1 = self@;
            let changed = self.sweep(g, calve_min, max_plates);
            if !changed {
                proof {
                    lemma_swept_fixed(
                        g,
                        s1,
                        calve_min as nat,
                        max_plates as nat,
                        (MAX_SWEEPS - round) as nat,
                    );
                }
                return changed_any;
            }
            changed_any = true;
            round = round + 1;
        }
        changed_any
    }
}

/// A ranked list takes one more component, and stays ranked.
proof fn lemma_ranked_insert(size: Seq<nat>, order: Seq<u32>, k: u32) -> (out: Seq<u32>)
    requires
        forall|i: int, j: int|
            0 <= i < j < order.len() ==> outranks(
                size,
                #[trigger] order[i] as int,
                #[trigger] order[j] as int,
            ),
        forall|i: int| 0 <= i < order.len() ==> (#[trigger] order[i]) < k,
    ensures
        out.len() == order.len() + 1,
        forall|i: int, j: int|
            0 <= i < j < out.len() ==> outranks(
                size,
                #[trigger] out[i] as int,
                #[trigger] out[j] as int,
            ),
        forall|x: u32| #[trigger] out.contains(x) <==> x == k || order.contains(x),
    decreases order.len(),
{
    if order.len() == 0 || size[order.last() as int] >= size[k as int] {
        let out = order.push(k);
        assert forall|i: int, j: int| 0 <= i < j < out.len() implies outranks(
            size,
            #[trigger] out[i] as int,
            #[trigger] out[j] as int,
        ) by {
            if j == order.len() && i < order.len() - 1 {
                assert(outranks(size, order[i] as int, order[order.len() - 1] as int));
            }
        }
        assert(out[order.len() as int] == k);
        assert forall|x: u32| #[trigger] out.contains(x) <==> x == k || order.contains(x) by {
            if order.contains(x) {
                let i = choose|i: int| 0 <= i < order.len() && order[i] == x;
                assert(out[i] == x);
            }
        }
        out
    } else {
        let rest = order.drop_last();
        assert forall|i: int, j: int| 0 <= i < j < rest.len() implies outranks(
            size,
            #[trigger] rest[i] as int,
            #[trigger] rest[j] as int,
        ) by {
            assert(outranks(size, order[i] as int, order[j] as int));
        }
        assert forall|i: int| 0 <= i < rest.len() implies (#[trigger] rest[i]) < k by {
            assert(order[i] < k);
        }
        let mid = lemma_ranked_insert(size, rest, k);
        let out = mid.push(order.last());
        assert forall|x: u32| #[trigger] out.contains(x) <==> x == k || order.contains(x) by {
            if out.contains(x) {
                let i = choose|i: int| 0 <= i < out.len() && out[i] == x;
                if i < mid.len() {
                    assert(mid[i] == x);
                    assert(mid.contains(x));
                    if rest.contains(x) {
                        let m = choose|m: int| 0 <= m < rest.len() && rest[m] == x;
                        assert(order[m] == x);
                    }
                } else {
                    assert(order[order.len() - 1] == x);
                }
            }
            if order.contains(x) {
                let i = choose|i: int| 0 <= i < order.len() && order[i] == x;
                if i < rest.len() {
                    assert(rest[i] == x);
                    assert(mid.contains(x));
                    let m = choose|m: int| 0 <= m < mid.len() && mid[m] == x;
                    assert(out[m] == x);
                } else {
                    assert(out[mid.len() as int] == x);
                }
            }
            if x == k {
                assert(mid.contains(x));
                let m = choose|m: int| 0 <= m < mid.len() && mid[m] == x;
                assert(out[m] == x);
            }
        }
        assert forall|i: int, j: int| 0 <= i < j < out.len() implies outranks(
            size,
            #[trigger] out[i] as int,
            #[trigger] out[j] as int,
        ) by {
            if j < mid.len() {
                assert(outranks(size, mid[i] as int, mid[j] as int));
            } else {
                assert(mid.contains(mid[i]));
                if mid[i] != k {
                    assert(rest.contains(mid[i]));
                    let m = choose|m: int| 0 <= m < rest.len() && rest[m] == mid[i];
                    assert(outranks(size, order[m] as int, order[order.len() - 1] as int));
                }
            }
        }
        out
    }
}

proof fn lemma_stray_prefix(size: Seq<nat>, owner: Seq<u16>, k: int) -> (order: Seq<u32>)
    requires
        0 <= k <= size.len(),
        size.len() <= u32::MAX,
    ensures
        forall|i: int, j: int|
            0 <= i < j < order.len() ==> outranks(
                size,
                #[trigger] order[i] as int,
                #[trigger] order[j] as int,
            ),
        forall|i: int|
            0 <= i < order.len() ==> (#[trigger] order[i]) < k && !is_kept(
                size,
                owner,
                order[i] as int,
            ),
        forall|j: int|
            0 <= j < k && !#[trigger] is_kept(size, owner, j) ==> order.contains(j as u32),
    decreases k,
{
    if k == 0 {
        Seq::empty()
    } else {
        let prev = lemma_stray_prefix(size, owner, k - 1);
        if is_kept(size, owner, k - 1) {
            prev
        } else {
            let out = lemma_ranked_insert(size, prev, (k - 1) as u32);
            assert forall|i: int| 0 <= i < out.len() implies (#[trigger] out[i]) < k && !is_kept(
                size,
                owner,
                out[i] as int,
            ) by {
                assert(out.contains(out[i]));
                if out[i] != k - 1 {
                    let m = choose|m: int| 0 <= m < prev.len() && prev[m] == out[i];
                    assert(prev[m] < k - 1);
                }
            }
            out
        }
    }
}

/// The strays can be put in order.
proof fn lemma_stray_order_exists(g: &CellGraph, cell: Seq<u16>)
    requires
        g.wf(),
        g.symmetric(),
        cell.len() == g.cells(),
    ensures
        is_stray_order(
            component_sizes(*g, cell),
            component_plates(*g, cell),
            strays(component_sizes(*g, cell), component_plates(*g, cell)),
        ),
{
    lemma_component_tables(g, cell);
    let size = component_sizes(*g, cell);
    let owner = component_plates(*g, cell);
    let order = lemma_stray_prefix(size, owner, size.len() as int);
    assert(is_stray_order(size, owner, order));
}

/// Sweeps keep the cells in number, and only calving adds plates.
pub proof fn lemma_sweeps_len(g: &CellGraph, s: Sheet, calve_min: nat, max_plates: nat, n: nat)
    requires
        g.wf(),
        g.symmetric(),
        s.cell.len() == g.cells(),
        max_plates <= u16::MAX,
    ensures
        swept_times(*g, s, calve_min, max_plates, n).cell.len() == s.cell.len(),
        s.plates.len() <= swept_times(*g, s, calve_min, max_plates, n).plates.len(),
        swept_times(*g, s, calve_min, max_plates, n).plates.len() <= s.plates.len()
            || swept_times(*g, s, calve_min, max_plates, n).plates.len() <= max_plates,
    decreases n,
{
    if n > 0 {
        lemma_stray_order_exists(g, s.cell);
        let order = strays(component_sizes(*g, s.cell), component_plates(*g, s.cell));
        lemma_placed(g, s.cell, s.plates, calve_min, max_plates, order.len() as int);
        lemma_sweeps_len(
            g,
            swept(*g, s, calve_min, max_plates),
            calve_min,
            max_plates,
            (n - 1) as nat,
        );
    }
}

/// No sweep leaves a cell without a plate, and only calving adds plates.
pub proof fn sweeping_keeps_the_mosaic_covered(
    g: &CellGraph,
    s: Sheet,
    calve_min: nat,
    max_plates: nat,
    n: nat,
)
    requires
        g.wf(),
        g.symmetric(),
        s.cell.len() == g.cells(),
        max_plates <= u16::MAX,
        s.covered(),
    ensures
        swept_times(*g, s, calve_min, max_plates, n).covered(),
        swept_times(*g, s, calve_min, max_plates, n).cell.len() == s.cell.len(),
        s.plates.len() <= swept_times(*g, s, calve_min, max_plates, n).plates.len(),
        swept_times(*g, s, calve_min, max_plates, n).plates.len() <= s.plates.len()
            || swept_times(*g, s, calve_min, max_plates, n).plates.len() <= max_plates,
    decreases n,
{
    if n > 0 {
        let t = swept(*g, s, calve_min, max_plates);
        lemma_stray_order_exists(g, s.cell);
        let order = strays(component_sizes(*g, s.cell), component_plates(*g, s.cell));
        lemma_placed(g, s.cell, s.plates, calve_min, max_plates, order.len() as int);
        lemma_component_tables(g, s.cell);
        assert(t.covered()) by {
            assert forall|c: int| 0 <= c < t.cell.len() implies (#[trigger] t.cell[c])
                < t.plates.len() by {
                assert(component_labels(*g, s.cell)[c] < n_components(*g, s.cell));
                assert(s.cell[c] < s.plates.len());
                let target = placed(
                    *g,
                    s.cell,
                    s.plates,
                    calve_min,
                    max_plates,
                    order.len() as int,
                ).1;
                let k = component_labels(*g, s.cell)[c] as int;
                if target[k] != u16::MAX && target[k] >= t.plates.len() {
                    let d = choose|d: int| 0 <= d < s.cell.len() && #[trigger] s.cell[d]
                        == target[k];
                    assert(s.cell[d] < s.plates.len());
                }
            }
        }
        sweeping_keeps_the_mosaic_covered(g, t, calve_min, max_plates, (n - 1) as nat);
    }
}

/// On a planet in one piece, a mosaic that a sweep leaves alone has every plate in
/// one piece.
pub proof fn a_settled_mosaic_is_contiguous(
    g: &CellGraph,
    s: Sheet,
    calve_min: nat,
    max_plates: nat,
    a: int,
    b: int,
)
    requires
        g.wf(),
        g.symmetric(),
        whole(*g),
        s.cell.len() == g.cells(),
        s.plates.len() <= u16::MAX,
        max_plates <= u16::MAX,
        s.covered(),
        swept(*g, s, calve_min, max_plates) == s,
        0 <= a < g.cells(),
        0 <= b < g.cells(),
        s.cell[a] == s.cell[b],
    ensures
        connected(*g, s.cell, a, b),
{
    let labels = component_labels(*g, s.cell);
    let size = component_sizes(*g, s.cell);
    let owner = component_plates(*g, s.cell);
    lemma_stray_order_exists(g, s.cell);
    lemma_component_tables(g, s.cell);
    let order = strays(size, owner);
    labels_are_components(g, s.cell, a, b);
    if !connected(*g, s.cell, a, b) {
        let ka = labels[a] as int;
        let kb = labels[b] as int;
        assert(ka != kb);
        assert(owner[ka] == s.cell[a] && owner[kb] == s.cell[b]);
        if is_kept(size, owner, ka) && is_kept(size, owner, kb) {
            assert(outranks(size, ka, kb));
            assert(outranks(size, kb, ka));
        }
        let (k, c) = if !is_kept(size, owner, ka) {
            (ka, a)
        } else {
            (kb, b)
        };
        assert(!is_kept(size, owner, k));
        assert(order.contains(k as u32));
        let i = choose|i: int| 0 <= i < order.len() && order[i] == k as u32;
        lemma_stray_moves(g, s, calve_min, max_plates, i, order.len() as int, c);
        assert(swept(*g, s, calve_min, max_plates).cell[c] != s.cell[c]);
    }
}

/// A sweep moves components whole: what was in one piece stays in one piece.
proof fn lemma_sweep_splits_nothing(
    g: &CellGraph,
    s: Sheet,
    calve_min: nat,
    max_plates: nat,
    a: int,
    b: int,
)
    requires
        g.wf(),
        g.symmetric(),
        s.cell.len() == g.cells(),
        connected(*g, s.cell, a, b),
    ensures
        connected(*g, swept(*g, s, calve_min, max_plates).cell, a, b),
{
    let new = swept(*g, s, calve_min, max_plates).cell;
    let open = cells_of(s.cell, s.cell[a]);
    let walk = choose|walk: Seq<int>| #[trigger]
        g.is_walk(open, walk) && walk[0] == a && walk.last() == b;
    let now = cells_of(new, new[a]);
    lemma_connected_plate(g, s.cell, a, b);
    assert forall|i: int| 0 <= i < walk.len() implies 0 <= #[trigger] walk[i] < g.cells() && now(
        walk[i],
    ) by {
        let prefix = walk.take(i + 1);
        assert forall|j: int| 0 <= j < prefix.len() implies 0 <= #[trigger] prefix[j] < g.cells()
            && open(prefix[j]) by {
            assert(open(walk[j]));
        }
        assert forall|j: int| #![trigger prefix[j]] 0 < j < prefix.len() implies g.adjacent(
            prefix[j - 1],
            prefix[j],
        ) by {
            assert(prefix[j] == walk[j]);
        }
        assert(g.is_walk(open, prefix));
        assert(connected(*g, s.cell, a, walk[i]));
        assert(s.cell[a] == s.cell[walk[i]]);
        labels_are_components(g, s.cell, a, walk[i]);
    }
    assert(g.is_walk(now, walk));
}

/// Sweeps are made one after the other.
proof fn lemma_one_more_sweep(g: &CellGraph, s: Sheet, calve_min: nat, max_plates: nat, n: nat)
    ensures
        swept_times(*g, s, calve_min, max_plates, n + 1) == swept(
            *g,
            swept_times(*g, s, calve_min, max_plates, n),
            calve_min,
            max_plates,
        ),
    decreases n,
{
    reveal_with_fuel(swept_times, 2);
    if n > 0 {
        lemma_one_more_sweep(
            g,
            swept(*g, s, calve_min, max_plates),
            calve_min,
            max_plates,
            (n - 1) as nat,
        );
    }
}

/// Once a sweep changes nothing, none after it does.
proof fn lemma_settled_for_good(
    g: &CellGraph,
    s: Sheet,
    calve_min: nat,
    max_plates: nat,
    k: nat,
    n: nat,
)
    requires
        k <= n,
        ({
            let t = swept_times(*g, s, calve_min, max_plates, k);
            swept(*g, t, calve_min, max_plates) == t
        }),
    ensures
        swept_times(*g, s, calve_min, max_plates, n) == swept_times(
            *g,
            s,
            calve_min,
            max_plates,
            k,
        ),
    decreases n,
{
    if k < n {
        lemma_settled_for_good(g, s, calve_min, max_plates, k, (n - 1) as nat);
        lemma_one_more_sweep(g, s, calve_min, max_plates, (n - 1) as nat);
    }
}

/// Sweeping splits nothing: cells that one plate holds in one piece stay together, however
/// many sweeps are made.
pub proof fn sweeping_splits_nothing(
    g: &CellGraph,
    s: Sheet,
    calve_min: nat,
    max_plates: nat,
    n: nat,
    a: int,
    b: int,
)
    requires
        g.wf(),
        g.symmetric(),
        s.cell.len() == g.cells(),
        connected(*g, s.cell, a, b),
    ensures
        connected(*g, swept_times(*g, s, calve_min, max_plates, n).cell, a, b),
    decreases n,
{
    if n > 0 {
        lemma_sweep_splits_nothing(g, s, calve_min, max_plates, a, b);
        sweeping_splits_nothing(
            g,
            swept(*g, s, calve_min, max_plates),
            calve_min,
            max_plates,
            (n - 1) as nat,
            a,
            b,
        );
    }
}

/// What [`Mosaic::enforce_contiguity`] leaves on a planet in one piece: every plate is in one
/// piece, unless each of its [`MAX_SWEEPS`] sweeps still moved something. Two strays that touch
/// each other most trade places in every sweep, so that more sweeps would not end it.
pub proof fn plates_are_whole_once_the_sweeps_settle(
    g: &CellGraph,
    s: Sheet,
    calve_min: nat,
    max_plates: nat,
    k: nat,
    a: int,
    b: int,
)
    requires
        g.wf(),
        g.symmetric(),
        whole(*g),
        s.cell.len() == g.cells(),
        s.plates.len() <= u16::MAX,
        max_plates <= u16::MAX,
        s.covered(),
        k < MAX_SWEEPS,
        ({
            let t = swept_times(*g, s, calve_min, max_plates, k);
            swept(*g, t, calve_min, max_plates) == t
        }),
        0 <= a < g.cells(),
        0 <= b < g.cells(),
        ({
            let t = swept_times(*g, s, calve_min, max_plates, MAX_SWEEPS as nat);
            t.cell[a] == t.cell[b]
        }),
    ensures
        connected(
            *g,
            swept_times(*g, s, calve_min, max_plates, MAX_SWEEPS as nat).cell,
            a,
            b,
        ),
{
    let t = swept_times(*g, s, calve_min, max_plates, MAX_SWEEPS as nat);
    lemma_settled_for_good(g, s, calve_min, max_plates, k, MAX_SWEEPS as nat);
    sweeping_keeps_the_mosaic_covered(g, s, calve_min, max_plates, MAX_SWEEPS as nat);
    a_settled_mosaic_is_contiguous(g, t, calve_min, max_plates, a, b);
}

/// A stray that has a neighbour to join, or may calve, does not stay.
proof fn lemma_stray_moves(
    g: &CellGraph,
    s: Sheet,
    calve_min: nat,
    max_plates: nat,
    i: int,
    n: int,
    c: int,
)
    requires
        g.wf(),
        g.symmetric(),
        whole(*g),
        s.cell.len() == g.cells(),
        s.plates.len() <= u16::MAX,
        max_plates <= u16::MAX,
        s.covered(),
        is_stray_order(
            component_sizes(*g, s.cell),
            component_plates(*g, s.cell),
            strays(component_sizes(*g, s.cell), component_plates(*g, s.cell)),
        ),
        0 <= i < n <= strays(component_sizes(*g, s.cell), component_plates(*g, s.cell)).len(),
        0 <= c < g.cells(),
        strays(component_sizes(*g, s.cell), component_plates(*g, s.cell))[i] == component_labels(
            *g,
            s.cell,
        )[c],
    ensures
        ({
            let t = placed(*g, s.cell, s.plates, calve_min, max_plates, n).1[component_labels(
                *g,
                s.cell,
            )[c] as int];
            t != u16::MAX && t != s.cell[c]
        }),
    decreases n,
{
    let labels = component_labels(*g, s.cell);
    let size = component_sizes(*g, s.cell);
    let owner = component_plates(*g, s.cell);
    let order = strays(size, owner);
    let k = labels[c];
    lemma_component_tables(g, s.cell);
    assert(labels[c] < n_components(*g, s.cell) && owner[labels[c] as int] == s.cell[c]);
    lemma_placed(g, s.cell, s.plates, calve_min, max_plates, n - 1);
    lemma_placed(g, s.cell, s.plates, calve_min, max_plates, n);
    if i < n - 1 {
        lemma_stray_moves(g, s, calve_min, max_plates, i, n - 1, c);
        assert(outranks(size, order[i] as int, order[n - 1] as int));
    } else {
        let inside = labelled(labels, k);
        let r = most_touched(*g, s.cell, inside, owner[k as int]);
        lemma_stray_touches(g, s.cell, c, order[i]);
        lemma_most_touched(g, s.cell, inside, owner[k as int]);
        let d = choose|d: int| 0 <= d < s.cell.len() && #[trigger] s.cell[d] == r;
        assert(s.cell[d] < s.plates.len());
    }
}

/// A stray of a planet in one piece touches another plate.
proof fn lemma_stray_touches(g: &CellGraph, cell: Seq<u16>, c: int, k: u32)
    requires
        g.wf(),
        g.symmetric(),
        whole(*g),
        cell.len() == g.cells(),
        0 <= c < g.cells(),
        component_labels(*g, cell)[c] == k,
        !is_kept(component_sizes(*g, cell), component_plates(*g, cell), k as int),
    ensures
        exists|q: u16|
            q != component_plates(*g, cell)[k as int] && #[trigger] contacts(
                *g,
                cell,
                labelled(component_labels(*g, cell), k),
                q,
                g.cells(),
            ) > 0,
{
    let labels = component_labels(*g, cell);
    let size = component_sizes(*g, cell);
    let owner = component_plates(*g, cell);
    let inside = labelled(component_labels(*g, cell), k);
    let all = every_cell();
    lemma_component_tables(g, cell);
    // Another component of the same plate exists, so a walk leaves this one.
    let j = choose|j: int|
        0 <= j < size.len() && j != k && #[trigger] owner[j] == owner[k as int] && !outranks(
            size,
            k as int,
            j,
        );
    assert(component_sizes(*g, cell)[j] > 0);
    let d = choose|d: int| 0 <= d < cell.len() && #[trigger] labels[d] == j as u32;
    assert(g.reaches(all, c, d));
    assert(!inside(d));
    assert(inside(c));
    if forall|x: int, y: int|
        0 <= x < g.cells() && 0 <= y < g.cells() && inside(x) && all(y) && #[trigger] g.adjacent(
            x,
            y,
        ) ==> inside(y) {
        crate::graph::lemma_closed_holds_reach(g, all, inside, c, d);
    }
    let (x, y) = choose|x: int, y: int|
        0 <= x < g.cells() && 0 <= y < g.cells() && inside(x) && all(y) && #[trigger] g.adjacent(
            x,
            y,
        ) && !inside(y);
    assert(labels[x] == k && labels[y] != k);
    assert(owner[labels[x] as int] == cell[x]);
    if cell[y] == cell[x] {
        lemma_connected_refl(g, cell, x);
        crate::graph::lemma_reaches_step(g, crate::flood::cells_of(cell, cell[x]), x, x, y);
        labels_are_components(g, cell, x, y);
    }
    let m = choose|m: int| 0 <= m < g.valence(x) && #[trigger] g.nb(x, m) == y;
    lemma_slot_counts(g, cell, x, m, g.valence(x));
    lemma_contact_counts(g, cell, inside, cell[y], x, g.cells());
    assert(contacts(*g, cell, inside, cell[y], g.cells()) > 0);
}

proof fn lemma_slot_counts(g: &CellGraph, cell: Seq<u16>, c: int, j: int, k: int)
    requires
        0 <= j < k,
    ensures
        slot_hits(*g, cell, c, cell[g.nb(c, j)], k) > 0,
    decreases k,
{
    if j < k - 1 {
        lemma_slot_counts(g, cell, c, j, k - 1);
    }
}

proof fn lemma_contact_counts(
    g: &CellGraph,
    cell: Seq<u16>,
    inside: spec_fn(int) -> bool,
    q: u16,
    d: int,
    c: int,
)
    requires
        0 <= d < c,
        inside(d),
        slot_hits(*g, cell, d, q, g.valence(d)) > 0,
    ensures
        contacts(*g, cell, inside, q, c) > 0,
    decreases c,
{
    if d < c - 1 {
        lemma_contact_counts(g, cell, inside, q, d, c - 1);
    }
}

/// The cells of a plate's largest component stay with the plate.
pub proof fn the_largest_component_stays(
    g: &CellGraph,
    s: Sheet,
    calve_min: nat,
    max_plates: nat,
    c: int,
)
    requires
        g.wf(),
        g.symmetric(),
        s.cell.len() == g.cells(),
        max_plates <= u16::MAX,
        0 <= c < g.cells(),
        is_kept(
            component_sizes(*g, s.cell),
            component_plates(*g, s.cell),
            component_labels(*g, s.cell)[c] as int,
        ),
    ensures
        swept(*g, s, calve_min, max_plates).cell[c] == s.cell[c],
{
    lemma_stray_order_exists(g, s.cell);
    lemma_component_tables(g, s.cell);
    let order = strays(component_sizes(*g, s.cell), component_plates(*g, s.cell));
    let k = component_labels(*g, s.cell)[c] as int;
    lemma_placed(g, s.cell, s.plates, calve_min, max_plates, order.len() as int);
    assert forall|j: int| 0 <= j < order.len() implies #[trigger] order[j] != k by {}
}

/// A mosaic whose plates are each in one piece has no strays, and no sweep changes it.
pub proof fn sweeps_leave_whole_plates_alone(
    g: &CellGraph,
    s: Sheet,
    calve_min: nat,
    max_plates: nat,
    n: nat,
)
    requires
        g.wf(),
        g.symmetric(),
        s.cell.len() == g.cells(),
        forall|a: int, b: int|
            0 <= a < g.cells() && 0 <= b < g.cells() && s.cell[a] == s.cell[b] ==> #[trigger]
                connected(*g, s.cell, a, b),
    ensures
        swept_times(*g, s, calve_min, max_plates, n) == s,
    decreases n,
{
    if n > 0 {
        let size = component_sizes(*g, s.cell);
        let owner = component_plates(*g, s.cell);
        let labels = component_labels(*g, s.cell);
        lemma_component_tables(g, s.cell);
        lemma_stray_order_exists(g, s.cell);
        let order = strays(size, owner);
        assert forall|k: int| 0 <= k < size.len() implies #[trigger] is_kept(size, owner, k) by {
            assert forall|j: int|
                0 <= j < size.len() && j != k && #[trigger] owner[j] == owner[k] implies outranks(
                size,
                k,
                j,
            ) by {
                assert(component_sizes(*g, s.cell)[j] > 0 && component_sizes(*g, s.cell)[k] > 0);
                let a = choose|a: int| 0 <= a < s.cell.len() && #[trigger] labels[a] == j as u32;
                let b = choose|b: int| 0 <= b < s.cell.len() && #[trigger] labels[b] == k as u32;
                assert(owner[labels[a] as int] == s.cell[a]);
                assert(owner[labels[b] as int] == s.cell[b]);
                assert(connected(*g, s.cell, a, b));
                labels_are_components(g, s.cell, a, b);
            }
        }
        if order.len() > 0 {
            assert(!is_kept(size, owner, order[0] as int));
        }
        let t = swept(*g, s, calve_min, max_plates);
        assert forall|c: int| 0 <= c < s.cell.len() implies t.cell[c] == s.cell[c] by {
            assert(labels[c] < n_components(*g, s.cell));
        }
        assert(t.cell =~= s.cell);
        assert(t == s);
        sweeps_leave_whole_plates_alone(g, s, calve_min, max_plates, (n - 1) as nat);
    }
}

/// Every stray is named once, so that there are no more of them than components.
proof fn lemma_strays_fit(g: &CellGraph, cell: Seq<u16>)
    requires
        g.wf(),
        g.symmetric(),
        cell.len() == g.cells(),
    ensures
        strays(component_sizes(*g, cell), component_plates(*g, cell)).len() <= n_components(
            *g,
            cell,
        ),
{
    lemma_stray_order_exists(g, cell);
    let size = component_sizes(*g, cell);
    let order = strays(size, component_plates(*g, cell));
    let ids = order.map_values(|k: u32| k as int);
    assert forall|i: int, j: int| 0 <= i < ids.len() && 0 <= j < ids.len() && i != j implies ids[i]
        != ids[j] by {
        if i < j {
            assert(outranks(size, order[i] as int, order[j] as int));
        } else {
            assert(outranks(size, order[j] as int, order[i] as int));
        }
    }
    ids.unique_seq_to_set();
    let all = vstd::set_lib::set_int_range(0, size.len() as int);
    vstd::set_lib::lemma_int_range(0, size.len() as int);
    assert forall|k: int| ids.to_set().contains(k) implies all.contains(k) by {
        let i = choose|i: int| 0 <= i < ids.len() && ids[i] == k;
        assert(order[i] < size.len());
    }
    vstd::set_lib::lemma_len_subset(ids.to_set(), all);
}

/// Where every stray may calve, each becomes a plate of its own.
proof fn lemma_all_calve(
    g: &CellGraph,
    s: Sheet,
    calve_min: nat,
    max_plates: nat,
    i: int,
)
    requires
        g.wf(),
        g.symmetric(),
        s.cell.len() == g.cells(),
        s.covered(),
        max_plates <= u16::MAX,
        s.plates.len() + n_components(*g, s.cell) <= max_plates,
        forall|k: int|
            0 <= k < n_components(*g, s.cell) ==> #[trigger] component_sizes(*g, s.cell)[k]
                >= calve_min,
        0 <= i <= strays(component_sizes(*g, s.cell), component_plates(*g, s.cell)).len(),
    ensures
        ({
            let order = strays(component_sizes(*g, s.cell), component_plates(*g, s.cell));
            let (now, target) = placed(*g, s.cell, s.plates, calve_min, max_plates, i);
            &&& now.len() == s.plates.len() + i
            &&& target.len() == n_components(*g, s.cell)
            &&& forall|j: int|
                0 <= j < i ==> target[#[trigger] order[j] as int] == s.plates.len() + j
            &&& forall|k: int|
                0 <= k < target.len() && (forall|j: int| 0 <= j < i ==> #[trigger] order[j] != k)
                    ==> #[trigger] target[k] == u16::MAX
        }),
    decreases i,
{
    lemma_stray_order_exists(g, s.cell);
    lemma_strays_fit(g, s.cell);
    if i > 0 {
        lemma_all_calve(g, s, calve_min, max_plates, i - 1);
        let size = component_sizes(*g, s.cell);
        let owner = component_plates(*g, s.cell);
        let order = strays(size, owner);
        lemma_component_tables(g, s.cell);
        let k = order[i - 1];
        assert(k < size.len());
        assert(component_sizes(*g, s.cell)[k as int] > 0);
        let c = choose|c: int|
            0 <= c < s.cell.len() && #[trigger] component_labels(*g, s.cell)[c] == k as u32;
        assert(owner[component_labels(*g, s.cell)[c] as int] == s.cell[c]);
        assert(s.cell[c] < s.plates.len());
        assert forall|j: int| 0 <= j < i - 1 implies #[trigger] order[j] != k by {
            assert(outranks(size, order[j] as int, order[i - 1] as int));
        }
        let target0 = placed(*g, s.cell, s.plates, calve_min, max_plates, i - 1).1;
        let target = placed(*g, s.cell, s.plates, calve_min, max_plates, i).1;
        assert forall|m: int|
            0 <= m < target.len() && (forall|j: int| 0 <= j < i ==> #[trigger] order[j]
                != m) implies #[trigger] target[m] == u16::MAX by {
            assert(order[i - 1] != m);
            assert(target0[m] == u16::MAX);
        }
    }
}

/// Large fragments calve: where every fragment is large enough and there is room for as many
/// plates, a sweep gives each fragment a plate of its own, and two cells end on one plate
/// exactly where they were in one piece.
pub proof fn large_fragments_become_plates(
    g: &CellGraph,
    s: Sheet,
    calve_min: nat,
    max_plates: nat,
    a: int,
    b: int,
)
    requires
        g.wf(),
        g.symmetric(),
        s.cell.len() == g.cells(),
        s.covered(),
        max_plates <= u16::MAX,
        s.plates.len() + n_components(*g, s.cell) <= max_plates,
        forall|k: int|
            0 <= k < n_components(*g, s.cell) ==> #[trigger] component_sizes(*g, s.cell)[k]
                >= calve_min,
        0 <= a < g.cells(),
        0 <= b < g.cells(),
    ensures
        swept(*g, s, calve_min, max_plates).cell[a] == swept(*g, s, calve_min, max_plates).cell[b]
            <==> connected(*g, s.cell, a, b),
{
    let labels = component_labels(*g, s.cell);
    let size = component_sizes(*g, s.cell);
    let owner = component_plates(*g, s.cell);
    let order = strays(size, owner);
    lemma_stray_order_exists(g, s.cell);
    lemma_strays_fit(g, s.cell);
    lemma_component_tables(g, s.cell);
    lemma_all_calve(g, s, calve_min, max_plates, order.len() as int);
    labels_are_components(g, s.cell, a, b);
    let target = placed(*g, s.cell, s.plates, calve_min, max_plates, order.len() as int).1;
    let (ka, kb) = (labels[a] as int, labels[b] as int);
    assert(labels[a] < n_components(*g, s.cell) && owner[labels[a] as int] == s.cell[a]);
    assert(labels[b] < n_components(*g, s.cell) && owner[labels[b] as int] == s.cell[b]);
    assert(s.cell[a] < s.plates.len() && s.cell[b] < s.plates.len());
    lemma_stray_or_kept(size, owner, order, target, s.plates.len(), ka);
    lemma_stray_or_kept(size, owner, order, target, s.plates.len(), kb);
    if ka != kb {
        if is_kept(size, owner, ka) && is_kept(size, owner, kb) && owner[ka] == owner[kb] {
            assert(outranks(size, ka, kb) && outranks(size, kb, ka));
        }
        if !is_kept(size, owner, ka) && !is_kept(size, owner, kb) {
            let i = choose|i: int| 0 <= i < order.len() && order[i] == ka as u32;
            let j = choose|j: int| 0 <= j < order.len() && order[j] == kb as u32;
            assert(target[order[i] as int] == s.plates.len() + i);
            assert(target[order[j] as int] == s.plates.len() + j);
        }
    }
}

/// A kept component has nowhere to go; a stray has a plate that is new.
proof fn lemma_stray_or_kept(
    size: Seq<nat>,
    owner: Seq<u16>,
    order: Seq<u32>,
    target: Seq<u16>,
    np: nat,
    k: int,
)
    requires
        is_stray_order(size, owner, order),
        target.len() == size.len(),
        size.len() <= u32::MAX,
        np + order.len() <= u16::MAX,
        forall|j: int| 0 <= j < order.len() ==> target[#[trigger] order[j] as int] == np + j,
        forall|m: int|
            0 <= m < target.len() && (forall|j: int| 0 <= j < order.len() ==> #[trigger] order[j]
                != m) ==> #[trigger] target[m] == u16::MAX,
        0 <= k < size.len(),
    ensures
        is_kept(size, owner, k) ==> target[k] == u16::MAX,
        !is_kept(size, owner, k) ==> order.contains(k as u32) && np <= target[k] < u16::MAX,
{
    if is_kept(size, owner, k) {
        assert forall|j: int| 0 <= j < order.len() implies #[trigger] order[j] != k by {
            assert(!is_kept(size, owner, order[j] as int));
        }
    } else {
        assert(order.contains(k as u32));
        let j = choose|j: int| 0 <= j < order.len() && order[j] == k as u32;
        assert(target[order[j] as int] == np + j);
    }
}

/// Where the first `i` strays have gone, one that is too small to calve goes to the plate that
/// it touches most.
proof fn lemma_small_strays_join(
    g: &CellGraph,
    cell: Seq<u16>,
    plates: Seq<Plate>,
    calve_min: nat,
    max_plates: nat,
    i: int,
    j: int,
)
    requires
        g.wf(),
        g.symmetric(),
        cell.len() == g.cells(),
        is_stray_order(
            component_sizes(*g, cell),
            component_plates(*g, cell),
            strays(component_sizes(*g, cell), component_plates(*g, cell)),
        ),
        0 <= j < i <= strays(component_sizes(*g, cell), component_plates(*g, cell)).len(),
        max_plates <= u16::MAX,
        ({
            let k = strays(component_sizes(*g, cell), component_plates(*g, cell))[j] as int;
            component_sizes(*g, cell)[k] < calve_min
        }),
    ensures
        ({
            let k = strays(component_sizes(*g, cell), component_plates(*g, cell))[j];
            placed(*g, cell, plates, calve_min, max_plates, i).1[k as int] == most_touched(
                *g,
                cell,
                labelled(component_labels(*g, cell), k),
                component_plates(*g, cell)[k as int],
            )
        }),
    decreases i,
{
    let size = component_sizes(*g, cell);
    let order = strays(size, component_plates(*g, cell));
    lemma_placed(g, cell, plates, calve_min, max_plates, i - 1);
    assert(order[j] < size.len() && order[i - 1] < size.len());
    if j < i - 1 {
        lemma_small_strays_join(g, cell, plates, calve_min, max_plates, i - 1, j);
        assert(outranks(size, order[j] as int, order[i - 1] as int));
    }
}

/// A cell of a stray that is too small to calve goes where its stray touches most.
proof fn lemma_small_stray_cell(
    g: &CellGraph,
    s: Sheet,
    calve_min: nat,
    max_plates: nat,
    c: int,
)
    requires
        g.wf(),
        g.symmetric(),
        s.cell.len() == g.cells(),
        max_plates <= u16::MAX,
        0 <= c < g.cells(),
        !is_kept(
            component_sizes(*g, s.cell),
            component_plates(*g, s.cell),
            component_labels(*g, s.cell)[c] as int,
        ),
        count_eq(component_labels(*g, s.cell), component_labels(*g, s.cell)[c]) < calve_min,
    ensures
        ({
            let k = component_labels(*g, s.cell)[c];
            let r = most_touched(
                *g,
                s.cell,
                labelled(component_labels(*g, s.cell), k),
                s.cell[c],
            );
            swept(*g, s, calve_min, max_plates).cell[c] == (if r != u16::MAX {
                r
            } else {
                s.cell[c]
            })
        }),
{
    let labels = component_labels(*g, s.cell);
    let size = component_sizes(*g, s.cell);
    let owner = component_plates(*g, s.cell);
    let order = strays(size, owner);
    let k = labels[c];
    lemma_stray_order_exists(g, s.cell);
    lemma_component_tables(g, s.cell);
    assert(labels[c] < n_components(*g, s.cell) && owner[labels[c] as int] == s.cell[c]);
    assert(!is_kept(size, owner, k as int));
    assert(order.contains(k as int as u32));
    let j = choose|j: int| 0 <= j < order.len() && order[j] == k;
    assert(size[k as int] == count_eq(labels, k));
    lemma_small_strays_join(g, s.cell, s.plates, calve_min, max_plates, order.len() as int, j);
}

/// Small fragments rejoin: a cell of a stray with fewer than `calve_min` cells that touches
/// another plate goes to another plate that was there before, one that the stray touches and
/// that it touches no other plate more often than.
pub proof fn small_fragments_rejoin_a_neighbour(
    g: &CellGraph,
    s: Sheet,
    calve_min: nat,
    max_plates: nat,
    c: int,
    q: u16,
)
    requires
        g.wf(),
        g.symmetric(),
        s.cell.len() == g.cells(),
        s.covered(),
        s.plates.len() <= u16::MAX,
        max_plates <= u16::MAX,
        0 <= c < g.cells(),
        !is_kept(
            component_sizes(*g, s.cell),
            component_plates(*g, s.cell),
            component_labels(*g, s.cell)[c] as int,
        ),
        count_eq(component_labels(*g, s.cell), component_labels(*g, s.cell)[c]) < calve_min,
        q != s.cell[c],
        contacts(
            *g,
            s.cell,
            labelled(component_labels(*g, s.cell), component_labels(*g, s.cell)[c]),
            q,
            g.cells(),
        ) > 0,
    ensures
        ({
            let inside = labelled(component_labels(*g, s.cell), component_labels(*g, s.cell)[c]);
            let to = swept(*g, s, calve_min, max_plates).cell[c];
            &&& to != s.cell[c]
            &&& to < s.plates.len()
            &&& contacts(*g, s.cell, inside, to, g.cells()) >= contacts(
                *g,
                s.cell,
                inside,
                q,
                g.cells(),
            )
        }),
{
    let inside = labelled(component_labels(*g, s.cell), component_labels(*g, s.cell)[c]);
    lemma_small_stray_cell(g, s, calve_min, max_plates, c);
    lemma_most_touched(g, s.cell, inside, s.cell[c]);
    lemma_most_touched_exists(g, s.cell, inside, s.cell[c]);
    let r = most_touched(*g, s.cell, inside, s.cell[c]);
    let d = choose|d: int| 0 <= d < s.cell.len() && #[trigger] s.cell[d] == r;
    assert(s.cell[d] < s.plates.len());
}

/// A neighbour outside a region is a contact of the region.
pub(crate) proof fn lemma_neighbour_is_contact(
    g: &CellGraph,
    cell: Seq<u16>,
    inside: spec_fn(int) -> bool,
    x: int,
    y: int,
)
    requires
        0 <= x < g.cells(),
        inside(x),
        g.adjacent(x, y),
    ensures
        contacts(*g, cell, inside, cell[y], g.cells()) > 0,
{
    let m = choose|m: int| 0 <= m < g.valence(x) && #[trigger] g.nb(x, m) == y;
    lemma_slot_counts(g, cell, x, m, g.valence(x));
    lemma_contact_counts(g, cell, inside, cell[y], x, g.cells());
}

proof fn lemma_nothing_calves(
    g: &CellGraph,
    cell: Seq<u16>,
    plates: Seq<Plate>,
    calve_min: nat,
    max_plates: nat,
    i: int,
)
    requires
        g.wf(),
        g.symmetric(),
        cell.len() == g.cells(),
        calve_min > g.cells(),
        is_stray_order(
            component_sizes(*g, cell),
            component_plates(*g, cell),
            strays(component_sizes(*g, cell), component_plates(*g, cell)),
        ),
        0 <= i <= strays(component_sizes(*g, cell), component_plates(*g, cell)).len(),
    ensures
        placed(*g, cell, plates, calve_min, max_plates, i).0 == plates,
    decreases i,
{
    if i > 0 {
        lemma_nothing_calves(g, cell, plates, calve_min, max_plates, i - 1);
        let size = component_sizes(*g, cell);
        let k = strays(size, component_plates(*g, cell))[i - 1];
        assert(k < size.len());
        lemma_count_bound(component_labels(*g, cell), k);
        assert(size[k as int] <= g.cells());
    }
}

/// Where no fragment can be large enough, no sweep makes a plate.
pub proof fn nothing_calves_below_the_limit(
    g: &CellGraph,
    s: Sheet,
    calve_min: nat,
    max_plates: nat,
    n: nat,
)
    requires
        g.wf(),
        g.symmetric(),
        s.cell.len() == g.cells(),
        calve_min > g.cells(),
    ensures
        swept_times(*g, s, calve_min, max_plates, n).plates == s.plates,
    decreases n,
{
    if n > 0 {
        lemma_stray_order_exists(g, s.cell);
        let order = strays(component_sizes(*g, s.cell), component_plates(*g, s.cell));
        lemma_nothing_calves(g, s.cell, s.plates, calve_min, max_plates, order.len() as int);
        nothing_calves_below_the_limit(
            g,
            swept(*g, s, calve_min, max_plates),
            calve_min,
            max_plates,
            (n - 1) as nat,
        );
    }
}

} // verus!
