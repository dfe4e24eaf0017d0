//! Which plates a region of cells touches, and how often.

use rustc_hash::{FxBuildHasher, FxHashMap};
use vstd::prelude::*;
use crate::flood::cells_of;
use crate::graph::CellGraph;

verus! {

/// The hasher of `rustc_hash`. Nothing is claimed of the hash values.
#[verifier::external_type_specification]
#[verifier::external_body]
pub struct ExFxBuildHasher(FxBuildHasher);

/// `FxHashMap::default`: the map starts empty.
#[verifier::external_body]
pub(crate) fn map_new() -> (m: FxHashMap<u16, u32>)
    ensures
        forall|k: u16| !#[trigger] m@.dom().contains(k),
{
    FxHashMap::default()
}

/// `FxHashMap::get`: the value stored under `k`, if there is one.
#[verifier::external_body]
pub(crate) fn map_get(m: &FxHashMap<u16, u32>, k: u16) -> (v: Option<u32>)
    ensures
        v == (if m@.dom().contains(k) {
            Some(m@[k])
        } else {
            None
        }),
{
    m.get(&k).copied()
}

/// `FxHashMap::insert`: `v` is stored under `k`, in place of what was there.
#[verifier::external_body]
pub(crate) fn map_insert(m: &mut FxHashMap<u16, u32>, k: u16, v: u32)
    ensures
        final(m)@ == old(m)@.insert(k, v),
{
    m.insert(k, v);
}

/// `FxHashMap::keys`: every key once, in an order that is left open.
#[verifier::external_body]
pub(crate) fn map_keys(m: &FxHashMap<u16, u32>) -> (keys: Vec<u16>)
    ensures
        keys@.no_duplicates(),
        forall|k: u16| keys@.contains(k) <==> #[trigger] m@.dom().contains(k),
{
    m.keys().copied().collect()
}

/// The number stored under `q`, zero where there is none.
pub open spec fn tally(m: Map<u16, u32>, q: u16) -> nat {
    if m.dom().contains(q) {
        m[q] as nat
    } else {
        0
    }
}

/// The cells labelled `k`.
pub open spec fn labelled(label: Seq<u32>, k: u32) -> spec_fn(int) -> bool {
    |c: int| label[c] == k
}

/// How many of the first `k` neighbours of cell `c` belong to plate `q`.
pub open spec fn slot_hits(g: CellGraph, plate: Seq<u16>, c: int, q: u16, k: int) -> nat
    decreases k,
{
    if k <= 0 {
        0
    } else {
        slot_hits(g, plate, c, q, k - 1) + if plate[g.nb(c, k - 1)] == q {
            1nat
        } else {
            0nat
        }
    }
}

/// How many edges lead from the cells before `c` that `inside` admits to plate `q`.
pub open spec fn contacts(
    g: CellGraph,
    plate: Seq<u16>,
    inside: spec_fn(int) -> bool,
    q: u16,
    c: int,
) -> nat
    decreases c,
{
    if c <= 0 {
        0
    } else {
        contacts(g, plate, inside, q, c - 1) + if inside(c - 1) {
            slot_hits(g, plate, c - 1, q, g.valence(c - 1))
        } else {
            0nat
        }
    }
}

/// `r` is the plate other than `own` that the region touches most often, the
/// lowest id where several tie; `u16::MAX` where it touches none.
pub open spec fn touches_most(
    g: CellGraph,
    plate: Seq<u16>,
    inside: spec_fn(int) -> bool,
    own: u16,
    r: u16,
) -> bool {
    let n = g.cells();
    if exists|q: u16| q != own && #[trigger] contacts(g, plate, inside, q, n) > 0 {
        &&& r != own
        &&& contacts(g, plate, inside, r, n) > 0
        &&& forall|q: u16|
            q != own ==> {
                ||| #[trigger] contacts(g, plate, inside, q, n) < contacts(g, plate, inside, r, n)
                ||| contacts(g, plate, inside, q, n) == contacts(g, plate, inside, r, n) && r <= q
            }
    } else {
        r == u16::MAX
    }
}

/// The plate other than `own` that the region touches most often.
pub open spec fn most_touched(
    g: CellGraph,
    plate: Seq<u16>,
    inside: spec_fn(int) -> bool,
    own: u16,
) -> u16 {
    choose|r: u16| touches_most(g, plate, inside, own, r)
}

/// At most one plate is the most touched.
pub proof fn lemma_touches_most_unique(
    g: CellGraph,
    plate: Seq<u16>,
    inside: spec_fn(int) -> bool,
    own: u16,
    r: u16,
)
    requires
        touches_most(g, plate, inside, own, r),
    ensures
        r == most_touched(g, plate, inside, own),
{
    let s = most_touched(g, plate, inside, own);
    assert(touches_most(g, plate, inside, own, s));
    if exists|q: u16| q != own && #[trigger] contacts(g, plate, inside, q, g.cells()) > 0 {
        assert(contacts(g, plate, inside, r, g.cells()) >= 0);
        assert(contacts(g, plate, inside, s, g.cells()) >= 0);
    }
}

pub proof fn lemma_slot_hits_bound(g: CellGraph, plate: Seq<u16>, c: int, q: u16, k: int)
    requires
        0 <= k,
    ensures
        slot_hits(g, plate, c, q, k) <= k,
    decreases k,
{
    if k > 0 {
        lemma_slot_hits_bound(g, plate, c, q, k - 1);
    }
}

pub proof fn lemma_contacts_bound(
    g: CellGraph,
    plate: Seq<u16>,
    inside: spec_fn(int) -> bool,
    q: u16,
    c: int,
)
    requires
        g.wf(),
        0 <= c <= g.cells(),
    ensures
        contacts(g, plate, inside, q, c) <= g.offsets@[c],
    decreases c,
{
    if c > 0 {
        lemma_contacts_bound(g, plate, inside, q, c - 1);
        assert(g.offsets@[c - 1] <= g.offsets@[c]);
        lemma_slot_hits_bound(g, plate, c - 1, q, g.valence(c - 1));
    }
}

/// Counts the neighbours of cell `c` by plate, those of plate `own` left out.
pub(crate) fn tally_cell(
    g: &CellGraph,
    plate: &[u16],
    c: usize,
    own: u16,
    m: &mut FxHashMap<u16, u32>,
)
    requires
        g.wf(),
        plate@.len() == g.cells(),
        c < g.cells(),
        forall|q: u16| #[trigger] tally(old(m)@, q) + g.valence(c as int) <= u32::MAX,
    ensures
        tally(final(m)@, own) == tally(old(m)@, own),
        forall|q: u16|
            q != own ==> #[trigger] tally(final(m)@, q) == tally(old(m)@, q) + slot_hits(
                *g,
                plate@,
                c as int,
                q,
                g.valence(c as int),
            ),
{
    let ghost m0 = m@;
    let deg = g.degree(c);
    let mut k: usize = 0;
    while k < deg
        invariant
            k <= deg,
            deg == g.valence(c as int),
            g.wf(),
            plate@.len() == g.cells(),
            c < g.cells(),
            forall|q: u16| #[trigger] tally(m0, q) + deg <= u32::MAX,
            tally(m@, own) == tally(m0, own),
            forall|q: u16|
                q != own ==> #[trigger] tally(m@, q) == tally(m0, q) + slot_hits(
                    *g,
                    plate@,
                    c as int,
                    q,
                    k as int,
                ),
        decreases deg - k,
    {
        let ghost m1 = m@;
        let x: usize = g.neighbor(c, k);
        let p = plate[x];
        if p != own {
            proof {
                lemma_slot_hits_bound(*g, plate@, c as int, p, k as int);
                assert(tally(m@, p) == tally(m0, p) + slot_hits(
                    *g,
                    plate@,
                    c as int,
                    p,
                    k as int,
                ));
            }
            let seen: u32 = match map_get(m, p) {
                Some(v) => v,
                None => 0,
            };
            map_insert(m, p, seen + 1);
        }
        proof {
            assert forall|q: u16| q != own implies #[trigger] tally(m@, q) == tally(m0, q)
                + slot_hits(*g, plate@, c as int, q, k + 1) by {
                assert(tally(m1, q) == tally(m0, q) + slot_hits(*g, plate@, c as int, q, k as int));
                assert(plate@[g.nb(c as int, k as int)] == p);
            }
        }
        k = k + 1;
    }
}

/// The key with the largest number, the lowest key where several tie;
/// `u16::MAX` where no number is positive.
pub(crate) fn pick_most(m: &FxHashMap<u16, u32>) -> (r: u16)
    ensures
        (exists|q: u16| #[trigger] tally(m@, q) > 0) ==> {
            &&& tally(m@, r) > 0
            &&& forall|q: u16|
                #[trigger] tally(m@, q) < tally(m@, r) || (tally(m@, q) == tally(m@, r) && r <= q)
        },
        (forall|q: u16| #[trigger] tally(m@, q) == 0) ==> r == u16::MAX,
{
    let keys = map_keys(m);
    let mut pick: u16 = u16::MAX;
    let mut pick_n: u32 = 0;
    let mut i: usize = 0;
    while i < keys.len()
        invariant
            i <= keys@.len(),
            forall|k: u16| keys@.contains(k) <==> #[trigger] m@.dom().contains(k),
            pick_n == 0 ==> pick == u16::MAX,
            pick_n > 0 ==> tally(m@, pick) == pick_n,
            forall|j: int|
                0 <= j < i ==> {
                    ||| tally(m@, #[trigger] keys@[j]) < pick_n
                    ||| tally(m@, keys@[j]) == pick_n && (pick_n == 0 || pick <= keys@[j])
                },
        decreases keys@.len() - i,
    {
        let q = keys[i];
        assert(keys@.contains(q));
        match map_get(m, q) {
            Some(v) => {
                assert(tally(m@, q) == v);
                if v > pick_n || (v == pick_n && v > 0 && q < pick) {
                    pick_n = v;
                    pick = q;
                }
            },
            None => {},
        }
        i = i + 1;
    }
    proof {
        assert forall|q: u16| #[trigger] tally(m@, q) > 0 implies pick_n > 0 && (tally(m@, q)
            < pick_n || (tally(m@, q) == pick_n && pick <= q)) by {
            assert(m@.dom().contains(q));
            assert(keys@.contains(q));
            let j = choose|j: int| 0 <= j < keys@.len() && keys@[j] == q;
            assert(keys@[j] == q);
        }
    }
    pick
}

/// The plate other than `own` that the cells labelled `k` touch most often.
pub fn most_touched_by_label(
    g: &CellGraph,
    plate: &[u16],
    label: &[u32],
    k: u32,
    own: u16,
) -> (r: u16)
    requires
        g.wf(),
        plate@.len() == g.cells(),
        label@.len() == g.cells(),
    ensures
        r == most_touched(*g, plate@, labelled(label@, k), own),
{
    let ghost inside = labelled(label@, k);
    let n = g.n_cells();
    let mut m = map_new();
    let mut c: usize = 0;
    while c < n
        invariant
            c <= n,
            n == g.cells(),
            g.wf(),
            plate@.len() == g.cells(),
            label@.len() == g.cells(),
            inside == labelled(label@, k),
            tally(m@, own) == 0,
            forall|q: u16|
                q != own ==> #[trigger] tally(m@, q) == contacts(*g, plate@, inside, q, c as int),
        decreases n - c,
    {
        if label[c] == k {
            proof {
                assert forall|q: u16| #[trigger] tally(m@, q) + g.valence(c as int) <= u32::MAX by {
                    lemma_contacts_bound(*g, plate@, inside, q, c as int);
                    assert(g.offsets@[c as int] <= g.offsets@[c + 1]);
                }
            }
            tally_cell(g, plate, c, own, &mut m);
        }
        c = c + 1;
    }
    let r = pick_most(&m);
    proof {
        lemma_pick_is_most(g, plate@, inside, own, m@, r);
    }
    r
}

/// The plate that the cells of plate `p` touch most often, `p` itself left out.
pub fn most_touched_by_plate(g: &CellGraph, plate: &[u16], p: u16) -> (r: u16)
    requires
        g.wf(),
        plate@.len() == g.cells(),
    ensures
        r == most_touched(*g, plate@, cells_of(plate@, p), p),
{
    let ghost inside = cells_of(plate@, p);
    let n = g.n_cells();
    let mut m = map_new();
    let mut c: usize = 0;
    while c < n
        invariant
            c <= n,
            n == g.cells(),
            g.wf(),
            plate@.len() == g.cells(),
            inside == cells_of(plate@, p),
            tally(m@, p) == 0,
            forall|q: u16|
                q != p ==> #[trigger] tally(m@, q) == contacts(*g, plate@, inside, q, c as int),
        decreases n - c,
    {
        if plate[c] == p {
            proof {
                assert forall|q: u16| #[trigger] tally(m@, q) + g.valence(c as int) <= u32::MAX by {
                    lemma_contacts_bound(*g, plate@, inside, q, c as int);
                    assert(g.offsets@[c as int] <= g.offsets@[c + 1]);
                }
            }
            tally_cell(g, plate, c, p, &mut m);
        }
        c = c + 1;
    }
    let r = pick_most(&m);
    proof {
        lemma_pick_is_most(g, plate@, inside, p, m@, r);
    }
    r
}

/// The best key of a complete tally is the most touched plate.
proof fn lemma_pick_is_most(
    g: &CellGraph,
    plate: Seq<u16>,
    inside: spec_fn(int) -> bool,
    own: u16,
    m: Map<u16, u32>,
    r: u16,
)
    requires
        tally(m, own) == 0,
        forall|q: u16|
            q != own ==> #[trigger] tally(m, q) == contacts(*g, plate, inside, q, g.cells()),
        (exists|q: u16| #[trigger] tally(m, q) > 0) ==> {
            &&& tally(m, r) > 0
            &&& forall|q: u16|
                #[trigger] tally(m, q) < tally(m, r) || (tally(m, q) == tally(m, r) && r <= q)
        },
        (forall|q: u16| #[trigger] tally(m, q) == 0) ==> r == u16::MAX,
    ensures
        r == most_touched(*g, plate, inside, own),
{
    let n = g.cells();
    if exists|q: u16| q != own && #[trigger] contacts(*g, plate, inside, q, n) > 0 {
        let q = choose|q: u16| q != own && #[trigger] contacts(*g, plate, inside, q, n) > 0;
        assert(tally(m, q) > 0);
        assert forall|q: u16| q != own implies {
            ||| #[trigger] contacts(*g, plate, inside, q, n) < contacts(*g, plate, inside, r, n)
            ||| contacts(*g, plate, inside, q, n) == contacts(*g, plate, inside, r, n) && r <= q
        } by {
            assert(tally(m, q) == contacts(*g, plate, inside, q, n));
        }
    } else {
        assert forall|q: u16| #[trigger] tally(m, q) == 0 by {
            if q != own {
                assert(contacts(*g, plate, inside, q, n) == 0);
            }
        }
    }
    assert(touches_most(*g, plate, inside, own, r));
    lemma_touches_most_unique(*g, plate, inside, own, r);
}

/// Every slot whose neighbour is on plate `q` is one contact, and no other is.
pub proof fn every_neighbour_is_one_contact(
    g: &CellGraph,
    plate: Seq<u16>,
    c: int,
    q: u16,
    k: int,
)
    requires
        0 <= k,
    ensures
        Set::new(|j: int| 0 <= j < k && plate[g.nb(c, j)] == q).finite(),
        slot_hits(*g, plate, c, q, k) == Set::new(
            |j: int| 0 <= j < k && plate[g.nb(c, j)] == q,
        ).len(),
    decreases k,
{
    let now = Set::new(|j: int| 0 <= j < k && plate[g.nb(c, j)] == q);
    if k > 0 {
        every_neighbour_is_one_contact(g, plate, c, q, k - 1);
        let before = Set::new(|j: int| 0 <= j < k - 1 && plate[g.nb(c, j)] == q);
        if plate[g.nb(c, k - 1)] == q {
            assert(now =~= before.insert(k - 1));
        } else {
            assert(now =~= before);
        }
    } else {
        assert(now =~= Set::empty());
    }
}

/// A region has as many contacts with a plate as its cells have neighbours there: each cell of
/// the region adds its own, a cell outside adds none.
pub proof fn contacts_are_of_the_region_alone(
    g: &CellGraph,
    plate: Seq<u16>,
    inside: spec_fn(int) -> bool,
    q: u16,
    c: int,
)
    requires
        0 <= c < g.cells(),
        g.wf(),
    ensures
        contacts(*g, plate, inside, q, c + 1) - contacts(*g, plate, inside, q, c) == (if inside(c) {
            Set::new(|j: int| 0 <= j < g.valence(c) && plate[g.nb(c, j)] == q).len() as int
        } else {
            0
        }),
        contacts(*g, plate, inside, q, 0) == 0,
{
    assert(g.offsets@[c] <= g.offsets@[c + 1]);
    every_neighbour_is_one_contact(g, plate, c, q, g.valence(c));
}

} // verus!
