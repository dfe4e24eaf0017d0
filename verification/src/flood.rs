//! Flood filling on the cell graph, and the connected components of plates.

use vstd::prelude::*;
use crate::graph::{
    lemma_closed_holds_reach, lemma_reaches_self, lemma_reaches_step, lemma_reaches_symmetric,
    lemma_reaches_trans, CellGraph,
};

verus! {

/// Mark of a cell that no flood has reached.
pub const UNMARKED: u32 = u32::MAX;

/// How often `v` occurs in `s`.
pub open spec fn count_eq<T>(s: Seq<T>, v: T) -> nat
    decreases s.len(),
{
    if s.len() == 0 {
        0
    } else {
        count_eq(s.drop_last(), v) + if s.last() == v {
            1nat
        } else {
            0nat
        }
    }
}

pub proof fn lemma_count_push<T>(s: Seq<T>, x: T, v: T)
    ensures
        count_eq(s.push(x), v) == count_eq(s, v) + (if x == v {
            1nat
        } else {
            0nat
        }),
{
    assert(s.push(x).drop_last() =~= s);
}

pub proof fn lemma_count_update<T>(s: Seq<T>, i: int, x: T, v: T)
    requires
        0 <= i < s.len(),
    ensures
        count_eq(s.update(i, x), v) + (if s[i] == v {
            1nat
        } else {
            0nat
        }) == count_eq(s, v) + (if x == v {
            1nat
        } else {
            0nat
        }),
    decreases s.len(),
{
    let t = s.update(i, x);
    if i == s.len() - 1 {
        assert(t.drop_last() =~= s.drop_last());
    } else {
        assert(t.drop_last() =~= s.drop_last().update(i, x));
        lemma_count_update(s.drop_last(), i, x, v);
    }
}

pub proof fn lemma_count_bound<T>(s: Seq<T>, v: T)
    ensures
        count_eq(s, v) <= s.len(),
    decreases s.len(),
{
    if s.len() > 0 {
        lemma_count_bound(s.drop_last(), v);
    }
}

pub proof fn lemma_count_positive<T>(s: Seq<T>, v: T, i: int)
    requires
        0 <= i < s.len(),
        s[i] == v,
    ensures
        count_eq(s, v) > 0,
    decreases s.len(),
{
    if i < s.len() - 1 {
        lemma_count_positive(s.drop_last(), v, i);
    }
}

pub proof fn lemma_count_absent<T>(s: Seq<T>, v: T)
    requires
        forall|i: int| 0 <= i < s.len() ==> s[i] != v,
    ensures
        count_eq(s, v) == 0,
    decreases s.len(),
{
    if s.len() > 0 {
        assert forall|i: int| 0 <= i < s.drop_last().len() implies s.drop_last()[i] != v by {
            assert(s.drop_last()[i] == s[i]);
        }
        lemma_count_absent(s.drop_last(), v);
    }
}

/// The cells of plate `p` that are still unmarked.
pub open spec fn unmarked_of(plate: Seq<u16>, mark: Seq<u32>, p: u16) -> spec_fn(int) -> bool {
    |c: int| mark[c] == UNMARKED && plate[c] == p
}

/// `mark` after everything that `seed` reaches over unmarked cells of its own
/// plate has been marked `id`.
pub open spec fn flooded(
    g: CellGraph,
    plate: Seq<u16>,
    mark: Seq<u32>,
    seed: int,
    id: u32,
) -> Seq<u32> {
    Seq::new(
        mark.len(),
        |c: int|
            if g.reaches(unmarked_of(plate, mark, plate[seed]), seed, c) {
                id
            } else {
                mark[c]
            },
    )
}

/// Marks with `id` every cell that `seed` reaches over unmarked cells of its own
/// plate, and returns how many there are.
pub fn flood(g: &CellGraph, plate: &[u16], mark: &mut Vec<u32>, seed: usize, id: u32) -> (size:
    usize)
    requires
        g.wf(),
        plate@.len() == g.cells(),
        old(mark)@.len() == g.cells(),
        seed < g.cells(),
        old(mark)@[seed as int] == UNMARKED,
        id != UNMARKED,
    ensures
        final(mark)@ == flooded(*g, plate@, old(mark)@, seed as int, id),
        size + count_eq(old(mark)@, id) == count_eq(final(mark)@, id),
        size >= 1,
{
    let ghost before = mark@;
    let p: u16 = plate[seed];
    let ghost open = unmarked_of(plate@, before, p);
    let ghost s = seed as int;
    let mut stack: Vec<usize> = Vec::new();
    let mut size: usize = 0;
    proof {
        lemma_reaches_self(g, open, s);
        lemma_count_update(mark@, s, id, id);
        lemma_count_update(mark@, s, id, UNMARKED);
    }
    mark.set(seed, id);
    stack.push(seed);
    assert(stack@[0] == seed);
    while stack.len() > 0
        invariant
            g.wf(),
            plate@.len() == g.cells(),
            before.len() == g.cells(),
            mark@.len() == g.cells(),
            0 <= s < g.cells(),
            p == plate@[s],
            before[s] == UNMARKED,
            id != UNMARKED,
            open == unmarked_of(plate@, before, p),
            mark@[s] == id,
            size + stack@.len() >= 1,
            size + stack@.len() + count_eq(before, id) == count_eq(mark@, id),
            forall|c: int|
                0 <= c < g.cells() ==> #[trigger] mark@[c] == before[c] || (before[c] == UNMARKED
                    && mark@[c] == id && g.reaches(open, s, c)),
            forall|i: int|
                0 <= i < stack@.len() ==> (#[trigger] stack@[i]) < g.cells()
                    && before[stack@[i] as int] == UNMARKED && mark@[stack@[i] as int] == id,
            forall|x: int, k: int|
                0 <= x < g.cells() && before[x] == UNMARKED && mark@[x] == id && !stack@.contains(
                    x as usize,
                ) && 0 <= k < g.valence(x) && open(#[trigger] g.nb(x, k)) ==> mark@[g.nb(x, k)]
                    == id,
        decreases count_eq(mark@, UNMARKED), stack@.len(),
    {
        let ghost stack0 = stack@;
        let ghost unmarked0 = count_eq(mark@, UNMARKED);
        let x = stack.pop().unwrap();
        let ghost xi = x as int;
        proof {
            lemma_count_bound(mark@, id);
            assert(stack0[stack0.len() - 1] == x);
            assert forall|y: usize| stack0.contains(y) && y != x implies stack@.contains(y) by {
                let i = choose|i: int| 0 <= i < stack0.len() && stack0[i] == y;
                assert(stack@[i] == y);
            }
            assert(g.reaches(open, s, xi)) by {
                assert(mark@[xi] == id);
                if mark@[xi] == before[xi] {
                }
            }
        }
        size = size + 1;
        let deg = g.degree(x);
        let mut k: usize = 0;
        while k < deg
            invariant
                k <= deg,
                deg == g.valence(xi),
                xi == x,
                x < g.cells(),
                g.wf(),
                plate@.len() == g.cells(),
                before.len() == g.cells(),
                mark@.len() == g.cells(),
                0 <= s < g.cells(),
                p == plate@[s],
                before[s] == UNMARKED,
                id != UNMARKED,
                open == unmarked_of(plate@, before, p),
                mark@[s] == id,
                g.reaches(open, s, xi),
                before[xi] == UNMARKED,
                mark@[xi] == id,
                size >= 1,
                size + stack@.len() + count_eq(before, id) == count_eq(mark@, id),
                count_eq(mark@, UNMARKED) < unmarked0 || (count_eq(mark@, UNMARKED) == unmarked0
                    && stack@.len() < stack0.len()),
                forall|c: int|
                    0 <= c < g.cells() ==> #[trigger] mark@[c] == before[c] || (before[c]
                        == UNMARKED && mark@[c] == id && g.reaches(open, s, c)),
                forall|i: int|
                    0 <= i < stack@.len() ==> (#[trigger] stack@[i]) < g.cells()
                        && before[stack@[i] as int] == UNMARKED && mark@[stack@[i] as int] == id,
                forall|y: int, j: int|
                    0 <= y < g.cells() && y != xi && before[y] == UNMARKED && mark@[y] == id
                        && !stack@.contains(y as usize) && 0 <= j < g.valence(y) && open(
                        #[trigger] g.nb(y, j),
                    ) ==> mark@[g.nb(y, j)] == id,
                forall|j: int|
                    0 <= j < k && open(#[trigger] g.nb(xi, j)) ==> mark@[g.nb(xi, j)] == id,
            decreases deg - k,
        {
            let m = g.neighbor(x, k);
            if mark[m] == UNMARKED && plate[m] == p {
                let ghost mark1 = mark@;
                let ghost stack1 = stack@;
                proof {
                    assert(mark@[m as int] == before[m as int]);
                    assert(open(m as int));
                    assert(g.adjacent(xi, m as int)) by {
                        assert(g.nb(xi, k as int) == m as int);
                    }
                    lemma_reaches_step(g, open, s, xi, m as int);
                    lemma_count_update(mark@, m as int, id, id);
                    lemma_count_update(mark@, m as int, id, UNMARKED);
                }
                mark.set(m, id);
                stack.push(m);
                proof {
                    assert(stack@[stack1.len() as int] == m);
                    assert forall|y: usize| stack1.contains(y) implies stack@.contains(y) by {
                        let i = choose|i: int| 0 <= i < stack1.len() && stack1[i] == y;
                        assert(stack@[i] == y);
                    }
                    assert(stack@.contains(m));
                }
            } else {
                proof {
                    if open(g.nb(xi, k as int)) {
                        assert(mark@[m as int] != UNMARKED);
                        assert(mark@[m as int] == id);
                    }
                }
            }
            k = k + 1;
        }
    }
    proof {
        let held = |c: int| before[c] == UNMARKED && mark@[c] == id;
        assert forall|x: int, y: int|
            0 <= x < g.cells() && 0 <= y < g.cells() && held(x) && open(y) && #[trigger] g.adjacent(
                x,
                y,
            ) implies held(y) by {
            let k = choose|k: int| 0 <= k < g.valence(x) && #[trigger] g.nb(x, k) == y;
            assert(open(g.nb(x, k)));
        }
        assert forall|c: int| 0 <= c < g.cells() implies mark@[c] == flooded(
            *g,
            plate@,
            before,
            s,
            id,
        )[c] by {
            if g.reaches(open, s, c) {
                lemma_closed_holds_reach(g, open, held, s, c);
            }
        }
        assert(mark@ =~= flooded(*g, plate@, before, s, id));
    }
    size
}

/// The cells of plate `p`.
pub open spec fn cells_of(plate: Seq<u16>, p: u16) -> spec_fn(int) -> bool {
    |c: int| plate[c] == p
}

/// Cells `a` and `b` belong to one plate, and a walk inside it joins them.
pub open spec fn connected(g: CellGraph, plate: Seq<u16>, a: int, b: int) -> bool {
    g.reaches(cells_of(plate, plate[a]), a, b)
}

/// No cell before `c` is connected to it.
pub open spec fn is_root(g: CellGraph, plate: Seq<u16>, c: int) -> bool {
    forall|d: int| 0 <= d < c ==> !#[trigger] connected(g, plate, d, c)
}

/// The first cell of the component that `c` belongs to.
pub open spec fn root_of(g: CellGraph, plate: Seq<u16>, c: int) -> int {
    choose|r: int|
        0 <= r <= c && #[trigger] connected(g, plate, r, c) && is_root(g, plate, r)
}

/// Number of components that start before cell `c`.
pub open spec fn roots_before(g: CellGraph, plate: Seq<u16>, c: int) -> nat
    decreases c,
{
    if c <= 0 {
        0
    } else {
        roots_before(g, plate, c - 1) + if is_root(g, plate, c - 1) {
            1nat
        } else {
            0nat
        }
    }
}

/// The label of every cell: components are numbered by their first cells.
pub open spec fn component_labels(g: CellGraph, plate: Seq<u16>) -> Seq<u32> {
    Seq::new(
        plate.len(),
        |c: int| roots_before(g, plate, root_of(g, plate, c)) as u32,
    )
}

pub proof fn lemma_connected_refl(g: &CellGraph, plate: Seq<u16>, a: int)
    requires
        plate.len() == g.cells(),
        0 <= a < g.cells(),
    ensures
        connected(*g, plate, a, a),
{
    lemma_reaches_self(g, cells_of(plate, plate[a]), a);
}

pub proof fn lemma_connected_plate(g: &CellGraph, plate: Seq<u16>, a: int, b: int)
    requires
        connected(*g, plate, a, b),
    ensures
        plate[a] == plate[b],
        0 <= a < g.cells(),
        0 <= b < g.cells(),
{
    let open = cells_of(plate, plate[a]);
    let w = choose|walk: Seq<int>| #[trigger]
        g.is_walk(open, walk) && walk[0] == a && walk.last() == b;
    assert(open(w.last()));
    assert(open(w[0]));
}

pub proof fn lemma_connected_sym(g: &CellGraph, plate: Seq<u16>, a: int, b: int)
    requires
        g.symmetric(),
        connected(*g, plate, a, b),
    ensures
        connected(*g, plate, b, a),
{
    lemma_connected_plate(g, plate, a, b);
    lemma_reaches_symmetric(g, cells_of(plate, plate[a]), a, b);
}

pub proof fn lemma_connected_trans(g: &CellGraph, plate: Seq<u16>, a: int, b: int, c: int)
    requires
        connected(*g, plate, a, b),
        connected(*g, plate, b, c),
    ensures
        connected(*g, plate, a, c),
{
    lemma_connected_plate(g, plate, a, b);
    lemma_reaches_trans(g, cells_of(plate, plate[a]), a, b, c);
}

/// Every cell belongs to exactly one component, which its first cell names.
pub proof fn lemma_root_exists(g: &CellGraph, plate: Seq<u16>, c: int)
    requires
        g.symmetric(),
        plate.len() == g.cells(),
        0 <= c < g.cells(),
    ensures
        0 <= root_of(*g, plate, c) <= c,
        connected(*g, plate, root_of(*g, plate, c), c),
        is_root(*g, plate, root_of(*g, plate, c)),
        forall|r: int|
            0 <= r < g.cells() && is_root(*g, plate, r) && #[trigger] connected(*g, plate, r, c)
                ==> r == root_of(*g, plate, c),
{
    lemma_root_witness(g, plate, c, c);
    let r0 = root_of(*g, plate, c);
    assert forall|r: int|
        0 <= r < g.cells() && is_root(*g, plate, r) && #[trigger] connected(
            *g,
            plate,
            r,
            c,
        ) implies r == r0 by {
        lemma_connected_sym(g, plate, r, c);
        lemma_connected_sym(g, plate, r0, c);
        lemma_connected_trans(g, plate, r0, c, r);
        lemma_connected_trans(g, plate, r, c, r0);
    }
}

proof fn lemma_root_witness(g: &CellGraph, plate: Seq<u16>, d: int, c: int)
    requires
        g.symmetric(),
        plate.len() == g.cells(),
        0 <= d <= c < g.cells(),
        connected(*g, plate, d, c) || d == c,
    ensures
        exists|r: int|
            0 <= r <= c && #[trigger] connected(*g, plate, r, c) && is_root(*g, plate, r),
    decreases d,
{
    if d == c {
        lemma_connected_refl(g, plate, c);
    }
    if is_root(*g, plate, d) {
        assert(connected(*g, plate, d, c));
    } else {
        let e = choose|e: int| 0 <= e < d && #[trigger] connected(*g, plate, e, d);
        lemma_connected_trans(g, plate, e, d, c);
        lemma_root_witness(g, plate, e, c);
    }
}

pub proof fn lemma_roots_before_bound(g: &CellGraph, plate: Seq<u16>, c: int)
    requires
        0 <= c,
    ensures
        roots_before(*g, plate, c) <= c,
    decreases c,
{
    if c > 0 {
        lemma_roots_before_bound(g, plate, c - 1);
    }
}

pub proof fn lemma_roots_before_mono(g: &CellGraph, plate: Seq<u16>, a: int, b: int)
    requires
        0 <= a <= b,
    ensures
        roots_before(*g, plate, a) <= roots_before(*g, plate, b),
        a < b && is_root(*g, plate, a) ==> roots_before(*g, plate, a) < roots_before(*g, plate, b),
    decreases b - a,
{
    if a < b {
        lemma_roots_before_mono(g, plate, a + 1, b);
    }
}

/// Two cells carry one label exactly when they are connected inside their plate.
pub proof fn labels_are_components(g: &CellGraph, plate: Seq<u16>, a: int, b: int)
    requires
        g.wf(),
        g.symmetric(),
        plate.len() == g.cells(),
        0 <= a < g.cells(),
        0 <= b < g.cells(),
    ensures
        component_labels(*g, plate)[a] == component_labels(*g, plate)[b] <==> connected(
            *g,
            plate,
            a,
            b,
        ),
{
    lemma_root_exists(g, plate, a);
    lemma_root_exists(g, plate, b);
    let ra = root_of(*g, plate, a);
    let rb = root_of(*g, plate, b);
    lemma_roots_before_bound(g, plate, ra);
    lemma_roots_before_bound(g, plate, rb);
    if connected(*g, plate, a, b) {
        lemma_connected_trans(g, plate, ra, a, b);
        assert(ra == rb);
    }
    if roots_before(*g, plate, ra) == roots_before(*g, plate, rb) {
        if ra < rb {
            lemma_roots_before_mono(g, plate, ra, rb);
        } else if rb < ra {
            lemma_roots_before_mono(g, plate, rb, ra);
        }
        assert(ra == rb);
        lemma_connected_sym(g, plate, ra, a);
        lemma_connected_trans(g, plate, a, ra, b);
    }
}

/// Labels every cell with the index of its connected component within its own
/// plate, in order of the components' first cells, and returns how many there
/// are.
pub fn plate_components(g: &CellGraph, plate: &[u16], out: &mut Vec<u32>) -> (n: u32)
    requires
        g.wf(),
        g.symmetric(),
        plate@.len() == g.cells(),
        old(out)@.len() == g.cells(),
    ensures
        final(out)@ == component_labels(*g, plate@),
        n == roots_before(*g, plate@, g.cells()),
        forall|c: int| 0 <= c < g.cells() ==> (#[trigger] final(out)@[c]) < n,
{
    let n = g.n_cells();
    let mut i: usize = 0;
    while i < n
        invariant
            i <= n,
            n == g.cells(),
            out@.len() == n,
            forall|c: int| 0 <= c < i ==> out@[c] == UNMARKED,
        decreases n - i,
    {
        out.set(i, UNMARKED);
        i = i + 1;
    }
    let mut next: u32 = 0;
    let mut c: usize = 0;
    proof {
        assert forall|x: int| 0 <= x < n implies 0 <= #[trigger] root_of(*g, plate@, x) by {
            lemma_root_exists(g, plate@, x);
        }
    }
    while c < n
        invariant
            c <= n,
            n == g.cells(),
            g.wf(),
            g.symmetric(),
            plate@.len() == n,
            out@.len() == n,
            next == roots_before(*g, plate@, c as int),
            forall|x: int|
                0 <= x < n ==> #[trigger] out@[x] == (if root_of(*g, plate@, x) < c {
                    roots_before(*g, plate@, root_of(*g, plate@, x)) as u32
                } else {
                    UNMARKED
                }),
        decreases n - c,
    {
        proof {
            lemma_roots_before_bound(g, plate@, c as int);
            lemma_root_exists(g, plate@, c as int);
            lemma_roots_before_bound(g, plate@, root_of(*g, plate@, c as int));
        }
        if out[c] == UNMARKED {
            let ghost before = out@;
            let ghost ci = c as int;
            assert(root_of(*g, plate@, ci) == ci);
            let _ = flood(g, plate, out, c, next);
            proof {
                assert forall|y: int| 0 <= y < g.cells() implies (#[trigger] before[y] == UNMARKED
                    <==> root_of(*g, plate@, y) >= ci) by {
                    lemma_root_exists(g, plate@, y);
                    lemma_roots_before_bound(g, plate@, root_of(*g, plate@, y));
                }
                assert forall|x: int| 0 <= x < n implies #[trigger] out@[x] == (if root_of(
                    *g,
                    plate@,
                    x,
                ) < ci + 1 {
                    roots_before(*g, plate@, root_of(*g, plate@, x)) as u32
                } else {
                    UNMARKED
                }) by {
                    lemma_root_exists(g, plate@, x);
                    lemma_flood_is_component(g, plate@, before, ci, x);
                }
            }
            next = next + 1;
        } else {
            proof {
                assert(!is_root(*g, plate@, c as int)) by {
                    if is_root(*g, plate@, c as int) {
                        lemma_connected_refl(g, plate@, c as int);
                    }
                }
                assert forall|x: int| 0 <= x < n implies root_of(*g, plate@, x) != c as int by {
                    lemma_root_exists(g, plate@, x);
                }
                assert forall|x: int| 0 <= x < n implies #[trigger] out@[x] == (if root_of(
                    *g,
                    plate@,
                    x,
                ) < c + 1 {
                    roots_before(*g, plate@, root_of(*g, plate@, x)) as u32
                } else {
                    UNMARKED
                }) by {
                    assert(root_of(*g, plate@, x) != c as int);
                }
            }
        }
        c = c + 1;
    }
    proof {
        assert forall|x: int| 0 <= x < n implies (#[trigger] out@[x]) < next && out@[x]
            == component_labels(*g, plate@)[x] by {
            lemma_root_exists(g, plate@, x);
            let r = root_of(*g, plate@, x);
            lemma_roots_before_mono(g, plate@, r, n as int);
            lemma_roots_before_bound(g, plate@, n as int);
        }
        assert(out@ =~= component_labels(*g, plate@));
    }
    next
}

/// Flooding from the first cell of a component, when the marked cells are those
/// of earlier components, reaches exactly that component.
proof fn lemma_flood_is_component(
    g: &CellGraph,
    plate: Seq<u16>,
    mark: Seq<u32>,
    c: int,
    x: int,
)
    requires
        g.wf(),
        g.symmetric(),
        plate.len() == g.cells(),
        mark.len() == g.cells(),
        0 <= c < g.cells(),
        0 <= x < g.cells(),
        root_of(*g, plate, c) == c,
        forall|y: int|
            0 <= y < g.cells() ==> (#[trigger] mark[y] == UNMARKED <==> root_of(*g, plate, y)
                >= c),
    ensures
        g.reaches(unmarked_of(plate, mark, plate[c]), c, x) <==> root_of(*g, plate, x) == c,
{
    let open = unmarked_of(plate, mark, plate[c]);
    let same = cells_of(plate, plate[c]);
    lemma_root_exists(g, plate, c);
    lemma_root_exists(g, plate, x);
    if g.reaches(open, c, x) {
        let w = choose|walk: Seq<int>| #[trigger]
            g.is_walk(open, walk) && walk[0] == c && walk.last() == x;
        assert(g.is_walk(same, w)) by {
            assert forall|i: int| 0 <= i < w.len() implies 0 <= #[trigger] w[i] < g.cells() && same(
                w[i],
            ) by {
                assert(open(w[i]));
            }
        }
        assert(connected(*g, plate, c, x));
    }
    if root_of(*g, plate, x) == c {
        let held = |y: int| g.reaches(open, c, y);
        assert(mark[c] == UNMARKED);
        lemma_reaches_self(g, open, c);
        assert forall|y: int, z: int|
            0 <= y < g.cells() && 0 <= z < g.cells() && held(y) && same(z) && #[trigger] g.adjacent(
                y,
                z,
            ) implies held(z) by {
            lemma_reaches_mono(g, open, same, c, y);
            lemma_reaches_step(g, same, c, y, z);
            lemma_root_exists(g, plate, z);
            assert(connected(*g, plate, c, z));
            assert(root_of(*g, plate, z) == c);
            assert(mark[z] == UNMARKED);
            lemma_reaches_step(g, open, c, y, z);
        }
        lemma_closed_holds_reach(g, same, held, c, x);
    }
}

/// Admitting more cells keeps every walk.
pub proof fn lemma_reaches_mono(
    g: &CellGraph,
    open: spec_fn(int) -> bool,
    wider: spec_fn(int) -> bool,
    a: int,
    b: int,
)
    requires
        g.reaches(open, a, b),
        forall|c: int| 0 <= c < g.cells() && #[trigger] open(c) ==> wider(c),
    ensures
        g.reaches(wider, a, b),
{
    let w = choose|walk: Seq<int>| #[trigger]
        g.is_walk(open, walk) && walk[0] == a && walk.last() == b;
    assert(g.is_walk(wider, w)) by {
        assert forall|i: int| 0 <= i < w.len() implies 0 <= #[trigger] w[i] < g.cells() && wider(
            w[i],
        ) by {
            assert(open(w[i]));
        }
    }
}

/// Two namings of the same cells count alike where they tell the same cells from cell `a`.
pub proof fn lemma_count_renamed<S, T>(x: Seq<S>, y: Seq<T>, u: S, v: T)
    requires
        x.len() == y.len(),
        forall|i: int| 0 <= i < x.len() ==> (#[trigger] x[i] == u <==> y[i] == v),
    ensures
        count_eq(x, u) == count_eq(y, v),
    decreases x.len(),
{
    if x.len() > 0 {
        assert forall|i: int| 0 <= i < x.drop_last().len() implies (#[trigger] x.drop_last()[i] == u
            <==> y.drop_last()[i] == v) by {
            assert(x.drop_last()[i] == x[i]);
        }
        lemma_count_renamed(x.drop_last(), y.drop_last(), u, v);
        assert(x[x.len() - 1] == u <==> y[x.len() - 1] == v);
    }
}

/// How often a value occurs is the number of places where it stands.
pub proof fn counting_finds_every_place<T>(s: Seq<T>, v: T)
    ensures
        Set::new(|i: int| 0 <= i < s.len() && s[i] == v).finite(),
        count_eq(s, v) == Set::new(|i: int| 0 <= i < s.len() && s[i] == v).len(),
    decreases s.len(),
{
    let now = Set::new(|i: int| 0 <= i < s.len() && s[i] == v);
    if s.len() > 0 {
        let rest = s.drop_last();
        counting_finds_every_place(rest, v);
        let before = Set::new(|i: int| 0 <= i < rest.len() && rest[i] == v);
        if s.last() == v {
            assert(now =~= before.insert(s.len() - 1));
        } else {
            assert(now =~= before);
        }
    } else {
        assert(now =~= Set::empty());
    }
}

} // verus!
