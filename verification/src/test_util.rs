//! Stand-ins for tests: small meshes, a store in memory, trivial processes.

use vstd::prelude::*;
use crate::geometry::CornerLists;
use crate::graph::CellGraph;
use crate::text::{chars_of, spells, string_of};

verus! {

/// Level that the small meshes report: the lowest that a configuration can hold.
pub const MIN_LEVEL: u8 = 4;

/// Connectivity of a small mesh.
pub struct SmallMesh {
    pub level: u8,
    pub graph: CellGraph,
    pub corners: CornerLists,
}

/// Cell `c` of a mesh has exactly the neighbours `list`.
pub open spec fn has_neighbors(g: CellGraph, c: int, list: Seq<u32>) -> bool {
    &&& g.valence(c) == list.len()
    &&& forall|k: int| 0 <= k < list.len() ==> #[trigger] g.nb(c, k) == list[k]
}

/// Cell `c` of `n` has three corners: itself and the two cells that follow it around.
pub open spec fn has_three_corners(m: CornerLists, c: int, n: int) -> bool {
    &&& m.count(c) == 3
    &&& forall|k: int| 0 <= k < 3 ==> #[trigger] m.corner(c, k) == (c + k) % n
}

/// A mesh of the given adjacency with three made-up corners per cell.
pub open spec fn is_synthetic(m: SmallMesh, level: u8, lists: Seq<Vec<u32>>) -> bool {
    &&& m.level == level
    &&& m.graph.wf()
    &&& m.corners.wf()
    &&& m.graph.cells() == lists.len()
    &&& m.corners.cells() == lists.len()
    &&& m.corners.n_vertices == lists.len()
    &&& forall|c: int| 0 <= c < lists.len() ==> #[trigger] has_neighbors(m.graph, c, lists[c]@)
    &&& forall|c: int|
        0 <= c < lists.len() ==> #[trigger] has_three_corners(m.corners, c, lists.len() as int)
}

/// Entries of the first `i` lists.
pub open spec fn entries(lists: Seq<Vec<u32>>, i: int) -> nat
    decreases i,
{
    if i <= 0 {
        0
    } else {
        entries(lists, i - 1) + lists[i - 1]@.len()
    }
}

/// More lists hold no fewer entries.
proof fn lemma_entries_grow(lists: Seq<Vec<u32>>, a: int, b: int)
    requires
        0 <= a <= b,
    ensures
        entries(lists, a) <= entries(lists, b),
    decreases b,
{
    if a < b {
        lemma_entries_grow(lists, a, b - 1);
    }
}

/// Adjacency lists back to back.
fn join_lists(lists: &Vec<Vec<u32>>) -> (g: CellGraph)
    requires
        lists@.len() < u32::MAX,
        entries(lists@, lists@.len() as int) <= u32::MAX,
        forall|c: int, k: int|
            0 <= c < lists@.len() && 0 <= k < lists@[c]@.len() ==> #[trigger] lists@[c]@[k]
                < lists@.len(),
    ensures
        g.wf(),
        g.cells() == lists@.len(),
        forall|c: int| 0 <= c < lists@.len() ==> #[trigger] has_neighbors(g, c, lists@[c]@),
{
    let mut offsets: Vec<u32> = vec![0];
    let mut neighbors: Vec<u32> = Vec::new();
    let mut c: usize = 0;
    while c < lists.len()
        invariant
            c <= lists@.len() < u32::MAX,
            entries(lists@, lists@.len() as int) <= u32::MAX,
            offsets@.len() == c + 1,
            neighbors@.len() == entries(lists@, c as int),
            forall|i: int| 0 <= i <= c ==> #[trigger] offsets@[i] == entries(lists@, i),
            forall|i: int, k: int|
                0 <= i < lists@.len() && 0 <= k < lists@[i]@.len() ==> #[trigger] lists@[i]@[k]
                    < lists@.len(),
            forall|k: int| 0 <= k < neighbors@.len() ==> #[trigger] neighbors@[k] < lists@.len(),
            forall|i: int, k: int|
                0 <= i < c && 0 <= k < lists@[i]@.len() ==> neighbors@[entries(lists@, i) + k]
                    == #[trigger] lists@[i]@[k],
        decreases lists@.len() - c,
    {
        proof {
            lemma_entries_grow(lists@, c + 1, lists@.len() as int);
        }
        let ghost was = neighbors@;
        let mut k: usize = 0;
        while k < lists[c].len()
            invariant
                c < lists@.len() < u32::MAX,
                k <= lists@[c as int]@.len(),
                was.len() == entries(lists@, c as int),
                neighbors@ == was + lists@[c as int]@.take(k as int),
            decreases lists@[c as int]@.len() - k,
        {
            neighbors.push(lists[c][k]);
            k = k + 1;
            assert(neighbors@ =~= was + lists@[c as int]@.take(k as int));
        }
        assert(lists@[c as int]@.take(k as int) =~= lists@[c as int]@);
        offsets.push(neighbors.len() as u32);
        proof {
            assert forall|i: int, k: int|
                0 <= i < c + 1 && 0 <= k < lists@[i]@.len() implies neighbors@[entries(lists@, i)
                + k] == #[trigger] lists@[i]@[k] by {
                if i < c {
                    lemma_entries_grow(lists@, i + 1, c as int);
                    assert(was[entries(lists@, i) + k] == lists@[i]@[k]);
                }
            }
            assert forall|k: int| 0 <= k < neighbors@.len() implies #[trigger] neighbors@[k]
                < lists@.len() by {
                if k >= was.len() {
                    assert(neighbors@[k] == lists@[c as int]@[k - was.len()]);
                } else {
                    assert(neighbors@[k] == was[k]);
                }
            }
        }
        c = c + 1;
    }
    let g = CellGraph { offsets, neighbors };
    proof {
        assert forall|i: int, j: int| 0 <= i <= j < g.offsets@.len() implies g.offsets@[i]
            <= g.offsets@[j] by {
            lemma_entries_grow(lists@, i, j);
        }
        assert forall|i: int| 0 <= i < lists@.len() implies #[trigger] has_neighbors(
            g,
            i,
            lists@[i]@,
        ) by {
            assert(g.offsets@[i] == entries(lists@, i));
            assert(g.offsets@[i + 1] == entries(lists@, i + 1));
            assert forall|k: int| 0 <= k < lists@[i]@.len() implies #[trigger] g.nb(i, k)
                == lists@[i]@[k] by {
                assert(g.neighbors@[entries(lists@, i) + k] == lists@[i]@[k]);
            }
        }
    }
    g
}

/// Three corners per cell, taken from the cells around.
fn three_corners(n: usize) -> (m: CornerLists)
    requires
        3 * n <= u32::MAX,
    ensures
        m.wf(),
        m.cells() == n,
        m.n_vertices == n,
        forall|c: int| 0 <= c < n ==> #[trigger] has_three_corners(m, c, n as int),
{
    let mut offsets: Vec<u32> = vec![0];
    let mut corners: Vec<u32> = Vec::new();
    let mut c: usize = 0;
    while c < n
        invariant
            c <= n,
            3 * n <= u32::MAX,
            offsets@.len() == c + 1,
            corners@.len() == 3 * c,
            forall|i: int| 0 <= i <= c ==> #[trigger] offsets@[i] == 3 * i,
            forall|i: int, k: int|
                #![trigger ((i + k) % n as int), corners@[3 * i + k]]
                0 <= i < c && 0 <= k < 3 ==> corners@[3 * i + k] == (i + k) % n as int,
            forall|k: int| 0 <= k < corners@.len() ==> #[trigger] corners@[k] < n,
        decreases n - c,
    {
        let ghost was = corners@;
        corners.push((c % n) as u32);
        corners.push(((c as u64 + 1) % n as u64) as u32);
        corners.push(((c as u64 + 2) % n as u64) as u32);
        offsets.push((3 * c + 3) as u32);
        proof {
            assert(corners@[3 * c + 0] == (c + 0) % n as int);
            assert(corners@[3 * c + 1] == (c + 1) % n as int);
            assert(corners@[3 * c + 2] == (c + 2) % n as int);
            assert forall|i: int, k: int|
                #![trigger ((i + k) % n as int), corners@[3 * i + k]]
                0 <= i < c + 1 && 0 <= k < 3 implies corners@[3 * i + k] == (i + k) % n as int by {
                if i < c {
                    assert(corners@[3 * i + k] == was[3 * i + k]);
                    assert(was[3 * i + k] == (i + k) % n as int);
                } else {
                    assert(k == 0 || k == 1 || k == 2);
                }
            }
        }
        c = c + 1;
    }
    let m = CornerLists { offsets, corners, n_vertices: n };
    proof {
        assert forall|i: int| 0 <= i < n implies #[trigger] has_three_corners(m, i, n as int) by {
            assert(m.offsets@[i] == 3 * i);
            assert(m.offsets@[i + 1] == 3 * (i + 1));
            assert forall|k: int| 0 <= k < 3 implies #[trigger] m.corner(i, k) == (i + k)
                % n as int by {
                assert(m.corners@[3 * i + k] == (i + k) % n as int);
            }
        }
    }
    m
}

/// A mesh of the given adjacency with three made-up corners per cell.
fn synthetic_mesh(level: u8, lists: &Vec<Vec<u32>>) -> (m: SmallMesh)
    requires
        3 * lists@.len() <= u32::MAX,
        entries(lists@, lists@.len() as int) <= u32::MAX,
        forall|c: int, k: int|
            0 <= c < lists@.len() && 0 <= k < lists@[c]@.len() ==> #[trigger] lists@[c]@[k]
                < lists@.len(),
    ensures
        is_synthetic(m, level, lists@),
{
    let graph = join_lists(lists);
    let corners = three_corners(lists.len());
    SmallMesh { level, graph, corners }
}

/// The neighbours of cell `c` of a tetrahedron: the other three.
pub open spec fn tetrahedron_list(c: int) -> Seq<u32> {
    if c == 0 {
        seq![1u32, 2, 3]
    } else if c == 1 {
        seq![0u32, 2, 3]
    } else if c == 2 {
        seq![0u32, 1, 3]
    } else {
        seq![0u32, 1, 2]
    }
}

/// Four cells, each adjacent to the other three.
pub fn tiny_mesh() -> (m: SmallMesh)
    ensures
        m.level == MIN_LEVEL,
        m.graph.wf(),
        m.corners.wf(),
        m.graph.cells() == 4,
        m.corners.cells() == 4,
        m.corners.n_vertices == 4,
        forall|c: int| 0 <= c < 4 ==> #[trigger] has_neighbors(m.graph, c, tetrahedron_list(c)),
        forall|c: int| 0 <= c < 4 ==> #[trigger] has_three_corners(m.corners, c, 4),
{
    let a: Vec<u32> = vec![1, 2, 3];
    let b: Vec<u32> = vec![0, 2, 3];
    let c: Vec<u32> = vec![0, 1, 3];
    let d: Vec<u32> = vec![0, 1, 2];
    assert(a@ =~= tetrahedron_list(0));
    assert(b@ =~= tetrahedron_list(1));
    assert(c@ =~= tetrahedron_list(2));
    assert(d@ =~= tetrahedron_list(3));
    let lists: Vec<Vec<u32>> = vec![a, b, c, d];
    proof {
        reveal_with_fuel(entries, 5);
    }
    let m = synthetic_mesh(MIN_LEVEL, &lists);
    assert forall|c: int| 0 <= c < 4 implies #[trigger] has_neighbors(
        m.graph,
        c,
        tetrahedron_list(c),
    ) by {
        assert(has_neighbors(m.graph, c, lists@[c]@));
        assert(lists@[c]@ == tetrahedron_list(c));
    }
    m
}

/// The neighbours of cell `c` of a ring of `n`: the one before and the one after.
pub open spec fn ring_list(c: int, n: int) -> Seq<u32> {
    seq![((c + n - 1) % n) as u32, ((c + 1) % n) as u32]
}

/// The number of entries of pairs.
proof fn lemma_pair_entries(lists: Seq<Vec<u32>>, i: int)
    requires
        0 <= i <= lists.len(),
        forall|c: int| 0 <= c < lists.len() ==> (#[trigger] lists[c])@.len() == 2,
    ensures
        entries(lists, i) == 2 * i,
    decreases i,
{
    if i > 0 {
        lemma_pair_entries(lists, i - 1);
    }
}

/// `n` cells around the equator, each adjacent to the one before and the one after.
pub fn ring_mesh(n: usize) -> (m: SmallMesh)
    requires
        3 <= n,
        3 * n <= u32::MAX,
    ensures
        m.level == MIN_LEVEL,
        m.graph.wf(),
        m.corners.wf(),
        m.graph.cells() == n,
        m.corners.cells() == n,
        m.corners.n_vertices == n,
        forall|c: int| 0 <= c < n ==> #[trigger] has_neighbors(m.graph, c, ring_list(c, n as int)),
        forall|c: int| 0 <= c < n ==> #[trigger] has_three_corners(m.corners, c, n as int),
{
    let mut lists: Vec<Vec<u32>> = Vec::new();
    let mut c: usize = 0;
    while c < n
        invariant
            3 <= n,
            3 * n <= u32::MAX,
            c <= n,
            lists@.len() == c,
            forall|i: int| 0 <= i < c ==> (#[trigger] lists@[i])@ == ring_list(i, n as int),
        decreases n - c,
    {
        let before: u32 = ((c as u64 + n as u64 - 1) % n as u64) as u32;
        let after: u32 = ((c as u64 + 1) % n as u64) as u32;
        let pair: Vec<u32> = vec![before, after];
        assert(pair@ =~= ring_list(c as int, n as int));
        lists.push(pair);
        c = c + 1;
    }
    proof {
        lemma_pair_entries(lists@, n as int);
        assert forall|c: int, k: int|
            0 <= c < lists@.len() && 0 <= k < lists@[c]@.len() implies #[trigger] lists@[c]@[k]
            < lists@.len() by {
            assert(lists@[c]@ == ring_list(c, n as int));
            assert((c + n - 1) % n as int >= 0 && (c + n - 1) % n as int <= n - 1);
            assert((c + 1) % n as int >= 0 && (c + 1) % n as int <= n - 1);
        }
    }
    let m = synthetic_mesh(MIN_LEVEL, &lists);
    assert forall|c: int| 0 <= c < n implies #[trigger] has_neighbors(
        m.graph,
        c,
        ring_list(c, n as int),
    ) by {
        assert(has_neighbors(m.graph, c, lists@[c]@));
    }
    m
}

/// The cells before and after a cell of a ring.
proof fn lemma_ring_steps(c: int, n: int)
    requires
        0 <= c < n,
        n >= 3,
    ensures
        (c + n - 1) % n == (if c == 0 {
            n - 1
        } else {
            c - 1
        }),
        (c + 1) % n == (if c == n - 1 {
            0
        } else {
            c + 1
        }),
{
    if c == 0 {
        vstd::arithmetic::div_mod::lemma_small_mod((n - 1) as nat, n as nat);
    } else {
        vstd::arithmetic::div_mod::lemma_mod_add_multiples_vanish(c - 1, n);
        vstd::arithmetic::div_mod::lemma_small_mod((c - 1) as nat, n as nat);
        assert(c + n - 1 == n + (c - 1));
    }
    if c < n - 1 {
        vstd::arithmetic::div_mod::lemma_small_mod((c + 1) as nat, n as nat);
    } else {
        vstd::arithmetic::div_mod::lemma_mod_self_0(n);
    }
}

/// A ring can be walked both ways along every edge.
pub proof fn rings_are_symmetric(g: CellGraph, n: int)
    requires
        n >= 3,
        g.cells() == n,
        forall|c: int| 0 <= c < n ==> #[trigger] has_neighbors(g, c, ring_list(c, n)),
        n <= u32::MAX,
    ensures
        g.symmetric(),
{
    assert forall|a: int, b: int|
        0 <= a < g.cells() && 0 <= b < g.cells() && #[trigger] g.adjacent(
            a,
            b,
        ) implies g.adjacent(b, a) by {
        let k = choose|k: int| 0 <= k < g.valence(a) && #[trigger] g.nb(a, k) == b;
        assert(has_neighbors(g, a, ring_list(a, n)));
        assert(has_neighbors(g, b, ring_list(b, n)));
        assert(g.nb(a, k) == ring_list(a, n)[k]);
        lemma_ring_steps(a, n);
        lemma_ring_steps(b, n);
        if k == 0 {
            assert(g.nb(b, 1) == a);
        } else {
            assert(g.nb(b, 0) == a);
        }
    }
}

/// Checkpoints in memory: one per tag, in the order in which the tags first came.
pub struct MemoryStore<T> {
    pub entries: Vec<(String, T)>,
}

/// Entry `i` holds the tag `tag`.
pub open spec fn tagged<T>(entries: Seq<(String, T)>, i: int, tag: Seq<char>) -> bool {
    0 <= i < entries.len() && entries[i].0@ == tag
}

impl<T> MemoryStore<T> {
    /// No tag occurs twice.
    pub open spec fn wf(&self) -> bool {
        forall|i: int, j: int|
            0 <= i < j < self.entries@.len() ==> #[trigger] self.entries@[i].0@
                != #[trigger] self.entries@[j].0@
    }

    /// The tags, oldest first.
    pub open spec fn tag_list(&self) -> Seq<Seq<char>> {
        Seq::new(self.entries@.len(), |i: int| self.entries@[i].0@)
    }

    /// Something is stored under `tag`.
    pub open spec fn has(&self, tag: Seq<char>) -> bool {
        exists|i: int| tagged(self.entries@, i, tag)
    }

    /// What is stored under `tag`.
    pub open spec fn held(&self, tag: Seq<char>) -> T {
        self.entries@[choose|i: int| tagged(self.entries@, i, tag)].1
    }

    /// An empty store.
    pub fn new() -> (s: MemoryStore<T>)
        ensures
            s.wf(),
            s.entries@.len() == 0,
    {
        MemoryStore { entries: Vec::new() }
    }

    /// Number of tags.
    pub fn len(&self) -> (n: usize)
        ensures
            n == self.entries@.len(),
    {
        self.entries.len()
    }

    /// Whether nothing has been saved.
    pub fn is_empty(&self) -> (b: bool)
        ensures
            b == (self.entries@.len() == 0),
    {
        self.entries.len() == 0
    }

    /// The tags, oldest first.
    pub fn tags(&self) -> (tags: Vec<String>)
        ensures
            tags@.len() == self.entries@.len(),
            forall|i: int|
                0 <= i < tags@.len() ==> (#[trigger] tags@[i])@ == self.entries@[i].0@,
    {
        let mut tags: Vec<String> = Vec::new();
        let mut i: usize = 0;
        while i < self.entries.len()
            invariant
                i <= self.entries@.len(),
                tags@.len() == i,
                forall|k: int| 0 <= k < i ==> (#[trigger] tags@[k])@ == self.entries@[k].0@,
            decreases self.entries@.len() - i,
        {
            tags.push(self.entries[i].0.clone());
            i = i + 1;
        }
        tags
    }

    /// Where a tag is.
    fn find(&self, tag: &str) -> (r: Option<usize>)
        requires
            self.wf(),
        ensures
            match r {
                Some(i) => tagged(self.entries@, i as int, tag@),
                None => !self.has(tag@),
            },
    {
        let mut i: usize = 0;
        while i < self.entries.len()
            invariant
                i <= self.entries@.len(),
                forall|k: int| 0 <= k < i ==> !#[trigger] tagged(self.entries@, k, tag@),
            decreases self.entries@.len() - i,
        {
            let c = chars_of(self.entries[i].0.as_str());
            assert(c@.subrange(0, c@.len() as int) =~= c@);
            if spells(&c, 0, c.len(), tag) {
                return Some(i);
            }
            i = i + 1;
        }
        None
    }

    /// Stores under a tag, in place of what was there.
    pub fn save(&mut self, tag: &str, planet: T)
        requires
            old(self).wf(),
        ensures
            final(self).wf(),
            final(self).has(tag@),
            final(self).held(tag@) == planet,
            old(self).has(tag@) ==> final(self).tag_list() == old(self).tag_list(),
            !old(self).has(tag@) ==> final(self).tag_list() == old(self).tag_list().push(tag@),
            forall|other: Seq<char>|
                other != tag@ ==> (#[trigger] final(self).has(other) == old(self).has(other)),
            forall|other: Seq<char>|
                other != tag@ && old(self).has(other) ==> #[trigger] final(self).held(other)
                    == old(self).held(other),
    {
        let ghost was = self.entries@;
        match self.find(tag) {
            Some(i) => {
                let name = self.entries[i].0.clone();
                self.entries.set(i, (name, planet));
                proof {
                    assert(tagged(was, i as int, tag@));
                    assert(self.entries@[i as int].0@ == was[i as int].0@);
                    assert forall|a: int, b: int| 0 <= a < b < self.entries@.len() implies (
                    #[trigger] self.entries@[a]).0@ != (#[trigger] self.entries@[b]).0@ by {
                        assert(was[a].0@ != was[b].0@);
                    }
                    assert(self.tag_list() =~= old(self).tag_list());
                    lemma_same_tags(*old(self), *self, tag@, i as int, planet);
                }
            },
            None => {
                let c = chars_of(tag);
                let name = string_of(c.as_slice(), 0, c.len());
                assert(c@.subrange(0, c@.len() as int) =~= c@);
                self.entries.push((name, planet));
                proof {
                    let n = was.len() as int;
                    assert forall|a: int, b: int| 0 <= a < b < self.entries@.len() implies (
                    #[trigger] self.entries@[a]).0@ != (#[trigger] self.entries@[b]).0@ by {
                        if b == n {
                            assert(!tagged(was, a, tag@));
                        } else {
                            assert(was[a].0@ != was[b].0@);
                        }
                    }
                    assert(self.tag_list() =~= old(self).tag_list().push(tag@));
                    lemma_same_tags(*old(self), *self, tag@, n, planet);
                }
            },
        }
    }

    /// What is stored under a tag.
    pub fn load(&self, tag: &str) -> (r: Option<&T>)
        requires
            self.wf(),
        ensures
            r is Some == self.has(tag@),
            r matches Some(p) ==> *p == self.held(tag@),
    {
        match self.find(tag) {
            Some(i) => {
                proof {
                    let j = choose|j: int| tagged(self.entries@, j, tag@);
                    assert(tagged(self.entries@, i as int, tag@));
                    assert(tagged(self.entries@, j, tag@));
                    assert(i == j) by {
                        if i < j {
                            assert(self.entries@[i as int].0@ != self.entries@[j].0@);
                        } else if j < i {
                            assert(self.entries@[j].0@ != self.entries@[i as int].0@);
                        }
                    }
                }
                Some(&self.entries[i].1)
            },
            None => None,
        }
    }
}

/// Setting one entry, or appending one, leaves what is stored under other tags.
proof fn lemma_same_tags<T>(
    a: MemoryStore<T>,
    b: MemoryStore<T>,
    tag: Seq<char>,
    at: int,
    planet: T,
)
    requires
        a.wf(),
        b.wf(),
        0 <= at < b.entries@.len(),
        a.entries@.len() <= b.entries@.len() <= a.entries@.len() + 1,
        b.entries@.len() == a.entries@.len() + 1 ==> at == a.entries@.len(),
        b.entries@[at].0@ == tag,
        b.entries@[at].1 == planet,
        at < a.entries@.len() ==> a.entries@[at].0@ == tag,
        forall|i: int|
            0 <= i < a.entries@.len() && i != at ==> #[trigger] b.entries@[i] == a.entries@[i],
    ensures
        b.has(tag),
        b.held(tag) == planet,
        forall|other: Seq<char>| other != tag ==> (#[trigger] b.has(other) == a.has(other)),
        forall|other: Seq<char>|
            other != tag && a.has(other) ==> #[trigger] b.held(other) == a.held(other),
{
    assert(tagged(b.entries@, at, tag));
    lemma_held(b, at, tag);
    assert forall|other: Seq<char>| other != tag implies (#[trigger] b.has(other) == a.has(
        other,
    )) by {
        if a.has(other) {
            let i = choose|i: int| tagged(a.entries@, i, other);
            assert(tagged(b.entries@, i, other));
        }
        if b.has(other) {
            let i = choose|i: int| tagged(b.entries@, i, other);
            assert(tagged(a.entries@, i, other));
        }
    }
    assert forall|other: Seq<char>| other != tag && a.has(other) implies #[trigger] b.held(other)
        == a.held(other) by {
        let i = choose|i: int| tagged(a.entries@, i, other);
        assert(tagged(b.entries@, i, other));
        lemma_held(a, i, other);
        lemma_held(b, i, other);
    }
}

/// What an entry holds is what its tag holds.
proof fn lemma_held<T>(s: MemoryStore<T>, i: int, tag: Seq<char>)
    requires
        s.wf(),
        tagged(s.entries@, i, tag),
    ensures
        s.held(tag) == s.entries@[i].1,
{
    let j = choose|j: int| tagged(s.entries@, j, tag);
    if i < j {
        assert(s.entries@[i].0@ != s.entries@[j].0@);
    } else if j < i {
        assert(s.entries@[j].0@ != s.entries@[i].0@);
    }
}

/// A process that does nothing.
pub struct NoopProcess;

impl NoopProcess {
    /// Name of the process.
    pub fn name(&self) -> (s: &'static str)
        ensures
            s@ == "noop"@,
    {
        "noop"
    }
}

/// A process that perturbs elevations from its random stream, which its name selects.
pub struct RngNoiseProcess {
    pub name: &'static str,
}

impl Default for RngNoiseProcess {
    fn default() -> (p: RngNoiseProcess)
        ensures
            p.name@ == "rng-noise"@,
    {
        RngNoiseProcess { name: "rng-noise" }
    }
}

impl RngNoiseProcess {
    /// A process of a name.
    pub fn new(name: &'static str) -> (p: RngNoiseProcess)
        ensures
            p.name == name,
    {
        RngNoiseProcess { name }
    }

    /// Name of the process.
    pub fn name(&self) -> (s: &'static str)
        ensures
            s == self.name,
    {
        self.name
    }
}

/// A process that takes its time.
pub struct SlowProcess {
    /// Milliseconds that every step takes.
    pub per_step: u64,
}

impl SlowProcess {
    /// A process that takes `millis` milliseconds per step.
    pub fn new(millis: u64) -> (p: SlowProcess)
        ensures
            p.per_step == millis,
    {
        SlowProcess { per_step: millis }
    }

    /// Name of the process.
    pub fn name(&self) -> (s: &'static str)
        ensures
            s@ == "slow"@,
    {
        "slow"
    }
}

/// A process that reports deposition without erosion.
pub struct UnbalancedProcess;

impl UnbalancedProcess {
    /// Name of the process.
    pub fn name(&self) -> (s: &'static str)
        ensures
            s@ == "unbalanced"@,
    {
        "unbalanced"
    }
}

} // verus!
