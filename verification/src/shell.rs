//! The cloud shell: an icosahedron whose triangles are divided again and again.
//!
//! A vertex beyond the twelve of the icosahedron is the midpoint of an edge, and is given by
//! the two vertices that it lies between.

use vstd::prelude::*;
use std::collections::HashMap;

verus! {

/// Divisions of the cloud shell.
pub const CLOUD_SHELL_LEVEL: u32 = 5;

/// Vertices of an icosahedron.
pub const CORNERS: usize = 12;

/// A triangle, counterclockwise as seen from outside.
#[derive(Debug, Clone, Copy, PartialEq, Eq, Structural)]
pub struct Face {
    pub a: u32,
    pub b: u32,
    pub c: u32,
}

/// Four to the power of `k`.
pub open spec fn four_to(k: nat) -> nat
    decreases k,
{
    if k == 0 {
        1
    } else {
        4 * four_to((k - 1) as nat)
    }
}

/// Triangle `i` of an icosahedron.
pub open spec fn seed_face(i: int) -> Face {
    if i == 0 {
        Face { a: 0, b: 11, c: 5 }
    } else if i == 1 {
        Face { a: 0, b: 5, c: 1 }
    } else if i == 2 {
        Face { a: 0, b: 1, c: 7 }
    } else if i == 3 {
        Face { a: 0, b: 7, c: 10 }
    } else if i == 4 {
        Face { a: 0, b: 10, c: 11 }
    } else if i == 5 {
        Face { a: 1, b: 5, c: 9 }
    } else if i == 6 {
        Face { a: 5, b: 11, c: 4 }
    } else if i == 7 {
        Face { a: 11, b: 10, c: 2 }
    } else if i == 8 {
        Face { a: 10, b: 7, c: 6 }
    } else if i == 9 {
        Face { a: 7, b: 1, c: 8 }
    } else if i == 10 {
        Face { a: 3, b: 9, c: 4 }
    } else if i == 11 {
        Face { a: 3, b: 4, c: 2 }
    } else if i == 12 {
        Face { a: 3, b: 2, c: 6 }
    } else if i == 13 {
        Face { a: 3, b: 6, c: 8 }
    } else if i == 14 {
        Face { a: 3, b: 8, c: 9 }
    } else if i == 15 {
        Face { a: 4, b: 9, c: 5 }
    } else if i == 16 {
        Face { a: 2, b: 4, c: 11 }
    } else if i == 17 {
        Face { a: 6, b: 2, c: 10 }
    } else if i == 18 {
        Face { a: 8, b: 6, c: 7 }
    } else {
        Face { a: 9, b: 8, c: 1 }
    }
}

/// The triangles of an icosahedron.
pub open spec fn seed_faces() -> Seq<Face> {
    Seq::new(20, |i: int| seed_face(i))
}

/// The side after side `s` of a triangle.
pub open spec fn next(s: int) -> int {
    if s == 2 {
        0
    } else {
        s + 1
    }
}

/// The side before side `s` of a triangle.
pub open spec fn prev(s: int) -> int {
    if s == 0 {
        2
    } else {
        s - 1
    }
}

/// Where side `s` of a triangle starts.
pub open spec fn tail(f: Face, s: int) -> u32 {
    if s == 0 {
        f.a
    } else if s == 1 {
        f.b
    } else {
        f.c
    }
}

/// Where side `s` of a triangle ends.
pub open spec fn head(f: Face, s: int) -> u32 {
    tail(f, next(s))
}

/// The number of an edge, whichever way it is run along.
pub open spec fn edge_key(a: u32, b: u32) -> u64 {
    if a < b {
        (a * 0x1_0000_0000 + b) as u64
    } else {
        (b * 0x1_0000_0000 + a) as u64
    }
}

/// The midpoints found so far: the vertex on each edge, and the ends of the edge of each.
pub struct Mids {
    pub ids: Map<u64, u32>,
    pub parents: Seq<(u32, u32)>,
}

/// With a midpoint on the edge from `a` to `b`: a new vertex, unless there is one.
pub open spec fn with_mid(m: Mids, a: u32, b: u32) -> Mids {
    if m.ids.dom().contains(edge_key(a, b)) {
        m
    } else {
        Mids {
            ids: m.ids.insert(edge_key(a, b), (CORNERS + m.parents.len()) as u32),
            parents: m.parents.push((a, b)),
        }
    }
}

/// With midpoints on all sides of the triangles before `i`, and on the first `s` sides of `i`.
pub open spec fn mids(parents: Seq<(u32, u32)>, faces: Seq<Face>, i: int, s: int) -> Mids
    decreases i, s,
{
    if s > 0 {
        with_mid(
            mids(parents, faces, i, s - 1),
            tail(faces[i], s - 1),
            head(faces[i], s - 1),
        )
    } else if i > 0 {
        mids(parents, faces, i - 1, 3)
    } else {
        Mids { ids: Map::empty(), parents }
    }
}

/// The midpoint of side `s` of a triangle.
pub open spec fn mid_of(ids: Map<u64, u32>, f: Face, s: int) -> u32 {
    ids[edge_key(tail(f, s), head(f, s))]
}

/// Part `q` of a divided triangle: one at each corner, and one amid them.
pub open spec fn quarter(ids: Map<u64, u32>, f: Face, q: int) -> Face {
    if q < 3 {
        Face { a: tail(f, q), b: mid_of(ids, f, q), c: mid_of(ids, f, prev(q)) }
    } else {
        Face { a: mid_of(ids, f, 0), b: mid_of(ids, f, 1), c: mid_of(ids, f, 2) }
    }
}

/// The triangles after a division.
pub open spec fn quarters(ids: Map<u64, u32>, faces: Seq<Face>) -> Seq<Face> {
    Seq::new(4 * faces.len(), |n: int| quarter(ids, faces[n / 4], n % 4))
}

/// A shell: its triangles, and the ends of the edge of each vertex beyond the first twelve.
pub struct Shell {
    pub faces: Seq<Face>,
    pub parents: Seq<(u32, u32)>,
}

/// A shell divided once.
pub open spec fn divided(s: Shell) -> Shell {
    let m = mids(s.parents, s.faces, s.faces.len() as int, 0);
    Shell { faces: quarters(m.ids, s.faces), parents: m.parents }
}

/// The shell of `level` divisions.
pub open spec fn shell_at(level: nat) -> Shell
    decreases level,
{
    if level == 0 {
        Shell { faces: seed_faces(), parents: Seq::empty() }
    } else {
        divided(shell_at((level - 1) as nat))
    }
}

/// A shell as it is built.
pub struct ShellMesh {
    pub faces: Vec<Face>,
    pub parents: Vec<(u32, u32)>,
}

impl View for ShellMesh {
    type V = Shell;

    open spec fn view(&self) -> Shell {
        Shell { faces: self.faces@, parents: self.parents@ }
    }
}

impl ShellMesh {
    /// The corners of all triangles, one after the other.
    pub fn indices(&self) -> (out: Vec<u32>)
        ensures
            out@.len() == 3 * self.faces@.len(),
            forall|i: int, s: int|
                #![trigger tail(self.faces@[i], s)]
                0 <= i < self.faces@.len() && 0 <= s < 3 ==> out@[3 * i + s] == tail(
                    self.faces@[i],
                    s,
                ),
    {
        let mut out: Vec<u32> = Vec::new();
        let mut i: usize = 0;
        while i < self.faces.len()
            invariant
                i <= self.faces@.len(),
                out@.len() == 3 * i,
                forall|k: int, s: int|
                    #![trigger tail(self.faces@[k], s)]
                    0 <= k < i && 0 <= s < 3 ==> out@[3 * k + s] == tail(self.faces@[k], s),
            decreases self.faces@.len() - i,
        {
            let f = self.faces[i];
            out.push(f.a);
            out.push(f.b);
            out.push(f.c);
            i = i + 1;
        }
        out
    }
}

/// Midpoints add at most one vertex per side, keep those that there were, and stay.
pub proof fn lemma_mids_grow(parents: Seq<(u32, u32)>, faces: Seq<Face>, i: int, s: int)
    requires
        0 <= i,
        0 <= s <= 3,
    ensures
        parents.len() <= mids(parents, faces, i, s).parents.len() <= parents.len() + 3 * i + s,
        mids(parents, faces, i, s).parents.take(parents.len() as int) == parents,
    decreases i, s,
{
    if s > 0 {
        lemma_mids_grow(parents, faces, i, s - 1);
        let m = mids(parents, faces, i, s - 1);
        let n = mids(parents, faces, i, s);
        assert(n.parents.take(parents.len() as int) =~= m.parents.take(parents.len() as int));
    } else if i > 0 {
        lemma_mids_grow(parents, faces, i - 1, 3);
    } else {
        assert(parents.take(parents.len() as int) =~= parents);
    }
}

/// A midpoint that has been found stays where it is.
pub proof fn lemma_mids_stay(
    parents: Seq<(u32, u32)>,
    faces: Seq<Face>,
    i: int,
    s: int,
    j: int,
    t: int,
    k: u64,
)
    requires
        0 <= i <= j,
        0 <= s <= 3,
        0 <= t <= 3,
        i == j ==> s <= t,
        mids(parents, faces, i, s).ids.dom().contains(k),
    ensures
        mids(parents, faces, j, t).ids.dom().contains(k),
        mids(parents, faces, j, t).ids[k] == mids(parents, faces, i, s).ids[k],
    decreases j, t,
{
    if i == j && s == t {
    } else if t > 0 {
        lemma_mids_stay(parents, faces, i, s, j, t - 1, k);
    } else {
        lemma_mids_stay(parents, faces, i, s, j - 1, 3, k);
    }
}

/// Every side of the triangles before `i` has its midpoint.
pub proof fn lemma_mids_cover(
    parents: Seq<(u32, u32)>,
    faces: Seq<Face>,
    i: int,
    s: int,
    n: int,
)
    requires
        0 <= i < n,
        0 <= s < 3,
    ensures
        mids(parents, faces, n, 0).ids.dom().contains(
            edge_key(tail(faces[i], s), head(faces[i], s)),
        ),
        mids(parents, faces, n, 0).ids[edge_key(tail(faces[i], s), head(faces[i], s))] == mids(
            parents,
            faces,
            i,
            s + 1,
        ).ids[edge_key(tail(faces[i], s), head(faces[i], s))],
{
    let k = edge_key(tail(faces[i], s), head(faces[i], s));
    assert(mids(parents, faces, i, s + 1).ids.dom().contains(k));
    lemma_mids_stay(parents, faces, i, s + 1, n, 0, k);
}

/// The midpoint of an edge, made where there is none.
fn mid(cache: &mut HashMap<u64, u32>, parents: &mut Vec<(u32, u32)>, a: u32, b: u32) -> (v: u32)
    requires
        CORNERS + old(parents)@.len() < u32::MAX,
    ensures
        ({
            let m = with_mid(Mids { ids: old(cache)@, parents: old(parents)@ }, a, b);
            &&& final(cache)@ == m.ids
            &&& final(parents)@ == m.parents
            &&& v == m.ids[edge_key(a, b)]
        }),
{
    broadcast use vstd::std_specs::hash::group_hash_axioms;

    let key: u64 = if a < b {
        a as u64 * 0x1_0000_0000 + b as u64
    } else {
        b as u64 * 0x1_0000_0000 + a as u64
    };
    if let Some(v) = cache.get(&key) {
        return *v;
    }
    let v: u32 = (CORNERS + parents.len()) as u32;
    parents.push((a, b));
    cache.insert(key, v);
    v
}

/// Divides every triangle of a shell into four.
fn divide(mesh: &mut ShellMesh)
    requires
        CORNERS + old(mesh).parents@.len() + 3 * old(mesh).faces@.len() < u32::MAX,
        4 * old(mesh).faces@.len() <= usize::MAX,
    ensures
        final(mesh)@ == divided(old(mesh)@),
{
    let ghost faces = mesh.faces@;
    let ghost parents0 = mesh.parents@;
    let ghost n = faces.len() as int;
    let mut cache: HashMap<u64, u32> = HashMap::new();
    let mut parts: Vec<Face> = Vec::new();
    let ghost ids = mids(parents0, faces, n, 0).ids;
    let mut i: usize = 0;
    assert(cache@ =~= Map::empty());
    while i < mesh.faces.len()
        invariant
            mesh.faces@ == faces,
            n == faces.len(),
            i <= n,
            CORNERS + parents0.len() + 3 * n < u32::MAX,
            ids == mids(parents0, faces, n, 0).ids,
            cache@ == mids(parents0, faces, i as int, 0).ids,
            mesh.parents@ == mids(parents0, faces, i as int, 0).parents,
            parts@.len() == 4 * i,
            forall|k: int|
                0 <= k < 4 * i ==> #[trigger] parts@[k] == quarter(ids, faces[k / 4], k % 4),
        decreases n - i,
    {
        let f = mesh.faces[i];
        proof {
            lemma_mids_grow(parents0, faces, i as int, 0);
            lemma_mids_grow(parents0, faces, i as int, 1);
            lemma_mids_grow(parents0, faces, i as int, 2);
            reveal_with_fuel(mids, 2);
        }
        let a = mid(&mut cache, &mut mesh.parents, f.a, f.b);
        assert(cache@ == mids(parents0, faces, i as int, 1).ids);
        assert(mesh.parents@ == mids(parents0, faces, i as int, 1).parents);
        let b = mid(&mut cache, &mut mesh.parents, f.b, f.c);
        assert(cache@ == mids(parents0, faces, i as int, 2).ids);
        assert(mesh.parents@ == mids(parents0, faces, i as int, 2).parents);
        let c = mid(&mut cache, &mut mesh.parents, f.c, f.a);
        assert(cache@ == mids(parents0, faces, i as int, 3).ids);
        assert(mesh.parents@ == mids(parents0, faces, i as int, 3).parents);
        proof {
            lemma_mids_cover(parents0, faces, i as int, 0, n);
            lemma_mids_cover(parents0, faces, i as int, 1, n);
            lemma_mids_cover(parents0, faces, i as int, 2, n);
        }
        parts.push(Face { a: f.a, b: a, c });
        parts.push(Face { a: f.b, b, c: a });
        parts.push(Face { a: f.c, b: c, c: b });
        parts.push(Face { a, b, c });
        proof {
            assert(a == mid_of(ids, f, 0));
            assert(b == mid_of(ids, f, 1));
            assert(c == mid_of(ids, f, 2));
            assert forall|k: int| 0 <= k < 4 * (i + 1) implies #[trigger] parts@[k] == quarter(
                ids,
                faces[k / 4],
                k % 4,
            ) by {
                if k >= 4 * i {
                    assert(k / 4 == i);
                    assert(k == 4 * i || k == 4 * i + 1 || k == 4 * i + 2 || k == 4 * i + 3);
                }
            }
        }
        i = i + 1;
    }
    assert(parts@ =~= quarters(ids, faces));
    mesh.faces = parts;
}

/// The triangles of an icosahedron.
fn icosahedron() -> (v: Vec<Face>)
    ensures
        v@ == seed_faces(),
{
    let v: Vec<Face> = vec![
        Face { a: 0, b: 11, c: 5 },
        Face { a: 0, b: 5, c: 1 },
        Face { a: 0, b: 1, c: 7 },
        Face { a: 0, b: 7, c: 10 },
        Face { a: 0, b: 10, c: 11 },
        Face { a: 1, b: 5, c: 9 },
        Face { a: 5, b: 11, c: 4 },
        Face { a: 11, b: 10, c: 2 },
        Face { a: 10, b: 7, c: 6 },
        Face { a: 7, b: 1, c: 8 },
        Face { a: 3, b: 9, c: 4 },
        Face { a: 3, b: 4, c: 2 },
        Face { a: 3, b: 2, c: 6 },
        Face { a: 3, b: 6, c: 8 },
        Face { a: 3, b: 8, c: 9 },
        Face { a: 4, b: 9, c: 5 },
        Face { a: 2, b: 4, c: 11 },
        Face { a: 6, b: 2, c: 10 },
        Face { a: 8, b: 6, c: 7 },
        Face { a: 9, b: 8, c: 1 },
    ];
    assert(v@ =~= seed_faces());
    v
}

/// Powers of four grow.
pub proof fn lemma_four_to_grows(a: nat, b: nat)
    requires
        a <= b,
    ensures
        1 <= four_to(a) <= four_to(b),
    decreases b,
{
    if a < b {
        lemma_four_to_grows(a, (b - 1) as nat);
    } else if a > 0 {
        lemma_four_to_grows((a - 1) as nat, (b - 1) as nat);
    }
}

/// How many triangles a shell has, and how many vertices at most.
pub proof fn lemma_shell_size(level: nat)
    ensures
        shell_at(level).faces.len() == 20 * four_to(level),
        shell_at(level).parents.len() <= 20 * four_to(level),
    decreases level,
{
    if level > 0 {
        lemma_shell_size((level - 1) as nat);
        let s = shell_at((level - 1) as nat);
        lemma_mids_grow(s.parents, s.faces, s.faces.len() as int, 0);
    }
}

/// The shell of `level` divisions.
pub fn icosphere(level: u32) -> (mesh: ShellMesh)
    requires
        60 * four_to(level as nat) <= u32::MAX,
    ensures
        mesh@ == shell_at(level as nat),
{
    let mut mesh = ShellMesh { faces: icosahedron(), parents: Vec::new() };
    let mut i: u32 = 0;
    assert(mesh@.parents =~= shell_at(0).parents);
    while i < level
        invariant
            i <= level,
            60 * four_to(level as nat) <= u32::MAX,
            mesh@ == shell_at(i as nat),
        decreases level - i,
    {
        proof {
            lemma_shell_size(i as nat);
            lemma_four_to_grows((i + 1) as nat, level as nat);
        }
        divide(&mut mesh);
        i = i + 1;
    }
    mesh
}

} // verus!
