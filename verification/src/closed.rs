//! A shell is closed: every edge belongs to two triangles, which run along it in opposite
//! directions. Dividing the triangles keeps it so.

use vstd::prelude::*;
use vstd::relations::injective_on;
use vstd::set_lib::{lemma_int_range, lemma_map_size, set_int_range};
use crate::shell::{
    edge_key, four_to, head, lemma_mids_cover, lemma_mids_grow, lemma_shell_size, mid_of, mids,
    next, prev, quarter, quarters, seed_face, seed_faces, shell_at, tail, Face, CORNERS,
};

verus! {

/// Side `s` of triangle `i` and side `t` of triangle `j` run along the same edge the same way.
pub open spec fn same_way(faces: Seq<Face>, i: int, s: int, j: int, t: int) -> bool {
    tail(faces[i], s) == tail(faces[j], t) && head(faces[i], s) == head(faces[j], t)
}

/// Side `s` of triangle `i` and side `t` of triangle `j` run along the same edge in opposite
/// directions.
pub open spec fn other_way(faces: Seq<Face>, i: int, s: int, j: int, t: int) -> bool {
    tail(faces[i], s) == head(faces[j], t) && head(faces[i], s) == tail(faces[j], t)
}

/// `i` is a triangle and `s` one of its sides.
pub open spec fn is_side(faces: Seq<Face>, i: int, s: int) -> bool {
    0 <= i < faces.len() && 0 <= s < 3
}

/// The corners of a triangle differ.
pub open spec fn proper(f: Face) -> bool {
    f.a != f.b && f.b != f.c && f.c != f.a
}

/// No edge is run along twice the same way.
pub open spec fn run_once(faces: Seq<Face>) -> bool {
    forall|i: int, s: int, j: int, t: int|
        is_side(faces, i, s) && is_side(faces, j, t) && #[trigger] same_way(faces, i, s, j, t)
            ==> i == j && s == t
}

/// Some side runs along the edge of side `s` of triangle `i` in the opposite direction.
pub open spec fn is_met(faces: Seq<Face>, i: int, s: int) -> bool {
    exists|j: int, t: int| is_side(faces, j, t) && #[trigger] other_way(faces, i, s, j, t)
}

/// Triangles that meet in an edge have different corners beyond it.
pub open spec fn no_mirror(faces: Seq<Face>) -> bool {
    forall|i: int, s: int, j: int, t: int|
        is_side(faces, i, s) && is_side(faces, j, t) && #[trigger] other_way(faces, i, s, j, t)
            ==> tail(faces[i], prev(s)) != tail(faces[j], prev(t))
}

/// Triangles enclose a space: each has three corners, every edge is run along once each way,
/// and no two triangles have all corners in common.
pub open spec fn closed(faces: Seq<Face>) -> bool {
    &&& forall|i: int| 0 <= i < faces.len() ==> proper(#[trigger] faces[i])
    &&& run_once(faces)
    &&& forall|i: int, s: int| is_side(faces, i, s) ==> #[trigger] is_met(faces, i, s)
    &&& no_mirror(faces)
}

/// Every corner of every triangle is a vertex below `n`.
pub open spec fn within(faces: Seq<Face>, n: int) -> bool {
    forall|i: int, s: int|
        #![trigger tail(faces[i], s)]
        is_side(faces, i, s) ==> tail(faces[i], s) < n
}

/// Midpoints are new vertices, and edges that differ have midpoints that differ.
pub open spec fn fresh(ids: Map<u64, u32>, lo: int, hi: int) -> bool {
    &&& forall|k: u64| #[trigger] ids.dom().contains(k) ==> lo <= ids[k] < hi
    &&& forall|k: u64, l: u64|
        ids.dom().contains(k) && ids.dom().contains(l) && #[trigger] ids[k] == #[trigger] ids[l]
            ==> k == l
}

/// Every side of every triangle has its midpoint.
pub open spec fn covers(ids: Map<u64, u32>, faces: Seq<Face>) -> bool {
    forall|i: int, s: int|
        is_side(faces, i, s) ==> ids.dom().contains(
            edge_key(#[trigger] tail(faces[i], s), head(faces[i], s)),
        )
}

/// Edges with the same number have the same ends.
proof fn lemma_key_ends(a: u32, b: u32, c: u32, d: u32)
    requires
        edge_key(a, b) == edge_key(c, d),
    ensures
        (a == c && b == d) || (a == d && b == c),
{
}

/// An edge has one number both ways.
proof fn lemma_key_turns(a: u32, b: u32)
    ensures
        edge_key(a, b) == edge_key(b, a),
{
}

/// Midpoints are new and differ.
proof fn lemma_mids_fresh(parents: Seq<(u32, u32)>, faces: Seq<Face>, i: int, s: int)
    requires
        0 <= i,
        0 <= s <= 3,
        CORNERS + parents.len() + 3 * i + s < u32::MAX,
    ensures
        fresh(
            mids(parents, faces, i, s).ids,
            CORNERS + parents.len(),
            CORNERS + mids(parents, faces, i, s).parents.len(),
        ),
    decreases i, s,
{
    if s > 0 {
        lemma_mids_fresh(parents, faces, i, s - 1);
        lemma_mids_grow(parents, faces, i, s - 1);
    } else if i > 0 {
        lemma_mids_fresh(parents, faces, i - 1, 3);
    }
}

/// Every side has its midpoint in the end.
proof fn lemma_mids_cover_all(parents: Seq<(u32, u32)>, faces: Seq<Face>)
    ensures
        covers(mids(parents, faces, faces.len() as int, 0).ids, faces),
{
    assert forall|i: int, s: int| is_side(faces, i, s) implies mids(
        parents,
        faces,
        faces.len() as int,
        0,
    ).ids.dom().contains(edge_key(#[trigger] tail(faces[i], s), head(faces[i], s))) by {
        lemma_mids_cover(parents, faces, i, s, faces.len() as int);
    }
}

/// What the division of closed triangles starts from.
pub open spec fn divisible(ids: Map<u64, u32>, faces: Seq<Face>, lo: int, hi: int) -> bool {
    &&& closed(faces)
    &&& within(faces, lo)
    &&& fresh(ids, lo, hi)
    &&& covers(ids, faces)
}

/// The ends of a side and its midpoint: the midpoint is new, and fixes the edge.
proof fn lemma_mid(ids: Map<u64, u32>, faces: Seq<Face>, lo: int, hi: int, i: int, s: int)
    requires
        divisible(ids, faces, lo, hi),
        is_side(faces, i, s),
    ensures
        lo <= mid_of(ids, faces[i], s) < hi,
        tail(faces[i], s) < lo,
        head(faces[i], s) < lo,
{
    assert(ids.dom().contains(edge_key(tail(faces[i], s), head(faces[i], s))));
    assert(is_side(faces, i, next(s)));
    assert(tail(faces[i], next(s)) < lo);
}

/// Sides with one midpoint run along one edge.
proof fn lemma_mid_fixes_edge(
    ids: Map<u64, u32>,
    faces: Seq<Face>,
    lo: int,
    hi: int,
    i: int,
    s: int,
    j: int,
    t: int,
)
    requires
        divisible(ids, faces, lo, hi),
        is_side(faces, i, s),
        is_side(faces, j, t),
        mid_of(ids, faces[i], s) == mid_of(ids, faces[j], t),
    ensures
        same_way(faces, i, s, j, t) || other_way(faces, i, s, j, t),
{
    let k = edge_key(tail(faces[i], s), head(faces[i], s));
    let l = edge_key(tail(faces[j], t), head(faces[j], t));
    assert(ids.dom().contains(k) && ids.dom().contains(l));
    assert(ids[k] == ids[l]);
    lemma_key_ends(tail(faces[i], s), head(faces[i], s), tail(faces[j], t), head(faces[j], t));
}

/// Sides that run along one edge have one midpoint.
proof fn lemma_edge_fixes_mid(ids: Map<u64, u32>, faces: Seq<Face>, i: int, s: int, j: int, t: int)
    requires
        same_way(faces, i, s, j, t) || other_way(faces, i, s, j, t),
    ensures
        mid_of(ids, faces[i], s) == mid_of(ids, faces[j], t),
{
    lemma_key_turns(tail(faces[i], s), head(faces[i], s));
}

/// What a side of a part of a divided triangle is.
pub enum Part {
    /// From the corner where side `s` starts to the midpoint of side `s`.
    Out,
    /// From the midpoint of side `s` to that of the side before.
    Across,
    /// From the midpoint of the side before to the corner where side `s` starts.
    In,
    /// Amid: from the midpoint of side `s` to that of the side after.
    Amid,
}

/// What side `t` of part `q` is, and of which side of the whole triangle.
pub open spec fn part_of(q: int, t: int) -> (Part, int) {
    if q == 3 {
        (Part::Amid, t)
    } else if t == 0 {
        (Part::Out, q)
    } else if t == 1 {
        (Part::Across, q)
    } else {
        (Part::In, q)
    }
}

/// Where a side of a part starts.
pub open spec fn part_tail(ids: Map<u64, u32>, f: Face, p: Part, s: int) -> u32 {
    match p {
        Part::Out => tail(f, s),
        Part::Across => mid_of(ids, f, s),
        Part::In => mid_of(ids, f, prev(s)),
        Part::Amid => mid_of(ids, f, s),
    }
}

/// Where a side of a part ends.
pub open spec fn part_head(ids: Map<u64, u32>, f: Face, p: Part, s: int) -> u32 {
    match p {
        Part::Out => mid_of(ids, f, s),
        Part::Across => mid_of(ids, f, prev(s)),
        Part::In => tail(f, s),
        Part::Amid => mid_of(ids, f, next(s)),
    }
}

/// The corner of a part beyond one of its sides.
pub open spec fn part_apex(ids: Map<u64, u32>, f: Face, p: Part, s: int) -> u32 {
    match p {
        Part::Out => mid_of(ids, f, prev(s)),
        Part::Across => tail(f, s),
        Part::In => mid_of(ids, f, s),
        Part::Amid => mid_of(ids, f, prev(s)),
    }
}

/// The sides of the parts, by what they are.
proof fn lemma_parts(ids: Map<u64, u32>, faces: Seq<Face>, n: int, t: int)
    requires
        is_side(quarters(ids, faces), n, t),
    ensures
        ({
            let parts = quarters(ids, faces);
            let f = faces[n / 4];
            let (p, s) = part_of(n % 4, t);
            &&& is_side(faces, n / 4, s)
            &&& tail(parts[n], t) == part_tail(ids, f, p, s)
            &&& head(parts[n], t) == part_head(ids, f, p, s)
            &&& tail(parts[n], prev(t)) == part_apex(ids, f, p, s)
        }),
{
    assert(quarters(ids, faces)[n] == quarter(ids, faces[n / 4], n % 4));
}

/// The side of a part that is `p` of side `s` of triangle `i`: the part, and which side of it.
pub open spec fn place_of(i: int, p: Part, s: int) -> (int, int) {
    match p {
        Part::Out => (4 * i + s, 0),
        Part::Across => (4 * i + s, 1),
        Part::In => (4 * i + s, 2),
        Part::Amid => (4 * i + 3, s),
    }
}

/// Every side of every triangle gives four sides of parts.
proof fn lemma_place(ids: Map<u64, u32>, faces: Seq<Face>, i: int, p: Part, s: int)
    requires
        is_side(faces, i, s),
    ensures
        ({
            let (n, t) = place_of(i, p, s);
            &&& is_side(quarters(ids, faces), n, t)
            &&& n / 4 == i
            &&& part_of(n % 4, t) == (p, s)
        }),
{
}

/// Sides of parts that run the same way are the same.
proof fn lemma_parts_run_once(
    ids: Map<u64, u32>,
    faces: Seq<Face>,
    lo: int,
    hi: int,
    n: int,
    t: int,
    m: int,
    u: int,
)
    requires
        divisible(ids, faces, lo, hi),
        is_side(quarters(ids, faces), n, t),
        is_side(quarters(ids, faces), m, u),
        same_way(quarters(ids, faces), n, t, m, u),
    ensures
        n == m && t == u,
{
    lemma_parts(ids, faces, n, t);
    lemma_parts(ids, faces, m, u);
    let (i, j) = (n / 4, m / 4);
    let (p, s) = part_of(n % 4, t);
    let (q, r) = part_of(m % 4, u);
    lemma_mid(ids, faces, lo, hi, i, s);
    lemma_mid(ids, faces, lo, hi, i, prev(s));
    lemma_mid(ids, faces, lo, hi, i, next(s));
    lemma_mid(ids, faces, lo, hi, j, r);
    lemma_mid(ids, faces, lo, hi, j, prev(r));
    lemma_mid(ids, faces, lo, hi, j, next(r));
    assert(proper(faces[i]) && proper(faces[j]));
    match (p, q) {
        (Part::Out, Part::Out) => {
            lemma_mid_fixes_edge(ids, faces, lo, hi, i, s, j, r);
            assert(same_way(faces, i, s, j, r));
        },
        (Part::In, Part::In) => {
            lemma_mid_fixes_edge(ids, faces, lo, hi, i, prev(s), j, prev(r));
            assert(same_way(faces, i, prev(s), j, prev(r)));
        },
        (Part::Across, Part::Across) => {
            lemma_mid_fixes_edge(ids, faces, lo, hi, i, s, j, r);
            lemma_mid_fixes_edge(ids, faces, lo, hi, i, prev(s), j, prev(r));
            assert(same_way(faces, i, s, j, r));
        },
        (Part::Amid, Part::Amid) => {
            lemma_mid_fixes_edge(ids, faces, lo, hi, i, s, j, r);
            lemma_mid_fixes_edge(ids, faces, lo, hi, i, next(s), j, next(r));
            assert(same_way(faces, i, s, j, r));
        },
        (Part::Across, Part::Amid) => {
            lemma_mid_fixes_edge(ids, faces, lo, hi, i, s, j, r);
            lemma_mid_fixes_edge(ids, faces, lo, hi, i, prev(s), j, next(r));
            assert(other_way(faces, i, s, j, r));
            assert(false);
        },
        (Part::Amid, Part::Across) => {
            lemma_mid_fixes_edge(ids, faces, lo, hi, j, r, i, s);
            lemma_mid_fixes_edge(ids, faces, lo, hi, j, prev(r), i, next(s));
            assert(other_way(faces, j, r, i, s));
            assert(false);
        },
        _ => {
            assert(false);
        },
    }
    assert(i == j && p == q && s == r);
}

/// The side of a part that meets `p` of side `s` of triangle `i`, where the triangle that meets
/// side `s` (or the side before, for what goes in) meets it with its side `t`.
pub open spec fn met_by(i: int, p: Part, s: int, j: int, t: int) -> (int, Part, int) {
    match p {
        Part::Out => (j, Part::In, next(t)),
        Part::In => (j, Part::Out, t),
        Part::Across => (i, Part::Amid, prev(s)),
        Part::Amid => (i, Part::Across, next(s)),
    }
}

/// Every side of a part is met, by one with another corner beyond it.
proof fn lemma_parts_met(
    ids: Map<u64, u32>,
    faces: Seq<Face>,
    lo: int,
    hi: int,
    n: int,
    t: int,
) -> (r: (int, int))
    requires
        divisible(ids, faces, lo, hi),
        is_side(quarters(ids, faces), n, t),
    ensures
        is_side(quarters(ids, faces), r.0, r.1),
        other_way(quarters(ids, faces), n, t, r.0, r.1),
        tail(quarters(ids, faces)[n], prev(t)) != tail(quarters(ids, faces)[r.0], prev(r.1)),
{
    lemma_parts(ids, faces, n, t);
    let i = n / 4;
    let (p, s) = part_of(n % 4, t);
    let of = if p is In {
        prev(s)
    } else {
        s
    };
    assert(is_met(faces, i, of));
    let (j, u) = choose|j: int, u: int|
        is_side(faces, j, u) && #[trigger] other_way(faces, i, of, j, u);
    let (k, q, w) = met_by(i, p, s, j, u);
    let (m, x) = place_of(k, q, w);
    lemma_place(ids, faces, k, q, w);
    lemma_parts(ids, faces, m, x);
    lemma_mid(ids, faces, lo, hi, i, s);
    lemma_mid(ids, faces, lo, hi, i, prev(s));
    lemma_mid(ids, faces, lo, hi, i, next(s));
    lemma_edge_fixes_mid(ids, faces, i, of, j, u);
    match p {
        Part::Out => {
            if mid_of(ids, faces[i], prev(s)) == mid_of(ids, faces[j], next(u)) {
                lemma_mid_fixes_edge(ids, faces, lo, hi, i, prev(s), j, next(u));
                assert(proper(faces[i]) && proper(faces[j]));
                assert(false);
            }
        },
        Part::In => {
            if mid_of(ids, faces[i], s) == mid_of(ids, faces[j], prev(u)) {
                lemma_mid_fixes_edge(ids, faces, lo, hi, i, s, j, prev(u));
                assert(proper(faces[i]) && proper(faces[j]));
                assert(false);
            }
        },
        _ => {},
    }
    (m, x)
}

/// Dividing closed triangles leaves them closed.
proof fn lemma_quarters_closed(ids: Map<u64, u32>, faces: Seq<Face>, lo: int, hi: int)
    requires
        divisible(ids, faces, lo, hi),
    ensures
        closed(quarters(ids, faces)),
{
    let parts = quarters(ids, faces);
    assert forall|n: int| 0 <= n < parts.len() implies proper(#[trigger] parts[n]) by {
        let i = n / 4;
        let f = faces[i];
        assert(parts[n] == quarter(ids, f, n % 4));
        assert(proper(f));
        lemma_mid(ids, faces, lo, hi, i, 0);
        lemma_mid(ids, faces, lo, hi, i, 1);
        lemma_mid(ids, faces, lo, hi, i, 2);
        if mid_of(ids, f, 0) == mid_of(ids, f, 1) {
            lemma_mid_fixes_edge(ids, faces, lo, hi, i, 0, i, 1);
        }
        if mid_of(ids, f, 1) == mid_of(ids, f, 2) {
            lemma_mid_fixes_edge(ids, faces, lo, hi, i, 1, i, 2);
        }
        if mid_of(ids, f, 2) == mid_of(ids, f, 0) {
            lemma_mid_fixes_edge(ids, faces, lo, hi, i, 2, i, 0);
        }
    }
    assert forall|n: int, t: int, m: int, u: int|
        is_side(parts, n, t) && is_side(parts, m, u) && #[trigger] same_way(
            parts,
            n,
            t,
            m,
            u,
        ) implies n == m && t == u by {
        lemma_parts_run_once(ids, faces, lo, hi, n, t, m, u);
    }
    assert forall|n: int, t: int| is_side(parts, n, t) implies #[trigger] is_met(parts, n, t) by {
        let r = lemma_parts_met(ids, faces, lo, hi, n, t);
        assert(other_way(parts, n, t, r.0, r.1));
    }
    assert forall|n: int, t: int, m: int, u: int|
        is_side(parts, n, t) && is_side(parts, m, u) && #[trigger] other_way(
            parts,
            n,
            t,
            m,
            u,
        ) implies tail(parts[n], prev(t)) != tail(parts[m], prev(u)) by {
        let r = lemma_parts_met(ids, faces, lo, hi, n, t);
        assert(same_way(parts, m, u, r.0, r.1));
    }
}

/// Side `p` of an icosahedron as one number, the way it is run along.
spec fn seed_code(p: int) -> int {
    16 * tail(seed_face(p / 3), p % 3) + head(seed_face(p / 3), p % 3)
}

/// Side `p` of an icosahedron as one number, run along backwards.
spec fn seed_turned(p: int) -> int {
    16 * head(seed_face(p / 3), p % 3) + tail(seed_face(p / 3), p % 3)
}

/// The corner beyond side `p` of an icosahedron.
spec fn seed_apex(p: int) -> int {
    tail(seed_face(p / 3), prev(p % 3)) as int
}

/// None of the first `q` sides of an icosahedron has the number `code`.
spec fn unlike(code: int, q: int) -> bool
    decreases q,
{
    q <= 0 || (seed_code(q - 1) != code && unlike(code, q - 1))
}

/// The first `p` sides of an icosahedron have different numbers.
spec fn all_unlike(p: int) -> bool
    decreases p,
{
    p <= 0 || (unlike(seed_code(p - 1), p - 1) && all_unlike(p - 1))
}

/// Sides `p` and `q` of an icosahedron meet, and have different corners beyond them.
spec fn seed_pair(p: int, q: int) -> bool {
    &&& 0 <= p < 60
    &&& 0 <= q < 60
    &&& seed_turned(p) == seed_code(q)
    &&& seed_turned(q) == seed_code(p)
    &&& seed_apex(p) != seed_apex(q)
}

/// Side `p` of an icosahedron is met.
spec fn seed_met(p: int) -> bool {
    exists|q: int| seed_pair(p, q) || seed_pair(q, p)
}

/// Each of the first `p` sides of an icosahedron is met.
spec fn all_met(p: int) -> bool
    decreases p,
{
    p <= 0 || (seed_met(p - 1) && all_met(p - 1))
}

/// The sides of an icosahedron have different numbers.
#[verifier::rlimit(100)]
proof fn lemma_all_unlike()
    ensures
        all_unlike(60),
{
    reveal_with_fuel(all_unlike, 61);
    reveal_with_fuel(unlike, 61);
}

/// The sides of an icosahedron meet in pairs.
#[verifier::rlimit(100)]
proof fn lemma_all_met()
    ensures
        all_met(60),
{
    assert(seed_pair(0, 14));
    assert(seed_pair(1, 18));
    assert(seed_pair(2, 3));
    assert(seed_pair(4, 15));
    assert(seed_pair(5, 6));
    assert(seed_pair(7, 27));
    assert(seed_pair(8, 9));
    assert(seed_pair(10, 24));
    assert(seed_pair(11, 12));
    assert(seed_pair(13, 21));
    assert(seed_pair(16, 46));
    assert(seed_pair(17, 59));
    assert(seed_pair(19, 49));
    assert(seed_pair(20, 47));
    assert(seed_pair(22, 52));
    assert(seed_pair(23, 50));
    assert(seed_pair(25, 55));
    assert(seed_pair(26, 53));
    assert(seed_pair(28, 58));
    assert(seed_pair(29, 56));
    assert(seed_pair(30, 44));
    assert(seed_pair(31, 45));
    assert(seed_pair(32, 33));
    assert(seed_pair(34, 48));
    assert(seed_pair(35, 36));
    assert(seed_pair(37, 51));
    assert(seed_pair(38, 39));
    assert(seed_pair(40, 54));
    assert(seed_pair(41, 42));
    assert(seed_pair(43, 57));
    reveal_with_fuel(all_met, 61);
}

/// What holds of the first sides of an icosahedron holds of each.
proof fn lemma_seed_sides(n: int, p: int, q: int)
    requires
        all_unlike(n),
        all_met(n),
        0 <= p < q < n || 0 <= q < p < n || 0 <= p == q < n,
    ensures
        seed_code(p) == seed_code(q) ==> p == q,
        seed_met(p),
    decreases n,
{
    if p < n - 1 && q < n - 1 {
        lemma_seed_sides(n - 1, p, q);
    } else {
        if p < q {
            lemma_unlike(seed_code(q), q, p);
        } else if q < p {
            lemma_unlike(seed_code(p), p, q);
        }
        if p < n - 1 {
            lemma_seed_sides(n - 1, p, p);
        }
    }
}

/// A side that differs from the first `n` differs from each of them.
proof fn lemma_unlike(code: int, n: int, p: int)
    requires
        unlike(code, n),
        0 <= p < n,
    ensures
        seed_code(p) != code,
    decreases n,
{
    if p < n - 1 {
        lemma_unlike(code, n - 1, p);
    }
}

/// The corners of the triangles of an icosahedron are its vertices, and differ.
proof fn lemma_seed_corners(i: int)
    ensures
        proper(seed_face(i)),
        seed_face(i).a < CORNERS,
        seed_face(i).b < CORNERS,
        seed_face(i).c < CORNERS,
{
}

/// An icosahedron is closed.
proof fn lemma_seed_closed()
    ensures
        closed(seed_faces()),
        within(seed_faces(), CORNERS as int),
{
    let faces = seed_faces();
    lemma_all_unlike();
    lemma_all_met();
    assert forall|i: int| 0 <= i < faces.len() implies proper(#[trigger] faces[i]) by {
        lemma_seed_corners(i);
    }
    assert forall|i: int, s: int|
        #![trigger tail(faces[i], s)]
        is_side(faces, i, s) implies tail(faces[i], s) < CORNERS by {
        lemma_seed_corners(i);
    }
    assert forall|i: int, s: int, j: int, t: int|
        is_side(faces, i, s) && is_side(faces, j, t) && #[trigger] same_way(
            faces,
            i,
            s,
            j,
            t,
        ) implies i == j && s == t by {
        let p = 3 * i + s;
        let q = 3 * j + t;
        assert(p / 3 == i && p % 3 == s && q / 3 == j && q % 3 == t);
        lemma_seed_sides(60, p, q);
    }
    assert forall|i: int, s: int| is_side(faces, i, s) implies #[trigger] is_met(faces, i, s) by {
        let p = 3 * i + s;
        assert(p / 3 == i && p % 3 == s);
        lemma_seed_sides(60, p, p);
        let q = choose|q: int| seed_pair(p, q) || seed_pair(q, p);
        lemma_seed_meeting(p, q);
        assert(other_way(faces, i, s, q / 3, q % 3));
    }
    assert forall|i: int, s: int, j: int, t: int|
        is_side(faces, i, s) && is_side(faces, j, t) && #[trigger] other_way(
            faces,
            i,
            s,
            j,
            t,
        ) implies tail(faces[i], prev(s)) != tail(faces[j], prev(t)) by {
        let p = 3 * i + s;
        let r = 3 * j + t;
        assert(p / 3 == i && p % 3 == s && r / 3 == j && r % 3 == t);
        lemma_seed_sides(60, p, p);
        let q = choose|q: int| seed_pair(p, q) || seed_pair(q, p);
        lemma_seed_meeting(p, q);
        lemma_seed_sides(60, q, r);
    }
}

/// Sides of an icosahedron with matching numbers meet.
proof fn lemma_seed_meeting(p: int, q: int)
    requires
        seed_pair(p, q) || seed_pair(q, p),
    ensures
        is_side(seed_faces(), p / 3, p % 3),
        is_side(seed_faces(), q / 3, q % 3),
        other_way(seed_faces(), p / 3, p % 3, q / 3, q % 3),
        seed_turned(p) == seed_code(q),
        seed_apex(p) != seed_apex(q),
{
    lemma_seed_corners(p / 3);
    lemma_seed_corners(q / 3);
}

/// The number of the edge of side `p`, where the sides of all triangles are counted through.
pub open spec fn key_at(faces: Seq<Face>, p: int) -> u64 {
    edge_key(tail(faces[p / 3], p % 3), head(faces[p / 3], p % 3))
}

/// A midpoint has been found just where a side has been seen.
proof fn lemma_mids_seen(parents: Seq<(u32, u32)>, faces: Seq<Face>, i: int, s: int, k: u64)
    requires
        0 <= i,
        0 <= s <= 3,
    ensures
        mids(parents, faces, i, s).ids.dom().contains(k) <==> exists|q: int|
            0 <= q < 3 * i + s && #[trigger] key_at(faces, q) == k,
    decreases i, s,
{
    let dom = mids(parents, faces, i, s).ids.dom();
    if s > 0 {
        lemma_mids_seen(parents, faces, i, s - 1, k);
        let p = 3 * i + s - 1;
        assert(p / 3 == i && p % 3 == s - 1);
        assert(key_at(faces, p) == edge_key(tail(faces[i], s - 1), head(faces[i], s - 1)));
        if dom.contains(k) && k != key_at(faces, p) {
            let q = choose|q: int| 0 <= q < 3 * i + s - 1 && #[trigger] key_at(faces, q) == k;
            assert(key_at(faces, q) == k);
        }
    } else if i > 0 {
        lemma_mids_seen(parents, faces, i - 1, 3, k);
    }
}

/// The side that meets side `p`.
pub open spec fn partner(faces: Seq<Face>, p: int) -> int {
    choose|q: int|
        0 <= q < 3 * faces.len() && #[trigger] other_way(faces, p / 3, p % 3, q / 3, q % 3)
}

/// Sides of closed triangles meet in pairs.
proof fn lemma_partner(faces: Seq<Face>, p: int)
    requires
        closed(faces),
        0 <= p < 3 * faces.len(),
    ensures
        0 <= partner(faces, p) < 3 * faces.len(),
        partner(faces, p) != p,
        partner(faces, partner(faces, p)) == p,
        key_at(faces, partner(faces, p)) == key_at(faces, p),
        forall|q: int|
            0 <= q < 3 * faces.len() && #[trigger] key_at(faces, q) == key_at(faces, p) ==> q == p
                || q == partner(faces, p),
{
    let (i, s) = (p / 3, p % 3);
    assert(is_side(faces, i, s));
    assert(is_met(faces, i, s));
    let (j, t) = choose|j: int, t: int|
        is_side(faces, j, t) && #[trigger] other_way(faces, i, s, j, t);
    let w = 3 * j + t;
    assert(w / 3 == j && w % 3 == t);
    assert(other_way(faces, p / 3, p % 3, w / 3, w % 3));
    let q = partner(faces, p);
    assert(0 <= q < 3 * faces.len() && other_way(faces, i, s, q / 3, q % 3));
    assert(is_side(faces, q / 3, q % 3));
    assert(proper(faces[i]));
    if q == p {
        assert(false);
    }
    assert(other_way(faces, q / 3, q % 3, p / 3, p % 3));
    let r = partner(faces, q);
    assert(0 <= r < 3 * faces.len() && other_way(faces, q / 3, q % 3, r / 3, r % 3));
    assert(is_side(faces, r / 3, r % 3));
    assert(same_way(faces, i, s, r / 3, r % 3));
    lemma_key_turns(tail(faces[i], s), head(faces[i], s));
    assert forall|x: int|
        0 <= x < 3 * faces.len() && #[trigger] key_at(faces, x) == key_at(faces, p) implies x == p
        || x == q by {
        assert(is_side(faces, x / 3, x % 3));
        lemma_key_ends(
            tail(faces[x / 3], x % 3),
            head(faces[x / 3], x % 3),
            tail(faces[i], s),
            head(faces[i], s),
        );
        if same_way(faces, x / 3, x % 3, i, s) {
            assert(x == p);
        } else {
            assert(same_way(faces, x / 3, x % 3, q / 3, q % 3));
        }
    }
}

/// How many of the first `n` sides are met by a later one.
pub open spec fn openings(faces: Seq<Face>, n: int) -> nat
    decreases n,
{
    if n <= 0 {
        0
    } else {
        openings(faces, n - 1) + if partner(faces, n - 1) > n - 1 {
            1nat
        } else {
            0nat
        }
    }
}

/// A side adds a vertex just where it is met by a later one.
proof fn lemma_mids_count(parents: Seq<(u32, u32)>, faces: Seq<Face>, i: int, s: int)
    requires
        closed(faces),
        0 <= i <= faces.len(),
        0 <= s <= 3,
        s > 0 ==> i < faces.len(),
    ensures
        mids(parents, faces, i, s).parents.len() == parents.len() + openings(faces, 3 * i + s),
    decreases i, s,
{
    if s > 0 {
        lemma_mids_count(parents, faces, i, s - 1);
        let p = 3 * i + s - 1;
        assert(p / 3 == i && p % 3 == s - 1);
        let k = key_at(faces, p);
        lemma_mids_seen(parents, faces, i, s - 1, k);
        lemma_partner(faces, p);
        let q = partner(faces, p);
        if q < p {
            assert(key_at(faces, q) == k);
        }
    } else if i > 0 {
        lemma_mids_count(parents, faces, i - 1, 3);
    }
}

/// The first `n` sides that are met by a later one.
spec fn opening_sides(faces: Seq<Face>, n: int) -> Set<int> {
    Set::new(|p: int| 0 <= p < n && partner(faces, p) > p)
}

/// Counting sides one by one gives how many there are.
proof fn lemma_openings_len(faces: Seq<Face>, n: int)
    requires
        0 <= n,
    ensures
        opening_sides(faces, n).finite(),
        opening_sides(faces, n).len() == openings(faces, n),
    decreases n,
{
    if n > 0 {
        lemma_openings_len(faces, n - 1);
        if partner(faces, n - 1) > n - 1 {
            assert(opening_sides(faces, n) =~= opening_sides(faces, n - 1).insert(n - 1));
        } else {
            assert(opening_sides(faces, n) =~= opening_sides(faces, n - 1));
        }
    } else {
        assert(opening_sides(faces, 0) =~= Set::empty());
    }
}

/// Half of the sides of closed triangles are met by a later one.
proof fn lemma_half_open(faces: Seq<Face>)
    requires
        closed(faces),
    ensures
        2 * openings(faces, 3 * faces.len() as int) == 3 * faces.len(),
{
    let n = 3 * faces.len() as int;
    let a = opening_sides(faces, n);
    let all = set_int_range(0, n);
    let b = Set::new(|p: int| 0 <= p < n && partner(faces, p) < p);
    let f = |p: int| partner(faces, p);
    lemma_openings_len(faces, n);
    lemma_int_range(0, n);
    assert forall|p: int| all.contains(p) implies a.contains(p) != b.contains(p) by {
        lemma_partner(faces, p);
    }
    assert(injective_on(f, a)) by {
        assert forall|p: int, q: int|
            a.contains(p) && a.contains(q) && #[trigger] f(p) == #[trigger] f(q) implies p == q by {
            lemma_partner(faces, p);
            lemma_partner(faces, q);
        }
    }
    assert(a.map(f) =~= b) by {
        assert forall|q: int| a.map(f).contains(q) implies b.contains(q) by {
            let p = choose|p: int| a.contains(p) && f(p) == q;
            lemma_partner(faces, p);
        }
        assert forall|q: int| b.contains(q) implies a.map(f).contains(q) by {
            lemma_partner(faces, q);
            let p = partner(faces, q);
            assert(a.contains(p) && f(p) == q);
        }
    }
    lemma_map_size(a, b, f);
    assert(a.disjoint(b));
    assert(a + b =~= all);
    vstd::set_lib::lemma_set_disjoint_lens(a, b);
}

/// Dividing leaves the corners of the parts among the vertices that there then are.
proof fn lemma_quarters_within(ids: Map<u64, u32>, faces: Seq<Face>, lo: int, hi: int)
    requires
        divisible(ids, faces, lo, hi),
        lo <= hi,
    ensures
        within(quarters(ids, faces), hi),
{
    let parts = quarters(ids, faces);
    assert forall|n: int, t: int|
        #![trigger tail(parts[n], t)]
        is_side(parts, n, t) implies tail(parts[n], t) < hi by {
        lemma_parts(ids, faces, n, t);
        let (p, s) = part_of(n % 4, t);
        lemma_mid(ids, faces, lo, hi, n / 4, s);
        lemma_mid(ids, faces, lo, hi, n / 4, prev(s));
    }
}

/// The shell is a closed surface at every level: every edge is run along once each way by two
/// triangles that have different corners beyond it, every corner is a vertex, and there are
/// `20 * 4^level` triangles on `10 * 4^level + 2` vertices.
pub proof fn the_shell_is_closed(level: nat)
    requires
        60 * four_to(level) <= u32::MAX,
    ensures
        closed(shell_at(level).faces),
        within(shell_at(level).faces, CORNERS + shell_at(level).parents.len()),
        shell_at(level).faces.len() == 20 * four_to(level),
        CORNERS + shell_at(level).parents.len() == 10 * four_to(level) + 2,
    decreases level,
{
    lemma_shell_size(level);
    if level == 0 {
        lemma_seed_closed();
    } else {
        let below = (level - 1) as nat;
        the_shell_is_closed(below);
        let s = shell_at(below);
        let n = s.faces.len() as int;
        let m = mids(s.parents, s.faces, n, 0);
        let lo = CORNERS + s.parents.len();
        let hi = CORNERS + m.parents.len();
        lemma_mids_grow(s.parents, s.faces, n, 0);
        lemma_mids_fresh(s.parents, s.faces, n, 0);
        lemma_mids_cover_all(s.parents, s.faces);
        lemma_quarters_closed(m.ids, s.faces, lo, hi);
        lemma_quarters_within(m.ids, s.faces, lo, hi);
        lemma_mids_count(s.parents, s.faces, n, 0);
        lemma_half_open(s.faces);
    }
}

} // verus!
