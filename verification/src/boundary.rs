//! Plate boundary extraction and kinematic classification.
//!
//! A boundary edge is a mesh edge whose two cells belong to different plates.

use vstd::prelude::*;
use crate::graph::CellGraph;
use crate::plate::{Mosaic, Sheet};

verus! {

/// How two plates are moving with respect to each other across one edge.
#[derive(Clone, Copy, Debug, PartialEq, Eq, Structural)]
pub enum Kind {
    /// Plates separating: ridge or rift.
    Divergent,
    /// Plates closing: subduction or collision.
    Convergent,
    /// Lateral slip dominates.
    Transform,
}

/// The kind of an edge. `closing` and `opening` are the rates at which the plates
/// close and open across it, `shear` the rate at which they slip along it and
/// `quiet` the rate below which nothing counts as motion.
pub open spec fn kind_of(closing: i32, opening: i32, shear: i32, quiet: i32) -> Kind {
    if closing > shear && closing > quiet {
        Kind::Convergent
    } else if opening > shear && opening > quiet {
        Kind::Divergent
    } else {
        Kind::Transform
    }
}

/// Classifies an edge by the order of its rates.
pub fn classify(closing: i32, opening: i32, shear: i32, quiet: i32) -> (kind: Kind)
    ensures
        kind == kind_of(closing, opening, shear, quiet),
{
    if closing > shear && closing > quiet {
        Kind::Convergent
    } else if opening > shear && opening > quiet {
        Kind::Divergent
    } else {
        Kind::Transform
    }
}

/// One plate-boundary edge.
#[derive(Clone, Copy, Debug, PartialEq, Eq, Structural)]
pub struct Edge {
    /// Cell on the low-index side.
    pub a: u32,
    /// Cell on the high-index side.
    pub b: u32,
    /// Where `b` stands among the neighbours of `a`.
    pub slot: u32,
    /// Plate of `a`.
    pub pa: u16,
    /// Plate of `b`.
    pub pb: u16,
}

/// Slot `k` of cell `a` is a boundary edge, seen from its low-index side.
pub open spec fn is_edge(g: CellGraph, s: Sheet, a: int, k: int) -> bool {
    let b = g.nb(a, k);
    &&& a < b
    &&& s.cell[a] != s.cell[b]
    &&& s.cell[a] < s.plates.len()
    &&& s.cell[b] < s.plates.len()
}

/// The edge in slot `k` of cell `a`.
pub open spec fn edge_at(g: CellGraph, s: Sheet, a: int, k: int) -> Edge {
    Edge {
        a: a as u32,
        b: g.nb(a, k) as u32,
        slot: k as u32,
        pa: s.cell[a],
        pb: s.cell[g.nb(a, k)],
    }
}

/// The boundary edges of the cells before `a`, and those in the first `k` slots of
/// `a`, by cell and slot.
pub open spec fn edges_upto(g: CellGraph, s: Sheet, a: int, k: int) -> Seq<Edge>
    decreases a, k,
{
    if k > 0 {
        let before = edges_upto(g, s, a, k - 1);
        if is_edge(g, s, a, k - 1) {
            before.push(edge_at(g, s, a, k - 1))
        } else {
            before
        }
    } else if a > 0 {
        edges_upto(g, s, a - 1, g.valence(a - 1))
    } else {
        Seq::empty()
    }
}

/// Every boundary edge once, by cell and slot.
pub open spec fn all_edges(g: CellGraph, s: Sheet) -> Seq<Edge> {
    edges_upto(g, s, g.cells(), 0)
}

/// Collects every plate-boundary edge, by its low-index cell and slot.
pub fn build_edges(g: &CellGraph, m: &Mosaic) -> (out: Vec<Edge>)
    requires
        g.wf(),
        m@.cell.len() == g.cells(),
    ensures
        out@ == all_edges(*g, m@),
{
    let n = g.n_cells();
    let np = m.plates.len();
    let mut out: Vec<Edge> = Vec::new();
    let mut a: usize = 0;
    while a < n
        invariant
            a <= n,
            n == g.cells(),
            np == m@.plates.len(),
            g.wf(),
            m@.cell.len() == g.cells(),
            out@ == edges_upto(*g, m@, a as int, 0),
        decreases n - a,
    {
        let pa = m.plate_id[a];
        let deg = g.degree(a);
        let mut k: usize = 0;
        while k < deg
            invariant
                k <= deg,
                deg == g.valence(a as int),
                deg <= u32::MAX,
                a < n,
                n == g.cells(),
                np == m@.plates.len(),
                g.wf(),
                m@.cell.len() == g.cells(),
                pa == m@.cell[a as int],
                out@ == edges_upto(*g, m@, a as int, k as int),
            decreases deg - k,
        {
            let b = g.neighbor(a, k);
            let pb = m.plate_id[b];
            if b > a && pb != pa && (pa as usize) < np && (pb as usize) < np {
                out.push(Edge { a: a as u32, b: b as u32, slot: k as u32, pa, pb });
            }
            k = k + 1;
        }
        a = a + 1;
    }
    out
}

/// `e` is a wall between two different plates, named from its low-index cell.
pub open spec fn is_wall(g: CellGraph, s: Sheet, e: Edge) -> bool {
    &&& e.a < e.b < g.cells()
    &&& e.slot < g.valence(e.a as int)
    &&& g.nb(e.a as int, e.slot as int) == e.b
    &&& e.pa == s.cell[e.a as int]
    &&& e.pb == s.cell[e.b as int]
    &&& e.pa != e.pb
    &&& e.pa < s.plates.len()
    &&& e.pb < s.plates.len()
}

/// Edge `e` stands before slot `k` of cell `a`.
pub open spec fn stands_before(e: Edge, a: int, k: int) -> bool {
    e.a < a || (e.a == a && e.slot < k)
}

/// What every collected edge is, and in what order they come.
pub proof fn lemma_edges(g: &CellGraph, s: Sheet, a: int, k: int)
    requires
        g.wf(),
        s.cell.len() == g.cells(),
        0 <= a <= g.cells(),
        a == g.cells() ==> k == 0,
        a < g.cells() ==> 0 <= k <= g.valence(a),
    ensures
        forall|i: int|
            0 <= i < edges_upto(*g, s, a, k).len() ==> #[trigger] is_wall(
                *g,
                s,
                edges_upto(*g, s, a, k)[i],
            ),
        forall|i: int|
            0 <= i < edges_upto(*g, s, a, k).len() ==> #[trigger] stands_before(
                edges_upto(*g, s, a, k)[i],
                a,
                k,
            ),
        forall|i: int, j: int|
            0 <= i < j < edges_upto(*g, s, a, k).len() ==> stands_before(
                #[trigger] edges_upto(*g, s, a, k)[i],
                (#[trigger] edges_upto(*g, s, a, k)[j]).a as int,
                edges_upto(*g, s, a, k)[j].slot as int,
            ),
    decreases a, k,
{
    let out = edges_upto(*g, s, a, k);
    if k > 0 {
        lemma_edges(g, s, a, k - 1);
        assert(g.offsets@[a + 1] <= g.offsets@[g.cells()]);
        assert(0 <= g.nb(a, k - 1) < g.cells());
        assert(g.offsets@[g.cells()] <= u32::MAX);
        let prev = edges_upto(*g, s, a, k - 1);
        assert forall|i: int| 0 <= i < out.len() implies #[trigger] is_wall(*g, s, out[i])
            && stands_before(out[i], a, k) by {
            if i < prev.len() {
                assert(is_wall(*g, s, prev[i]));
                assert(stands_before(prev[i], a, k - 1));
            }
        }
        assert forall|i: int| 0 <= i < out.len() implies #[trigger] stands_before(out[i], a, k) by {
            assert(is_wall(*g, s, out[i]));
        }
        assert forall|i: int, j: int| 0 <= i < j < out.len() implies stands_before(
            #[trigger] out[i],
            (#[trigger] out[j]).a as int,
            out[j].slot as int,
        ) by {
            assert(out[i] == prev[i]);
            assert(stands_before(prev[i], a, k - 1));
            if j < prev.len() {
                assert(out[j] == prev[j]);
            }
        }
    } else if a > 0 {
        assert(g.offsets@[a - 1] <= g.offsets@[a]);
        lemma_edges(g, s, a - 1, g.valence(a - 1));
        assert(out == edges_upto(*g, s, a - 1, g.valence(a - 1)));
        assert forall|i: int| 0 <= i < out.len() implies #[trigger] stands_before(out[i], a, k) by {
            assert(stands_before(out[i], a - 1, g.valence(a - 1)));
        }
        assert forall|i: int, j: int| 0 <= i < j < out.len() implies stands_before(
            #[trigger] out[i],
            (#[trigger] out[j]).a as int,
            out[j].slot as int,
        ) by {}
    }
}

/// The boundary edges are walls between different plates, listed by cell and slot.
pub proof fn edges_part_different_plates(g: &CellGraph, s: Sheet, i: int, j: int)
    requires
        g.wf(),
        s.cell.len() == g.cells(),
        0 <= i < j < all_edges(*g, s).len(),
    ensures
        ({
            let e = all_edges(*g, s)[i];
            let f = all_edges(*g, s)[j];
            &&& is_wall(*g, s, e)
            &&& is_wall(*g, s, f)
            &&& stands_before(e, f.a as int, f.slot as int)
        }),
{
    lemma_edges(g, s, g.cells(), 0);
    assert(is_wall(*g, s, all_edges(*g, s)[i]));
    assert(is_wall(*g, s, all_edges(*g, s)[j]));
}

/// A wall is collected once the scan is past it.
proof fn lemma_wall_is_listed(g: &CellGraph, s: Sheet, a: int, k: int, e: Edge)
    requires
        g.wf(),
        s.cell.len() == g.cells(),
        0 <= a <= g.cells(),
        a == g.cells() ==> k == 0,
        a < g.cells() ==> 0 <= k <= g.valence(a),
        is_wall(*g, s, e),
        stands_before(e, a, k),
    ensures
        edges_upto(*g, s, a, k).contains(e),
    decreases a, k,
{
    let out = edges_upto(*g, s, a, k);
    if k > 0 {
        let prev = edges_upto(*g, s, a, k - 1);
        if e.a == a && e.slot == k - 1 {
            assert(out[prev.len() as int] == e);
        } else {
            lemma_wall_is_listed(g, s, a, k - 1, e);
            let i = choose|i: int| 0 <= i < prev.len() && prev[i] == e;
            assert(out[i] == e);
        }
    } else {
        assert(g.offsets@[a - 1] <= g.offsets@[a]);
        lemma_wall_is_listed(g, s, a - 1, g.valence(a - 1), e);
    }
}

/// Every wall between two different plates is listed, seen from its lower cell, and nothing
/// else is.
pub proof fn every_wall_is_an_edge(g: &CellGraph, s: Sheet)
    requires
        g.wf(),
        s.cell.len() == g.cells(),
    ensures
        forall|a: int, k: int|
            0 <= a < g.cells() && 0 <= k < g.valence(a) && a < #[trigger] g.nb(a, k) && s.cell[a]
                != s.cell[g.nb(a, k)] && s.cell[a] < s.plates.len() && s.cell[g.nb(a, k)]
                < s.plates.len() ==> all_edges(*g, s).contains(
                Edge {
                    a: a as u32,
                    b: g.nb(a, k) as u32,
                    slot: k as u32,
                    pa: s.cell[a],
                    pb: s.cell[g.nb(a, k)],
                },
            ),
        forall|i: int|
            0 <= i < all_edges(*g, s).len() ==> {
                let e = #[trigger] all_edges(*g, s)[i];
                &&& e.a < e.b < g.cells()
                &&& e.slot < g.valence(e.a as int)
                &&& g.nb(e.a as int, e.slot as int) == e.b
                &&& s.cell[e.a as int] == e.pa
                &&& s.cell[e.b as int] == e.pb
                &&& e.pa != e.pb
                &&& e.pa < s.plates.len()
                &&& e.pb < s.plates.len()
            },
        all_edges(*g, s).no_duplicates(),
{
    let out = all_edges(*g, s);
    lemma_edges(g, s, g.cells(), 0);
    assert forall|a: int, k: int|
        0 <= a < g.cells() && 0 <= k < g.valence(a) && a < #[trigger] g.nb(a, k) && s.cell[a]
            != s.cell[g.nb(a, k)] && s.cell[a] < s.plates.len() && s.cell[g.nb(a, k)]
            < s.plates.len() implies out.contains(
        Edge {
            a: a as u32,
            b: g.nb(a, k) as u32,
            slot: k as u32,
            pa: s.cell[a],
            pb: s.cell[g.nb(a, k)],
        },
    ) by {
        assert(g.offsets@[a + 1] <= g.offsets@[g.cells()]);
        assert(g.offsets@[g.cells()] <= u32::MAX);
        assert(0 <= g.nb(a, k) < g.cells());
        let e = Edge {
            a: a as u32,
            b: g.nb(a, k) as u32,
            slot: k as u32,
            pa: s.cell[a],
            pb: s.cell[g.nb(a, k)],
        };
        assert(is_wall(*g, s, e));
        lemma_wall_is_listed(g, s, g.cells(), 0, e);
    }
    assert forall|i: int| 0 <= i < out.len() implies is_wall(*g, s, #[trigger] out[i]) by {}
    assert forall|i: int, j: int| 0 <= i < out.len() && 0 <= j < out.len() && i != j implies out[i]
        != out[j] by {
        if i < j {
            assert(stands_before(out[i], out[j].a as int, out[j].slot as int));
        } else {
            assert(stands_before(out[j], out[i].a as int, out[i].slot as int));
        }
    }
}

/// What the rates make of an edge: it closes where closing outruns the slip and the quiet rate,
/// it opens where opening does and it does not close, and it slips where neither stands out.
pub proof fn the_dominant_rate_names_the_edge(closing: i32, opening: i32, shear: i32, quiet: i32)
    ensures
        kind_of(closing, opening, shear, quiet) == Kind::Convergent <==> closing > shear && closing
            > quiet,
        kind_of(closing, opening, shear, quiet) == Kind::Divergent <==> opening > shear && opening
            > quiet && (closing <= shear || closing <= quiet),
        kind_of(closing, opening, shear, quiet) == Kind::Transform <==> (closing <= shear || closing
            <= quiet) && (opening <= shear || opening <= quiet),
        // Plates that close at a rate part at that rate when their motion is turned round.
        closing > 0 && opening < 0 && quiet >= 0 && shear >= 0 && kind_of(
            closing,
            opening,
            shear,
            quiet,
        ) == Kind::Convergent ==> kind_of(opening, closing, shear, quiet) == Kind::Divergent,
{
}

} // verus!
