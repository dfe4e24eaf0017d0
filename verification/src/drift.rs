//! What plate boundaries do to the cells beside them, which plates merge, and how
//! the mosaic is tidied after a step.

use vstd::prelude::*;
use crate::boundary::{Edge, Kind};
use crate::flood::{component_labels, connected, count_eq, lemma_count_bound, lemma_count_push};
use crate::graph::{whole, CellGraph};
use crate::phase::{index_of, Phase};
use crate::plate::{Mosaic, Sheet, MAX_PLATES};
use crate::renumber::{absorbed, compacted, handed};
use crate::topology::{
    component_sizes, large_fragments_become_plates, n_components, sweeps_leave_whole_plates_alone,
    swept_times, MAX_SWEEPS,
};

verus! {

/// The cell goes down at a trench.
pub const SUBDUCTING: u8 = 1;

/// A volcanic arc stands on the cell.
pub const ARC: u8 = 2;

/// Two continents meet in the cell.
pub const COLLISION: u8 = 4;

/// The cell is being pulled apart.
pub const RIFT: u8 = 8;

/// A plume rises under the cell.
pub const HOTSPOT: u8 = 16;

/// Plates slip past each other beside the cell.
pub const TRANSFORM: u8 = 32;

/// An old seam runs through the cell. The only mark that outlives a step.
pub const SUTURE: u8 = 64;

/// Order key of age zero.
pub const AGE_ZERO: i32 = 0;

/// What the boundary pass reads and writes of every cell.
pub struct Crust {
    /// Whether the crust is continental.
    pub continental: Vec<bool>,
    /// Order key of the age.
    pub age: Vec<i32>,
    /// Activity marks.
    pub flags: Vec<u8>,
    /// Whether the cell has been given fresh crust in this pass.
    pub renewed: Vec<bool>,
}

/// What a crust holds.
#[verifier::ext_equal]
pub struct CrustView {
    pub continental: Seq<bool>,
    pub age: Seq<i32>,
    pub flags: Seq<u8>,
    pub renewed: Seq<bool>,
}

impl View for Crust {
    type V = CrustView;

    open spec fn view(&self) -> CrustView {
        CrustView {
            continental: self.continental@,
            age: self.age@,
            flags: self.flags@,
            renewed: self.renewed@,
        }
    }
}

impl CrustView {
    /// All fields cover `n` cells.
    pub open spec fn covers(self, n: int) -> bool {
        &&& self.continental.len() == n
        &&& self.age.len() == n
        &&& self.flags.len() == n
        &&& self.renewed.len() == n
    }

    /// The same crust with `bit` set on cell `c`.
    pub open spec fn marked(self, c: int, bit: u8) -> CrustView {
        CrustView { flags: self.flags.update(c, self.flags[c] | bit), ..self }
    }

    /// The same crust with fresh ocean floor in cell `c`.
    pub open spec fn refreshed(self, c: int) -> CrustView {
        CrustView {
            age: self.age.update(c, AGE_ZERO),
            renewed: self.renewed.update(c, true),
            flags: self.flags.update(c, self.flags[c] | RIFT),
            ..self
        }
    }
}

/// What one boundary edge does.
#[derive(Clone, Copy, Debug, PartialEq, Eq, Structural)]
pub enum Effect {
    /// The plates slip past each other.
    Slip,
    /// The plates part: continental sides stretch, and between two oceanic sides one
    /// cell may be renewed.
    Spread { stretch_a: bool, stretch_b: bool, renew: Option<u32> },
    /// Two continents collide; both sides shorten.
    Collide,
    /// One side goes down under the other.
    Subduct { a_down: bool },
}

/// Whether ocean floor on both sides makes the edge draw for renewal.
pub open spec fn draws(crust: CrustView, e: Edge, kind: Kind) -> bool {
    kind == Kind::Divergent && !crust.continental[e.a as int] && !crust.continental[e.b as int]
}

/// Polarity of a trench: continental crust never goes down; between two oceanic
/// sides the older one does.
pub open spec fn a_goes_down(crust: CrustView, e: Edge) -> bool {
    if crust.continental[e.a as int] != crust.continental[e.b as int] {
        !crust.continental[e.a as int]
    } else {
        crust.age[e.a as int] >= crust.age[e.b as int]
    }
}

/// The side of a ridge that is renewed: the older one.
pub open spec fn older_side(crust: CrustView, e: Edge) -> u32 {
    if crust.age[e.a as int] >= crust.age[e.b as int] {
        e.a
    } else {
        e.b
    }
}

/// What edge `e` does, given whether its renewal draw came up.
pub open spec fn effect_of(crust: CrustView, e: Edge, kind: Kind, fires: bool) -> Effect {
    match kind {
        Kind::Transform => Effect::Slip,
        Kind::Divergent => Effect::Spread {
            stretch_a: crust.continental[e.a as int],
            stretch_b: crust.continental[e.b as int],
            renew: if draws(crust, e, kind) && fires && !crust.renewed[older_side(
                crust,
                e,
            ) as int] {
                Some(older_side(crust, e))
            } else {
                None
            },
        },
        Kind::Convergent => if crust.continental[e.a as int] && crust.continental[e.b as int] {
            Effect::Collide
        } else {
            Effect::Subduct { a_down: a_goes_down(crust, e) }
        },
    }
}

/// The crust after an effect of edge `e`.
pub open spec fn after_effect(crust: CrustView, e: Edge, effect: Effect) -> CrustView {
    let a = e.a as int;
    let b = e.b as int;
    match effect {
        Effect::Slip => crust.marked(a, TRANSFORM).marked(b, TRANSFORM),
        Effect::Spread { renew, .. } => {
            let parted = crust.marked(a, RIFT).marked(b, RIFT);
            match renew {
                Some(c) => parted.refreshed(c as int),
                None => parted,
            }
        },
        Effect::Collide => crust.marked(a, COLLISION).marked(b, COLLISION),
        Effect::Subduct { a_down } => crust.marked(
            if a_down {
                a
            } else {
                b
            },
            SUBDUCTING,
        ),
    }
}

/// The crust after the first `i` edges.
pub open spec fn after_edges(
    crust: CrustView,
    edges: Seq<Edge>,
    kinds: Seq<Kind>,
    fires: Seq<bool>,
    i: int,
) -> CrustView
    decreases i,
{
    if i <= 0 {
        crust
    } else {
        let before = after_edges(crust, edges, kinds, fires, i - 1);
        after_effect(
            before,
            edges[i - 1],
            effect_of(before, edges[i - 1], kinds[i - 1], fires[i - 1]),
        )
    }
}

/// The effects of all edges, each on the crust that the edges before it left.
pub open spec fn effects_of(
    crust: CrustView,
    edges: Seq<Edge>,
    kinds: Seq<Kind>,
    fires: Seq<bool>,
) -> Seq<Effect> {
    Seq::new(
        edges.len(),
        |i: int|
            effect_of(
                after_edges(crust, edges, kinds, fires, i),
                edges[i],
                kinds[i],
                fires[i],
            ),
    )
}

/// Every edge joins two of the first `n` cells.
pub open spec fn in_range(edges: Seq<Edge>, n: int) -> bool {
    forall|i: int| 0 <= i < edges.len() ==> (#[trigger] edges[i]).a < n && edges[i].b < n
}

proof fn lemma_after_edges_covers(
    crust: CrustView,
    edges: Seq<Edge>,
    kinds: Seq<Kind>,
    fires: Seq<bool>,
    n: int,
    i: int,
)
    requires
        crust.covers(n),
        in_range(edges, n),
        0 <= i <= edges.len(),
    ensures
        after_edges(crust, edges, kinds, fires, i).covers(n),
        after_edges(crust, edges, kinds, fires, i).continental == crust.continental,
    decreases i,
{
    if i > 0 {
        lemma_after_edges_covers(crust, edges, kinds, fires, n, i - 1);
        assert(edges[i - 1].a < n);
    }
}

impl Crust {
    /// Sets `bit` on cell `c`.
    fn mark(&mut self, c: u32, bit: u8)
        requires
            c < old(self)@.flags.len(),
        ensures
            final(self)@ == old(self)@.marked(c as int, bit),
    {
        let f: u8 = self.flags[c as usize];
        self.flags.set(c as usize, f | bit);
    }

    /// Gives cell `c` fresh ocean floor.
    fn refresh(&mut self, c: u32)
        requires
            c < old(self)@.flags.len(),
            c < old(self)@.age.len(),
            c < old(self)@.renewed.len(),
        ensures
            final(self)@ == old(self)@.refreshed(c as int),
    {
        self.age.set(c as usize, AGE_ZERO);
        self.renewed.set(c as usize, true);
        let f: u8 = self.flags[c as usize];
        self.flags.set(c as usize, f | RIFT);
    }

    /// Whether the edge draws for renewal.
    pub fn wants_draw(&self, e: &Edge, kind: Kind) -> (b: bool)
        requires
            e.a < self@.continental.len(),
            e.b < self@.continental.len(),
        ensures
            b == draws(self@, *e, kind),
    {
        kind == Kind::Divergent && !self.continental[e.a as usize] && !self.continental[e.b as usize]
    }

    /// Decides what edge `e` does, and marks the cells.
    pub fn resolve_edge(&mut self, e: &Edge, kind: Kind, fires: bool) -> (effect: Effect)
        requires
            old(self)@.covers(old(self)@.flags.len() as int),
            e.a < old(self)@.flags.len(),
            e.b < old(self)@.flags.len(),
        ensures
            effect == effect_of(old(self)@, *e, kind, fires),
            final(self)@ == after_effect(old(self)@, *e, effect),
    {
        let ca = self.continental[e.a as usize];
        let cb = self.continental[e.b as usize];
        let a_older = self.age[e.a as usize] >= self.age[e.b as usize];
        match kind {
            Kind::Transform => {
                self.mark(e.a, TRANSFORM);
                self.mark(e.b, TRANSFORM);
                Effect::Slip
            },
            Kind::Divergent => {
                let older: u32 = if a_older {
                    e.a
                } else {
                    e.b
                };
                let fresh = !ca && !cb && fires && !self.renewed[older as usize];
                self.mark(e.a, RIFT);
                self.mark(e.b, RIFT);
                let renew: Option<u32> = if fresh {
                    self.refresh(older);
                    Some(older)
                } else {
                    None
                };
                Effect::Spread { stretch_a: ca, stretch_b: cb, renew }
            },
            Kind::Convergent => {
                if ca && cb {
                    self.mark(e.a, COLLISION);
                    self.mark(e.b, COLLISION);
                    Effect::Collide
                } else {
                    let a_down = if ca != cb {
                        !ca
                    } else {
                        a_older
                    };
                    if a_down {
                        self.mark(e.a, SUBDUCTING);
                    } else {
                        self.mark(e.b, SUBDUCTING);
                    }
                    Effect::Subduct { a_down }
                }
            },
        }
    }

    /// Lays an arc on cell `cell`, the `hop`-th on the way into the overriding plate: the first
    /// is too near the trench. Returns whether the arc stands there.
    pub fn lay_arc(&mut self, cell: u32, hop: u32) -> (laid: bool)
        requires
            cell < old(self)@.flags.len(),
        ensures
            laid == (hop >= ARC_FIRST_HOP),
            laid ==> final(self)@ == old(self)@.marked(cell as int, ARC),
            !laid ==> final(self)@ == old(self)@,
    {
        if hop >= ARC_FIRST_HOP {
            self.mark(cell, ARC);
            true
        } else {
            false
        }
    }

    /// The boundary pass: every edge in order, each on the crust that the edges
    /// before it left. `fires` tells for each edge whether its draw came up, and is
    /// looked at only where the edge draws.
    pub fn boundary_pass(&mut self, edges: &[Edge], kinds: &[Kind], fires: &[bool]) -> (effects: Vec<
        Effect,
    >)
        requires
            old(self)@.covers(old(self)@.flags.len() as int),
            kinds@.len() == edges@.len(),
            fires@.len() == edges@.len(),
            in_range(edges@, old(self)@.flags.len() as int),
        ensures
            effects@ == effects_of(old(self)@, edges@, kinds@, fires@),
            final(self)@ == after_edges(
                old(self)@,
                edges@,
                kinds@,
                fires@,
                edges@.len() as int,
            ),
    {
        let ghost crust0 = self@;
        let ghost n = self@.flags.len() as int;
        let mut effects: Vec<Effect> = Vec::new();
        let mut i: usize = 0;
        while i < edges.len()
            invariant
                i <= edges@.len(),
                crust0 == old(self)@,
                crust0.covers(n),
                n == crust0.flags.len(),
                kinds@.len() == edges@.len(),
                fires@.len() == edges@.len(),
                in_range(edges@, n),
                self@ == after_edges(crust0, edges@, kinds@, fires@, i as int),
                effects@ == effects_of(crust0, edges@, kinds@, fires@).take(i as int),
            decreases edges@.len() - i,
        {
            proof {
                lemma_after_edges_covers(crust0, edges@, kinds@, fires@, n, i as int);
                assert(edges@[i as int].a < n);
            }
            let effect = self.resolve_edge(&edges[i], kinds[i], fires[i]);
            effects.push(effect);
            i = i + 1;
            assert(effects@ =~= effects_of(crust0, edges@, kinds@, fires@).take(i as int));
        }
        assert(effects@ =~= effects_of(crust0, edges@, kinds@, fires@));
        effects
    }
}

/// The pass never changes what crust is continental, so whether an edge draws can be
/// told before the pass begins.
pub proof fn draws_are_known_beforehand(
    crust: CrustView,
    edges: Seq<Edge>,
    kinds: Seq<Kind>,
    fires: Seq<bool>,
    i: int,
)
    requires
        crust.covers(crust.flags.len() as int),
        in_range(edges, crust.flags.len() as int),
        0 <= i < edges.len(),
    ensures
        draws(after_edges(crust, edges, kinds, fires, i), edges[i], kinds[i]) == draws(
            crust,
            edges[i],
            kinds[i],
        ),
{
    lemma_after_edges_covers(crust, edges, kinds, fires, crust.flags.len() as int, i);
}

/// Continental crust never goes down, and where one side is oceanic that side does.
pub proof fn continents_do_not_subduct(crust: CrustView, e: Edge, fires: bool)
    ensures
        effect_of(crust, e, Kind::Convergent, fires) matches Effect::Subduct { a_down } ==> {
            let down = if a_down {
                e.a
            } else {
                e.b
            };
            !crust.continental[down as int]
        },
{
}

/// A pass renews no cell twice.
pub proof fn a_cell_is_renewed_at_most_once(
    crust: CrustView,
    edges: Seq<Edge>,
    kinds: Seq<Kind>,
    fires: Seq<bool>,
    i: int,
    j: int,
)
    requires
        crust.covers(crust.flags.len() as int),
        in_range(edges, crust.flags.len() as int),
        0 <= i < j < edges.len(),
        effects_of(crust, edges, kinds, fires)[i] is Spread,
        effects_of(crust, edges, kinds, fires)[j] is Spread,
        effects_of(crust, edges, kinds, fires)[i]->renew is Some,
        effects_of(crust, edges, kinds, fires)[j]->renew is Some,
    ensures
        effects_of(crust, edges, kinds, fires)[i]->renew != effects_of(
            crust,
            edges,
            kinds,
            fires,
        )[j]->renew,
{
    let c = effects_of(crust, edges, kinds, fires)[i]->renew->0;
    let n = crust.flags.len() as int;
    lemma_after_edges_covers(crust, edges, kinds, fires, n, i);
    lemma_after_edges_covers(crust, edges, kinds, fires, n, i + 1);
    assert(after_edges(crust, edges, kinds, fires, i + 1).renewed[c as int]);
    lemma_renewed_stays(crust, edges, kinds, fires, i + 1, j, c as int);
}

proof fn lemma_renewed_stays(
    crust: CrustView,
    edges: Seq<Edge>,
    kinds: Seq<Kind>,
    fires: Seq<bool>,
    i: int,
    j: int,
    c: int,
)
    requires
        crust.covers(crust.flags.len() as int),
        in_range(edges, crust.flags.len() as int),
        0 <= i <= j <= edges.len(),
        0 <= c < crust.flags.len(),
        after_edges(crust, edges, kinds, fires, i).renewed[c],
    ensures
        after_edges(crust, edges, kinds, fires, j).renewed[c],
    decreases j,
{
    if i < j {
        lemma_renewed_stays(crust, edges, kinds, fires, i, j - 1, c);
        lemma_after_edges_covers(crust, edges, kinds, fires, crust.flags.len() as int, j - 1);
        assert(edges[j - 1].a < crust.flags.len());
    }
}

/// The pair of plates that an edge parts, lower id first.
pub open spec fn pair_of(e: Edge) -> (u16, u16) {
    if e.pa < e.pb {
        (e.pa, e.pb)
    } else {
        (e.pb, e.pa)
    }
}

/// Pairs are ordered by their first plate, then by their second.
pub open spec fn pair_before(a: (u16, u16), b: (u16, u16)) -> bool {
    a.0 < b.0 || (a.0 == b.0 && a.1 < b.1)
}

/// `pairs` lists the plate pairs of the first `n` edges, each once, in order.
pub open spec fn are_pairs(edges: Seq<Edge>, n: int, pairs: Seq<(u16, u16)>) -> bool {
    &&& forall|i: int, j: int|
        0 <= i < j < pairs.len() ==> pair_before(#[trigger] pairs[i], #[trigger] pairs[j])
    &&& forall|i: int| 0 <= i < n ==> pairs.contains(pair_of(#[trigger] edges[i]))
    &&& forall|j: int|
        0 <= j < pairs.len() ==> exists|i: int|
            0 <= i < n && pair_of(#[trigger] edges[i]) == #[trigger] pairs[j]
}

/// The plate pairs that share a boundary, each once, in order.
pub fn boundary_pairs(edges: &[Edge]) -> (pairs: Vec<(u16, u16)>)
    ensures
        are_pairs(edges@, edges@.len() as int, pairs@),
{
    let mut pairs: Vec<(u16, u16)> = Vec::new();
    let mut i: usize = 0;
    while i < edges.len()
        invariant
            i <= edges@.len(),
            are_pairs(edges@, i as int, pairs@),
        decreases edges@.len() - i,
    {
        let e = edges[i];
        let key = if e.pa < e.pb {
            (e.pa, e.pb)
        } else {
            (e.pb, e.pa)
        };
        let ghost before = pairs@;
        let mut at: usize = pairs.len();
        while at > 0 && (pairs[at - 1].0 > key.0 || (pairs[at - 1].0 == key.0 && pairs[at - 1].1
            >= key.1))
            invariant
                at <= pairs@.len(),
                pairs@ == before,
                forall|j: int| at <= j < pairs@.len() ==> !pair_before(#[trigger] pairs@[j], key),
            decreases at,
        {
            at = at - 1;
        }
        let known = at < pairs.len() && pairs[at].0 == key.0 && pairs[at].1 == key.1;
        if !known {
            pairs.insert(at, key);
        }
        proof {
            assert(pair_of(edges@[i as int]) == key);
            assert forall|x: (u16, u16)| before.contains(x) implies pairs@.contains(x) by {
                let j = choose|j: int| 0 <= j < before.len() && before[j] == x;
                if known || j < at {
                    assert(pairs@[j] == x);
                } else {
                    assert(pairs@[j + 1] == x);
                }
            }
            assert(pairs@[at as int] == key);
            assert forall|a: int, b: int| 0 <= a < b < pairs@.len() implies pair_before(
                #[trigger] pairs@[a],
                #[trigger] pairs@[b],
            ) by {
                if !known {
                    let a0 = if a < at {
                        a
                    } else {
                        a - 1
                    };
                    let b0 = if b < at {
                        b
                    } else {
                        b - 1
                    };
                    if a != at && b != at {
                        assert(pairs@[a] == before[a0] && pairs@[b] == before[b0]);
                        assert(pair_before(before[a0], before[b0]));
                    } else if b == at {
                        assert(pairs@[a] == before[a]);
                        if a < at - 1 {
                            assert(pair_before(before[a], before[at - 1]));
                        }
                    } else {
                        assert(pairs@[b] == before[b - 1]);
                        assert(!pair_before(before[b - 1], key));
                        if b - 1 > at {
                            assert(pair_before(before[at as int], before[b - 1]));
                        }
                    }
                }
            }
            assert forall|j: int| 0 <= j < pairs@.len() implies exists|k: int|
                0 <= k < i + 1 && pair_of(#[trigger] edges@[k]) == #[trigger] pairs@[j] by {
                if !known && j == at {
                    assert(pair_of(edges@[i as int]) == pairs@[j]);
                } else {
                    let j0 = if known || j < at {
                        j
                    } else {
                        j - 1
                    };
                    assert(pairs@[j] == before[j0]);
                    let k = choose|k: int|
                        0 <= k < i && pair_of(#[trigger] edges@[k]) == before[j0];
                    assert(pair_of(edges@[k]) == pairs@[j]);
                }
            }
            assert forall|k: int| 0 <= k < i + 1 implies pairs@.contains(
                pair_of(#[trigger] edges@[k]),
            ) by {
                if k < i {
                    assert(before.contains(pair_of(edges@[k])));
                }
            }
        }
        i = i + 1;
    }
    pairs
}

/// The marks after the first `i` edges between plates `x` and `y` have left their
/// seam.
pub open spec fn sutured(flags: Seq<u8>, edges: Seq<Edge>, pair: (u16, u16), i: int) -> Seq<u8>
    decreases i,
{
    if i <= 0 {
        flags
    } else {
        let before = sutured(flags, edges, pair, i - 1);
        let e = edges[i - 1];
        if pair_of(e) == pair {
            let once = before.update(e.a as int, before[e.a as int] | SUTURE);
            once.update(e.b as int, once[e.b as int] | SUTURE)
        } else {
            before
        }
    }
}

/// Two plates that became one.
#[derive(Clone, Copy, Debug, PartialEq, Eq, Structural)]
pub struct Merger {
    /// The plate that goes on.
    pub keep: u16,
    /// The plate that lost its cells.
    pub gone: u16,
    /// Whether a collision locked up, which leaves a seam.
    pub welded: bool,
}

/// Pair `i` is the first that is welded or quiet.
pub open spec fn merges_first(welded: Seq<bool>, quiet: Seq<bool>, i: int) -> bool {
    &&& 0 <= i < welded.len()
    &&& welded[i] || quiet[i]
    &&& forall|j: int| 0 <= j < i ==> !#[trigger] welded[j] && !quiet[j]
}

/// Merger `m` is that of pair `i`, the first to merge: the plate with more cells goes on, takes
/// the cells of the other, and a weld leaves its seam in the marks.
pub open spec fn is_merger(
    cell: Seq<u16>,
    flags: Seq<u8>,
    edges: Seq<Edge>,
    pairs: Seq<(u16, u16)>,
    welded: Seq<bool>,
    quiet: Seq<bool>,
    count: Seq<u32>,
    i: int,
    m: Merger,
    new_cell: Seq<u16>,
    new_flags: Seq<u8>,
) -> bool {
    let (x, y) = pairs[i];
    &&& merges_first(welded, quiet, i)
    &&& m == (if count[x as int] >= count[y as int] {
        (Merger { keep: x, gone: y, welded: welded[i] })
    } else {
        (Merger { keep: y, gone: x, welded: welded[i] })
    })
    &&& new_cell == handed(cell, m.gone, m.keep)
    &&& new_flags == (if m.welded {
        sutured(flags, edges, (x, y), edges.len() as int)
    } else {
        flags
    })
}

impl Mosaic {
    /// Number of cells of each plate.
    pub fn cell_counts(&self) -> (count: Vec<u32>)
        requires
            self@.cell.len() <= u32::MAX,
            self@.plates.len() <= u16::MAX,
        ensures
            count@.len() == self@.plates.len(),
            forall|p: int|
                0 <= p < count@.len() ==> #[trigger] count@[p] as nat == count_eq(
                    self@.cell,
                    p as u16,
                ),
    {
        let np = self.plates.len();
        let n = self.plate_id.len();
        let mut count: Vec<u32> = Vec::new();
        while count.len() < np
            invariant
                count@.len() <= np,
                forall|p: int| 0 <= p < count@.len() ==> count@[p] == 0,
            decreases np - count@.len(),
        {
            count.push(0);
        }
        let ghost cell = self@.cell;
        assert(cell.take(0) =~= Seq::<u16>::empty());
        let mut c: usize = 0;
        while c < n
            invariant
                c <= n,
                cell == self@.cell,
                n == cell.len(),
                n <= u32::MAX,
                count@.len() == np,
                np <= u16::MAX,
                forall|p: int|
                    0 <= p < np ==> #[trigger] count@[p] as nat == count_eq(
                        cell.take(c as int),
                        p as u16,
                    ),
            decreases n - c,
        {
            let p = self.plate_id[c] as usize;
            let ghost count0 = count@;
            if p < np {
                proof {
                    lemma_count_bound(cell.take(c as int), p as u16);
                }
                let had: u32 = count[p];
                count.set(p, had + 1);
            }
            proof {
                assert(cell.take(c + 1) =~= cell.take(c as int).push(cell[c as int]));
                assert forall|q: int| 0 <= q < np implies #[trigger] count@[q] as nat == count_eq(
                    cell.take(c + 1),
                    q as u16,
                ) by {
                    lemma_count_push(cell.take(c as int), cell[c as int], q as u16);
                    assert(count0[q] as nat == count_eq(cell.take(c as int), q as u16));
                }
            }
            c = c + 1;
        }
        assert(cell.take(n as int) =~= cell);
        count
    }

    /// Merges the first pair of plates that has stopped behaving like two: a
    /// collision that has locked up (welded, which leaves a seam along the boundary)
    /// or a long boundary with next to no slip (quiet). The larger plate goes on.
    pub fn merge_first(
        &mut self,
        edges: &[Edge],
        pairs: &[(u16, u16)],
        welded: &[bool],
        quiet: &[bool],
        count: &[u32],
        flags: &mut Vec<u8>,
    ) -> (merged: Option<Merger>)
        requires
            welded@.len() == pairs@.len(),
            quiet@.len() == pairs@.len(),
            in_range(edges@, old(flags)@.len() as int),
            forall|i: int|
                0 <= i < pairs@.len() ==> (#[trigger] pairs@[i]).0 < count@.len() && pairs@[i].1
                    < count@.len(),
        ensures
            final(self)@.plates == old(self)@.plates,
            merged is None ==> final(self)@ == old(self)@ && final(flags)@ == old(flags)@,
            merged is None <==> old(self)@.plates.len() < 2 || forall|i: int|
                0 <= i < pairs@.len() ==> !#[trigger] welded@[i] && !quiet@[i],
            merged matches Some(m) ==> exists|i: int|
                #![trigger pairs@[i]]
                is_merger(
                    old(self)@.cell,
                    old(flags)@,
                    edges@,
                    pairs@,
                    welded@,
                    quiet@,
                    count@,
                    i,
                    m,
                    final(self)@.cell,
                    final(flags)@,
                ),
    {
        let ghost s = self@;
        let ghost flags0 = flags@;
        if self.plates.len() < 2 {
            return None;
        }
        let mut i: usize = 0;
        while i < pairs.len() && !welded[i] && !quiet[i]
            invariant
                i <= pairs@.len(),
                welded@.len() == pairs@.len(),
                quiet@.len() == pairs@.len(),
                forall|j: int| 0 <= j < i ==> !#[trigger] welded@[j] && !quiet@[j],
            decreases pairs@.len() - i,
        {
            assert(!welded@[i as int] && !quiet@[i as int]);
            let ghost here = i as int;
            i = i + 1;
            assert forall|j: int| 0 <= j < i implies !#[trigger] welded@[j] && !quiet@[j] by {
                assert(j < here || j == here);
            }
        }
        if i >= pairs.len() {
            return None;
        }
        let (x, y) = pairs[i];
        assert(pairs@[i as int].0 < count@.len());
        let (keep, gone) = if count[x as usize] >= count[y as usize] {
            (x, y)
        } else {
            (y, x)
        };
        let n = self.plate_id.len();
        let mut c: usize = 0;
        while c < n
            invariant
                c <= n,
                n == self.plate_id@.len(),
                n == s.cell.len(),
                self.plates@ == s.plates,
                forall|d: int| c <= d < n ==> #[trigger] self.plate_id@[d] == s.cell[d],
                forall|d: int|
                    0 <= d < c ==> #[trigger] self.plate_id@[d] == handed(s.cell, gone, keep)[d],
            decreases n - c,
        {
            if self.plate_id[c] == gone {
                self.plate_id.set(c, keep);
            }
            c = c + 1;
        }
        assert(self.plate_id@ =~= handed(s.cell, gone, keep));
        if welded[i] {
            let mut k: usize = 0;
            while k < edges.len()
                invariant
                    k <= edges@.len(),
                    flags@.len() == flags0.len(),
                    in_range(edges@, flags0.len() as int),
                    flags@ == sutured(flags0, edges@, (x, y), k as int),
                decreases edges@.len() - k,
            {
                let e = edges[k];
                assert(edges@[k as int].a < flags0.len());
                let key = if e.pa < e.pb {
                    (e.pa, e.pb)
                } else {
                    (e.pb, e.pa)
                };
                if key.0 == x && key.1 == y {
                    let fa: u8 = flags[e.a as usize];
                    flags.set(e.a as usize, fa | SUTURE);
                    let fb: u8 = flags[e.b as usize];
                    flags.set(e.b as usize, fb | SUTURE);
                }
                k = k + 1;
            }
        }
        assert(merges_first(welded@, quiet@, i as int));
        assert(pairs@[i as int] == (x, y));
        let m = Merger { keep, gone, welded: welded[i] };
        assert(is_merger(
            old(self)@.cell,
            old(flags)@,
            edges@,
            pairs@,
            welded@,
            quiet@,
            count@,
            i as int,
            m,
            self@.cell,
            flags@,
        ));
        Some(m)
    }

    /// Tidies the mosaic after its topology changed: large stray fragments calve,
    /// slivers rejoin a neighbour, tiny plates are folded in and empty ones dropped.
    pub fn tidy(&mut self, g: &CellGraph)
        requires
            g.wf(),
            g.symmetric(),
            old(self)@.cell.len() == g.cells(),
            old(self)@.plates.len() <= u16::MAX,
        ensures
            final(self)@ == tidied(*g, old(self)@),
    {
        let n = g.n_cells();
        let calve_min = if n / 150 > 24 {
            n / 150
        } else {
            24
        };
        let tiny = if n / 250 > 12 {
            n / 250
        } else {
            12
        };
        proof {
            crate::topology::lemma_sweeps_len(
                g,
                self@,
                calve_min as nat,
                MAX_PLATES as nat,
                MAX_SWEEPS as nat,
            );
        }
        let _ = self.enforce_contiguity(g, calve_min, MAX_PLATES);
        let _ = self.absorb_tiny_plates(g, tiny);
        let _ = self.compact_plates();
    }
}

/// Smallest fragment that calves on a planet of `n` cells.
pub open spec fn calving_size(n: int) -> nat {
    if n / 150 > 24 {
        (n / 150) as nat
    } else {
        24
    }
}

/// Plates with fewer cells than this are folded into a neighbour.
pub open spec fn sliver_size(n: int) -> nat {
    if n / 250 > 12 {
        (n / 250) as nat
    } else {
        12
    }
}

/// The mosaic after tidying.
pub open spec fn tidied(g: CellGraph, s: Sheet) -> Sheet {
    let whole = swept_times(
        g,
        s,
        calving_size(g.cells()),
        MAX_PLATES as nat,
        MAX_SWEEPS as nat,
    );
    let folded = Sheet {
        cell: if whole.plates.len() <= 2 {
            whole.cell
        } else {
            absorbed(
                g,
                whole.cell,
                whole.plates.len(),
                sliver_size(g.cells()),
                whole.plates.len() as int,
            )
        },
        ..whole
    };
    compacted(folded)
}

/// Tidying keeps a covered mosaic covered, and leaves no plate without a cell.
pub proof fn tidying_keeps_the_mosaic_covered(g: &CellGraph, s: Sheet)
    requires
        g.wf(),
        g.symmetric(),
        s.cell.len() == g.cells(),
        s.plates.len() <= u16::MAX,
        s.covered(),
        g.cells() > 0,
    ensures
        tidied(*g, s).covered(),
        crate::renumber::all_in_use(tidied(*g, s)),
{
    let calve_min = calving_size(g.cells());
    crate::topology::sweeping_keeps_the_mosaic_covered(
        g,
        s,
        calve_min,
        MAX_PLATES as nat,
        MAX_SWEEPS as nat,
    );
    let whole = swept_times(*g, s, calve_min, MAX_PLATES as nat, MAX_SWEEPS as nat);
    let np = whole.plates.len();
    let folded = Sheet {
        cell: if np <= 2 {
            whole.cell
        } else {
            absorbed(*g, whole.cell, np, sliver_size(g.cells()), np as int)
        },
        ..whole
    };
    crate::renumber::lemma_absorbed_covered(
        g,
        whole.cell,
        np,
        sliver_size(g.cells()),
        np as int,
    );
    assert(folded.covered());
    crate::renumber::compaction_keeps_the_partition(folded, 0, 0);
}

/// What thickness does between boundary events.
#[derive(Clone, Copy, Debug, PartialEq, Eq, Structural)]
pub enum Relaxation {
    /// Ocean floor flexes back to its reference thickness.
    Rebound,
    /// Thick continental crust creeps back to its resting thickness.
    Collapse,
    /// Nothing changes.
    Rest,
}

/// How a cell relaxes.
pub open spec fn relaxes(continental: bool, flags: u8, thick: bool) -> Relaxation {
    if !continental {
        if flags & SUBDUCTING == 0 {
            Relaxation::Rebound
        } else {
            Relaxation::Rest
        }
    } else if thick {
        Relaxation::Collapse
    } else {
        Relaxation::Rest
    }
}

/// How a cell relaxes. `thick` tells whether its crust is thicker than continental
/// crust at rest.
pub fn relaxation(continental: bool, flags: u8, thick: bool) -> (r: Relaxation)
    ensures
        r == relaxes(continental, flags, thick),
{
    if !continental {
        if flags & SUBDUCTING == 0 {
            Relaxation::Rebound
        } else {
            Relaxation::Rest
        }
    } else if thick {
        Relaxation::Collapse
    } else {
        Relaxation::Rest
    }
}

/// Arc crust has matured.
pub open spec fn has_matured(continental: bool, flags: u8, thick: bool) -> bool {
    !continental && flags & ARC != 0 && thick
}

/// Whether arc crust has matured into continental crust: it is oceanic, an arc stands
/// on it, and it is `thick` enough.
pub fn matures(continental: bool, flags: u8, thick: bool) -> (b: bool)
    ensures
        b == has_matured(continental, flags, thick),
{
    !continental && flags & ARC != 0 && thick
}

/// Hops that a volcanic arc reaches into the overriding plate.
pub const ARC_HOPS: u32 = 4;

/// The hop from which on an arc stands.
pub const ARC_FIRST_HOP: u32 = 2;

/// Slot `k` of cell `cur` is the one that heads on best: the first with the largest
/// key.
pub open spec fn heads_on(toward: Seq<i32>, k: int) -> bool {
    &&& 0 <= k < toward.len()
    &&& forall|j: int|
        0 <= j < toward.len() ==> #[trigger] toward[j] < toward[k] || (toward[j] == toward[k] && k
            <= j)
}

/// One hop of an arc into the overriding plate `over`. `toward` orders the neighbours
/// of `cur` by how well they head on; the arc ends where the best one belongs to
/// another plate.
pub fn arc_hop(g: &CellGraph, cell: &[u16], cur: usize, toward: &[i32], over: u16) -> (next: Option<
    u32,
>)
    requires
        g.wf(),
        cell@.len() == g.cells(),
        cur < g.cells(),
        toward@.len() == g.valence(cur as int),
    ensures
        match next {
            Some(m) => cell@[m as int] == over && exists|k: int| #[trigger]
                heads_on(toward@, k) && m == g.nb(cur as int, k),
            None => forall|k: int| #[trigger]
                heads_on(toward@, k) ==> cell@[g.nb(cur as int, k)] != over,
        },
{
    let deg = g.degree(cur);
    if deg == 0 {
        return None;
    }
    let mut best: usize = 0;
    let mut k: usize = 1;
    while k < deg
        invariant
            1 <= k <= deg,
            deg == toward@.len(),
            best < k,
            forall|j: int|
                0 <= j < k ==> #[trigger] toward@[j] < toward@[best as int] || (toward@[j]
                    == toward@[best as int] && best <= j),
        decreases deg - k,
    {
        if toward[k] > toward[best] {
            best = k;
        }
        k = k + 1;
    }
    assert(heads_on(toward@, best as int));
    let m = g.neighbor(cur, best);
    if cell[m] != over {
        assert forall|j: int| #[trigger] heads_on(toward@, j) implies cell@[g.nb(cur as int, j)]
            != over by {
            assert(toward@[j] < toward@[best as int] || (toward@[j] == toward@[best as int] && best
                <= j));
            assert(toward@[best as int] < toward@[j] || (toward@[best as int] == toward@[j] && j
                <= best));
        }
        None
    } else {
        Some(m as u32)
    }
}

/// Plumes that are due.
pub open spec fn plumes_due(have: usize, want: u32) -> u32 {
    if have > 0 {
        0
    } else {
        want
    }
}

/// How many plumes are still to be placed: all of them on a planet that has none.
pub fn plumes_to_place(have: usize, want: u32) -> (n: u32)
    ensures
        n == plumes_due(have, want),
{
    if have > 0 {
        0
    } else {
        want
    }
}

/// Continental crust has broken up.
pub open spec fn has_broken_up(continental: bool, thin: bool) -> bool {
    continental && thin
}

/// Whether continental crust breaks up into ocean floor: where it is stretched `thin`.
pub fn breaks_up(continental: bool, thin: bool) -> (b: bool)
    ensures
        b == has_broken_up(continental, thin),
{
    continental && thin
}

/// Plates are at work.
pub open spec fn are_active(phase: Phase) -> bool {
    phase != Phase::RecentPast
}

/// Whether plates speed up, rift and merge in a phase: all but the recent past.
pub fn plates_act(phase: Phase) -> (b: bool)
    ensures
        b == are_active(phase),
{
    match phase {
        Phase::RecentPast => false,
        _ => true,
    }
}

/// The mosaic may hold slivers and fragments.
pub open spec fn is_untidy(moved: bool, rifted: bool, merged: bool) -> bool {
    moved || rifted || merged
}

/// Whether the mosaic has to be tidied after a step: crust moved, a rift opened, or plates
/// merged.
pub fn must_tidy(moved: bool, rifted: bool, merged: bool) -> (b: bool)
    ensures
        b == is_untidy(moved, rifted, merged),
{
    moved || rifted || merged
}

/// Tidying folds in slivers only: where every plate is in one piece, two cells of different
/// plates that each have at least a 250th of the planet, and a dozen cells, are still on
/// different plates afterwards.
pub proof fn tidying_spares_large_plates(g: &CellGraph, s: Sheet, a: int, b: int)
    requires
        g.wf(),
        g.symmetric(),
        s.cell.len() == g.cells(),
        s.plates.len() <= u16::MAX,
        s.covered(),
        forall|c: int, d: int|
            0 <= c < g.cells() && 0 <= d < g.cells() && s.cell[c] == s.cell[d] ==> #[trigger]
                connected(*g, s.cell, c, d),
        0 <= a < g.cells(),
        0 <= b < g.cells(),
        s.cell[a] != s.cell[b],
        count_eq(s.cell, s.cell[a]) >= 12,
        count_eq(s.cell, s.cell[a]) >= g.cells() / 250,
        count_eq(s.cell, s.cell[b]) >= 12,
        count_eq(s.cell, s.cell[b]) >= g.cells() / 250,
    ensures
        tidied(*g, s).cell[a] != tidied(*g, s).cell[b],
{
    let n = g.cells();
    let np = s.plates.len();
    sweeps_leave_whole_plates_alone(g, s, calving_size(n), MAX_PLATES as nat, MAX_SWEEPS as nat);
    let folded = Sheet {
        cell: if np <= 2 {
            s.cell
        } else {
            absorbed(*g, s.cell, np, sliver_size(n), np as int)
        },
        ..s
    };
    crate::renumber::lemma_absorbed_covered(g, s.cell, np, sliver_size(n), np as int);
    crate::renumber::lemma_absorbed_keeps(g, s.cell, np, sliver_size(n), np as int, s.cell[a]);
    crate::renumber::lemma_absorbed_keeps(g, s.cell, np, sliver_size(n), np as int, s.cell[b]);
    assert(folded.covered());
    crate::renumber::compaction_keeps_the_partition(folded, a, b);
    crate::renumber::compaction_keeps_the_partition(folded, b, a);
}

/// Tidying never parts two cells that one plate holds in one piece.
pub proof fn tidying_parts_nothing(g: &CellGraph, s: Sheet, a: int, b: int)
    requires
        g.wf(),
        g.symmetric(),
        s.cell.len() == g.cells(),
        s.plates.len() <= u16::MAX,
        s.covered(),
        0 <= a < g.cells(),
        0 <= b < g.cells(),
        connected(*g, s.cell, a, b),
    ensures
        tidied(*g, s).cell[a] == tidied(*g, s).cell[b],
{
    let n = g.cells();
    let calve_min = calving_size(n);
    let (max, sweeps) = (MAX_PLATES as nat, MAX_SWEEPS as nat);
    let whole = swept_times(*g, s, calve_min, max, sweeps);
    let np = whole.plates.len();
    crate::topology::sweeping_keeps_the_mosaic_covered(g, s, calve_min, max, sweeps);
    crate::topology::sweeping_splits_nothing(g, s, calve_min, max, sweeps, a, b);
    crate::flood::lemma_connected_plate(g, whole.cell, a, b);
    let folded = Sheet {
        cell: if np <= 2 {
            whole.cell
        } else {
            absorbed(*g, whole.cell, np, sliver_size(n), np as int)
        },
        ..whole
    };
    crate::renumber::lemma_absorbed_covered(g, whole.cell, np, sliver_size(n), np as int);
    crate::renumber::lemma_absorbed_together(
        g,
        whole.cell,
        np,
        sliver_size(n),
        np as int,
        a,
        b,
    );
    assert(folded.covered());
    crate::renumber::compaction_keeps_the_partition(folded, a, b);
    crate::renumber::compaction_keeps_the_partition(folded, b, a);
}

/// What an edge does: plates that slip only slip; two continents that close collide; where any
/// side is ocean floor one side goes down, never a continent, and between two ocean floors never
/// the younger. Plates that part stretch their continents; fresh floor appears between two ocean
/// floors alone, when the draw came up, on the side that is not the younger, and only where this
/// pass has laid none yet.
pub proof fn edges_do_what_their_crust_allows(crust: CrustView, e: Edge, kind: Kind, fires: bool)
    ensures
        ({
            let (a, b) = (e.a as int, e.b as int);
            let effect = effect_of(crust, e, kind, fires);
            &&& effect is Slip <==> kind == Kind::Transform
            &&& effect is Collide <==> kind == Kind::Convergent && crust.continental[a]
                && crust.continental[b]
            &&& effect is Subduct <==> kind == Kind::Convergent && !(crust.continental[a]
                && crust.continental[b])
            &&& effect is Spread <==> kind == Kind::Divergent
            &&& effect matches Effect::Subduct { a_down } ==> {
                let (down, over) = if a_down {
                    (a, b)
                } else {
                    (b, a)
                };
                &&& !crust.continental[down]
                &&& !crust.continental[over] ==> crust.age[down] >= crust.age[over]
            }
            &&& effect matches Effect::Spread { stretch_a, stretch_b, renew } ==> {
                &&& stretch_a == crust.continental[a]
                &&& stretch_b == crust.continental[b]
                &&& renew matches Some(c) ==> {
                    &&& fires
                    &&& !crust.continental[a] && !crust.continental[b]
                    &&& c == e.a || c == e.b
                    &&& crust.age[c as int] >= crust.age[a] && crust.age[c as int] >= crust.age[b]
                    &&& !crust.renewed[c as int]
                }
                &&& renew is None && fires && !crust.continental[a] && !crust.continental[b]
                    ==> exists|c: int|
                    (c == a || c == b) && #[trigger] crust.renewed[c] && crust.age[c]
                        >= crust.age[a] && crust.age[c] >= crust.age[b]
            }
        }),
{
    let (a, b) = (e.a as int, e.b as int);
    if let Effect::Spread { renew, .. } = effect_of(crust, e, kind, fires) {
        if renew is None && fires && !crust.continental[a] && !crust.continental[b] {
            assert(crust.renewed[older_side(crust, e) as int]);
        }
    }
}

/// An edge marks its own two cells alone, takes no mark away, and leaves the mark that belongs
/// to what it did: a trench on the side that goes down and not on the other, a collision, a rift
/// or a fault on both. Nothing but fresh floor changes an age, and that to zero.
pub proof fn edges_mark_their_own_cells(crust: CrustView, e: Edge, effect: Effect, c: int)
    requires
        crust.covers(crust.flags.len() as int),
        e.a < crust.flags.len(),
        e.b < crust.flags.len(),
        e.a != e.b,
        effect matches Effect::Spread { renew: Some(r), .. } ==> r == e.a || r == e.b,
        0 <= c < crust.flags.len(),
    ensures
        ({
            let now = after_effect(crust, e, effect);
            let (a, b) = (e.a as int, e.b as int);
            &&& now.continental == crust.continental
            &&& c != a && c != b ==> now.flags[c] == crust.flags[c] && now.age[c] == crust.age[c]
                && now.renewed[c] == crust.renewed[c]
            &&& effect is Slip ==> now.flags[a] == crust.flags[a] | 32 && now.flags[b]
                == crust.flags[b] | 32
            &&& effect is Collide ==> now.flags[a] == crust.flags[a] | 4 && now.flags[b]
                == crust.flags[b] | 4
            &&& effect is Spread ==> now.flags[a] == crust.flags[a] | 8 && now.flags[b]
                == crust.flags[b] | 8
            &&& effect matches Effect::Subduct { a_down } ==> now.flags[if a_down {
                a
            } else {
                b
            }] == crust.flags[if a_down {
                a
            } else {
                b
            }] | 1 && now.flags[if a_down {
                b
            } else {
                a
            }] == crust.flags[if a_down {
                b
            } else {
                a
            }]
            &&& (match effect {
                Effect::Spread { renew: Some(r), .. } => now.age[r as int] == 0
                    && now.renewed[r as int] && (c != r ==> now.age[c] == crust.age[c]),
                _ => now.age == crust.age && now.renewed == crust.renewed,
            })
        }),
{
    let (fa, fb) = (crust.flags[e.a as int], crust.flags[e.b as int]);
    assert((fa | 8u8) | 8u8 == fa | 8u8) by (bit_vector);
    assert((fb | 8u8) | 8u8 == fb | 8u8) by (bit_vector);
}

/// Nothing that an edge marked is unmarked by a later one: at the end of the pass both cells of
/// an edge carry the mark of what it did, in an overriding pair the one that goes down.
pub proof fn marks_last_to_the_end_of_the_pass(
    crust: CrustView,
    edges: Seq<Edge>,
    kinds: Seq<Kind>,
    fires: Seq<bool>,
    i: int,
    n: int,
)
    requires
        crust.covers(crust.flags.len() as int),
        in_range(edges, crust.flags.len() as int),
        0 <= i < n <= edges.len(),
    ensures
        ({
            let end = after_edges(crust, edges, kinds, fires, n).flags;
            let (a, b) = (edges[i].a as int, edges[i].b as int);
            match effects_of(crust, edges, kinds, fires)[i] {
                Effect::Slip => end[a] & 32 != 0 && end[b] & 32 != 0,
                Effect::Collide => end[a] & 4 != 0 && end[b] & 4 != 0,
                Effect::Spread { .. } => end[a] & 8 != 0 && end[b] & 8 != 0,
                Effect::Subduct { a_down } => end[if a_down {
                    a
                } else {
                    b
                }] & 1 != 0,
            }
        }),
    decreases n,
{
    let before = after_edges(crust, edges, kinds, fires, n - 1);
    let e = edges[n - 1];
    let effect = effect_of(before, e, kinds[n - 1], fires[n - 1]);
    lemma_after_edges_covers(crust, edges, kinds, fires, crust.flags.len() as int, n - 1);
    assert(edges[i].a < crust.flags.len() && edges[n - 1].a < crust.flags.len());
    let (a, b) = (edges[i].a as int, edges[i].b as int);
    if i < n - 1 {
        marks_last_to_the_end_of_the_pass(crust, edges, kinds, fires, i, n - 1);
        lemma_marks_grow(before, e, effect, a);
        lemma_marks_grow(before, e, effect, b);
    } else {
        let x = before.flags[a];
        let y = before.flags[b];
        lemma_set_bits(x);
        lemma_set_bits(y);
        lemma_set_bits(x | 8u8);
        lemma_set_bits(y | 8u8);
        lemma_set_bits(x | 32u8);
        lemma_set_bits(x | 4u8);
    }
}

proof fn lemma_set_bits(x: u8)
    ensures
        (x | 1u8) & 1 != 0,
        (x | 4u8) & 4 != 0,
        (x | 8u8) & 8 != 0,
        (x | 32u8) & 32 != 0,
        ((x | 8u8) | 8u8) & 8 != 0,
{
    assert((x | 1u8) & 1 != 0 && (x | 4u8) & 4 != 0 && (x | 8u8) & 8 != 0 && (x | 32u8) & 32 != 0
        && ((x | 8u8) | 8u8) & 8 != 0) by (bit_vector);
}

/// An effect takes no mark away.
proof fn lemma_marks_grow(crust: CrustView, e: Edge, effect: Effect, c: int)
    requires
        crust.covers(crust.flags.len() as int),
        e.a < crust.flags.len(),
        e.b < crust.flags.len(),
        effect matches Effect::Spread { renew: Some(r), .. } ==> r < crust.flags.len(),
        0 <= c < crust.flags.len(),
    ensures
        ({
            let now = after_effect(crust, e, effect).flags[c];
            let had = crust.flags[c];
            &&& had & 1 != 0 ==> now & 1 != 0
            &&& had & 4 != 0 ==> now & 4 != 0
            &&& had & 8 != 0 ==> now & 8 != 0
            &&& had & 32 != 0 ==> now & 32 != 0
        }),
{
    let had = crust.flags[c];
    lemma_or_keeps(had, 1);
    lemma_or_keeps(had, 4);
    lemma_or_keeps(had, 8);
    lemma_or_keeps(had, 32);
    lemma_or_keeps(had | 8, 8);
    lemma_or_keeps(had | 4, 4);
    lemma_or_keeps(had | 32, 32);
    lemma_or_keeps((had | 8u8) | 8u8, 8);
}

proof fn lemma_or_keeps(x: u8, bit: u8)
    ensures
        x & 1 != 0 ==> (x | bit) & 1 != 0,
        x & 4 != 0 ==> (x | bit) & 4 != 0,
        x & 8 != 0 ==> (x | bit) & 8 != 0,
        x & 32 != 0 ==> (x | bit) & 32 != 0,
{
    assert((x & 1 != 0 ==> (x | bit) & 1 != 0) && (x & 4 != 0 ==> (x | bit) & 4 != 0) && (x & 8
        != 0 ==> (x | bit) & 8 != 0) && (x & 32 != 0 ==> (x | bit) & 32 != 0)) by (bit_vector);
}

/// Two plates become one: every cell of the plate that is gone is on the one that goes on, which
/// had at least as many, every other cell stays where it is, and no pair before this one was to
/// merge. A weld marks exactly the cells along the boundary of the two with a seam; a merger
/// without one marks nothing.
pub proof fn the_larger_plate_goes_on(
    cell: Seq<u16>,
    flags: Seq<u8>,
    edges: Seq<Edge>,
    pairs: Seq<(u16, u16)>,
    welded: Seq<bool>,
    quiet: Seq<bool>,
    count: Seq<u32>,
    i: int,
    m: Merger,
    new_cell: Seq<u16>,
    new_flags: Seq<u8>,
    c: int,
)
    requires
        is_merger(
            cell,
            flags,
            edges,
            pairs,
            welded,
            quiet,
            count,
            i,
            m,
            new_cell,
            new_flags,
        ),
        in_range(edges, flags.len() as int),
        pairs[i].0 < pairs[i].1,
        0 <= c < flags.len(),
        flags.len() == cell.len(),
    ensures
        welded[i] || quiet[i],
        forall|j: int| 0 <= j < i ==> !(#[trigger] welded[j]) && !quiet[j],
        (m.keep, m.gone) == pairs[i] || (m.gone, m.keep) == pairs[i],
        count[m.keep as int] >= count[m.gone as int],
        new_cell.len() == cell.len(),
        new_cell[c] == (if cell[c] == m.gone {
            m.keep
        } else {
            cell[c]
        }),
        new_flags.len() == flags.len(),
        new_flags[c] == (if welded[i] && exists|k: int|
            0 <= k < edges.len() && ((#[trigger] edges[k]).a == c || edges[k].b == c) && ((
            edges[k].pa == m.keep && edges[k].pb == m.gone) || (edges[k].pa == m.gone
                && edges[k].pb == m.keep)) {
            flags[c] | 64
        } else {
            flags[c]
        }),
{
    lemma_sutured(flags, edges, pairs[i], edges.len() as int, c);
    assert forall|j: int| 0 <= j < i implies !(#[trigger] welded[j]) && !quiet[j] by {
        assert(merges_first(welded, quiet, i));
        assert(!welded[j]);
    }
    let meets = exists|k: int|
        0 <= k < edges.len() && ((#[trigger] edges[k]).a == c || edges[k].b == c) && ((edges[k].pa
            == m.keep && edges[k].pb == m.gone) || (edges[k].pa == m.gone && edges[k].pb
            == m.keep));
    let seam = exists|k: int|
        0 <= k < edges.len() && pair_of(#[trigger] edges[k]) == pairs[i] && (edges[k].a == c
            || edges[k].b == c);
    if meets {
        let k = choose|k: int|
            0 <= k < edges.len() && ((#[trigger] edges[k]).a == c || edges[k].b == c) && ((
            edges[k].pa == m.keep && edges[k].pb == m.gone) || (edges[k].pa == m.gone
                && edges[k].pb == m.keep));
        assert(pair_of(edges[k]) == pairs[i]);
    }
    if seam {
        let k = choose|k: int|
            0 <= k < edges.len() && pair_of(#[trigger] edges[k]) == pairs[i] && (edges[k].a == c
                || edges[k].b == c);
        assert(edges[k].a == c || edges[k].b == c);
    }
}

proof fn lemma_sutured(flags: Seq<u8>, edges: Seq<Edge>, pair: (u16, u16), n: int, c: int)
    requires
        in_range(edges, flags.len() as int),
        0 <= n <= edges.len(),
        0 <= c < flags.len(),
    ensures
        sutured(flags, edges, pair, n).len() == flags.len(),
        sutured(flags, edges, pair, n)[c] == (if exists|k: int|
            0 <= k < n && pair_of(#[trigger] edges[k]) == pair && (edges[k].a == c || edges[k].b
                == c) {
            flags[c] | 64
        } else {
            flags[c]
        }),
    decreases n,
{
    if n > 0 {
        lemma_sutured(flags, edges, pair, n - 1, c);
        let e = edges[n - 1];
        assert(edges[n - 1].a < flags.len());
        let x = flags[c];
        assert((x | 64u8) | 64u8 == x | 64u8) by (bit_vector);
        let was = exists|k: int|
            0 <= k < n - 1 && pair_of(#[trigger] edges[k]) == pair && (edges[k].a == c || edges[k].b
                == c);
        let is = exists|k: int|
            0 <= k < n && pair_of(#[trigger] edges[k]) == pair && (edges[k].a == c || edges[k].b
                == c);
        if was {
            let k = choose|k: int|
                0 <= k < n - 1 && pair_of(#[trigger] edges[k]) == pair && (edges[k].a == c
                    || edges[k].b == c);
            assert(pair_of(edges[k]) == pair);
        }
        if pair_of(e) == pair && (e.a == c || e.b == c) {
            assert(pair_of(edges[n - 1]) == pair);
        }
        if is && !was {
            let k = choose|k: int|
                0 <= k < n && pair_of(#[trigger] edges[k]) == pair && (edges[k].a == c
                    || edges[k].b == c);
            assert(k == n - 1);
        }
    }
}

/// The pairs of plates that share a boundary are those that some edge parts, whichever side of
/// the edge they are on, each pair once, by rising numbers, and no plate with itself.
pub proof fn every_shared_boundary_is_a_pair(edges: Seq<Edge>, pairs: Seq<(u16, u16)>)
    requires
        are_pairs(edges, edges.len() as int, pairs),
        forall|i: int| 0 <= i < edges.len() ==> (#[trigger] edges[i]).pa != edges[i].pb,
    ensures
        forall|i: int|
            0 <= i < edges.len() ==> pairs.contains(((#[trigger] edges[i]).pa, edges[i].pb))
                || pairs.contains((edges[i].pb, edges[i].pa)),
        forall|j: int|
            0 <= j < pairs.len() ==> (#[trigger] pairs[j]).0 < pairs[j].1 && exists|i: int|
                0 <= i < edges.len() && ((#[trigger] edges[i]).pa == pairs[j].0 && edges[i].pb
                    == pairs[j].1 || edges[i].pa == pairs[j].1 && edges[i].pb == pairs[j].0),
        pairs.no_duplicates(),
        forall|i: int, j: int|
            0 <= i < j < pairs.len() ==> (#[trigger] pairs[i]).0 <= (#[trigger] pairs[j]).0 && (
            pairs[i].0 == pairs[j].0 ==> pairs[i].1 < pairs[j].1),
{
    assert forall|i: int| 0 <= i < edges.len() implies pairs.contains(
        ((#[trigger] edges[i]).pa, edges[i].pb),
    ) || pairs.contains((edges[i].pb, edges[i].pa)) by {
        assert(pairs.contains(pair_of(edges[i])));
    }
    assert forall|j: int| 0 <= j < pairs.len() implies (#[trigger] pairs[j]).0 < pairs[j].1
        && exists|i: int|
        0 <= i < edges.len() && ((#[trigger] edges[i]).pa == pairs[j].0 && edges[i].pb
            == pairs[j].1 || edges[i].pa == pairs[j].1 && edges[i].pb == pairs[j].0) by {
        let i = choose|i: int| 0 <= i < edges.len() && pair_of(#[trigger] edges[i]) == pairs[j];
        assert(edges[i].pa != edges[i].pb);
    }
    assert forall|i: int, j: int| 0 <= i < pairs.len() && 0 <= j < pairs.len() && i
        != j implies pairs[i] != pairs[j] by {
        if i < j {
            assert(pair_before(pairs[i], pairs[j]));
        } else {
            assert(pair_before(pairs[j], pairs[i]));
        }
    }
}

/// What crust does by itself: ocean floor flexes back unless it goes down, continental crust
/// creeps only where it is too thick; only thick ocean floor under an arc becomes continental,
/// only thin continental crust becomes ocean floor, so that no cell does both.
pub proof fn crust_changes_kind_for_a_reason(continental: bool, flags: u8, thick: bool, thin: bool)
    ensures
        relaxes(continental, flags, thick) == Relaxation::Rebound <==> !continental && flags & 1
            == 0,
        relaxes(continental, flags, thick) == Relaxation::Collapse <==> continental && thick,
        has_matured(continental, flags, thick) <==> !continental && thick && flags & 2 != 0,
        has_broken_up(continental, thin) <==> continental && thin,
        !(has_matured(continental, flags, thick) && has_broken_up(continental, thin)),
{
}

/// What counts as large after a step, on a planet of `n` cells: a fragment calves from a 150th
/// of the planet and two dozen cells on, whichever is more, and a plate stays from a 250th and a
/// dozen on. A fragment that calves is never a sliver.
pub proof fn sizes_scale_with_the_planet(n: int)
    requires
        n >= 0,
    ensures
        calving_size(n) >= 24,
        calving_size(n) >= n / 150,
        calving_size(n) == 24 || calving_size(n) == n / 150,
        sliver_size(n) >= 12,
        sliver_size(n) >= n / 250,
        sliver_size(n) == 12 || sliver_size(n) == n / 250,
        sliver_size(n) <= calving_size(n),
{
}

/// Tidying leaves no sliver: on a planet in one piece every plate has, afterwards, at least a
/// 250th of the planet and a dozen cells, unless no more than two plates are left.
pub proof fn tidying_leaves_no_sliver(g: &CellGraph, s: Sheet, a: int)
    requires
        g.wf(),
        g.symmetric(),
        whole(*g),
        s.cell.len() == g.cells(),
        s.plates.len() <= u16::MAX,
        s.covered(),
        0 <= a < g.cells(),
        tidied(*g, s).plates.len() > 2,
    ensures
        count_eq(tidied(*g, s).cell, tidied(*g, s).cell[a]) >= 12,
        count_eq(tidied(*g, s).cell, tidied(*g, s).cell[a]) >= g.cells() / 250,
{
    let n = g.cells();
    let calve_min = calving_size(n);
    let (max, sweeps) = (MAX_PLATES as nat, MAX_SWEEPS as nat);
    let swept = swept_times(*g, s, calve_min, max, sweeps);
    let np = swept.plates.len();
    crate::topology::sweeping_keeps_the_mosaic_covered(g, s, calve_min, max, sweeps);
    let folded = Sheet {
        cell: if np <= 2 {
            swept.cell
        } else {
            absorbed(*g, swept.cell, np, sliver_size(n), np as int)
        },
        ..swept
    };
    crate::renumber::lemma_absorbed_covered(g, swept.cell, np, sliver_size(n), np as int);
    assert(folded.covered());
    crate::renumber::compaction_keeps_every_plate(folded, a);
    crate::renumber::compaction_keeps_the_partition(folded, a, a);
    let t = tidied(*g, s);
    if np <= 2 {
        crate::renumber::lemma_kept_len(folded, np as int);
        crate::renumber::lemma_rank_bound(folded.cell, np as int);
    } else {
        crate::renumber::lemma_no_sliver_left(g, swept.cell, np, sliver_size(n), np as int);
        let q = folded.cell[a];
        assert(folded.cell[a] < np);
        crate::flood::lemma_count_positive(folded.cell, q, a);
        assert(count_eq(folded.cell, q) > 0);
        if forall|c: int| 0 <= c < folded.cell.len() ==> folded.cell[c] == q {
            assert(crate::renumber::in_use(t.cell, 0) && crate::renumber::in_use(t.cell, 1));
            let c = choose|c: int| 0 <= c < t.cell.len() && #[trigger] t.cell[c] == 0;
            let d = choose|d: int| 0 <= d < t.cell.len() && #[trigger] t.cell[d] == 1;
            crate::renumber::compaction_keeps_the_partition(folded, c, d);
        }
    }
}

/// Large fragments calve: where every fragment of every plate has at least a 150th of the planet
/// and two dozen cells, and there is room for as many plates, tidying gives each fragment a plate
/// of its own: two cells are on one plate afterwards exactly where they were in one piece.
pub proof fn tidying_lets_large_fragments_calve(g: &CellGraph, s: Sheet, a: int, b: int)
    requires
        g.wf(),
        g.symmetric(),
        s.cell.len() == g.cells(),
        s.covered(),
        s.plates.len() + n_components(*g, s.cell) <= 64,
        forall|c: int|
            0 <= c < g.cells() ==> {
                let k = #[trigger] component_labels(*g, s.cell)[c];
                &&& count_eq(component_labels(*g, s.cell), k) >= 24
                &&& count_eq(component_labels(*g, s.cell), k) >= g.cells() / 150
            },
        0 <= a < g.cells(),
        0 <= b < g.cells(),
    ensures
        tidied(*g, s).cell[a] == tidied(*g, s).cell[b] <==> connected(*g, s.cell, a, b),
{
    let n = g.cells();
    let calve_min = calving_size(n);
    let (max, sweeps) = (MAX_PLATES as nat, MAX_SWEEPS as nat);
    let labels = component_labels(*g, s.cell);
    crate::topology::lemma_component_tables(g, s.cell);
    assert forall|k: int| 0 <= k < n_components(*g, s.cell) implies #[trigger] component_sizes(
        *g,
        s.cell,
    )[k] >= calve_min by {
        assert(component_sizes(*g, s.cell)[k] > 0);
        let c = choose|c: int| 0 <= c < s.cell.len() && #[trigger] labels[c] == k as u32;
        assert(labels[c] == k as u32);
    }
    let t = crate::topology::swept(*g, s, calve_min, max);
    crate::topology::sweeping_keeps_the_mosaic_covered(g, s, calve_min, max, 1);
    reveal_with_fuel(swept_times, 2);
    assert(swept_times(*g, s, calve_min, max, 1) == t);
    assert forall|c: int, d: int|
        0 <= c < g.cells() && 0 <= d < g.cells() && t.cell[c] == t.cell[d] implies #[trigger]
        connected(*g, t.cell, c, d) by {
        large_fragments_become_plates(g, s, calve_min, max, c, d);
        crate::topology::sweeping_splits_nothing(g, s, calve_min, max, 1, c, d);
    }
    sweeps_leave_whole_plates_alone(g, t, calve_min, max, (sweeps - 1) as nat);
    sweeps_leave_whole_plates_alone(g, t, calve_min, max, sweeps);
    assert(swept_times(*g, s, calve_min, max, sweeps) == t);
    assert(tidied(*g, s) == tidied(*g, t));
    large_fragments_become_plates(g, s, calve_min, max, a, b);
    assert forall|c: int| 0 <= c < g.cells() implies count_eq(t.cell, #[trigger] t.cell[c])
        == count_eq(labels, labels[c]) by {
        assert forall|d: int| 0 <= d < t.cell.len() implies (#[trigger] t.cell[d] == t.cell[c]
            <==> labels[d] == labels[c]) by {
            large_fragments_become_plates(g, s, calve_min, max, d, c);
            crate::flood::labels_are_components(g, s.cell, d, c);
        }
        crate::flood::lemma_count_renamed(t.cell, labels, t.cell[c], labels[c]);
    }
    assert(count_eq(t.cell, t.cell[a]) == count_eq(labels, labels[a]));
    assert(count_eq(t.cell, t.cell[b]) == count_eq(labels, labels[b]));
    if connected(*g, s.cell, a, b) {
        assert(connected(*g, t.cell, a, b));
        tidying_parts_nothing(g, t, a, b);
    } else {
        tidying_spares_large_plates(g, t, a, b);
    }
}

/// An arc heads for one neighbour: none heads on better, of equal ones the first is taken, and
/// where there is a neighbour at all there is one to head for.
pub proof fn arcs_head_one_way(toward: Seq<i32>, k: int, j: int)
    requires
        0 <= k < toward.len(),
        0 <= j < toward.len(),
    ensures
        heads_on(toward, k) ==> toward[j] <= toward[k],
        heads_on(toward, k) && toward[j] == toward[k] ==> k <= j,
        heads_on(toward, k) && heads_on(toward, j) ==> k == j,
        exists|i: int| #[trigger] heads_on(toward, i),
{
    if heads_on(toward, k) {
        assert(toward[j] < toward[k] || (toward[j] == toward[k] && k <= j));
    }
    if heads_on(toward, j) {
        assert(toward[k] < toward[j] || (toward[k] == toward[j] && j <= k));
    }
    lemma_some_heads_on(toward, toward.len() as int);
}

proof fn lemma_some_heads_on(toward: Seq<i32>, n: int)
    requires
        1 <= n <= toward.len(),
    ensures
        exists|i: int| #[trigger] heads_on(toward.take(n), i),
        n == toward.len() ==> exists|i: int| #[trigger] heads_on(toward, i),
    decreases n,
{
    let t = toward.take(n);
    if n == 1 {
        assert(heads_on(t, 0));
    } else {
        lemma_some_heads_on(toward, n - 1);
        let was = toward.take(n - 1);
        let b = choose|b: int| #[trigger] heads_on(was, b);
        assert forall|j: int| 0 <= j < n - 1 implies #[trigger] t[j] < was[b] || (t[j] == was[b] && b
            <= j) by {
            assert(t[j] == was[j]);
        }
        assert(t[b] == was[b]);
        if t[n - 1] > was[b] {
            assert(heads_on(t, n - 1));
        } else {
            assert(heads_on(t, b));
        }
    }
    if n == toward.len() {
        assert(t =~= toward);
    }
}

/// Plates come to rest in the last era, and are at work in every era before it; a mosaic is left
/// as it is only where nothing moved, rifted or merged; and plumes are placed once.
pub proof fn plates_rest_last(phase: Phase, moved: bool, rifted: bool, merged: bool, want: u32)
    ensures
        are_active(phase) <==> index_of(phase) < 3,
        !is_untidy(moved, rifted, merged) <==> !moved && !rifted && !merged,
        plumes_due(0, want) == want,
        forall|have: usize| have > 0 ==> #[trigger] plumes_due(have, want) == 0,
{
}

} // verus!
