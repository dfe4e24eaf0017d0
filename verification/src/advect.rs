//! Moving the crust: who claims a destination cell once the plates have turned, what
//! lands on it, and the fields that follow.
//!
//! Cells nobody claims are sea-floor spreading; cells claimed by several plates are
//! convergence, resolved by subduction polarity or continental collision.

use vstd::prelude::*;
use crate::claims::{claims_new, claims_push, Claims};

verus! {

/// Bit pattern of the density of fresh ocean floor, 3000 kg/m3.
pub const OCEANIC_DENSITY_BITS: u32 = 0x453b_8000;

/// `list` with `p` at its end, unless it is there already.
pub open spec fn with(list: Seq<u16>, p: u16) -> Seq<u16> {
    if list.contains(p) {
        list
    } else {
        list.push(p)
    }
}

/// The plates of the first `i` cells, each once, in the order they first come.
pub open spec fn plates_among(cells: Seq<u32>, plate: Seq<u16>, i: int) -> Seq<u16>
    decreases i,
{
    if i <= 0 {
        Seq::empty()
    } else {
        with(plates_among(cells, plate, i - 1), plate[cells[i - 1] as int])
    }
}

/// Appends `p` unless it is there already.
fn add_once(list: &mut Vec<u16>, p: u16)
    ensures
        final(list)@ == with(old(list)@, p),
{
    let mut i: usize = 0;
    while i < list.len()
        invariant
            i <= list@.len(),
            list@ == old(list)@,
            forall|j: int| 0 <= j < i ==> list@[j] != p,
        decreases list@.len() - i,
    {
        if list[i] == p {
            assert(list@[i as int] == p);
            return;
        }
        i = i + 1;
    }
    list.push(p);
}

/// The plates present in a chunk of cells.
pub fn chunk_plates(cells: &[u32], plate: &[u16]) -> (set: Vec<u16>)
    requires
        forall|i: int| 0 <= i < cells@.len() ==> (#[trigger] cells@[i]) < plate@.len(),
    ensures
        set@ == plates_among(cells@, plate@, cells@.len() as int),
{
    let mut set: Vec<u16> = Vec::new();
    let mut i: usize = 0;
    while i < cells.len()
        invariant
            i <= cells@.len(),
            forall|j: int| 0 <= j < cells@.len() ==> (#[trigger] cells@[j]) < plate@.len(),
            set@ == plates_among(cells@, plate@, i as int),
        decreases cells@.len() - i,
    {
        add_once(&mut set, plate[cells[i] as usize]);
        i = i + 1;
    }
    set
}

/// `list` with those of the first `k` plates of `chunk` that are among the `np` plates.
pub open spec fn with_chunk(list: Seq<u16>, chunk: Seq<u16>, np: nat, k: int) -> Seq<u16>
    decreases k,
{
    if k <= 0 {
        list
    } else {
        let before = with_chunk(list, chunk, np, k - 1);
        if chunk[k - 1] < np {
            with(before, chunk[k - 1])
        } else {
            before
        }
    }
}

/// The plates that could reach a cell from the first `i` chunks.
pub open spec fn candidates_upto(
    chunks: Seq<Seq<u16>>,
    near: Seq<bool>,
    np: nat,
    i: int,
) -> Seq<u16>
    decreases i,
{
    if i <= 0 {
        Seq::empty()
    } else {
        let before = candidates_upto(chunks, near, np, i - 1);
        if near[i - 1] {
            with_chunk(before, chunks[i - 1], np, chunks[i - 1].len() as int)
        } else {
            before
        }
    }
}

/// The contents of a list of lists.
pub open spec fn contents(lists: Seq<Vec<u16>>) -> Seq<Seq<u16>> {
    Seq::new(lists.len(), |i: int| lists[i]@)
}

/// The plates that could reach a cell: those of every chunk that is `near` enough,
/// each once, in the order they first come.
pub fn candidates(chunks: &[Vec<u16>], near: &[bool], np: usize) -> (cands: Vec<u16>)
    requires
        near@.len() == chunks@.len(),
    ensures
        cands@ == candidates_upto(contents(chunks@), near@, np as nat, chunks@.len() as int),
{
    let mut cands: Vec<u16> = Vec::new();
    let mut i: usize = 0;
    while i < chunks.len()
        invariant
            i <= chunks@.len(),
            near@.len() == chunks@.len(),
            cands@ == candidates_upto(contents(chunks@), near@, np as nat, i as int),
        decreases chunks@.len() - i,
    {
        if near[i] {
            let chunk = &chunks[i];
            let ghost before = cands@;
            let mut k: usize = 0;
            while k < chunk.len()
                invariant
                    k <= chunk@.len(),
                    cands@ == with_chunk(before, chunk@, np as nat, k as int),
                decreases chunk@.len() - k,
            {
                if (chunk[k] as usize) < np {
                    add_once(&mut cands, chunk[k]);
                }
                k = k + 1;
            }
        }
        i = i + 1;
    }
    cands
}

/// The claims of the first `i` candidates: a plate claims the cell when the source it
/// would pull from is its own.
pub open spec fn pulled(cands: Seq<u16>, src: Seq<u32>, plate: Seq<u16>, i: int) -> Seq<(u16, u32)>
    decreases i,
{
    if i <= 0 {
        Seq::empty()
    } else {
        let before = pulled(cands, src, plate, i - 1);
        if plate[src[i - 1] as int] == cands[i - 1] {
            before.push((cands[i - 1], src[i - 1]))
        } else {
            before
        }
    }
}

/// The claims on one cell. `src` gives, for each candidate plate, the cell that it
/// would pull from.
pub fn pull_claims(cands: &[u16], src: &[u32], plate: &[u16]) -> (claims: Claims)
    requires
        src@.len() == cands@.len(),
        forall|i: int| 0 <= i < src@.len() ==> (#[trigger] src@[i]) < plate@.len(),
    ensures
        claims@ == pulled(cands@, src@, plate@, cands@.len() as int),
{
    let mut claims = claims_new();
    let mut i: usize = 0;
    assert(claims@ =~= Seq::<(u16, u32)>::empty());
    while i < cands.len()
        invariant
            i <= cands@.len(),
            src@.len() == cands@.len(),
            forall|j: int| 0 <= j < src@.len() ==> (#[trigger] src@[j]) < plate@.len(),
            claims@ == pulled(cands@, src@, plate@, i as int),
        decreases cands@.len() - i,
    {
        if plate[src[i] as usize] == cands[i] {
            claims_push(&mut claims, (cands[i], src[i]));
        }
        i = i + 1;
    }
    claims
}

/// The contents of the claim lists.
pub open spec fn lists_of(claims: Seq<Claims>) -> Seq<Seq<(u16, u32)>> {
    Seq::new(claims.len(), |d: int| claims[d]@)
}

/// The claim lists after each of the first `c` cells has also been pushed to its
/// forward image, unless that claim is there already.
pub open spec fn pushed(
    lists: Seq<Seq<(u16, u32)>>,
    dst: Seq<u32>,
    plate: Seq<u16>,
    c: int,
) -> Seq<Seq<(u16, u32)>>
    decreases c,
{
    if c <= 0 {
        lists
    } else {
        let before = pushed(lists, dst, plate, c - 1);
        let d = dst[c - 1] as int;
        let claim = (plate[c - 1], (c - 1) as u32);
        if before[d].contains(claim) {
            before
        } else {
            before.update(d, before[d].push(claim))
        }
    }
}

/// Pushes every cell's content to its forward image, so that it lands somewhere even
/// where no pull asked for it.
pub fn push_claims(claims: &mut Vec<Claims>, dst: &[u32], plate: &[u16])
    requires
        dst@.len() == plate@.len(),
        plate@.len() <= u32::MAX,
        forall|c: int| 0 <= c < dst@.len() ==> (#[trigger] dst@[c]) < old(claims)@.len(),
    ensures
        lists_of(final(claims)@) == pushed(
            lists_of(old(claims)@),
            dst@,
            plate@,
            plate@.len() as int,
        ),
{
    let ghost lists0 = lists_of(claims@);
    let n = claims.len();
    let mut c: usize = 0;
    while c < plate.len()
        invariant
            c <= plate@.len(),
            n == claims@.len(),
            dst@.len() == plate@.len(),
            plate@.len() <= u32::MAX,
            forall|j: int| 0 <= j < dst@.len() ==> (#[trigger] dst@[j]) < n,
            lists_of(claims@) == pushed(lists0, dst@, plate@, c as int),
        decreases plate@.len() - c,
    {
        let d = dst[c] as usize;
        let claim = (plate[c], c as u32);
        let ghost before = claims@;
        let list = claims[d].as_slice();
        let mut found = false;
        let mut i: usize = 0;
        while i < list.len() && !found
            invariant
                i <= list@.len(),
                found ==> list@.contains(claim),
                !found ==> forall|j: int| 0 <= j < i ==> list@[j] != claim,
            decreases list@.len() - i,
        {
            if list[i].0 == claim.0 && list[i].1 == claim.1 {
                assert(list@[i as int] == claim);
                found = true;
            }
            i = i + 1;
        }
        assert(list@ == lists_of(before)[d as int]);
        if !found {
            claims_push(&mut claims[d], claim);
            assert(lists_of(claims@) =~= lists_of(before).update(
                d as int,
                lists_of(before)[d as int].push(claim),
            ));
        }
        c = c + 1;
    }
}

/// What lands on a destination cell.
pub enum Decision {
    /// Every field is pulled from `src`, a cell of `plate`.
    Keep { plate: u16, src: u32 },
    /// A gap: fresh ridge crust of `plate`.
    Fresh { plate: u16 },
    /// An overlap: `src` wins, and the crust of `losers` ends here.
    Converge { plate: u16, src: u32, losers: Vec<u32>, collision: bool },
}

/// What decides between overlapping claims.
pub struct Ranks {
    /// Whether a cell's crust is continental.
    pub continental: Vec<bool>,
    /// What orders crust of one type: thickness for continental crust, youth for
    /// oceanic.
    pub strength: Vec<i32>,
}

/// Source `s` is the one that plate `p` sends here: the best aligned of its claims,
/// the lowest cell where several tie.
pub open spec fn is_best_source(list: Seq<(u16, u32)>, align: Seq<i64>, p: u16, s: u32) -> bool {
    exists|i: int|
        0 <= i < list.len() && #[trigger] list[i] == (p, s) && forall|j: int|
            0 <= j < list.len() && (#[trigger] list[j]).0 == p ==> align[j] < align[i] || (align[j]
                == align[i] && s <= list[j].1)
}

/// The plates of the first `i` claims, each once, in the order they first come.
pub open spec fn claimants(list: Seq<(u16, u32)>, i: int) -> Seq<u16>
    decreases i,
{
    if i <= 0 {
        Seq::empty()
    } else {
        with(claimants(list, i - 1), list[i - 1].0)
    }
}

/// `sides` is one claim for each claimant: its best source.
pub open spec fn are_sides(
    list: Seq<(u16, u32)>,
    align: Seq<i64>,
    sides: Seq<(u16, u32)>,
) -> bool {
    let plates = claimants(list, list.len() as int);
    &&& sides.len() == plates.len()
    &&& forall|i: int|
        0 <= i < sides.len() ==> (#[trigger] sides[i]).0 == plates[i] && is_best_source(
            list,
            align,
            sides[i].0,
            sides[i].1,
        )
}

/// Side `a` beats side `b`: continental crust beats oceanic, then the stronger, then
/// the lower plate id.
pub open spec fn beats(
    continental: Seq<bool>,
    strength: Seq<i32>,
    a: (u16, u32),
    b: (u16, u32),
) -> bool {
    let ca = continental[a.1 as int];
    let cb = continental[b.1 as int];
    let ka = strength[a.1 as int];
    let kb = strength[b.1 as int];
    if ca != cb {
        ca
    } else if ka != kb {
        ka > kb
    } else {
        a.0 < b.0
    }
}

/// The sources of the first `i` sides other than side `w`, in order.
pub open spec fn losers_of(sides: Seq<(u16, u32)>, w: int, i: int) -> Seq<u32>
    decreases i,
{
    if i <= 0 {
        Seq::empty()
    } else if i - 1 == w {
        losers_of(sides, w, i - 1)
    } else {
        losers_of(sides, w, i - 1).push(sides[i - 1].1)
    }
}

/// `d` is what lands on a cell of `owner` with these claims.
pub open spec fn decides(
    owner: u16,
    list: Seq<(u16, u32)>,
    align: Seq<i64>,
    continental: Seq<bool>,
    strength: Seq<i32>,
    d: Decision,
) -> bool {
    match d {
        Decision::Fresh { plate } => list.len() == 0 && plate == owner,
        Decision::Keep { plate, src } => {
            &&& claimants(list, list.len() as int) == seq![plate]
            &&& is_best_source(list, align, plate, src)
        },
        Decision::Converge { plate, src, losers, collision } => {
            &&& claimants(list, list.len() as int).len() >= 2
            &&& exists|sides: Seq<(u16, u32)>, w: int| #[trigger]
                is_overlap(
                    list,
                    align,
                    continental,
                    strength,
                    sides,
                    w,
                    plate,
                    src,
                    losers@,
                    collision,
                )
        },
    }
}

/// Side `w` beats all others; the others lose, and it is a collision when one of them
/// is continental like the winner.
pub open spec fn is_overlap(
    list: Seq<(u16, u32)>,
    align: Seq<i64>,
    continental: Seq<bool>,
    strength: Seq<i32>,
    sides: Seq<(u16, u32)>,
    w: int,
    plate: u16,
    src: u32,
    losers: Seq<u32>,
    collision: bool,
) -> bool {
    &&& are_sides(list, align, sides)
    &&& 0 <= w < sides.len()
    &&& sides[w] == (plate, src)
    &&& forall|i: int|
        0 <= i < sides.len() && i != w ==> beats(
            continental,
            strength,
            sides[w],
            #[trigger] sides[i],
        )
    &&& losers == losers_of(sides, w, sides.len() as int)
    &&& collision == exists|i: int|
        0 <= i < losers.len() && continental[#[trigger] losers[i] as int]
            && continental[src as int]
}

proof fn lemma_claimants(list: Seq<(u16, u32)>, i: int)
    requires
        0 <= i <= list.len(),
    ensures
        claimants(list, i).no_duplicates(),
        claimants(list, i).len() <= i,
        i > 0 ==> claimants(list, i).len() > 0,
        forall|p: u16|
            #[trigger] claimants(list, i).contains(p) <==> exists|j: int|
                0 <= j < i && (#[trigger] list[j]).0 == p,
    decreases i,
{
    if i > 0 {
        lemma_claimants(list, i - 1);
        let c0 = claimants(list, i - 1);
        let c = claimants(list, i);
        let q = list[i - 1].0;
        assert forall|p: u16| #[trigger] c.contains(p) <==> exists|j: int|
            0 <= j < i && (#[trigger] list[j]).0 == p by {
            if c.contains(p) {
                if p == q {
                    assert(list[i - 1].0 == p);
                } else {
                    let k = choose|k: int| 0 <= k < c.len() && c[k] == p;
                    assert(c0[k] == p);
                    assert(c0.contains(p));
                    let j = choose|j: int| 0 <= j < i - 1 && (#[trigger] list[j]).0 == p;
                    assert(list[j].0 == p);
                }
            }
            if exists|j: int| 0 <= j < i && (#[trigger] list[j]).0 == p {
                let j = choose|j: int| 0 <= j < i && (#[trigger] list[j]).0 == p;
                if j < i - 1 {
                    assert(c0.contains(p));
                    let k = choose|k: int| 0 <= k < c0.len() && c0[k] == p;
                    assert(c[k] == p);
                } else if !c0.contains(q) {
                    assert(c[c.len() - 1] == p);
                }
            }
        }
    }
}

/// Two or more claims on one cell, reduced to one per plate: the best aligned source,
/// ties by the lowest cell. Duplicates of one plate come of the grid, not of motion.
fn best_sources(list: &[(u16, u32)], align: &[i64]) -> (sides: Vec<(u16, u32)>)
    requires
        align@.len() == list@.len(),
    ensures
        are_sides(list@, align@, sides@),
{
    let mut sides: Vec<(u16, u32)> = Vec::new();
    let mut at: Vec<usize> = Vec::new();
    let mut i: usize = 0;
    while i < list.len()
        invariant
            i <= list@.len(),
            align@.len() == list@.len(),
            sides@.len() == claimants(list@, i as int).len(),
            at@.len() == sides@.len(),
            forall|k: int|
                0 <= k < sides@.len() ==> (#[trigger] sides@[k]).0 == claimants(
                    list@,
                    i as int,
                )[k] && at@[k] < i && list@[at@[k] as int] == sides@[k],
            forall|k: int, j: int|
                0 <= k < sides@.len() && 0 <= j < i && (#[trigger] list@[j]).0 == (
                #[trigger] sides@[k]).0 ==> align@[j] < align@[at@[k] as int] || (align@[j]
                    == align@[at@[k] as int] && sides@[k].1 <= list@[j].1),
        decreases list@.len() - i,
    {
        let p = list[i].0;
        let s = list[i].1;
        let ghost sides0 = sides@;
        let ghost at0 = at@;
        let ghost plates0 = claimants(list@, i as int);
        proof {
            lemma_claimants(list@, i as int);
        }
        let mut k: usize = 0;
        while k < sides.len() && sides[k].0 != p
            invariant
                k <= sides@.len(),
                sides@ == sides0,
                forall|j: int| 0 <= j < k ==> (#[trigger] sides@[j]).0 != p,
            decreases sides@.len() - k,
        {
            k = k + 1;
        }
        if k < sides.len() {
            assert(sides@[k as int].0 == plates0[k as int]);
            assert(plates0.contains(p));
            let b = at[k];
            assert(at@[k as int] < i);
            if align[i] > align[b] || (align[i] == align[b] && s < sides[k].1) {
                sides.set(k, (p, s));
                at.set(k, i);
            }
            proof {
                assert forall|q: int, j: int|
                    0 <= q < sides@.len() && 0 <= j < i + 1 && (#[trigger] list@[j]).0 == (
                    #[trigger] sides@[q]).0 implies align@[j] < align@[at@[q] as int] || (align@[j]
                    == align@[at@[q] as int] && sides@[q].1 <= list@[j].1) by {
                    assert(sides0[q].0 == plates0[q]);
                    if q != k {
                        assert(sides@[q] == sides0[q]);
                        if j == i {
                            assert(plates0[q] == plates0[k as int]);
                            assert(sides0[k as int].0 == plates0[k as int]);
                        }
                    } else {
                        assert(sides0[q].0 == p);
                        if j < i {
                            assert(list@[j].0 == sides0[q].0);
                        }
                    }
                }
                assert forall|q: int| 0 <= q < sides@.len() implies (#[trigger] sides@[q]).0
                    == claimants(list@, i + 1)[q] && at@[q] < i + 1 && list@[at@[q] as int]
                    == sides@[q] by {
                    assert(sides0[q].0 == plates0[q]);
                }
            }
        } else {
            proof {
                if plates0.contains(p) {
                    let q = choose|q: int| 0 <= q < plates0.len() && plates0[q] == p;
                    assert(sides@[q].0 == plates0[q]);
                }
            }
            sides.push((p, s));
            at.push(i);
            proof {
                assert forall|q: int, j: int|
                    0 <= q < sides@.len() && 0 <= j < i + 1 && (#[trigger] list@[j]).0 == (
                    #[trigger] sides@[q]).0 implies align@[j] < align@[at@[q] as int] || (align@[j]
                    == align@[at@[q] as int] && sides@[q].1 <= list@[j].1) by {
                    if q < sides0.len() {
                        assert(sides@[q] == sides0[q]);
                        assert(sides0[q].0 == plates0[q]);
                        if j == i {
                            assert(plates0.contains(p));
                        }
                    } else if j < i {
                        assert(plates0.contains(list@[j].0));
                    }
                }
                assert forall|q: int| 0 <= q < sides@.len() implies (#[trigger] sides@[q]).0
                    == claimants(list@, i + 1)[q] && at@[q] < i + 1 && list@[at@[q] as int]
                    == sides@[q] by {
                    if q < sides0.len() {
                        assert(sides0[q].0 == plates0[q]);
                        assert(sides@[q] == sides0[q]);
                        assert(at@[q] == at0[q]);
                    }
                }
            }
        }
        i = i + 1;
    }
    proof {
        assert forall|k: int| 0 <= k < sides@.len() implies (#[trigger] sides@[k]).0 == claimants(
            list@,
            list@.len() as int,
        )[k] && is_best_source(list@, align@, sides@[k].0, sides@[k].1) by {
            let b = at@[k] as int;
            assert(list@[b] == (sides@[k].0, sides@[k].1));
            assert forall|j: int|
                0 <= j < list@.len() && (#[trigger] list@[j]).0 == sides@[k].0 implies align@[j]
                < align@[b] || (align@[j] == align@[b] && sides@[k].1 <= list@[j].1) by {}
        }
    }
    sides
}

impl Ranks {
    /// Both fields cover the same cells.
    pub open spec fn wf(&self) -> bool {
        self.continental@.len() == self.strength@.len()
    }

    /// Whether side `a` beats side `b`.
    fn wins(&self, a: (u16, u32), b: (u16, u32)) -> (w: bool)
        requires
            self.wf(),
            a.1 < self.continental@.len(),
            b.1 < self.continental@.len(),
        ensures
            w == beats(self.continental@, self.strength@, a, b),
    {
        let ca = self.continental[a.1 as usize];
        let cb = self.continental[b.1 as usize];
        let ka = self.strength[a.1 as usize];
        let kb = self.strength[b.1 as usize];
        if ca != cb {
            ca
        } else if ka != kb {
            ka > kb
        } else {
            a.0 < b.0
        }
    }

    /// Decides what lands on a cell of plate `owner`. `align` orders each claim by how
    /// close its source lies to where the cell's centre came from.
    pub fn resolve(&self, owner: u16, claims: &Claims, align: &[i64]) -> (d: Decision)
        requires
            self.wf(),
            align@.len() == claims@.len(),
            forall|i: int|
                0 <= i < claims@.len() ==> (#[trigger] claims@[i]).1 < self.continental@.len(),
        ensures
            decides(
                owner,
                claims@,
                align@,
                self.continental@,
                self.strength@,
                d,
            ),
    {
        let list = claims.as_slice();
        if list.len() == 0 {
            return Decision::Fresh { plate: owner };
        }
        let sides = best_sources(list, align);
        proof {
            lemma_claimants(list@, list@.len() as int);
            assert forall|i: int| 0 <= i < sides@.len() implies (#[trigger] sides@[i]).1
                < self.continental@.len() by {
                assert(is_best_source(list@, align@, sides@[i].0, sides@[i].1));
            }
        }
        if sides.len() == 1 {
            proof {
                assert(sides@[0].0 == claimants(list@, list@.len() as int)[0]);
                assert(claimants(list@, list@.len() as int) =~= seq![sides@[0].0]);
            }
            return Decision::Keep { plate: sides[0].0, src: sides[0].1 };
        }
        self.resolve_overlap(list, align, &sides)
    }

    /// Several plates meet on one cell: the best side wins, the others end here.
    fn resolve_overlap(&self, list: &[(u16, u32)], align: &[i64], sides: &Vec<(u16, u32)>) -> (d:
        Decision)
        requires
            self.wf(),
            align@.len() == list@.len(),
            are_sides(list@, align@, sides@),
            sides@.len() >= 2,
            forall|i: int|
                0 <= i < sides@.len() ==> (#[trigger] sides@[i]).1 < self.continental@.len(),
        ensures
            d is Converge,
            decides(
                0,
                list@,
                align@,
                self.continental@,
                self.strength@,
                d,
            ),
    {
        let ghost con = self.continental@;
        let ghost str = self.strength@;
        proof {
            lemma_claimants(list@, list@.len() as int);
            let plates = claimants(list@, list@.len() as int);
            assert forall|i: int, j: int| 0 <= i < j < sides@.len() implies (
            #[trigger] sides@[i]).0 != (#[trigger] sides@[j]).0 by {
                assert(plates[i] != plates[j]);
            }
        }
        let mut w: usize = 0;
        let mut i: usize = 1;
        while i < sides.len()
            invariant
                1 <= i <= sides@.len(),
                w < i,
                self.wf(),
                con == self.continental@,
                str == self.strength@,
                forall|k: int|
                    0 <= k < sides@.len() ==> (#[trigger] sides@[k]).1 < self.continental@.len(),
                forall|a: int, b: int|
                    0 <= a < b < sides@.len() ==> (#[trigger] sides@[a]).0 != (
                    #[trigger] sides@[b]).0,
                forall|k: int|
                    0 <= k < i && k != w ==> beats(con, str, sides@[w as int], #[trigger] sides@[k]),
            decreases sides@.len() - i,
        {
            let ghost w0 = w as int;
            assert(sides@[i as int].1 < self.continental@.len());
            assert(sides@[w0].0 != sides@[i as int].0);
            if self.wins(sides[i], sides[w]) {
                w = i;
            }
            proof {
                assert forall|k: int| 0 <= k < i + 1 && k != w implies beats(
                    con,
                    str,
                    sides@[w as int],
                    #[trigger] sides@[k],
                ) by {
                    if k != w0 && k != i {
                        assert(beats(con, str, sides@[w0], sides@[k]));
                    }
                }
            }
            i = i + 1;
        }
        let plate = sides[w].0;
        let src = sides[w].1;
        let top = self.continental[src as usize];
        let mut losers: Vec<u32> = Vec::new();
        let mut collision = false;
        let mut i: usize = 0;
        while i < sides.len()
            invariant
                i <= sides@.len(),
                w < sides@.len(),
                self.wf(),
                con == self.continental@,
                top == con[src as int],
                forall|k: int|
                    0 <= k < sides@.len() ==> (#[trigger] sides@[k]).1 < self.continental@.len(),
                losers@ == losers_of(sides@, w as int, i as int),
                collision == exists|k: int|
                    0 <= k < losers@.len() && con[#[trigger] losers@[k] as int] && con[src as int],
            decreases sides@.len() - i,
        {
            if i != w {
                let ghost l0 = losers@;
                let s = sides[i].1;
                assert(sides@[i as int].1 < self.continental@.len());
                losers.push(s);
                let ghost was = collision;
                if top && self.continental[s as usize] {
                    collision = true;
                    assert(losers@[l0.len() as int] == s);
                    assert(con[losers@[l0.len() as int] as int]);
                }
                proof {
                    if was {
                        let k = choose|k: int|
                            0 <= k < l0.len() && con[#[trigger] l0[k] as int] && con[src as int];
                        assert(losers@[k] == l0[k]);
                    }
                    if exists|k: int|
                        0 <= k < losers@.len() && con[#[trigger] losers@[k] as int]
                            && con[src as int] {
                        let k = choose|k: int|
                            0 <= k < losers@.len() && con[#[trigger] losers@[k] as int]
                                && con[src as int];
                        if k < l0.len() {
                            assert(con[l0[k] as int]);
                        }
                    }
                }
            }
            i = i + 1;
        }
        proof {
            assert(is_overlap(
                list@,
                align@,
                con,
                str,
                sides@,
                w as int,
                plate,
                src,
                losers@,
                collision,
            ));
        }
        let d = Decision::Converge { plate, src, losers, collision };
        assert(claimants(list@, list@.len() as int).len() >= 2);
        assert(d matches Decision::Converge { plate: p, src: s, losers: l, collision: c }
            && is_overlap(list@, align@, con, str, sides@, w as int, p, s, l@, c));
        d
    }
}

/// The losers are the sources of the sides that do not win, one for each.
proof fn lemma_losers(sides: Seq<(u16, u32)>, w: int, i: int)
    requires
        0 <= w < sides.len(),
        0 <= i <= sides.len(),
    ensures
        losers_of(sides, w, i).len() == (if w < i {
            i - 1
        } else {
            i
        }),
        forall|k: int|
            0 <= k < i && k != w ==> losers_of(sides, w, i).contains((#[trigger] sides[k]).1),
        forall|j: int|
            0 <= j < losers_of(sides, w, i).len() ==> exists|k: int|
                0 <= k < i && k != w && (#[trigger] sides[k]).1 == #[trigger] losers_of(
                    sides,
                    w,
                    i,
                )[j],
    decreases i,
{
    if i > 0 {
        lemma_losers(sides, w, i - 1);
        let before = losers_of(sides, w, i - 1);
        let now = losers_of(sides, w, i);
        assert forall|k: int| 0 <= k < i && k != w implies now.contains(
            (#[trigger] sides[k]).1,
        ) by {
            if k < i - 1 {
                assert(before.contains(sides[k].1));
                let j = choose|j: int| 0 <= j < before.len() && before[j] == sides[k].1;
                assert(now[j] == sides[k].1);
            } else {
                assert(now[before.len() as int] == sides[k].1);
            }
        }
        assert forall|j: int| 0 <= j < now.len() implies exists|k: int|
            0 <= k < i && k != w && (#[trigger] sides[k]).1 == #[trigger] now[j] by {
            if j < before.len() {
                assert(now[j] == before[j]);
                let k = choose|k: int|
                    0 <= k < i - 1 && k != w && (#[trigger] sides[k]).1 == before[j];
                assert(sides[k].1 == now[j]);
            } else {
                assert(sides[i - 1].1 == now[j]);
            }
        }
    }
}

/// Who survives an overlap: continental crust never goes under oceanic, the thicker of two
/// continents goes on, the younger of two ocean floors does, and of sides that are alike in all
/// that the plate with the lower number. Every side comes of a claim, no plate loses to itself,
/// and every other plate that claims the cell loses.
pub proof fn the_stronger_crust_survives(
    owner: u16,
    list: Seq<(u16, u32)>,
    align: Seq<i64>,
    continental: Seq<bool>,
    strength: Seq<i32>,
    d: Decision,
)
    requires
        decides(owner, list, align, continental, strength, d),
        d is Converge,
    ensures
        ({
            let (plate, src, losers) = (d->Converge_plate, d->Converge_src, d->losers@);
            &&& list.contains((plate, src))
            &&& losers.len() >= 1
            &&& forall|j: int|
                0 <= j < losers.len() ==> {
                    let l = #[trigger] losers[j] as int;
                    &&& continental[l] ==> continental[src as int]
                    &&& continental[l] == continental[src as int] ==> strength[src as int]
                        >= strength[l]
                    &&& exists|q: u16|
                        q != plate && #[trigger] list.contains((q, losers[j])) && (continental[l]
                            == continental[src as int] && strength[l] == strength[src as int]
                            ==> plate < q)
                }
            &&& forall|i: int|
                0 <= i < list.len() && (#[trigger] list[i]).0 != plate ==> exists|l: u32|
                    #[trigger] list.contains((list[i].0, l)) && losers.contains(l)
        }),
{
    let (plate, src, losers) = (d->Converge_plate, d->Converge_src, d->losers@);
    let (sides, w) = choose|sides: Seq<(u16, u32)>, w: int| #[trigger]
        is_overlap(
            list,
            align,
            continental,
            strength,
            sides,
            w,
            plate,
            src,
            losers,
            d->collision,
        );
    let plates = claimants(list, list.len() as int);
    lemma_claimants(list, list.len() as int);
    lemma_losers(sides, w, sides.len() as int);
    assert forall|k: int| 0 <= k < sides.len() implies list.contains(#[trigger] sides[k]) by {
        assert(is_best_source(list, align, sides[k].0, sides[k].1));
        let i = choose|i: int| 0 <= i < list.len() && #[trigger] list[i] == (sides[k].0, sides[k].1);
        assert(list[i] == sides[k]);
    }
    assert(list.contains(sides[w]));
    assert forall|j: int| 0 <= j < losers.len() implies {
        let l = #[trigger] losers[j] as int;
        &&& continental[l] ==> continental[src as int]
        &&& continental[l] == continental[src as int] ==> strength[src as int] >= strength[l]
        &&& exists|q: u16|
            q != plate && #[trigger] list.contains((q, losers[j])) && (continental[l]
                == continental[src as int] && strength[l] == strength[src as int] ==> plate < q)
    } by {
        let k = choose|k: int| 0 <= k < sides.len() && k != w && (#[trigger] sides[k]).1 == losers[j];
        assert(beats(continental, strength, sides[w], sides[k]));
        assert(plates[k] != plates[w]);
        assert(sides[k].0 == plates[k] && sides[w].0 == plates[w]);
        assert(list.contains((sides[k].0, losers[j])));
    }
    assert forall|i: int| 0 <= i < list.len() && (#[trigger] list[i]).0 != plate implies exists|
        l: u32,
    | #[trigger] list.contains((list[i].0, l)) && losers.contains(l) by {
        assert(plates.contains(list[i].0));
        let k = choose|k: int| 0 <= k < plates.len() && plates[k] == list[i].0;
        assert(sides[k].0 == plates[k]);
        assert(sides[w].0 == plate);
        assert(list.contains((list[i].0, sides[k].1)));
    }
}

/// Two continents collide exactly where the crust that survives and some crust that ends are
/// both continental.
pub proof fn a_collision_is_of_continents(
    owner: u16,
    list: Seq<(u16, u32)>,
    align: Seq<i64>,
    continental: Seq<bool>,
    strength: Seq<i32>,
    d: Decision,
)
    requires
        decides(owner, list, align, continental, strength, d),
        d is Converge,
    ensures
        d->collision <==> continental[d->Converge_src as int] && exists|j: int|
            0 <= j < d->losers@.len() && continental[#[trigger] d->losers@[j] as int],
{
}

/// What lands on a cell: fresh crust of its owner exactly where nobody claims it, the crust of
/// the only claimant where there is one, and an overlap exactly where two plates claim it. What
/// a plate sends is its claim that lies closest, the lowest cell of several.
pub proof fn claims_decide_what_lands(
    owner: u16,
    list: Seq<(u16, u32)>,
    align: Seq<i64>,
    continental: Seq<bool>,
    strength: Seq<i32>,
    d: Decision,
)
    requires
        decides(owner, list, align, continental, strength, d),
    ensures
        d is Fresh <==> list.len() == 0,
        d matches Decision::Fresh { plate } ==> plate == owner,
        d is Converge <==> exists|i: int, j: int|
            0 <= i < list.len() && 0 <= j < list.len() && (#[trigger] list[i]).0 != (
            #[trigger] list[j]).0,
        d matches Decision::Keep { plate, src } ==> exists|i: int|
            0 <= i < list.len() && #[trigger] list[i] == (plate, src) && forall|j: int|
                0 <= j < list.len() ==> (#[trigger] list[j]).0 == plate && (align[j] < align[i] || (
                align[j] == align[i] && src <= list[j].1)),
        d matches Decision::Converge { plate, src, .. } ==> exists|i: int|
            0 <= i < list.len() && #[trigger] list[i] == (plate, src) && forall|j: int|
                0 <= j < list.len() && (#[trigger] list[j]).0 == plate ==> align[j] < align[i] || (
                align[j] == align[i] && src <= list[j].1),
{
    let plates = claimants(list, list.len() as int);
    lemma_claimants(list, list.len() as int);
    match d {
        Decision::Fresh { .. } => {},
        Decision::Keep { plate, src } => {
            assert(plates[0] == plate);
            assert forall|j: int| 0 <= j < list.len() implies (#[trigger] list[j]).0 == plate by {
                assert(plates.contains(list[j].0));
            }
            let i = choose|i: int|
                0 <= i < list.len() && #[trigger] list[i] == (plate, src) && forall|j: int|
                    0 <= j < list.len() && (#[trigger] list[j]).0 == plate ==> align[j] < align[i]
                        || (align[j] == align[i] && src <= list[j].1);
            assert(list[i] == (plate, src));
        },
        Decision::Converge { plate, src, losers, collision } => {
            let (sides, w) = choose|sides: Seq<(u16, u32)>, w: int| #[trigger]
                is_overlap(
                    list,
                    align,
                    continental,
                    strength,
                    sides,
                    w,
                    plate,
                    src,
                    losers@,
                    collision,
                );
            assert(sides[w].0 == plates[w]);
            assert(is_best_source(list, align, plate, src));
            assert(plates[0] != plates[1]);
            assert(plates.contains(plates[0]) && plates.contains(plates[1]));
            let i = choose|i: int| 0 <= i < list.len() && (#[trigger] list[i]).0 == plates[0];
            let j = choose|j: int| 0 <= j < list.len() && (#[trigger] list[j]).0 == plates[1];
            assert(list[i].0 != list[j].0);
        },
    }
}

proof fn lemma_with(list: Seq<u16>, p: u16)
    requires
        list.no_duplicates(),
    ensures
        with(list, p).no_duplicates(),
        forall|q: u16| #[trigger] with(list, p).contains(q) <==> q == p || list.contains(q),
{
    let now = with(list, p);
    assert forall|q: u16| #[trigger] now.contains(q) <==> q == p || list.contains(q) by {
        if !list.contains(p) {
            if now.contains(q) && q != p {
                let i = choose|i: int| 0 <= i < now.len() && now[i] == q;
                assert(list[i] == q);
            }
            if list.contains(q) {
                let i = choose|i: int| 0 <= i < list.len() && list[i] == q;
                assert(now[i] == q);
            }
            assert(now[list.len() as int] == p);
        }
    }
}

/// The plates of a chunk are the plates that its cells are on, each once.
pub proof fn a_chunk_knows_its_plates(cells: Seq<u32>, plate: Seq<u16>)
    ensures
        plates_among(cells, plate, cells.len() as int).no_duplicates(),
        forall|p: u16|
            #[trigger] plates_among(cells, plate, cells.len() as int).contains(p) <==> exists|
                i: int,
            |
                0 <= i < cells.len() && plate[#[trigger] cells[i] as int] == p,
{
    lemma_plates_among(cells, plate, cells.len() as int);
}

proof fn lemma_plates_among(cells: Seq<u32>, plate: Seq<u16>, n: int)
    requires
        0 <= n <= cells.len(),
    ensures
        plates_among(cells, plate, n).no_duplicates(),
        forall|p: u16|
            #[trigger] plates_among(cells, plate, n).contains(p) <==> exists|i: int|
                0 <= i < n && plate[#[trigger] cells[i] as int] == p,
    decreases n,
{
    if n > 0 {
        lemma_plates_among(cells, plate, n - 1);
        let before = plates_among(cells, plate, n - 1);
        lemma_with(before, plate[cells[n - 1] as int]);
        assert forall|p: u16| #[trigger] plates_among(cells, plate, n).contains(p) <==> exists|
            i: int,
        |
            0 <= i < n && plate[#[trigger] cells[i] as int] == p by {
            if before.contains(p) {
                let i = choose|i: int| 0 <= i < n - 1 && plate[#[trigger] cells[i] as int] == p;
                assert(plate[cells[i] as int] == p);
            }
            if exists|i: int| 0 <= i < n && plate[#[trigger] cells[i] as int] == p {
                let i = choose|i: int| 0 <= i < n && plate[#[trigger] cells[i] as int] == p;
                if i < n - 1 {
                    assert(before.contains(p));
                }
            }
        }
    }
}

/// A plate is a candidate exactly where some chunk that is near enough holds it and it is one of
/// the `np` plates; every candidate is named once. A chunk that is near is never left out.
pub proof fn every_plate_in_reach_is_a_candidate(
    chunks: Seq<Seq<u16>>,
    near: Seq<bool>,
    np: nat,
)
    requires
        near.len() == chunks.len(),
    ensures
        candidates_upto(chunks, near, np, chunks.len() as int).no_duplicates(),
        forall|p: u16|
            #[trigger] candidates_upto(chunks, near, np, chunks.len() as int).contains(p) <==> p < np
                && exists|i: int|
                0 <= i < chunks.len() && near[i] && (#[trigger] chunks[i]).contains(p),
{
    lemma_candidates(chunks, near, np, chunks.len() as int);
}

proof fn lemma_with_chunk(list: Seq<u16>, chunk: Seq<u16>, np: nat, k: int)
    requires
        list.no_duplicates(),
        0 <= k <= chunk.len(),
    ensures
        with_chunk(list, chunk, np, k).no_duplicates(),
        forall|p: u16|
            #[trigger] with_chunk(list, chunk, np, k).contains(p) <==> list.contains(p) || (p < np
                && exists|j: int| 0 <= j < k && #[trigger] chunk[j] == p),
    decreases k,
{
    if k > 0 {
        lemma_with_chunk(list, chunk, np, k - 1);
        let before = with_chunk(list, chunk, np, k - 1);
        lemma_with(before, chunk[k - 1]);
        assert forall|p: u16| #[trigger] with_chunk(list, chunk, np, k).contains(p)
            <==> list.contains(p) || (p < np && exists|j: int| 0 <= j < k && #[trigger] chunk[j]
            == p) by {
            assert(before.contains(p) <==> list.contains(p) || (p < np && exists|j: int|
                0 <= j < k - 1 && #[trigger] chunk[j] == p));
            if exists|j: int| 0 <= j < k && #[trigger] chunk[j] == p {
                let j = choose|j: int| 0 <= j < k && #[trigger] chunk[j] == p;
                if j < k - 1 {
                    assert(chunk[j] == p);
                }
            }
            if p == chunk[k - 1] {
                assert(chunk[k - 1] == p);
            }
        }
    }
}

proof fn lemma_candidates(chunks: Seq<Seq<u16>>, near: Seq<bool>, np: nat, n: int)
    requires
        near.len() == chunks.len(),
        0 <= n <= chunks.len(),
    ensures
        candidates_upto(chunks, near, np, n).no_duplicates(),
        forall|p: u16|
            #[trigger] candidates_upto(chunks, near, np, n).contains(p) <==> p < np && exists|i: int|
                0 <= i < n && near[i] && (#[trigger] chunks[i]).contains(p),
    decreases n,
{
    if n > 0 {
        lemma_candidates(chunks, near, np, n - 1);
        let before = candidates_upto(chunks, near, np, n - 1);
        let last = chunks[n - 1];
        lemma_with_chunk(before, last, np, last.len() as int);
        assert forall|p: u16| #[trigger] candidates_upto(chunks, near, np, n).contains(p) <==> p
            < np && exists|i: int|
            0 <= i < n && near[i] && (#[trigger] chunks[i]).contains(p) by {
            assert(before.contains(p) <==> p < np && exists|i: int|
                0 <= i < n - 1 && near[i] && (#[trigger] chunks[i]).contains(p));
            if exists|i: int| 0 <= i < n && near[i] && (#[trigger] chunks[i]).contains(p) {
                let i = choose|i: int|
                    0 <= i < n && near[i] && (#[trigger] chunks[i]).contains(p);
                if i == n - 1 {
                    let j = choose|j: int| 0 <= j < last.len() && last[j] == p;
                    assert(last[j] == p);
                } else {
                    assert(chunks[i].contains(p));
                }
            }
            if near[n - 1] && with_chunk(before, last, np, last.len() as int).contains(p)
                && !before.contains(p) {
                let j = choose|j: int| 0 <= j < last.len() && #[trigger] last[j] == p;
                assert(chunks[n - 1].contains(p));
            }
        }
    }
}

/// A candidate claims a cell exactly where the crust that it would pull is its own.
pub proof fn plates_claim_with_their_own_crust(
    cands: Seq<u16>,
    src: Seq<u32>,
    plate: Seq<u16>,
)
    requires
        src.len() == cands.len(),
    ensures
        forall|p: u16, s: u32|
            #[trigger] pulled(cands, src, plate, cands.len() as int).contains((p, s)) <==> plate[
            s as int] == p && exists|i: int|
                0 <= i < cands.len() && #[trigger] cands[i] == p && src[i] == s,
{
    lemma_pulled(cands, src, plate, cands.len() as int);
}

proof fn lemma_pulled(cands: Seq<u16>, src: Seq<u32>, plate: Seq<u16>, n: int)
    requires
        src.len() == cands.len(),
        0 <= n <= cands.len(),
    ensures
        forall|p: u16, s: u32|
            #[trigger] pulled(cands, src, plate, n).contains((p, s)) <==> plate[s as int] == p
                && exists|i: int| 0 <= i < n && #[trigger] cands[i] == p && src[i] == s,
    decreases n,
{
    if n > 0 {
        lemma_pulled(cands, src, plate, n - 1);
        let before = pulled(cands, src, plate, n - 1);
        let now = pulled(cands, src, plate, n);
        assert forall|p: u16, s: u32| #[trigger] now.contains((p, s)) <==> plate[s as int] == p
            && exists|i: int| 0 <= i < n && #[trigger] cands[i] == p && src[i] == s by {
            assert(before.contains((p, s)) <==> plate[s as int] == p && exists|i: int|
                0 <= i < n - 1 && #[trigger] cands[i] == p && src[i] == s);
            if now.contains((p, s)) {
                let j = choose|j: int| 0 <= j < now.len() && now[j] == (p, s);
                if j < before.len() {
                    assert(before[j] == (p, s));
                    assert(before.contains((p, s)));
                } else {
                    assert(cands[n - 1] == p && src[n - 1] == s);
                }
            }
            if plate[s as int] == p && exists|i: int|
                0 <= i < n && #[trigger] cands[i] == p && src[i] == s {
                let i = choose|i: int| 0 <= i < n && #[trigger] cands[i] == p && src[i] == s;
                if i < n - 1 {
                    assert(cands[i] == p);
                    assert(before.contains((p, s)));
                    let j = choose|j: int| 0 <= j < before.len() && before[j] == (p, s);
                    assert(now[j] == (p, s));
                } else {
                    assert(now[before.len() as int] == (p, s));
                }
            }
        }
    }
}

/// Pushing only adds: every claim that was there stays where it was in its list, and what comes
/// behind is the claim of a cell that moves there.
pub proof fn pushing_only_adds(
    lists: Seq<Seq<(u16, u32)>>,
    dst: Seq<u32>,
    plate: Seq<u16>,
    d: int,
    n: int,
)
    requires
        dst.len() == plate.len(),
        plate.len() <= u32::MAX,
        forall|x: int| 0 <= x < dst.len() ==> (#[trigger] dst[x]) < lists.len(),
        0 <= d < lists.len(),
        0 <= n <= plate.len(),
    ensures
        pushed(lists, dst, plate, n).len() == lists.len(),
        lists[d].len() <= pushed(lists, dst, plate, n)[d].len(),
        forall|i: int|
            0 <= i < lists[d].len() ==> #[trigger] pushed(lists, dst, plate, n)[d][i]
                == lists[d][i],
        forall|i: int|
            lists[d].len() <= i < pushed(lists, dst, plate, n)[d].len() ==> {
                let (p, c) = #[trigger] pushed(lists, dst, plate, n)[d][i];
                c < n && dst[c as int] == d && plate[c as int] == p
            },
    decreases n,
{
    if n > 0 {
        pushing_only_adds(lists, dst, plate, d, n - 1);
        assert(dst[n - 1] < lists.len());
    }
}

} // verus!
