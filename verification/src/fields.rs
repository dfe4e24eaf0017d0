//! The fields that travel with the crust, and how a remap rewrites them.

use vstd::prelude::*;
use crate::advect::{decides, is_best_source, is_overlap, pushed, Decision, OCEANIC_DENSITY_BITS};
use crate::drift::{COLLISION, RIFT, SUBDUCTING, SUTURE};
use crate::plate::{no_turn, Plate, Turn, ONE_BITS};

verus! {

/// Everything a cell carries when its plate moves, and its elevation, which stays where it
/// is. Measured quantities are bit patterns of single-precision numbers.
pub struct Fields {
    pub plate_id: Vec<u16>,
    pub continental: Vec<bool>,
    pub thickness_m: Vec<u32>,
    pub density_kg_m3: Vec<u32>,
    pub age_myr: Vec<u32>,
    pub sediment_m: Vec<u32>,
    pub elevation_m: Vec<u32>,
    pub flags: Vec<u8>,
}

/// What one cell carries.
pub struct CellState {
    pub plate: u16,
    pub continental: bool,
    pub thickness: u32,
    pub density: u32,
    pub age: u32,
    pub sediment: u32,
    pub elevation: u32,
    pub flags: u8,
}

impl Fields {
    /// All fields cover `n` cells.
    pub open spec fn covers(&self, n: int) -> bool {
        &&& self.plate_id@.len() == n
        &&& self.continental@.len() == n
        &&& self.thickness_m@.len() == n
        &&& self.density_kg_m3@.len() == n
        &&& self.age_myr@.len() == n
        &&& self.sediment_m@.len() == n
        &&& self.elevation_m@.len() == n
        &&& self.flags@.len() == n
    }

    /// What cell `c` carries.
    pub open spec fn at(&self, c: int) -> CellState {
        CellState {
            plate: self.plate_id@[c],
            continental: self.continental@[c],
            thickness: self.thickness_m@[c],
            density: self.density_kg_m3@[c],
            age: self.age_myr@[c],
            sediment: self.sediment_m@[c],
            elevation: self.elevation_m@[c],
            flags: self.flags@[c],
        }
    }

    /// Fields of no cell.
    fn empty() -> (f: Fields)
        ensures
            f.covers(0),
    {
        Fields {
            plate_id: Vec::new(),
            continental: Vec::new(),
            thickness_m: Vec::new(),
            density_kg_m3: Vec::new(),
            age_myr: Vec::new(),
            sediment_m: Vec::new(),
            elevation_m: Vec::new(),
            flags: Vec::new(),
        }
    }

    /// Appends a cell that carries what cell `s` of `from` does, but for its plate, its
    /// elevation and its marks.
    fn push_from(&mut self, from: &Fields, s: usize, plate: u16, elevation: u32, flags: u8)
        requires
            old(self).covers(old(self).flags@.len() as int),
            from.covers(from.flags@.len() as int),
            s < from.flags@.len(),
        ensures
            final(self).covers((old(self).flags@.len() + 1) as int),
            forall|c: int|
                0 <= c < old(self).flags@.len() ==> #[trigger] final(self).at(c) == old(self).at(c),
            final(self).at(old(self).flags@.len() as int) == (CellState {
                plate,
                elevation,
                flags,
                ..from.at(s as int)
            }),
    {
        self.plate_id.push(plate);
        self.continental.push(from.continental[s]);
        self.thickness_m.push(from.thickness_m[s]);
        self.density_kg_m3.push(from.density_kg_m3[s]);
        self.age_myr.push(from.age_myr[s]);
        self.sediment_m.push(from.sediment_m[s]);
        self.elevation_m.push(elevation);
        self.flags.push(flags);
    }

    /// Appends a cell of fresh ridge crust.
    fn push_fresh(&mut self, plate: u16, thickness: u32, elevation: u32)
        requires
            old(self).covers(old(self).flags@.len() as int),
        ensures
            final(self).covers((old(self).flags@.len() + 1) as int),
            forall|c: int|
                0 <= c < old(self).flags@.len() ==> #[trigger] final(self).at(c) == old(self).at(c),
            final(self).at(old(self).flags@.len() as int) == ridge(plate, thickness, elevation),
    {
        self.plate_id.push(plate);
        self.continental.push(false);
        self.thickness_m.push(thickness);
        self.density_kg_m3.push(OCEANIC_DENSITY_BITS);
        self.age_myr.push(0);
        self.sediment_m.push(0);
        self.elevation_m.push(elevation);
        self.flags.push(RIFT);
    }
}

/// Fresh ridge crust: oceanic, of age zero, bare of sediment.
pub open spec fn ridge(plate: u16, thickness: u32, elevation: u32) -> CellState {
    CellState {
        plate,
        continental: false,
        thickness,
        density: OCEANIC_DENSITY_BITS,
        age: 0,
        sediment: 0,
        elevation,
        flags: RIFT,
    }
}

/// The marks of a cell whose crust came from one marked `flags`: old seams travel, a
/// collision leaves a new one, and a trench its mark.
pub open spec fn landed_flags(flags: u8, d: Decision) -> u8 {
    match d {
        Decision::Converge { collision, .. } => if collision {
            (flags & SUTURE) | (COLLISION | SUTURE)
        } else {
            (flags & SUTURE) | SUBDUCTING
        },
        _ => flags & SUTURE,
    }
}

/// What cell `c` carries after the remap that decision `d` stands for. Its elevation is not
/// the crust's to move.
pub open spec fn landed(f: Fields, fresh: Seq<u32>, d: Decision, c: int) -> CellState {
    match d {
        Decision::Keep { plate, src } => CellState {
            plate,
            elevation: f.elevation_m@[c],
            flags: landed_flags(f.flags@[src as int], d),
            ..f.at(src as int)
        },
        Decision::Fresh { plate } => ridge(plate, fresh[c], f.elevation_m@[c]),
        Decision::Converge { plate, src, .. } => CellState {
            plate,
            elevation: f.elevation_m@[c],
            flags: landed_flags(f.flags@[src as int], d),
            ..f.at(src as int)
        },
    }
}

/// The source of a decision is one of `n` cells.
pub open spec fn source_in(d: Decision, n: int) -> bool {
    match d {
        Decision::Keep { src, .. } => src < n,
        Decision::Fresh { .. } => true,
        Decision::Converge { src, .. } => src < n,
    }
}

/// Rewrites every field but the elevation by the decisions. `fresh` is the reference thickness of new
/// ocean floor in each cell.
///
/// The thickness that a collision folds into the winner is not part of this: it is
/// added to the pulled thickness afterwards.
pub fn remap(f: &Fields, decisions: &[Decision], fresh: &[u32]) -> (out: Fields)
    requires
        f.covers(decisions@.len() as int),
        fresh@.len() == decisions@.len(),
        forall|c: int|
            0 <= c < decisions@.len() ==> source_in(
                #[trigger] decisions@[c],
                decisions@.len() as int,
            ),
    ensures
        out.covers(decisions@.len() as int),
        forall|c: int|
            0 <= c < decisions@.len() ==> #[trigger] out.at(c) == landed(
                *f,
                fresh@,
                decisions@[c],
                c,
            ),
        out.elevation_m@ == f.elevation_m@,
{
    let mut out = Fields::empty();
    let mut c: usize = 0;
    while c < decisions.len()
        invariant
            c <= decisions@.len(),
            f.covers(decisions@.len() as int),
            fresh@.len() == decisions@.len(),
            forall|j: int|
                0 <= j < decisions@.len() ==> source_in(
                    #[trigger] decisions@[j],
                    decisions@.len() as int,
                ),
            out.covers(c as int),
            forall|j: int|
                0 <= j < c ==> #[trigger] out.at(j) == landed(*f, fresh@, decisions@[j], j),
        decreases decisions@.len() - c,
    {
        let ghost before = out;
        assert(source_in(decisions@[c as int], decisions@.len() as int));
        match &decisions[c] {
            Decision::Keep { plate, src } => {
                let s = *src as usize;
                let flags = f.flags[s] & SUTURE;
                out.push_from(f, s, *plate, f.elevation_m[c], flags);
            },
            Decision::Fresh { plate } => {
                out.push_fresh(*plate, fresh[c], f.elevation_m[c]);
            },
            Decision::Converge { plate, src, losers: _, collision } => {
                let s = *src as usize;
                let seam = f.flags[s] & SUTURE;
                let flags = if *collision {
                    seam | (COLLISION | SUTURE)
                } else {
                    seam | SUBDUCTING
                };
                out.push_from(f, s, *plate, f.elevation_m[c], flags);
            },
        }
        proof {
            assert forall|j: int| 0 <= j < c + 1 implies #[trigger] out.at(j) == landed(
                *f,
                fresh@,
                decisions@[j],
                j,
            ) by {
                if j < c {
                    assert(out.at(j) == before.at(j));
                }
            }
        }
        c = c + 1;
    }
    proof {
        assert forall|j: int| 0 <= j < out.elevation_m@.len() implies out.elevation_m@[j]
            == f.elevation_m@[j] by {
            assert(out.at(j) == landed(*f, fresh@, decisions@[j], j));
        }
        assert(out.elevation_m@ =~= f.elevation_m@);
    }
    out
}

/// Where the rock column of a remapped cell comes from.
pub struct ColumnPlan {
    /// The column to pull; none where fresh ocean floor is laid down.
    pub pull: Option<u32>,
    /// Columns whose record survives underneath, in order: continental crust is
    /// underthrust, not destroyed.
    pub beneath: Vec<u32>,
    /// Columns that go down for good, in order.
    pub consumed: Vec<u32>,
}

/// Those of the first `i` losers that are continental (or not).
pub open spec fn losers_with(
    losers: Seq<u32>,
    continental: Seq<bool>,
    which: bool,
    i: int,
) -> Seq<u32>
    decreases i,
{
    if i <= 0 {
        Seq::empty()
    } else if continental[losers[i - 1] as int] == which {
        losers_with(losers, continental, which, i - 1).push(losers[i - 1])
    } else {
        losers_with(losers, continental, which, i - 1)
    }
}

/// `plan` is what becomes of the rock columns under decision `d`.
pub open spec fn is_plan(d: Decision, continental: Seq<bool>, plan: ColumnPlan) -> bool {
    match d {
        Decision::Fresh { .. } => plan.pull is None && plan.beneath@.len() == 0
            && plan.consumed@.len() == 0,
        Decision::Keep { src, .. } => plan.pull == Some(src) && plan.beneath@.len() == 0
            && plan.consumed@.len() == 0,
        Decision::Converge { src, losers, .. } => {
            &&& plan.pull == Some(src)
            &&& plan.beneath@ == losers_with(losers@, continental, true, losers@.len() as int)
            &&& plan.consumed@ == losers_with(losers@, continental, false, losers@.len() as int)
        },
    }
}

/// What becomes of the rock columns under decision `d`.
pub fn column_plan(d: &Decision, continental: &[bool]) -> (plan: ColumnPlan)
    requires
        d matches Decision::Converge { losers, .. } ==> forall|i: int|
            0 <= i < losers@.len() ==> (#[trigger] losers@[i]) < continental@.len(),
    ensures
        is_plan(*d, continental@, plan),
{
    match d {
        Decision::Fresh { plate: _ } => ColumnPlan {
            pull: None,
            beneath: Vec::new(),
            consumed: Vec::new(),
        },
        Decision::Keep { plate: _, src } => ColumnPlan {
            pull: Some(*src),
            beneath: Vec::new(),
            consumed: Vec::new(),
        },
        Decision::Converge { plate: _, src, losers, collision: _ } => {
            let mut beneath: Vec<u32> = Vec::new();
            let mut consumed: Vec<u32> = Vec::new();
            let mut i: usize = 0;
            while i < losers.len()
                invariant
                    i <= losers@.len(),
                    forall|j: int| 0 <= j < losers@.len() ==> (#[trigger] losers@[j]) < continental@.len(),
                    beneath@ == losers_with(losers@, continental@, true, i as int),
                    consumed@ == losers_with(losers@, continental@, false, i as int),
                decreases losers@.len() - i,
            {
                let l = losers[i];
                if continental[l as usize] {
                    beneath.push(l);
                } else {
                    consumed.push(l);
                }
                i = i + 1;
            }
            ColumnPlan { pull: Some(*src), beneath, consumed }
        },
    }
}

/// A plate after a remap: what was pending has been applied where it was due.
pub open spec fn applied(plate: Plate, due: bool) -> Plate {
    if due {
        Plate { accum: no_turn(), ..plate }
    } else {
        plate
    }
}

/// Clears the pending rotation of every plate that was `due`.
pub fn reset_due(plates: &mut Vec<Plate>, due: &[bool])
    requires
        due@.len() == old(plates)@.len(),
    ensures
        final(plates)@.len() == old(plates)@.len(),
        forall|p: int|
            0 <= p < due@.len() ==> #[trigger] final(plates)@[p] == applied(
                old(plates)@[p],
                due@[p],
            ),
{
    let ghost before = plates@;
    let n = plates.len();
    let mut p: usize = 0;
    while p < n
        invariant
            p <= n,
            n == plates@.len(),
            n == before.len(),
            due@.len() == n,
            forall|q: int| p <= q < n ==> #[trigger] plates@[q] == before[q],
            forall|q: int|
                0 <= q < p ==> #[trigger] plates@[q] == (if due@[q] {
                    (Plate { accum: no_turn(), ..before[q] })
                } else {
                    before[q]
                }),
        decreases n - p,
    {
        if due[p] {
            let mut plate = plates[p];
            plate.accum = Turn { x: 0, y: 0, z: 0, w: ONE_BITS };
            plates.set(p, plate);
        }
        p = p + 1;
    }
}

/// Every cell's content lands somewhere: after the push, the list of its forward image
/// holds its claim.
pub proof fn every_cell_lands_somewhere(
    lists: Seq<Seq<(u16, u32)>>,
    dst: Seq<u32>,
    plate: Seq<u16>,
    c: int,
)
    requires
        dst.len() == plate.len(),
        plate.len() <= u32::MAX,
        forall|x: int| 0 <= x < dst.len() ==> (#[trigger] dst[x]) < lists.len(),
        0 <= c < plate.len(),
    ensures
        pushed(lists, dst, plate, plate.len() as int)[dst[c] as int].contains(
            (plate[c], c as u32),
        ),
{
    lemma_pushed_holds(lists, dst, plate, c, plate.len() as int);
}

proof fn lemma_pushed_holds(
    lists: Seq<Seq<(u16, u32)>>,
    dst: Seq<u32>,
    plate: Seq<u16>,
    c: int,
    n: int,
)
    requires
        dst.len() == plate.len(),
        forall|x: int| 0 <= x < dst.len() ==> (#[trigger] dst[x]) < lists.len(),
        0 <= c < n <= plate.len(),
    ensures
        pushed(lists, dst, plate, n).len() == lists.len(),
        pushed(lists, dst, plate, n)[dst[c] as int].contains((plate[c], c as u32)),
    decreases n,
{
    lemma_pushed_len(lists, dst, plate, n);
    lemma_pushed_len(lists, dst, plate, n - 1);
    let before = pushed(lists, dst, plate, n - 1);
    let after = pushed(lists, dst, plate, n);
    let claim = (plate[c], c as u32);
    let d = dst[c] as int;
    assert(dst[n - 1] < lists.len());
    assert(dst[c] < lists.len());
    if c < n - 1 {
        lemma_pushed_holds(lists, dst, plate, c, n - 1);
        let i = choose|i: int| 0 <= i < before[d].len() && before[d][i] == claim;
        assert(after[d][i] == claim);
    } else if !before[d].contains(claim) {
        assert(after[d][before[d].len() as int] == claim);
    }
}

proof fn lemma_pushed_len(lists: Seq<Seq<(u16, u32)>>, dst: Seq<u32>, plate: Seq<u16>, n: int)
    requires
        forall|x: int| 0 <= x < dst.len() ==> (#[trigger] dst[x]) < lists.len(),
        0 <= n <= dst.len(),
    ensures
        pushed(lists, dst, plate, n).len() == lists.len(),
    decreases n,
{
    if n > 0 {
        lemma_pushed_len(lists, dst, plate, n - 1);
        assert(dst[n - 1] < lists.len());
    }
}

/// A list of claims in which every plate claims a cell of its own.
pub open spec fn honest(list: Seq<(u16, u32)>, plate: Seq<u16>) -> bool {
    forall|i: int|
        0 <= i < list.len() ==> (#[trigger] list[i]).1 < plate.len() && plate[list[i].1 as int]
            == list[i].0
}

/// Pushing keeps claims honest and free of duplicates.
pub proof fn pushing_keeps_claims_honest(
    lists: Seq<Seq<(u16, u32)>>,
    dst: Seq<u32>,
    plate: Seq<u16>,
    d: int,
    n: int,
)
    requires
        dst.len() == plate.len(),
        plate.len() <= u32::MAX,
        forall|x: int| 0 <= x < dst.len() ==> (#[trigger] dst[x]) < lists.len(),
        0 <= d < lists.len(),
        0 <= n <= plate.len(),
        honest(lists[d], plate),
        lists[d].no_duplicates(),
    ensures
        honest(pushed(lists, dst, plate, n)[d], plate),
        pushed(lists, dst, plate, n)[d].no_duplicates(),
    decreases n,
{
    if n > 0 {
        pushing_keeps_claims_honest(lists, dst, plate, d, n - 1);
        lemma_pushed_len(lists, dst, plate, n - 1);
        assert(dst[n - 1] < lists.len());
    }
}

/// The plate that a cell lands on is the plate its crust came from, or its own where
/// nothing came: no remap invents a plate.
pub proof fn a_remap_invents_no_plate(
    owner: u16,
    list: Seq<(u16, u32)>,
    align: Seq<i64>,
    continental: Seq<bool>,
    strength: Seq<i32>,
    plate: Seq<u16>,
    d: Decision,
)
    requires
        honest(list, plate),
        decides(owner, list, align, continental, strength, d),
    ensures
        match d {
            Decision::Fresh { plate: p } => p == owner && list.len() == 0,
            Decision::Keep { plate: p, src } => src < plate.len() && p == plate[src as int],
            Decision::Converge { plate: p, src, .. } => src < plate.len() && p
                == plate[src as int],
        },
{
    match d {
        Decision::Fresh { .. } => {},
        Decision::Keep { plate: p, src } => {
            assert(is_best_source(list, align, p, src));
        },
        Decision::Converge { plate: p, src, losers, collision } => {
            let (sides, w) = choose|sides: Seq<(u16, u32)>, w: int| #[trigger]
                is_overlap(
                    list,
                    align,
                    continental,
                    strength,
                    sides,
                    w,
                    p,
                    src,
                    losers@,
                    collision,
                );
            assert(sides[w].0 == p);
            assert(is_best_source(list, align, p, src));
        },
    }
}

/// Continental crust is never overridden by oceanic crust: where the winner of an
/// overlap is oceanic, so are all that lose.
pub proof fn continents_win(
    owner: u16,
    list: Seq<(u16, u32)>,
    align: Seq<i64>,
    continental: Seq<bool>,
    strength: Seq<i32>,
    d: Decision,
    i: int,
)
    requires
        decides(owner, list, align, continental, strength, d),
        d matches Decision::Converge { src, losers, .. } && !continental[src as int] && 0 <= i
            < losers@.len(),
    ensures
        d matches Decision::Converge { losers, .. } && !continental[losers@[i] as int],
{
    if let Decision::Converge { plate: p, src, losers, collision } = d {
        let (sides, w) = choose|sides: Seq<(u16, u32)>, w: int| #[trigger]
            is_overlap(
                list,
                align,
                continental,
                strength,
                sides,
                w,
                p,
                src,
                losers@,
                collision,
            );
        lemma_loser_is_side(sides, w, sides.len() as int, i);
        let k = choose|k: int|
            0 <= k < sides.len() && k != w && (#[trigger] sides[k]).1 == losers@[i];
        assert(crate::advect::beats(continental, strength, sides[w], sides[k]));
    }
}

proof fn lemma_loser_is_side(sides: Seq<(u16, u32)>, w: int, n: int, i: int)
    requires
        0 <= n <= sides.len(),
        0 <= i < crate::advect::losers_of(sides, w, n).len(),
    ensures
        exists|k: int|
            0 <= k < n && k != w && (#[trigger] sides[k]).1 == crate::advect::losers_of(
                sides,
                w,
                n,
            )[i],
    decreases n,
{
    if n > 0 {
        let before = crate::advect::losers_of(sides, w, n - 1);
        if n - 1 != w && i == before.len() {
            assert(sides[n - 1].1 == crate::advect::losers_of(sides, w, n)[i]);
        } else {
            lemma_loser_is_side(sides, w, n - 1, i);
            let k = choose|k: int| 0 <= k < n - 1 && k != w && (#[trigger] sides[k]).1 == before[i];
            assert(sides[k].1 == before[i]);
        }
    }
}

/// What lands on a cell is what its source carried: crust type, thickness, density, age and
/// sediment travel, the elevation stays with the place. Of the marks only the old seam travels;
/// a collision leaves its mark and a new seam, any other overlap the mark of a trench. A gap is
/// bare ocean floor of age zero with the reference thickness of the place, marked as a rift.
pub proof fn crust_travels_with_its_record(f: Fields, fresh: Seq<u32>, d: Decision, c: int)
    ensures
        ({
            let now = landed(f, fresh, d, c);
            &&& now.elevation == f.elevation_m@[c]
            &&& match d {
                Decision::Fresh { plate } => {
                    &&& now.plate == plate
                    &&& !now.continental
                    &&& now.age == 0
                    &&& now.sediment == 0
                    &&& now.thickness == fresh[c]
                    &&& now.flags == 8
                },
                Decision::Keep { plate, src } => {
                    &&& now.plate == plate
                    &&& now.continental == f.continental@[src as int]
                    &&& now.thickness == f.thickness_m@[src as int]
                    &&& now.density == f.density_kg_m3@[src as int]
                    &&& now.age == f.age_myr@[src as int]
                    &&& now.sediment == f.sediment_m@[src as int]
                    &&& now.flags & 64 == f.flags@[src as int] & 64
                    &&& now.flags & 0xbf == 0
                },
                Decision::Converge { plate, src, collision, .. } => {
                    &&& now.plate == plate
                    &&& now.continental == f.continental@[src as int]
                    &&& now.thickness == f.thickness_m@[src as int]
                    &&& now.density == f.density_kg_m3@[src as int]
                    &&& now.age == f.age_myr@[src as int]
                    &&& now.sediment == f.sediment_m@[src as int]
                    &&& collision ==> now.flags == 0x44
                    &&& !collision ==> now.flags & 64 == f.flags@[src as int] & 64 && now.flags & 0xbf
                        == 1
                },
            }
        }),
{
    match d {
        Decision::Fresh { .. } => {},
        Decision::Keep { src, .. } => {
            lemma_seam_bits(f.flags@[src as int]);
        },
        Decision::Converge { src, .. } => {
            lemma_seam_bits(f.flags@[src as int]);
        },
    }
}

proof fn lemma_seam_bits(x: u8)
    ensures
        (x & 64u8) & 64u8 == x & 64u8,
        (x & 64u8) & 0xbfu8 == 0,
        (x & 64u8) | (4u8 | 64u8) == 0x44,
        ((x & 64u8) | 1u8) & 64u8 == x & 64u8,
        ((x & 64u8) | 1u8) & 0xbfu8 == 1,
{
    assert((x & 64u8) & 64u8 == x & 64u8 && (x & 64u8) & 0xbfu8 == 0 && (x & 64u8) | (4u8 | 64u8)
        == 0x44 && ((x & 64u8) | 1u8) & 64u8 == x & 64u8 && ((x & 64u8) | 1u8) & 0xbfu8 == 1)
        by (bit_vector);
}

/// No rock record is lost but that of ocean floor: every continental column that loses goes
/// underneath, every oceanic one goes down for good, none does both and none is forgotten.
pub proof fn continental_records_survive(d: Decision, continental: Seq<bool>, plan: ColumnPlan)
    requires
        is_plan(d, continental, plan),
        d is Converge,
    ensures
        plan.pull == Some(d->Converge_src),
        forall|l: u32|
            #[trigger] plan.beneath@.contains(l) <==> d->losers@.contains(l) && continental[
            l as int],
        forall|l: u32|
            #[trigger] plan.consumed@.contains(l) <==> d->losers@.contains(l) && !continental[
            l as int],
        plan.beneath@.len() + plan.consumed@.len() == d->losers@.len(),
{
    let losers = d->losers@;
    lemma_losers_with(losers, continental, true, losers.len() as int);
    lemma_losers_with(losers, continental, false, losers.len() as int);
    lemma_losers_split(losers, continental, losers.len() as int);
    assert forall|l: u32| losers.contains(l) <==> exists|j: int|
        0 <= j < losers.len() && #[trigger] losers[j] == l by {}
}

proof fn lemma_losers_with(losers: Seq<u32>, continental: Seq<bool>, which: bool, n: int)
    requires
        0 <= n <= losers.len(),
    ensures
        forall|l: u32|
            #[trigger] losers_with(losers, continental, which, n).contains(l) <==> continental[
            l as int] == which && exists|j: int| 0 <= j < n && #[trigger] losers[j] == l,
    decreases n,
{
    if n > 0 {
        lemma_losers_with(losers, continental, which, n - 1);
        let before = losers_with(losers, continental, which, n - 1);
        let now = losers_with(losers, continental, which, n);
        assert forall|l: u32| #[trigger] now.contains(l) <==> continental[l as int] == which
            && exists|j: int| 0 <= j < n && #[trigger] losers[j] == l by {
            assert(before.contains(l) <==> continental[l as int] == which && exists|j: int|
                0 <= j < n - 1 && #[trigger] losers[j] == l);
            if now.contains(l) {
                let i = choose|i: int| 0 <= i < now.len() && now[i] == l;
                if i < before.len() {
                    assert(before[i] == l);
                    assert(before.contains(l));
                } else {
                    assert(losers[n - 1] == l);
                }
            }
            if continental[l as int] == which && exists|j: int|
                0 <= j < n && #[trigger] losers[j] == l {
                let j = choose|j: int| 0 <= j < n && #[trigger] losers[j] == l;
                if j < n - 1 {
                    assert(losers[j] == l);
                    assert(before.contains(l));
                    let i = choose|i: int| 0 <= i < before.len() && before[i] == l;
                    assert(now[i] == l);
                } else {
                    assert(now[before.len() as int] == l);
                }
            }
        }
    }
}

proof fn lemma_losers_split(losers: Seq<u32>, continental: Seq<bool>, n: int)
    requires
        0 <= n <= losers.len(),
    ensures
        losers_with(losers, continental, true, n).len() + losers_with(
            losers,
            continental,
            false,
            n,
        ).len() == n,
    decreases n,
{
    if n > 0 {
        lemma_losers_split(losers, continental, n - 1);
    }
}

/// A plate whose rotation has been applied has none pending; one that was not due keeps all of
/// it; and neither changes how it moves or whom it parted from.
pub proof fn rotations_are_applied_once(plate: Plate, due: bool)
    ensures
        due ==> applied(plate, due).accum == no_turn(),
        !due ==> applied(plate, due).accum == plate.accum,
        applied(plate, due).euler_pole == plate.euler_pole,
        applied(plate, due).omega_rad_myr == plate.omega_rad_myr,
        applied(plate, due).welded_to == plate.welded_to,
        applied(plate, due).rift_partner == plate.rift_partner,
        applied(plate, due).rift_born_myr == plate.rift_born_myr,
        applied(applied(plate, due), due) == applied(plate, due),
{
}

} // verus!
