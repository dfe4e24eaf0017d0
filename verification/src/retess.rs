//! A new mesh between eras: how densely each part of the planet is to be covered, and how
//! every field moves to the new cells.

use vstd::prelude::*;
use crate::drift::{COLLISION, RIFT, SUBDUCTING};
use crate::graph::CellGraph;
use crate::hydro::FLOW_NONE;
use crate::worker::{column_of, Stratum};

verus! {

/// Fewest cells that a mesh is made with.
pub const MIN_CELLS: u32 = 64;

/// What the seeds of successive eras differ by.
pub const EPOCH_STRIDE: u64 = 0x9e37_79b9_7f4a_7c15;

/// What a new mesh is made with.
#[derive(Debug, Clone, Copy, PartialEq, Eq, Structural)]
pub struct Sampling {
    pub cells: u32,
    pub seed: u64,
}

/// What the mesh of era `epoch` is made with.
pub open spec fn sampling(budget: u32, seed: u64, epoch: u64) -> Sampling {
    Sampling {
        cells: if budget >= MIN_CELLS {
            budget
        } else {
            MIN_CELLS
        },
        seed: ((seed + epoch * EPOCH_STRIDE) % 0x1_0000_0000_0000_0000) as u64,
    }
}

/// What the mesh of era `epoch` is made with; `None` for a mesh that cannot be made anew.
pub fn plan(has_generators: bool, budget: u32, seed: u64, epoch: u64) -> (p: Option<Sampling>)
    ensures
        p == (if has_generators {
            Some(sampling(budget, seed, epoch))
        } else {
            None
        }),
{
    if !has_generators {
        return None;
    }
    let cells = if budget >= MIN_CELLS {
        budget
    } else {
        MIN_CELLS
    };
    proof {
        assert(epoch * EPOCH_STRIDE <= u64::MAX * u64::MAX) by (nonlinear_arith)
            requires
                epoch <= u64::MAX,
                EPOCH_STRIDE <= u64::MAX,
        ;
    }
    let wide: u128 = (seed as u128 + (epoch as u128 * EPOCH_STRIDE as u128)
        % 0x1_0000_0000_0000_0000) % 0x1_0000_0000_0000_0000;
    assert(wide == (seed + epoch * EPOCH_STRIDE) % 0x1_0000_0000_0000_0000);
    Some(Sampling { cells, seed: wide as u64 })
}

/// What a cell asks for at least, whatever its slope. In rising order of density.
#[derive(Debug, Clone, Copy, PartialEq, Eq, Structural)]
pub enum Floor {
    Ocean,
    Land,
    /// An active margin.
    Active,
    Coast,
}

/// A neighbour of `c` lies on the other side of the shore.
pub open spec fn on_coast(g: &CellGraph, land: Seq<bool>, c: int) -> bool {
    exists|k: int| 0 <= k < g.valence(c) && land[#[trigger] g.nb(c, k)] != land[c]
}

/// A plate boundary is at work in a cell with these marks.
pub open spec fn is_active(flags: u8) -> bool {
    flags & (SUBDUCTING | COLLISION | RIFT) != 0
}

/// What cell `c` asks for at least.
pub open spec fn floor_of(g: &CellGraph, land: Seq<bool>, flags: Seq<u8>, c: int) -> Floor {
    if on_coast(g, land, c) {
        Floor::Coast
    } else if is_active(flags[c]) {
        Floor::Active
    } else if land[c] {
        Floor::Land
    } else {
        Floor::Ocean
    }
}

/// What every cell asks for at least.
pub fn density_floors(g: &CellGraph, land: &[bool], flags: &[u8]) -> (floors: Vec<Floor>)
    requires
        g.wf(),
        land@.len() == g.cells(),
        flags@.len() == g.cells(),
    ensures
        floors@.len() == g.cells(),
        forall|c: int|
            0 <= c < g.cells() ==> #[trigger] floors@[c] == floor_of(g, land@, flags@, c),
{
    let n = g.n_cells();
    let mut floors: Vec<Floor> = Vec::new();
    let mut c: usize = 0;
    while c < n
        invariant
            g.wf(),
            n == g.cells(),
            land@.len() == n,
            flags@.len() == n,
            c <= n,
            floors@.len() == c,
            forall|i: int| 0 <= i < c ==> #[trigger] floors@[i] == floor_of(g, land@, flags@, i),
        decreases n - c,
    {
        let d = g.degree(c);
        let mut coast = false;
        let mut k: usize = 0;
        while k < d
            invariant
                g.wf(),
                n == g.cells(),
                land@.len() == n,
                c < n,
                d == g.valence(c as int),
                k <= d,
                coast == (exists|j: int|
                    0 <= j < k && land@[#[trigger] g.nb(c as int, j)] != land@[c as int]),
            decreases d - k,
        {
            let m = g.neighbor(c, k);
            assert(m == g.nb(c as int, k as int));
            if land[m] != land[c] {
                coast = true;
            }
            k = k + 1;
        }
        let floor = if coast {
            Floor::Coast
        } else if flags[c] & (SUBDUCTING | COLLISION | RIFT) != 0 {
            Floor::Active
        } else if land[c] {
            Floor::Land
        } else {
            Floor::Ocean
        };
        floors.push(floor);
        c = c + 1;
    }
    floors
}

/// Entries of `v` at the places `src`.
pub open spec fn pulled<T>(v: Seq<T>, src: Seq<u32>) -> Seq<T> {
    Seq::new(src.len(), |i: int| v[src[i] as int])
}

/// Entries of `v` at the places `src`.
fn pull<T: Copy>(v: &Vec<T>, src: &Vec<u32>) -> (out: Vec<T>)
    requires
        forall|i: int| 0 <= i < src@.len() ==> #[trigger] src@[i] < v@.len(),
    ensures
        out@ == pulled(v@, src@),
{
    let mut out: Vec<T> = Vec::new();
    let mut i: usize = 0;
    while i < src.len()
        invariant
            forall|k: int| 0 <= k < src@.len() ==> #[trigger] src@[k] < v@.len(),
            i <= src@.len(),
            out@.len() == i,
            forall|k: int| 0 <= k < i ==> #[trigger] out@[k] == v@[src@[k] as int],
        decreases src@.len() - i,
    {
        out.push(v[src[i] as usize]);
        i = i + 1;
    }
    assert(out@ =~= pulled(v@, src@));
    out
}

/// Every field of a planet's cells. Measured quantities are bit patterns.
pub struct PlanetCells {
    pub plate_id: Vec<u16>,
    pub crust_type: Vec<u8>,
    pub crust_thickness_m: Vec<u32>,
    pub crust_density_kg_m3: Vec<u32>,
    pub crust_age_myr: Vec<u32>,
    pub elevation_m: Vec<u32>,
    pub sediment_m: Vec<u32>,
    pub temperature_c: Vec<u32>,
    pub precip_mm_yr: Vec<u32>,
    pub wind_m_s: Vec<(u32, u32, u32)>,
    pub ice_thickness_m: Vec<u32>,
    pub water_flux_m3_yr: Vec<u32>,
    pub lake_depth_m: Vec<u32>,
    pub biome: Vec<u8>,
    pub tectonic_flags: Vec<u8>,
    pub columns: Vec<Vec<Stratum>>,
    pub flow_to: Vec<u8>,
}

impl PlanetCells {
    /// All fields cover `n` cells.
    pub open spec fn covers(&self, n: int) -> bool {
        &&& self.plate_id@.len() == n
        &&& self.crust_type@.len() == n
        &&& self.crust_thickness_m@.len() == n
        &&& self.crust_density_kg_m3@.len() == n
        &&& self.crust_age_myr@.len() == n
        &&& self.elevation_m@.len() == n
        &&& self.sediment_m@.len() == n
        &&& self.temperature_c@.len() == n
        &&& self.precip_mm_yr@.len() == n
        &&& self.wind_m_s@.len() == n
        &&& self.ice_thickness_m@.len() == n
        &&& self.water_flux_m3_yr@.len() == n
        &&& self.lake_depth_m@.len() == n
        &&& self.biome@.len() == n
        &&& self.tectonic_flags@.len() == n
        &&& self.columns@.len() == n
        &&& self.flow_to@.len() == n
    }

    /// The planet on a new mesh whose cell `i` takes everything from old cell `src[i]`. Where
    /// water flows is left open: it belongs to the mesh.
    pub fn resample(&self, src: &Vec<u32>) -> (out: PlanetCells)
        requires
            self.covers(self.plate_id@.len() as int),
            forall|i: int| 0 <= i < src@.len() ==> #[trigger] src@[i] < self.plate_id@.len(),
        ensures
            out.covers(src@.len() as int),
            out.plate_id@ == pulled(self.plate_id@, src@),
            out.crust_type@ == pulled(self.crust_type@, src@),
            out.crust_thickness_m@ == pulled(self.crust_thickness_m@, src@),
            out.crust_density_kg_m3@ == pulled(self.crust_density_kg_m3@, src@),
            out.crust_age_myr@ == pulled(self.crust_age_myr@, src@),
            out.elevation_m@ == pulled(self.elevation_m@, src@),
            out.sediment_m@ == pulled(self.sediment_m@, src@),
            out.temperature_c@ == pulled(self.temperature_c@, src@),
            out.precip_mm_yr@ == pulled(self.precip_mm_yr@, src@),
            out.wind_m_s@ == pulled(self.wind_m_s@, src@),
            out.ice_thickness_m@ == pulled(self.ice_thickness_m@, src@),
            out.water_flux_m3_yr@ == pulled(self.water_flux_m3_yr@, src@),
            out.lake_depth_m@ == pulled(self.lake_depth_m@, src@),
            out.biome@ == pulled(self.biome@, src@),
            out.tectonic_flags@ == pulled(self.tectonic_flags@, src@),
            forall|i: int|
                0 <= i < src@.len() ==> (#[trigger] out.columns@[i])@
                    == self.columns@[src@[i] as int]@,
            forall|i: int| 0 <= i < src@.len() ==> #[trigger] out.flow_to@[i] == FLOW_NONE,
    {
        let mut columns: Vec<Vec<Stratum>> = Vec::new();
        let mut flow_to: Vec<u8> = Vec::new();
        let mut i: usize = 0;
        while i < src.len()
            invariant
                self.covers(self.plate_id@.len() as int),
                forall|k: int| 0 <= k < src@.len() ==> #[trigger] src@[k] < self.plate_id@.len(),
                i <= src@.len(),
                columns@.len() == i,
                flow_to@.len() == i,
                forall|k: int|
                    0 <= k < i ==> (#[trigger] columns@[k])@ == self.columns@[src@[k] as int]@,
                forall|k: int| 0 <= k < i ==> #[trigger] flow_to@[k] == FLOW_NONE,
            decreases src@.len() - i,
        {
            columns.push(column_of(self.columns.as_slice(), src[i]));
            flow_to.push(FLOW_NONE);
            i = i + 1;
        }
        PlanetCells {
            plate_id: pull(&self.plate_id, src),
            crust_type: pull(&self.crust_type, src),
            crust_thickness_m: pull(&self.crust_thickness_m, src),
            crust_density_kg_m3: pull(&self.crust_density_kg_m3, src),
            crust_age_myr: pull(&self.crust_age_myr, src),
            elevation_m: pull(&self.elevation_m, src),
            sediment_m: pull(&self.sediment_m, src),
            temperature_c: pull(&self.temperature_c, src),
            precip_mm_yr: pull(&self.precip_mm_yr, src),
            wind_m_s: pull(&self.wind_m_s, src),
            ice_thickness_m: pull(&self.ice_thickness_m, src),
            water_flux_m3_yr: pull(&self.water_flux_m3_yr, src),
            lake_depth_m: pull(&self.lake_depth_m, src),
            biome: pull(&self.biome, src),
            tectonic_flags: pull(&self.tectonic_flags, src),
            columns,
            flow_to,
        }
    }
}

/// A new mesh invents no value: whatever a new cell holds, some old cell held.
pub proof fn resampling_invents_nothing<T>(v: Seq<T>, src: Seq<u32>, i: int)
    requires
        forall|k: int| 0 <= k < src.len() ==> #[trigger] src[k] < v.len(),
        0 <= i < src.len(),
    ensures
        v.contains(pulled(v, src)[i]),
{
    assert(v[src[i] as int] == pulled(v, src)[i]);
}

/// How a new mesh is made: with as many cells as were asked for, and 64 at least; the first era
/// with the seed of the planet, and every era after it with a seed that is one stride further.
pub proof fn eras_differ_by_one_stride(budget: u32, seed: u64, epoch: u64)
    requires
        epoch < u64::MAX,
    ensures
        sampling(budget, seed, epoch).cells >= 64,
        sampling(budget, seed, epoch).cells >= budget,
        sampling(budget, seed, epoch).cells == 64 || sampling(budget, seed, epoch).cells == budget,
        sampling(budget, seed, 0).seed == seed,
        sampling(budget, seed, (epoch + 1) as u64).seed == (sampling(budget, seed, epoch).seed
            + 0x9e37_79b9_7f4a_7c15) % 0x1_0000_0000_0000_0000,
{
    let x = seed + epoch * EPOCH_STRIDE;
    lemma_next_stride(seed as int, epoch as int, EPOCH_STRIDE as int, 0x1_0000_0000_0000_0000);
    assert(0 <= x % 0x1_0000_0000_0000_0000 < 0x1_0000_0000_0000_0000);
}

proof fn lemma_next_stride(s: int, e: int, d: int, m: int)
    requires
        m > 0,
    ensures
        (s + (e + 1) * d) % m == ((s + e * d) % m + d) % m,
{
    assert(s + (e + 1) * d == d + (s + e * d)) by (nonlinear_arith);
    vstd::arithmetic::div_mod::lemma_add_mod_noop_right(d, s + e * d, m);
}

/// Where a mesh is dense: on a shore, that is where a neighbour lies on its other side, before
/// all; then where plates meet, then on land.
pub proof fn shores_come_first(g: &CellGraph, land: Seq<bool>, flags: Seq<u8>, c: int)
    ensures
        floor_of(g, land, flags, c) == Floor::Coast <==> exists|k: int|
            0 <= k < g.valence(c) && land[#[trigger] g.nb(c, k)] != land[c],
        floor_of(g, land, flags, c) == Floor::Active ==> flags[c] & 13 != 0,
        floor_of(g, land, flags, c) == Floor::Land ==> land[c] && flags[c] & 13 == 0,
        floor_of(g, land, flags, c) == Floor::Ocean ==> !land[c] && flags[c] & 13 == 0,
{
    assert(1u8 | 4u8 | 8u8 == 13u8) by (bit_vector);
}

/// On a new mesh a cell holds exactly what the old cell under it held.
pub proof fn resampling_moves_each_cell<T>(v: Seq<T>, src: Seq<u32>, i: int)
    requires
        0 <= i < src.len(),
    ensures
        pulled(v, src).len() == src.len(),
        pulled(v, src)[i] == v[src[i] as int],
{
}

} // verus!
