//! Where eroded material goes: surf zones, deltas, moraines, dust, and the rock that
//! buried sediment turns into.

use vstd::prelude::*;
use crate::graph::CellGraph;
use crate::phase::Phase;
use crate::sort::{in_order, sort_cells};

verus! {

/// "Nowhere": the cell passes nothing on.
pub const NOWHERE: u32 = u32::MAX;

/// Ocean neighbours that make a shore exposed.
pub const MIN_FETCH_NEIGHBOURS: usize = 3;

/// Longest downwind walk within one step, in cells.
pub const MAX_HOPS: u32 = 16;

/// Rocks that the surface and the crust are made of.
#[derive(Clone, Copy, Debug, PartialEq, Eq, Structural)]
pub enum RockType {
    Granite,
    Gneiss,
    Basalt,
    Gabbro,
    Andesite,
    Tuff,
    Sandstone,
    Shale,
    Limestone,
    Conglomerate,
    Evaporite,
}

/// Entry `k` is the first with the largest key above `floor`.
pub open spec fn is_first_best(keys: Seq<i32>, floor: i32, k: int) -> bool {
    &&& 0 <= k < keys.len()
    &&& keys[k] > floor
    &&& forall|j: int|
        0 <= j < keys.len() ==> #[trigger] keys[j] < keys[k] || (keys[j] == keys[k] && k <= j)
}

/// The first entry with the largest key above `floor`, if any lies above it.
pub fn first_best(keys: &[i32], floor: i32) -> (best: Option<usize>)
    ensures
        match best {
            Some(k) => is_first_best(keys@, floor, k as int),
            None => forall|j: int| 0 <= j < keys@.len() ==> #[trigger] keys@[j] <= floor,
        },
{
    let mut best: Option<usize> = None;
    let mut i: usize = 0;
    while i < keys.len()
        invariant
            i <= keys@.len(),
            match best {
                Some(k) => {
                    &&& k < i
                    &&& keys@[k as int] > floor
                    &&& forall|j: int|
                        0 <= j < i ==> #[trigger] keys@[j] < keys@[k as int] || (keys@[j]
                            == keys@[k as int] && k <= j)
                },
                None => forall|j: int| 0 <= j < i ==> #[trigger] keys@[j] <= floor,
            },
        decreases keys@.len() - i,
    {
        let better = match best {
            Some(k) => keys[i] > keys[k],
            None => keys[i] > floor,
        };
        if better {
            best = Some(i);
        }
        i = i + 1;
    }
    best
}

/// How many of the first `k` neighbours of cell `c` lie below sea level.
pub open spec fn wet_slots(g: CellGraph, elev: Seq<i32>, sea: i32, c: int, k: int) -> nat
    decreases k,
{
    if k <= 0 {
        0
    } else {
        wet_slots(g, elev, sea, c, k - 1) + if elev[g.nb(c, k - 1)] < sea {
            1nat
        } else {
            0nat
        }
    }
}

/// Cell `m` is the surf zone of cell `c`: the shallowest of its ocean neighbours, the
/// lowest id where several tie.
pub open spec fn is_surf_zone(g: CellGraph, elev: Seq<i32>, sea: i32, c: int, m: int) -> bool {
    &&& g.adjacent(c, m)
    &&& elev[m] < sea
    &&& forall|k: int|
        0 <= k < g.valence(c) && elev[#[trigger] g.nb(c, k)] < sea ==> elev[g.nb(c, k)] < elev[m]
            || (elev[g.nb(c, k)] == elev[m] && m <= g.nb(c, k))
}

/// `sink` is where waves put what they cut from cell `c`, if they cut anything.
pub open spec fn takes_surf(
    g: CellGraph,
    elev: Seq<i32>,
    sea: i32,
    iced: bool,
    c: int,
    sink: Option<u32>,
) -> bool {
    let fetch = wet_slots(g, elev, sea, c, g.valence(c));
    match sink {
        Some(m) => {
            &&& elev[c] >= sea
            &&& !iced
            &&& fetch >= MIN_FETCH_NEIGHBOURS
            &&& is_surf_zone(g, elev, sea, c, m as int)
        },
        None => elev[c] < sea || iced || fetch < MIN_FETCH_NEIGHBOURS,
    }
}

/// Where waves put what they cut from cell `c`: its surf zone, if it is ice-free land
/// with at least [`MIN_FETCH_NEIGHBOURS`] ocean neighbours.
pub fn surf_zone(g: &CellGraph, elev: &[i32], sea: i32, iced: bool, c: usize) -> (sink: Option<u32>)
    requires
        g.wf(),
        elev@.len() == g.cells(),
        c < g.cells(),
    ensures
        takes_surf(*g, elev@, sea, iced, c as int, sink),
{
    if elev[c] < sea || iced {
        return None;
    }
    let deg = g.degree(c);
    let mut fetch: usize = 0;
    let mut sink: usize = 0;
    let mut k: usize = 0;
    while k < deg
        invariant
            k <= deg,
            deg == g.valence(c as int),
            g.wf(),
            elev@.len() == g.cells(),
            c < g.cells(),
            fetch <= k,
            fetch == wet_slots(*g, elev@, sea, c as int, k as int),
            fetch == 0 ==> forall|j: int|
                0 <= j < k ==> elev@[#[trigger] g.nb(c as int, j)] >= sea,
            fetch > 0 ==> {
                &&& g.adjacent(c as int, sink as int)
                &&& sink < g.cells()
                &&& elev@[sink as int] < sea
                &&& forall|j: int|
                    0 <= j < k && elev@[#[trigger] g.nb(c as int, j)] < sea ==> elev@[g.nb(
                        c as int,
                        j,
                    )] < elev@[sink as int] || (elev@[g.nb(c as int, j)] == elev@[sink as int]
                        && sink <= g.nb(c as int, j))
            },
        decreases deg - k,
    {
        let m = g.neighbor(c, k);
        if elev[m] < sea {
            if fetch == 0 || elev[m] > elev[sink] || (elev[m] == elev[sink] && m < sink) {
                proof {
                    assert(g.nb(c as int, k as int) == m);
                    assert(g.adjacent(c as int, m as int));
                }
                sink = m;
            }
            fetch = fetch + 1;
        }
        k = k + 1;
    }
    if fetch < MIN_FETCH_NEIGHBOURS {
        return None;
    }
    Some(sink as u32)
}

/// Those of the first `k` neighbours of cell `c` that lie below sea level, in order.
pub open spec fn wet_neighbors(g: CellGraph, elev: Seq<i32>, sea: i32, c: int, k: int) -> Seq<u32>
    decreases k,
{
    if k <= 0 {
        Seq::empty()
    } else if elev[g.nb(c, k - 1)] < sea {
        wet_neighbors(g, elev, sea, c, k - 1).push(g.nb(c, k - 1) as u32)
    } else {
        wet_neighbors(g, elev, sea, c, k - 1)
    }
}

/// The delta front of a river mouth: the neighbours that lie below sea level.
pub fn delta_front(g: &CellGraph, elev: &[i32], sea: i32, c: usize) -> (front: Vec<u32>)
    requires
        g.wf(),
        elev@.len() == g.cells(),
        c < g.cells(),
    ensures
        front@ == wet_neighbors(*g, elev@, sea, c as int, g.valence(c as int)),
{
    let deg = g.degree(c);
    let mut front: Vec<u32> = Vec::new();
    let mut k: usize = 0;
    while k < deg
        invariant
            k <= deg,
            deg == g.valence(c as int),
            g.wf(),
            elev@.len() == g.cells(),
            c < g.cells(),
            front@ == wet_neighbors(*g, elev@, sea, c as int, k as int),
        decreases deg - k,
    {
        let m = g.neighbor(c, k);
        if elev[m] < sea {
            front.push(m as u32);
        }
        k = k + 1;
    }
    front
}

/// A river cuts its bed.
pub open spec fn cuts(
    land: bool,
    lake: bool,
    drains: bool,
    thin_ice: bool,
    flowing: bool,
) -> bool {
    land && !lake && drains && thin_ice && flowing
}

/// Whether a river cuts its bed: on land outside lakes, with somewhere to drain to,
/// under thin ice at most, and with water in it.
pub fn incises(land: bool, lake: bool, drains: bool, thin_ice: bool, flowing: bool) -> (b: bool)
    ensures
        b == cuts(land, lake, drains, thin_ice, flowing),
{
    land && !lake && drains && thin_ice && flowing
}

/// What becomes of a river's load in a cell.
#[derive(Clone, Copy, Debug, PartialEq, Eq, Structural)]
pub enum Transport {
    /// Nothing is carried.
    Idle,
    /// The run ends: on land it all settles here, in the sea it builds a delta.
    End { delta: bool },
    /// Standing water: all of it settles here.
    Settle,
    /// What the river can carry goes on, the rest settles.
    Carry,
}

/// What becomes of a river's load, by whether there is one, whether the water drains, and where
/// it stands.
pub open spec fn transport_of(loaded: bool, drains: bool, land: bool, lake: bool) -> Transport {
    if !loaded {
        Transport::Idle
    } else if !drains {
        Transport::End { delta: !land }
    } else if lake {
        Transport::Settle
    } else {
        Transport::Carry
    }
}

/// What becomes of a river's load.
pub fn transport(loaded: bool, drains: bool, land: bool, lake: bool) -> (t: Transport)
    ensures
        t == transport_of(loaded, drains, land, lake),
{
    if !loaded {
        Transport::Idle
    } else if !drains {
        Transport::End { delta: !land }
    } else if lake {
        Transport::Settle
    } else {
        Transport::Carry
    }
}

/// What a cell's surroundings say about buried sediment.
#[derive(Clone, Copy, Debug, PartialEq, Eq, Structural)]
pub struct Setting {
    /// The cell lies below sea level.
    pub submarine: bool,
    /// Its water is deeper than a shelf.
    pub deep: bool,
    /// Its water is warm enough for carbonate.
    pub warm: bool,
    /// Neither it nor its neighbours bring much mud.
    pub starved: bool,
    /// A neighbour towers over it.
    pub mountain_front: bool,
}

/// The rock that buried sediment turns into.
pub open spec fn facies_of(s: Setting) -> RockType {
    if s.submarine {
        if s.deep {
            RockType::Shale
        } else if s.warm && s.starved {
            RockType::Limestone
        } else {
            RockType::Sandstone
        }
    } else if s.mountain_front {
        RockType::Conglomerate
    } else {
        RockType::Sandstone
    }
}

/// The rock that buried sediment turns into: mud in deep water, carbonate in warm
/// shallows without mud, gravel at a mountain front, sand elsewhere.
pub fn facies(s: Setting) -> (r: RockType)
    ensures
        r == facies_of(s),
{
    if s.submarine {
        if s.deep {
            RockType::Shale
        } else if s.warm && s.starved {
            RockType::Limestone
        } else {
            RockType::Sandstone
        }
    } else if s.mountain_front {
        RockType::Conglomerate
    } else {
        RockType::Sandstone
    }
}

/// The rock below every column.
pub open spec fn basement_of(continental: bool) -> RockType {
    if continental {
        RockType::Granite
    } else {
        RockType::Basalt
    }
}

/// The rock exposed where a column is exhausted.
pub fn basement(continental: bool) -> (r: RockType)
    ensures
        r == basement_of(continental),
{
    if continental {
        RockType::Granite
    } else {
        RockType::Basalt
    }
}

/// Where dust from cell `here` comes down after at most `hops` hops: it follows the wind
/// until it leaves the desert or the wind leads nowhere.
pub open spec fn blown(wind_to: Seq<u32>, arid: Seq<bool>, here: int, hops: nat) -> int
    decreases hops,
{
    if hops == 0 || wind_to[here] == NOWHERE {
        here
    } else {
        let next = wind_to[here] as int;
        if arid[next] {
            blown(wind_to, arid, next, (hops - 1) as nat)
        } else {
            next
        }
    }
}

/// Where dust from cell `c` comes down.
pub fn blow(wind_to: &[u32], arid: &[bool], c: usize) -> (to: u32)
    requires
        wind_to@.len() == arid@.len(),
        wind_to@.len() <= u32::MAX,
        c < wind_to@.len(),
        forall|x: int|
            0 <= x < wind_to@.len() ==> #[trigger] wind_to@[x] == NOWHERE || wind_to@[x]
                < wind_to@.len(),
    ensures
        to == blown(wind_to@, arid@, c as int, MAX_HOPS as nat),
{
    let mut here: usize = c;
    let mut hop: u32 = 0;
    while hop < MAX_HOPS
        invariant
            hop <= MAX_HOPS,
            here < wind_to@.len(),
            wind_to@.len() == arid@.len(),
            wind_to@.len() <= u32::MAX,
            forall|x: int|
                0 <= x < wind_to@.len() ==> #[trigger] wind_to@[x] == NOWHERE || wind_to@[x]
                    < wind_to@.len(),
            blown(wind_to@, arid@, c as int, MAX_HOPS as nat) == blown(
                wind_to@,
                arid@,
                here as int,
                (MAX_HOPS - hop) as nat,
            ),
        decreases MAX_HOPS - hop,
    {
        let next = wind_to[here];
        if next == NOWHERE {
            return here as u32;
        }
        if !arid[next as usize] {
            return next;
        }
        here = next as usize;
        hop = hop + 1;
    }
    here as u32
}

/// One leg of what ice quarried.
#[derive(Clone, Copy, Debug, PartialEq, Eq, Structural)]
pub enum Leg {
    /// The load of the cell goes on to another.
    On { from: u32, to: u32 },
    /// The load of the cell settles there.
    Down { at: u32 },
}

/// What routes a moraine.
pub struct Glacier {
    /// Order key of each cell's ice surface.
    pub surface: Vec<i32>,
    /// The cell that each cell's ice flows to most, or [`NOWHERE`].
    pub ice_down: Vec<u32>,
    /// Whether the ice ends in the cell: it is thin, or it melts.
    pub ends: Vec<bool>,
}

impl Glacier {
    /// All fields cover `n` cells, and ice flows to cells.
    pub open spec fn wf(&self, n: int) -> bool {
        &&& n <= u32::MAX
        &&& self.surface@.len() == n
        &&& self.ice_down@.len() == n
        &&& self.ends@.len() == n
        &&& forall|c: int|
            0 <= c < n ==> #[trigger] self.ice_down@[c] == NOWHERE || self.ice_down@[c] < n
    }

    /// A load settles in cell `c`.
    pub open spec fn is_terminus(&self, c: int) -> bool {
        self.ice_down@[c] == NOWHERE || self.ends@[c]
    }
}

/// Which cells still carry a load after the first `i` cells of `order`, and the legs so
/// far.
pub open spec fn swept_loads(
    gl: Glacier,
    order: Seq<u32>,
    loaded: Seq<bool>,
    i: int,
) -> (Seq<bool>, Seq<Leg>)
    decreases i,
{
    if i <= 0 {
        (loaded, Seq::empty())
    } else {
        let (now, legs) = swept_loads(gl, order, loaded, i - 1);
        let c = order[i - 1];
        if !now[c as int] {
            (now, legs)
        } else if gl.is_terminus(c as int) {
            (now.update(c as int, false), legs.push(Leg::Down { at: c }))
        } else {
            let d = gl.ice_down@[c as int];
            (
                now.update(d as int, true).update(c as int, false),
                legs.push(Leg::On { from: c, to: d }),
            )
        }
    }
}

/// What is still carried by the cells before `c` settles where it is.
pub open spec fn settled_loads(now: Seq<bool>, c: int) -> Seq<Leg>
    decreases c,
{
    if c <= 0 {
        Seq::empty()
    } else if now[c - 1] {
        settled_loads(now, c - 1).push(Leg::Down { at: (c - 1) as u32 })
    } else {
        settled_loads(now, c - 1)
    }
}

/// The cells that take part: those that carry a load or have ice.
pub open spec fn glaciated_cells(loaded: Seq<bool>, icy: Seq<bool>) -> Seq<bool> {
    Seq::new(loaded.len(), |c: int| loaded[c] || icy[c])
}

/// `order` lists the glaciated cells from the highest ice surface down.
pub open spec fn is_ice_order(
    surface: Seq<i32>,
    glaciated: Seq<bool>,
    order: Seq<u32>,
) -> bool {
    &&& in_order(surface, true, order)
    &&& forall|i: int|
        0 <= i < order.len() ==> (#[trigger] order[i]) < glaciated.len()
            && glaciated[order[i] as int]
    &&& forall|c: int|
        0 <= c < glaciated.len() && #[trigger] glaciated[c] ==> order.contains(c as u32)
}

impl Glacier {
    /// Carries what the ice quarried down the flow until it meets the end of the ice, and
    /// drops it there; what is still under way after one sweep settles where it stands.
    /// A cell takes part where it carries a load or has ice.
    pub fn route_moraine(&self, loaded: &[bool], icy: &[bool]) -> (legs: Vec<Leg>)
        requires
            self.wf(loaded@.len() as int),
            icy@.len() == loaded@.len(),
        ensures
            exists|order: Seq<u32>| #[trigger]
                is_ice_order(
                    self.surface@,
                    glaciated_cells(loaded@, icy@),
                    order,
                ) && legs@ == swept_loads(*self, order, loaded@, order.len() as int).1
                    + settled_loads(
                    swept_loads(*self, order, loaded@, order.len() as int).0,
                    loaded@.len() as int,
                ),
    {
        let n = loaded.len();
        let ghost glaciated = glaciated_cells(loaded@, icy@);
        let mut cells: Vec<u32> = Vec::new();
        let mut c: usize = 0;
        while c < n
            invariant
                c <= n,
                n == loaded@.len(),
                n == icy@.len(),
                n <= u32::MAX,
                glaciated == glaciated_cells(loaded@, icy@),
                forall|i: int|
                    0 <= i < cells@.len() ==> (#[trigger] cells@[i]) < c
                        && glaciated[cells@[i] as int],
                forall|i: int, j: int|
                    0 <= i < j < cells@.len() ==> (#[trigger] cells@[i]) < (#[trigger] cells@[j]),
                forall|d: int|
                    0 <= d < c && #[trigger] glaciated[d] ==> cells@.contains(d as u32),
            decreases n - c,
        {
            if loaded[c] || icy[c] {
                let ghost before = cells@;
                cells.push(c as u32);
                proof {
                    assert(cells@[before.len() as int] == c as u32);
                    assert forall|d: int| 0 <= d < c + 1 && #[trigger] glaciated[d] implies cells@.contains(
                    d as u32) by {
                        if d < c {
                            assert(before.contains(d as u32));
                            let i = choose|i: int| 0 <= i < before.len() && before[i] == d as u32;
                            assert(cells@[i] == d as u32);
                        }
                    }
                }
            }
            c = c + 1;
        }
        let ghost all = cells@;
        let order = sort_cells(cells, self.surface.as_slice(), true);
        proof {
            assert(is_ice_order(self.surface@, glaciated, order@)) by {
                assert forall|i: int| 0 <= i < order@.len() implies (#[trigger] order@[i])
                    < glaciated.len() && glaciated[order@[i] as int] by {
                    assert(order@.contains(order@[i]));
                    let j = choose|j: int| 0 <= j < all.len() && all[j] == order@[i];
                    assert(all[j] < n);
                }
                assert forall|c: int|
                    0 <= c < glaciated.len() && #[trigger] glaciated[c] implies order@.contains(
                    c as u32,
                ) by {
                    assert(all.contains(c as u32));
                }
            }
        }
        let mut now: Vec<bool> = Vec::new();
        let mut i: usize = 0;
        while i < n
            invariant
                i <= n,
                n == loaded@.len(),
                now@ == loaded@.take(i as int),
            decreases n - i,
        {
            now.push(loaded[i]);
            i = i + 1;
            assert(now@ =~= loaded@.take(i as int));
        }
        assert(now@ =~= loaded@);
        let mut legs: Vec<Leg> = Vec::new();
        let mut i: usize = 0;
        while i < order.len()
            invariant
                i <= order@.len(),
                self.wf(n as int),
                n == loaded@.len(),
                now@.len() == n,
                forall|j: int| 0 <= j < order@.len() ==> (#[trigger] order@[j]) < n,
                (now@, legs@) == swept_loads(*self, order@, loaded@, i as int),
            decreases order@.len() - i,
        {
            let c = order[i];
            assert(order@[i as int] < n);
            if now[c as usize] {
                let d = self.ice_down[c as usize];
                if d == NOWHERE || self.ends[c as usize] {
                    legs.push(Leg::Down { at: c });
                    now.set(c as usize, false);
                } else {
                    legs.push(Leg::On { from: c, to: d });
                    now.set(d as usize, true);
                    now.set(c as usize, false);
                }
            }
            i = i + 1;
        }
        let ghost moved = legs@;
        let mut c: usize = 0;
        assert(legs@ =~= moved + settled_loads(now@, 0));
        while c < n
            invariant
                c <= n,
                n == now@.len(),
                n <= u32::MAX,
                legs@ == moved + settled_loads(now@, c as int),
            decreases n - c,
        {
            if now[c] {
                legs.push(Leg::Down { at: c as u32 });
                assert(legs@ =~= moved + settled_loads(now@, c + 1));
            }
            c = c + 1;
        }
        legs
    }
}

/// Who carries a load after the first `i` legs.
pub open spec fn after_legs(loaded: Seq<bool>, legs: Seq<Leg>, i: int) -> Seq<bool>
    decreases i,
{
    if i <= 0 {
        loaded
    } else {
        let now = after_legs(loaded, legs, i - 1);
        match legs[i - 1] {
            Leg::On { from, to } => now.update(to as int, true).update(from as int, false),
            Leg::Down { at } => now.update(at as int, false),
        }
    }
}

/// Nothing stays under way: after all legs no cell carries a load.
pub proof fn every_load_settles(gl: Glacier, loaded: Seq<bool>, order: Seq<u32>, c: int)
    requires
        gl.wf(loaded.len() as int),
        forall|i: int| 0 <= i < order.len() ==> (#[trigger] order[i]) < loaded.len(),
        0 <= c < loaded.len(),
    ensures
        ({
            let (now, legs) = swept_loads(gl, order, loaded, order.len() as int);
            let all = legs + settled_loads(now, loaded.len() as int);
            !after_legs(loaded, all, all.len() as int)[c]
        }),
{
    let n = loaded.len() as int;
    let (now, legs) = swept_loads(gl, order, loaded, order.len() as int);
    let all = legs + settled_loads(now, n);
    lemma_sweep_is_legs(gl, order, loaded, order.len() as int);
    lemma_after_prefix(loaded, legs, all, legs.len() as int);
    lemma_settling(loaded, now, all, legs.len() as int, n, c);
}

proof fn lemma_sweep_is_legs(gl: Glacier, order: Seq<u32>, loaded: Seq<bool>, i: int)
    requires
        gl.wf(loaded.len() as int),
        0 <= i <= order.len(),
        forall|j: int| 0 <= j < order.len() ==> (#[trigger] order[j]) < loaded.len(),
    ensures
        ({
            let (now, legs) = swept_loads(gl, order, loaded, i);
            after_legs(loaded, legs, legs.len() as int) == now && now.len() == loaded.len()
        }),
    decreases i,
{
    if i > 0 {
        lemma_sweep_is_legs(gl, order, loaded, i - 1);
        let (now0, legs0) = swept_loads(gl, order, loaded, i - 1);
        let (now, legs) = swept_loads(gl, order, loaded, i);
        assert(order[i - 1] < loaded.len());
        lemma_after_prefix(loaded, legs0, legs, legs0.len() as int);
    }
}

proof fn lemma_after_prefix(loaded: Seq<bool>, a: Seq<Leg>, b: Seq<Leg>, i: int)
    requires
        0 <= i <= a.len() <= b.len(),
        forall|k: int| 0 <= k < i ==> a[k] == b[k],
    ensures
        after_legs(loaded, a, i) == after_legs(loaded, b, i),
    decreases i,
{
    if i > 0 {
        lemma_after_prefix(loaded, a, b, i - 1);
    }
}

proof fn lemma_settling(
    loaded: Seq<bool>,
    now: Seq<bool>,
    all: Seq<Leg>,
    from: int,
    n: int,
    c: int,
)
    requires
        now.len() == loaded.len(),
        0 <= n <= now.len() <= u32::MAX,
        0 <= from,
        all.len() >= from + settled_loads(now, n).len(),
        after_legs(loaded, all, from) == now,
        forall|k: int|
            0 <= k < settled_loads(now, n).len() ==> all[from + k] == settled_loads(now, n)[k],
        0 <= c < now.len(),
    ensures
        ({
            let end = after_legs(loaded, all, from + settled_loads(now, n).len());
            end.len() == now.len() && end[c] == (if c < n {
                false
            } else {
                now[c]
            })
        }),
    decreases n,
{
    if n > 0 {
        let tail0 = settled_loads(now, n - 1);
        let tail = settled_loads(now, n);
        assert forall|k: int| 0 <= k < tail0.len() implies all[from + k] == tail0[k] by {
            assert(tail[k] == tail0[k]);
            assert(all[from + k] == tail[k]);
        }
        lemma_settling(loaded, now, all, from, n - 1, c);
        if now[n - 1] {
            assert(tail[tail0.len() as int] == Leg::Down { at: (n - 1) as u32 });
            assert(all[from + tail0.len()] == tail[tail0.len() as int]);
        } else if c == n - 1 {
            assert(!now[c]);
        }
    }
}

/// How much of the surface works in a phase.
#[derive(Clone, Copy, Debug, PartialEq, Eq, Structural)]
pub enum Engine {
    /// Nothing: there is no landscape yet, or tectonics is all that counts.
    Idle,
    /// Drainage, rivers, hillslopes and burial, in coarse steps.
    Coarse,
    /// All of that, and ice, wind and waves.
    Full,
}

/// How much of the surface works in a step.
pub open spec fn engine_of(phase: Phase, timeless: bool, n_cells: usize) -> Engine {
    if timeless || n_cells == 0 {
        Engine::Idle
    } else {
        match phase {
            Phase::CrustalFormation => Engine::Idle,
            Phase::Drift => Engine::Idle,
            Phase::Refinement => Engine::Coarse,
            Phase::RecentPast => Engine::Full,
        }
    }
}

/// How much of the surface works in a step: `timeless` tells whether no time passes.
pub fn engine(phase: Phase, timeless: bool, n_cells: usize) -> (e: Engine)
    ensures
        e == engine_of(phase, timeless, n_cells),
{
    if timeless || n_cells == 0 {
        return Engine::Idle;
    }
    match phase {
        Phase::CrustalFormation => Engine::Idle,
        Phase::Drift => Engine::Idle,
        Phase::Refinement => Engine::Coarse,
        Phase::RecentPast => Engine::Full,
    }
}

/// Wind can lift sediment from a cell.
pub open spec fn is_arid(dry: bool, ice: bool, lake: bool, land: bool) -> bool {
    dry && !ice && !lake && land
}

/// Whether wind can lift sediment from a cell: it is dry land without ice or a lake.
pub fn arid(dry: bool, ice: bool, lake: bool, land: bool) -> (b: bool)
    ensures
        b == is_arid(dry, ice, lake, land),
{
    dry && !ice && !lake && land
}

/// Land lies open to the weather.
pub open spec fn is_bare(land: bool, ice: bool) -> bool {
    land && !ice
}

/// Whether bare rock weathers: on land that no ice covers.
pub fn weathers(land: bool, ice: bool) -> (b: bool)
    ensures
        b == is_bare(land, ice),
{
    land && !ice
}

/// A lake loses its water to the air alone.
pub open spec fn is_sink(lake: bool, flows_out: bool) -> bool {
    lake && !flows_out
}

/// Whether a lake dries up where it is: nothing flows out of it.
pub fn dries_up(lake: bool, flows_out: bool) -> (b: bool)
    ensures
        b == is_sink(lake, flows_out),
{
    lake && !flows_out
}

/// The delta front is every neighbour of the mouth that lies below sea level, and nothing else,
/// in the order of the neighbours.
pub proof fn the_delta_front_is_all_open_water(g: &CellGraph, elev: Seq<i32>, sea: i32, c: int)
    requires
        g.wf(),
        elev.len() == g.cells(),
        0 <= c < g.cells(),
    ensures
        forall|k: int|
            0 <= k < g.valence(c) && elev[#[trigger] g.nb(c, k)] < sea ==> wet_neighbors(
                *g,
                elev,
                sea,
                c,
                g.valence(c),
            ).contains(g.nb(c, k) as u32),
        forall|i: int|
            0 <= i < wet_neighbors(*g, elev, sea, c, g.valence(c)).len() ==> {
                let m = #[trigger] wet_neighbors(*g, elev, sea, c, g.valence(c))[i];
                g.adjacent(c, m as int) && elev[m as int] < sea
            },
        wet_neighbors(*g, elev, sea, c, g.valence(c)).len() == wet_slots(
            *g,
            elev,
            sea,
            c,
            g.valence(c),
        ),
{
    assert(g.offsets@[c] <= g.offsets@[c + 1]);
    lemma_wet_neighbors(g, elev, sea, c, g.valence(c));
}

proof fn lemma_wet_neighbors(g: &CellGraph, elev: Seq<i32>, sea: i32, c: int, k: int)
    requires
        g.wf(),
        elev.len() == g.cells(),
        0 <= c < g.cells(),
        0 <= k <= g.valence(c),
    ensures
        forall|j: int|
            0 <= j < k && elev[#[trigger] g.nb(c, j)] < sea ==> wet_neighbors(
                *g,
                elev,
                sea,
                c,
                k,
            ).contains(g.nb(c, j) as u32),
        forall|i: int|
            0 <= i < wet_neighbors(*g, elev, sea, c, k).len() ==> {
                let m = #[trigger] wet_neighbors(*g, elev, sea, c, k)[i];
                g.adjacent(c, m as int) && elev[m as int] < sea
            },
        wet_neighbors(*g, elev, sea, c, k).len() == wet_slots(*g, elev, sea, c, k),
    decreases k,
{
    if k > 0 {
        lemma_wet_neighbors(g, elev, sea, c, k - 1);
        let before = wet_neighbors(*g, elev, sea, c, k - 1);
        let now = wet_neighbors(*g, elev, sea, c, k);
        assert(g.offsets@[c + 1] <= g.offsets@[g.cells()]);
        assert(0 <= g.nb(c, k - 1) < g.cells());
        assert(g.adjacent(c, g.nb(c, k - 1)));
        assert forall|j: int| 0 <= j < k && elev[#[trigger] g.nb(c, j)] < sea implies now.contains(
            g.nb(c, j) as u32,
        ) by {
            if j < k - 1 {
                assert(before.contains(g.nb(c, j) as u32));
                let i = choose|i: int| 0 <= i < before.len() && before[i] == g.nb(c, j) as u32;
                assert(now[i] == before[i]);
            } else {
                assert(now[before.len() as int] == g.nb(c, j) as u32);
            }
        }
        assert forall|i: int| 0 <= i < now.len() implies {
            let m = #[trigger] now[i];
            g.adjacent(c, m as int) && elev[m as int] < sea
        } by {
            if i < before.len() {
                assert(now[i] == before[i]);
            }
        }
    }
}

/// Wet neighbours are counted slot by slot, each once.
pub proof fn wet_slots_count_open_water(g: &CellGraph, elev: Seq<i32>, sea: i32, c: int, k: int)
    requires
        0 <= k,
    ensures
        Set::new(|j: int| 0 <= j < k && elev[g.nb(c, j)] < sea).finite(),
        wet_slots(*g, elev, sea, c, k) == Set::new(
            |j: int| 0 <= j < k && elev[g.nb(c, j)] < sea,
        ).len(),
    decreases k,
{
    let now = Set::new(|j: int| 0 <= j < k && elev[g.nb(c, j)] < sea);
    if k > 0 {
        wet_slots_count_open_water(g, elev, sea, c, k - 1);
        let before = Set::new(|j: int| 0 <= j < k - 1 && elev[g.nb(c, j)] < sea);
        if elev[g.nb(c, k - 1)] < sea {
            assert(now =~= before.insert(k - 1));
        } else {
            assert(now =~= before);
        }
    } else {
        assert(now =~= Set::empty());
    }
}

/// Waves cut a shore exactly where it is land without ice that looks on three or more cells of
/// open water, and put what they cut into the shallowest of them, the lowest cell of several.
pub proof fn surf_works_on_exposed_shores(
    g: &CellGraph,
    elev: Seq<i32>,
    sea: i32,
    iced: bool,
    c: int,
    sink: Option<u32>,
)
    requires
        g.wf(),
        0 <= c < g.cells(),
        takes_surf(*g, elev, sea, iced, c, sink),
    ensures
        sink is Some <==> elev[c] >= sea && !iced && Set::new(
            |j: int| 0 <= j < g.valence(c) && elev[g.nb(c, j)] < sea,
        ).len() >= 3,
        sink matches Some(m) ==> {
            &&& g.adjacent(c, m as int)
            &&& elev[m as int] < sea
            &&& forall|j: int|
                0 <= j < g.valence(c) && elev[#[trigger] g.nb(c, j)] < sea ==> elev[g.nb(c, j)]
                    <= elev[m as int] && (elev[g.nb(c, j)] == elev[m as int] ==> m <= g.nb(c, j))
        },
{
    assert(g.offsets@[c] <= g.offsets@[c + 1]);
    wet_slots_count_open_water(g, elev, sea, c, g.valence(c));
}

/// What becomes of a load: without one nothing; at the end of a river it all stays, as a delta
/// exactly where that is below the sea; in standing water on the way it settles, and running
/// water carries it on.
pub proof fn loads_end_where_water_ends(loaded: bool, drains: bool, land: bool, lake: bool)
    ensures
        transport_of(loaded, drains, land, lake) is Idle <==> !loaded,
        transport_of(loaded, drains, land, lake) is End <==> loaded && !drains,
        transport_of(loaded, drains, land, lake) matches Transport::End { delta } ==> delta != land,
        transport_of(loaded, drains, land, lake) is Settle <==> loaded && drains && lake,
        transport_of(loaded, drains, land, lake) is Carry <==> loaded && drains && !lake,
{
}

/// Rivers cut land that water leaves and runs over, and nothing that lies under a lake, under
/// thick ice or under the sea.
pub proof fn rivers_cut_running_land(
    land: bool,
    lake: bool,
    drains: bool,
    thin_ice: bool,
    flowing: bool,
)
    ensures
        cuts(land, lake, drains, thin_ice, flowing) ==> land && drains && thin_ice && flowing
            && !lake,
        land && drains && thin_ice && flowing && !lake ==> cuts(
            land,
            lake,
            drains,
            thin_ice,
            flowing,
        ),
{
}

/// Wind lifts sediment from dry, bare, unflooded land, and from no other.
pub proof fn wind_lifts_from_bare_dry_land(dry: bool, ice: bool, lake: bool, land: bool)
    ensures
        is_arid(dry, ice, lake, land) <==> !(!dry || ice || lake || !land),
{
}

/// What sediment turns into: deep water makes shale and nothing else does; carbonate needs a
/// warm, starved shelf; gravel lies at the foot of mountains on land; all else is sand.
pub proof fn facies_follow_the_setting(s: Setting)
    ensures
        facies_of(s) == RockType::Shale <==> s.submarine && s.deep,
        facies_of(s) == RockType::Limestone <==> s.submarine && !s.deep && s.warm && s.starved,
        facies_of(s) == RockType::Conglomerate <==> !s.submarine && s.mountain_front,
        facies_of(s) == RockType::Sandstone <==> (s.submarine && !s.deep && !(s.warm && s.starved))
            || (!s.submarine && !s.mountain_front),
{
}

/// The surface works in the two later phases alone, in all of its parts only in the last, and
/// never without time or cells.
pub proof fn the_surface_works_late(phase: Phase, timeless: bool, n_cells: usize)
    ensures
        engine_of(phase, timeless, n_cells) == Engine::Full <==> !timeless && n_cells > 0 && phase
            == Phase::RecentPast,
        engine_of(phase, timeless, n_cells) == Engine::Coarse <==> !timeless && n_cells > 0
            && phase == Phase::Refinement,
{
}

/// A flight of dust: it goes with the wind from cell to cell, over desert only.
pub open spec fn is_flight(wind_to: Seq<u32>, arid: Seq<bool>, path: Seq<int>) -> bool {
    &&& path.len() >= 1
    &&& forall|i: int|
        #![trigger path[i]]
        0 < i < path.len() ==> wind_to[path[i - 1]] != NOWHERE && path[i] == wind_to[path[i - 1]]
    &&& forall|i: int| 0 < i < path.len() - 1 ==> arid[#[trigger] path[i]]
}

/// Where dust comes down: it flies with the wind over desert, and comes down where it leaves the
/// desert, where the wind leads nowhere, or after sixteen cells.
pub proof fn dust_flies_until_it_leaves_the_desert(
    wind_to: Seq<u32>,
    arid: Seq<bool>,
    c: int,
)
    ensures
        exists|path: Seq<int>| #[trigger]
            is_flight(wind_to, arid, path) && path[0] == c && path.last() == blown(
                wind_to,
                arid,
                c,
                MAX_HOPS as nat,
            ) && path.len() <= 17 && {
                ||| wind_to[path.last()] == NOWHERE
                ||| path.len() > 1 && !arid[path.last()]
                ||| path.len() == 17
            },
{
    let path = lemma_flight(wind_to, arid, c, MAX_HOPS as nat);
    assert(is_flight(wind_to, arid, path));
}

proof fn lemma_flight(wind_to: Seq<u32>, arid: Seq<bool>, c: int, hops: nat) -> (path: Seq<int>)
    ensures
        is_flight(wind_to, arid, path),
        path[0] == c,
        path.last() == blown(wind_to, arid, c, hops),
        path.len() <= hops + 1,
        wind_to[path.last()] == NOWHERE || (path.len() > 1 && !arid[path.last()]) || path.len()
            == hops + 1,
    decreases hops,
{
    if hops == 0 || wind_to[c] == NOWHERE {
        seq![c]
    } else {
        let next = wind_to[c] as int;
        if arid[next] {
            let rest = lemma_flight(wind_to, arid, next, (hops - 1) as nat);
            let path = seq![c] + rest;
            assert forall|i: int| #![trigger path[i]] 0 < i < path.len() implies wind_to[path[i - 1]]
                != NOWHERE && path[i] == wind_to[path[i - 1]] by {
                if i > 1 {
                    assert(path[i] == rest[i - 1] && path[i - 1] == rest[i - 2]);
                } else {
                    assert(path[i] == rest[0]);
                }
            }
            assert forall|i: int| 0 < i < path.len() - 1 implies arid[#[trigger] path[i]] by {
                assert(path[i] == rest[i - 1]);
                if i > 1 {
                    assert(arid[rest[i - 1]]);
                }
            }
            assert(path.last() == rest.last());
            path
        } else {
            seq![c, next]
        }
    }
}

/// Ice carries on only along its flow, and drops a load during the sweep only where the ice
/// ends or flows nowhere.
pub proof fn ice_drops_its_load_where_it_ends(
    gl: Glacier,
    order: Seq<u32>,
    loaded: Seq<bool>,
    n: int,
    i: int,
)
    requires
        0 <= n <= order.len(),
        0 <= i < swept_loads(gl, order, loaded, n).1.len(),
    ensures
        match swept_loads(gl, order, loaded, n).1[i] {
            Leg::On { from, to } => to == gl.ice_down@[from as int] && to != NOWHERE
                && !gl.ends@[from as int],
            Leg::Down { at } => gl.ice_down@[at as int] == NOWHERE || gl.ends@[at as int],
        },
    decreases n,
{
    if n > 0 {
        let legs = swept_loads(gl, order, loaded, n - 1).1;
        if i < legs.len() {
            ice_drops_its_load_where_it_ends(gl, order, loaded, n - 1, i);
        }
    }
}

/// Rock weathers wherever there is land, but not under ice; and of lakes, those dry up that
/// nothing leaves.
pub proof fn weather_works_on_open_land(land: bool, ice: bool, lake: bool, flows_out: bool)
    ensures
        ice || !land <==> !is_bare(land, ice),
        !lake || flows_out <==> !is_sink(lake, flows_out),
{
}

} // verus!
