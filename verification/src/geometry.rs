//! Globe geometry: a triangle fan per cell over its corners, cut into chunks that are drawn
//! or left out as a whole.

use vstd::prelude::*;

verus! {

/// No cell.
pub const NO_CELL: u32 = u32::MAX;

/// Corner lists of cells, stored back to back.
///
/// The corners of cell `c` are `corners[offsets[c] .. offsets[c + 1]]`.
pub struct CornerLists {
    /// Start of each cell's list in `corners`, with one closing entry.
    pub offsets: Vec<u32>,
    /// All lists, one after the other: vertices.
    pub corners: Vec<u32>,
    /// Number of vertices.
    pub n_vertices: usize,
}

impl CornerLists {
    /// The offsets cut `corners` into one list per cell, and every entry is a vertex.
    pub open spec fn wf(&self) -> bool {
        &&& self.offsets@.len() >= 1
        &&& self.offsets@.len() <= u32::MAX
        &&& self.offsets@[0] == 0
        &&& self.offsets@[self.cells()] == self.corners@.len()
        &&& forall|i: int, j: int|
            0 <= i <= j < self.offsets@.len() ==> self.offsets@[i] <= self.offsets@[j]
        &&& forall|k: int|
            0 <= k < self.corners@.len() ==> (#[trigger] self.corners@[k]) < self.n_vertices
    }

    /// Number of cells.
    pub open spec fn cells(&self) -> int {
        self.offsets@.len() - 1
    }

    /// Number of corners of cell `c`.
    pub open spec fn count(&self, c: int) -> int {
        self.offsets@[c + 1] - self.offsets@[c]
    }

    /// Corner `k` of cell `c`.
    pub open spec fn corner(&self, c: int, k: int) -> int {
        self.corners@[self.offsets@[c] + k] as int
    }

    /// Number of corners of cell `c`.
    pub fn n_corners(&self, c: usize) -> (d: usize)
        requires
            self.wf(),
            c < self.cells(),
        ensures
            d == self.count(c as int),
    {
        (self.offsets[c + 1] - self.offsets[c]) as usize
    }

    /// Corner `k` of cell `c`.
    pub fn corner_at(&self, c: usize, k: usize) -> (v: u32)
        requires
            self.wf(),
            c < self.cells(),
            k < self.count(c as int),
        ensures
            v == self.corner(c as int, k as int),
            v < self.n_vertices,
    {
        assert(self.offsets@[c as int + 1] <= self.offsets@[self.cells()]);
        self.corners[self.offsets[c] as usize + k]
    }
}

/// The first three cells at vertex `v`, as far as the cells below `c` and the first `k`
/// corners of `c` tell.
pub open spec fn touching(m: CornerLists, v: int, c: int, k: int) -> Seq<u32>
    decreases c, k,
{
    if k > 0 {
        let t = touching(m, v, c, k - 1);
        if m.corner(c, k - 1) == v && t.len() < 3 {
            t.push(c as u32)
        } else {
            t
        }
    } else if c > 0 {
        touching(m, v, c - 1, m.count(c - 1))
    } else {
        Seq::empty()
    }
}

/// Cells of the first `i` entries of `t` other than `cell`, two at most.
pub open spec fn others(cell: u32, t: Seq<u32>, i: int) -> Seq<u32>
    decreases i,
{
    if i <= 0 {
        Seq::empty()
    } else {
        let o = others(cell, t, i - 1);
        if t[i - 1] != cell && o.len() < 2 {
            o.push(t[i - 1])
        } else {
            o
        }
    }
}

/// One corner of one cell as it is drawn: the vertex, the cell that owns it, and the other
/// cells that share the vertex; the owner again where there are fewer.
#[derive(Debug, Clone, Copy, PartialEq, Eq, Structural)]
pub struct Corner {
    pub vertex: u32,
    pub owner: u32,
    pub second: u32,
    pub third: u32,
}

/// Corner `k` of a cell as it is drawn.
pub open spec fn drawn_corner(m: CornerLists, cell: u32, k: int) -> Corner {
    let v = m.corner(cell as int, k);
    let t = touching(m, v, m.cells(), 0);
    let o = others(cell, t, t.len() as int);
    Corner {
        vertex: v as u32,
        owner: cell,
        second: if o.len() > 0 {
            o[0]
        } else {
            cell
        },
        third: if o.len() > 1 {
            o[1]
        } else {
            cell
        },
    }
}

/// The corners of a cell as they are drawn; none where they span no triangle.
pub open spec fn cell_corners(m: CornerLists, cell: u32) -> Seq<Corner> {
    let d = m.count(cell as int);
    if d < 3 {
        Seq::empty()
    } else {
        Seq::new(d as nat, |k: int| drawn_corner(m, cell, k))
    }
}

/// The triangles of a fan over `d` corners that start at `base`.
pub open spec fn fan(base: int, d: int) -> Seq<u32>
    decreases d,
{
    if d < 3 {
        Seq::empty()
    } else {
        fan(base, d - 1) + seq![base as u32, (base + d - 2) as u32, (base + d - 1) as u32]
    }
}

/// The corners of the first `i` cells of a chunk.
pub open spec fn chunk_corners(m: CornerLists, cells: Seq<u32>, i: int) -> Seq<Corner>
    decreases i,
{
    if i <= 0 {
        Seq::empty()
    } else {
        chunk_corners(m, cells, i - 1) + cell_corners(m, cells[i - 1])
    }
}

/// The triangles of the first `i` cells of a chunk whose corners start at `base`.
pub open spec fn chunk_indices(m: CornerLists, cells: Seq<u32>, i: int, base: int) -> Seq<u32>
    decreases i,
{
    if i <= 0 {
        Seq::empty()
    } else {
        chunk_indices(m, cells, i - 1, base) + fan(
            base + chunk_corners(m, cells, i - 1).len(),
            m.count(cells[i - 1] as int),
        )
    }
}

/// The corners of the first `j` chunks.
pub open spec fn all_corners(m: CornerLists, chunks: Seq<Vec<u32>>, j: int) -> Seq<Corner>
    decreases j,
{
    if j <= 0 {
        Seq::empty()
    } else {
        all_corners(m, chunks, j - 1) + chunk_corners(
            m,
            chunks[j - 1]@,
            chunks[j - 1]@.len() as int,
        )
    }
}

/// The triangles of the first `j` chunks.
pub open spec fn all_indices(m: CornerLists, chunks: Seq<Vec<u32>>, j: int) -> Seq<u32>
    decreases j,
{
    if j <= 0 {
        Seq::empty()
    } else {
        all_indices(m, chunks, j - 1) + chunk_indices(
            m,
            chunks[j - 1]@,
            chunks[j - 1]@.len() as int,
            all_corners(m, chunks, j - 1).len() as int,
        )
    }
}

/// The part of the triangle list that a chunk draws.
#[derive(Debug, Clone, Copy, PartialEq, Eq, Structural)]
pub struct ChunkRange {
    pub first_index: u32,
    pub index_count: u32,
}

/// Corners, triangles, and the range of each chunk.
pub struct Geometry {
    pub vertices: Vec<Corner>,
    pub indices: Vec<u32>,
    pub ranges: Vec<ChunkRange>,
}

/// The range of chunk `j`.
pub open spec fn range_of(m: CornerLists, chunks: Seq<Vec<u32>>, j: int) -> ChunkRange {
    let a = all_indices(m, chunks, j).len();
    let b = all_indices(m, chunks, j + 1).len();
    ChunkRange { first_index: a as u32, index_count: (b - a) as u32 }
}

/// Corners and triangles can be numbered.
pub open spec fn fits(m: CornerLists, chunks: Seq<Vec<u32>>) -> bool {
    &&& all_corners(m, chunks, chunks.len() as int).len() <= u32::MAX
    &&& all_indices(m, chunks, chunks.len() as int).len() <= u32::MAX
}

/// Every entry of every chunk is a cell.
pub open spec fn chunks_name_cells(m: CornerLists, chunks: Seq<Vec<u32>>) -> bool {
    forall|j: int, i: int|
        0 <= j < chunks.len() && 0 <= i < chunks[j]@.len() ==> #[trigger] chunks[j]@[i] < m.cells()
}

/// More chunks have no fewer corners and triangles.
proof fn lemma_all_grow(m: CornerLists, chunks: Seq<Vec<u32>>, a: int, b: int)
    requires
        0 <= a <= b,
    ensures
        all_corners(m, chunks, a).len() <= all_corners(m, chunks, b).len(),
        all_indices(m, chunks, a).len() <= all_indices(m, chunks, b).len(),
    decreases b,
{
    if a < b {
        lemma_all_grow(m, chunks, a, b - 1);
    }
}

/// More cells have no fewer corners and triangles.
proof fn lemma_chunk_grows(m: CornerLists, cells: Seq<u32>, base: int, a: int, b: int)
    requires
        0 <= a <= b,
    ensures
        chunk_corners(m, cells, a).len() <= chunk_corners(m, cells, b).len(),
        chunk_indices(m, cells, a, base).len() <= chunk_indices(m, cells, b, base).len(),
    decreases b,
{
    if a < b {
        lemma_chunk_grows(m, cells, base, a, b - 1);
    }
}

/// The first three cells at each vertex, where a cell that is not there is [`NO_CELL`].
pub open spec fn slots(t: Seq<u32>) -> Seq<u32> {
    seq![
        if t.len() > 0 {
            t[0]
        } else {
            NO_CELL
        },
        if t.len() > 1 {
            t[1]
        } else {
            NO_CELL
        },
        if t.len() > 2 {
            t[2]
        } else {
            NO_CELL
        },
    ]
}

/// Cells that touch a vertex are cells, and three at most are kept.
proof fn lemma_touching(m: CornerLists, v: int, c: int, k: int)
    requires
        m.wf(),
        0 <= c <= m.cells(),
        k > 0 ==> c < m.cells(),
    ensures
        touching(m, v, c, k).len() <= 3,
        forall|i: int|
            0 <= i < touching(m, v, c, k).len() ==> (#[trigger] touching(m, v, c, k)[i])
                < m.cells(),
    decreases c, k,
{
    if k > 0 {
        lemma_touching(m, v, c, k - 1);
    } else if c > 0 {
        lemma_touching(m, v, c - 1, m.count(c - 1));
    }
}

/// Every slot of every vertex holds the cells found so far.
pub open spec fn holds(m: CornerLists, found: Seq<[u32; 3]>, c: int, k: int) -> bool {
    &&& found.len() == m.n_vertices
    &&& forall|v: int|
        0 <= v < found.len() ==> (#[trigger] found[v])@ == slots(touching(m, v, c, k))
}

/// The first three cells at each vertex.
fn cells_at_vertices(m: &CornerLists) -> (found: Vec<[u32; 3]>)
    requires
        m.wf(),
    ensures
        holds(*m, found@, m.cells(), 0),
{
    let mut found: Vec<[u32; 3]> = Vec::new();
    let mut v: usize = 0;
    while v < m.n_vertices
        invariant
            v <= m.n_vertices,
            found@.len() == v,
            forall|u: int| 0 <= u < v ==> (#[trigger] found@[u])@ == slots(touching(*m, u, 0, 0)),
        decreases m.n_vertices - v,
    {
        let empty: [u32; 3] = [NO_CELL, NO_CELL, NO_CELL];
        assert(empty@ =~= slots(touching(*m, v as int, 0, 0)));
        found.push(empty);
        v = v + 1;
    }
    let n: usize = m.offsets.len() - 1;
    let mut c: usize = 0;
    while c < n
        invariant
            m.wf(),
            n == m.cells(),
            c <= n,
            holds(*m, found@, c as int, 0),
        decreases n - c,
    {
        let d = m.n_corners(c);
        let mut k: usize = 0;
        while k < d
            invariant
                m.wf(),
                n == m.cells(),
                c < n,
                d == m.count(c as int),
                k <= d,
                holds(*m, found@, c as int, k as int),
            decreases d - k,
        {
            note(m, &mut found, c, k);
            k = k + 1;
        }
        assert forall|v: int| 0 <= v < found@.len() implies (#[trigger] found@[v])@ == slots(
            touching(*m, v, c + 1, 0),
        ) by {
            assert(touching(*m, v, c + 1, 0) == touching(*m, v, c as int, d as int));
        }
        c = c + 1;
    }
    found
}

/// Enters cell `c` at its corner `k`.
fn note(m: &CornerLists, found: &mut Vec<[u32; 3]>, c: usize, k: usize)
    requires
        m.wf(),
        c < m.cells(),
        k < m.count(c as int),
        holds(*m, old(found)@, c as int, k as int),
    ensures
        holds(*m, final(found)@, c as int, k + 1),
{
    let v = m.corner_at(c, k) as usize;
    let was = found[v];
    let ghost t = touching(*m, v as int, c as int, k as int);
    let ghost next = touching(*m, v as int, c as int, k + 1);
    proof {
        lemma_touching(*m, v as int, c as int, k as int);
        assert(was@ == slots(t));
        assert(was[0] == slots(t)[0] && was[1] == slots(t)[1] && was[2] == slots(t)[2]);
    }
    let now: [u32; 3] = if was[0] == NO_CELL {
        [c as u32, was[1], was[2]]
    } else if was[1] == NO_CELL {
        [was[0], c as u32, was[2]]
    } else if was[2] == NO_CELL {
        [was[0], was[1], c as u32]
    } else {
        was
    };
    assert(now@ =~= slots(next));
    let ghost before = found@;
    found.set(v, now);
    assert forall|u: int| 0 <= u < found@.len() implies (#[trigger] found@[u])@ == slots(
        touching(*m, u, c as int, k + 1),
    ) by {
        if u != v {
            assert(before[u]@ == slots(touching(*m, u, c as int, k as int)));
            assert(m.corner(c as int, k as int) != u);
            assert(touching(*m, u, c as int, k + 1) == touching(*m, u, c as int, k as int));
        }
    }
}

/// The corner of a cell as it is drawn.
fn corner_of(m: &CornerLists, found: &Vec<[u32; 3]>, cell: u32, k: usize) -> (r: Corner)
    requires
        m.wf(),
        cell < m.cells(),
        k < m.count(cell as int),
        holds(*m, found@, m.cells(), 0),
    ensures
        r == drawn_corner(*m, cell, k as int),
{
    let v = m.corner_at(cell as usize, k);
    let at = found[v as usize];
    let ghost t = touching(*m, v as int, m.cells(), 0);
    proof {
        lemma_touching(*m, v as int, m.cells(), 0);
        assert(at@ == slots(t));
        assert(at[0] == slots(t)[0] && at[1] == slots(t)[1] && at[2] == slots(t)[2]);
        reveal_with_fuel(others, 4);
    }
    let mut second = cell;
    let mut third = cell;
    let mut n: usize = 1;
    let mut i: usize = 0;
    while i < 3
        invariant
            i <= 3,
            t.len() <= 3,
            cell < NO_CELL,
            at@ == slots(t),
            forall|j: int| 0 <= j < t.len() ==> (#[trigger] t[j]) < NO_CELL,
            ({
                let s = if i <= t.len() {
                    i as int
                } else {
                    t.len() as int
                };
                let o = others(cell, t, s);
                &&& o.len() <= 2
                &&& n == 1 + o.len()
                &&& second == (if o.len() > 0 {
                    o[0]
                } else {
                    cell
                })
                &&& third == (if o.len() > 1 {
                    o[1]
                } else {
                    cell
                })
            }),
        decreases 3 - i,
    {
        let other = at[i];
        assert(other == slots(t)[i as int]);
        if other != NO_CELL && other != cell && n < 3 {
            if n == 1 {
                second = other;
            } else {
                third = other;
            }
            n = n + 1;
        }
        i = i + 1;
    }
    Corner { vertex: v, owner: cell, second, third }
}

/// Appends the corners and the fan of a cell.
fn draw_cell(
    m: &CornerLists,
    found: &Vec<[u32; 3]>,
    cell: u32,
    vertices: &mut Vec<Corner>,
    indices: &mut Vec<u32>,
)
    requires
        m.wf(),
        cell < m.cells(),
        holds(*m, found@, m.cells(), 0),
        old(vertices)@.len() + cell_corners(*m, cell).len() <= u32::MAX,
    ensures
        final(vertices)@ == old(vertices)@ + cell_corners(*m, cell),
        final(indices)@ == old(indices)@ + fan(
            old(vertices)@.len() as int,
            m.count(cell as int),
        ),
{
    let ghost v0 = vertices@;
    let ghost i0 = indices@;
    let d = m.n_corners(cell as usize);
    if d < 3 {
        assert(vertices@ =~= v0 + cell_corners(*m, cell));
        assert(indices@ =~= i0 + fan(v0.len() as int, d as int));
        return;
    }
    let ghost add = cell_corners(*m, cell);
    let base: usize = vertices.len();
    let mut k: usize = 0;
    assert(vertices@ =~= v0 + add.take(0));
    while k < d
        invariant
            m.wf(),
            cell < m.cells(),
            d == m.count(cell as int),
            d >= 3,
            add == cell_corners(*m, cell),
            holds(*m, found@, m.cells(), 0),
            k <= d,
            vertices@ == v0 + add.take(k as int),
        decreases d - k,
    {
        vertices.push(corner_of(m, found, cell, k));
        k = k + 1;
        assert(vertices@ =~= v0 + add.take(k as int));
    }
    assert(add.take(d as int) =~= add);
    let mut i: usize = 2;
    assert(indices@ =~= i0 + fan(base as int, 2));
    while i < d
        invariant
            2 <= i <= d,
            base + d <= u32::MAX,
            indices@ == i0 + fan(base as int, i as int),
        decreases d - i,
    {
        indices.push(base as u32);
        indices.push((base + i - 1) as u32);
        indices.push((base + i) as u32);
        i = i + 1;
        assert(indices@ =~= i0 + fan(base as int, i as int));
    }
}

/// Builds the geometry of all chunks.
pub fn build_geometry(m: &CornerLists, chunks: &Vec<Vec<u32>>) -> (g: Geometry)
    requires
        m.wf(),
        chunks_name_cells(*m, chunks@),
        fits(*m, chunks@),
    ensures
        g.vertices@ == all_corners(*m, chunks@, chunks@.len() as int),
        g.indices@ == all_indices(*m, chunks@, chunks@.len() as int),
        g.ranges@.len() == chunks@.len(),
        forall|j: int|
            0 <= j < chunks@.len() ==> #[trigger] g.ranges@[j] == range_of(*m, chunks@, j),
{
    let found = cells_at_vertices(m);
    let mut vertices: Vec<Corner> = Vec::new();
    let mut indices: Vec<u32> = Vec::new();
    let mut ranges: Vec<ChunkRange> = Vec::new();
    let mut j: usize = 0;
    while j < chunks.len()
        invariant
            m.wf(),
            chunks_name_cells(*m, chunks@),
            fits(*m, chunks@),
            holds(*m, found@, m.cells(), 0),
            j <= chunks@.len(),
            vertices@ == all_corners(*m, chunks@, j as int),
            indices@ == all_indices(*m, chunks@, j as int),
            ranges@.len() == j,
            forall|i: int| 0 <= i < j ==> #[trigger] ranges@[i] == range_of(*m, chunks@, i),
        decreases chunks@.len() - j,
    {
        proof {
            lemma_all_grow(*m, chunks@, j as int, chunks@.len() as int);
            lemma_all_grow(*m, chunks@, j + 1, chunks@.len() as int);
        }
        let first: usize = indices.len();
        draw_chunk(m, &found, &chunks[j], &mut vertices, &mut indices);
        ranges.push(
            ChunkRange {
                first_index: first as u32,
                index_count: (indices.len() - first) as u32,
            },
        );
        j = j + 1;
    }
    Geometry { vertices, indices, ranges }
}

/// Appends the corners and the triangles of a chunk.
fn draw_chunk(
    m: &CornerLists,
    found: &Vec<[u32; 3]>,
    cells: &Vec<u32>,
    vertices: &mut Vec<Corner>,
    indices: &mut Vec<u32>,
)
    requires
        m.wf(),
        holds(*m, found@, m.cells(), 0),
        forall|i: int| 0 <= i < cells@.len() ==> #[trigger] cells@[i] < m.cells(),
        old(vertices)@.len() + chunk_corners(*m, cells@, cells@.len() as int).len() <= u32::MAX,
    ensures
        final(vertices)@ == old(vertices)@ + chunk_corners(*m, cells@, cells@.len() as int),
        final(indices)@ == old(indices)@ + chunk_indices(
            *m,
            cells@,
            cells@.len() as int,
            old(vertices)@.len() as int,
        ),
{
    let ghost v0 = vertices@;
    let ghost i0 = indices@;
    let mut i: usize = 0;
    assert(vertices@ =~= v0 + chunk_corners(*m, cells@, 0));
    assert(indices@ =~= i0 + chunk_indices(*m, cells@, 0, v0.len() as int));
    while i < cells.len()
        invariant
            m.wf(),
            holds(*m, found@, m.cells(), 0),
            forall|k: int| 0 <= k < cells@.len() ==> #[trigger] cells@[k] < m.cells(),
            v0.len() + chunk_corners(*m, cells@, cells@.len() as int).len() <= u32::MAX,
            i <= cells@.len(),
            vertices@ == v0 + chunk_corners(*m, cells@, i as int),
            indices@ == i0 + chunk_indices(*m, cells@, i as int, v0.len() as int),
        decreases cells@.len() - i,
    {
        proof {
            lemma_chunk_grows(*m, cells@, v0.len() as int, i + 1, cells@.len() as int);
        }
        draw_cell(m, found, cells[i], vertices, indices);
        i = i + 1;
        assert(vertices@ =~= v0 + chunk_corners(*m, cells@, i as int));
        assert(indices@ =~= i0 + chunk_indices(*m, cells@, i as int, v0.len() as int));
    }
}

/// Statistics of a recorded frame.
#[derive(Debug, Clone, Copy, PartialEq, Eq, Structural)]
pub struct DrawStats {
    pub chunks_total: usize,
    pub chunks_drawn: usize,
    pub triangles_drawn: usize,
}

impl Default for DrawStats {
    fn default() -> (s: DrawStats)
        ensures
            s == (DrawStats { chunks_total: 0, chunks_drawn: 0, triangles_drawn: 0 }),
    {
        DrawStats { chunks_total: 0, chunks_drawn: 0, triangles_drawn: 0 }
    }
}

/// Chunk `i` is drawn: it has triangles, and is in view where chunks are culled.
pub open spec fn is_drawn(ranges: Seq<ChunkRange>, cull: bool, visible: Seq<bool>, i: int) -> bool {
    ranges[i].index_count != 0 && (!cull || visible[i])
}

/// The chunks drawn among the first `i`.
pub open spec fn drawn_among(
    ranges: Seq<ChunkRange>,
    cull: bool,
    visible: Seq<bool>,
    i: int,
) -> Seq<usize>
    decreases i,
{
    if i <= 0 {
        Seq::empty()
    } else if is_drawn(ranges, cull, visible, i - 1) {
        drawn_among(ranges, cull, visible, i - 1).push((i - 1) as usize)
    } else {
        drawn_among(ranges, cull, visible, i - 1)
    }
}

/// The triangles drawn among the first `i` chunks.
pub open spec fn triangles_among(
    ranges: Seq<ChunkRange>,
    cull: bool,
    visible: Seq<bool>,
    i: int,
) -> nat
    decreases i,
{
    if i <= 0 {
        0
    } else if is_drawn(ranges, cull, visible, i - 1) {
        triangles_among(ranges, cull, visible, i - 1) + ranges[i - 1].index_count as nat / 3
    } else {
        triangles_among(ranges, cull, visible, i - 1)
    }
}

/// The triangles of the first `i` chunks.
pub open spec fn triangles_in(ranges: Seq<ChunkRange>, i: int) -> nat
    decreases i,
{
    if i <= 0 {
        0
    } else {
        triangles_in(ranges, i - 1) + ranges[i - 1].index_count as nat / 3
    }
}

/// No more triangles are drawn than there are.
proof fn lemma_drawn_bound(ranges: Seq<ChunkRange>, cull: bool, visible: Seq<bool>, i: int, n: int)
    requires
        0 <= i <= n,
    ensures
        triangles_among(ranges, cull, visible, i) <= triangles_in(ranges, n),
    decreases n,
{
    if i < n {
        lemma_drawn_bound(ranges, cull, visible, i, n - 1);
    } else if n > 0 {
        lemma_drawn_bound(ranges, cull, visible, i - 1, n - 1);
    }
}

/// The chunks to draw, in order, and the statistics of the frame.
pub fn draw_plan(ranges: &Vec<ChunkRange>, cull: bool, visible: &Vec<bool>) -> (r: (
    Vec<usize>,
    DrawStats,
))
    requires
        cull ==> visible@.len() == ranges@.len(),
        triangles_in(ranges@, ranges@.len() as int) <= usize::MAX,
    ensures
        r.0@ == drawn_among(ranges@, cull, visible@, ranges@.len() as int),
        r.1.chunks_total == ranges@.len(),
        r.1.chunks_drawn == r.0@.len(),
        r.1.triangles_drawn == triangles_among(ranges@, cull, visible@, ranges@.len() as int),
{
    let mut drawn: Vec<usize> = Vec::new();
    let mut triangles: usize = 0;
    let mut i: usize = 0;
    while i < ranges.len()
        invariant
            cull ==> visible@.len() == ranges@.len(),
            triangles_in(ranges@, ranges@.len() as int) <= usize::MAX,
            i <= ranges@.len(),
            drawn@ == drawn_among(ranges@, cull, visible@, i as int),
            triangles == triangles_among(ranges@, cull, visible@, i as int),
        decreases ranges@.len() - i,
    {
        let count = ranges[i].index_count;
        if count != 0 && (!cull || visible[i]) {
            proof {
                lemma_drawn_bound(ranges@, cull, visible@, i + 1, ranges@.len() as int);
            }
            drawn.push(i);
            triangles = triangles + count as usize / 3;
        }
        i = i + 1;
    }
    let stats = DrawStats {
        chunks_total: ranges.len(),
        chunks_drawn: drawn.len(),
        triangles_drawn: triangles,
    };
    (drawn, stats)
}

/// Triangles are whole, name corners that there are, and each stays within one cell.
pub open spec fn sound(indices: Seq<u32>, vertices: Seq<Corner>) -> bool {
    &&& indices.len() % 3 == 0
    &&& forall|t: int|
        #![trigger indices[3 * t]]
        0 <= t && 3 * t < indices.len() ==> {
            &&& indices[3 * t] < vertices.len()
            &&& indices[3 * t + 1] < vertices.len()
            &&& indices[3 * t + 2] < vertices.len()
            &&& vertices[indices[3 * t] as int].owner == vertices[indices[3 * t + 1] as int].owner
            &&& vertices[indices[3 * t] as int].owner == vertices[indices[3 * t + 2] as int].owner
        }
}

/// A fan joins corners of one cell.
proof fn lemma_fan_sound(
    indices: Seq<u32>,
    vertices: Seq<Corner>,
    base: int,
    d: int,
    cell: u32,
)
    requires
        sound(indices, vertices),
        0 <= base,
        base + d <= vertices.len() <= u32::MAX,
        forall|k: int| base <= k < base + d ==> (#[trigger] vertices[k]).owner == cell,
    ensures
        sound(indices + fan(base, d), vertices),
    decreases d,
{
    if d < 3 {
        assert(indices + fan(base, d) =~= indices);
    } else {
        lemma_fan_sound(indices, vertices, base, d - 1, cell);
        let a = indices + fan(base, d - 1);
        let b = indices + fan(base, d);
        let last = seq![base as u32, (base + d - 2) as u32, (base + d - 1) as u32];
        assert(b =~= a + last);
        assert forall|t: int| #![trigger b[3 * t]] 0 <= t && 3 * t < b.len() implies {
            &&& b[3 * t] < vertices.len()
            &&& b[3 * t + 1] < vertices.len()
            &&& b[3 * t + 2] < vertices.len()
            &&& vertices[b[3 * t] as int].owner == vertices[b[3 * t + 1] as int].owner
            &&& vertices[b[3 * t] as int].owner == vertices[b[3 * t + 2] as int].owner
        } by {
            if 3 * t < a.len() {
                assert(b[3 * t] == a[3 * t]);
                assert(b[3 * t + 1] == a[3 * t + 1]);
                assert(b[3 * t + 2] == a[3 * t + 2]);
            } else {
                assert(3 * t == a.len());
                assert(b[3 * t] == last[0] && b[3 * t + 1] == last[1] && b[3 * t + 2] == last[2]);
                assert(vertices[base].owner == cell);
                assert(vertices[base + d - 2].owner == cell);
                assert(vertices[base + d - 1].owner == cell);
            }
        }
    }
}

/// More corners do not spoil triangles.
proof fn lemma_sound_grows(indices: Seq<u32>, vertices: Seq<Corner>, more: Seq<Corner>)
    requires
        sound(indices, vertices),
    ensures
        sound(indices, vertices + more),
{
    let all = vertices + more;
    assert forall|t: int| #![trigger indices[3 * t]] 0 <= t && 3 * t < indices.len() implies {
        &&& indices[3 * t] < all.len()
        &&& indices[3 * t + 1] < all.len()
        &&& indices[3 * t + 2] < all.len()
        &&& all[indices[3 * t] as int].owner == all[indices[3 * t + 1] as int].owner
        &&& all[indices[3 * t] as int].owner == all[indices[3 * t + 2] as int].owner
    } by {
        assert(indices[3 * t] < vertices.len());
        assert(all[indices[3 * t] as int] == vertices[indices[3 * t] as int]);
        assert(all[indices[3 * t + 1] as int] == vertices[indices[3 * t + 1] as int]);
        assert(all[indices[3 * t + 2] as int] == vertices[indices[3 * t + 2] as int]);
    }
}

/// The triangles of a chunk are sound.
proof fn lemma_chunk_sound(
    m: CornerLists,
    cells: Seq<u32>,
    i: int,
    indices: Seq<u32>,
    vertices: Seq<Corner>,
)
    requires
        sound(indices, vertices),
        0 <= i <= cells.len(),
        vertices.len() + chunk_corners(m, cells, i).len() <= u32::MAX,
    ensures
        sound(
            indices + chunk_indices(m, cells, i, vertices.len() as int),
            vertices + chunk_corners(m, cells, i),
        ),
    decreases i,
{
    if i <= 0 {
        assert(indices + chunk_indices(m, cells, i, vertices.len() as int) =~= indices);
        assert(vertices + chunk_corners(m, cells, i) =~= vertices);
    } else {
        lemma_chunk_sound(m, cells, i - 1, indices, vertices);
        let idx = indices + chunk_indices(m, cells, i - 1, vertices.len() as int);
        let ver = vertices + chunk_corners(m, cells, i - 1);
        let cell = cells[i - 1];
        let d = m.count(cell as int);
        let more = cell_corners(m, cell);
        lemma_sound_grows(idx, ver, more);
        let all = ver + more;
        if d >= 3 {
            assert forall|k: int| ver.len() <= k < ver.len() + d implies (
            #[trigger] all[k]).owner == cell by {
                assert(all[k] == more[k - ver.len()]);
            }
            lemma_fan_sound(idx, all, ver.len() as int, d, cell);
        } else {
            assert(idx + fan(ver.len() as int, d) =~= idx);
        }
        assert(vertices + chunk_corners(m, cells, i) =~= all);
        assert(indices + chunk_indices(m, cells, i, vertices.len() as int) =~= idx + fan(
            ver.len() as int,
            d,
        ));
    }
}

/// The triangles of the first `j` chunks are sound.
proof fn lemma_all_sound(m: CornerLists, chunks: Seq<Vec<u32>>, j: int)
    requires
        fits(m, chunks),
        0 <= j <= chunks.len(),
    ensures
        sound(all_indices(m, chunks, j), all_corners(m, chunks, j)),
    decreases j,
{
    if j > 0 {
        lemma_all_grow(m, chunks, j, chunks.len() as int);
        lemma_all_sound(m, chunks, j - 1);
        lemma_chunk_sound(
            m,
            chunks[j - 1]@,
            chunks[j - 1]@.len() as int,
            all_indices(m, chunks, j - 1),
            all_corners(m, chunks, j - 1),
        );
    }
}

/// Every triangle of the globe joins three corners of one cell.
pub proof fn triangles_stay_within_their_cell(m: CornerLists, chunks: Seq<Vec<u32>>)
    requires
        fits(m, chunks),
    ensures
        sound(
            all_indices(m, chunks, chunks.len() as int),
            all_corners(m, chunks, chunks.len() as int),
        ),
{
    lemma_all_sound(m, chunks, chunks.len() as int);
}

/// The ranges of the chunks follow each other without gap or overlap, in whole triangles, and
/// the last ends where the triangles end.
pub proof fn chunks_share_out_the_triangles(m: CornerLists, chunks: Seq<Vec<u32>>, j: int)
    requires
        fits(m, chunks),
        0 <= j < chunks.len(),
    ensures
        range_of(m, chunks, 0).first_index == 0,
        range_of(m, chunks, j).index_count % 3 == 0,
        j + 1 < chunks.len() ==> range_of(m, chunks, j + 1).first_index == range_of(
            m,
            chunks,
            j,
        ).first_index + range_of(m, chunks, j).index_count,
        j + 1 == chunks.len() ==> all_indices(m, chunks, chunks.len() as int).len() == range_of(
            m,
            chunks,
            j,
        ).first_index + range_of(m, chunks, j).index_count,
{
    lemma_all_grow(m, chunks, j, j + 1);
    lemma_all_grow(m, chunks, j + 1, chunks.len() as int);
    lemma_all_sound(m, chunks, j);
    lemma_all_sound(m, chunks, j + 1);
}

/// A fan over `d` corners has two triangles fewer than corners, which share its first corner and
/// go round over the others in turn.
pub proof fn a_fan_goes_round_its_cell(base: int, d: int, t: int)
    requires
        0 <= base,
        3 <= d,
        base + d <= u32::MAX,
        0 <= t < d - 2,
    ensures
        fan(base, d).len() == 3 * (d - 2),
        fan(base, d)[3 * t] == base,
        fan(base, d)[3 * t + 1] == base + t + 1,
        fan(base, d)[3 * t + 2] == base + t + 2,
    decreases d,
{
    let was = fan(base, d - 1);
    if d > 3 {
        a_fan_goes_round_its_cell(
            base,
            d - 1,
            if t < d - 3 {
                t
            } else {
                0
            },
        );
    } else {
        assert(was =~= Seq::<u32>::empty());
    }
    assert(was.len() == 3 * (d - 3));
    if t < d - 3 {
        assert(fan(base, d)[3 * t] == was[3 * t]);
        assert(fan(base, d)[3 * t + 1] == was[3 * t + 1]);
        assert(fan(base, d)[3 * t + 2] == was[3 * t + 2]);
    }
}

/// Whether all the corners of `cell` stand in `drawn` from `at` on, in order.
pub open spec fn holds_cell(m: CornerLists, drawn: Seq<Corner>, cell: u32, at: int) -> bool {
    &&& 0 <= at
    &&& at + m.count(cell as int) <= drawn.len()
    &&& forall|j: int|
        at <= j < at + m.count(cell as int) ==> (#[trigger] drawn[j]).owner == cell
            && drawn[j].vertex == m.corner(cell as int, j - at)
}

/// Every cell that spans a triangle is drawn with all of its corners, in order; one that does not
/// is not drawn.
pub proof fn every_cell_is_drawn(m: CornerLists, cells: Seq<u32>, n: int, i: int)
    requires
        0 <= i < n <= cells.len(),
    ensures
        m.count(cells[i] as int) >= 3 ==> exists|at: int| #[trigger]
            holds_cell(m, chunk_corners(m, cells, n), cells[i], at),
        forall|j: int|
            0 <= j < chunk_corners(m, cells, n).len() ==> m.count(
                (#[trigger] chunk_corners(m, cells, n)[j]).owner as int,
            ) >= 3,
    decreases n,
{
    let was = chunk_corners(m, cells, n - 1);
    let now = chunk_corners(m, cells, n);
    let d = m.count(cells[i] as int);
    if n - 1 > 0 {
        let h = if i < n - 1 {
            i
        } else {
            0
        };
        every_cell_is_drawn(m, cells, n - 1, h);
    }
    if d >= 3 {
        if i < n - 1 {
            let at = choose|at: int| #[trigger] holds_cell(m, was, cells[i], at);
            assert forall|j: int| at <= j < at + d implies (#[trigger] now[j]).owner == cells[i]
                && now[j].vertex == m.corner(cells[i] as int, j - at) by {
                assert(now[j] == was[j]);
            }
            assert(holds_cell(m, now, cells[i], at));
        } else {
            let at = was.len() as int;
            assert forall|j: int| at <= j < at + d implies (#[trigger] now[j]).owner == cells[i]
                && now[j].vertex == m.corner(cells[i] as int, j - at) by {
                assert(now[j] == drawn_corner(m, cells[i], j - at));
            }
            assert(holds_cell(m, now, cells[i], at));
        }
    }
    assert forall|j: int| 0 <= j < now.len() implies m.count((#[trigger] now[j]).owner as int)
        >= 3 by {
        if j < was.len() {
            assert(now[j] == was[j]);
        } else {
            assert(now[j] == drawn_corner(m, cells[n - 1], j - was.len()));
        }
    }
}

/// A chunk has as many triangles as the fans of its cells.
pub open spec fn fans_of(m: CornerLists, cells: Seq<u32>, n: int) -> int
    decreases n,
{
    if n <= 0 {
        0
    } else {
        fans_of(m, cells, n - 1) + if m.count(cells[n - 1] as int) >= 3 {
            m.count(cells[n - 1] as int) - 2
        } else {
            0
        }
    }
}

/// No triangle of a cell is left out and none is drawn twice: a chunk has three indices for each
/// triangle of each of its fans, and no more.
pub proof fn every_fan_is_drawn_once(m: CornerLists, cells: Seq<u32>, n: int, base: int)
    requires
        0 <= n <= cells.len(),
        0 <= base,
        base + chunk_corners(m, cells, n).len() <= u32::MAX,
    ensures
        chunk_indices(m, cells, n, base).len() == 3 * fans_of(m, cells, n),
    decreases n,
{
    if n > 0 {
        every_fan_is_drawn_once(m, cells, n - 1, base);
        let d = m.count(cells[n - 1] as int);
        if d >= 3 {
            a_fan_goes_round_its_cell(base + chunk_corners(m, cells, n - 1).len(), d, 0);
        }
    }
}

/// What is noted of a vertex: cells that have it as a corner, and of those that do the first
/// three entries. A cell that is left out comes behind all that are noted.
proof fn lemma_touching_exact(m: CornerLists, v: int, c: int, k: int)
    requires
        m.wf(),
        0 <= c <= m.cells(),
        c == m.cells() ==> k == 0,
        c < m.cells() ==> 0 <= k <= m.count(c),
    ensures
        ({
            let t = touching(m, v, c, k);
            &&& t.len() <= 3
            &&& forall|i: int|
                0 <= i < t.len() ==> (#[trigger] t[i]) <= c && t[i] < m.cells() && exists|j: int|
                    0 <= j < m.count(t[i] as int) && #[trigger] m.corner(t[i] as int, j) == v
            &&& forall|x: int, j: int|
                0 <= x < m.cells() && (x < c || (x == c && j < k)) && 0 <= j < m.count(x)
                    && #[trigger] m.corner(x, j) == v ==> t.contains(x as u32) || (t.len() == 3
                    && forall|i: int| 0 <= i < 3 ==> (#[trigger] t[i]) <= x)
        }),
    decreases c, k,
{
    let t = touching(m, v, c, k);
    if k > 0 {
        lemma_touching_exact(m, v, c, k - 1);
        let was = touching(m, v, c, k - 1);
        if m.corner(c, k - 1) == v && was.len() < 3 {
            assert(t[was.len() as int] == c as u32);
        }
        assert forall|i: int| 0 <= i < t.len() implies (#[trigger] t[i]) <= c && t[i] < m.cells()
            && exists|j: int|
            0 <= j < m.count(t[i] as int) && #[trigger] m.corner(t[i] as int, j) == v by {
            if i < was.len() {
                assert(t[i] == was[i]);
            } else {
                assert(m.corner(t[i] as int, k - 1) == v);
            }
        }
        assert forall|x: int, j: int|
            0 <= x < m.cells() && (x < c || (x == c && j < k)) && 0 <= j < m.count(x)
                && #[trigger] m.corner(x, j) == v implies t.contains(x as u32) || (t.len() == 3
            && forall|i: int| 0 <= i < 3 ==> (#[trigger] t[i]) <= x) by {
            if x == c && j == k - 1 {
                if was.len() >= 3 {
                    assert forall|i: int| 0 <= i < 3 implies (#[trigger] t[i]) <= x by {
                        assert(t[i] == was[i]);
                    }
                }
            } else if was.contains(x as u32) {
                let i = choose|i: int| 0 <= i < was.len() && was[i] == x as u32;
                assert(t[i] == x as u32);
            } else {
                assert forall|i: int| 0 <= i < 3 implies (#[trigger] t[i]) <= x by {
                    assert(t[i] == was[i]);
                }
            }
        }
    } else if c > 0 {
        assert(m.offsets@[c - 1] <= m.offsets@[c]);
        lemma_touching_exact(m, v, c - 1, m.count(c - 1));
        assert(t == touching(m, v, c - 1, m.count(c - 1)));
    }
}

proof fn lemma_others(cell: u32, t: Seq<u32>, n: int)
    requires
        0 <= n <= t.len(),
    ensures
        ({
            let o = others(cell, t, n);
            &&& o.len() <= 2
            &&& forall|i: int| 0 <= i < o.len() ==> (#[trigger] o[i]) != cell && t.contains(o[i])
            &&& forall|j: int|
                0 <= j < n && (#[trigger] t[j]) != cell ==> o.contains(t[j]) || o.len() == 2
        }),
    decreases n,
{
    if n > 0 {
        lemma_others(cell, t, n - 1);
        let was = others(cell, t, n - 1);
        let o = others(cell, t, n);
        assert(t.contains(t[n - 1]));
        assert forall|i: int| 0 <= i < o.len() implies (#[trigger] o[i]) != cell && t.contains(
            o[i],
        ) by {
            if i < was.len() {
                assert(o[i] == was[i]);
            }
        }
        assert forall|j: int| 0 <= j < n && (#[trigger] t[j]) != cell implies o.contains(t[j])
            || o.len() == 2 by {
            if j < n - 1 {
                if was.contains(t[j]) {
                    let i = choose|i: int| 0 <= i < was.len() && was[i] == t[j];
                    assert(o[i] == t[j]);
                }
            } else if was.len() < 2 {
                assert(o[was.len() as int] == t[j]);
            }
        }
    }
}

/// A drawn corner names cells that meet in it: the second and the third have its vertex as a
/// corner too, unless they repeat the owner; and the second repeats the owner only where every
/// cell noted at the vertex is the owner.
pub proof fn corners_name_cells_that_meet(m: CornerLists, cell: u32, k: int, x: int, j: int)
    requires
        m.wf(),
        cell < m.cells(),
        0 <= k < m.count(cell as int),
        0 <= x < m.cells(),
        0 <= j < m.count(x),
    ensures
        ({
            let r = drawn_corner(m, cell, k);
            let v = m.corner(cell as int, k);
            &&& r.vertex == v
            &&& r.owner == cell
            &&& r.second != cell ==> exists|i: int|
                0 <= i < m.count(r.second as int) && #[trigger] m.corner(r.second as int, i) == v
            &&& r.third != cell ==> r.second != cell && exists|i: int|
                0 <= i < m.count(r.third as int) && #[trigger] m.corner(r.third as int, i) == v
            &&& m.corner(x, j) == v && x != cell && touching(m, v, m.cells(), 0).len() < 3 ==> r.second
                == x || r.third == x || (r.second != cell && r.third != cell)
        }),
{
    let v = m.corner(cell as int, k);
    let t = touching(m, v, m.cells(), 0);
    let o = others(cell, t, t.len() as int);
    lemma_touching_exact(m, v, m.cells(), 0);
    lemma_others(cell, t, t.len() as int);
    assert(m.offsets@[cell as int + 1] <= m.offsets@[m.cells()]);
    if o.len() > 0 {
        assert(t.contains(o[0]));
        let i = choose|i: int| 0 <= i < t.len() && t[i] == o[0];
        assert(t[i] < m.cells());
    }
    if o.len() > 1 {
        assert(t.contains(o[1]));
        let i = choose|i: int| 0 <= i < t.len() && t[i] == o[1];
        assert(t[i] < m.cells());
    }
    if m.corner(x, j) == v && x != cell && t.len() < 3 {
        assert(t.contains(x as u32));
        let i = choose|i: int| 0 <= i < t.len() && t[i] == x as u32;
        assert(t[i] != cell);
        if o.contains(t[i]) {
            let q = choose|q: int| 0 <= q < o.len() && o[q] == t[i];
            assert(q == 0 || q == 1);
        }
    }
}

/// A chunk is drawn exactly where it has triangles and is not out of view; chunks are drawn in
/// order, each once; without culling none is left out for being out of view.
pub proof fn chunks_in_view_are_drawn(
    ranges: Seq<ChunkRange>,
    cull: bool,
    visible: Seq<bool>,
    n: int,
)
    requires
        0 <= n <= ranges.len() <= usize::MAX,
    ensures
        forall|i: int|
            0 <= i < n ==> (drawn_among(ranges, cull, visible, n).contains(#[trigger] (i as usize))
                <==> ranges[i].index_count > 0 && (cull ==> visible[i])),
        forall|j: int|
            0 <= j < drawn_among(ranges, cull, visible, n).len() ==> (#[trigger] drawn_among(
                ranges,
                cull,
                visible,
                n,
            )[j]) < n,
        forall|i: int, j: int|
            0 <= i < j < drawn_among(ranges, cull, visible, n).len() ==> (#[trigger] drawn_among(
                ranges,
                cull,
                visible,
                n,
            )[i]) < (#[trigger] drawn_among(ranges, cull, visible, n)[j]),
    decreases n,
{
    if n > 0 {
        chunks_in_view_are_drawn(ranges, cull, visible, n - 1);
        let was = drawn_among(ranges, cull, visible, n - 1);
        let now = drawn_among(ranges, cull, visible, n);
        assert forall|i: int| 0 <= i < n implies (now.contains(#[trigger] (i as usize))
            <==> ranges[i].index_count > 0 && (cull ==> visible[i])) by {
            if i < n - 1 {
                assert(was.contains(i as usize) <==> ranges[i].index_count > 0 && (cull
                    ==> visible[i]));
                if was.contains(i as usize) {
                    let j = choose|j: int| 0 <= j < was.len() && was[j] == i as usize;
                    assert(now[j] == i as usize);
                }
                if now.contains(i as usize) {
                    let j = choose|j: int| 0 <= j < now.len() && now[j] == i as usize;
                    assert(j < was.len());
                    assert(was[j] == i as usize);
                }
            } else {
                if is_drawn(ranges, cull, visible, i) {
                    assert(now[now.len() - 1] == i as usize);
                } else if now.contains(i as usize) {
                    let j = choose|j: int| 0 <= j < now.len() && now[j] == i as usize;
                    assert(was[j] < n - 1);
                }
            }
        }
        assert forall|j: int| 0 <= j < now.len() implies (#[trigger] now[j]) < n by {
            if j < was.len() {
                assert(was[j] < n - 1);
            }
        }
        assert forall|i: int, j: int| 0 <= i < j < now.len() implies (#[trigger] now[i]) < (
        #[trigger] now[j]) by {
            assert(now[i] == was[i] && was[i] < n - 1);
            if j < was.len() {
                assert(now[j] == was[j]);
            }
        }
    }
}

/// Without culling every triangle there is counts as drawn.
pub proof fn all_triangles_count_without_culling(
    ranges: Seq<ChunkRange>,
    visible: Seq<bool>,
    n: int,
)
    requires
        0 <= n <= ranges.len(),
    ensures
        triangles_among(ranges, false, visible, n) == triangles_in(ranges, n),
        n > 0 ==> triangles_in(ranges, n) - triangles_in(ranges, n - 1) == ranges[n
            - 1].index_count as int / 3,
    decreases n,
{
    if n > 0 {
        all_triangles_count_without_culling(ranges, visible, n - 1);
    }
}

} // verus!
