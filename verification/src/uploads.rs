//! Cell data, cloud coverage and river ribbons on their way to the graphics device.
//!
//! Every frame in flight has its own copy, so a change is due once for each of them.

use vstd::prelude::*;
use crate::half::{half_of, pack_bytes, pack_half2, pack_material, two_to, unorm_of};
use crate::view::{surface_code, SurfaceKind};

verus! {

/// Frames in flight.
pub const FRAMES_IN_FLIGHT: usize = 2;

/// Bytes of one river vertex: position, elevation, colour.
pub const RIVER_VERTEX_BYTES: u64 = 32;

/// Fewest bytes that a buffer is made with.
pub const MIN_BUFFER_BYTES: u64 = 4;

/// Shading of a cell in the lit view. Gradients, depth and ice are the bits of floats.
#[derive(Debug, Clone, Copy, PartialEq, Eq, Structural)]
pub struct CellShade {
    pub grad_east: u32,
    pub grad_north: u32,
    pub kind: SurfaceKind,
    /// Place on the depth ramp, from the shore to the abyss.
    pub depth_t: u32,
    /// Share of the cell that ice covers.
    pub ice_t: u32,
}

/// What shaders read of a cell.
#[derive(Debug, Clone, Copy, PartialEq, Eq, Structural)]
pub struct CellRecord {
    /// Bits of the elevation.
    pub elevation: u32,
    /// Red, green, blue, alpha, lowest byte first.
    pub color: u32,
    /// Two halves: slope to the east and to the north.
    pub gradient: u32,
    /// Surface, depth, ice, lowest byte first.
    pub material: u32,
}

/// A cell about which nothing is known yet.
pub open spec fn blank() -> CellRecord {
    CellRecord { elevation: 0, color: 0, gradient: 0, material: 0 }
}

/// The record of a cell.
pub open spec fn record_of(elevation: u32, c: Seq<u8>, shade: Option<CellShade>) -> CellRecord {
    CellRecord {
        elevation,
        color: (c[0] + 0x100 * c[1] + 0x1_0000 * c[2] + 0x100_0000 * c[3]) as u32,
        gradient: match shade {
            Some(s) => (half_of(s.grad_east) + 0x1_0000 * half_of(s.grad_north)) as u32,
            None => 0,
        },
        material: match shade {
            Some(s) => (surface_code(s.kind) + 0x100 * unorm_of(s.depth_t) + 0x1_0000 * unorm_of(
                s.ice_t,
            )) as u32,
            None => 0,
        },
    }
}

/// Why an update was refused.
#[derive(Debug, Clone, Copy, PartialEq, Eq, Structural)]
pub enum UpdateError {
    /// Elevations or colours are not one per cell.
    Cells { expected: usize, elevations: usize, colours: usize },
    /// Shading is not one record per cell.
    Shades { expected: usize, got: usize },
    /// Coverage is not one value per vertex of the cloud shell.
    Coverage { expected: usize, got: usize },
}

/// What has to be copied for a frame.
#[derive(Debug, Clone, Copy, PartialEq, Eq, Structural)]
pub struct Copies {
    pub cells: bool,
    pub coverage: bool,
}

/// Data that waits for the device, and which frames have not had it yet.
pub struct Uploads {
    pub n_cells: usize,
    pub pending: Vec<CellRecord>,
    pub dirty: [bool; 2],
    /// There are buffers for cells.
    pub buffered: bool,
    /// Bits of the coverage at each vertex of the cloud shell.
    pub coverage: Vec<u32>,
    pub coverage_dirty: [bool; 2],
}

/// A flag for each frame, with that of `frame` taken down.
pub open spec fn lowered(flags: Seq<bool>, frame: int) -> Seq<bool> {
    flags.update(frame, false)
}

/// Takes down the flag of a frame.
fn lower(flags: [bool; 2], frame: usize) -> (r: [bool; 2])
    requires
        frame < FRAMES_IN_FLIGHT,
    ensures
        r@ == lowered(flags@, frame as int),
{
    let r: [bool; 2] = if frame == 0 {
        [false, flags[1]]
    } else {
        [flags[0], false]
    };
    assert(r@ =~= lowered(flags@, frame as int));
    r
}

/// Every frame is due.
pub open spec fn all_due(flags: Seq<bool>) -> bool {
    flags == seq![true, true]
}

/// A flag for each frame, all up.
fn all_up() -> (r: [bool; 2])
    ensures
        all_due(r@),
{
    let r: [bool; 2] = [true, true];
    assert(r@ =~= seq![true, true]);
    r
}

impl Uploads {
    /// One record per cell.
    pub open spec fn wf(&self) -> bool {
        self.pending@.len() == self.n_cells
    }

    /// No cells yet, and a clear sky over a shell of `shell` vertices.
    pub fn new(shell: usize) -> (u: Uploads)
        ensures
            u.wf(),
            u.n_cells == 0,
            !u.buffered,
            u.dirty@ == seq![false, false],
            u.coverage@ == Seq::new(shell as nat, |i: int| 0u32),
            all_due(u.coverage_dirty@),
    {
        let mut coverage: Vec<u32> = Vec::new();
        let mut i: usize = 0;
        while i < shell
            invariant
                i <= shell,
                coverage@ == Seq::new(i as nat, |k: int| 0u32),
            decreases shell - i,
        {
            coverage.push(0);
            i = i + 1;
            assert(coverage@ =~= Seq::new(i as nat, |k: int| 0u32));
        }
        let dirty: [bool; 2] = [false, false];
        assert(dirty@ =~= seq![false, false]);
        Uploads {
            n_cells: 0,
            pending: Vec::new(),
            dirty,
            buffered: false,
            coverage,
            coverage_dirty: all_up(),
        }
    }

    /// The geometry of the cells has been given up.
    pub fn cleared(&mut self)
        ensures
            final(self).wf(),
            final(self).n_cells == 0,
            !final(self).buffered,
            final(self).dirty == old(self).dirty,
            final(self).coverage == old(self).coverage,
            final(self).coverage_dirty == old(self).coverage_dirty,
    {
        self.n_cells = 0;
        self.pending = Vec::new();
        self.buffered = false;
    }

    /// The geometry of `n_cells` cells has been uploaded: blank records for all frames.
    pub fn uploaded(&mut self, n_cells: usize)
        ensures
            final(self).wf(),
            final(self).n_cells == n_cells,
            final(self).buffered,
            final(self).pending@ == Seq::new(n_cells as nat, |i: int| blank()),
            all_due(final(self).dirty@),
            final(self).coverage == old(self).coverage,
            final(self).coverage_dirty == old(self).coverage_dirty,
    {
        let mut pending: Vec<CellRecord> = Vec::new();
        let mut i: usize = 0;
        while i < n_cells
            invariant
                i <= n_cells,
                pending@ == Seq::new(i as nat, |k: int| blank()),
            decreases n_cells - i,
        {
            pending.push(CellRecord { elevation: 0, color: 0, gradient: 0, material: 0 });
            i = i + 1;
            assert(pending@ =~= Seq::new(i as nat, |k: int| blank()));
        }
        self.n_cells = n_cells;
        self.pending = pending;
        self.buffered = true;
        self.dirty = all_up();
    }

    /// What an update with these sizes is refused for.
    pub open spec fn refusal(
        &self,
        elevations: nat,
        colours: nat,
        shades: Option<nat>,
    ) -> Option<UpdateError> {
        if self.n_cells == 0 {
            None
        } else if elevations != self.n_cells || colours != self.n_cells {
            Some(
                UpdateError::Cells {
                    expected: self.n_cells,
                    elevations: elevations as usize,
                    colours: colours as usize,
                },
            )
        } else {
            match shades {
                Some(n) => if n != self.n_cells {
                    Some(UpdateError::Shades { expected: self.n_cells, got: n as usize })
                } else {
                    None
                },
                None => None,
            }
        }
    }

    /// Replaces elevation and colour of every cell, without relief.
    pub fn update_cells(&mut self, elevation: &[u32], color: &[[u8; 4]]) -> (r: Result<
        (),
        UpdateError,
    >)
        requires
            old(self).wf(),
        ensures
            final(self).wf(),
            r == match old(self).refusal(elevation@.len(), color@.len(), None) {
                Some(e) => Err::<(), UpdateError>(e),
                None => Ok::<(), UpdateError>(()),
            },
            r is Err || old(self).n_cells == 0 ==> *final(self) == *old(self),
            r is Ok && old(self).n_cells > 0 ==> {
                &&& final(self).n_cells == old(self).n_cells
                &&& final(self).buffered == old(self).buffered
                &&& final(self).coverage == old(self).coverage
                &&& final(self).coverage_dirty == old(self).coverage_dirty
                &&& all_due(final(self).dirty@)
                &&& forall|i: int|
                    0 <= i < old(self).n_cells ==> #[trigger] final(self).pending@[i] == record_of(
                        elevation@[i],
                        color@[i]@,
                        None,
                    )
            },
    {
        self.update_cells_shaded(elevation, color, None)
    }

    /// Replaces elevation and colour of every cell, and its shading where there is any.
    /// Before the first geometry there is nothing to replace.
    pub fn update_cells_shaded(
        &mut self,
        elevation: &[u32],
        color: &[[u8; 4]],
        shade: Option<&[CellShade]>,
    ) -> (r: Result<(), UpdateError>)
        requires
            old(self).wf(),
        ensures
            final(self).wf(),
            r == match old(self).refusal(
                elevation@.len(),
                color@.len(),
                match shade {
                    Some(s) => Some(s@.len()),
                    None => None,
                },
            ) {
                Some(e) => Err::<(), UpdateError>(e),
                None => Ok::<(), UpdateError>(()),
            },
            r is Err || old(self).n_cells == 0 ==> *final(self) == *old(self),
            r is Ok && old(self).n_cells > 0 ==> {
                &&& final(self).n_cells == old(self).n_cells
                &&& final(self).buffered == old(self).buffered
                &&& final(self).coverage == old(self).coverage
                &&& final(self).coverage_dirty == old(self).coverage_dirty
                &&& all_due(final(self).dirty@)
                &&& forall|i: int|
                    0 <= i < old(self).n_cells ==> #[trigger] final(self).pending@[i] == record_of(
                        elevation@[i],
                        color@[i]@,
                        match shade {
                            Some(s) => Some(s@[i]),
                            None => None,
                        },
                    )
            },
    {
        if self.n_cells == 0 {
            return Ok(());
        }
        if elevation.len() != self.n_cells || color.len() != self.n_cells {
            return Err(
                UpdateError::Cells {
                    expected: self.n_cells,
                    elevations: elevation.len(),
                    colours: color.len(),
                },
            );
        }
        if let Some(s) = shade {
            if s.len() != self.n_cells {
                return Err(UpdateError::Shades { expected: self.n_cells, got: s.len() });
            }
        }
        let n: usize = self.n_cells;
        let mut pending: Vec<CellRecord> = Vec::new();
        let mut i: usize = 0;
        while i < n
            invariant
                i <= n,
                elevation@.len() == n,
                color@.len() == n,
                shade matches Some(s) ==> s@.len() == n,
                pending@.len() == i,
                forall|k: int|
                    0 <= k < i ==> #[trigger] pending@[k] == record_of(
                        elevation@[k],
                        color@[k]@,
                        match shade {
                            Some(s) => Some(s@[k]),
                            None => None,
                        },
                    ),
            decreases n - i,
        {
            let of: Option<CellShade> = match shade {
                Some(s) => Some(s[i]),
                None => None,
            };
            pending.push(make_record(elevation[i], color[i], of));
            i = i + 1;
        }
        self.pending = pending;
        self.dirty = all_up();
        Ok(())
    }

    /// Replaces the cloud coverage.
    pub fn update_cloud_coverage(&mut self, coverage: &[u32]) -> (r: Result<(), UpdateError>)
        ensures
            final(self).n_cells == old(self).n_cells,
            final(self).pending == old(self).pending,
            final(self).dirty == old(self).dirty,
            final(self).buffered == old(self).buffered,
            coverage@.len() == old(self).coverage@.len() ==> {
                &&& r is Ok
                &&& final(self).coverage@ == coverage@
                &&& all_due(final(self).coverage_dirty@)
            },
            coverage@.len() != old(self).coverage@.len() ==> {
                &&& r == Err::<(), UpdateError>(
                    UpdateError::Coverage {
                        expected: old(self).coverage@.len() as usize,
                        got: coverage@.len() as usize,
                    },
                )
                &&& *final(self) == *old(self)
            },
    {
        if coverage.len() != self.coverage.len() {
            return Err(
                UpdateError::Coverage { expected: self.coverage.len(), got: coverage.len() },
            );
        }
        let mut copy: Vec<u32> = Vec::new();
        let mut i: usize = 0;
        while i < coverage.len()
            invariant
                i <= coverage@.len(),
                copy@ == coverage@.take(i as int),
            decreases coverage@.len() - i,
        {
            copy.push(coverage[i]);
            i = i + 1;
            assert(copy@ =~= coverage@.take(i as int));
        }
        assert(copy@ =~= coverage@);
        self.coverage = copy;
        self.coverage_dirty = all_up();
        Ok(())
    }

    /// What has to be copied before `frame` is drawn.
    pub fn due(&self, frame: usize) -> (c: Copies)
        requires
            frame < FRAMES_IN_FLIGHT,
        ensures
            c.cells == (self.dirty@[frame as int] && self.buffered),
            c.coverage == self.coverage_dirty@[frame as int],
    {
        Copies {
            cells: self.dirty[frame] && self.buffered,
            coverage: self.coverage_dirty[frame],
        }
    }

    /// The cells have been copied for `frame`.
    pub fn cells_copied(&mut self, frame: usize)
        requires
            frame < FRAMES_IN_FLIGHT,
        ensures
            final(self).dirty@ == lowered(old(self).dirty@, frame as int),
            final(self).n_cells == old(self).n_cells,
            final(self).pending == old(self).pending,
            final(self).buffered == old(self).buffered,
            final(self).coverage == old(self).coverage,
            final(self).coverage_dirty == old(self).coverage_dirty,
    {
        self.dirty = lower(self.dirty, frame);
    }

    /// The coverage has been copied for `frame`.
    pub fn coverage_copied(&mut self, frame: usize)
        requires
            frame < FRAMES_IN_FLIGHT,
        ensures
            final(self).coverage_dirty@ == lowered(old(self).coverage_dirty@, frame as int),
            final(self).n_cells == old(self).n_cells,
            final(self).pending == old(self).pending,
            final(self).dirty == old(self).dirty,
            final(self).buffered == old(self).buffered,
            final(self).coverage == old(self).coverage,
    {
        self.coverage_dirty = lower(self.coverage_dirty, frame);
    }
}

/// The record of a cell.
fn make_record(elevation: u32, c: [u8; 4], shade: Option<CellShade>) -> (r: CellRecord)
    ensures
        r == record_of(elevation, c@, shade),
{
    let color = pack_bytes(c[0], c[1], c[2], c[3]);
    match shade {
        Some(s) => CellRecord {
            elevation,
            color,
            gradient: pack_half2(s.grad_east, s.grad_north),
            material: pack_material(s.kind, s.depth_t, s.ice_t),
        },
        None => CellRecord { elevation, color, gradient: 0, material: 0 },
    }
}

/// A change is due for every frame until that frame has had it: copying one frame leaves the
/// other due.
pub proof fn no_frame_misses_a_change(flags: Seq<bool>, frame: int, other: int)
    requires
        all_due(flags),
        0 <= frame < FRAMES_IN_FLIGHT,
        0 <= other < FRAMES_IN_FLIGHT,
        frame != other,
    ensures
        !lowered(flags, frame)[frame],
        lowered(flags, frame)[other],
        lowered(lowered(flags, frame), other) == seq![false, false],
{
    assert(lowered(lowered(flags, frame), other) =~= seq![false, false]);
}

/// The size that a buffer is made with.
pub open spec fn buffer_bytes(size: u64) -> u64 {
    if size >= MIN_BUFFER_BYTES {
        size
    } else {
        MIN_BUFFER_BYTES
    }
}

/// The size that a buffer is made with: at least a few bytes.
pub fn buffer_size(size: u64) -> (s: u64)
    ensures
        s == buffer_bytes(size),
{
    if size >= MIN_BUFFER_BYTES {
        size
    } else {
        MIN_BUFFER_BYTES
    }
}

/// Whether a write fits into a buffer.
pub fn write_fits(bytes: u64, size: u64) -> (b: bool)
    ensures
        b == (bytes <= size),
{
    bytes <= size
}

/// `p` is the smallest power of two that is no less than `n`.
pub open spec fn next_power(n: nat, p: nat) -> bool {
    exists|k: nat| #[trigger] two_to(k) == p && p >= n && (k == 0 || two_to((k - 1) as nat) < n)
}

/// The smallest power of two that is no less than `n`.
pub fn next_power_of_two(n: u64) -> (p: u64)
    requires
        n <= 0x8000_0000_0000_0000,
    ensures
        next_power(n as nat, p as nat),
{
    let mut p: u64 = 1;
    let ghost mut k: nat = 0;
    while p < n
        invariant
            n <= 0x8000_0000_0000_0000,
            p >= 1,
            p == two_to(k),
            k == 0 || two_to((k - 1) as nat) < n,
        decreases 2 * n - p,
    {
        p = p * 2;
        proof {
            k = k + 1;
        }
    }
    assert(two_to(k) == p as nat);
    p
}

/// What to do about the river ribbons.
#[derive(Debug, Clone, Copy, PartialEq, Eq, Structural)]
pub enum RiverWork {
    /// There are none.
    Nothing,
    /// They fit into the buffer that there is.
    Rewrite,
    /// They need a buffer of so many bytes.
    Replace { capacity: u64 },
}

/// `work` is what ribbons of `n` vertices need, where there is a buffer of `capacity` bytes.
pub open spec fn is_river_work(capacity: u64, n: u32, work: RiverWork) -> bool {
    &&& n == 0 ==> work == RiverWork::Nothing
    &&& n > 0 && n * RIVER_VERTEX_BYTES <= capacity ==> work == RiverWork::Rewrite
    &&& n > 0 && n * RIVER_VERTEX_BYTES > capacity ==> (work matches RiverWork::Replace {
        capacity: c,
    } && next_power((n * RIVER_VERTEX_BYTES) as nat, c as nat))
}

/// The buffer of river ribbons.
#[derive(Debug, Clone, Copy, PartialEq, Eq, Structural)]
pub struct Rivers {
    pub count: u32,
    pub capacity: u64,
}

impl Rivers {
    /// No rivers and no buffer.
    pub fn new() -> (r: Rivers)
        ensures
            r == (Rivers { count: 0, capacity: 0 }),
    {
        Rivers { count: 0, capacity: 0 }
    }

    /// New ribbons of `n` vertices: the buffer grows to the next power of two where it is too
    /// small, and never shrinks.
    pub fn set(&mut self, n: u32) -> (work: RiverWork)
        ensures
            final(self).count == n,
            final(self).capacity == old(self).capacity,
            is_river_work(old(self).capacity, n, work),
    {
        self.count = n;
        if n == 0 {
            return RiverWork::Nothing;
        }
        let bytes: u64 = n as u64 * RIVER_VERTEX_BYTES;
        if bytes > self.capacity {
            RiverWork::Replace { capacity: next_power_of_two(bytes) }
        } else {
            RiverWork::Rewrite
        }
    }

    /// A buffer of `capacity` bytes has been made.
    pub fn replaced(&mut self, capacity: u64)
        ensures
            final(self).count == old(self).count,
            final(self).capacity == capacity,
    {
        self.capacity = capacity;
    }
}

/// Shaders find what was packed: the colour's four bytes, red lowest; the slope to the east in
/// the lower half and that to the north in the upper; surface, depth and ice in the three lowest
/// bytes. A cell without shading is flat land.
pub proof fn records_unpack(elevation: u32, c: Seq<u8>, shade: Option<CellShade>)
    requires
        c.len() == 4,
    ensures
        ({
            let r = record_of(elevation, c, shade);
            &&& r.elevation == elevation
            &&& r.color % 0x100 == c[0]
            &&& r.color / 0x100 % 0x100 == c[1]
            &&& r.color / 0x1_0000 % 0x100 == c[2]
            &&& r.color / 0x100_0000 == c[3]
            &&& match shade {
                Some(s) => {
                    &&& r.gradient % 0x1_0000 == half_of(s.grad_east)
                    &&& r.gradient / 0x1_0000 == half_of(s.grad_north)
                    &&& r.material % 0x100 == surface_code(s.kind)
                    &&& r.material / 0x100 % 0x100 == unorm_of(s.depth_t)
                    &&& r.material / 0x1_0000 == unorm_of(s.ice_t)
                },
                None => r.gradient == 0 && r.material == 0,
            }
        }),
{
    if let Some(s) = shade {
        crate::half::halves_fit_sixteen_bits(s.grad_east);
        crate::half::halves_fit_sixteen_bits(s.grad_north);
        crate::half::bytes_are_nearest(s.depth_t);
        crate::half::bytes_are_nearest(s.ice_t);
    }
}

/// An update is refused exactly where there is geometry and something does not come once for
/// every cell.
pub proof fn updates_come_once_for_every_cell(
    u: &Uploads,
    elevations: nat,
    colours: nat,
    shades: Option<nat>,
)
    ensures
        u.refusal(elevations, colours, shades) is None <==> u.n_cells == 0 || (elevations
            == u.n_cells && colours == u.n_cells && (shades matches Some(n) ==> n == u.n_cells)),
{
}

/// A buffer holds what it is made for, and is never empty.
pub proof fn buffers_are_never_empty(size: u64)
    ensures
        buffer_bytes(size) >= size,
        buffer_bytes(size) >= 4,
        buffer_bytes(size) == size || size < 4,
{
}

/// Ribbons of 32 bytes a vertex are rewritten where they fit; else they get a buffer in which they fit and
/// of which they fill more than half.
pub proof fn rivers_fit_their_buffer(capacity: u64, n: u32, work: RiverWork)
    requires
        is_river_work(capacity, n, work),
    ensures
        work is Nothing <==> n == 0,
        work is Rewrite ==> 32 * n <= capacity,
        work is Replace ==> 32 * n > capacity,
        work matches RiverWork::Replace { capacity: c } ==> 32 * n <= c < 64 * n,
{
    if let RiverWork::Replace { capacity: c } = work {
        let k = choose|k: nat| #[trigger]
            two_to(k) == c as nat && c >= 32 * n && (k == 0 || two_to((k - 1) as nat) < 32 * n);
        assert(two_to(k) == c as nat);
    }
}

} // verus!
