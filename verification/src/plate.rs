//! Plates, and the mosaic they form on the cell graph.

use vstd::prelude::*;

verus! {

/// Plate id of a cell that belongs to no plate.
///
/// It is out of range of every plate list, which is what makes "has the planet
/// been divided into plates yet?" a question about the mosaic alone.
pub const UNASSIGNED: u16 = u16::MAX;

/// Ceiling on the number of plates that calving and rifting may reach.
pub const MAX_PLATES: usize = 64;

/// Bit pattern of the double-precision number one.
pub const ONE_BITS: u64 = 0x3ff0_0000_0000_0000;

/// Smallest plate that may rift, in cells, on any mesh.
pub const MIN_RIFTABLE_CELLS: usize = 24;

/// A direction, as the bit patterns of its double-precision components.
#[derive(Clone, Copy, Debug, PartialEq, Eq, Structural)]
pub struct Axis {
    pub x: u64,
    pub y: u64,
    pub z: u64,
}

/// A rotation, as the bit patterns of its double-precision quaternion.
#[derive(Clone, Copy, Debug, PartialEq, Eq, Structural)]
pub struct Turn {
    pub x: u64,
    pub y: u64,
    pub z: u64,
    pub w: u64,
}

/// One rigid plate. The motion is carried as bit patterns; the links name other
/// plates.
#[derive(Clone, Copy, Debug, PartialEq, Eq, Structural)]
pub struct Plate {
    /// Axis of rotation.
    pub euler_pole: Axis,
    /// Angular speed, radians per million years.
    pub omega_rad_myr: u64,
    /// Rotation that has not been applied to the cells yet.
    pub accum: Turn,
    /// Plate that this one was welded to.
    pub welded_to: Option<u16>,
    /// Plate that this one last parted from.
    pub rift_partner: Option<u16>,
    /// When that happened, millions of years, as a bit pattern.
    pub rift_born_myr: u64,
}

/// The rotation that moves nothing.
pub open spec fn no_turn() -> Turn {
    Turn { x: 0, y: 0, z: 0, w: ONE_BITS }
}

/// A fragment of `parent`: it moves as `parent` does, with nothing pending and
/// welded to nothing.
pub open spec fn fragment_of(parent: Plate) -> Plate {
    Plate { welded_to: None, accum: no_turn(), ..parent }
}

impl Plate {
    /// A fragment of this plate: same motion, nothing pending, welded to nothing.
    pub fn fragment(&self) -> (p: Plate)
        ensures
            p == fragment_of(*self),
    {
        Plate {
            euler_pole: self.euler_pole,
            omega_rad_myr: self.omega_rad_myr,
            accum: Turn { x: 0, y: 0, z: 0, w: ONE_BITS },
            welded_to: None,
            rift_partner: self.rift_partner,
            rift_born_myr: self.rift_born_myr,
        }
    }
}

/// Which plate every cell belongs to, and the plates themselves.
pub struct Mosaic {
    /// Plate of each cell.
    pub plate_id: Vec<u16>,
    /// The plates, by id.
    pub plates: Vec<Plate>,
}

/// What a mosaic holds.
pub struct Sheet {
    pub cell: Seq<u16>,
    pub plates: Seq<Plate>,
}

impl View for Mosaic {
    type V = Sheet;

    open spec fn view(&self) -> Sheet {
        Sheet { cell: self.plate_id@, plates: self.plates@ }
    }
}

impl Sheet {
    /// Every cell belongs to one of the plates.
    pub open spec fn covered(self) -> bool {
        forall|c: int| 0 <= c < self.cell.len() ==> (#[trigger] self.cell[c]) < self.plates.len()
    }
}

/// A fragment moves on as its parent does and remembers whom that parted from, but is welded to
/// nothing and has no rotation pending: what was pending has moved its cells already or stays
/// with the parent. A fragment of a fragment is no different.
pub proof fn fragments_move_with_their_parent(parent: Plate)
    ensures
        fragment_of(parent).euler_pole == parent.euler_pole,
        fragment_of(parent).omega_rad_myr == parent.omega_rad_myr,
        fragment_of(parent).rift_partner == parent.rift_partner,
        fragment_of(parent).rift_born_myr == parent.rift_born_myr,
        fragment_of(parent).welded_to is None,
        fragment_of(parent).accum.x == 0,
        fragment_of(parent).accum.y == 0,
        fragment_of(parent).accum.z == 0,
        fragment_of(parent).accum.w == 0x3ff0_0000_0000_0000,
        fragment_of(fragment_of(parent)) == fragment_of(parent),
{
}

} // verus!
