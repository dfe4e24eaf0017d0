//! The start of a tectonic step: which caches are stale, which marks go, and what runs.

use vstd::prelude::*;
use crate::drift::{ARC, COLLISION, HOTSPOT, RIFT, SUBDUCTING, SUTURE, TRANSFORM};
use crate::genesis::GenesisKey;
use crate::phase::Phase;

verus! {

/// What the quantities derived from the mesh were derived for.
#[derive(Clone, Copy, Debug, PartialEq, Eq, Structural)]
pub struct CacheKey {
    /// Fingerprint of the mesh. The number of cells would not do: a new tessellation
    /// keeps it.
    pub mesh: u64,
    /// Seed of the planet.
    pub seed: u64,
}

/// What a step has to do before it starts, and what it then runs.
#[derive(Clone, Copy, Debug, PartialEq, Eq, Structural)]
pub struct StepPlan {
    /// The quantities derived from the mesh have to be derived anew.
    pub derive: bool,
    /// The first landmass has to be laid out anew.
    pub lay_out: bool,
    /// Crust is still forming; otherwise plates drift.
    pub forming: bool,
}

/// What a step of `phase` has to do and runs, given what is at hand and what is wanted.
pub open spec fn plan_of(
    phase: Phase,
    cache: Option<CacheKey>,
    wanted: CacheKey,
    landmass: Option<GenesisKey>,
    wanted_landmass: GenesisKey,
) -> StepPlan {
    let forming = phase == Phase::CrustalFormation;
    StepPlan {
        derive: cache != Some(wanted),
        lay_out: forming && landmass != Some(wanted_landmass),
        forming,
    }
}

/// Plans a step of `phase`, given what is at hand and what is wanted.
pub fn plan_step(
    phase: Phase,
    cache: Option<CacheKey>,
    wanted: CacheKey,
    landmass: Option<GenesisKey>,
    wanted_landmass: GenesisKey,
) -> (p: StepPlan)
    ensures
        p == plan_of(phase, cache, wanted, landmass, wanted_landmass),
{
    let derive = match cache {
        Some(k) => k != wanted,
        None => true,
    };
    let forming = phase == Phase::CrustalFormation;
    let fits = match landmass {
        Some(k) => k.matches(&wanted_landmass),
        None => false,
    };
    StepPlan { derive, lay_out: forming && !fits, forming }
}

/// Clears the marks of the last step's activity. Old seams stay: later rifts look for them.
pub fn clear_transient(flags: &mut Vec<u8>)
    ensures
        final(flags)@ == old(flags)@.map_values(|f: u8| f & SUTURE),
{
    let mut c: usize = 0;
    while c < flags.len()
        invariant
            c <= flags@.len(),
            flags@.len() == old(flags)@.len(),
            forall|i: int| 0 <= i < c ==> #[trigger] flags@[i] == old(flags)@[i] & SUTURE,
            forall|i: int| c <= i < flags@.len() ==> #[trigger] flags@[i] == old(flags)@[i],
        decreases flags@.len() - c,
    {
        let f = flags[c];
        flags.set(c, f & SUTURE);
        c = c + 1;
    }
    assert(flags@ =~= old(flags)@.map_values(|f: u8| f & SUTURE));
}

/// Of all marks, a step starts with the seams alone.
pub proof fn only_seams_survive(flags: u8)
    ensures
        (flags & SUTURE) & SUTURE == flags & SUTURE,
        (flags & SUTURE) & SUBDUCTING == 0,
        (flags & SUTURE) & ARC == 0,
        (flags & SUTURE) & COLLISION == 0,
        (flags & SUTURE) & RIFT == 0,
        (flags & SUTURE) & HOTSPOT == 0,
        (flags & SUTURE) & TRANSFORM == 0,
{
    assert((flags & 64) & 64 == flags & 64 && (flags & 64) & 1 == 0 && (flags & 64) & 2 == 0 && (
    flags & 64) & 4 == 0 && (flags & 64) & 8 == 0 && (flags & 64) & 16 == 0 && (flags & 64) & 32
        == 0) by (bit_vector);
}

/// What is at hand is used again only where it was made for the very same mesh and seed, and is
/// not made anew where it was; a landmass is laid out only while crust forms; and crust forms
/// in the first era alone.
pub proof fn nothing_stale_is_used(
    phase: Phase,
    cache: CacheKey,
    wanted: CacheKey,
    landmass: Option<GenesisKey>,
    wanted_landmass: GenesisKey,
)
    ensures
        ({
            let p = plan_of(phase, Some(cache), wanted, landmass, wanted_landmass);
            let q = plan_of(phase, None, wanted, None, wanted_landmass);
            &&& p.derive <==> cache.mesh != wanted.mesh || cache.seed != wanted.seed
            &&& q.derive
            &&& p.forming <==> phase is CrustalFormation
            &&& p.forming == q.forming
            &&& q.lay_out <==> phase is CrustalFormation
            &&& phase is CrustalFormation && !p.lay_out ==> landmass == Some(wanted_landmass)
            &&& landmass == Some(wanted_landmass) || !(phase is CrustalFormation) ==> !p.lay_out
        }),
{
}

} // verus!
