//! What the viewer can choose, and which passes a frame then has.

use vstd::prelude::*;

verus! {

/// Where the sun is anchored.
#[derive(Debug, Clone, Copy, PartialEq, Eq, Structural)]
pub enum SunMode {
    /// Near the camera axis, so that the globe is lit from behind the viewer.
    CameraRelative,
    /// Fixed in planet coordinates.
    Fixed,
}

/// The label of a sun mode.
pub open spec fn sun_name(mode: SunMode) -> Seq<char> {
    match mode {
        SunMode::CameraRelative => "camera-relative sun"@,
        SunMode::Fixed => "fixed sun"@,
    }
}

/// The fixed direction lights the globe.
pub open spec fn fixed_light(mode: SunMode, camera_at_origin: bool) -> bool {
    mode == SunMode::Fixed || camera_at_origin
}

impl Default for SunMode {
    fn default() -> (m: SunMode)
        ensures
            m == SunMode::CameraRelative,
    {
        SunMode::CameraRelative
    }
}

impl SunMode {
    /// Label for the toggle.
    pub fn name(self) -> (s: &'static str)
        ensures
            s@ == sun_name(self),
    {
        match self {
            SunMode::CameraRelative => "camera-relative sun",
            SunMode::Fixed => "fixed sun",
        }
    }

    /// Whether the fixed direction lights the globe: in fixed mode, and while the camera has
    /// no position to be relative to.
    pub fn lights_from_fixed(self, camera_at_origin: bool) -> (b: bool)
        ensures
            b == fixed_light(self, camera_at_origin),
    {
        match self {
            SunMode::Fixed => true,
            SunMode::CameraRelative => camera_at_origin,
        }
    }
}

/// Which projection is drawn.
#[derive(Debug, Clone, Copy, PartialEq, Eq, Structural)]
pub enum ViewMode {
    /// The globe in perspective.
    Globe,
    /// The Mercator plane.
    Mercator,
}

impl ViewMode {
    /// Label of the button that switches to the other mode.
    pub fn switch_label(self) -> (s: &'static str)
        ensures
            s@ == match self {
                ViewMode::Globe => "Switch to Mercator"@,
                ViewMode::Mercator => "Switch to Globe"@,
            },
    {
        match self {
            ViewMode::Globe => "Switch to Mercator",
            ViewMode::Mercator => "Switch to Globe",
        }
    }

    /// The number that shaders know the mode by.
    pub fn code(self) -> (c: u32)
        ensures
            c == match self {
                ViewMode::Globe => 0u32,
                ViewMode::Mercator => 1u32,
            },
    {
        match self {
            ViewMode::Globe => 0,
            ViewMode::Mercator => 1,
        }
    }
}

/// What a cell's surface is made of.
#[derive(Debug, Clone, Copy, PartialEq, Eq, Structural)]
pub enum SurfaceKind {
    /// Above sea level, ice included.
    Land,
    /// Open ocean.
    Ocean,
    /// Inland water.
    Lake,
}

/// The number that shaders know a surface by.
pub open spec fn surface_code(kind: SurfaceKind) -> u8 {
    match kind {
        SurfaceKind::Land => 0,
        SurfaceKind::Ocean => 1,
        SurfaceKind::Lake => 2,
    }
}

impl Default for SurfaceKind {
    fn default() -> (k: SurfaceKind)
        ensures
            k == SurfaceKind::Land,
    {
        SurfaceKind::Land
    }
}

impl SurfaceKind {
    /// The number that shaders know the surface by.
    pub fn code(self) -> (c: u8)
        ensures
            c == surface_code(self),
    {
        match self {
            SurfaceKind::Land => 0,
            SurfaceKind::Ocean => 1,
            SurfaceKind::Lake => 2,
        }
    }
}

/// What decides over the passes of a frame.
#[derive(Debug, Clone, Copy)]
pub struct Scene {
    pub mode: ViewMode,
    /// Lit view rather than a data layer.
    pub beauty: bool,
    /// Leave out chunks that cannot be seen.
    pub cull: bool,
    /// The atmosphere has any strength.
    pub hazy: bool,
    /// The cloud deck has any opacity.
    pub cloudy: bool,
}

impl Scene {
    /// Chunks are culled.
    pub open spec fn culled(self) -> bool {
        self.cull && self.mode == ViewMode::Globe
    }

    /// The halo is drawn.
    pub open spec fn haloed(self) -> bool {
        self.mode == ViewMode::Globe && self.beauty && self.hazy
    }

    /// Rivers are drawn.
    pub open spec fn watered(self, count: u32, has_buffer: bool) -> bool {
        self.mode == ViewMode::Globe && count != 0 && has_buffer
    }

    /// Clouds are drawn.
    pub open spec fn clouded(self, index_count: u32, has_buffers: bool) -> bool {
        self.mode == ViewMode::Globe && self.cloudy && index_count != 0 && has_buffers
    }

    /// Whether chunks are culled: a map shows them all.
    pub fn culls(&self) -> (b: bool)
        ensures
            b == self.culled(),
    {
        self.cull && self.mode == ViewMode::Globe
    }

    /// Whether the halo is drawn: a map has no limb to scatter around.
    pub fn draws_halo(&self) -> (b: bool)
        ensures
            b == self.haloed(),
    {
        self.mode == ViewMode::Globe && self.beauty && self.hazy
    }

    /// Whether rivers are drawn, of which there are `count` vertices.
    pub fn draws_rivers(&self, count: u32, has_buffer: bool) -> (b: bool)
        ensures
            b == self.watered(count, has_buffer),
    {
        self.mode == ViewMode::Globe && count != 0 && has_buffer
    }

    /// Whether clouds are drawn: a deck over a map would be wrong about the weather.
    pub fn draws_clouds(&self, index_count: u32, has_buffers: bool) -> (b: bool)
        ensures
            b == self.clouded(index_count, has_buffers),
    {
        self.mode == ViewMode::Globe && self.cloudy && index_count != 0 && has_buffers
    }

    /// The flags of the globe pass: mode, lit or not, and the bits of the cell pitch.
    pub fn globe_flags(&self, pitch_bits: u32) -> (f: [u32; 4])
        ensures
            f@ == seq![
                if self.mode == ViewMode::Globe { 0u32 } else { 1u32 },
                if self.beauty { 1u32 } else { 0u32 },
                pitch_bits,
                0u32,
            ],
    {
        let lit: u32 = if self.beauty {
            1
        } else {
            0
        };
        let f = [self.mode.code(), lit, pitch_bits, 0];
        assert(f@ =~= seq![
            if self.mode == ViewMode::Globe { 0u32 } else { 1u32 },
            if self.beauty { 1u32 } else { 0u32 },
            pitch_bits,
            0u32,
        ]);
        f
    }

    /// The flags of the river pass: lit or not.
    pub fn river_flags(&self) -> (f: [u32; 4])
        ensures
            f@ == seq![0u32, if self.beauty { 1u32 } else { 0u32 }, 0u32, 0u32],
    {
        let lit: u32 = if self.beauty {
            1
        } else {
            0
        };
        let f = [0, lit, 0, 0];
        assert(f@ =~= seq![0u32, if self.beauty { 1u32 } else { 0u32 }, 0u32, 0u32]);
        f
    }
}

/// The passes that a pipeline is built for.
#[derive(Debug, Clone, Copy, PartialEq, Eq, Structural)]
pub enum Pass {
    Stars,
    Halo,
    Globe,
    Rivers,
    Clouds,
}

/// The fixed-function settings in which the passes differ.
#[derive(Debug, Clone, Copy, PartialEq, Eq, Structural)]
pub struct PipelineOpts {
    pub depth_test: bool,
    pub depth_write: bool,
    /// Straight source-alpha blending.
    pub blend: bool,
    pub cull_back: bool,
}

/// The settings of a pass: all but the sky test depth, only the globe writes it, overlays
/// blend, and only the cloud shell hides its far side.
pub open spec fn pass_opts(pass: Pass) -> PipelineOpts {
    PipelineOpts {
        depth_test: pass != Pass::Stars && pass != Pass::Halo,
        depth_write: pass == Pass::Globe,
        blend: pass != Pass::Stars && pass != Pass::Globe,
        cull_back: pass == Pass::Clouds,
    }
}

impl Pass {
    /// The settings of the pass.
    pub fn opts(self) -> (o: PipelineOpts)
        ensures
            o == pass_opts(self),
    {
        match self {
            Pass::Stars => PipelineOpts {
                depth_test: false,
                depth_write: false,
                blend: false,
                cull_back: false,
            },
            Pass::Halo => PipelineOpts {
                depth_test: false,
                depth_write: false,
                blend: true,
                cull_back: false,
            },
            Pass::Globe => PipelineOpts {
                depth_test: true,
                depth_write: true,
                blend: false,
                cull_back: false,
            },
            Pass::Rivers => PipelineOpts {
                depth_test: true,
                depth_write: false,
                blend: true,
                cull_back: false,
            },
            Pass::Clouds => PipelineOpts {
                depth_test: true,
                depth_write: false,
                blend: true,
                cull_back: true,
            },
        }
    }
}

/// Number of data layers.
pub const LAYER_COUNT: usize = 8;

/// The name of layer `i`; the last one beyond the end.
pub open spec fn layer_at(i: int) -> Seq<char> {
    if i == 0 {
        "Beauty (placeholder)"@
    } else if i == 1 {
        "Elevation"@
    } else if i == 2 {
        "Biomes"@
    } else if i == 3 {
        "Plates"@
    } else if i == 4 {
        "Crust age"@
    } else if i == 5 {
        "Top rock"@
    } else if i == 6 {
        "Temperature"@
    } else {
        "Precipitation"@
    }
}

/// The name of a data layer. A position beyond the last layer shows the last one.
pub fn layer_name(i: usize) -> (s: &'static str)
    ensures
        s@ == layer_at(i as int),
{
    match i {
        0 => "Beauty (placeholder)",
        1 => "Elevation",
        2 => "Biomes",
        3 => "Plates",
        4 => "Crust age",
        5 => "Top rock",
        6 => "Temperature",
        _ => "Precipitation",
    }
}

/// A map shows every chunk, and neither halo nor rivers nor clouds.
pub proof fn a_map_is_bare(scene: Scene, count: u32, has: bool)
    requires
        scene.mode == ViewMode::Mercator,
    ensures
        !scene.culled(),
        !scene.haloed(),
        !scene.watered(count, has),
        !scene.clouded(count, has),
{
}

/// On the globe what the viewer asked for is drawn, wherever there is anything to draw.
pub proof fn the_globe_shows_what_is_asked_for(scene: Scene, count: u32, has: bool)
    requires
        scene.mode == ViewMode::Globe,
    ensures
        scene.culled() == scene.cull,
        scene.haloed() <==> scene.beauty && scene.hazy,
        scene.watered(count, has) <==> count > 0 && has,
        scene.clouded(count, has) <==> scene.cloudy && count > 0 && has,
{
}

/// The sun is fixed where the viewer fixed it, and where there is no camera to follow.
pub proof fn the_sun_follows_the_camera(mode: SunMode, camera_at_origin: bool)
    ensures
        fixed_light(SunMode::Fixed, camera_at_origin),
        fixed_light(mode, true),
        !fixed_light(SunMode::CameraRelative, false),
{
}

/// The globe alone hides what lies behind it; the sky is drawn whatever lies before it, rivers
/// and clouds only where nothing does; what lies over something else lets it shine through; and
/// of the cloud shell only the near side is seen.
pub proof fn passes_overlay_the_globe(pass: Pass)
    ensures
        pass_opts(pass).depth_write <==> pass == Pass::Globe,
        pass_opts(pass).depth_test <==> pass == Pass::Globe || pass == Pass::Rivers || pass
            == Pass::Clouds,
        pass_opts(pass).blend <==> pass == Pass::Halo || pass == Pass::Rivers || pass
            == Pass::Clouds,
        pass_opts(pass).cull_back <==> pass == Pass::Clouds,
        pass_opts(pass).depth_write ==> pass_opts(pass).depth_test && !pass_opts(pass).blend,
{
}

/// Shaders tell surfaces apart.
pub proof fn surfaces_have_their_own_codes(a: SurfaceKind, b: SurfaceKind)
    ensures
        surface_code(a) == surface_code(b) <==> a == b,
        surface_code(a) < 3,
        surface_code(SurfaceKind::Land) == 0,
{
}

} // verus!
