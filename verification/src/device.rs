//! Which graphics device, extensions, formats and sizes are used.

use vstd::prelude::*;
use crate::text::{chars_of, spells};

verus! {

/// What a physical device is.
#[derive(Debug, Clone, Copy, PartialEq, Eq, Structural)]
pub enum DeviceKind {
    Discrete,
    Integrated,
    Virtual,
    Other,
}

/// How much a kind of device is preferred.
pub open spec fn preference(kind: DeviceKind) -> int {
    match kind {
        DeviceKind::Discrete => 3,
        DeviceKind::Integrated => 2,
        DeviceKind::Virtual => 1,
        DeviceKind::Other => 0,
    }
}

/// How much a kind of device is preferred.
fn score(kind: DeviceKind) -> (s: u32)
    ensures
        s == preference(kind),
{
    match kind {
        DeviceKind::Discrete => 3,
        DeviceKind::Integrated => 2,
        DeviceKind::Virtual => 1,
        DeviceKind::Other => 0,
    }
}

/// A queue family of a device.
#[derive(Debug, Clone, Copy, PartialEq, Eq, Structural)]
pub struct QueueFamily {
    pub graphics: bool,
    /// It can present to the window.
    pub presents: bool,
}

/// A physical device that there is.
#[derive(Debug)]
pub struct DeviceOffer {
    pub kind: DeviceKind,
    pub families: Vec<QueueFamily>,
}

/// Family `f` can draw and present, and none before it can.
pub open spec fn serves(families: Seq<QueueFamily>, f: int) -> bool {
    &&& 0 <= f < families.len()
    &&& families[f].graphics && families[f].presents
    &&& forall|g: int|
        0 <= g < f ==> !((#[trigger] families[g]).graphics && families[g].presents)
}

/// A device has a family that can draw and present.
pub open spec fn usable(d: DeviceOffer) -> bool {
    exists|f: int| serves(d.families@, f)
}

/// Device `d` is the one to use among the first `n`: none is preferred to it, and none before
/// it is preferred as much.
pub open spec fn best_device(devices: Seq<DeviceOffer>, n: int, d: int) -> bool {
    &&& 0 <= d < n
    &&& usable(devices[d])
    &&& forall|e: int|
        0 <= e < n && usable(#[trigger] devices[e]) ==> preference(devices[e].kind) <= preference(
            devices[d].kind,
        )
    &&& forall|e: int|
        0 <= e < d && usable(#[trigger] devices[e]) ==> preference(devices[e].kind) < preference(
            devices[d].kind,
        )
}

/// `r` is the device to use and the family of its queue, if there is one.
pub open spec fn is_pick(devices: Seq<DeviceOffer>, r: Option<(usize, usize)>) -> bool {
    match r {
        Some(p) => best_device(devices, devices.len() as int, p.0 as int) && serves(
            devices[p.0 as int].families@,
            p.1 as int,
        ),
        None => forall|d: int| 0 <= d < devices.len() ==> !usable(#[trigger] devices[d]),
    }
}

/// The first family that can draw and present.
fn first_family(families: &Vec<QueueFamily>) -> (r: Option<usize>)
    ensures
        match r {
            Some(f) => serves(families@, f as int),
            None => forall|f: int| !serves(families@, f),
        },
{
    let mut f: usize = 0;
    while f < families.len()
        invariant
            f <= families@.len(),
            forall|g: int|
                0 <= g < f ==> !((#[trigger] families@[g]).graphics && families@[g].presents),
        decreases families@.len() - f,
    {
        if families[f].graphics && families[f].presents {
            return Some(f);
        }
        f = f + 1;
    }
    None
}

/// The device to use and the family of its queue: the most preferred kind, the first of its
/// kind, and of its families the first that can draw and present.
pub fn pick_physical_device(devices: &Vec<DeviceOffer>) -> (r: Option<(usize, usize)>)
    ensures
        is_pick(devices@, r),
{
    let mut best: Option<(usize, usize)> = None;
    let mut i: usize = 0;
    while i < devices.len()
        invariant
            i <= devices@.len(),
            match best {
                Some(p) => best_device(devices@, i as int, p.0 as int) && serves(
                    devices@[p.0 as int].families@,
                    p.1 as int,
                ),
                None => forall|d: int| 0 <= d < i ==> !usable(#[trigger] devices@[d]),
            },
        decreases devices@.len() - i,
    {
        match first_family(&devices[i].families) {
            None => {
                assert(!usable(devices@[i as int]));
            },
            Some(f) => {
                assert(usable(devices@[i as int]));
                let better = match best {
                    Some(p) => score(devices[i].kind) > score(devices[p.0].kind),
                    None => true,
                };
                if better {
                    best = Some((i, f));
                }
            },
        }
        i = i + 1;
    }
    best
}

/// Whether validation is asked for: in debug builds, and where the setting is neither empty
/// nor zero.
pub fn wants_validation(debug_build: bool, setting: Option<&str>) -> (b: bool)
    ensures
        b == (debug_build || (setting matches Some(s) && s@ != "0"@ && s@.len() != 0)),
{
    if debug_build {
        return true;
    }
    match setting {
        None => false,
        Some(s) => {
            let c = chars_of(s);
            let zero = spells(&c, 0, c.len(), "0");
            assert(c@.subrange(0, c@.len() as int) =~= s@);
            !zero && c.len() != 0
        },
    }
}

/// What an instance is made with, of what the loader offers.
#[derive(Debug, Clone, Copy, PartialEq, Eq, Structural)]
pub struct InstancePlan {
    /// List devices that only partly conform too.
    pub portability: bool,
    /// Receive messages of the driver.
    pub debug_utils: bool,
    /// Check how the device is used.
    pub validation: bool,
}

/// What an instance is made with: what is offered is used, validation only where it is asked
/// for too, and nothing is required.
pub fn plan_instance(
    has_portability: bool,
    has_debug_utils: bool,
    has_validation: bool,
    validation_wanted: bool,
) -> (p: InstancePlan)
    ensures
        p.portability == has_portability,
        p.debug_utils == has_debug_utils,
        p.validation == (has_validation && validation_wanted),
{
    InstancePlan {
        portability: has_portability,
        debug_utils: has_debug_utils,
        validation: has_validation && validation_wanted,
    }
}

/// A depth format.
#[derive(Debug, Clone, Copy, PartialEq, Eq, Structural)]
pub enum DepthFormat {
    D32Float,
    D32FloatS8,
    D24UnormS8,
}

/// The depth format to use, by what the device can draw to.
pub open spec fn depth_choice(d32: bool, d32_s8: bool, d24_s8: bool) -> Option<DepthFormat> {
    if d32 {
        Some(DepthFormat::D32Float)
    } else if d32_s8 {
        Some(DepthFormat::D32FloatS8)
    } else if d24_s8 {
        Some(DepthFormat::D24UnormS8)
    } else {
        None
    }
}

/// The depth format to use: the first of the list that the device can draw to.
pub fn depth_format(d32: bool, d32_s8: bool, d24_s8: bool) -> (f: Option<DepthFormat>)
    ensures
        f == depth_choice(d32, d32_s8, d24_s8),
{
    if d32 {
        Some(DepthFormat::D32Float)
    } else if d32_s8 {
        Some(DepthFormat::D32FloatS8)
    } else if d24_s8 {
        Some(DepthFormat::D24UnormS8)
    } else {
        None
    }
}

/// How loud a message of the driver is logged.
#[derive(Debug, Clone, Copy, PartialEq, Eq, Structural)]
pub enum LogLevel {
    Error,
    Warn,
    Debug,
    Trace,
}

/// How loud a message is logged.
pub open spec fn level_of(error: bool, warning: bool, info: bool) -> LogLevel {
    if error {
        LogLevel::Error
    } else if warning {
        LogLevel::Warn
    } else if info {
        LogLevel::Debug
    } else {
        LogLevel::Trace
    }
}

/// How loud a message is logged: by the gravest of its marks.
pub fn log_level(error: bool, warning: bool, info: bool) -> (l: LogLevel)
    ensures
        l == level_of(error, warning, info),
{
    if error {
        LogLevel::Error
    } else if warning {
        LogLevel::Warn
    } else if info {
        LogLevel::Debug
    } else {
        LogLevel::Trace
    }
}

/// A colour format.
#[derive(Debug, Clone, Copy, PartialEq, Eq, Structural)]
pub enum PixelFormat {
    Bgra8Unorm,
    Rgba8Unorm,
    Other,
}

/// A format that a surface offers.
#[derive(Debug, Clone, Copy, PartialEq, Eq, Structural)]
pub struct SurfaceFormat {
    pub format: PixelFormat,
    /// Colours are taken as sRGB.
    pub srgb: bool,
}

/// Entry `i` is the first that has the format `want`, and is taken as sRGB where that is asked.
pub open spec fn first_like(
    formats: Seq<SurfaceFormat>,
    want: PixelFormat,
    srgb: bool,
    i: int,
) -> bool {
    &&& 0 <= i < formats.len()
    &&& formats[i].format == want && (srgb ==> formats[i].srgb)
    &&& forall|j: int|
        0 <= j < i ==> !((#[trigger] formats[j]).format == want && (srgb ==> formats[j].srgb))
}

/// Some entry has the format `want`, and is taken as sRGB where that is asked.
pub open spec fn offers(formats: Seq<SurfaceFormat>, want: PixelFormat, srgb: bool) -> bool {
    exists|i: int| first_like(formats, want, srgb, i)
}

/// Entry `i` is the one to use: blue first, else red first, else whatever comes first.
pub open spec fn preferred(formats: Seq<SurfaceFormat>, srgb: bool, i: int) -> bool {
    if offers(formats, PixelFormat::Bgra8Unorm, srgb) {
        first_like(formats, PixelFormat::Bgra8Unorm, srgb, i)
    } else if offers(formats, PixelFormat::Rgba8Unorm, srgb) {
        first_like(formats, PixelFormat::Rgba8Unorm, srgb, i)
    } else {
        i == 0
    }
}

/// The first entry that has the format `want`, and is taken as sRGB where that is asked.
fn find_like(formats: &Vec<SurfaceFormat>, want: PixelFormat, srgb: bool) -> (r: Option<usize>)
    ensures
        match r {
            Some(i) => first_like(formats@, want, srgb, i as int),
            None => !offers(formats@, want, srgb),
        },
{
    let mut i: usize = 0;
    while i < formats.len()
        invariant
            i <= formats@.len(),
            forall|j: int|
                0 <= j < i ==> !((#[trigger] formats@[j]).format == want && (srgb
                    ==> formats@[j].srgb)),
        decreases formats@.len() - i,
    {
        if formats[i].format == want && (!srgb || formats[i].srgb) {
            return Some(i);
        }
        i = i + 1;
    }
    None
}

/// The format to use.
fn preferred_format(formats: &Vec<SurfaceFormat>, srgb: bool) -> (i: usize)
    requires
        formats@.len() > 0,
    ensures
        preferred(formats@, srgb, i as int),
        i < formats@.len(),
{
    match find_like(formats, PixelFormat::Bgra8Unorm, srgb) {
        Some(i) => {
            assert(offers(formats@, PixelFormat::Bgra8Unorm, srgb));
            i
        },
        None => match find_like(formats, PixelFormat::Rgba8Unorm, srgb) {
            Some(i) => {
                assert(offers(formats@, PixelFormat::Rgba8Unorm, srgb));
                i
            },
            None => 0,
        },
    }
}

/// The format of the swapchain: colours are sRGB bytes already, so a format without conversion.
pub fn pick_format(formats: &Vec<SurfaceFormat>) -> (i: usize)
    requires
        formats@.len() > 0,
    ensures
        preferred(formats@, true, i as int),
        i < formats@.len(),
{
    preferred_format(formats, true)
}

/// The format that the render pass is made for, before there is a swapchain.
pub fn probe_format(formats: &Vec<SurfaceFormat>) -> (i: usize)
    requires
        formats@.len() > 0,
    ensures
        preferred(formats@, false, i as int),
        i < formats@.len(),
{
    preferred_format(formats, false)
}

/// Where every format is taken as sRGB, the render pass is made for the format that the
/// swapchain then has.
pub proof fn the_pass_fits_the_swapchain(formats: Seq<SurfaceFormat>, i: int, j: int)
    requires
        formats.len() > 0,
        forall|k: int| 0 <= k < formats.len() ==> (#[trigger] formats[k]).srgb,
        preferred(formats, false, i),
        preferred(formats, true, j),
    ensures
        formats[i].format == formats[j].format,
{
    assert forall|want: PixelFormat, k: int| first_like(formats, want, false, k) implies first_like(
        formats,
        want,
        true,
        k,
    ) by {}
    assert forall|want: PixelFormat, k: int| first_like(formats, want, true, k) implies first_like(
        formats,
        want,
        false,
        k,
    ) by {}
    assert(offers(formats, PixelFormat::Bgra8Unorm, false) == offers(
        formats,
        PixelFormat::Bgra8Unorm,
        true,
    ));
    assert(offers(formats, PixelFormat::Rgba8Unorm, false) == offers(
        formats,
        PixelFormat::Rgba8Unorm,
        true,
    ));
}

/// A size in pixels.
#[derive(Debug, Clone, Copy, PartialEq, Eq, Structural)]
pub struct Extent {
    pub width: u32,
    pub height: u32,
}

/// What a surface can do.
#[derive(Debug, Clone, Copy, PartialEq, Eq, Structural)]
pub struct SurfaceCaps {
    /// Its size; a width of `u32::MAX` leaves the size to the swapchain.
    pub current: Extent,
    pub min: Extent,
    pub max: Extent,
    pub min_images: u32,
    /// Zero sets no limit.
    pub max_images: u32,
}

impl SurfaceCaps {
    /// Where the size is left to the swapchain its limits are limits, and one image more than
    /// the fewest can be counted.
    pub open spec fn wf(self) -> bool {
        &&& self.current.width == u32::MAX ==> self.min.width <= self.max.width
            && self.min.height <= self.max.height
        &&& self.min_images < u32::MAX
    }

    /// The size of a swapchain for a window of a size.
    pub open spec fn size_for(self, window: Extent) -> Extent {
        if self.current.width != u32::MAX {
            self.current
        } else {
            Extent {
                width: within(window.width, self.min.width, self.max.width),
                height: within(window.height, self.min.height, self.max.height),
            }
        }
    }

    /// The number of images: one more than the fewest, within the limit.
    pub open spec fn images(self) -> u32 {
        let n = (self.min_images + 1) as u32;
        if self.max_images > 0 && self.max_images < n {
            self.max_images
        } else {
            n
        }
    }
}

/// `x`, or the limit that it is beyond.
pub open spec fn within(x: u32, lo: u32, hi: u32) -> u32 {
    if x < lo {
        lo
    } else if x > hi {
        hi
    } else {
        x
    }
}

/// `x`, or the limit that it is beyond.
fn clamp(x: u32, lo: u32, hi: u32) -> (r: u32)
    ensures
        r == within(x, lo, hi),
{
    if x < lo {
        lo
    } else if x > hi {
        hi
    } else {
        x
    }
}

/// What a swapchain is made with.
#[derive(Debug, Clone, Copy, PartialEq, Eq, Structural)]
pub struct SwapchainPlan {
    /// Position of the format.
    pub format: usize,
    pub extent: Extent,
    pub images: u32,
}

/// Why there can be no swapchain now.
#[derive(Debug, Clone, Copy, PartialEq, Eq, Structural)]
pub enum SwapchainError {
    NoFormats,
    ZeroSized,
}

/// What a swapchain for a window of a size is made with. A surface without formats, or one
/// without an area, as that of a minimised window, has none.
pub fn plan_swapchain(
    caps: SurfaceCaps,
    formats: &Vec<SurfaceFormat>,
    window: Extent,
) -> (r: Result<SwapchainPlan, SwapchainError>)
    requires
        caps.wf(),
    ensures
        formats@.len() == 0 ==> r == Err::<SwapchainPlan, SwapchainError>(
            SwapchainError::NoFormats,
        ),
        formats@.len() > 0 && (caps.size_for(window).width == 0 || caps.size_for(window).height
            == 0) ==> r == Err::<SwapchainPlan, SwapchainError>(SwapchainError::ZeroSized),
        formats@.len() > 0 && caps.size_for(window).width != 0 && caps.size_for(window).height != 0
            ==> (r matches Ok(p) && preferred(formats@, true, p.format as int) && p.format
            < formats@.len() && p.extent == caps.size_for(window) && p.images == caps.images()),
{
    if formats.len() == 0 {
        return Err(SwapchainError::NoFormats);
    }
    let format = pick_format(formats);
    let extent = if caps.current.width != u32::MAX {
        caps.current
    } else {
        Extent {
            width: clamp(window.width, caps.min.width, caps.max.width),
            height: clamp(window.height, caps.min.height, caps.max.height),
        }
    };
    if extent.width == 0 || extent.height == 0 {
        return Err(SwapchainError::ZeroSized);
    }
    let n: u32 = caps.min_images + 1;
    let images = if caps.max_images > 0 && caps.max_images < n {
        caps.max_images
    } else {
        n
    };
    Ok(SwapchainPlan { format, extent, images })
}

/// A swapchain keeps to what the surface allows.
pub proof fn a_swapchain_keeps_the_limits(caps: SurfaceCaps, window: Extent)
    requires
        caps.wf(),
    ensures
        caps.current.width == u32::MAX ==> {
            let e = caps.size_for(window);
            &&& caps.min.width <= e.width <= caps.max.width
            &&& caps.min.height <= e.height <= caps.max.height
        },
        caps.max_images > 0 ==> caps.images() <= caps.max_images,
        caps.max_images == 0 || caps.max_images >= caps.min_images ==> caps.images()
            >= caps.min_images,
{
}

proof fn lemma_usable(families: Seq<QueueFamily>, f: int)
    requires
        0 <= f < families.len(),
        families[f].graphics,
        families[f].presents,
    ensures
        exists|g: int| serves(families, g),
    decreases f,
{
    if exists|g: int| 0 <= g < f && (#[trigger] families[g]).graphics && families[g].presents {
        let g = choose|g: int|
            0 <= g < f && (#[trigger] families[g]).graphics && families[g].presents;
        lemma_usable(families, g);
    } else {
        assert(serves(families, f));
    }
}

/// Where any device has a queue that can draw and present, one is used: with such a queue, and of
/// a kind that none of the others is preferred to. A card of its own comes before one that shares
/// the memory, that before a virtual one, and that before any other.
pub proof fn the_best_device_is_used(
    devices: Seq<DeviceOffer>,
    r: Option<(usize, usize)>,
    d: int,
    f: int,
)
    requires
        is_pick(devices, r),
        0 <= d < devices.len(),
        0 <= f < devices[d].families@.len(),
        devices[d].families@[f].graphics,
        devices[d].families@[f].presents,
    ensures
        r is Some,
        ({
            let (e, g) = r->0;
            let (best, other) = (devices[e as int].kind, devices[d].kind);
            &&& e < devices.len()
            &&& g < devices[e as int].families@.len()
            &&& devices[e as int].families@[g as int].graphics
            &&& devices[e as int].families@[g as int].presents
            &&& other == DeviceKind::Discrete ==> best == DeviceKind::Discrete
            &&& other == DeviceKind::Integrated ==> best == DeviceKind::Discrete || best
                == DeviceKind::Integrated
            &&& other == DeviceKind::Virtual ==> best != DeviceKind::Other
            &&& best == other ==> e <= d
        }),
{
    lemma_usable(devices[d].families@, f);
    assert(usable(devices[d]));
}

/// The swapchain takes blue-first bytes wherever they are offered without conversion, red-first
/// ones where only they are, and otherwise what comes first.
pub proof fn plain_bytes_are_preferred(formats: Seq<SurfaceFormat>, srgb: bool, i: int, j: int)
    requires
        preferred(formats, srgb, i),
        0 <= j < formats.len(),
        srgb ==> formats[j].srgb,
    ensures
        formats[j].format == PixelFormat::Bgra8Unorm ==> formats[i].format
            == PixelFormat::Bgra8Unorm && i <= j && (srgb ==> formats[i].srgb),
        formats[j].format == PixelFormat::Rgba8Unorm ==> formats[i].format != PixelFormat::Other
            && (srgb ==> formats[i].srgb),
{
    if formats[j].format == PixelFormat::Bgra8Unorm {
        lemma_offers(formats, PixelFormat::Bgra8Unorm, srgb, j);
    }
    if formats[j].format == PixelFormat::Rgba8Unorm {
        lemma_offers(formats, PixelFormat::Rgba8Unorm, srgb, j);
    }
}

proof fn lemma_offers(formats: Seq<SurfaceFormat>, want: PixelFormat, srgb: bool, j: int)
    requires
        0 <= j < formats.len(),
        formats[j].format == want,
        srgb ==> formats[j].srgb,
    ensures
        offers(formats, want, srgb),
    decreases j,
{
    if exists|k: int|
        0 <= k < j && (#[trigger] formats[k]).format == want && (srgb ==> formats[k].srgb) {
        let k = choose|k: int|
            0 <= k < j && (#[trigger] formats[k]).format == want && (srgb ==> formats[k].srgb);
        lemma_offers(formats, want, srgb, k);
    } else {
        assert(first_like(formats, want, srgb, j));
    }
}

/// A swapchain has the size of its surface; where the surface leaves the size open it has that
/// of the window, as near as the limits let it come. It has one image more than the fewest,
/// unless that is one too many.
pub proof fn a_swapchain_fits_the_window(caps: SurfaceCaps, window: Extent)
    requires
        caps.wf(),
    ensures
        caps.current.width != u32::MAX ==> caps.size_for(window) == caps.current,
        caps.current.width == u32::MAX && caps.min.width <= window.width <= caps.max.width
            ==> caps.size_for(window).width == window.width,
        caps.current.width == u32::MAX && caps.min.height <= window.height <= caps.max.height
            ==> caps.size_for(window).height == window.height,
        caps.current.width == u32::MAX && window.width < caps.min.width ==> caps.size_for(
            window,
        ).width == caps.min.width,
        caps.current.width == u32::MAX && window.height > caps.max.height ==> caps.size_for(
            window,
        ).height == caps.max.height,
        caps.max_images == 0 || caps.max_images > caps.min_images ==> caps.images()
            == caps.min_images + 1,
{
}

/// The plainest depth format that the device can draw to is used, and one is used wherever there
/// is one.
pub proof fn the_plainest_depth_is_used(d32: bool, d32_s8: bool, d24_s8: bool)
    ensures
        depth_choice(d32, d32_s8, d24_s8) is None <==> !d32 && !d32_s8 && !d24_s8,
        depth_choice(d32, d32_s8, d24_s8) == Some(DepthFormat::D32Float) <==> d32,
        depth_choice(d32, d32_s8, d24_s8) == Some(DepthFormat::D32FloatS8) <==> d32_s8 && !d32,
{
}

/// A message is as loud as its gravest mark.
pub proof fn the_gravest_mark_is_heard(error: bool, warning: bool, info: bool)
    ensures
        level_of(error, warning, info) == LogLevel::Error <==> error,
        level_of(error, warning, info) == LogLevel::Warn <==> warning && !error,
        level_of(error, warning, info) == LogLevel::Trace <==> !error && !warning && !info,
{
}

} // verus!
