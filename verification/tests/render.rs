use infinite_worlds::device::{
    depth_format, log_level, pick_format, pick_physical_device, plan_instance, plan_swapchain,
    probe_format, wants_validation, DepthFormat, DeviceKind, DeviceOffer, Extent, LogLevel,
    PixelFormat, QueueFamily, SurfaceCaps, SurfaceFormat, SwapchainError,
};
use infinite_worlds::frame::{Acquired, Course, Frames, Presented};
use infinite_worlds::geometry::{
    build_geometry, draw_plan, ChunkRange, CornerLists, DrawStats,
};
use infinite_worlds::half::{f16_bits, pack_half2, pack_material, pack_unorm4, unorm_byte};
use infinite_worlds::shell::{icosphere, CLOUD_SHELL_LEVEL};
use infinite_worlds::uploads::{
    buffer_size, next_power_of_two, write_fits, CellShade, Copies, RiverWork, Rivers, UpdateError,
    Uploads, FRAMES_IN_FLIGHT,
};
use infinite_worlds::view::{
    layer_name, Pass, PipelineOpts, Scene, SunMode, SurfaceKind, ViewMode, LAYER_COUNT,
};

/// The exact bit patterns GLSL's `unpackHalf2x16` will read back.
#[test]
fn half_packing_matches_ieee_binary16() {
    for (v, bits) in [
        (0.0f32, 0x0000u16),
        (-0.0, 0x8000),
        (1.0, 0x3c00),
        (-2.0, 0xc000),
        (0.5, 0x3800),
        (0.1, 0x2e66),
        (65504.0, 0x7bff),
        (1.0e9, 0x7bff), // saturates instead of going infinite
        (-1.0e9, 0xfbff),
        (1.0e-9, 0x0000), // underflows to zero
        (6.0e-8, 0x0001), // smallest subnormal
    ] {
        let packed = f16_bits(v.to_bits());
        assert_eq!(packed, bits, "{v} packed as {packed:#06x}");
    }
    assert!(
        f16_bits(f32::NAN.to_bits()) & 0x7fff > 0x7c00,
        "NaN must stay NaN"
    );
    // Terrain gradients are small; they must survive the round trip.
    for g in [-0.4f32, -0.05, -0.001, 0.0, 0.001, 0.05, 0.4] {
        let packed = pack_half2(g.to_bits(), (-g).to_bits());
        let lo = half_to_f32((packed & 0xffff) as u16);
        let hi = half_to_f32((packed >> 16) as u16);
        assert!((lo - g).abs() < 1e-3 * g.abs().max(1e-3), "{g} -> {lo}");
        assert!((hi + g).abs() < 1e-3 * g.abs().max(1e-3), "{g} -> {hi}");
    }
}

fn half_to_f32(bits: u16) -> f32 {
    let sign = if bits & 0x8000 != 0 { -1.0 } else { 1.0 };
    let exp = ((bits >> 10) & 0x1f) as i32;
    let frac = (bits & 0x3ff) as f32;
    match exp {
        0 => sign * frac * 2f32.powi(-24),
        _ => sign * (1.0 + frac / 1024.0) * 2f32.powi(exp - 15),
    }
}

#[test]
fn halves_never_become_infinite() {
    // Just below the point where the largest half would round up.
    for v in [65519.9f32, 65520.0, 65535.0, f32::MAX, f32::INFINITY] {
        assert_eq!(f16_bits(v.to_bits()), 0x7bff, "{v}");
        assert_eq!(f16_bits((-v).to_bits()), 0xfbff, "-{v}");
    }
    // Half up: 2048 and a half of the next half.
    assert_eq!(f16_bits(2049.0f32.to_bits()), 0x6801);
    assert_eq!(f16_bits(2048.9f32.to_bits()), 0x6800);
    // Larger floats never become smaller halves.
    let mut last = 0;
    for e in 0..0x7f8 {
        let h = f16_bits(e << 20);
        assert!(h >= last);
        last = h;
    }
}

#[test]
fn material_bytes_survive_the_round_trip() {
    let unorm = |x: f32, y: f32, z: f32, w: f32| {
        pack_unorm4(x.to_bits(), y.to_bits(), z.to_bits(), w.to_bits())
    };
    let packed = unorm(SurfaceKind::Lake.code() as f32 / 255.0, 0.5, 1.0, 0.0);
    let bytes = packed.to_le_bytes();
    assert_eq!(bytes[0], 2, "kind is byte 0");
    assert_eq!(bytes[1], 128);
    assert_eq!(bytes[2], 255);
    assert_eq!(bytes[3], 0);
    // Out-of-range input clamps rather than wrapping.
    assert_eq!(unorm(-1.0, 2.0, 0.0, 0.0).to_le_bytes(), [0, 255, 0, 0]);
    assert_eq!(
        pack_material(SurfaceKind::Ocean, 0.5f32.to_bits(), 1.0f32.to_bits()).to_le_bytes(),
        [1, 128, 255, 0]
    );
    assert_eq!(SurfaceKind::default(), SurfaceKind::Land);
}

#[test]
fn unorm_bytes_agree_with_float_arithmetic() {
    let direct = |v: f32| (v.clamp(0.0, 1.0) * 255.0).round() as u32 as u8;
    for i in 0..=510u32 {
        // Every byte, every boundary between two, and their nearest floats.
        let v = i as f32 / 510.0;
        for bits in [
            v.to_bits(),
            v.to_bits().wrapping_add(1),
            v.to_bits().saturating_sub(1),
        ] {
            let v = f32::from_bits(bits);
            assert_eq!(unorm_byte(bits), direct(v), "{v}");
        }
    }
    for i in 0..200_000u32 {
        let bits = 0x3a00_0000 + i * 0x1a3;
        assert_eq!(unorm_byte(bits), direct(f32::from_bits(bits)));
    }
    for v in [
        f32::NAN,
        f32::INFINITY,
        f32::NEG_INFINITY,
        -0.0,
        f32::MIN_POSITIVE,
        1.0e-40,
        7.5,
    ] {
        assert_eq!(unorm_byte(v.to_bits()), direct(v), "{v}");
    }
}

#[test]
fn cloud_shell_is_a_closed_unit_sphere() {
    let (verts, indices) = placed(2);
    assert_eq!(verts.len(), 10 * 4usize.pow(2) + 2);
    assert_eq!(indices.len(), 20 * 4usize.pow(2) * 3);
    for v in &verts {
        assert!((length(*v) - 1.0).abs() < 1e-5);
    }
    // Every triangle faces outwards (CCW seen from outside), which is what
    // the cloud pipeline's back-face culling relies on.
    for f in indices.chunks(3) {
        let (a, b, c) = (
            verts[f[0] as usize],
            verts[f[1] as usize],
            verts[f[2] as usize],
        );
        let n = cross(minus(b, a), minus(c, a));
        let out = [a[0] + b[0] + c[0], a[1] + b[1] + c[1], a[2] + b[2] + c[2]];
        assert!(dot(n, out) > 0.0, "inward-facing triangle {f:?}");
    }
    assert_eq!(12 + icosphere(CLOUD_SHELL_LEVEL).parents.len(), 10242);
}

fn placed(level: u32) -> (Vec<[f32; 3]>, Vec<u32>) {
    let t = (1.0 + 5.0f32.sqrt()) * 0.5;
    let mut verts: Vec<[f32; 3]> = [
        [-1.0, t, 0.0],
        [1.0, t, 0.0],
        [-1.0, -t, 0.0],
        [1.0, -t, 0.0],
        [0.0, -1.0, t],
        [0.0, 1.0, t],
        [0.0, -1.0, -t],
        [0.0, 1.0, -t],
        [t, 0.0, -1.0],
        [t, 0.0, 1.0],
        [-t, 0.0, -1.0],
        [-t, 0.0, 1.0],
    ]
    .iter()
    .map(|v| unit(*v))
    .collect();
    let shell = icosphere(level);
    for (a, b) in &shell.parents {
        let (a, b) = (verts[*a as usize], verts[*b as usize]);
        verts.push(unit([a[0] + b[0], a[1] + b[1], a[2] + b[2]]));
    }
    (verts, shell.indices())
}

fn length(v: [f32; 3]) -> f32 {
    dot(v, v).sqrt()
}

fn dot(a: [f32; 3], b: [f32; 3]) -> f32 {
    a[0] * b[0] + a[1] * b[1] + a[2] * b[2]
}

fn unit(v: [f32; 3]) -> [f32; 3] {
    let l = length(v);
    [v[0] / l, v[1] / l, v[2] / l]
}

fn minus(a: [f32; 3], b: [f32; 3]) -> [f32; 3] {
    [a[0] - b[0], a[1] - b[1], a[2] - b[2]]
}

fn cross(a: [f32; 3], b: [f32; 3]) -> [f32; 3] {
    [
        a[1] * b[2] - a[2] * b[1],
        a[2] * b[0] - a[0] * b[2],
        a[0] * b[1] - a[1] * b[0],
    ]
}

#[test]
fn every_edge_of_the_shell_is_run_once_each_way() {
    for level in 0..4 {
        let shell = icosphere(level);
        let mut edges = std::collections::HashSet::new();
        for f in &shell.faces {
            for (a, b) in [(f.a, f.b), (f.b, f.c), (f.c, f.a)] {
                assert!(edges.insert((a, b)), "{a}-{b} is run twice");
            }
        }
        for (a, b) in &edges {
            assert!(edges.contains(&(*b, *a)), "{a}-{b} is open");
        }
        assert_eq!(edges.len(), 60 * 4usize.pow(level));
        assert_eq!(shell.indices().len(), 60 * 4usize.pow(level));
    }
}

#[test]
fn layer_index_is_clamped_for_display() {
    assert_eq!(layer_name(99usize), "Precipitation");
    assert_eq!(layer_name(LAYER_COUNT - 1), "Precipitation");
    assert_eq!(layer_name(0), "Beauty (placeholder)");
    assert_eq!(layer_name(4), "Crust age");
}

#[test]
fn sun_modes_have_labels() {
    assert_eq!(SunMode::CameraRelative.name(), "camera-relative sun");
    assert_eq!(SunMode::Fixed.name(), "fixed sun");
    assert_eq!(SunMode::default(), SunMode::CameraRelative);
    assert!(SunMode::Fixed.lights_from_fixed(false));
    assert!(SunMode::CameraRelative.lights_from_fixed(true));
    assert!(!SunMode::CameraRelative.lights_from_fixed(false));
}

#[test]
fn a_map_has_no_halo_rivers_or_clouds() {
    let mut scene = Scene {
        mode: ViewMode::Globe,
        beauty: true,
        cull: true,
        hazy: true,
        cloudy: true,
    };
    assert!(scene.culls() && scene.draws_halo());
    assert!(scene.draws_rivers(3, true) && scene.draws_clouds(3, true));
    assert!(!scene.draws_rivers(0, true) && !scene.draws_clouds(0, true));
    assert!(!scene.draws_rivers(3, false) && !scene.draws_clouds(3, false));
    assert_eq!(scene.globe_flags(7), [0, 1, 7, 0]);
    assert_eq!(scene.river_flags(), [0, 1, 0, 0]);
    scene.mode = ViewMode::Mercator;
    assert!(!scene.culls() && !scene.draws_halo());
    assert!(!scene.draws_rivers(3, true) && !scene.draws_clouds(3, true));
    assert_eq!(scene.globe_flags(7), [1, 1, 7, 0]);
    assert_eq!(ViewMode::Globe.switch_label(), "Switch to Mercator");
    assert_eq!(ViewMode::Mercator.switch_label(), "Switch to Globe");
}

#[test]
fn only_the_globe_writes_depth() {
    for pass in [Pass::Stars, Pass::Halo, Pass::Globe, Pass::Rivers, Pass::Clouds] {
        assert_eq!(pass.opts().depth_write, pass == Pass::Globe);
    }
    assert_eq!(
        Pass::Clouds.opts(),
        PipelineOpts {
            depth_test: true,
            depth_write: false,
            blend: true,
            cull_back: true
        }
    );
    assert!(Pass::Halo.opts().blend && !Pass::Stars.opts().blend);
}

/// Two squares that share an edge, and a cell with two corners only.
fn squares() -> CornerLists {
    CornerLists {
        offsets: vec![0, 4, 8, 10],
        corners: vec![0, 1, 2, 3, 1, 4, 5, 2, 0, 1],
        n_vertices: 6,
    }
}

#[test]
fn cells_become_fans() {
    let g = build_geometry(&squares(), &vec![vec![0, 2], vec![1]]);
    assert_eq!(g.vertices.len(), 8);
    assert_eq!(
        g.indices,
        vec![0, 1, 2, 0, 2, 3, 4, 5, 6, 4, 6, 7],
        "two triangles per square, none for the cell with two corners"
    );
    assert_eq!(
        g.ranges,
        vec![
            ChunkRange {
                first_index: 0,
                index_count: 6
            },
            ChunkRange {
                first_index: 6,
                index_count: 6
            }
        ]
    );
    // Vertex 1 touches all three cells, vertex 3 only the first.
    let at = |i: usize| {
        let v = g.vertices[i];
        (v.vertex, v.owner, v.second, v.third)
    };
    assert_eq!(at(1), (1, 0, 1, 2));
    assert_eq!(at(3), (3, 0, 0, 0));
    assert_eq!(at(4), (1, 1, 0, 2));
    assert_eq!(at(7), (2, 1, 0, 1));
    // Triangles stay within their cell.
    for t in g.indices.chunks(3) {
        let owner = g.vertices[t[0] as usize].owner;
        assert!(t.iter().all(|i| g.vertices[*i as usize].owner == owner));
    }
}

#[test]
fn a_vertex_keeps_its_first_three_cells() {
    // Four triangles around vertex 0.
    let m = CornerLists {
        offsets: vec![0, 3, 6, 9, 12],
        corners: vec![0, 1, 2, 0, 2, 3, 0, 3, 4, 0, 4, 1],
        n_vertices: 5,
    };
    let g = build_geometry(&m, &vec![vec![3]]);
    let v = g.vertices[0];
    assert_eq!((v.vertex, v.owner, v.second, v.third), (0, 3, 0, 1));
}

#[test]
fn culled_chunks_are_not_drawn() {
    let range = |first_index: u32, index_count: u32| ChunkRange {
        first_index,
        index_count,
    };
    let ranges = vec![range(0, 6), range(6, 0), range(6, 9), range(15, 3)];
    let (drawn, stats) = draw_plan(&ranges, true, &vec![true, true, false, true]);
    assert_eq!(drawn, vec![0, 3]);
    assert_eq!(
        stats,
        DrawStats {
            chunks_total: 4,
            chunks_drawn: 2,
            triangles_drawn: 3
        }
    );
    let (drawn, stats) = draw_plan(&ranges, false, &vec![]);
    assert_eq!(drawn, vec![0, 2, 3]);
    assert_eq!(stats.triangles_drawn, 6);
    assert_eq!(DrawStats::default().chunks_total, 0);
}

#[test]
fn changes_are_due_once_per_frame() {
    let mut u = Uploads::new(3);
    assert_eq!(FRAMES_IN_FLIGHT, 2);
    assert_eq!(
        u.due(0),
        Copies {
            cells: false,
            coverage: true
        }
    );
    // Before the first geometry there is nothing to update.
    assert_eq!(u.update_cells(&[1], &[]), Ok(()));
    assert!(!u.due(1).cells);
    u.uploaded(2);
    assert!(u.due(0).cells && u.due(1).cells);
    u.cells_copied(0);
    assert!(!u.due(0).cells && u.due(1).cells);
    u.coverage_copied(1);
    assert!(u.due(0).coverage && !u.due(1).coverage);
    u.cells_copied(1);
    assert_eq!(
        u.update_cells(&[1, 2], &[[1, 2, 3, 4], [5, 6, 7, 8]]),
        Ok(())
    );
    assert!(u.due(0).cells && u.due(1).cells);
    assert_eq!(u.pending[1].elevation, 2);
    assert_eq!(u.pending[1].color, u32::from_le_bytes([5, 6, 7, 8]));
    assert_eq!(u.pending[1].gradient, 0);
    u.cleared();
    assert!(!u.due(0).cells);
    assert_eq!(u.n_cells, 0);
}

#[test]
fn updates_of_the_wrong_size_are_refused() {
    let mut u = Uploads::new(2);
    u.uploaded(2);
    assert_eq!(
        u.update_cells(&[1], &[[0; 4]; 2]),
        Err(UpdateError::Cells {
            expected: 2,
            elevations: 1,
            colours: 2
        })
    );
    let shade = CellShade {
        grad_east: 1.0f32.to_bits(),
        grad_north: (-2.0f32).to_bits(),
        kind: SurfaceKind::Lake,
        depth_t: 0.5f32.to_bits(),
        ice_t: 1.0f32.to_bits(),
    };
    assert_eq!(
        u.update_cells_shaded(&[1, 2], &[[0; 4]; 2], Some(&[shade])),
        Err(UpdateError::Shades {
            expected: 2,
            got: 1
        })
    );
    assert_eq!(
        u.update_cells_shaded(&[1, 2], &[[0; 4]; 2], Some(&[shade, shade])),
        Ok(())
    );
    assert_eq!(u.pending[0].gradient, 0xc000_3c00);
    assert_eq!(u.pending[0].material.to_le_bytes(), [2, 128, 255, 0]);
    assert_eq!(
        u.update_cloud_coverage(&[1]),
        Err(UpdateError::Coverage {
            expected: 2,
            got: 1
        })
    );
    assert_eq!(u.update_cloud_coverage(&[3, 4]), Ok(()));
    assert_eq!(u.coverage, vec![3, 4]);
}

#[test]
fn river_buffers_grow_in_powers_of_two() {
    let mut r = Rivers::new();
    assert_eq!(r.set(0), RiverWork::Nothing);
    assert_eq!(r.set(3), RiverWork::Replace { capacity: 128 });
    r.replaced(128);
    assert_eq!(r.set(4), RiverWork::Rewrite);
    assert_eq!(r.set(1), RiverWork::Rewrite);
    assert_eq!(r.set(5), RiverWork::Replace { capacity: 256 });
    assert_eq!(r.count, 5);
    for n in [0u64, 1, 2, 3, 4, 5, 1000, 1 << 40, (1 << 40) + 1] {
        assert_eq!(next_power_of_two(n), n.next_power_of_two());
    }
    assert_eq!(buffer_size(0), 4);
    assert_eq!(buffer_size(5), 5);
    assert!(write_fits(4, 4) && !write_fits(5, 4));
}

fn offer(kind: DeviceKind, families: &[(bool, bool)]) -> DeviceOffer {
    DeviceOffer {
        kind,
        families: families
            .iter()
            .map(|(graphics, presents)| QueueFamily {
                graphics: *graphics,
                presents: *presents,
            })
            .collect(),
    }
}

#[test]
fn the_most_capable_device_is_used() {
    let both = [(true, true)];
    let devices = vec![
        offer(DeviceKind::Other, &both),
        offer(DeviceKind::Integrated, &[(true, false), (false, true), (true, true)]),
        offer(DeviceKind::Discrete, &[(true, false)]),
        offer(DeviceKind::Integrated, &both),
        offer(DeviceKind::Virtual, &both),
    ];
    // The discrete one cannot present, and the first integrated one comes first.
    assert_eq!(pick_physical_device(&devices), Some((1, 2)));
    assert_eq!(
        pick_physical_device(&vec![offer(DeviceKind::Discrete, &[(false, true)])]),
        None
    );
    assert_eq!(pick_physical_device(&vec![]), None);
}

#[test]
fn validation_is_opt_in() {
    assert!(wants_validation(true, None));
    assert!(wants_validation(false, Some("1")));
    assert!(!wants_validation(false, Some("0")));
    assert!(!wants_validation(false, Some("")));
    assert!(!wants_validation(false, None));
    let p = plan_instance(true, false, true, false);
    assert!(p.portability && !p.debug_utils && !p.validation);
    assert!(plan_instance(false, false, true, true).validation);
    assert_eq!(depth_format(true, true, true), Some(DepthFormat::D32Float));
    assert_eq!(depth_format(false, true, true), Some(DepthFormat::D32FloatS8));
    assert_eq!(depth_format(false, false, true), Some(DepthFormat::D24UnormS8));
    assert_eq!(depth_format(false, false, false), None);
    assert_eq!(log_level(true, true, true), LogLevel::Error);
    assert_eq!(log_level(false, true, true), LogLevel::Warn);
    assert_eq!(log_level(false, false, true), LogLevel::Debug);
    assert_eq!(log_level(false, false, false), LogLevel::Trace);
}

fn format(format: PixelFormat, srgb: bool) -> SurfaceFormat {
    SurfaceFormat { format, srgb }
}

#[test]
fn formats_without_conversion_are_preferred() {
    let formats = vec![
        format(PixelFormat::Other, true),
        format(PixelFormat::Rgba8Unorm, true),
        format(PixelFormat::Bgra8Unorm, false),
        format(PixelFormat::Bgra8Unorm, true),
    ];
    assert_eq!(pick_format(&formats), 3);
    assert_eq!(probe_format(&formats), 2);
    assert_eq!(pick_format(&formats[..3].to_vec()), 1);
    assert_eq!(pick_format(&formats[..1].to_vec()), 0);
}

#[test]
fn swapchains_keep_to_the_surface() {
    let extent = |width: u32, height: u32| Extent { width, height };
    let mut caps = SurfaceCaps {
        current: extent(u32::MAX, u32::MAX),
        min: extent(100, 100),
        max: extent(2000, 1000),
        min_images: 2,
        max_images: 0,
    };
    let formats = vec![format(PixelFormat::Bgra8Unorm, true)];
    let p = plan_swapchain(caps, &formats, extent(5000, 50)).unwrap();
    assert_eq!(p.extent, extent(2000, 100));
    assert_eq!(p.images, 3);
    caps.max_images = 2;
    caps.current = extent(640, 480);
    let p = plan_swapchain(caps, &formats, extent(5000, 50)).unwrap();
    assert_eq!(p.extent, extent(640, 480));
    assert_eq!(p.images, 2);
    // A surface that gives its size does not go by its limits.
    caps.min = extent(900, 900);
    caps.max = extent(0, 0);
    let p = plan_swapchain(caps, &formats, extent(5000, 50)).unwrap();
    assert_eq!(p.extent, extent(640, 480));
    caps.current = extent(0, 0);
    assert_eq!(
        plan_swapchain(caps, &formats, extent(1, 1)),
        Err(SwapchainError::ZeroSized)
    );
    assert_eq!(
        plan_swapchain(caps, &vec![], extent(1, 1)),
        Err(SwapchainError::NoFormats)
    );
}

#[test]
fn textures_wait_for_the_frames_in_flight() {
    let mut f = Frames::new((800, 600));
    f.release(vec![7, 8]);
    f.release(vec![]);
    assert_eq!(f.pending.len(), 1);
    assert_eq!(f.take_due(), Vec::<u64>::new());
    f.presented(Presented::Fine, false);
    f.release(vec![9]);
    assert_eq!(f.take_due(), Vec::<u64>::new());
    f.presented(Presented::Fine, false);
    assert_eq!(f.take_due(), vec![7, 8]);
    assert_eq!(f.take_due(), Vec::<u64>::new());
    f.presented(Presented::Fine, false);
    assert_eq!(f.take_due(), vec![9]);
}

#[test]
fn a_frame_is_skipped_until_it_can_be_presented() {
    let mut f = Frames::new((800, 600));
    assert!(!f.must_recreate());
    assert_eq!(
        f.acquired(Acquired::Image { suboptimal: false }),
        Course::Draw
    );
    assert_eq!(f.presented(Presented::Fine, false), Course::Draw);
    assert_eq!((f.frame, f.counter), (1, 1));
    assert!(!f.must_recreate());

    // A suboptimal image is drawn, and the swapchain made anew afterwards.
    assert_eq!(f.presented(Presented::Fine, true), Course::Draw);
    assert!(f.must_recreate());
    assert_eq!((f.frame, f.counter), (0, 2));
    assert_eq!(f.recreated(false), Course::Skip);
    assert!(f.must_recreate());
    assert_eq!(f.recreated(true), Course::Draw);
    assert!(!f.must_recreate());

    assert_eq!(f.acquired(Acquired::OutOfDate), Course::Skip);
    assert!(f.must_recreate());
    assert_eq!(f.recreated(true), Course::Draw);
    assert_eq!(f.presented(Presented::OutOfDate, false), Course::Draw);
    assert!(f.must_recreate());
    assert_eq!(f.recreated(true), Course::Draw);
    assert_eq!(f.acquired(Acquired::Failed), Course::Fail);
    assert_eq!(f.presented(Presented::Failed, false), Course::Fail);
    assert_eq!(f.counter, 3);
    f.request_resize((10, 20));
    assert!(f.must_recreate());
    assert_eq!(f.size, (10, 20));
}
