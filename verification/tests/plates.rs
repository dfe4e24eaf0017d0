use infinite_worlds::advect::{candidates, chunk_plates, pull_claims, push_claims, Decision, Ranks};
use infinite_worlds::boundary::{build_edges, classify, Edge, Kind};
use infinite_worlds::contact::{most_touched_by_label, most_touched_by_plate};
use infinite_worlds::drift::{
    arc_hop, boundary_pairs, breaks_up, matures, must_tidy, plates_act, plumes_to_place,
    relaxation, Crust, Effect, Relaxation, ARC, ARC_HOPS, COLLISION, RIFT, SUBDUCTING, SUTURE, TRANSFORM,
};
use infinite_worlds::fields::{column_plan, remap, reset_due, Fields};
use infinite_worlds::flood::{flood, plate_components, UNMARKED};
use infinite_worlds::genesis::{
    accrete, assembled, membership, micro_count, octaves, recipe, unassigned, GenesisKey, Member,
    Search, Trial, GENESIS_TRIES,
};
use infinite_worlds::graph::CellGraph;
use infinite_worlds::heap::LevelHeap;
use infinite_worlds::keys::{bits_of_total, key_of_total, key_of_value, key_of_wide};
use infinite_worlds::partition::{key_at_rank, mark_weakness, Division};
use infinite_worlds::phase::Phase;
use infinite_worlds::plate::{Axis, Mosaic, Plate, Turn, ONE_BITS, UNASSIGNED};
use infinite_worlds::process::{clear_transient, plan_step, CacheKey};
use infinite_worlds::retess::{density_floors, plan, Floor, PlanetCells};
use infinite_worlds::rift::{
    min_riftable, next_cell, plate_members, rift_seed, rifting_plate, weakest, Ahead, RiftPath,
};
use infinite_worlds::sort::sort_cells;
use infinite_worlds::surface::RockType;
use infinite_worlds::test_util::{ring_mesh, tiny_mesh};

/// A strip of `w` by `h` cells, each with up to four neighbours.
fn grid(w: u32, h: u32) -> CellGraph {
    let mut offsets = vec![0u32];
    let mut neighbors = Vec::new();
    for y in 0..h {
        for x in 0..w {
            let c = y * w + x;
            if y > 0 {
                neighbors.push(c - w);
            }
            if x > 0 {
                neighbors.push(c - 1);
            }
            if x + 1 < w {
                neighbors.push(c + 1);
            }
            if y + 1 < h {
                neighbors.push(c + w);
            }
            offsets.push(neighbors.len() as u32);
        }
    }
    CellGraph { offsets, neighbors }
}

fn plate(speed: u64) -> Plate {
    Plate {
        euler_pole: Axis {
            x: 0,
            y: 0,
            z: ONE_BITS,
        },
        omega_rad_myr: speed,
        accum: Turn {
            x: 7,
            y: 7,
            z: 7,
            w: 7,
        },
        welded_to: None,
        rift_partner: None,
        rift_born_myr: 0,
    }
}

fn mosaic(ids: &[u16], plates: usize) -> Mosaic {
    Mosaic {
        plate_id: ids.to_vec(),
        plates: (0..plates as u64).map(plate).collect(),
    }
}

#[test]
fn meshes_know_their_neighbours() {
    let tiny = tiny_mesh();
    assert_eq!(tiny.graph.n_cells(), 4);
    assert_eq!(tiny.graph.degree(2), 3);
    let ring = ring_mesh(5);
    assert_eq!(ring.graph.neighbor(0, 0), 4);
    assert_eq!(ring.graph.neighbor(0, 1), 1);
    for c in 0..5 {
        for k in 0..ring.graph.degree(c) {
            let m = ring.graph.neighbor(c, k);
            assert!((0..ring.graph.degree(m)).any(|j| ring.graph.neighbor(m, j) == c));
        }
    }
}

#[test]
fn cells_are_sorted_by_key_then_id() {
    let key = [5, 1, 5, -3, 1];
    assert_eq!(sort_cells(vec![4, 3, 2, 1, 0], &key, false), [3, 1, 4, 0, 2]);
    assert_eq!(sort_cells(vec![4, 3, 2, 1, 0], &key, true), [0, 2, 1, 4, 3]);
    assert_eq!(sort_cells(vec![], &key, true), Vec::<u32>::new());
}

#[test]
fn the_heap_gives_the_lowest_level_first() {
    let mut h = LevelHeap::new();
    assert!(h.is_empty());
    for x in [(5, 2), (1, 9), (5, 1), (-4, 7), (1, 3)] {
        h.push(x);
    }
    let mut out = Vec::new();
    while let Some(x) = h.pop() {
        out.push(x);
    }
    assert_eq!(out, [(-4, 7), (1, 3), (1, 9), (5, 1), (5, 2)]);
    assert!(h.is_empty());
}

#[test]
fn keys_order_as_floats_do() {
    let values = [
        f32::NEG_INFINITY,
        -1.5e20,
        -1.0,
        -1.0e-40,
        -0.0,
        0.0,
        1.0e-40,
        0.5,
        1.0,
        7.0e30,
        f32::INFINITY,
    ];
    for a in values {
        assert_eq!(
            f32::from_bits(bits_of_total(key_of_total(a.to_bits()))).to_bits(),
            a.to_bits()
        );
        for b in values {
            let (ka, kb) = (key_of_value(a.to_bits()), key_of_value(b.to_bits()));
            assert_eq!(ka < kb, a < b);
            assert_eq!(ka == kb, a == b);
            let (ta, tb) = (key_of_total(a.to_bits()), key_of_total(b.to_bits()));
            assert_eq!(ta.cmp(&tb), a.total_cmp(&b));
            let (wa, wb) = (
                key_of_wide((a as f64).to_bits()),
                key_of_wide((b as f64).to_bits()),
            );
            assert_eq!(wa.cmp(&wb), (a as f64).total_cmp(&(b as f64)));
        }
    }
}

#[test]
fn a_flood_stays_on_its_plate() {
    // Plates by column: 0 0 1 0.
    let g = grid(4, 2);
    let ids = [0u16, 0, 1, 0, 0, 0, 1, 0];
    let mut mark = vec![UNMARKED; 8];
    assert_eq!(flood(&g, &ids, &mut mark, 0, 3), 4);
    assert_eq!(mark, [3, 3, UNMARKED, UNMARKED, 3, 3, UNMARKED, UNMARKED]);
    let mut label = vec![0; 8];
    assert_eq!(plate_components(&g, &ids, &mut label), 3);
    assert_eq!(label, [0, 0, 1, 2, 0, 0, 1, 2]);
}

#[test]
fn contacts_are_counted_per_edge() {
    // Cell 0 touches plate 2 once and plate 1 once: the smaller id wins the tie.
    let g = grid(3, 3);
    let ids = [0u16, 1, 1, 2, 2, 1, 2, 2, 2];
    assert_eq!(most_touched_by_plate(&g, &ids, 0), 1);
    assert_eq!(most_touched_by_plate(&g, &ids, 1), 2);
    let label = [0u32, 9, 9, 9, 9, 9, 9, 9, 9];
    assert_eq!(most_touched_by_label(&g, &ids, &label, 0, 0), 1);
    // Nothing touched but itself.
    let alone = [4u16; 9];
    assert_eq!(most_touched_by_plate(&g, &alone, 4), UNASSIGNED);
}

#[test]
fn strays_are_calved_or_absorbed() {
    let g = grid(6, 2);
    // Plate 0 is in two pieces: four cells on the left, two on the right.
    let ids = [0u16, 0, 1, 1, 1, 0, 0, 0, 1, 1, 1, 0];
    let mut m = mosaic(&ids, 2);
    assert!(m.enforce_contiguity(&g, 3, 64));
    assert_eq!(m.plate_id, [0, 0, 1, 1, 1, 1, 0, 0, 1, 1, 1, 1]);
    assert_eq!(m.plates.len(), 2);

    let mut m = mosaic(&ids, 2);
    assert!(m.enforce_contiguity(&g, 2, 64));
    assert_eq!(m.plate_id, [0, 0, 1, 1, 1, 2, 0, 0, 1, 1, 1, 2]);
    assert_eq!(m.plates.len(), 3);
    // The fragment moves as its parent does, with nothing pending.
    assert_eq!(m.plates[2].omega_rad_myr, 0);
    assert_eq!(m.plates[2].accum.w, ONE_BITS);

    // No room for another plate.
    let mut m = mosaic(&ids, 2);
    assert!(m.enforce_contiguity(&g, 2, 2));
    assert_eq!(m.plates.len(), 2);

    // Nothing to do.
    let mut m = mosaic(&[0, 0, 0, 1, 1, 1, 0, 0, 0, 1, 1, 1], 2);
    assert!(!m.enforce_contiguity(&g, 1, 64));
}

#[test]
fn strays_that_touch_each_other_most_trade_places() {
    let line = grid(10, 1);
    let ids = [0u16, 0, 0, 2, 0, 1, 3, 1, 1, 1];
    let mut m = mosaic(&ids, 4);
    assert!(m.enforce_contiguity(&line, 9, 64));
    // Four sweeps bring them back to where they were.
    assert_eq!(m.plate_id, ids);
    // With room to calve they settle.
    assert!(m.enforce_contiguity(&line, 1, 64));
    assert_eq!(m.plate_id, [0, 0, 0, 2, 4, 5, 3, 1, 1, 1]);
    assert!(!m.enforce_contiguity(&line, 1, 64));
}

#[test]
fn empty_plates_are_dropped_and_links_follow() {
    let mut m = mosaic(&[0, 3, 3, 2], 4);
    m.plates[0].rift_partner = Some(3);
    m.plates[2].rift_partner = Some(1);
    m.plates[3].welded_to = Some(1);
    assert!(m.compact_plates());
    assert_eq!(m.plate_id, [0, 2, 2, 1]);
    assert_eq!(m.plates.len(), 3);
    assert_eq!(m.plates[0].rift_partner, Some(2));
    assert_eq!(m.plates[1].rift_partner, None);
    assert_eq!(m.plates[2].welded_to, None);
    assert_eq!(m.plates[2].omega_rad_myr, 3);
    assert!(!m.compact_plates());
}

#[test]
fn tiny_plates_join_the_neighbour_they_touch_most() {
    let g = grid(4, 2);
    let mut m = mosaic(&[0, 0, 1, 2, 0, 0, 2, 2], 3);
    assert!(m.absorb_tiny_plates(&g, 2));
    assert_eq!(m.plate_id, [0, 0, 2, 2, 0, 0, 2, 2]);
    // Two plates are never folded into one.
    let mut m = mosaic(&[0, 1, 1, 1, 1, 1, 1, 1], 2);
    assert!(!m.absorb_tiny_plates(&g, 5));
}

#[test]
fn a_rift_splits_the_plate_it_severs() {
    assert_eq!(min_riftable(100), 24);
    assert_eq!(min_riftable(8000), 100);
    let counts = [10, 30, 40];
    assert_eq!(rifting_plate(&[true, true, true], &counts, 100), Some(1));
    assert_eq!(rifting_plate(&[true, false, false], &counts, 100), None);
    assert_eq!(rifting_plate(&vec![true; 64], &vec![99; 64], 100), None);

    let g = grid(9, 4);
    let ids = [0u16; 36];
    assert_eq!(plate_members(&ids, 0).len(), 36);
    assert_eq!(weakest(&[3, 4, 5], &[0, 0, 0, 1, 8, 8]), 4);
    let mut key = vec![0; 36];
    key[4] = 5;
    assert_eq!(rift_seed(&ids, 0, &key), Some(4));
    assert_eq!(rift_seed(&ids, 1, &key), None);

    // Down the middle column.
    let mut path = RiftPath::start(&ids, 4);
    assert_eq!(path.ahead(&g, &ids, 4, 0), Ahead::Free(3));
    assert!(path.grow(&ids, 13, 36));
    assert_eq!(path.ahead(&g, &ids, 13, 0), Ahead::Taken);
    assert!(path.grow(&ids, 22, 36));
    let mut m = mosaic(&ids, 1);
    assert!(m.sever(&g, &path).is_none(), "the bottom row still joins them");
    assert!(!path.grow(&ids, 31, 3));
    let opened = m.sever(&g, &path).unwrap();
    assert_eq!(opened.new_id, 1);
    assert_eq!(m.plates.len(), 2);
    // Two pieces of sixteen, and the rift itself on the side it votes for: none is in the
    // majority, so it stays.
    assert_eq!(m.plate_id.iter().filter(|p| **p == 1).count(), 16);
    assert_eq!(m.plate_id[5], 1);
    assert_eq!(m.plate_id[4], 0);
    assert_eq!(opened.boundary, [4, 5, 13, 14, 22, 23, 31, 32]);

    // At another plate a leg is complete.
    let mut other = ids;
    other[3] = 7;
    let path = RiftPath::start(&other, 4);
    assert_eq!(path.ahead(&g, &other, 4, 0), Ahead::Edge);
    assert_eq!(next_cell(&[(1, 5), (9, 6), (9, 7)], false), Some(6));
    assert_eq!(next_cell(&[(1, 5)], true), None);
    assert_eq!(next_cell(&[], false), None);
}

#[test]
fn boundaries_run_between_plates() {
    assert_eq!(classify(5, -5, 2, 1), Kind::Convergent);
    assert_eq!(classify(-5, 5, 2, 1), Kind::Divergent);
    assert_eq!(classify(2, -2, 2, 1), Kind::Transform);
    assert_eq!(classify(1, -1, 0, 1), Kind::Transform);
    let g = grid(3, 1);
    let m = mosaic(&[0, 1, 1], 2);
    assert_eq!(
        build_edges(&g, &m),
        [Edge {
            a: 0,
            b: 1,
            slot: 0,
            pa: 0,
            pb: 1
        }]
    );
    // Cells of no plate have no boundary.
    assert!(build_edges(&g, &mosaic(&[0, UNASSIGNED, 1], 2)).is_empty());
}

fn edge(a: u32, b: u32, pa: u16, pb: u16) -> Edge {
    Edge {
        a,
        b,
        slot: 0,
        pa,
        pb,
    }
}

#[test]
fn arcs_stand_from_the_second_hop_on() {
    let mut crust = Crust {
        continental: vec![true; 4],
        age: vec![0; 4],
        flags: vec![RIFT; 4],
        renewed: vec![false; 4],
    };
    let laid: Vec<bool> = (1..=ARC_HOPS).map(|hop| crust.lay_arc(hop - 1, hop)).collect();
    assert_eq!(laid, [false, true, true, true]);
    assert_eq!(crust.flags, [RIFT, RIFT | ARC, RIFT | ARC, RIFT | ARC]);
    assert_eq!(crust.age, [0; 4]);
}

#[test]
fn the_boundary_pass_marks_what_happens() {
    let mut crust = Crust {
        continental: vec![true, true, false, false, false],
        age: vec![0, 0, 10, 20, 30],
        flags: vec![0; 5],
        renewed: vec![false; 5],
    };
    let edges = [
        edge(0, 1, 0, 1),
        edge(1, 2, 1, 2),
        edge(2, 3, 2, 3),
        edge(3, 4, 3, 4),
        edge(2, 4, 2, 4),
        edge(0, 3, 0, 3),
    ];
    let kinds = [
        Kind::Convergent,
        Kind::Convergent,
        Kind::Convergent,
        Kind::Divergent,
        Kind::Divergent,
        Kind::Transform,
    ];
    assert!(crust.wants_draw(&edges[3], kinds[3]));
    assert!(!crust.wants_draw(&edges[2], kinds[2]));
    let effects = crust.boundary_pass(&edges, &kinds, &[true; 6]);
    assert_eq!(
        effects,
        [
            Effect::Collide,
            // Continental crust never goes down.
            Effect::Subduct { a_down: false },
            // Between two oceans the older side does.
            Effect::Subduct { a_down: false },
            // The older side is renewed, and then is the younger one.
            Effect::Spread {
                stretch_a: false,
                stretch_b: false,
                renew: Some(4)
            },
            Effect::Spread {
                stretch_a: false,
                stretch_b: false,
                renew: Some(2)
            },
            Effect::Slip,
        ]
    );
    assert_eq!(crust.flags[0], COLLISION | TRANSFORM);
    assert_eq!(crust.flags[1], COLLISION);
    assert_eq!(crust.flags[2], SUBDUCTING | RIFT);
    assert_eq!(crust.flags[3], SUBDUCTING | RIFT | TRANSFORM);
    assert_eq!(crust.flags[4], RIFT);
    assert_eq!(crust.renewed, [false, false, true, false, true]);
    assert_eq!(crust.age[4], 0);
    // A cell is renewed once only.
    let again = crust.resolve_edge(&edge(3, 4, 3, 4), Kind::Divergent, true);
    assert_eq!(
        again,
        Effect::Spread {
            stretch_a: false,
            stretch_b: false,
            renew: Some(3)
        }
    );
    crust.renewed[3] = true;
    crust.age[3] = 99;
    let again = crust.resolve_edge(&edge(3, 4, 3, 4), Kind::Divergent, true);
    assert_eq!(
        again,
        Effect::Spread {
            stretch_a: false,
            stretch_b: false,
            renew: None
        }
    );
}

#[test]
fn plates_that_stopped_being_two_merge() {
    let edges = [edge(1, 2, 0, 1), edge(3, 4, 2, 1), edge(1, 2, 0, 1)];
    let pairs = boundary_pairs(&edges);
    assert_eq!(pairs, [(0, 1), (1, 2)]);
    let mut m = mosaic(&[0, 0, 1, 1, 2], 3);
    let count = m.cell_counts();
    assert_eq!(count, [2, 2, 1]);
    let mut flags = vec![0u8; 5];
    assert!(m
        .merge_first(&edges, &pairs, &[false; 2], &[false; 2], &count, &mut flags)
        .is_none());
    let merged = m
        .merge_first(&edges, &pairs, &[false, true], &[false, true], &count, &mut flags)
        .unwrap();
    assert_eq!((merged.keep, merged.gone, merged.welded), (1, 2, true));
    assert_eq!(m.plate_id, [0, 0, 1, 1, 1]);
    assert_eq!(flags, [0, 0, 0, SUTURE, SUTURE]);
    // A quiet boundary leaves no seam, and the first of two equals goes on.
    let mut flags = vec![0u8; 5];
    let merged = m
        .merge_first(&edges, &pairs, &[false; 2], &[true, false], &count, &mut flags)
        .unwrap();
    assert_eq!((merged.keep, merged.gone, merged.welded), (0, 1, false));
    assert_eq!(m.plate_id, [0; 5]);
    assert_eq!(flags, [0; 5]);
}

#[test]
fn tidying_leaves_whole_plates_of_some_size() {
    let g = grid(8, 8);
    let mut ids = vec![0u16; 64];
    for y in 0..8 {
        for x in 4..8 {
            ids[y * 8 + x] = 2;
        }
    }
    // A stray of plate 2, and a plate of three cells.
    ids[0] = 2;
    ids[57] = 1;
    ids[58] = 1;
    ids[59] = 1;
    let mut m = mosaic(&ids, 4);
    m.tidy(&g);
    assert_eq!(m.plates.len(), 2);
    for y in 0..8 {
        for x in 0..8 {
            assert_eq!(m.plate_id[y * 8 + x], if x < 4 { 0 } else { 1 });
        }
    }
}

#[test]
fn crust_between_events() {
    assert_eq!(relaxation(false, 0, true), Relaxation::Rebound);
    assert_eq!(relaxation(false, SUBDUCTING, true), Relaxation::Rest);
    assert_eq!(relaxation(true, 0, true), Relaxation::Collapse);
    assert_eq!(relaxation(true, 0, false), Relaxation::Rest);
    assert!(matures(false, ARC, true));
    assert!(!matures(true, ARC, true) && !matures(false, RIFT, true) && !matures(false, ARC, false));
    assert!(breaks_up(true, true) && !breaks_up(false, true) && !breaks_up(true, false));
    assert_eq!(plumes_to_place(0, 8), 8);
    assert_eq!(plumes_to_place(3, 8), 0);
    assert!(plates_act(Phase::Drift) && !plates_act(Phase::RecentPast));
    assert!(must_tidy(true, false, false) && !must_tidy(false, false, false));
    let g = grid(3, 1);
    assert_eq!(arc_hop(&g, &[1, 1, 1], 1, &[2, 9], 1), Some(2));
    assert_eq!(arc_hop(&g, &[1, 1, 0], 1, &[2, 9], 1), None);
}

#[test]
fn a_step_starts_with_the_seams_alone() {
    let mut flags = vec![0xffu8, 0, SUTURE, ARC | RIFT];
    clear_transient(&mut flags);
    assert_eq!(flags, [SUTURE, 0, SUTURE, 0]);
    let key = CacheKey { mesh: 1, seed: 2 };
    let land = GenesisKey {
        seed: 2,
        cores: 14,
        octaves: 6,
    };
    let p = plan_step(Phase::CrustalFormation, None, key, None, land);
    assert!(p.derive && p.lay_out && p.forming);
    let p = plan_step(Phase::CrustalFormation, Some(key), key, Some(land), land);
    assert!(!p.derive && !p.lay_out && p.forming);
    let other = CacheKey { mesh: 3, seed: 2 };
    let p = plan_step(Phase::Drift, Some(key), other, None, land);
    assert!(p.derive && !p.lay_out && !p.forming);
}

#[test]
fn claims_are_pulled_and_pushed() {
    let ids = [0u16, 0, 1, 1];
    assert_eq!(chunk_plates(&[0, 1, 2], &ids), [0, 1]);
    let chunks = vec![vec![0u16], vec![1, 0, 9]];
    assert_eq!(candidates(&chunks, &[true, true], 2), [0, 1]);
    assert_eq!(candidates(&chunks, &[false, true], 2), [1, 0]);
    // A plate claims a cell only from a cell of its own.
    let claims = pull_claims(&[0, 1], &[1, 0], &ids);
    assert_eq!(claims.as_slice(), [(0, 1)]);
    let mut all = vec![
        pull_claims(&[0, 1], &[1, 2], &ids),
        pull_claims(&[], &[], &ids),
        pull_claims(&[1], &[3], &ids),
    ];
    assert_eq!(all[0].as_slice(), [(0, 1), (1, 2)]);
    push_claims(&mut all, &[0, 1, 2, 2], &ids);
    assert_eq!(all[0].as_slice(), [(0, 1), (1, 2), (0, 0)]);
    assert_eq!(all[1].as_slice(), [(0, 1)]);
    assert_eq!(all[2].as_slice(), [(1, 3), (1, 2)]);
}

#[test]
fn overlaps_are_won_by_continents() {
    let ranks = Ranks {
        continental: vec![false, true, true, false],
        strength: vec![50, 10, 20, 60],
    };
    let ids = [0u16, 1, 2, 3];
    let claim = |cells: &[u32]| {
        let plates: Vec<u16> = cells.iter().map(|c| *c as u16).collect();
        pull_claims(&plates, cells, &ids)
    };
    match ranks.resolve(5, &claim(&[]), &[]) {
        Decision::Fresh { plate } => assert_eq!(plate, 5),
        _ => panic!("a gap is fresh ridge crust"),
    }
    match ranks.resolve(5, &claim(&[3]), &[0]) {
        Decision::Keep { plate, src } => assert_eq!((plate, src), (3, 3)),
        _ => panic!("one claimant keeps its crust"),
    }
    // Ocean under continent: no collision, whatever the strength.
    let d = ranks.resolve(5, &claim(&[0, 1]), &[0, 0]);
    let plan = column_plan(&d, &ranks.continental);
    assert_eq!(plan.pull, Some(1));
    assert_eq!(plan.consumed, [0]);
    assert!(plan.beneath.is_empty());
    match d {
        Decision::Converge {
            plate,
            src,
            losers,
            collision,
        } => {
            assert_eq!((plate, src, collision), (1, 1, false));
            assert_eq!(losers, [0]);
        }
        _ => panic!("two claimants overlap"),
    }
    // Continent on continent: the stronger wins, the other goes underneath.
    let d = ranks.resolve(5, &claim(&[1, 2, 3]), &[0, 0, 0]);
    let plan = column_plan(&d, &ranks.continental);
    assert_eq!(plan.pull, Some(2));
    assert_eq!(plan.beneath, [1]);
    assert_eq!(plan.consumed, [3]);
    assert!(matches!(d, Decision::Converge { collision: true, .. }));
}

#[test]
fn a_remap_moves_every_field() {
    let f = Fields {
        plate_id: vec![0, 1],
        continental: vec![true, false],
        thickness_m: vec![10, 20],
        density_kg_m3: vec![11, 21],
        age_myr: vec![12, 22],
        sediment_m: vec![13, 23],
        elevation_m: vec![14, 24],
        flags: vec![0xff, ARC],
    };
    let decisions = [
        Decision::Converge {
            plate: 0,
            src: 0,
            losers: vec![1],
            collision: true,
        },
        Decision::Fresh { plate: 1 },
    ];
    let out = remap(&f, &decisions, &[70, 71]);
    assert_eq!(out.plate_id, [0, 1]);
    assert_eq!(out.continental, [true, false]);
    assert_eq!(out.thickness_m, [10, 71]);
    assert_eq!(out.density_kg_m3, [11, 3000f32.to_bits()]);
    assert_eq!(out.age_myr, [12, 0]);
    assert_eq!(out.sediment_m[0], 13);
    assert_eq!(out.elevation_m, [14, 24]);
    assert_eq!(out.flags, [COLLISION | SUTURE, RIFT]);
    let kept = remap(
        &f,
        &[
            Decision::Keep { plate: 1, src: 1 },
            Decision::Keep { plate: 0, src: 0 },
        ],
        &[0, 0],
    );
    assert_eq!(kept.plate_id, [1, 0]);
    assert_eq!(kept.thickness_m, [20, 10]);
    assert_eq!(kept.sediment_m, [23, 13]);
    // Elevation stays where it is.
    assert_eq!(kept.elevation_m, [14, 24]);
    assert_eq!(kept.flags, [0, SUTURE]);

    let mut plates = vec![plate(1), plate(2)];
    reset_due(&mut plates, &[false, true]);
    assert_eq!(plates[0].accum.x, 7);
    assert_eq!(plates[1].accum.w, ONE_BITS);
    assert_eq!(plates[1].accum.x, 0);
}

#[test]
fn the_planet_is_divided_by_area() {
    let mut d = Division::start(vec![10; 8]);
    assert_eq!(d.next_to_split(79), Some(0));
    assert_eq!(d.next_to_split(80), None);
    // The lowest scores move until the target is met.
    assert!(d.split(0, &[0, 1, 2, 3, 4, 5, 6, 7], 25));
    assert_eq!(d.label, [1, 1, 1, 0, 0, 0, 0, 0]);
    assert_eq!(d.plate_area, [50, 30]);
    // Too few cells, or all of them.
    assert!(!d.split(1, &[0; 8], 10));
    assert!(!d.split(0, &[0; 8], 1000));
    assert!(d.split(0, &[0, 0, 0, 9, 8, 7, 6, 5], 20));
    assert_eq!(d.label, [1, 1, 1, 0, 0, 0, 2, 2]);
    assert_eq!(d.plate_area.iter().sum::<u64>(), 80);
    assert_eq!(d.rift_partners(), [Some(2), Some(0), Some(0)]);

    let g = grid(8, 1);
    let mut m = mosaic(&[0, 1, 0, 0, 2, 2, 2, 2], 4);
    assert!(!m.needs_partition());
    assert!(mosaic(&[0, UNASSIGNED], 1).needs_partition());
    assert!(mosaic(&[], 0).needs_partition());
    m.settle(&g);
    // The stray joins the only plate it touches, and the plate without cells is dropped.
    assert_eq!(m.plate_id, [1, 1, 0, 0, 2, 2, 2, 2]);
    assert_eq!(m.plates.len(), 3);
}

#[test]
fn inherited_weakness_is_the_top_of_a_field() {
    let keys = [3, 9, 1, 9, 4];
    assert_eq!(key_at_rank(&keys, 0), 1);
    assert_eq!(key_at_rank(&keys, 3), 9);
    let mut flags = vec![ARC, 0, 0, 0, 0];
    mark_weakness(&mut flags, &keys, 3);
    assert_eq!(flags, [ARC, SUTURE, 0, SUTURE, 0]);
}

const EARTH_RADIUS_M: f64 = 6_371_000.0;
const OUTLINE_FREQ: f64 = 2.6;

fn detail_octaves(pitch_m: f64) -> u32 {
    let finest = EARTH_RADIUS_M / (2.0 * pitch_m.max(1.0));
    let wanted = (finest / OUTLINE_FREQ).max(1.0).log2().ceil() + 1.0;
    octaves(wanted as u32)
}

#[test]
fn detail_scales_with_resolution() {
    assert!(detail_octaves(70_000.0) < detail_octaves(9_000.0));
    assert_eq!(detail_octaves(1.0), 9);
}

#[test]
fn landmasses_are_placed_and_grow() {
    assert_eq!((micro_count(4), micro_count(9), micro_count(14)), (0, 1, 2));
    assert_eq!(octaves(0), 4);
    let mut s = Search::start();
    for _ in 0..127 {
        assert!(matches!(s.tried(false), Trial::Again { easings: 0 }));
    }
    assert_eq!(s.tried(false), Trial::Again { easings: 1 });
    assert_eq!(s.tried(true), Trial::Placed);
    let mut s = Search {
        tries: GENESIS_TRIES - 1,
    };
    assert_eq!(s.tried(false), Trial::GivenUp);
    assert_eq!(membership(&[false, true, true]), Some(1));
    assert_eq!(membership(&[false]), None);

    let m = |mass: u16, reach: i32| Some(Member { mass, reach });
    let members = [m(0, 5), None, m(1, 1), m(0, 9)];
    assert_eq!(accrete(&members, 5, &[false; 4]), [0, 2]);
    assert_eq!(accrete(&members, 9, &[true, false, true, false]), [3]);
    assert!(assembled(1, true) && !assembled(0, true) && !assembled(1, false));
    assert_eq!(unassigned(2), [UNASSIGNED; 2]);
    assert_eq!(
        recipe(true),
        [
            (RockType::Gneiss, 4000f32.to_bits()),
            (RockType::Granite, 6000f32.to_bits())
        ]
    );
    assert_eq!(
        recipe(false),
        [
            (RockType::Gabbro, 5000f32.to_bits()),
            (RockType::Basalt, 2000f32.to_bits())
        ]
    );
}

#[test]
fn meshes_are_made_anew_where_it_matters() {
    assert_eq!(plan(false, 1000, 1, 0), None);
    let a = plan(true, 1000, 1, 0).unwrap();
    let b = plan(true, 1000, 1, 1).unwrap();
    assert_eq!(a.cells, 1000);
    assert_ne!(a.seed, b.seed);
    let g = grid(5, 1);
    assert_eq!(
        density_floors(
            &g,
            &[true, true, false, false, false],
            &[0, 0, 0, 0, SUBDUCTING]
        ),
        [
            Floor::Land,
            Floor::Coast,
            Floor::Coast,
            Floor::Ocean,
            Floor::Active
        ]
    );
    let p = PlanetCells {
        plate_id: vec![1, 2],
        crust_type: vec![3, 4],
        crust_thickness_m: vec![5, 6],
        crust_density_kg_m3: vec![7, 8],
        crust_age_myr: vec![9, 10],
        elevation_m: vec![11, 12],
        sediment_m: vec![13, 14],
        temperature_c: vec![15, 16],
        precip_mm_yr: vec![17, 18],
        wind_m_s: vec![(1, 1, 1), (2, 2, 2)],
        ice_thickness_m: vec![19, 20],
        water_flux_m3_yr: vec![21, 22],
        lake_depth_m: vec![23, 24],
        biome: vec![25, 26],
        tectonic_flags: vec![27, 28],
        columns: vec![vec![], vec![]],
        flow_to: vec![0, 0],
    };
    let out = p.resample(&vec![1, 1, 0]);
    assert_eq!(out.plate_id, [2, 2, 1]);
    assert_eq!(out.lake_depth_m, [24, 24, 23]);
    assert_eq!(out.wind_m_s, [(2, 2, 2), (2, 2, 2), (1, 1, 1)]);
    assert_eq!(out.flow_to, [u8::MAX; 3]);
}
