use infinite_worlds::graph::CellGraph;
use infinite_worlds::hydro::{water_in, Hydrology, Water, FLOW_NONE, NO_DOWNSTREAM};
use infinite_worlds::phase::Phase;
use infinite_worlds::river::Reach;
use infinite_worlds::surface::{
    arid, basement, blow, delta_front, dries_up, engine, facies, first_best, incises, surf_zone,
    transport, weathers, Engine, Glacier, Leg, RockType, Setting, Transport, NOWHERE,
};
use infinite_worlds::test_util::ring_mesh;

/// A square of `w` by `w` cells, each with up to four neighbours.
fn square(w: u32) -> CellGraph {
    let mut offsets = vec![0u32];
    let mut neighbors = Vec::new();
    for y in 0..w {
        for x in 0..w {
            let c = y * w + x;
            if y > 0 {
                neighbors.push(c - w);
            }
            if x > 0 {
                neighbors.push(c - 1);
            }
            if x + 1 < w {
                neighbors.push(c + 1);
            }
            if y + 1 < w {
                neighbors.push(c + w);
            }
            offsets.push(neighbors.len() as u32);
        }
    }
    CellGraph { offsets, neighbors }
}

/// An island with a pit in the middle: sea around it, heights 10 and 20, and 5 inside.
fn crater() -> (CellGraph, Vec<i32>) {
    let rows = [
        [0, 0, 0, 0, 0, 0, 0],
        [0, 20, 20, 20, 20, 20, 0],
        [0, 20, 10, 10, 10, 20, 0],
        [0, 20, 10, 5, 10, 15, 0],
        [0, 20, 10, 10, 10, 20, 0],
        [0, 20, 20, 20, 20, 20, 0],
        [0, 0, 0, 0, 0, 0, 0],
    ];
    (square(7), rows.concat())
}

fn solved(g: &CellGraph, elev: &[i32], sea: i32) -> Hydrology {
    let mut h = Hydrology::new();
    h.solve(g, elev, sea, |k: i32| k + 1, |_: usize, here: i32, there: i32| here - there);
    h
}

#[test]
fn water_takes_the_steepest_way_down() {
    // Cell 0 lies between cell 1, which is near, and cell 2, which is lower but far.
    let g = CellGraph {
        offsets: vec![0, 2, 3, 4],
        neighbors: vec![1, 2, 0, 0],
    };
    let far = [1, 10, 1, 10];
    let mut h = Hydrology::new();
    h.solve(
        &g,
        &[10, 5, 4],
        6,
        |k: i32| k + 1,
        |slot: usize, here: i32, there: i32| 100 * (here - there) / far[slot],
    );
    assert_eq!(h.downstream, [1, NO_DOWNSTREAM, NO_DOWNSTREAM]);
    // At one distance the lower one is the steeper.
    assert_eq!(
        solved(&g, &[10, 5, 4], 6).downstream,
        [2, NO_DOWNSTREAM, NO_DOWNSTREAM]
    );
    // Ties go to the lowest id, a way up is no way down, and a steep way up least of all.
    assert_eq!(solved(&g, &[10, 5, 5], 6).downstream[0], 1);
    h.route(&g, &[10, 12, 4], 6, &[900, 1, -900, -1]);
    assert_eq!(h.downstream[0], 1);
    h.fill(&g, &[10, 12, 4], 6, |k: i32| k + 1);
    h.route(&g, &[10, 12, 4], 6, &[900, 1, -900, -1]);
    assert_eq!(h.downstream, [2, 0, NO_DOWNSTREAM]);
}

#[test]
fn in_units_every_cell_reaches_an_outlet() {
    let (g, elev) = crater();
    let mut h = Hydrology::new();
    h.solve_in_units(&g, &elev, 1, |_: usize, here: i32, there: i32| here - there);
    let same = solved(&g, &elev, 1);
    assert_eq!(h.filled, same.filled);
    assert_eq!(h.order, same.order);
    assert_eq!(h.downstream, same.downstream);
    // The flood stands at most a unit per cell above the highest ground.
    assert!(h.filled.iter().all(|f| *f <= 20 + 48));
}

#[test]
fn pits_fill_up_to_their_rim() {
    let (g, elev) = crater();
    let h = solved(&g, &elev, 1);
    assert_eq!(h.order.len(), 49);
    // The lowest notch of the rim is 15: behind it the water stands a little higher with
    // every cell.
    assert_eq!(h.filled[3 * 7 + 5], 15);
    assert_eq!(h.filled[3 * 7 + 4], 16);
    assert_eq!(h.filled[3 * 7 + 3], 17);
    assert_eq!(h.filled[0], 0);
    for c in 0..49 {
        assert!(h.filled[c] >= elev[c]);
    }
    for w in h.order.windows(2) {
        assert!(h.filled[w[0] as usize] <= h.filled[w[1] as usize]);
    }
}

#[test]
fn every_land_cell_drains_to_the_sea() {
    let (g, elev) = crater();
    let h = solved(&g, &elev, 1);
    for start in 0..49usize {
        let mut c = start;
        let mut steps = 0;
        while h.downstream[c] != NO_DOWNSTREAM {
            let d = h.downstream[c] as usize;
            assert!(h.filled[d] < h.filled[c]);
            c = d;
            steps += 1;
            assert!(steps < 49);
        }
        assert!(elev[c] < 1, "cell {start} ends on land");
    }
    // The pit drains through the notch.
    assert_eq!(h.downstream[3 * 7 + 3], 3 * 7 + 4);
    assert_eq!(h.downstream[3 * 7 + 4], 3 * 7 + 5);
    assert_eq!(h.downstream[3 * 7 + 5], 3 * 7 + 6);
    let flow = h.publish_flow_edges(&g);
    assert_eq!(flow[0], FLOW_NONE);
    // Neighbours come north, west, east, south.
    assert_eq!(flow[3 * 7 + 4], 2);
}

#[test]
fn a_planet_without_sea_drains_to_its_lowest_cell() {
    let ring = ring_mesh(6);
    let elev = [9, 8, 7, 8, 9, 7];
    let h = solved(&ring.graph, &elev, 0);
    assert_eq!(h.order[0], 2);
    assert_eq!(h.downstream[2], NO_DOWNSTREAM);
    for c in [0usize, 1, 3, 4, 5] {
        assert_ne!(h.downstream[c], NO_DOWNSTREAM);
    }
    assert_eq!(h.filled[5], 10);
}

#[test]
fn rivers_leave_nothing_under_way() {
    let (g, elev) = crater();
    let h = solved(&g, &elev, 1);
    let land: Vec<bool> = elev.iter().map(|e| *e >= 1).collect();
    let mut cut = vec![false; 49];
    cut[3 * 7 + 3] = true;
    let middle = 3 * 7 + 3;
    assert_eq!(
        h.route_load(&land, &[true; 49], &cut),
        [
            Reach::Carry {
                from: middle,
                to: middle + 1
            },
            Reach::Carry {
                from: middle + 1,
                to: middle + 2
            },
            Reach::Carry {
                from: middle + 2,
                to: middle + 3
            },
            Reach::Delta { at: middle + 3 },
        ]
    );
    // A lake on the way takes it all.
    let mut carries = vec![true; 49];
    carries[middle as usize + 1] = false;
    assert_eq!(
        h.route_load(&land, &carries, &cut),
        [
            Reach::Carry {
                from: middle,
                to: middle + 1
            },
            Reach::Settle { at: middle + 1 },
        ]
    );
    // Whatever is cut, nothing is left.
    let legs = h.route_load(&land, &[true; 49], &land);
    let mut loaded = land.clone();
    for leg in &legs {
        match *leg {
            Reach::Carry { from, to } => {
                loaded[from as usize] = false;
                loaded[to as usize] = true;
            }
            Reach::Rest { at } | Reach::Delta { at } | Reach::Settle { at } => {
                loaded[at as usize] = false;
            }
        }
    }
    assert!(loaded.iter().all(|l| !l));
    // On a planet without sea the load rests where the water does.
    let ring = ring_mesh(4);
    let dry = solved(&ring.graph, &[4, 3, 4, 5], 0);
    assert_eq!(
        dry.route_load(&[true; 4], &[true; 4], &[false, true, false, false]),
        [Reach::Rest { at: 1 }]
    );
}

#[test]
fn water_and_loads_by_kind_of_cell() {
    assert_eq!(water_in(true, true, true), Water::Sea);
    assert_eq!(water_in(false, true, true), Water::Lake);
    assert_eq!(water_in(false, false, true), Water::Ice);
    assert_eq!(water_in(false, false, false), Water::Land);
    assert_eq!(transport(false, true, true, true), Transport::Idle);
    assert_eq!(transport(true, false, true, false), Transport::End { delta: false });
    assert_eq!(transport(true, false, false, false), Transport::End { delta: true });
    assert_eq!(transport(true, true, true, true), Transport::Settle);
    assert_eq!(transport(true, true, true, false), Transport::Carry);
    assert!(incises(true, false, true, true, true));
    assert!(!incises(true, true, true, true, true) && !incises(true, false, true, false, true));
    assert!(arid(true, false, false, true) && !arid(true, false, true, true));
    assert!(weathers(true, false) && !weathers(true, true) && !weathers(false, false));
    assert!(dries_up(true, false) && !dries_up(true, true));
}

#[test]
fn the_surface_sleeps_through_the_early_phases() {
    assert_eq!(engine(Phase::CrustalFormation, false, 9), Engine::Idle);
    assert_eq!(engine(Phase::Drift, false, 9), Engine::Idle);
    assert_eq!(engine(Phase::Refinement, false, 9), Engine::Coarse);
    assert_eq!(engine(Phase::RecentPast, false, 9), Engine::Full);
    assert_eq!(engine(Phase::RecentPast, true, 9), Engine::Idle);
    assert_eq!(engine(Phase::RecentPast, false, 0), Engine::Idle);
}

#[test]
fn buried_sediment_turns_into_rock() {
    let s = Setting {
        submarine: true,
        deep: false,
        warm: true,
        starved: true,
        mountain_front: true,
    };
    assert_eq!(facies(s), RockType::Limestone);
    assert_eq!(facies(Setting { deep: true, ..s }), RockType::Shale);
    assert_eq!(facies(Setting { warm: false, ..s }), RockType::Sandstone);
    assert_eq!(facies(Setting { starved: false, ..s }), RockType::Sandstone);
    let land = Setting {
        submarine: false,
        ..s
    };
    assert_eq!(facies(land), RockType::Conglomerate);
    assert_eq!(
        facies(Setting {
            mountain_front: false,
            ..land
        }),
        RockType::Sandstone
    );
    assert_eq!(basement(true), RockType::Granite);
    assert_eq!(basement(false), RockType::Basalt);
}

#[test]
fn waves_cut_exposed_shores() {
    let g = square(3);
    // The middle is land; its deepest neighbours are not where its sand goes.
    let elev = [9, -5, 9, -1, 4, -1, 9, 9, 9];
    assert_eq!(surf_zone(&g, &elev, 0, false, 4), Some(3));
    assert_eq!(surf_zone(&g, &elev, 0, true, 4), None);
    let sheltered = [9, -5, 9, -1, 4, 2, 9, 9, 9];
    assert_eq!(surf_zone(&g, &sheltered, 0, false, 4), None);
    assert_eq!(surf_zone(&g, &elev, 0, false, 1), None);
    assert_eq!(delta_front(&g, &elev, 0, 4), [1, 3, 5]);
    assert_eq!(first_best(&[1, 7, 7, 2], 0), Some(1));
    assert_eq!(first_best(&[1, 7], 7), None);
}

#[test]
fn dust_leaves_the_desert() {
    // A line of cells blown to the right.
    let wind = [1, 2, 3, 4, NOWHERE];
    assert_eq!(blow(&wind, &[true, true, true, false, false], 0), 3);
    assert_eq!(blow(&wind, &[true; 5], 0), 4);
    assert_eq!(blow(&wind, &[true; 5], 4), 4);
    // Round and round: it comes down after so many hops.
    let ring = [1u32, 2, 0];
    assert_eq!(blow(&ring, &[true; 3], 0), 1);
}

#[test]
fn moraines_are_dropped_where_the_ice_ends() {
    let gl = Glacier {
        surface: vec![30, 20, 10, 40],
        ice_down: vec![1, 2, NOWHERE, 0],
        ends: vec![false; 4],
    };
    assert_eq!(
        gl.route_moraine(&[true, false, false, false], &[true; 4]),
        [
            Leg::On { from: 0, to: 1 },
            Leg::On { from: 1, to: 2 },
            Leg::Down { at: 2 }
        ]
    );
    // It melts on the way.
    let gl = Glacier {
        ends: vec![false, true, false, false],
        ..gl
    };
    assert_eq!(
        gl.route_moraine(&[true, false, false, false], &[true; 4]),
        [Leg::On { from: 0, to: 1 }, Leg::Down { at: 1 }]
    );
    // A receiver that lies higher has been passed already: the load settles there.
    let up = Glacier {
        surface: vec![10, 20],
        ice_down: vec![1, NOWHERE],
        ends: vec![false; 2],
    };
    assert_eq!(
        up.route_moraine(&[true, false], &[true; 2]),
        [Leg::On { from: 0, to: 1 }, Leg::Down { at: 1 }]
    );
}
