//! End-to-end tests of the growth simulation: the initial registry, the
//! deterministic stream, the forest invariants across steps, the growth
//! ceiling, the branch acceptance rule, and the index's no-false-negative
//! guarantee.

use growth::engine::{build_index, candidate_allowed, initialize, step};
use growth::index::SpatialIndex;
use growth::fixmath::SCALE;
use growth::rng::Rng;

#[test]
fn initialize_yields_single_root_at_origin() {
    let r = initialize(1);
    assert_eq!(r.len(), 1);
    let root = r.get(0);
    assert_eq!(root.x, 0);
    assert_eq!(root.y, 0);
    assert_eq!(root.size, 1);
    assert_eq!(root.energy, 0);
    assert!(root.alive);
    assert!(!root.grown);
    assert_eq!(root.generation, 0);
    assert_eq!(root.parent, None);
    assert!(root.children.is_empty());
}

#[test]
fn root_energy_rises_each_step_below_horizon() {
    let mut r = initialize(1);
    let mut prev = r.get(0).energy;
    for t in 0..6u64 {
        step(&mut r, t);
        let e = r.get(0).energy;
        // The root gains 10000 per step and spends at most 2 on branching
        // and propagation, so the rise is strict and close to the grant.
        assert!(e >= prev + 9998, "step {}: {} -> {}", t, prev, e);
        prev = e;
    }
}

#[test]
fn root_not_energized_at_horizon() {
    let mut r = initialize(1);
    step(&mut r, 1000);
    assert_eq!(r.get(0).energy, 0);
    assert!(!r.get(0).grown);
}

#[test]
fn two_runs_same_seed_are_identical() {
    let mut a = initialize(7);
    let mut b = initialize(7);
    for t in 0..40u64 {
        step(&mut a, t);
        step(&mut b, t);
    }
    assert!(a.len() > 1, "the simulation should have branched in 40 steps");
    assert_eq!(a.len(), b.len());
    assert_eq!(a.nodes, b.nodes);
    assert_eq!(a.rng, b.rng);
}

#[test]
fn runs_with_different_seeds_diverge() {
    let mut a = initialize(1);
    let mut b = initialize(2);
    for t in 0..40u64 {
        step(&mut a, t);
        step(&mut b, t);
    }
    assert!(a.nodes != b.nodes || a.rng != b.rng);
}

#[test]
fn forest_and_generation_invariants_hold_across_steps() {
    let mut r = initialize(1);
    for t in 0..60u64 {
        step(&mut r, t);
    }
    assert!(r.len() > 2, "expected growth over 60 steps");
    for i in 0..r.len() {
        let n = r.get(i);
        match n.parent {
            Some(p) => {
                assert!(p < i, "parent {} not older than child {}", p, i);
                assert_eq!(n.generation, r.get(p).generation + 1);
                assert!(r.get(p).children.contains(&i));
            }
            None => assert_eq!(n.generation, 0),
        }
        let mut last = i;
        for &c in n.children.iter() {
            assert!(c > last, "children of {} not strictly ascending", i);
            assert_eq!(r.get(c).parent, Some(i));
            last = c;
        }
        assert!(n.size >= 1 && n.size <= 30);
        assert!(n.x.abs() <= 536870912 && n.y.abs() <= 536870912);
    }
}

#[test]
fn identities_stay_valid_and_structure_stable() {
    let mut r = initialize(3);
    for t in 0..30u64 {
        step(&mut r, t);
    }
    let len_mid = r.len();
    let recorded: Vec<(Option<usize>, usize, i64, Vec<usize>, i64, bool)> = (0..len_mid)
        .map(|i| {
            let n = r.get(i);
            (n.parent, n.generation, n.frac, n.children.clone(), n.size, n.alive)
        })
        .collect();
    for t in 30..60u64 {
        step(&mut r, t);
    }
    assert!(r.len() >= len_mid, "the registry is append-only");
    for i in 0..len_mid {
        let n = r.get(i);
        let (parent, generation, frac, children, size, alive) = &recorded[i];
        assert_eq!(n.parent, *parent);
        assert_eq!(n.generation, *generation);
        assert_eq!(n.frac, *frac);
        assert!(n.children.len() >= children.len());
        assert_eq!(&n.children[..children.len()], &children[..]);
        assert!(n.size >= *size);
        if !alive {
            assert!(!n.alive, "a deactivated node came back to life");
        }
    }
}

#[test]
fn growth_ceiling_deactivates_oversized_node() {
    let mut r = initialize(1);
    // A far-away child well past the ceiling; the root's first propagation
    // flags it grown, and phase 3 must retire it without growing it.
    let id = r.append_child(0, 100 * SCALE, 0, 45, 0);
    step(&mut r, 0);
    let n = r.get(id);
    assert_eq!(n.size, 45, "a node past the ceiling must not grow");
    assert!(!n.alive, "a grown node past the ceiling must be deactivated");
    for t in 1..4u64 {
        step(&mut r, t);
    }
    assert_eq!(r.get(id).size, 45);
    assert!(!r.get(id).alive);
}

#[test]
fn branch_candidate_rejected_near_large_neighbor() {
    let mut r = initialize(1);
    // A neighbor of size 45 at distance 40 from the candidate: 40 < 45 + 1,
    // so the candidate must be rejected.
    r.append_child(0, 140 * SCALE, 0, 45, 0);
    let idx = build_index(&r);
    assert!(!candidate_allowed(&r, &idx, 100 * SCALE, 0));
    // Far from both nodes the same rule accepts.
    assert!(candidate_allowed(&r, &idx, 300 * SCALE, 0));
}

#[test]
fn branch_candidate_rejected_outside_domain() {
    let r = initialize(1);
    let idx = build_index(&r);
    assert!(!candidate_allowed(&r, &idx, 460 * SCALE, 0));
    assert!(!candidate_allowed(&r, &idx, 0, -460 * SCALE));
    assert!(!candidate_allowed(&r, &idx, -451 * SCALE, 0));
    // Inside the domain and far from the root, the candidate is accepted.
    assert!(candidate_allowed(&r, &idx, 448 * SCALE, 0));
}

#[test]
fn query_radius_returns_superset_of_true_neighbors() {
    let mut rng = Rng::new(42);
    let mut idx = SpatialIndex::new();
    let mut pts: Vec<(i64, i64)> = Vec::new();
    for i in 0..200usize {
        let x = (rng.next_unit() - 32768) * 700;
        let y = (rng.next_unit() - 32768) * 700;
        idx.insert(i, x, y);
        pts.push((x, y));
    }
    let centers = [(0i64, 0i64), (100 * SCALE, -50 * SCALE), (-300 * SCALE, 200 * SCALE)];
    let radius = 50 * SCALE;
    for &(qx, qy) in centers.iter() {
        let found = idx.query_radius(qx, qy, radius);
        for (i, &(x, y)) in pts.iter().enumerate() {
            let d2 = (x - qx) as i128 * (x - qx) as i128 + (y - qy) as i128 * (y - qy) as i128;
            if d2 <= (radius as i128) * (radius as i128) {
                assert!(
                    found.contains(&i),
                    "index missed point {} within radius of ({}, {})",
                    i,
                    qx,
                    qy
                );
            }
        }
    }
}

#[test]
fn nodes_created_during_a_step_are_not_grown_that_step() {
    // The index reflects only the step-start population, and a node created
    // mid-step never receives the grown flag in the same step: it must end
    // the step unity-sized and unflagged. This pins the accepted staleness
    // of the spatial index rather than "fixing" it.
    let mut r = initialize(1);
    for t in 0..40u64 {
        let before = r.len();
        step(&mut r, t);
        for i in before..r.len() {
            let n = r.get(i);
            assert!(!n.grown, "node {} was created and processed in one step", i);
            assert_eq!(n.size, 1);
        }
    }
}

#[test]
fn deterministic_stream_is_reproducible() {
    let mut a = Rng::new(5);
    let mut b = Rng::new(5);
    for _ in 0..10 {
        let ua = a.next_unit();
        let ub = b.next_unit();
        assert_eq!(ua, ub);
        assert!((0..65536).contains(&ua));
    }
}
