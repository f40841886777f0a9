use forest_fire::grid::BitGrid;
use forest_fire::sim::{BurningCell, FireSimulation, SimParams};
use rand::Rng;
use rand::SeedableRng;

const GAP_ONE: u64 = 0x1_0000_0000;

fn fully_occupied(width: usize, height: usize, seed: u64) -> FireSimulation {
    let mut s = FireSimulation::new(width, height, seed);
    for y in 0..height {
        for x in 0..width {
            s.grow_tree(x, y);
        }
    }
    s
}

#[test]
fn manual_ignition_clears_and_burns() {
    let mut s = fully_occupied(5, 5, 1);
    let p = SimParams { max_fire_age: 1, eight_connected: false };
    s.step(p, &vec![(2, 2)], 0, 0);
    assert_eq!(s.burning().len(), 1);
    assert_eq!(s.burning()[0], BurningCell { x: 2, y: 2, age: 0 });
    assert!(!s.occupied_at(2, 2));
    assert!(s.occupied_at(1, 2));
}

#[test]
fn single_ignition_propagation_4connected() {
    let mut s = fully_occupied(5, 5, 1);
    let p = SimParams { max_fire_age: 1, eight_connected: false };
    s.step(p, &vec![(2, 2)], 0, 0);
    // First step after ignition: (2,2) carried at age 1, the four
    // orthogonal neighbours ignite at age 0, all five cells cleared.
    s.step(p, &vec![], 0, 0);
    let fires = s.burning().clone();
    assert_eq!(fires.len(), 5);
    assert_eq!(fires[0], BurningCell { x: 2, y: 2, age: 1 });
    let mut coords: Vec<(usize, usize)> = fires.iter().map(|f| (f.x, f.y)).collect();
    coords.sort();
    assert_eq!(coords, vec![(1, 2), (2, 1), (2, 2), (2, 3), (3, 2)]);
    for &(x, y) in &[(2, 2), (1, 2), (3, 2), (2, 1), (2, 3)] {
        assert!(!s.occupied_at(x, y), "({}, {}) should be cleared", x, y);
    }
    // Second step: (2,2) reaches the age bound and is extinguished; the
    // front keeps propagating outward.
    s.step(p, &vec![], 0, 0);
    let fires2 = s.burning().clone();
    assert!(fires2.iter().all(|f| !(f.x == 2 && f.y == 2)));
    for &(x, y) in &[(1, 2), (3, 2), (2, 1), (2, 3)] {
        assert!(fires2.iter().any(|f| f.x == x && f.y == y && f.age == 1));
    }
    assert!(fires2.iter().any(|f| f.x == 0 && f.y == 2 && f.age == 0));
    assert!(fires2.iter().any(|f| f.x == 1 && f.y == 1 && f.age == 0));
}

#[test]
fn no_cell_burns_twice_in_a_step() {
    let mut s = fully_occupied(7, 7, 9);
    let p = SimParams { max_fire_age: 3, eight_connected: true };
    s.step(p, &vec![(3, 3)], 0, 0);
    for _ in 0..5 {
        s.step(p, &vec![], 0, 0);
        let fires = s.burning();
        for i in 0..fires.len() {
            for j in (i + 1)..fires.len() {
                if fires[i].age == 0 && fires[j].age == 0 {
                    assert!(
                        !(fires[i].x == fires[j].x && fires[i].y == fires[j].y),
                        "coordinate ({}, {}) ignited twice",
                        fires[i].x,
                        fires[i].y
                    );
                }
            }
        }
    }
}

#[test]
fn spontaneous_ignitions_at_age_zero() {
    let mut s = fully_occupied(8, 8, 5);
    let p = SimParams { max_fire_age: 2, eight_connected: false };
    // A gap of exactly three whole events ignites three random cells.
    s.step(p, &vec![], 3 * GAP_ONE, 0);
    let fires = s.burning().clone();
    assert_eq!(fires.len(), 3);
    for f in fires.iter() {
        assert_eq!(f.age, 0);
        assert!(f.x < 8 && f.y < 8);
        assert!(!s.occupied_at(f.x, f.y));
    }
}

#[test]
fn regrowth_plants_trees() {
    let mut s = FireSimulation::new(8, 8, 6);
    let p = SimParams { max_fire_age: 2, eight_connected: false };
    s.step(p, &vec![], 0, 2 * GAP_ONE);
    let mut count = 0;
    for y in 0..8 {
        for x in 0..8 {
            if s.occupied_at(x, y) {
                count += 1;
            }
        }
    }
    assert!(count >= 1 && count <= 2, "{} cells planted", count);
    assert_eq!(s.burning().len(), 0);
}

#[test]
fn populate_random_plants_trees() {
    let mut s = FireSimulation::new(64, 64, 11);
    s.populate_random(4);
    let mut count = 0;
    for y in 0..64 {
        for x in 0..64 {
            if s.occupied_at(x, y) {
                count += 1;
            }
        }
    }
    assert!(count > 0 && count < 64 * 64, "{} cells planted", count);
}

#[test]
fn seeded_runs_are_identical() {
    let p = SimParams { max_fire_age: 5, eight_connected: false };
    let mut a = FireSimulation::new(32, 24, 42);
    let mut b = FireSimulation::new(32, 24, 42);
    a.populate_random(4);
    b.populate_random(4);
    let mut ga = rand::rngs::StdRng::seed_from_u64(9);
    let mut gb = rand::rngs::StdRng::seed_from_u64(9);
    for i in 0..20usize {
        let gap_a: u64 = ga.gen_range(0..3 * GAP_ONE);
        let gap_b: u64 = gb.gen_range(0..3 * GAP_ONE);
        assert_eq!(gap_a, gap_b);
        let manual = vec![(i % 32, i % 24)];
        a.step(p, &manual, gap_a, gap_a / 2);
        b.step(p, &manual, gap_b, gap_b / 2);
        assert_eq!(a.burning(), b.burning());
        for y in 0..24 {
            for x in 0..32 {
                assert_eq!(a.occupied_at(x, y), b.occupied_at(x, y));
            }
        }
    }
}

#[test]
fn reorder_by_locality_sorts_by_block() {
    let mut s = FireSimulation::new(40, 40, 3);
    s.populate_random(2);
    let p = SimParams { max_fire_age: 4, eight_connected: true };
    s.step(p, &vec![(5, 5), (30, 30), (12, 33)], 2 * GAP_ONE, 0);
    for _ in 0..3 {
        s.step(p, &vec![], 0, 0);
    }
    let before = s.burning().clone();
    assert!(before.len() > 2);
    s.reorder_by_locality();
    let after = s.burning().clone();
    assert_eq!(before.len(), after.len());
    let mut bs: Vec<(usize, usize, u64)> = before.iter().map(|f| (f.x, f.y, f.age)).collect();
    let mut afs: Vec<(usize, usize, u64)> = after.iter().map(|f| (f.x, f.y, f.age)).collect();
    bs.sort();
    afs.sort();
    assert_eq!(bs, afs);
    let g = BitGrid::new(40, 40);
    for i in 1..after.len() {
        assert!(
            g.block_index(after[i - 1].x, after[i - 1].y) <= g.block_index(after[i].x, after[i].y)
        );
    }
}
