use forest_fire::grid::BitGrid;

#[test]
fn set_get_clear_roundtrip() {
    let mut g = BitGrid::new(16, 16);
    assert!(!g.get(3, 5));
    g.set(3, 5);
    assert!(g.get(3, 5));
    g.clear(3, 5);
    assert!(!g.get(3, 5));
}

#[test]
fn set_clear_idempotent() {
    let mut g = BitGrid::new(10, 10);
    g.set(4, 4);
    g.set(4, 4);
    assert!(g.get(4, 4));
    assert!(!g.get(3, 4));
    assert!(!g.get(5, 4));
    assert!(!g.get(4, 3));
    assert!(!g.get(4, 5));
    g.clear(4, 4);
    g.clear(4, 4);
    assert!(!g.get(4, 4));
    for y in 0..10 {
        for x in 0..10 {
            assert!(!g.get(x, y));
        }
    }
}

#[test]
fn writes_touch_only_their_cell() {
    let mut g = BitGrid::new(9, 7);
    g.set(0, 0);
    g.set(8, 6);
    g.set(7, 0);
    for y in 0..7 {
        for x in 0..9 {
            let expected = (x == 0 && y == 0) || (x == 8 && y == 6) || (x == 7 && y == 0);
            assert_eq!(g.get(x, y), expected);
        }
    }
    g.clear(8, 6);
    assert!(g.get(0, 0));
    assert!(g.get(7, 0));
    assert!(!g.get(8, 6));
}

#[test]
fn block_packing_16x16() {
    let g = BitGrid::new(16, 16);
    // Two blocks per row: (9,9) lands in the second block of the second
    // row, (0,0) in the very first.
    assert_ne!(g.block_index(9, 9), g.block_index(0, 0));
    assert_eq!(g.block_index(0, 0), 0);
    assert_eq!(g.block_index(9, 9), 3);
    // (0,0) and (7,7) share the first block but not a bit position.
    let (b1, s1) = g.indices(0, 0);
    let (b2, s2) = g.indices(7, 7);
    assert_eq!(b1, b2);
    assert_ne!(s1, s2);
    assert_eq!(s1, 0);
    assert_eq!(s2, 63);
}

#[test]
fn new_grid_starts_empty() {
    let g = BitGrid::new(33, 17);
    for y in 0..17 {
        for x in 0..33 {
            assert!(!g.get(x, y));
        }
    }
}
