use sph_grid::block::neighbourhood;
use sph_grid::CellKey;

#[test]
fn cell_key_codes() {
    let half: u128 = 0x8000_0000;
    let base: u128 = 0x1_0000_0000;
    assert_eq!(CellKey::new(0, 0, 0).pack(), (half * base + half) * base + half);
    assert_eq!(CellKey::new(i32::MIN, i32::MIN, i32::MIN).pack(), 0);
    assert_eq!(
        CellKey::new(i32::MAX, i32::MAX, i32::MAX).pack(),
        base * base * base - 1
    );
    assert_eq!(CellKey::new(0, 0, 1).pack(), CellKey::new(0, 0, 0).pack() + 1);
    assert_eq!(CellKey::new(0, 1, 0).pack(), CellKey::new(0, 0, 0).pack() + base);
    assert_eq!(
        CellKey::new(-1, 0, 0).pack(),
        CellKey::new(0, 0, 0).pack() - base * base
    );
}

#[test]
fn cell_key_codes_differ() {
    let mut seen = std::collections::HashSet::new();
    for x in -3..4 {
        for y in -3..4 {
            for z in -3..4 {
                assert!(seen.insert(CellKey::new(x, y, z).pack()));
            }
        }
    }
    assert_eq!(seen.len(), 343);
}

#[test]
fn cell_key_equality() {
    assert_eq!(CellKey::new(1, 2, 3), CellKey { x: 1, y: 2, z: 3 });
    assert_ne!(CellKey::new(1, 2, 3), CellKey::new(3, 2, 1));
}

#[test]
fn neighbourhood_of_reach_one() {
    let cells = neighbourhood(&CellKey::new(10, -20, 30), 1);
    assert_eq!(cells.len(), 27);
    assert_eq!(cells[0], CellKey::new(9, -21, 29));
    assert_eq!(cells[1], CellKey::new(9, -21, 30));
    assert_eq!(cells[2], CellKey::new(9, -21, 31));
    assert_eq!(cells[3], CellKey::new(9, -20, 29));
    assert_eq!(cells[9], CellKey::new(10, -21, 29));
    assert_eq!(cells[13], CellKey::new(10, -20, 30));
    assert_eq!(cells[26], CellKey::new(11, -19, 31));
}

#[test]
fn neighbourhood_of_reach_zero_is_the_cell() {
    assert_eq!(
        neighbourhood(&CellKey::new(4, 5, 6), 0),
        vec![CellKey::new(4, 5, 6)]
    );
}

#[test]
fn neighbourhood_of_negative_reach_is_empty() {
    assert!(neighbourhood(&CellKey::new(0, 0, 0), -1).is_empty());
    assert!(neighbourhood(&CellKey::new(i32::MAX, 0, i32::MIN), i32::MIN).is_empty());
}

#[test]
fn neighbourhood_sizes() {
    for reach in 0..5 {
        let side = (2 * reach + 1) as usize;
        assert_eq!(
            neighbourhood(&CellKey::new(0, 0, 0), reach).len(),
            side * side * side
        );
    }
}

#[test]
fn neighbourhood_is_cut_off_at_the_largest_coordinate() {
    let cells = neighbourhood(&CellKey::new(i32::MAX, 0, 0), 1);
    assert_eq!(cells.len(), 18);
    assert_eq!(cells[0], CellKey::new(i32::MAX - 1, -1, -1));
    assert_eq!(cells[17], CellKey::new(i32::MAX, 1, 1));
}

#[test]
fn neighbourhood_is_cut_off_at_the_smallest_coordinate() {
    let cells = neighbourhood(&CellKey::new(i32::MIN, i32::MIN, i32::MIN), 1);
    assert_eq!(cells.len(), 8);
    assert_eq!(cells[0], CellKey::new(i32::MIN, i32::MIN, i32::MIN));
    assert_eq!(cells[7], CellKey::new(i32::MIN + 1, i32::MIN + 1, i32::MIN + 1));
}

#[test]
fn neighbourhood_has_no_cell_twice() {
    let cells = neighbourhood(&CellKey::new(1, 2, 3), 2);
    let distinct: std::collections::HashSet<CellKey> = cells.iter().copied().collect();
    assert_eq!(distinct.len(), cells.len());
    for c in cells {
        assert!((c.x - 1).abs() <= 2 && (c.y - 2).abs() <= 2 && (c.z - 3).abs() <= 2);
    }
}
