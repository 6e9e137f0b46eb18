use sph_grid::{HashGrid, PlaneKey};

fn keys_of(cells: &[(u32, u32)]) -> Vec<PlaneKey> {
    cells.iter().map(|c| PlaneKey::new(c.0, c.1)).collect()
}

#[test]
fn plane_key_codes() {
    assert_eq!(PlaneKey::new(0, 0).pack(), 0);
    assert_eq!(PlaneKey::new(0, 7).pack(), 7);
    assert_eq!(PlaneKey::new(1, 0).pack(), 0x1_0000_0000);
    assert_eq!(
        PlaneKey::new(u32::MAX, u32::MAX).pack(),
        0xffff_ffff_ffff_ffff
    );
    assert_ne!(PlaneKey::new(1, 2).pack(), PlaneKey::new(2, 1).pack());
}

#[test]
fn plane_grid_files_and_finds() {
    let mut grid = HashGrid::new();
    grid.update(&keys_of(&[(1, 1), (2, 2), (1, 1), (0x3f80_0000, 0xbf80_0000)]));
    assert_eq!(grid.lookup(&keys_of(&[(1, 1)])), vec![0, 2]);
    assert_eq!(grid.lookup(&keys_of(&[(2, 2), (1, 1)])), vec![1, 0, 2]);
    assert_eq!(grid.lookup(&keys_of(&[(0x3f80_0000, 0xbf80_0000)])), vec![3]);
    assert!(grid.lookup(&keys_of(&[(3, 3)])).is_empty());
    assert!(grid.lookup(&Vec::new()).is_empty());
}

#[test]
fn plane_grid_repeats_a_cell_named_twice() {
    let mut grid = HashGrid::new();
    grid.update(&keys_of(&[(4, 4), (4, 4)]));
    assert_eq!(grid.lookup(&keys_of(&[(4, 4), (9, 9), (4, 4)])), vec![0, 1, 0, 1]);
}

#[test]
fn plane_grid_update_forgets_the_old_particles() {
    let mut grid = HashGrid::default();
    grid.update(&keys_of(&[(1, 1), (2, 2)]));
    grid.update(&keys_of(&[(2, 2)]));
    assert!(grid.lookup(&keys_of(&[(1, 1)])).is_empty());
    assert_eq!(grid.lookup(&keys_of(&[(2, 2)])), vec![0]);
}
