use macroquad::math::Vec3;
use macroquad::rand::gen_range;
use sph_grid::{CellKey, SpatialHashGrid};
use std::collections::HashSet;

fn hash(grid_size: f32, pos: Vec3) -> CellKey {
    let x = (pos / grid_size).ceil().to_array();
    CellKey::new(x[0] as i32, x[1] as i32, x[2] as i32)
}

fn generate_points(count: usize) -> Vec<Vec3> {
    let random_pos =
        || Vec3::from_array([gen_range(-5., 5.), gen_range(-5., 5.), gen_range(-5., 5.)]);
    let mut position = vec![];
    for _ in 0..count {
        position.push(random_pos())
    }
    position
}

fn keys_of(cells: &[(i32, i32, i32)]) -> Vec<CellKey> {
    cells.iter().map(|c| CellKey::new(c.0, c.1, c.2)).collect()
}

#[test]
fn spatial_hash_grid_random_point_cover_test() {
    let grid_size = 2.;
    let search_size = 2. * grid_size;
    let position = generate_points(1000);
    type T = HashSet<usize>;

    let mut grid = SpatialHashGrid::new();
    let keys: Vec<CellKey> = position.iter().map(|p| hash(grid_size, *p)).collect();
    grid.update(&keys);

    for &pos in &position {
        let answer = position
            .iter()
            .enumerate()
            .filter(|(_, &val)| pos.distance(val) <= search_size)
            .map(|(idx, _)| idx)
            .collect::<T>();

        let reach = (search_size / grid_size).ceil() as i32;
        let ret = grid
            .lookup(&hash(grid_size, pos), reach)
            .into_iter()
            .collect::<T>();
        assert_eq!(ret.intersection(&answer).count(), answer.len());
    }
}

#[test]
fn grid_groups_particles_in_rising_order() {
    let mut grid = SpatialHashGrid::new();
    grid.update(&keys_of(&[(3, 3, 3), (0, 0, 0), (3, 3, 3), (0, 0, 0), (3, 3, 3)]));
    assert_eq!(grid.lookup(&CellKey::new(3, 3, 3), 0), vec![0, 2, 4]);
    assert_eq!(grid.lookup(&CellKey::new(0, 0, 0), 0), vec![1, 3]);
    assert!(grid.lookup(&CellKey::new(1, 1, 1), 0).is_empty());
}

#[test]
fn grid_lookup_visits_cells_with_x_slowest() {
    let mut grid = SpatialHashGrid::new();
    grid.update(&keys_of(&[(1, 1, 1), (0, 1, 1), (1, 0, 1), (1, 1, 0), (1, 1, 2), (5, 5, 5)]));
    assert_eq!(grid.lookup(&CellKey::new(1, 1, 1), 1), vec![1, 2, 3, 0, 4]);
}

#[test]
fn grid_update_forgets_the_old_particles() {
    let mut grid = SpatialHashGrid::new();
    grid.update(&keys_of(&[(0, 0, 0), (1, 1, 1)]));
    grid.update(&keys_of(&[(7, 7, 7)]));
    assert!(grid.lookup(&CellKey::new(0, 0, 0), 1).is_empty());
    assert_eq!(grid.lookup(&CellKey::new(7, 7, 7), 0), vec![0]);
}

#[test]
fn empty_grid_finds_nothing() {
    let grid = SpatialHashGrid::new();
    assert!(grid.lookup(&CellKey::new(0, 0, 0), 2).is_empty());
    let mut other = SpatialHashGrid::default();
    other.update(&Vec::new());
    assert!(other.lookup(&CellKey::new(0, 0, 0), 2).is_empty());
}

#[test]
fn grid_negative_reach_finds_nothing() {
    let mut grid = SpatialHashGrid::new();
    grid.update(&keys_of(&[(0, 0, 0)]));
    assert!(grid.lookup(&CellKey::new(0, 0, 0), -1).is_empty());
}

#[test]
fn grid_lookup_is_the_brute_force_answer_on_cells() {
    let mut keys = Vec::new();
    for i in 0..150i32 {
        keys.push(CellKey::new((i * 5) % 7 - 3, (i * 11) % 13 - 6, (i * 2) % 3 - 1));
    }
    let mut grid = SpatialHashGrid::new();
    grid.update(&keys);
    for reach in 0..3 {
        for probe in keys_of(&[(0, 0, 0), (-3, -6, -1), (3, 6, 1), (10, 10, 10)]) {
            let expect: Vec<usize> = (0..keys.len())
                .filter(|b| {
                    (probe.x - keys[*b].x).abs() <= reach
                        && (probe.y - keys[*b].y).abs() <= reach
                        && (probe.z - keys[*b].z).abs() <= reach
                })
                .collect();
            let mut found = grid.lookup(&probe, reach);
            found.sort();
            assert_eq!(found, expect);
        }
    }
}
