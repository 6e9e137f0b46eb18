use macroquad::math::{vec3, Vec3};
use macroquad::rand::{gen_range, srand};
use sph_grid::{CellKey, Space};
use std::time::{SystemTime, UNIX_EPOCH};

fn cell_of(grid_size: f32, position: Vec3) -> CellKey {
    let key = (position / grid_size).as_ivec3().to_array();
    CellKey::new(key[0], key[1], key[2])
}

fn reach_of(grid_size: f32, radius: f32) -> i32 {
    (radius / grid_size).ceil() as i32
}

fn random_points(count: usize, low: f32, high: f32) -> Vec<Vec3> {
    srand(
        SystemTime::now()
            .duration_since(UNIX_EPOCH)
            .unwrap()
            .as_secs(),
    );
    let mut position = Vec::new();
    for _ in 0..count {
        position.push(vec3(
            gen_range(low, high),
            gen_range(low, high),
            gen_range(low, high),
        ));
    }
    position
}

fn keys_of(cells: &[(i32, i32, i32)]) -> Vec<CellKey> {
    cells.iter().map(|c| CellKey::new(c.0, c.1, c.2)).collect()
}

#[test]
fn space_random_point_cover_test() {
    let grid_size = 1.;
    let search_size = 2. * grid_size;

    let particles = random_points(1000, -5., 5.);
    let keys: Vec<CellKey> = particles.iter().map(|p| cell_of(grid_size, *p)).collect();
    let grid = Space::new(keys);

    for a in 0..grid.count() {
        let expect: Vec<usize> = (0..particles.len())
            .filter(|b| particles[a].distance(particles[*b]) <= search_size)
            .collect();

        let ret = grid.neighbour(a, reach_of(grid_size, search_size));
        assert!(ret.len() >= expect.len());
        assert_eq!(
            ret.into_iter().filter(|x| expect.contains(x)).count(),
            expect.len()
        );
    }
}

#[test]
fn new_space_groups_particles_in_rising_order() {
    let keys = keys_of(&[(0, 0, 0), (2, 0, 0), (0, 0, 0), (-1, 4, 7), (2, 0, 0), (0, 0, 0)]);
    let space = Space::new(keys);
    assert_eq!(space.count(), 6);
    assert_eq!(space.neighbour_by_key(&CellKey::new(0, 0, 0), 0), vec![0, 2, 5]);
    assert_eq!(space.neighbour_by_key(&CellKey::new(2, 0, 0), 0), vec![1, 4]);
    assert_eq!(space.neighbour_by_key(&CellKey::new(-1, 4, 7), 0), vec![3]);
    assert_eq!(space.neighbour_by_key(&CellKey::new(1, 0, 0), 0), Vec::<usize>::new());
}

#[test]
fn neighbour_visits_cells_with_x_slowest() {
    let keys = keys_of(&[(1, 0, 0), (0, 0, 1), (0, 1, 0), (0, 0, 0), (-1, 1, 1), (0, 0, -1)]);
    let space = Space::new(keys);
    let found = space.neighbour_by_key(&CellKey::new(0, 0, 0), 1);
    assert_eq!(found, vec![4, 5, 3, 1, 2, 0]);
}

#[test]
fn neighbour_of_a_particle_holds_the_particle() {
    let keys = keys_of(&[(0, 0, 0), (9, 9, 9), (1, 1, 1), (2, 2, 2)]);
    let space = Space::new(keys);
    assert_eq!(space.neighbour(0, 1), vec![0, 2]);
    assert_eq!(space.neighbour(1, 1), vec![1]);
    assert_eq!(space.neighbour(3, 1), vec![2, 3]);
    assert_eq!(space.neighbour(3, 0), vec![3]);
}

#[test]
fn neighbour_of_an_unknown_particle_is_empty() {
    let space = Space::new(keys_of(&[(0, 0, 0)]));
    assert!(space.neighbour(1, 5).is_empty());
    assert!(space.neighbour(usize::MAX, 0).is_empty());
}

#[test]
fn negative_reach_finds_nothing() {
    let space = Space::new(keys_of(&[(0, 0, 0), (0, 0, 1)]));
    assert!(space.neighbour_by_key(&CellKey::new(0, 0, 0), -1).is_empty());
    assert!(space.neighbour(0, -3).is_empty());
}

#[test]
fn isolated_particle_has_only_itself() {
    let space = Space::new(keys_of(&[(100, 100, 100), (0, 0, 0)]));
    assert_eq!(space.neighbour(0, 2), vec![0]);
}

#[test]
fn empty_space() {
    let space = Space::new(Vec::new());
    assert_eq!(space.count(), 0);
    assert!(space.neighbour_by_key(&CellKey::new(0, 0, 0), 3).is_empty());
    let other = Space::default();
    assert_eq!(other.count(), 0);
}

#[test]
fn add_one_numbers_particles_in_order() {
    let mut space = Space::new(keys_of(&[(0, 0, 0)]));
    space.add_one(CellKey::new(5, 5, 5));
    space.add_one(CellKey::new(0, 0, 0));
    assert_eq!(space.count(), 3);
    assert_eq!(space.neighbour_by_key(&CellKey::new(0, 0, 0), 0), vec![0, 2]);
    assert_eq!(space.neighbour_by_key(&CellKey::new(5, 5, 5), 0), vec![1]);
}

#[test]
fn add_bulk_is_add_one_by_one() {
    let cells = [(0, 0, 0), (1, 0, 0), (0, 0, 0), (3, 3, 3)];
    let mut bulk = Space::default();
    bulk.add_bulk(keys_of(&cells));
    let mut single = Space::default();
    for key in keys_of(&cells) {
        single.add_one(key);
    }
    let built = Space::new(keys_of(&cells));
    assert_eq!(bulk.count(), 4);
    for probe in keys_of(&[(0, 0, 0), (1, 0, 0), (3, 3, 3), (2, 2, 2)]) {
        for reach in 0..3 {
            let expect = built.neighbour_by_key(&probe, reach);
            assert_eq!(bulk.neighbour_by_key(&probe, reach), expect);
            assert_eq!(single.neighbour_by_key(&probe, reach), expect);
        }
    }
}

#[test]
fn update_keeps_stayers_and_appends_movers() {
    let mut space = Space::new(keys_of(&[(0, 0, 0), (0, 0, 0), (1, 1, 1), (0, 0, 0), (2, 2, 2)]));
    space.update(&keys_of(&[(1, 1, 1), (0, 0, 0), (1, 1, 1), (0, 0, 0), (0, 0, 0)]));
    assert_eq!(space.count(), 5);
    assert_eq!(space.neighbour_by_key(&CellKey::new(0, 0, 0), 0), vec![1, 3, 4]);
    assert_eq!(space.neighbour_by_key(&CellKey::new(1, 1, 1), 0), vec![2, 0]);
    assert!(space.neighbour_by_key(&CellKey::new(2, 2, 2), 0).is_empty());
}

#[test]
fn update_without_movement_changes_nothing() {
    let cells = [(0, 0, 0), (4, 0, -4), (0, 0, 0), (1, 0, 0)];
    let mut space = Space::new(keys_of(&cells));
    let before = space.neighbour_by_key(&CellKey::new(0, 0, 0), 4);
    space.update(&keys_of(&cells));
    assert_eq!(space.neighbour_by_key(&CellKey::new(0, 0, 0), 4), before);
}

#[test]
fn update_many_times_keeps_every_particle_filed_once() {
    let mut space = Space::new(keys_of(&[(0, 0, 0), (1, 0, 0), (2, 0, 0)]));
    for step in 0..250 {
        let shift = step % 7;
        space.update(&keys_of(&[(shift, 0, 0), (1 + shift, 0, 0), (2 - shift, 0, 0)]));
        let mut all = space.neighbour_by_key(&CellKey::new(0, 0, 0), 10);
        all.sort();
        assert_eq!(all, vec![0, 1, 2]);
        assert_eq!(space.neighbour_by_key(&CellKey::new(shift, 0, 0), 0).contains(&0), true);
    }
}

#[test]
fn neighbour_is_the_brute_force_answer_on_cells() {
    let mut keys = Vec::new();
    for i in 0..200i32 {
        keys.push(CellKey::new((i * 7) % 11 - 5, (i * 3) % 5 - 2, (i * 13) % 9 - 4));
    }
    let space = Space::new(keys.clone());
    for reach in 0..4 {
        for a in 0..keys.len() {
            let mut expect: Vec<usize> = (0..keys.len())
                .filter(|b| {
                    (keys[a].x - keys[*b].x).abs() <= reach
                        && (keys[a].y - keys[*b].y).abs() <= reach
                        && (keys[a].z - keys[*b].z).abs() <= reach
                })
                .collect();
            let mut found = space.neighbour(a, reach);
            found.sort();
            expect.sort();
            assert_eq!(found, expect);
        }
    }
}

#[test]
fn neighbour_at_the_edge_of_the_coordinates() {
    let space = Space::new(keys_of(&[
        (i32::MAX, i32::MAX, i32::MAX),
        (i32::MAX - 1, i32::MAX, i32::MAX),
        (i32::MIN, i32::MIN, i32::MIN),
    ]));
    assert_eq!(space.neighbour(0, 1), vec![1, 0]);
    assert_eq!(space.neighbour(2, 1), vec![2]);
}

#[test]
fn rebuild_forgets_the_old_particles() {
    let mut space = Space::new(keys_of(&[(0, 0, 0), (1, 1, 1), (0, 0, 0)]));
    space.rebuild(keys_of(&[(1, 1, 1), (1, 1, 1)]));
    assert_eq!(space.count(), 2);
    assert!(space.neighbour_by_key(&CellKey::new(0, 0, 0), 0).is_empty());
    assert_eq!(space.neighbour_by_key(&CellKey::new(1, 1, 1), 0), vec![0, 1]);
}

#[test]
fn update_finds_what_a_rebuild_finds() {
    let first = keys_of(&[(0, 0, 0), (1, 0, 0), (0, 2, 0), (1, 0, 0), (3, 3, 3), (0, 0, 0)]);
    let second = keys_of(&[(1, 0, 0), (1, 0, 0), (0, 0, 0), (0, 2, 0), (3, 3, 3), (0, 0, 1)]);
    let mut moved = Space::new(first);
    moved.update(&second);
    let built = Space::new(second);
    for probe in keys_of(&[(0, 0, 0), (1, 0, 0), (0, 2, 0), (3, 3, 3), (0, 0, 1), (9, 9, 9)]) {
        for reach in 0..3 {
            let mut found = moved.neighbour_by_key(&probe, reach);
            let mut expect = built.neighbour_by_key(&probe, reach);
            found.sort();
            expect.sort();
            assert_eq!(found, expect);
        }
    }
}

#[test]
fn neighbours_are_neighbours_of_each_other() {
    let mut keys = Vec::new();
    for i in 0..60i32 {
        keys.push(CellKey::new((i * 7) % 5, (i * 3) % 4, (i * 11) % 6));
    }
    let space = Space::new(keys);
    for reach in 0..3 {
        for a in 0..space.count() {
            for b in space.neighbour(a, reach) {
                assert!(space.neighbour(b, reach).contains(&a));
            }
        }
    }
}

#[test]
fn wider_reach_finds_more() {
    let mut keys = Vec::new();
    for i in 0..60i32 {
        keys.push(CellKey::new((i * 7) % 9 - 4, (i * 3) % 7 - 3, (i * 11) % 5 - 2));
    }
    let space = Space::new(keys);
    let probe = CellKey::new(0, 0, 0);
    for reach in 0..5 {
        let wider = space.neighbour_by_key(&probe, reach + 1);
        for id in space.neighbour_by_key(&probe, reach) {
            assert!(wider.contains(&id));
        }
    }
    assert_eq!(space.neighbour_by_key(&probe, 4).len(), 60);
}

#[test]
fn no_particle_is_found_twice() {
    let keys = keys_of(&[(0, 0, 0), (0, 0, 0), (1, 0, 0), (0, 1, 0), (0, 0, 0)]);
    let space = Space::new(keys);
    let found = space.neighbour_by_key(&CellKey::new(0, 0, 0), 2);
    let distinct: std::collections::HashSet<usize> = found.iter().copied().collect();
    assert_eq!(found.len(), 5);
    assert_eq!(distinct.len(), 5);
}
