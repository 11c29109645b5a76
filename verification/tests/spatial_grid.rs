//! The spatial hash grid: bucketing, wrapped queries, and a brute-force
//! cross-check of query exactness.

use abiogenesis::math::{Rect, Vec2, SCALE};
use abiogenesis::spatial_hash::SpatialHashGrid;

fn grid_50_10() -> SpatialHashGrid<i32> {
    SpatialHashGrid::new(
        Rect::from_center_half_size(Vec2::zero(), Vec2::splat(50 * SCALE)),
        (10, 10),
    )
}

fn just_values(results: Vec<(Vec2, i32)>) -> Vec<i32> {
    results.into_iter().map(|(_, value)| value).collect()
}

#[test]
fn test_query_cells_center() {
    let grid = grid_50_10();
    assert_eq!(
        grid.get_query_cells(Vec2::new(-40 * SCALE, -40 * SCALE), 10 * SCALE),
        vec![
            (0, 0),
            (0, 1),
            (0, 2),
            (1, 0),
            (1, 1),
            (1, 2),
            (2, 0),
            (2, 1),
            (2, 2)
        ]
    );
}

#[test]
fn test_query_cells_toroidal() {
    let grid = grid_50_10();
    assert_eq!(
        grid.get_query_cells(Vec2::new(-50 * SCALE, -50 * SCALE), 10 * SCALE),
        vec![
            (9, 9),
            (9, 0),
            (9, 1),
            (0, 9),
            (0, 0),
            (0, 1),
            (1, 9),
            (1, 0),
            (1, 1)
        ]
    );
}

#[test]
fn test_grid_to_index_conversion() {
    let grid = grid_50_10();
    assert_eq!(grid.grid_to_index((0, 0)), 0);
    assert_eq!(grid.grid_to_index((1, 0)), 1);
    assert_eq!(grid.grid_to_index((0, 1)), 10);
    assert_eq!(grid.grid_to_index((5, 5)), 55);
    assert_eq!(grid.grid_to_index((9, 9)), 99);
}

#[test]
fn test_insert_and_query_basic() {
    let mut grid = grid_50_10();
    grid.insert(Vec2::zero(), 42);

    let results = just_values(grid.query(Vec2::zero(), 10 * SCALE));
    assert_eq!(results.len(), 1);
    assert_eq!(results[0], 42);
}

#[test]
fn test_query_within_radius() {
    let mut grid = grid_50_10();
    grid.insert(Vec2::zero(), 1);
    grid.insert(Vec2::new(10 * SCALE, 0), 2);
    grid.insert(Vec2::new(20 * SCALE, 0), 3);

    let results = just_values(grid.query(Vec2::zero(), 15 * SCALE));
    assert!(results.contains(&1));
    assert!(results.contains(&2));
    assert!(!results.contains(&3));
}

#[test]
fn test_toroidal_wrapping_horizontal() {
    let mut grid = grid_50_10();
    grid.insert(Vec2::new(45 * SCALE, 0), 1);

    let results = just_values(grid.query(Vec2::new(-45 * SCALE, 0), 20 * SCALE));
    assert_eq!(results, vec![1]);
}

#[test]
fn test_toroidal_wrapping_vertical() {
    let mut grid = grid_50_10();
    grid.insert(Vec2::new(0, 45 * SCALE), 1);

    let results = just_values(grid.query(Vec2::new(0, -45 * SCALE), 20 * SCALE));
    assert_eq!(results, vec![1]);
}

#[test]
fn test_toroidal_wrapping_diagonal() {
    let mut grid = grid_50_10();
    grid.insert(Vec2::new(45 * SCALE, 45 * SCALE), 1);

    let results = just_values(grid.query(Vec2::new(-45 * SCALE, -45 * SCALE), 20 * SCALE));
    assert_eq!(results, vec![1]);
}

#[test]
fn test_multiple_items_same_cell() {
    let mut grid = grid_50_10();
    grid.insert(Vec2::new(SCALE, SCALE), 1);
    grid.insert(Vec2::new(2 * SCALE, 2 * SCALE), 2);
    grid.insert(Vec2::new(3 * SCALE, 3 * SCALE), 3);

    let results = just_values(grid.query(Vec2::new(SCALE, SCALE), 2 * SCALE));
    assert_eq!(results.len(), 2);
    assert!(results.contains(&1));
    assert!(results.contains(&2));
    assert!(!results.contains(&3));
}

#[test]
fn test_expanding_query_radius() {
    let mut grid = grid_50_10();
    grid.insert(Vec2::new(0, 0), 1);
    grid.insert(Vec2::new(10 * SCALE, 10 * SCALE), 2);
    grid.insert(Vec2::new(15 * SCALE, 15 * SCALE), 3);
    grid.insert(Vec2::new(-20 * SCALE, -20 * SCALE), 4);
    grid.insert(Vec2::new(-30 * SCALE, 30 * SCALE), 5);

    assert_eq!(just_values(grid.query(Vec2::zero(), SCALE)), vec![1]);
    assert_eq!(just_values(grid.query(Vec2::zero(), 15 * SCALE)), vec![1, 2]);
    assert_eq!(
        just_values(grid.query(Vec2::zero(), 22 * SCALE)),
        vec![1, 2, 3]
    );
    assert_eq!(
        just_values(grid.query(Vec2::zero(), 30 * SCALE)),
        vec![4, 1, 2, 3]
    );
    assert_eq!(
        just_values(grid.query(Vec2::zero(), 42 * SCALE)),
        vec![4, 1, 2, 3]
    );
}

#[test]
fn test_query_matches_brute_force() {
    let bounds = Rect::from_center_half_size(Vec2::zero(), Vec2::splat(50 * SCALE));
    let mut grid: SpatialHashGrid<i32> = SpatialHashGrid::new(bounds, (10, 10));

    // A deterministic scatter of positions across the whole domain.
    let mut points: Vec<Vec2> = Vec::new();
    let mut seed: i64 = 17;
    for _ in 0..60 {
        seed = (seed * 75 + 11) % 97;
        let x = -50 * SCALE + (seed * 100 * SCALE) / 97;
        seed = (seed * 75 + 11) % 97;
        let y = -50 * SCALE + (seed * 100 * SCALE) / 97;
        points.push(Vec2::new(x, y));
    }
    for (id, p) in points.iter().enumerate() {
        grid.insert(*p, id as i32);
    }

    for (radius, centre) in [
        (7 * SCALE, Vec2::zero()),
        (20 * SCALE, Vec2::new(-49 * SCALE, 49 * SCALE)),
        (55 * SCALE, Vec2::new(12 * SCALE, -3 * SCALE)),
    ] {
        let mut expected: Vec<i32> = points
            .iter()
            .enumerate()
            .filter(|(_, p)| grid.toroidal_distance_sq(**p, centre) <= radius * radius)
            .map(|(id, _)| id as i32)
            .collect();
        let mut got = just_values(grid.query(centre, radius));
        expected.sort();
        got.sort();
        assert_eq!(got, expected);
    }
}

#[test]
fn test_update_bounds_after_clear() {
    let mut grid = grid_50_10();
    grid.insert(Vec2::new(45 * SCALE, 0), 7);
    grid.clear();
    grid.update_bounds(Rect::from_center_half_size(
        Vec2::zero(),
        Vec2::splat(100 * SCALE),
    ));
    grid.insert(Vec2::new(95 * SCALE, 0), 8);
    let results = just_values(grid.query(Vec2::new(-95 * SCALE, 0), 15 * SCALE));
    assert_eq!(results, vec![8]);
}
