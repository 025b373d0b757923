use airnav::classify::QueryOutcome;
use airnav::grid::CellIndex;
use airnav::grid::NavMapCell;
use airnav::grid::SpatialGrid;
use airnav::nav::AirborneNavigationManager;
use airnav::point::Point3;
use airnav::NavError;

fn p(x: i64, y: i64, z: i64) -> Point3 {
    Point3::new(x, y, z)
}

#[test]
fn grid_dimensions_two_by_one_by_two() {
    // A 10 x 0 x 10 volume at step 5 yields 2 x 1 x 2 cells, 4 in all.
    let g = SpatialGrid::build(p(0, 0, 0), p(10, 0, 10), 5).unwrap();
    assert_eq!(g.cell_dimensions, CellIndex { x: 2, y: 1, z: 2 });
    assert_eq!(g.cells.len(), 4);
}

#[test]
fn grid_dimensions_are_ceiling_counts() {
    // ceil(9/5) = 2, ceil(10/5) = 2, ceil(11/5) = 3; a flat axis still gets 1.
    let g = SpatialGrid::build(p(0, 0, 0), p(9, 10, 11), 5).unwrap();
    assert_eq!(g.cell_dimensions, CellIndex { x: 2, y: 2, z: 3 });
    assert_eq!(g.cells.len(), 12);
    let flat = SpatialGrid::build(p(0, 0, 0), p(0, 0, 0), 7).unwrap();
    assert_eq!(flat.cell_dimensions, CellIndex { x: 1, y: 1, z: 1 });
    assert_eq!(flat.cells.len(), 1);
}

#[test]
fn corners_are_normalized() {
    // Swapped corners build the same grid, anchored at the minimum corner.
    let g = SpatialGrid::build(p(10, 0, 10), p(0, 0, 0), 5).unwrap();
    assert_eq!(g.top_left_back, p(0, 0, 0));
    assert_eq!(g.cell_dimensions, CellIndex { x: 2, y: 1, z: 2 });
}

#[test]
fn cells_carry_indices_and_origins_in_flat_order() {
    let g = SpatialGrid::build(p(0, 0, 0), p(10, 0, 10), 5).unwrap();
    // flat order: x fastest, then y, then z
    assert_eq!(g.cells[0].indices, CellIndex { x: 0, y: 0, z: 0 });
    assert_eq!(g.cells[1].indices, CellIndex { x: 1, y: 0, z: 0 });
    assert_eq!(g.cells[2].indices, CellIndex { x: 0, y: 0, z: 1 });
    assert_eq!(g.cells[3].indices, CellIndex { x: 1, y: 0, z: 1 });
    assert_eq!(g.cells[3].point_origin, p(5, 0, 5));
    for c in &g.cells {
        assert!(c.is_traversable);
        assert!(!c.is_occluded);
        assert!(c.neighbours.is_empty());
    }
}

#[test]
fn non_positive_step_is_invalid() {
    assert_eq!(
        SpatialGrid::build(p(0, 0, 0), p(10, 0, 10), 0).unwrap_err(),
        NavError::InvalidConfiguration
    );
    assert_eq!(
        SpatialGrid::build(p(0, 0, 0), p(10, 0, 10), -3).unwrap_err(),
        NavError::InvalidConfiguration
    );
}

#[test]
fn negative_margin_is_invalid() {
    let r = AirborneNavigationManager::new(p(0, 0, 0), p(10, 0, 10), 5, -1, false, 1);
    assert_eq!(r.unwrap_err(), NavError::InvalidConfiguration);
}

#[test]
fn oversized_volume_is_invalid() {
    // A volume this large cannot be addressed; the build refuses it up front.
    let r = SpatialGrid::build(
        p(i64::MIN / 2, i64::MIN / 2, i64::MIN / 2),
        p(i64::MAX / 2, i64::MAX / 2, i64::MAX / 2),
        1,
    );
    assert_eq!(r.unwrap_err(), NavError::InvalidConfiguration);
}

#[test]
fn nav_map_cell_defaults() {
    let c = NavMapCell::new(CellIndex { x: 1, y: 2, z: 3 }, p(5, 10, 15));
    assert!(c.is_traversable);
    assert!(!c.is_occluded);
    assert_eq!(c.indices, CellIndex { x: 1, y: 2, z: 3 });
    assert_eq!(c.point_origin, p(5, 10, 15));
    assert!(c.neighbours.is_empty());
}

#[test]
fn add_neighbour_appends() {
    let mut c = NavMapCell::new(CellIndex { x: 0, y: 0, z: 0 }, p(0, 0, 0));
    c.add_neighbour(7);
    c.add_neighbour(3);
    assert_eq!(c.neighbours, vec![7, 3]);
}

#[test]
fn sample_centres_offset_by_half_step() {
    let g = SpatialGrid::build(p(0, 0, 0), p(10, 0, 10), 5).unwrap();
    let centres = g.sample_centres();
    assert_eq!(centres.len(), 4);
    assert_eq!(centres[0], p(2, 2, 2));
    assert_eq!(centres[3], p(7, 2, 7));
}

#[test]
fn classify_marks_blocked_and_failed_cells() {
    let mut g = SpatialGrid::build(p(0, 0, 0), p(10, 0, 10), 5).unwrap();
    let outcomes = vec![
        QueryOutcome::Clear,
        QueryOutcome::Blocked,
        QueryOutcome::Failed,
        QueryOutcome::Clear,
    ];
    g.classify(&outcomes);
    assert!(g.cells[0].is_traversable && !g.cells[0].is_occluded);
    assert!(!g.cells[1].is_traversable && g.cells[1].is_occluded);
    // A failed query is fail-safe: the cell counts as occluded.
    assert!(!g.cells[2].is_traversable && g.cells[2].is_occluded);
    assert!(g.cells[3].is_traversable && !g.cells[3].is_occluded);
}
