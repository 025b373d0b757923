use airnav::classify::QueryOutcome;
use airnav::grid::SpatialGrid;
use airnav::nav::AirborneNavigationManager;
use airnav::point::Point3;
use airnav::search::Heuristic;
use airnav::search::SearchCell;
use airnav::NavError;

fn p(x: i64, y: i64, z: i64) -> Point3 {
    Point3::new(x, y, z)
}

/// An all-clear grid linked without line-of-sight checks.
fn open_grid(a: Point3, b: Point3, step: i64) -> SpatialGrid {
    let mut g = SpatialGrid::build(a, b, step).unwrap();
    let outcomes = vec![QueryOutcome::Clear; g.cells.len()];
    g.classify(&outcomes);
    g.link(false, &Vec::new());
    g
}

#[test]
fn search_cell_pairs_cell_and_score() {
    let s = SearchCell::new(4, 17);
    assert_eq!(s.cell, 4);
    assert_eq!(s.score, 17);
}

#[test]
fn neighbours_are_symmetric_and_never_self() {
    let g = open_grid(p(0, 0, 0), p(10, 10, 10), 5);
    for (f, c) in g.cells.iter().enumerate() {
        for &nb in &c.neighbours {
            assert_ne!(nb, f);
            assert!(g.cells[nb].neighbours.contains(&f));
        }
    }
}

#[test]
fn linking_twice_changes_nothing() {
    let mut g = open_grid(p(0, 0, 0), p(10, 10, 10), 5);
    let before: Vec<Vec<usize>> = g.cells.iter().map(|c| c.neighbours.clone()).collect();
    g.link(false, &Vec::new());
    let after: Vec<Vec<usize>> = g.cells.iter().map(|c| c.neighbours.clone()).collect();
    assert_eq!(before, after);
}

#[test]
fn corridor_path_has_five_monotonic_steps() {
    // A straight 1 x 1 x 5 corridor: the path visits all five cells in order,
    // so cost (one step per cell) grows monotonically along it.
    let mut m = AirborneNavigationManager::new(p(0, 0, 0), p(0, 0, 25), 5, 0, false, 1).unwrap();
    let outcomes = vec![QueryOutcome::Clear; m.grid.cells.len()];
    m.classify(&outcomes);
    m.link(&Vec::new());
    let path = m.find_path(p(0, 0, 0), p(0, 0, 25), Heuristic::Manhattan).unwrap();
    assert_eq!(path.len(), 5);
    for (k, pt) in path.iter().enumerate() {
        assert_eq!(*pt, p(0, 0, 5 * k as i64));
    }
}

#[test]
fn occluded_middle_cell_disconnects_the_corridor() {
    // One fully occluded cell between start and goal, with no way around.
    let mut m = AirborneNavigationManager::new(p(0, 0, 0), p(0, 0, 15), 5, 0, false, 1).unwrap();
    let outcomes = vec![
        QueryOutcome::Clear,
        QueryOutcome::Blocked,
        QueryOutcome::Clear,
    ];
    m.classify(&outcomes);
    m.link(&Vec::new());
    let r = m.find_path(p(0, 0, 0), p(0, 0, 15), Heuristic::Manhattan);
    assert_eq!(r.unwrap_err(), NavError::NoPathFound);
}

#[test]
fn occluded_endpoint_fails_fast() {
    let mut m = AirborneNavigationManager::new(p(0, 0, 0), p(0, 0, 15), 5, 0, false, 1).unwrap();
    let outcomes = vec![
        QueryOutcome::Blocked,
        QueryOutcome::Clear,
        QueryOutcome::Clear,
    ];
    m.classify(&outcomes);
    m.link(&Vec::new());
    let from_blocked = m.find_path(p(0, 0, 0), p(0, 0, 15), Heuristic::Zero);
    assert_eq!(from_blocked.unwrap_err(), NavError::NoPathFound);
    let into_blocked = m.find_path(p(0, 0, 15), p(0, 0, 0), Heuristic::Zero);
    assert_eq!(into_blocked.unwrap_err(), NavError::NoPathFound);
}

#[test]
fn repeated_queries_return_the_same_path() {
    // Fixed graph, start, goal and heuristic: the tie-break keeps repeated
    // calls identical, even on a symmetric volume with many equal-cost paths.
    let mut m = AirborneNavigationManager::new(p(0, 0, 0), p(20, 20, 20), 5, 0, false, 1).unwrap();
    let outcomes = vec![QueryOutcome::Clear; m.grid.cells.len()];
    m.classify(&outcomes);
    m.link(&Vec::new());
    for h in [Heuristic::Zero, Heuristic::Manhattan] {
        let first = m.find_path(p(0, 0, 0), p(20, 20, 20), h).unwrap();
        for _ in 0..3 {
            let again = m.find_path(p(0, 0, 0), p(20, 20, 20), h).unwrap();
            assert_eq!(first, again);
        }
    }
}

#[test]
fn line_of_sight_toggle_adds_and_removes_the_link() {
    // Two adjacent, open cells that cannot see each other: linking without
    // the check joins them; linking with it does not.
    let mut without = AirborneNavigationManager::new(p(0, 0, 0), p(0, 0, 10), 5, 0, false, 1)
        .unwrap();
    let outcomes = vec![QueryOutcome::Clear; 2];
    without.classify(&outcomes);
    without.link(&Vec::new());
    assert_eq!(without.grid.cells[0].neighbours, vec![1]);
    assert_eq!(without.grid.cells[1].neighbours, vec![0]);

    let mut with = AirborneNavigationManager::new(p(0, 0, 0), p(0, 0, 10), 5, 0, true, 1).unwrap();
    with.classify(&outcomes);
    let los = vec![false; 3 * with.grid.cells.len()];
    with.link(&los);
    assert!(with.grid.cells[0].neighbours.is_empty());
    assert!(with.grid.cells[1].neighbours.is_empty());
}

#[test]
fn los_candidates_lists_each_open_pair_once() {
    let mut m = AirborneNavigationManager::new(p(0, 0, 0), p(0, 0, 10), 5, 0, true, 1).unwrap();
    let outcomes = vec![QueryOutcome::Clear; 2];
    m.classify(&outcomes);
    let cands = m.grid.los_candidates();
    // The single unordered pair (0, 1) along z: slot 3*0 + 2.
    assert_eq!(cands, vec![(2, 0, 1)]);
    // Answering that slot clear links the pair even under the check.
    let mut los = vec![false; 3 * m.grid.cells.len()];
    for &(slot, _, _) in &cands {
        los[slot] = true;
    }
    m.link(&los);
    assert_eq!(m.grid.cells[0].neighbours, vec![1]);
    assert_eq!(m.grid.cells[1].neighbours, vec![0]);
}

#[test]
fn out_of_volume_points_clamp_to_nearest_cell() {
    // Points outside the volume are not an error: they snap to the nearest
    // in-bounds cell and the query proceeds.
    let mut m = AirborneNavigationManager::new(p(0, 0, 0), p(0, 0, 25), 5, 0, false, 1).unwrap();
    let outcomes = vec![QueryOutcome::Clear; m.grid.cells.len()];
    m.classify(&outcomes);
    m.link(&Vec::new());
    let path = m
        .find_path(p(-100, -100, -100), p(100, 100, 100), Heuristic::Manhattan)
        .unwrap();
    assert_eq!(path.first(), Some(&p(0, 0, 0)));
    assert_eq!(path.last(), Some(&p(0, 0, 20)));
}

#[test]
fn start_equals_goal_yields_single_cell_path() {
    let g = open_grid(p(0, 0, 0), p(10, 0, 10), 5);
    let path = g.find_path(3, 3, Heuristic::Zero).unwrap();
    assert_eq!(path, vec![3]);
}

#[test]
fn detour_is_found_around_an_occluded_cell() {
    // A 3 x 1 x 3 plate with the centre blocked still connects its corners.
    let mut m = AirborneNavigationManager::new(p(0, 0, 0), p(15, 0, 15), 5, 0, false, 1).unwrap();
    let mut outcomes = vec![QueryOutcome::Clear; m.grid.cells.len()];
    outcomes[4] = QueryOutcome::Blocked;
    m.classify(&outcomes);
    m.link(&Vec::new());
    let path = m.find_path(p(0, 0, 0), p(15, 0, 15), Heuristic::Manhattan).unwrap();
    assert_eq!(path.first(), Some(&p(0, 0, 0)));
    assert_eq!(path.last(), Some(&p(10, 0, 10)));
    // Shortest detour: four steps, five cells, never the centre.
    assert_eq!(path.len(), 5);
    assert!(!path.contains(&p(5, 0, 5)));
}

#[test]
fn manager_keeps_configuration_and_derived_fields() {
    let m = AirborneNavigationManager::new(p(10, 0, 10), p(0, 0, 0), 5, 2, true, 6).unwrap();
    assert_eq!(m.step_size, 5);
    assert_eq!(m.point_geometry_collision_margin, 2);
    assert!(m.check_neighbours_line_of_sight);
    assert_eq!(m.world_collision_mask, 6);
    assert_eq!(m.top_left_back, p(0, 0, 0));
    assert_eq!(m.bottom_right_front, p(10, 0, 10));
    assert_eq!(m.grid_dimensions, p(10, 0, 10));
    assert_eq!(m.cell_centre_offset, p(2, 2, 2));
}
