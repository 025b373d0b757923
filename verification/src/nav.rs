//! The orchestrator: owns the grid, rebuilds it on demand, and answers
//! point-to-point path queries for the host.
//!
//! A query point outside the current volume is not an error: it is clamped to
//! the nearest in-bounds cell and the search proceeds — callers lose only
//! precision, never the call.
use vstd::arithmetic::div_mod::lemma_div_is_ordered;
use vstd::arithmetic::div_mod::lemma_div_pos_is_pos;
use vstd::prelude::*;

use crate::classify::QueryOutcome;
use crate::connect::added_links;
use crate::connect::same_shape_flags;
use crate::grid::config_ok;
use crate::grid::lemma_flat_bounds;
use crate::grid::CellIndex;
use crate::grid::SpatialGrid;
use crate::point::sort_axis;
use crate::point::Point3;
use crate::search::is_path;
use crate::search::open_at;
use crate::search::reachable;
use crate::search::Heuristic;
use crate::NavError;

verus! {

/// Clamps a coordinate into the volume, then takes its containing cell along
/// one axis: the nearest cell, with out-of-volume inputs losing precision
/// only.
pub open spec fn snap_axis(lo: int, hi: int, step: int, dim: int, p: int) -> int {
    let q = if p <= lo {
        lo
    } else if p >= hi {
        hi
    } else {
        p
    };
    let c = (q - lo) / step;
    if c >= dim {
        dim - 1
    } else {
        c
    }
}

/// The world points of a cell path: each cell's origin, in path order.
pub open spec fn path_points_match(g: SpatialGrid, p: Seq<usize>, pts: Seq<Point3>) -> bool {
    &&& pts.len() == p.len()
    &&& forall|k: int|
        0 <= k < p.len() ==> (#[trigger] pts[k]) == g.cells@[p[k] as int].point_origin
}

/// One axis of the point-to-cell snap.
fn snap_axis_val(lo: i64, hi: i64, step: i64, dim: usize, p: i64) -> (r: usize)
    requires
        step >= 1,
        dim >= 1,
        dim <= i64::MAX,
        lo <= hi,
        hi as int - lo as int <= i64::MAX,
    ensures
        r as int == snap_axis(lo as int, hi as int, step as int, dim as int, p as int),
        r < dim,
{
    let q = if p <= lo {
        lo
    } else if p >= hi {
        hi
    } else {
        p
    };
    proof {
        lemma_div_pos_is_pos(q as int - lo as int, step as int);
        lemma_div_is_ordered(0, q as int - lo as int, step as int);
    }
    let c = (q - lo) / step;
    if c >= dim as i64 {
        dim - 1
    } else {
        c as usize
    }
}

/// The navigation manager. Its grid is rebuilt by `new`; classification and
/// linking consume the host's query answers in place; path queries snap world
/// points to cells and search the linked graph.
#[derive(Debug)]
pub struct AirborneNavigationManager {
    /// Distance between adjacent lattice points along each axis.
    pub step_size: i64,
    /// Half-width of the box sampled around each cell centre when testing
    /// occlusion; carried for the host's collision pass.
    pub point_geometry_collision_margin: i64,
    /// Whether candidate neighbour pairs must also pass a line-of-sight query.
    pub check_neighbours_line_of_sight: bool,
    /// Collision layer mask naming what counts as invalid geometry; carried
    /// for the host's collision pass.
    pub world_collision_mask: i32,
    /// Normalized minimum corner of the navigable volume.
    pub top_left_back: Point3,
    /// Normalized maximum corner of the navigable volume.
    pub bottom_right_front: Point3,
    /// Extents of the volume per axis.
    pub grid_dimensions: Point3,
    /// Integer cell counts per axis.
    pub cell_dimensions: CellIndex,
    /// Offset from a cell's origin point to the centre of its cell.
    pub cell_centre_offset: Point3,
    /// The cell lattice this manager exclusively owns.
    pub grid: SpatialGrid,
}

impl AirborneNavigationManager {
    /// The manager's derived fields agree with the grid it owns.
    pub open spec fn wf(self) -> bool {
        &&& self.grid.wf()
        &&& self.step_size == self.grid.step_size
        &&& self.point_geometry_collision_margin >= 0
        &&& self.top_left_back == self.grid.top_left_back
        &&& self.cell_dimensions == self.grid.cell_dimensions
        &&& self.cell_dimensions.x <= i64::MAX
        &&& self.cell_dimensions.y <= i64::MAX
        &&& self.cell_dimensions.z <= i64::MAX
        &&& self.grid_dimensions.x == self.bottom_right_front.x - self.top_left_back.x
        &&& self.grid_dimensions.y == self.bottom_right_front.y - self.top_left_back.y
        &&& self.grid_dimensions.z == self.bottom_right_front.z - self.top_left_back.z
        &&& self.grid_dimensions.x >= 0
        &&& self.grid_dimensions.y >= 0
        &&& self.grid_dimensions.z >= 0
        &&& self.cell_centre_offset.x == self.step_size / 2
        &&& self.cell_centre_offset.y == self.step_size / 2
        &&& self.cell_centre_offset.z == self.step_size / 2
    }

    /// Builds a manager over the box between the two corners (in either
    /// order), allocating its full cell lattice. Fails with
    /// `InvalidConfiguration` exactly when the step is non-positive, the
    /// margin negative, or the volume overflows the machine's coordinate or
    /// address range; nothing partially constructed is exposed.
    pub fn new(
        top_left_back: Point3,
        bottom_right_front: Point3,
        step_size: i64,
        point_geometry_collision_margin: i64,
        check_neighbours_line_of_sight: bool,
        world_collision_mask: i32,
    ) -> (r: Result<AirborneNavigationManager, NavError>)
        ensures
            r is Ok <==> config_ok(top_left_back, bottom_right_front, step_size as int)
                && point_geometry_collision_margin >= 0,
            r matches Err(e) ==> e == NavError::InvalidConfiguration,
            r matches Ok(m) ==> {
                &&& m.wf()
                &&& m.grid.built_from(top_left_back, bottom_right_front, step_size)
                &&& m.step_size == step_size
                &&& m.point_geometry_collision_margin == point_geometry_collision_margin
                &&& m.check_neighbours_line_of_sight == check_neighbours_line_of_sight
                &&& m.world_collision_mask == world_collision_mask
            },
    {
        if point_geometry_collision_margin < 0 {
            return Err(NavError::InvalidConfiguration);
        }
        let grid = match SpatialGrid::build(top_left_back, bottom_right_front, step_size) {
            Ok(g) => g,
            Err(e) => {
                return Err(e);
            },
        };
        let (lox, hix) = sort_axis(top_left_back.x, bottom_right_front.x);
        let (loy, hiy) = sort_axis(top_left_back.y, bottom_right_front.y);
        let (loz, hiz) = sort_axis(top_left_back.z, bottom_right_front.z);
        let half = step_size / 2;
        Ok(
            AirborneNavigationManager {
                step_size,
                point_geometry_collision_margin,
                check_neighbours_line_of_sight,
                world_collision_mask,
                top_left_back: Point3 { x: lox, y: loy, z: loz },
                bottom_right_front: Point3 { x: hix, y: hiy, z: hiz },
                grid_dimensions: Point3 { x: hix - lox, y: hiy - loy, z: hiz - loz },
                cell_dimensions: grid.cell_dimensions,
                cell_centre_offset: Point3 { x: half, y: half, z: half },
                grid,
            },
        )
    }

    /// The centre of each cell's sampling volume, in flattened cell order:
    /// one collision query per cell, against `world_collision_mask`, with
    /// half-extent `point_geometry_collision_margin`.
    pub fn sample_centres(&self) -> (r: Vec<Point3>)
        requires
            self.wf(),
        ensures
            r@.len() == self.grid.cells@.len(),
            forall|f: int| 0 <= f < r@.len() ==> self.grid.centre_of(f, #[trigger] r@[f]),
    {
        self.grid.sample_centres()
    }

    /// Applies one collision outcome per cell; see `SpatialGrid::classify`.
    /// The manager's configuration and the grid's shape are untouched.
    pub fn classify(&mut self, outcomes: &Vec<QueryOutcome>)
        requires
            old(self).wf(),
            outcomes@.len() == old(self).grid.cells@.len(),
        ensures
            final(self).wf(),
            final(self).grid.cells@.len() == old(self).grid.cells@.len(),
            forall|f: int|
                0 <= f < old(self).grid.cells@.len() ==> {
                    &&& (#[trigger] final(self).grid.cells@[f]).is_occluded == (old(self).grid.cells@[f].is_occluded || outcomes@[f].blocks())
                    &&& final(self).grid.cells@[f].is_traversable == (old(self).grid.cells@[f].is_traversable && !outcomes@[f].blocks())
                    &&& final(self).grid.cells@[f].indices == old(self).grid.cells@[f].indices
                    &&& final(self).grid.cells@[f].point_origin == old(self).grid.cells@[f].point_origin
                    &&& final(self).grid.cells@[f].neighbours@ == old(self).grid.cells@[f].neighbours@
                },
            *final(self) == (AirborneNavigationManager { grid: final(self).grid, ..*old(self) }),
    {
        self.grid.classify(outcomes)
    }

    /// Links every allowed lattice edge, honouring
    /// `check_neighbours_line_of_sight`; see `SpatialGrid::link`.
    pub fn link(&mut self, los_clear: &Vec<bool>)
        requires
            old(self).wf(),
            old(self).check_neighbours_line_of_sight ==> los_clear@.len() == 3 * old(self).grid.cells@.len(),
        ensures
            final(self).wf(),
            same_shape_flags(old(self).grid, final(self).grid),
            forall|f: int|
                0 <= f < old(self).grid.cells@.len() ==> (#[trigger] final(self).grid.cells@[f]).neighbours@ == old(self).grid.cells@[f].neighbours@
                    + added_links(
                    old(self).grid,
                    los_clear@,
                    old(self).check_neighbours_line_of_sight,
                    f,
                ),
            *final(self) == (AirborneNavigationManager { grid: final(self).grid, ..*old(self) }),
    {
        let check = self.check_neighbours_line_of_sight;
        self.grid.link(check, los_clear)
    }

    /// The flattened index of the nearest cell to a world point: the point is
    /// clamped into the volume per axis, then assigned to its containing
    /// cell.
    pub fn snap_to_cell(&self, p: Point3) -> (f: usize)
        requires
            self.wf(),
        ensures
            f < self.grid.cells@.len(),
            f as int == self.grid.flat(
                snap_axis(
                    self.top_left_back.x as int,
                    self.bottom_right_front.x as int,
                    self.step_size as int,
                    self.cell_dimensions.x as int,
                    p.x as int,
                ),
                snap_axis(
                    self.top_left_back.y as int,
                    self.bottom_right_front.y as int,
                    self.step_size as int,
                    self.cell_dimensions.y as int,
                    p.y as int,
                ),
                snap_axis(
                    self.top_left_back.z as int,
                    self.bottom_right_front.z as int,
                    self.step_size as int,
                    self.cell_dimensions.z as int,
                    p.z as int,
                ),
            ),
    {
        let nx = self.cell_dimensions.x;
        let ny = self.cell_dimensions.y;
        let nz = self.cell_dimensions.z;
        let cx = snap_axis_val(
            self.top_left_back.x,
            self.bottom_right_front.x,
            self.step_size,
            nx,
            p.x,
        );
        let cy = snap_axis_val(
            self.top_left_back.y,
            self.bottom_right_front.y,
            self.step_size,
            ny,
            p.y,
        );
        let cz = snap_axis_val(
            self.top_left_back.z,
            self.bottom_right_front.z,
            self.step_size,
            nz,
            p.z,
        );
        let n = self.grid.cells.len();
        proof {
            lemma_flat_bounds(nx as int, ny as int, nz as int, cx as int, cy as int, cz as int);
            let fx = cx as int;
            let fy = cy as int;
            let fz = cz as int;
            let ax = nx as int;
            let ay = ny as int;
            let az = nz as int;
            assert(fy * ax + fx < ax * ay && fz * (ax * ay) <= ax * ay * az - ax * ay && ax * ay
                <= ax * ay * az && fx + fy * ax + fz * (ax * ay) < ax * ay * az && fz * (ax * ay)
                == fz * ax * ay) by (nonlinear_arith)
                requires
                    0 <= fx < ax,
                    0 <= fy < ay,
                    0 <= fz < az,
                    ax >= 1,
                    ay >= 1,
                    az >= 1,
            ;
            assert(n as int == ax * ay * az);
        }
        cx + cy * nx + cz * (nx * ny)
    }

    /// The query API: snaps both world points to their nearest cells, runs
    /// the search, and returns the origin points of the path's cells in
    /// order. Succeeds exactly when both snapped cells are open and linked by
    /// some chain of neighbours; `NoPathFound` otherwise.
    pub fn find_path(&self, start: Point3, goal: Point3, heuristic: Heuristic) -> (r: Result<
        Vec<Point3>,
        NavError,
    >)
        requires
            self.wf(),
        ensures
            ({
                let sf = self.grid.flat(
                    snap_axis(
                        self.top_left_back.x as int,
                        self.bottom_right_front.x as int,
                        self.step_size as int,
                        self.cell_dimensions.x as int,
                        start.x as int,
                    ),
                    snap_axis(
                        self.top_left_back.y as int,
                        self.bottom_right_front.y as int,
                        self.step_size as int,
                        self.cell_dimensions.y as int,
                        start.y as int,
                    ),
                    snap_axis(
                        self.top_left_back.z as int,
                        self.bottom_right_front.z as int,
                        self.step_size as int,
                        self.cell_dimensions.z as int,
                        start.z as int,
                    ),
                );
                let gf = self.grid.flat(
                    snap_axis(
                        self.top_left_back.x as int,
                        self.bottom_right_front.x as int,
                        self.step_size as int,
                        self.cell_dimensions.x as int,
                        goal.x as int,
                    ),
                    snap_axis(
                        self.top_left_back.y as int,
                        self.bottom_right_front.y as int,
                        self.step_size as int,
                        self.cell_dimensions.y as int,
                        goal.y as int,
                    ),
                    snap_axis(
                        self.top_left_back.z as int,
                        self.bottom_right_front.z as int,
                        self.step_size as int,
                        self.cell_dimensions.z as int,
                        goal.z as int,
                    ),
                );
                match r {
                    Ok(pts) => exists|p: Seq<usize>|
                        #[trigger] is_path(self.grid, p, sf, gf) && path_points_match(
                            self.grid,
                            p,
                            pts@,
                        ),
                    Err(e) => {
                        &&& e == NavError::NoPathFound
                        &&& !(open_at(self.grid, sf) && open_at(self.grid, gf) && reachable(
                            self.grid,
                            sf,
                            gf,
                        ))
                    },
                }
            }),
    {
        let sf = self.snap_to_cell(start);
        let gf = self.snap_to_cell(goal);
        match self.grid.find_path(sf, gf, heuristic) {
            Err(e) => Err(e),
            Ok(cell_path) => {
                let m = cell_path.len();
                let mut pts: Vec<Point3> = Vec::new();
                let mut k: usize = 0;
                #[verifier::loop_isolation(false)]
                while k < m
                    invariant
                        k <= m,
                        pts@.len() == k,
                        forall|i: int|
                            0 <= i < k ==> (#[trigger] pts@[i]) == self.grid.cells@[cell_path@[
                                i
                            ] as int].point_origin,
                    decreases m - k,
                {
                    let c = cell_path[k];
                    pts.push(self.grid.cells[c].point_origin);
                    k = k + 1;
                }
                proof {
                    assert(path_points_match(self.grid, cell_path@, pts@));
                }
                Ok(pts)
            },
        }
    }
}

} // verus!
