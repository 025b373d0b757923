//! The dense 3D lattice of navigation cells over an axis-aligned box.
//!
//! A grid owns one `NavMapCell` per integer coordinate; cells refer to their
//! neighbours by flattened index into the grid's own array, so the mutual
//! links are non-owning and cannot form ownership cycles.
use vstd::arithmetic::div_mod::lemma_fundamental_div_mod;
use vstd::arithmetic::div_mod::lemma_fundamental_div_mod_converse;
use vstd::arithmetic::mul::lemma_mul_inequality;
use vstd::prelude::*;

use crate::point::axis_max;
use crate::point::axis_min;
use crate::point::sort_axis;
use crate::point::Point3;
use crate::NavError;

verus! {

/// The integer lattice coordinate of a cell: `0 <= indices[axis] < cell_dimensions[axis]`.
#[derive(Clone, Copy, PartialEq, Eq, Structural, Debug)]
pub struct CellIndex {
    pub x: usize,
    pub y: usize,
    pub z: usize,
}

/// One lattice point of the navigation grid.
#[derive(Debug)]
pub struct NavMapCell {
    /// True unless explicitly cleared during classification.
    pub is_traversable: bool,
    /// True if the cell's sampling volume intersects invalid geometry.
    pub is_occluded: bool,
    /// Unique integer coordinate of this cell within the grid.
    pub indices: CellIndex,
    /// World-space corner point of the cell: `top_left_back + indices * step_size`.
    pub point_origin: Point3,
    /// Flattened indices of the linked neighbour cells in the same grid.
    pub neighbours: Vec<usize>,
}

impl NavMapCell {
    /// A cell takes part in the connectivity graph only when it is both
    /// traversable and unoccluded.
    pub open spec fn open_cell(self) -> bool {
        self.is_traversable && !self.is_occluded
    }

    pub fn new(indices: CellIndex, point_origin: Point3) -> (c: NavMapCell)
        ensures
            c.is_traversable,
            !c.is_occluded,
            c.indices == indices,
            c.point_origin == point_origin,
            c.neighbours@ == Seq::<usize>::empty(),
    {
        NavMapCell {
            is_traversable: true,
            is_occluded: false,
            indices,
            point_origin,
            neighbours: Vec::new(),
        }
    }

    /// Marks the cell's sampling volume as intersecting invalid geometry.
    pub fn set_as_occluded(&mut self)
        ensures
            final(self).is_occluded,
            final(self).is_traversable == old(self).is_traversable,
            final(self).indices == old(self).indices,
            final(self).point_origin == old(self).point_origin,
            final(self).neighbours@ == old(self).neighbours@,
    {
        self.is_occluded = true;
    }

    /// Takes the cell out of the traversable set.
    pub fn set_not_traversable(&mut self)
        ensures
            !final(self).is_traversable,
            final(self).is_occluded == old(self).is_occluded,
            final(self).indices == old(self).indices,
            final(self).point_origin == old(self).point_origin,
            final(self).neighbours@ == old(self).neighbours@,
    {
        self.is_traversable = false;
    }

    /// Appends one neighbour link; the caller is responsible for keeping the
    /// links symmetric and duplicate-free.
    pub fn add_neighbour(&mut self, neighbour: usize)
        ensures
            final(self).neighbours@ == old(self).neighbours@.push(neighbour),
            final(self).is_traversable == old(self).is_traversable,
            final(self).is_occluded == old(self).is_occluded,
            final(self).indices == old(self).indices,
            final(self).point_origin == old(self).point_origin,
    {
        self.neighbours.push(neighbour);
    }
}

/// The flattened array position of lattice coordinate `(x, y, z)` in a grid
/// with `nx * ny` cells per layer: `x + y*nx + z*nx*ny`.
pub open spec fn flat_idx(nx: int, ny: int, x: int, y: int, z: int) -> int {
    x + y * nx + z * nx * ny
}

/// Number of cells along one axis: the ceiling of `extent / step`, and at
/// least 1 so even a degenerate (zero-extent) volume yields a non-empty grid.
pub open spec fn axis_cell_count(extent: int, step: int) -> int {
    if extent <= 0 {
        1
    } else {
        (extent - 1) / step + 1
    }
}

/// When a grid build succeeds: a positive step, per-axis extents that fit the
/// coordinate type, a total cell count that fits the address space, and room
/// above the top corner for the half-step centre offset.
pub open spec fn config_ok(a: Point3, b: Point3, step: int) -> bool {
    let ex = axis_max(a.x as int, b.x as int) - axis_min(a.x as int, b.x as int);
    let ey = axis_max(a.y as int, b.y as int) - axis_min(a.y as int, b.y as int);
    let ez = axis_max(a.z as int, b.z as int) - axis_min(a.z as int, b.z as int);
    &&& step >= 1
    &&& ex <= i64::MAX
    &&& ey <= i64::MAX
    &&& ez <= i64::MAX
    &&& axis_cell_count(ex, step) * axis_cell_count(ey, step) * axis_cell_count(ez, step)
        <= usize::MAX
    &&& axis_max(a.x as int, b.x as int) + step / 2 <= i64::MAX
    &&& axis_max(a.y as int, b.y as int) + step / 2 <= i64::MAX
    &&& axis_max(a.z as int, b.z as int) + step / 2 <= i64::MAX
}

/// What a freshly built cell at coordinate `(x, y, z)` holds.
pub open spec fn fresh_cell_value(lo: Point3, step: int, x: int, y: int, z: int, c: NavMapCell) -> bool {
    &&& c.indices.x == x
    &&& c.indices.y == y
    &&& c.indices.z == z
    &&& c.point_origin.x == lo.x + x * step
    &&& c.point_origin.y == lo.y + y * step
    &&& c.point_origin.z == lo.z + z * step
    &&& c.is_traversable
    &&& !c.is_occluded
    &&& c.neighbours@ == Seq::<usize>::empty()
}

/// The navigation grid: an immutable spec (corner, step, dimensions) plus the
/// dense cell array it exclusively owns.
#[derive(Debug)]
pub struct SpatialGrid {
    /// Normalized minimum corner of the navigable volume.
    pub top_left_back: Point3,
    /// Positive distance between adjacent lattice points along each axis.
    pub step_size: i64,
    /// Integer cell counts per axis, each at least 1.
    pub cell_dimensions: CellIndex,
    /// One cell per lattice coordinate, at its flattened index.
    pub cells: Vec<NavMapCell>,
}

impl SpatialGrid {
    pub open spec fn dim_x(self) -> int {
        self.cell_dimensions.x as int
    }

    pub open spec fn dim_y(self) -> int {
        self.cell_dimensions.y as int
    }

    pub open spec fn dim_z(self) -> int {
        self.cell_dimensions.z as int
    }

    pub open spec fn total_cells(self) -> int {
        self.dim_x() * self.dim_y() * self.dim_z()
    }

    pub open spec fn flat(self, x: int, y: int, z: int) -> int {
        flat_idx(self.dim_x(), self.dim_y(), x, y, z)
    }

    pub open spec fn in_range(self, x: int, y: int, z: int) -> bool {
        &&& 0 <= x < self.dim_x()
        &&& 0 <= y < self.dim_y()
        &&& 0 <= z < self.dim_z()
    }

    /// The cell stored for lattice coordinate `(x, y, z)`.
    pub open spec fn cell_at(self, x: int, y: int, z: int) -> NavMapCell {
        self.cells@[self.flat(x, y, z)]
    }

    /// The cell at coordinate `(x, y, z)` sits at its flattened index and
    /// carries that coordinate and the derived origin point.
    pub open spec fn coords_placed(self, x: int, y: int, z: int) -> bool {
        &&& 0 <= self.flat(x, y, z) < self.cells@.len()
        &&& self.cell_at(x, y, z).indices.x == x
        &&& self.cell_at(x, y, z).indices.y == y
        &&& self.cell_at(x, y, z).indices.z == z
        &&& self.cell_at(x, y, z).point_origin.x == self.top_left_back.x + x * self.step_size
        &&& self.cell_at(x, y, z).point_origin.y == self.top_left_back.y + y * self.step_size
        &&& self.cell_at(x, y, z).point_origin.z == self.top_left_back.z + z * self.step_size
    }

    /// The cell stored at flattened index `f` carries an in-range coordinate
    /// that flattens back to `f`.
    pub open spec fn index_consistent(self, f: int) -> bool {
        let c = self.cells@[f].indices;
        &&& self.in_range(c.x as int, c.y as int, c.z as int)
        &&& self.flat(c.x as int, c.y as int, c.z as int) == f
    }

    /// Every cell origin leaves room for the half-step centre offset.
    pub open spec fn centre_fits(self) -> bool {
        &&& self.top_left_back.x + (self.dim_x() - 1) * self.step_size + self.step_size / 2
            <= i64::MAX
        &&& self.top_left_back.y + (self.dim_y() - 1) * self.step_size + self.step_size / 2
            <= i64::MAX
        &&& self.top_left_back.z + (self.dim_z() - 1) * self.step_size + self.step_size / 2
            <= i64::MAX
    }

    /// Structural well-formedness: positive dimensions and step, a dense cell
    /// array, and a two-way correspondence between coordinates and indices.
    /// Established by `build` and preserved by classification and linking.
    pub open spec fn wf(self) -> bool {
        &&& self.step_size >= 1
        &&& self.dim_x() >= 1
        &&& self.dim_y() >= 1
        &&& self.dim_z() >= 1
        &&& self.cells@.len() == self.total_cells()
        &&& forall|x: int, y: int, z: int|
            self.in_range(x, y, z) ==> #[trigger] self.coords_placed(x, y, z)
        &&& forall|f: int| 0 <= f < self.cells@.len() ==> #[trigger] self.index_consistent(f)
        &&& self.centre_fits()
    }

    /// Every cell still holds its just-built defaults: traversable,
    /// unoccluded, and not yet linked.
    pub open spec fn fresh(self) -> bool {
        forall|f: int|
            0 <= f < self.cells@.len() ==> {
                &&& (#[trigger] self.cells@[f]).is_traversable
                &&& !self.cells@[f].is_occluded
                &&& self.cells@[f].neighbours@ == Seq::<usize>::empty()
            }
    }

    /// The grid a successful build returns: normalized corner, the ceiling
    /// cell counts of the requested volume, and a fresh, well-formed lattice.
    pub open spec fn built_from(self, a: Point3, b: Point3, step: i64) -> bool {
        &&& self.step_size == step
        &&& self.top_left_back.x == axis_min(a.x as int, b.x as int)
        &&& self.top_left_back.y == axis_min(a.y as int, b.y as int)
        &&& self.top_left_back.z == axis_min(a.z as int, b.z as int)
        &&& self.dim_x() == axis_cell_count(
            axis_max(a.x as int, b.x as int) - axis_min(a.x as int, b.x as int),
            step as int,
        )
        &&& self.dim_y() == axis_cell_count(
            axis_max(a.y as int, b.y as int) - axis_min(a.y as int, b.y as int),
            step as int,
        )
        &&& self.dim_z() == axis_cell_count(
            axis_max(a.z as int, b.z as int) - axis_min(a.z as int, b.z as int),
            step as int,
        )
        &&& self.wf()
        &&& self.fresh()
    }

    /// Allocates one cell per lattice coordinate spanning the box between the
    /// two corners, in flattened order for reproducibility. Normalizes the
    /// corners first, so no ordering between them is assumed. Fails with
    /// `InvalidConfiguration` exactly when the step is non-positive or the
    /// volume overflows the machine's coordinate or address range; nothing
    /// partially constructed is ever exposed.
    #[verifier::loop_isolation(false)]
    #[verifier::rlimit(100)]
    pub fn build(top_left_back: Point3, bottom_right_front: Point3, step_size: i64) -> (r: Result<
        SpatialGrid,
        NavError,
    >)
        ensures
            r is Ok <==> config_ok(top_left_back, bottom_right_front, step_size as int),
            r matches Err(e) ==> e == NavError::InvalidConfiguration,
            r matches Ok(g) ==> g.built_from(top_left_back, bottom_right_front, step_size),
    {
        if step_size <= 0 {
            return Err(NavError::InvalidConfiguration);
        }
        let (lox, hix) = sort_axis(top_left_back.x, bottom_right_front.x);
        let (loy, hiy) = sort_axis(top_left_back.y, bottom_right_front.y);
        let (loz, hiz) = sort_axis(top_left_back.z, bottom_right_front.z);
        // Per-axis extents must fit the coordinate type.
        if lox < 0 && hix > i64::MAX + lox {
            return Err(NavError::InvalidConfiguration);
        }
        if loy < 0 && hiy > i64::MAX + loy {
            return Err(NavError::InvalidConfiguration);
        }
        if loz < 0 && hiz > i64::MAX + loz {
            return Err(NavError::InvalidConfiguration);
        }
        let ex = hix - lox;
        let ey = hiy - loy;
        let ez = hiz - loz;
        // The half-step centre offset must stay representable above the top corner.
        let half = step_size / 2;
        if hix > i64::MAX - half || hiy > i64::MAX - half || hiz > i64::MAX - half {
            return Err(NavError::InvalidConfiguration);
        }
        let nxl: i64 = if ex == 0 {
            1
        } else {
            (ex - 1) / step_size + 1
        };
        let nyl: i64 = if ey == 0 {
            1
        } else {
            (ey - 1) / step_size + 1
        };
        let nzl: i64 = if ez == 0 {
            1
        } else {
            (ez - 1) / step_size + 1
        };
        proof {
            lemma_le_div_iff_mul_le(nxl as int, nyl as int, usize::MAX as int);
            lemma_le_div_iff_mul_le((nxl * nyl) as int, nzl as int, usize::MAX as int);
        }
        // The total cell count must fit the address space.
        if (nxl as u64) > (usize::MAX as u64) || (nyl as u64) > (usize::MAX as u64) || (nzl as u64)
            > (usize::MAX as u64) {
            proof {
                lemma_product_ge_factor(nxl as int, nyl as int, nzl as int);
            }
            return Err(NavError::InvalidConfiguration);
        }
        let nx = nxl as usize;
        let ny = nyl as usize;
        let nz = nzl as usize;
        if nx > usize::MAX / ny {
            proof {
                lemma_product_ge_factor(nx as int, ny as int, nz as int);
            }
            return Err(NavError::InvalidConfiguration);
        }
        let nxy = nx * ny;
        if nxy > usize::MAX / nz {
            return Err(NavError::InvalidConfiguration);
        }
        let total = nxy * nz;
        let lo = Point3 { x: lox, y: loy, z: loz };
        let mut cells: Vec<NavMapCell> = Vec::new();
        proof {
            assert(flat_idx(nx as int, ny as int, 0, 0, 0) == 0) by (nonlinear_arith);
        }
        let mut z: usize = 0;
        while z < nz
            invariant
                0 <= z <= nz,
                cells@.len() == flat_idx(nx as int, ny as int, 0, 0, z as int),
                forall|xx: int, yy: int, zz: int|
                    0 <= xx < nx && 0 <= yy < ny && 0 <= zz < nz && flat_idx(
                        nx as int,
                        ny as int,
                        xx,
                        yy,
                        zz,
                    ) < cells@.len() ==> fresh_cell_value(
                        lo,
                        step_size as int,
                        xx,
                        yy,
                        zz,
                        #[trigger] cells@[flat_idx(nx as int, ny as int, xx, yy, zz)],
                    ),
            decreases nz - z,
        {
            let mut y: usize = 0;
            while y < ny
                invariant
                    0 <= y <= ny,
                    cells@.len() == flat_idx(nx as int, ny as int, 0, y as int, z as int),
                    forall|xx: int, yy: int, zz: int|
                        0 <= xx < nx && 0 <= yy < ny && 0 <= zz < nz && flat_idx(
                            nx as int,
                            ny as int,
                            xx,
                            yy,
                            zz,
                        ) < cells@.len() ==> fresh_cell_value(
                            lo,
                            step_size as int,
                            xx,
                            yy,
                            zz,
                            #[trigger] cells@[flat_idx(nx as int, ny as int, xx, yy, zz)],
                        ),
                decreases ny - y,
            {
                let mut x: usize = 0;
                while x < nx
                    invariant
                        0 <= x <= nx,
                        cells@.len() == flat_idx(nx as int, ny as int, x as int, y as int, z as int),
                        forall|xx: int, yy: int, zz: int|
                            0 <= xx < nx && 0 <= yy < ny && 0 <= zz < nz && flat_idx(
                                nx as int,
                                ny as int,
                                xx,
                                yy,
                                zz,
                            ) < cells@.len() ==> fresh_cell_value(
                                lo,
                                step_size as int,
                                xx,
                                yy,
                                zz,
                                #[trigger] cells@[flat_idx(nx as int, ny as int, xx, yy, zz)],
                            ),
                    decreases nx - x,
                {
                    proof {
                        lemma_flat_bounds(
                            nx as int,
                            ny as int,
                            nz as int,
                            x as int,
                            y as int,
                            z as int,
                        );
                        lemma_origin_step_fits(
                            lox as int,
                            hix as int,
                            step_size as int,
                            nxl as int,
                            x as int,
                        );
                        lemma_origin_step_fits(
                            loy as int,
                            hiy as int,
                            step_size as int,
                            nyl as int,
                            y as int,
                        );
                        lemma_origin_step_fits(
                            loz as int,
                            hiz as int,
                            step_size as int,
                            nzl as int,
                            z as int,
                        );
                    }
                    let origin = Point3 {
                        x: lox + (x as i64) * step_size,
                        y: loy + (y as i64) * step_size,
                        z: loz + (z as i64) * step_size,
                    };
                    let indices = CellIndex { x, y, z };
                    cells.push(NavMapCell::new(indices, origin));
                    proof {
                        assert forall|xx: int, yy: int, zz: int|
                            0 <= xx < nx && 0 <= yy < ny && 0 <= zz < nz && flat_idx(
                                nx as int,
                                ny as int,
                                xx,
                                yy,
                                zz,
                            ) < cells@.len() implies fresh_cell_value(
                            lo,
                            step_size as int,
                            xx,
                            yy,
                            zz,
                            #[trigger] cells@[flat_idx(nx as int, ny as int, xx, yy, zz)],
                        ) by {
                            let f = flat_idx(nx as int, ny as int, xx, yy, zz);
                            if f == cells@.len() - 1 {
                                lemma_flat_injective(
                                    nx as int,
                                    ny as int,
                                    xx,
                                    yy,
                                    zz,
                                    x as int,
                                    y as int,
                                    z as int,
                                );
                            }
                        }
                    }
                    x = x + 1;
                }
                proof {
                    assert(flat_idx(nx as int, ny as int, nx as int, y as int, z as int)
                        == flat_idx(nx as int, ny as int, 0, y as int + 1, z as int))
                        by (nonlinear_arith);
                }
                y = y + 1;
            }
            proof {
                assert(flat_idx(nx as int, ny as int, 0, ny as int, z as int) == flat_idx(
                    nx as int,
                    ny as int,
                    0,
                    0,
                    z as int + 1,
                )) by (nonlinear_arith);
            }
            z = z + 1;
        }
        proof {
            assert(flat_idx(nx as int, ny as int, 0, 0, nz as int) == (nx as int) * (ny as int) * (
            nz as int)) by (nonlinear_arith);
        }
        let grid = SpatialGrid {
            top_left_back: lo,
            step_size,
            cell_dimensions: CellIndex { x: nx, y: ny, z: nz },
            cells,
        };
        proof {
            lemma_origin_step_fits(lox as int, hix as int, step_size as int, nxl as int, nxl - 1);
            lemma_origin_step_fits(loy as int, hiy as int, step_size as int, nyl as int, nyl - 1);
            lemma_origin_step_fits(loz as int, hiz as int, step_size as int, nzl as int, nzl - 1);
            lemma_build_result_wf(grid, total as int);
        }
        Ok(grid)
    }
}

/// Ceiling division characterized: the cell count is the least positive `n`
/// with `n * step >= extent`. This is the defining property of
/// `axis_cell_count` beyond its closed form.
pub proof fn lemma_axis_cell_count_is_ceil(extent: int, step: int)
    requires
        step >= 1,
        extent >= 0,
    ensures
        axis_cell_count(extent, step) >= 1,
        axis_cell_count(extent, step) * step >= extent,
        extent >= 1 ==> (axis_cell_count(extent, step) - 1) * step < extent,
{
    if extent >= 1 {
        let q = (extent - 1) / step;
        lemma_fundamental_div_mod(extent - 1, step);
        assert(q * step <= extent - 1) by (nonlinear_arith)
            requires
                extent - 1 == step * q + (extent - 1) % step,
                0 <= (extent - 1) % step,
        ;
        assert((q + 1) * step >= extent) by (nonlinear_arith)
            requires
                extent - 1 == step * q + (extent - 1) % step,
                (extent - 1) % step < step,
        ;
    }
}

/// For non-negative factors each at least 1, the triple product bounds each
/// factor and each pairwise product.
proof fn lemma_product_ge_factor(a: int, b: int, c: int)
    requires
        a >= 1,
        b >= 1,
        c >= 1,
    ensures
        a * b * c >= a,
        a * b * c >= b,
        a * b * c >= c,
        a * b * c >= a * b,
{
    assert(a * b * c >= a && a * b * c >= b && a * b * c >= c && a * b * c >= a * b)
        by (nonlinear_arith)
        requires
            a >= 1,
            b >= 1,
            c >= 1,
    ;
}

/// `a <= m / b` exactly when `a * b <= m`, for a positive divisor.
proof fn lemma_le_div_iff_mul_le(a: int, b: int, m: int)
    requires
        a >= 0,
        b >= 1,
        m >= 0,
    ensures
        a <= m / b <==> a * b <= m,
{
    lemma_fundamental_div_mod(m, b);
    assert(a <= m / b <==> a * b <= m) by (nonlinear_arith)
        requires
            a >= 0,
            b >= 1,
            m == b * (m / b) + m % b,
            0 <= m % b < b,
    ;
}

/// Every in-range coordinate flattens into the dense array's bounds.
pub proof fn lemma_flat_bounds(nx: int, ny: int, nz: int, x: int, y: int, z: int)
    requires
        nx >= 1,
        ny >= 1,
        nz >= 1,
        0 <= x < nx,
        0 <= y < ny,
        0 <= z < nz,
    ensures
        0 <= flat_idx(nx, ny, x, y, z) < nx * ny * nz,
{
    assert(0 <= x + y * nx + z * nx * ny < nx * ny * nz) by (nonlinear_arith)
        requires
            nx >= 1,
            ny >= 1,
            nz >= 1,
            0 <= x < nx,
            0 <= y < ny,
            0 <= z < nz,
    ;
}

/// Flattening is injective on in-range coordinates: distinct coordinates
/// occupy distinct array slots.
pub proof fn lemma_flat_injective(
    nx: int,
    ny: int,
    x1: int,
    y1: int,
    z1: int,
    x2: int,
    y2: int,
    z2: int,
)
    requires
        nx >= 1,
        ny >= 1,
        0 <= x1 < nx,
        0 <= y1 < ny,
        0 <= z1,
        0 <= x2 < nx,
        0 <= y2 < ny,
        0 <= z2,
        flat_idx(nx, ny, x1, y1, z1) == flat_idx(nx, ny, x2, y2, z2),
    ensures
        x1 == x2,
        y1 == y2,
        z1 == z2,
{
    let f = flat_idx(nx, ny, x1, y1, z1);
    assert(f == (y1 + ny * z1) * nx + x1 && f == (y2 + ny * z2) * nx + x2) by (nonlinear_arith)
        requires
            f == flat_idx(nx, ny, x1, y1, z1),
            f == flat_idx(nx, ny, x2, y2, z2),
    ;
    assert(y1 + ny * z1 >= 0) by (nonlinear_arith)
        requires
            y1 >= 0,
            ny >= 1,
            z1 >= 0,
    ;
    assert(y2 + ny * z2 >= 0) by (nonlinear_arith)
        requires
            y2 >= 0,
            ny >= 1,
            z2 >= 0,
    ;
    lemma_fundamental_div_mod_converse(f, nx, y1 + ny * z1, x1);
    lemma_fundamental_div_mod_converse(f, nx, y2 + ny * z2, x2);
    let g = y1 + ny * z1;
    assert(g == z1 * ny + y1) by (nonlinear_arith)
        requires
            g == y1 + ny * z1,
    ;
    assert(g == y2 + ny * z2);
    assert(g == z2 * ny + y2) by (nonlinear_arith)
        requires
            g == y2 + ny * z2,
    ;
    lemma_fundamental_div_mod_converse(g, ny, z1, y1);
    lemma_fundamental_div_mod_converse(g, ny, z2, y2);
}

/// A lattice offset `i * step` never leaves the normalized extent, so cell
/// origins stay within `[lo, hi]`.
proof fn lemma_origin_step_fits(lo: int, hi: int, step: int, n: int, i: int)
    requires
        step >= 1,
        lo <= hi,
        n == axis_cell_count(hi - lo, step),
        0 <= i < n,
    ensures
        0 <= i * step,
        lo + i * step <= hi,
{
    assert(0 <= i * step) by (nonlinear_arith)
        requires
            i >= 0,
            step >= 1,
    ;
    if hi - lo > 0 {
        let q = (hi - lo - 1) / step;
        lemma_fundamental_div_mod(hi - lo - 1, step);
        assert(q * step <= hi - lo - 1) by (nonlinear_arith)
            requires
                hi - lo - 1 == step * q + (hi - lo - 1) % step,
                0 <= (hi - lo - 1) % step,
        ;
        assert(n == q + 1);
        lemma_mul_inequality(i, q, step);
        assert(i * step <= q * step);
    } else {
        assert(i == 0);
        assert(i * step == 0) by (nonlinear_arith)
            requires
                i == 0,
        ;
    }
}

/// Well-formedness only watches the grid's shape: it survives any update that
/// keeps every cell's coordinate and origin (classification flips flags,
/// linking grows neighbour lists).
pub proof fn lemma_wf_preserved(g1: SpatialGrid, g2: SpatialGrid)
    requires
        g1.wf(),
        g2.top_left_back == g1.top_left_back,
        g2.step_size == g1.step_size,
        g2.cell_dimensions == g1.cell_dimensions,
        g2.cells@.len() == g1.cells@.len(),
        forall|f: int|
            0 <= f < g1.cells@.len() ==> (#[trigger] g2.cells@[f]).indices == g1.cells@[f].indices
                && g2.cells@[f].point_origin == g1.cells@[f].point_origin,
    ensures
        g2.wf(),
{
    assert forall|x: int, y: int, z: int| g2.in_range(x, y, z) implies #[trigger] g2.coords_placed(
        x,
        y,
        z,
    ) by {
        assert(g1.coords_placed(x, y, z));
    }
    assert forall|f: int| 0 <= f < g2.cells@.len() implies #[trigger] g2.index_consistent(f) by {
        assert(g1.index_consistent(f));
    }
}

/// Packaging the build loop's facts into the grid's well-formedness.
proof fn lemma_build_result_wf(g: SpatialGrid, total: int)
    requires
        g.step_size >= 1,
        g.dim_x() >= 1,
        g.dim_y() >= 1,
        g.dim_z() >= 1,
        total == g.total_cells(),
        g.cells@.len() == total,
        g.top_left_back.x + (g.dim_x() - 1) * g.step_size + g.step_size / 2 <= i64::MAX,
        g.top_left_back.y + (g.dim_y() - 1) * g.step_size + g.step_size / 2 <= i64::MAX,
        g.top_left_back.z + (g.dim_z() - 1) * g.step_size + g.step_size / 2 <= i64::MAX,
        forall|xx: int, yy: int, zz: int|
            g.in_range(xx, yy, zz) && flat_idx(g.dim_x(), g.dim_y(), xx, yy, zz) < g.cells@.len()
                ==> fresh_cell_value(
                g.top_left_back,
                g.step_size as int,
                xx,
                yy,
                zz,
                #[trigger] g.cells@[flat_idx(g.dim_x(), g.dim_y(), xx, yy, zz)],
            ),
    ensures
        g.wf(),
        g.fresh(),
{
    assert forall|x: int, y: int, z: int| g.in_range(x, y, z) implies #[trigger] g.coords_placed(
        x,
        y,
        z,
    ) by {
        lemma_flat_bounds(g.dim_x(), g.dim_y(), g.dim_z(), x, y, z);
    }
    assert forall|f: int| 0 <= f < g.cells@.len() implies #[trigger] g.index_consistent(f) by {
        lemma_flat_surjective(g, f);
    }
    assert forall|f: int|
        0 <= f < g.cells@.len() implies (#[trigger] g.cells@[f]).is_traversable
        && !g.cells@[f].is_occluded && g.cells@[f].neighbours@ == Seq::<usize>::empty() by {
        lemma_flat_surjective(g, f);
        let c = g.cells@[f].indices;
        assert(fresh_cell_value(
            g.top_left_back,
            g.step_size as int,
            c.x as int,
            c.y as int,
            c.z as int,
            g.cells@[flat_idx(g.dim_x(), g.dim_y(), c.x as int, c.y as int, c.z as int)],
        ));
    }
}

/// Every dense index is the flattening of some in-range coordinate; under the
/// build loop's placement facts, that coordinate is the one the cell carries.
proof fn lemma_flat_surjective(g: SpatialGrid, f: int)
    requires
        g.dim_x() >= 1,
        g.dim_y() >= 1,
        g.dim_z() >= 1,
        g.cells@.len() == g.total_cells(),
        0 <= f < g.cells@.len(),
        forall|xx: int, yy: int, zz: int|
            g.in_range(xx, yy, zz) && flat_idx(g.dim_x(), g.dim_y(), xx, yy, zz) < g.cells@.len()
                ==> fresh_cell_value(
                g.top_left_back,
                g.step_size as int,
                xx,
                yy,
                zz,
                #[trigger] g.cells@[flat_idx(g.dim_x(), g.dim_y(), xx, yy, zz)],
            ),
    ensures
        g.index_consistent(f),
{
    let nx = g.dim_x();
    let ny = g.dim_y();
    let nz = g.dim_z();
    let x = f % nx;
    let yz = f / nx;
    let y = yz % ny;
    let z = yz / ny;
    vstd::arithmetic::div_mod::lemma_mod_bound(f, nx);
    vstd::arithmetic::div_mod::lemma_fundamental_div_mod(f, nx);
    vstd::arithmetic::div_mod::lemma_mod_bound(yz, ny);
    vstd::arithmetic::div_mod::lemma_fundamental_div_mod(yz, ny);
    assert(yz >= 0) by (nonlinear_arith)
        requires
            f == nx * yz + f % nx,
            0 <= f % nx < nx,
            nx >= 1,
            f >= 0,
    ;
    assert(z >= 0) by (nonlinear_arith)
        requires
            yz == ny * z + yz % ny,
            0 <= yz % ny < ny,
            ny >= 1,
            yz >= 0,
    ;
    assert(f == flat_idx(nx, ny, x, y, z)) by (nonlinear_arith)
        requires
            f == nx * yz + x,
            yz == ny * z + y,
    ;
    assert(z < nz) by (nonlinear_arith)
        requires
            f == flat_idx(nx, ny, x, y, z),
            f < nx * ny * nz,
            0 <= x < nx,
            0 <= y < ny,
            z >= 0,
            nx >= 1,
            ny >= 1,
    ;
    assert(g.in_range(x, y, z));
    assert(fresh_cell_value(
        g.top_left_back,
        g.step_size as int,
        x,
        y,
        z,
        g.cells@[flat_idx(nx, ny, x, y, z)],
    ));
}

} // verus!
