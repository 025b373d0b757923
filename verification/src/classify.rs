//! Occlusion classification: marking cells occluded or traversable from the
//! results of an injected collision query.
//!
//! The collision service itself lives in the host: the grid hands out one
//! sampling centre per cell, the host runs exactly one box-intersection query
//! per centre against its collision mask, and the outcomes come back here as
//! plain data. A query that failed or timed out is an outcome of its own and
//! is treated as an intersection — the bias is toward blocking, never toward
//! allowing an unsafe path.
use vstd::arithmetic::mul::lemma_mul_inequality;
use vstd::prelude::*;

use crate::grid::lemma_wf_preserved;
use crate::grid::SpatialGrid;
use crate::point::Point3;

verus! {

/// The outcome of one collision query over a cell's sampling volume.
#[derive(Clone, Copy, PartialEq, Eq, Structural, Debug)]
pub enum QueryOutcome {
    /// The query completed and found no matching geometry.
    Clear,
    /// The query completed and reported an intersection.
    Blocked,
    /// The query could not complete; the cell is conservatively treated as
    /// occluded (fail safe).
    Failed,
}

impl QueryOutcome {
    /// Whether this outcome removes the cell from the traversable set.
    pub open spec fn blocks(self) -> bool {
        self != QueryOutcome::Clear
    }
}

impl SpatialGrid {
    /// The point a cell is sampled at: its origin plus half a step on each
    /// axis, the centre of the cell's volume.
    pub open spec fn centre_of(self, f: int, p: Point3) -> bool {
        &&& p.x == self.cells@[f].point_origin.x + self.step_size / 2
        &&& p.y == self.cells@[f].point_origin.y + self.step_size / 2
        &&& p.z == self.cells@[f].point_origin.z + self.step_size / 2
    }

    /// The centre of one cell's sampling volume, for the host to test against
    /// collision geometry.
    pub fn sample_centre(&self, f: usize) -> (p: Point3)
        requires
            self.wf(),
            f < self.cells@.len(),
        ensures
            self.centre_of(f as int, p),
    {
        proof {
            self.lemma_origin_in_box(f as int);
        }
        let half = self.step_size / 2;
        let o = self.cells[f].point_origin;
        Point3 { x: o.x + half, y: o.y + half, z: o.z + half }
    }

    /// A cell's origin never exceeds the top corner of the lattice, so the
    /// half-step centre offset stays representable.
    pub proof fn lemma_origin_in_box(self, f: int)
        requires
            self.wf(),
            0 <= f < self.cells@.len(),
        ensures
            self.cells@[f].point_origin.x + self.step_size / 2 <= i64::MAX,
            self.cells@[f].point_origin.y + self.step_size / 2 <= i64::MAX,
            self.cells@[f].point_origin.z + self.step_size / 2 <= i64::MAX,
            self.cells@[f].point_origin.x >= self.top_left_back.x,
            self.cells@[f].point_origin.y >= self.top_left_back.y,
            self.cells@[f].point_origin.z >= self.top_left_back.z,
    {
        assert(self.index_consistent(f));
        let c = self.cells@[f].indices;
        assert(self.coords_placed(c.x as int, c.y as int, c.z as int));
        lemma_mul_inequality(c.x as int, self.dim_x() - 1, self.step_size as int);
        lemma_mul_inequality(c.y as int, self.dim_y() - 1, self.step_size as int);
        lemma_mul_inequality(c.z as int, self.dim_z() - 1, self.step_size as int);
        assert(0 <= c.x as int * self.step_size) by (nonlinear_arith)
            requires
                c.x as int >= 0,
                self.step_size >= 1,
        ;
        assert(0 <= c.y as int * self.step_size) by (nonlinear_arith)
            requires
                c.y as int >= 0,
                self.step_size >= 1,
        ;
        assert(0 <= c.z as int * self.step_size) by (nonlinear_arith)
            requires
                c.z as int >= 0,
                self.step_size >= 1,
        ;
    }

    /// All sampling centres at once, in flattened cell order: the work list
    /// for the host's collision pass, one query per cell.
    pub fn sample_centres(&self) -> (r: Vec<Point3>)
        requires
            self.wf(),
        ensures
            r@.len() == self.cells@.len(),
            forall|f: int| 0 <= f < r@.len() ==> self.centre_of(f, #[trigger] r@[f]),
    {
        let n = self.cells.len();
        let mut r: Vec<Point3> = Vec::new();
        let mut f: usize = 0;
        while f < n
            invariant
                f <= n,
                n == self.cells@.len(),
                self.wf(),
                r@.len() == f,
                forall|k: int| 0 <= k < f ==> self.centre_of(k, #[trigger] r@[k]),
            decreases n - f,
        {
            r.push(self.sample_centre(f));
            f = f + 1;
        }
        r
    }

    /// Applies one collision outcome per cell, in place: a blocking outcome
    /// sets `is_occluded` and clears `is_traversable`; a clear outcome leaves
    /// the cell exactly as it was. Nothing else about any cell changes, and
    /// the classification of each cell depends on its outcome alone.
    pub fn classify(&mut self, outcomes: &Vec<QueryOutcome>)
        requires
            old(self).wf(),
            outcomes@.len() == old(self).cells@.len(),
        ensures
            final(self).wf(),
            final(self).top_left_back == old(self).top_left_back,
            final(self).step_size == old(self).step_size,
            final(self).cell_dimensions == old(self).cell_dimensions,
            final(self).cells@.len() == old(self).cells@.len(),
            forall|f: int|
                0 <= f < old(self).cells@.len() ==> {
                    &&& (#[trigger] final(self).cells@[f]).is_occluded == (old(
                        self,
                    ).cells@[f].is_occluded || outcomes@[f].blocks())
                    &&& final(self).cells@[f].is_traversable == (old(
                        self,
                    ).cells@[f].is_traversable && !outcomes@[f].blocks())
                    &&& final(self).cells@[f].indices == old(self).cells@[f].indices
                    &&& final(self).cells@[f].point_origin == old(self).cells@[f].point_origin
                    &&& final(self).cells@[f].neighbours@ == old(self).cells@[f].neighbours@
                },
    {
        let n = self.cells.len();
        let mut f: usize = 0;
        while f < n
            invariant
                f <= n,
                n == self.cells@.len(),
                outcomes@.len() == n,
                self.cells@.len() == old(self).cells@.len(),
                self.top_left_back == old(self).top_left_back,
                self.step_size == old(self).step_size,
                self.cell_dimensions == old(self).cell_dimensions,
                forall|k: int|
                    0 <= k < f ==> {
                        &&& (#[trigger] self.cells@[k]).is_occluded == (old(
                            self,
                        ).cells@[k].is_occluded || outcomes@[k].blocks())
                        &&& self.cells@[k].is_traversable == (old(self).cells@[k].is_traversable
                            && !outcomes@[k].blocks())
                        &&& self.cells@[k].indices == old(self).cells@[k].indices
                        &&& self.cells@[k].point_origin == old(self).cells@[k].point_origin
                        &&& self.cells@[k].neighbours@ == old(self).cells@[k].neighbours@
                    },
                forall|k: int| f <= k < n ==> #[trigger] self.cells@[k] == old(self).cells@[k],
            decreases n - f,
        {
            let blocked = match outcomes[f] {
                QueryOutcome::Clear => false,
                QueryOutcome::Blocked => true,
                QueryOutcome::Failed => true,
            };
            if blocked {
                self.cells[f].set_as_occluded();
                self.cells[f].set_not_traversable();
            }
            f = f + 1;
        }
        proof {
            lemma_wf_preserved(*old(self), *self);
        }
    }
}

} // verus!
