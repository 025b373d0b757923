//! Connectivity: linking traversable, unoccluded cells into a 6-connected
//! graph, optionally pruned by line-of-sight between cell centres.
//!
//! The line-of-sight service lives in the host, like the collision service:
//! `los_candidates` hands out one slot per unordered lattice-adjacent pair of
//! open cells, the host runs at most one visibility query per pair, and the
//! answers come back as a dense slot vector (`true` means unobstructed; a
//! failed query is reported `false` — not visible, fail safe).
use vstd::prelude::*;

use crate::grid::lemma_flat_bounds;
use crate::grid::lemma_flat_injective;
use crate::grid::lemma_wf_preserved;
use crate::grid::SpatialGrid;

verus! {

/// Unit offset of direction `d` along x: directions 0..6 are +x, -x, +y, -y, +z, -z.
pub open spec fn dir_dx(d: int) -> int {
    if d == 0 {
        1
    } else if d == 1 {
        -1
    } else {
        0
    }
}

/// Unit offset of direction `d` along y.
pub open spec fn dir_dy(d: int) -> int {
    if d == 2 {
        1
    } else if d == 3 {
        -1
    } else {
        0
    }
}

/// Unit offset of direction `d` along z.
pub open spec fn dir_dz(d: int) -> int {
    if d == 4 {
        1
    } else if d == 5 {
        -1
    } else {
        0
    }
}

/// The axis (0, 1 or 2) a direction moves along.
pub open spec fn dir_axis(d: int) -> int {
    d / 2
}

/// Whether a direction moves toward larger coordinates.
pub open spec fn dir_positive(d: int) -> bool {
    d % 2 == 0
}

/// The direction leading back: +x pairs with -x, and so on.
pub open spec fn opposite_dir(d: int) -> int {
    if dir_positive(d) {
        d + 1
    } else {
        d - 1
    }
}

/// Whether cell `f` has a lattice neighbour in direction `d`.
pub open spec fn dir_ok(g: SpatialGrid, f: int, d: int) -> bool {
    let c = g.cells@[f].indices;
    g.in_range(c.x as int + dir_dx(d), c.y as int + dir_dy(d), c.z as int + dir_dz(d))
}

/// The flattened index of cell `f`'s lattice neighbour in direction `d`.
pub open spec fn dir_nbr(g: SpatialGrid, f: int, d: int) -> int {
    let c = g.cells@[f].indices;
    g.flat(c.x as int + dir_dx(d), c.y as int + dir_dy(d), c.z as int + dir_dz(d))
}

/// The cell on the negative side of the edge between `f` and its
/// `d`-neighbour; the pair's line-of-sight slot is keyed by it.
pub open spec fn edge_low(g: SpatialGrid, f: int, d: int) -> int {
    if dir_positive(d) {
        f
    } else {
        dir_nbr(g, f, d)
    }
}

/// The slot in the dense line-of-sight vector for the unordered pair between
/// `f` and its `d`-neighbour: three slots per cell, one per positive axis.
pub open spec fn los_slot(g: SpatialGrid, f: int, d: int) -> int {
    3 * edge_low(g, f, d) + dir_axis(d)
}

/// When the edge from `f` toward direction `d` belongs in the graph: the
/// neighbour exists, both cells are traversable and unoccluded, and — when
/// line-of-sight checking is on — the pair's visibility slot is clear.
pub open spec fn edge_ok(g: SpatialGrid, los: Seq<bool>, check: bool, f: int, d: int) -> bool {
    &&& dir_ok(g, f, d)
    &&& g.cells@[f].open_cell()
    &&& g.cells@[dir_nbr(g, f, d)].open_cell()
    &&& (check ==> los[los_slot(g, f, d)])
}

/// What one linking step appends for direction `d`: the neighbour's index,
/// unless the edge is not allowed or the link is already present.
pub open spec fn link_step(g: SpatialGrid, los: Seq<bool>, check: bool, f: int, d: int) -> Seq<
    usize,
> {
    if edge_ok(g, los, check, f, d) && !g.cells@[f].neighbours@.contains(
        dir_nbr(g, f, d) as usize,
    ) {
        seq![dir_nbr(g, f, d) as usize]
    } else {
        Seq::empty()
    }
}

/// The links appended to cell `f` by the first `d` directions.
pub open spec fn added_upto(g: SpatialGrid, los: Seq<bool>, check: bool, f: int, d: int) -> Seq<
    usize,
>
    decreases d,
{
    if d <= 0 {
        Seq::empty()
    } else {
        added_upto(g, los, check, f, d - 1) + link_step(g, los, check, f, d - 1)
    }
}

/// Everything one `link` run appends to cell `f`.
pub open spec fn added_links(g: SpatialGrid, los: Seq<bool>, check: bool, f: int) -> Seq<usize> {
    added_upto(g, los, check, f, 6)
}

/// The canonical neighbour list of cell `f`: the allowed edges in direction
/// order, as linking produces them from an unlinked grid.
pub open spec fn canon_step(g: SpatialGrid, los: Seq<bool>, check: bool, f: int, d: int) -> Seq<
    usize,
> {
    if edge_ok(g, los, check, f, d) {
        seq![dir_nbr(g, f, d) as usize]
    } else {
        Seq::empty()
    }
}

/// The first `d` directions of the canonical neighbour list.
pub open spec fn canon_upto(g: SpatialGrid, los: Seq<bool>, check: bool, f: int, d: int) -> Seq<
    usize,
>
    decreases d,
{
    if d <= 0 {
        Seq::empty()
    } else {
        canon_upto(g, los, check, f, d - 1) + canon_step(g, los, check, f, d - 1)
    }
}

/// The canonical neighbour list of cell `f`.
pub open spec fn canon_links(g: SpatialGrid, los: Seq<bool>, check: bool, f: int) -> Seq<usize> {
    canon_upto(g, los, check, f, 6)
}

/// Cell `a` lists cell `b` as a neighbour.
pub open spec fn linked(g: SpatialGrid, a: int, b: int) -> bool {
    g.cells@[a].neighbours@.contains(b as usize)
}

/// The state the connectivity step leaves behind when it starts from a grid
/// whose cells are unlinked: every neighbour list is canonical for the given
/// line-of-sight data. Symmetry, irreflexivity and idempotence hold here.
pub open spec fn fully_linked(g: SpatialGrid, los: Seq<bool>, check: bool) -> bool {
    &&& g.wf()
    &&& forall|f: int|
        0 <= f < g.cells@.len() ==> (#[trigger] g.cells@[f]).neighbours@ == canon_links(
            g,
            los,
            check,
            f,
        )
}

impl SpatialGrid {
    /// The lattice neighbour of cell `f` in direction `d`, when there is one.
    fn dir_candidate(&self, f: usize, d: usize) -> (r: Option<usize>)
        requires
            self.wf(),
            f < self.cells@.len(),
            d < 6,
        ensures
            r is Some <==> dir_ok(*self, f as int, d as int),
            r matches Some(nb) ==> nb as int == dir_nbr(*self, f as int, d as int) && nb
                < self.cells@.len(),
    {
        proof {
            assert(self.index_consistent(f as int));
        }
        let n = self.cells.len();
        let c = self.cells[f].indices;
        let nx = self.cell_dimensions.x;
        let ny = self.cell_dimensions.y;
        let nz = self.cell_dimensions.z;
        proof {
            lemma_flat_bounds(nx as int, ny as int, nz as int, c.x as int, c.y as int, c.z as int);
        }
        match d {
            0 => {
                if c.x + 1 < nx {
                    proof {
                        lemma_nbr_flat(*self, f as int, 0);
                    }
                    Some(f + 1)
                } else {
                    None
                }
            },
            1 => {
                if c.x >= 1 {
                    proof {
                        lemma_nbr_flat(*self, f as int, 1);
                    }
                    Some(f - 1)
                } else {
                    None
                }
            },
            2 => {
                if c.y + 1 < ny {
                    proof {
                        lemma_nbr_flat(*self, f as int, 2);
                    }
                    Some(f + nx)
                } else {
                    None
                }
            },
            3 => {
                if c.y >= 1 {
                    proof {
                        lemma_nbr_flat(*self, f as int, 3);
                    }
                    Some(f - nx)
                } else {
                    None
                }
            },
            4 => {
                if c.z + 1 < nz {
                    proof {
                        lemma_nbr_flat(*self, f as int, 4);
                        lemma_layer_fits(nx as int, ny as int, nz as int);
                    }
                    Some(f + nx * ny)
                } else {
                    None
                }
            },
            5 => {
                if c.z >= 1 {
                    proof {
                        lemma_nbr_flat(*self, f as int, 5);
                        lemma_layer_fits(nx as int, ny as int, nz as int);
                    }
                    Some(f - nx * ny)
                } else {
                    None
                }
            },
            _ => None,
        }
    }
}

/// Two grids agree on everything connectivity reads: dimensions, coordinates
/// and traversability flags (neighbour lists are free to differ).
pub open spec fn same_shape_flags(ga: SpatialGrid, gb: SpatialGrid) -> bool {
    &&& gb.top_left_back == ga.top_left_back
    &&& gb.step_size == ga.step_size
    &&& gb.cell_dimensions == ga.cell_dimensions
    &&& gb.cells@.len() == ga.cells@.len()
    &&& forall|f: int|
        0 <= f < ga.cells@.len() ==> {
            &&& (#[trigger] gb.cells@[f]).indices == ga.cells@[f].indices
            &&& gb.cells@[f].point_origin == ga.cells@[f].point_origin
            &&& gb.cells@[f].is_traversable == ga.cells@[f].is_traversable
            &&& gb.cells@[f].is_occluded == ga.cells@[f].is_occluded
        }
}

impl SpatialGrid {
    /// Links every allowed lattice edge, in place: for each cell in flattened
    /// order and each of its six face-adjacent directions in fixed order, the
    /// neighbour is appended when both cells are traversable and unoccluded,
    /// the pair's line-of-sight slot is clear (when checking is on), and the
    /// link is not already present. Nothing else about any cell changes, so
    /// running the pass on an unlinked grid yields the canonical neighbour
    /// lists, and running it again adds nothing.
    #[verifier::loop_isolation(false)]
    #[verifier::rlimit(100)]
    pub fn link(&mut self, check_line_of_sight: bool, los_clear: &Vec<bool>)
        requires
            old(self).wf(),
            check_line_of_sight ==> los_clear@.len() == 3 * old(self).cells@.len(),
        ensures
            final(self).wf(),
            same_shape_flags(*old(self), *final(self)),
            forall|f: int|
                0 <= f < old(self).cells@.len() ==> (#[trigger] final(self).cells@[f]).neighbours@
                    == old(self).cells@[f].neighbours@ + added_links(
                    *old(self),
                    los_clear@,
                    check_line_of_sight,
                    f,
                ),
    {
        let n = self.cells.len();
        let mut f: usize = 0;
        while f < n
            invariant
                f <= n,
                n == self.cells@.len(),
                self.wf(),
                same_shape_flags(*old(self), *self),
                forall|k: int|
                    0 <= k < f ==> (#[trigger] self.cells@[k]).neighbours@ == old(
                        self,
                    ).cells@[k].neighbours@ + added_links(
                        *old(self),
                        los_clear@,
                        check_line_of_sight,
                        k,
                    ),
                forall|k: int|
                    f <= k < n ==> (#[trigger] self.cells@[k]).neighbours@ == old(
                        self,
                    ).cells@[k].neighbours@,
            decreases n - f,
        {
            let mut d: usize = 0;
            while d < 6
                invariant
                    d <= 6,
                    f < n,
                    n == self.cells@.len(),
                    self.wf(),
                    same_shape_flags(*old(self), *self),
                    forall|k: int|
                        0 <= k < f ==> (#[trigger] self.cells@[k]).neighbours@ == old(
                            self,
                        ).cells@[k].neighbours@ + added_links(
                            *old(self),
                            los_clear@,
                            check_line_of_sight,
                            k,
                        ),
                    forall|k: int|
                        f < k < n ==> (#[trigger] self.cells@[k]).neighbours@ == old(
                            self,
                        ).cells@[k].neighbours@,
                    self.cells@[f as int].neighbours@ == old(self).cells@[f as int].neighbours@
                        + added_upto(
                        *old(self),
                        los_clear@,
                        check_line_of_sight,
                        f as int,
                        d as int,
                    ),
                decreases 6 - d,
            {
                let ghost g0 = *old(self);
                let ghost losv = los_clear@;
                let ghost prev = self.cells@[f as int].neighbours@;
                proof {
                    lemma_edge_ok_shape(
                        g0,
                        *self,
                        losv,
                        check_line_of_sight,
                        f as int,
                        d as int,
                    );
                }
                let cand = self.dir_candidate(f, d);
                match cand {
                    None => {
                        proof {
                            assert(link_step(g0, losv, check_line_of_sight, f as int, d as int)
                                =~= Seq::<usize>::empty());
                            assert(prev + Seq::<usize>::empty() =~= prev);
                        }
                    },
                    Some(nb) => {
                        let this_open = self.cells[f].is_traversable
                            && !self.cells[f].is_occluded;
                        let nbr_open = self.cells[nb].is_traversable
                            && !self.cells[nb].is_occluded;
                        let mut allowed = this_open && nbr_open;
                        if allowed && check_line_of_sight {
                            proof {
                                lemma_nbr_flat(*self, f as int, d as int);
                            }
                            let ln = los_clear.len();
                            let low = if d % 2 == 0 {
                                f
                            } else {
                                nb
                            };
                            let slot = 3 * low + d / 2;
                            allowed = los_clear[slot];
                        }
                        proof {
                            assert(allowed == edge_ok(
                                g0,
                                losv,
                                check_line_of_sight,
                                f as int,
                                d as int,
                            ));
                        }
                        if allowed {
                            let already = vec_has(&self.cells[f].neighbours, nb);
                            proof {
                                lemma_concat_contains(
                                    g0.cells@[f as int].neighbours@,
                                    added_upto(
                                        g0,
                                        losv,
                                        check_line_of_sight,
                                        f as int,
                                        d as int,
                                    ),
                                    nb,
                                );
                                if !g0.cells@[f as int].neighbours@.contains(nb) {
                                    lemma_added_upto_no_candidate(
                                        g0,
                                        losv,
                                        check_line_of_sight,
                                        f as int,
                                        d as int,
                                    );
                                }
                            }
                            if !already {
                                self.cells[f].add_neighbour(nb);
                                proof {
                                    assert(prev.push(nb) =~= prev + seq![nb]);
                                    assert(prev + seq![nb] =~= g0.cells@[f as int].neighbours@
                                        + added_upto(
                                        g0,
                                        losv,
                                        check_line_of_sight,
                                        f as int,
                                        d as int + 1,
                                    ));
                                }
                            } else {
                                proof {
                                    assert(prev =~= g0.cells@[f as int].neighbours@ + added_upto(
                                        g0,
                                        losv,
                                        check_line_of_sight,
                                        f as int,
                                        d as int + 1,
                                    ));
                                }
                            }
                        } else {
                            proof {
                                assert(prev + Seq::<usize>::empty() =~= prev);
                            }
                        }
                    },
                }
                proof {
                    lemma_wf_preserved(g0, *self);
                }
                d = d + 1;
            }
            f = f + 1;
        }
    }
}

/// An unordered pair the host owes one line-of-sight query: `f` and its
/// neighbour in positive direction `d` are lattice-adjacent and both open.
pub open spec fn los_candidate(g: SpatialGrid, f: int, d: int) -> bool {
    &&& 0 <= d < 6
    &&& dir_positive(d)
    &&& dir_ok(g, f, d)
    &&& g.cells@[f].open_cell()
    &&& g.cells@[dir_nbr(g, f, d)].open_cell()
}

/// A work-list entry `(slot, low, high)`: the dense-vector slot for the pair
/// of adjacent open cells `low` and `high`.
pub open spec fn candidate_entry(g: SpatialGrid, t: (usize, usize, usize)) -> bool {
    &&& t.1 < g.cells@.len()
    &&& exists|d: int|
        #[trigger] los_candidate(g, t.1 as int, d) && t.2 as int == dir_nbr(g, t.1 as int, d)
            && t.0 as int == los_slot(g, t.1 as int, d)
}

impl SpatialGrid {
    /// The work list for the host's line-of-sight pass: one entry per
    /// unordered pair of adjacent open cells, giving the pair's slot in the
    /// dense answer vector and the two cells, lower first. Answering each
    /// entry with one visibility query between the cells' sampling centres
    /// queries each unordered pair at most once, and a `false` answer (or a
    /// failed query, reported as `false`) withholds the link.
    #[verifier::loop_isolation(false)]
    pub fn los_candidates(&self) -> (r: Vec<(usize, usize, usize)>)
        requires
            self.wf(),
            3 * self.cells@.len() <= usize::MAX,
        ensures
            forall|k: int| 0 <= k < r@.len() ==> candidate_entry(*self, #[trigger] r@[k]),
            forall|f: int, d: int|
                0 <= f < self.cells@.len() && #[trigger] los_candidate(*self, f, d)
                    ==> r@.contains(
                    (
                        los_slot(*self, f, d) as usize,
                        f as usize,
                        dir_nbr(*self, f, d) as usize,
                    ),
                ),
    {
        let n = self.cells.len();
        let mut r: Vec<(usize, usize, usize)> = Vec::new();
        let mut f: usize = 0;
        while f < n
            invariant
                f <= n,
                forall|k: int| 0 <= k < r@.len() ==> candidate_entry(*self, #[trigger] r@[k]),
                forall|ff: int, d: int|
                    0 <= ff < f && #[trigger] los_candidate(*self, ff, d) ==> r@.contains(
                        (
                            los_slot(*self, ff, d) as usize,
                            ff as usize,
                            dir_nbr(*self, ff, d) as usize,
                        ),
                    ),
            decreases n - f,
        {
            let mut d: usize = 0;
            while d < 6
                invariant
                    d <= 6,
                    f < n,
                    forall|k: int| 0 <= k < r@.len() ==> candidate_entry(*self, #[trigger] r@[k]),
                    forall|ff: int, dd: int|
                        0 <= ff < f && #[trigger] los_candidate(*self, ff, dd) ==> r@.contains(
                            (
                                los_slot(*self, ff, dd) as usize,
                                ff as usize,
                                dir_nbr(*self, ff, dd) as usize,
                            ),
                        ),
                    forall|dd: int|
                        0 <= dd < d && #[trigger] los_candidate(*self, f as int, dd)
                            ==> r@.contains(
                            (
                                los_slot(*self, f as int, dd) as usize,
                                f as usize,
                                dir_nbr(*self, f as int, dd) as usize,
                            ),
                        ),
                decreases 6 - d,
            {
                let ghost old_r = r@;
                if d % 2 == 0 {
                    match self.dir_candidate(f, d) {
                        Some(nb) => {
                            let pair_open = self.cells[f].is_traversable
                                && !self.cells[f].is_occluded && self.cells[nb].is_traversable
                                && !self.cells[nb].is_occluded;
                            if pair_open {
                                let slot = 3 * f + d / 2;
                                r.push((slot, f, nb));
                                proof {
                                    assert(r@[r@.len() - 1] == (slot, f, nb));
                                    assert(los_candidate(*self, f as int, d as int));
                                    assert((nb as int) == dir_nbr(*self, f as int, d as int));
                                    assert((slot as int) == 3 * (f as int) + (d as int) / 2);
                                    assert(edge_low(*self, f as int, d as int) == f as int);
                                    assert((slot as int) == los_slot(*self, f as int, d as int));
                                    assert(candidate_entry(*self, (slot, f, nb)));
                                }
                            }
                        },
                        None => {},
                    }
                }
                proof {
                    assert forall|k: int| 0 <= k < r@.len() implies candidate_entry(
                        *self,
                        #[trigger] r@[k],
                    ) by {
                        if k < old_r.len() {
                            assert(r@[k] == old_r[k]);
                        }
                    }
                    assert forall|t: (usize, usize, usize)| old_r.contains(t) implies r@.contains(
                        t,
                    ) by {
                        let i = choose|i: int| 0 <= i < old_r.len() && old_r[i] == t;
                        assert(r@[i] == t);
                    }
                }
                d = d + 1;
            }
            f = f + 1;
        }
        r
    }
}

/// Linear search of a neighbour list.
fn vec_has(v: &Vec<usize>, x: usize) -> (r: bool)
    ensures
        r == v@.contains(x),
{
    let n = v.len();
    let mut i: usize = 0;
    while i < n
        invariant
            i <= n,
            n == v@.len(),
            forall|k: int| 0 <= k < i ==> v@[k] != x,
        decreases n - i,
    {
        if v[i] == x {
            return true;
        }
        i = i + 1;
    }
    false
}

/// Membership in a concatenation is membership in either part.
proof fn lemma_concat_contains<A>(s1: Seq<A>, s2: Seq<A>, v: A)
    ensures
        (s1 + s2).contains(v) <==> s1.contains(v) || s2.contains(v),
{
    if (s1 + s2).contains(v) {
        let i = choose|i: int| 0 <= i < (s1 + s2).len() && (s1 + s2)[i] == v;
        if i < s1.len() {
            assert(s1[i] == v);
        } else {
            assert(s2[i - s1.len()] == v);
        }
    }
    if s1.contains(v) {
        let i = choose|i: int| 0 <= i < s1.len() && s1[i] == v;
        assert((s1 + s2)[i] == v);
    }
    if s2.contains(v) {
        let i = choose|i: int| 0 <= i < s2.len() && s2[i] == v;
        assert((s1 + s2)[s1.len() + i] == v);
    }
}

/// Distinct directions out of one cell reach distinct neighbours.
proof fn lemma_dir_nbrs_distinct(g: SpatialGrid, f: int, d1: int, d2: int)
    requires
        g.wf(),
        0 <= f < g.cells@.len(),
        0 <= d1 < 6,
        0 <= d2 < 6,
        d1 != d2,
        dir_ok(g, f, d1),
        dir_ok(g, f, d2),
    ensures
        dir_nbr(g, f, d1) != dir_nbr(g, f, d2),
{
    assert(g.index_consistent(f));
    let c = g.cells@[f].indices;
    if dir_nbr(g, f, d1) == dir_nbr(g, f, d2) {
        lemma_flat_injective(
            g.dim_x(),
            g.dim_y(),
            c.x as int + dir_dx(d1),
            c.y as int + dir_dy(d1),
            c.z as int + dir_dz(d1),
            c.x as int + dir_dx(d2),
            c.y as int + dir_dy(d2),
            c.z as int + dir_dz(d2),
        );
    }
}

/// What one link pass appends never includes the `d`-neighbour before the
/// `d`-th step handles it, so the duplicate check against the growing list
/// agrees with the check against the list the pass started from.
proof fn lemma_added_upto_no_candidate(
    g: SpatialGrid,
    los: Seq<bool>,
    check: bool,
    f: int,
    d: int,
)
    requires
        g.wf(),
        0 <= f < g.cells@.len(),
        0 <= d < 6,
        dir_ok(g, f, d),
    ensures
        !added_upto(g, los, check, f, d).contains(dir_nbr(g, f, d) as usize),
{
    lemma_added_below_no_candidate(g, los, check, f, d, d);
}

/// The first `e` linking steps never append the `d`-neighbour, for `e <= d`:
/// each earlier direction reaches a different cell.
proof fn lemma_added_below_no_candidate(
    g: SpatialGrid,
    los: Seq<bool>,
    check: bool,
    f: int,
    e: int,
    d: int,
)
    requires
        g.wf(),
        0 <= f < g.cells@.len(),
        0 <= e <= d < 6,
        dir_ok(g, f, d),
    ensures
        !added_upto(g, los, check, f, e).contains(dir_nbr(g, f, d) as usize),
    decreases e,
{
    if e > 0 {
        lemma_added_below_no_candidate(g, los, check, f, e - 1, d);
        if dir_ok(g, f, e - 1) {
            lemma_dir_nbrs_distinct(g, f, e - 1, d);
            lemma_nbr_flat(g, f, e - 1);
            lemma_nbr_flat(g, f, d);
            assert(g.cells.len() == g.cells@.len());
            assert(dir_nbr(g, f, e - 1) as usize != dir_nbr(g, f, d) as usize);
        }
        lemma_concat_contains(
            added_upto(g, los, check, f, e - 1),
            link_step(g, los, check, f, e - 1),
            dir_nbr(g, f, d) as usize,
        );
    }
}

/// Membership in a prefix of the canonical neighbour list is exactly having an
/// allowed edge in one of the covered directions.
proof fn lemma_canon_upto_contains(
    g: SpatialGrid,
    los: Seq<bool>,
    check: bool,
    f: int,
    e: int,
    v: usize,
)
    requires
        0 <= e <= 6,
    ensures
        canon_upto(g, los, check, f, e).contains(v) <==> exists|k: int|
            0 <= k < e && #[trigger] edge_ok(g, los, check, f, k) && dir_nbr(g, f, k) as usize
                == v,
    decreases e,
{
    if e > 0 {
        lemma_canon_upto_contains(g, los, check, f, e - 1, v);
        lemma_concat_contains(
            canon_upto(g, los, check, f, e - 1),
            canon_step(g, los, check, f, e - 1),
            v,
        );
        let s = canon_step(g, los, check, f, e - 1);
        if edge_ok(g, los, check, f, e - 1) {
            assert(s[0] == dir_nbr(g, f, e - 1) as usize);
            if dir_nbr(g, f, e - 1) as usize == v {
                assert(s.contains(v));
                assert(0 <= e - 1 < e && edge_ok(g, los, check, f, e - 1) && dir_nbr(
                    g,
                    f,
                    e - 1,
                ) as usize == v);
            }
        }
    }
}

/// An allowed edge seen from the far cell: the neighbour looks back along the
/// opposite direction, through the same line-of-sight slot.
proof fn lemma_edge_symmetric(g: SpatialGrid, los: Seq<bool>, check: bool, a: int, d: int)
    requires
        g.wf(),
        0 <= a < g.cells@.len(),
        0 <= d < 6,
        edge_ok(g, los, check, a, d),
    ensures
        0 <= dir_nbr(g, a, d) < g.cells@.len(),
        0 <= opposite_dir(d) < 6,
        edge_ok(g, los, check, dir_nbr(g, a, d), opposite_dir(d)),
        dir_nbr(g, dir_nbr(g, a, d), opposite_dir(d)) == a,
{
    lemma_nbr_flat(g, a, d);
    let b = dir_nbr(g, a, d);
    assert(g.index_consistent(a));
    let c = g.cells@[a].indices;
    let bx = c.x as int + dir_dx(d);
    let by = c.y as int + dir_dy(d);
    let bz = c.z as int + dir_dz(d);
    assert(g.coords_placed(bx, by, bz));
    let e = opposite_dir(d);
    assert(dir_dx(e) == -dir_dx(d) && dir_dy(e) == -dir_dy(d) && dir_dz(e) == -dir_dz(d));
    assert(dir_axis(e) == dir_axis(d));
    assert(dir_ok(g, b, e));
    assert(dir_nbr(g, b, e) == g.flat(c.x as int, c.y as int, c.z as int));
    assert(los_slot(g, b, e) == los_slot(g, a, d));
}

/// Neighbour symmetry: in a fully linked grid, cell `a` lists cell `b`
/// exactly when cell `b` lists cell `a`.
pub proof fn lemma_neighbours_symmetric(
    g: SpatialGrid,
    los: Seq<bool>,
    check: bool,
    a: int,
    b: int,
)
    requires
        fully_linked(g, los, check),
        0 <= a < g.cells@.len(),
        0 <= b < g.cells@.len(),
    ensures
        linked(g, a, b) <==> linked(g, b, a),
{
    if linked(g, a, b) {
        lemma_linked_one_way(g, los, check, a, b);
    }
    if linked(g, b, a) {
        lemma_linked_one_way(g, los, check, b, a);
    }
}

/// One direction of the symmetry argument.
proof fn lemma_linked_one_way(g: SpatialGrid, los: Seq<bool>, check: bool, a: int, b: int)
    requires
        fully_linked(g, los, check),
        0 <= a < g.cells@.len(),
        0 <= b < g.cells@.len(),
        linked(g, a, b),
    ensures
        linked(g, b, a),
{
    assert(g.cells.len() == g.cells@.len());
    lemma_canon_upto_contains(g, los, check, a, 6, b as usize);
    let d = choose|k: int|
        0 <= k < 6 && #[trigger] edge_ok(g, los, check, a, k) && dir_nbr(g, a, k) as usize
            == b as usize;
    lemma_nbr_flat(g, a, d);
    assert(dir_nbr(g, a, d) == b);
    lemma_edge_symmetric(g, los, check, a, d);
    lemma_canon_upto_contains(g, los, check, b, 6, a as usize);
    assert(edge_ok(g, los, check, b, opposite_dir(d)) && dir_nbr(g, b, opposite_dir(d)) as usize
        == a as usize);
}

/// No cell lists itself: every allowed edge moves one step along an axis.
pub proof fn lemma_no_self_link(g: SpatialGrid, los: Seq<bool>, check: bool, a: int)
    requires
        fully_linked(g, los, check),
        0 <= a < g.cells@.len(),
    ensures
        !linked(g, a, a),
{
    if linked(g, a, a) {
        assert(g.cells.len() == g.cells@.len());
        lemma_canon_upto_contains(g, los, check, a, 6, a as usize);
        let d = choose|k: int|
            0 <= k < 6 && #[trigger] edge_ok(g, los, check, a, k) && dir_nbr(g, a, k) as usize
                == a as usize;
        lemma_nbr_flat(g, a, d);
        assert(dir_nbr(g, a, d) == a);
        assert(g.index_consistent(a));
        let c = g.cells@[a].indices;
        lemma_flat_injective(
            g.dim_x(),
            g.dim_y(),
            c.x as int + dir_dx(d),
            c.y as int + dir_dy(d),
            c.z as int + dir_dz(d),
            c.x as int,
            c.y as int,
            c.z as int,
        );
        assert(false);
    }
}

/// On an unlinked grid, the duplicate check never fires: what the pass adds is
/// exactly the canonical list.
proof fn lemma_added_eq_canon_when_unlinked(
    g: SpatialGrid,
    los: Seq<bool>,
    check: bool,
    f: int,
    e: int,
)
    requires
        0 <= f < g.cells@.len(),
        g.cells@[f].neighbours@ == Seq::<usize>::empty(),
        0 <= e <= 6,
    ensures
        added_upto(g, los, check, f, e) == canon_upto(g, los, check, f, e),
    decreases e,
{
    if e > 0 {
        lemma_added_eq_canon_when_unlinked(g, los, check, f, e - 1);
    }
}

/// The canonical list only reads shape and flags, so it is the same in any
/// grid that agrees on them.
proof fn lemma_canon_same_shape(
    ga: SpatialGrid,
    gb: SpatialGrid,
    los: Seq<bool>,
    check: bool,
    f: int,
    e: int,
)
    requires
        ga.wf(),
        same_shape_flags(ga, gb),
        0 <= f < ga.cells@.len(),
        0 <= e <= 6,
    ensures
        canon_upto(ga, los, check, f, e) == canon_upto(gb, los, check, f, e),
    decreases e,
{
    if e > 0 {
        lemma_canon_same_shape(ga, gb, los, check, f, e - 1);
        lemma_edge_ok_shape(ga, gb, los, check, f, e - 1);
        if dir_ok(ga, f, e - 1) {
            lemma_nbr_flat(ga, f, e - 1);
        }
    }
}

/// Linking an unlinked, classified grid yields the canonical state all the
/// connectivity laws speak of.
pub proof fn lemma_link_from_unlinked(g0: SpatialGrid, g1: SpatialGrid, los: Seq<bool>, check: bool)
    requires
        g0.wf(),
        g1.wf(),
        same_shape_flags(g0, g1),
        forall|f: int|
            0 <= f < g0.cells@.len() ==> (#[trigger] g0.cells@[f]).neighbours@ == Seq::<
                usize,
            >::empty(),
        forall|f: int|
            0 <= f < g0.cells@.len() ==> (#[trigger] g1.cells@[f]).neighbours@ == g0.cells@[
                f
            ].neighbours@ + added_links(g0, los, check, f),
    ensures
        fully_linked(g1, los, check),
{
    assert forall|f: int| 0 <= f < g1.cells@.len() implies (#[trigger] g1.cells@[f]).neighbours@
        == canon_links(g1, los, check, f) by {
        lemma_added_eq_canon_when_unlinked(g0, los, check, f, 6);
        lemma_canon_same_shape(g0, g1, los, check, f, 6);
        assert(Seq::<usize>::empty() + added_links(g0, los, check, f) =~= added_links(
            g0,
            los,
            check,
            f,
        ));
    }
}

/// In a fully linked grid every allowed edge is already present, so a second
/// pass has nothing to add.
proof fn lemma_added_empty_when_fully_linked(
    g: SpatialGrid,
    los: Seq<bool>,
    check: bool,
    f: int,
    e: int,
)
    requires
        fully_linked(g, los, check),
        0 <= f < g.cells@.len(),
        0 <= e <= 6,
    ensures
        added_upto(g, los, check, f, e) == Seq::<usize>::empty(),
    decreases e,
{
    if e > 0 {
        lemma_added_empty_when_fully_linked(g, los, check, f, e - 1);
        if edge_ok(g, los, check, f, e - 1) {
            lemma_canon_upto_contains(g, los, check, f, 6, dir_nbr(g, f, e - 1) as usize);
            assert(edge_ok(g, los, check, f, e - 1) && dir_nbr(g, f, e - 1) as usize == dir_nbr(
                g,
                f,
                e - 1,
            ) as usize);
            assert(g.cells@[f].neighbours@.contains(dir_nbr(g, f, e - 1) as usize));
        }
        assert(added_upto(g, los, check, f, e) =~= Seq::<usize>::empty());
    }
}

/// Idempotence: rerunning the connectivity pass on an unchanged, fully linked
/// grid leaves every neighbour list identical — no duplicates, no drift.
pub proof fn lemma_link_idempotent(g1: SpatialGrid, g2: SpatialGrid, los: Seq<bool>, check: bool)
    requires
        fully_linked(g1, los, check),
        same_shape_flags(g1, g2),
        forall|f: int|
            0 <= f < g1.cells@.len() ==> (#[trigger] g2.cells@[f]).neighbours@ == g1.cells@[
                f
            ].neighbours@ + added_links(g1, los, check, f),
    ensures
        forall|f: int|
            0 <= f < g1.cells@.len() ==> (#[trigger] g2.cells@[f]).neighbours@ == g1.cells@[
                f
            ].neighbours@,
{
    assert forall|f: int| 0 <= f < g1.cells@.len() implies (#[trigger] g2.cells@[f]).neighbours@
        == g1.cells@[f].neighbours@ by {
        lemma_added_empty_when_fully_linked(g1, los, check, f, 6);
        assert(g1.cells@[f].neighbours@ + Seq::<usize>::empty() =~= g1.cells@[f].neighbours@);
    }
}

/// Connectivity only reads shape and flags, so two grids that agree on them
/// agree on every edge decision.
proof fn lemma_edge_ok_shape(
    ga: SpatialGrid,
    gb: SpatialGrid,
    los: Seq<bool>,
    check: bool,
    f: int,
    d: int,
)
    requires
        ga.wf(),
        same_shape_flags(ga, gb),
        0 <= f < ga.cells@.len(),
        0 <= d < 6,
    ensures
        dir_ok(ga, f, d) == dir_ok(gb, f, d),
        dir_ok(ga, f, d) ==> dir_nbr(ga, f, d) == dir_nbr(gb, f, d),
        edge_ok(ga, los, check, f, d) == edge_ok(gb, los, check, f, d),
{
    if dir_ok(ga, f, d) {
        lemma_nbr_flat(ga, f, d);
    }
}

/// One layer of cells never outnumbers the whole grid.
proof fn lemma_layer_fits(nx: int, ny: int, nz: int)
    requires
        nx >= 1,
        ny >= 1,
        nz >= 1,
    ensures
        nx * ny <= nx * ny * nz,
        nx <= nx * ny * nz,
{
    assert(nx * ny <= nx * ny * nz && nx <= nx * ny * nz) by (nonlinear_arith)
        requires
            nx >= 1,
            ny >= 1,
            nz >= 1,
    ;
}

/// An in-range lattice neighbour's flattened index is the cell's own plus or
/// minus the direction's stride, and stays inside the dense array.
proof fn lemma_nbr_flat(g: SpatialGrid, f: int, d: int)
    requires
        g.wf(),
        0 <= f < g.cells@.len(),
        0 <= d < 6,
        dir_ok(g, f, d),
    ensures
        0 <= dir_nbr(g, f, d) < g.cells@.len(),
        d == 0 ==> dir_nbr(g, f, d) == f + 1,
        d == 1 ==> dir_nbr(g, f, d) == f - 1,
        d == 2 ==> dir_nbr(g, f, d) == f + g.dim_x(),
        d == 3 ==> dir_nbr(g, f, d) == f - g.dim_x(),
        d == 4 ==> dir_nbr(g, f, d) == f + g.dim_x() * g.dim_y(),
        d == 5 ==> dir_nbr(g, f, d) == f - g.dim_x() * g.dim_y(),
    {
    assert(g.index_consistent(f));
    let c = g.cells@[f].indices;
    let nx = g.dim_x();
    let ny = g.dim_y();
    let cx = c.x as int;
    let cy = c.y as int;
    let cz = c.z as int;
    lemma_flat_bounds(nx, ny, g.dim_z(), cx + dir_dx(d), cy + dir_dy(d), cz + dir_dz(d));
    if d == 2 || d == 3 {
        assert((cy + 1) * nx == cy * nx + nx && (cy - 1) * nx == cy * nx - nx)
            by (nonlinear_arith);
    }
    if d == 4 || d == 5 {
        assert((cz + 1) * nx * ny == cz * nx * ny + nx * ny && (cz - 1) * nx * ny == cz * nx * ny
            - nx * ny) by (nonlinear_arith);
    }
}

} // verus!
