//! Best-first shortest-path search over the connectivity graph.
//!
//! The frontier is ordered by ascending score (path cost so far plus the
//! heuristic's estimate); ties go to the earliest-inserted entry, so results
//! are reproducible on symmetric grids. Costs are counted in lattice steps:
//! every 6-connected edge spans exactly one `step_size`, so step counts order
//! paths exactly as their Euclidean length does.
use vstd::prelude::*;

use crate::connect::linked;
use crate::grid::CellIndex;
use crate::grid::SpatialGrid;
use crate::NavError;

verus! {

/// An ephemeral frontier entry pairing a cell with its current score; created
/// and discarded within a single search call, never persisted across queries.
#[derive(Clone, Copy, PartialEq, Eq, Structural, Debug)]
pub struct SearchCell {
    /// Flattened index of the cell this entry scores.
    pub cell: usize,
    /// Total estimated cost: path cost so far plus heuristic to goal.
    pub score: u64,
}

impl SearchCell {
    pub fn new(cell: usize, score: u64) -> (s: SearchCell)
        ensures
            s == (SearchCell { cell, score }),
    {
        SearchCell { cell, score }
    }
}

/// The pluggable cost estimate handed to `find_path`. Both options are
/// non-negative lower bounds for unit-cost 6-connected movement, so paths
/// found with them are shortest; a caller adding an inadmissible estimate
/// would still get a valid path, only not necessarily an optimal one.
#[derive(Clone, Copy, PartialEq, Eq, Structural, Debug)]
pub enum Heuristic {
    /// No guidance: the search expands in uniform-cost order.
    Zero,
    /// Lattice (Manhattan) distance to the goal in steps.
    Manhattan,
}

/// Distance between two coordinates.
pub open spec fn abs_diff(a: int, b: int) -> int {
    if a >= b {
        a - b
    } else {
        b - a
    }
}

/// The estimate a heuristic assigns between two cell coordinates.
pub open spec fn heuristic_value(h: Heuristic, a: CellIndex, b: CellIndex) -> int {
    match h {
        Heuristic::Zero => 0,
        Heuristic::Manhattan => abs_diff(a.x as int, b.x as int) + abs_diff(a.y as int, b.y as int)
            + abs_diff(a.z as int, b.z as int),
    }
}

/// Addition that clamps at the top of the score range instead of wrapping;
/// a clamped score only affects expansion order, never path validity.
fn sat_add(a: u64, b: u64) -> (r: u64)
    ensures
        r as int == if a + b <= u64::MAX {
            a + b
        } else {
            u64::MAX as int
        },
{
    if a > u64::MAX - b {
        u64::MAX
    } else {
        a + b
    }
}

/// Evaluates a heuristic, clamped into the score range.
fn eval_heuristic(h: Heuristic, a: CellIndex, b: CellIndex) -> (r: u64)
    ensures
        r as int == if heuristic_value(h, a, b) <= u64::MAX {
            heuristic_value(h, a, b)
        } else {
            u64::MAX as int
        },
{
    match h {
        Heuristic::Zero => 0,
        Heuristic::Manhattan => {
            let dx = if a.x >= b.x {
                a.x - b.x
            } else {
                b.x - a.x
            };
            let dy = if a.y >= b.y {
                a.y - b.y
            } else {
                b.y - a.y
            };
            let dz = if a.z >= b.z {
                a.z - b.z
            } else {
                b.z - a.z
            };
            sat_add(sat_add(dx as u64, dy as u64), dz as u64)
        },
    }
}

/// A vector of `n` copies of one value.
fn fill<T: Copy>(n: usize, val: T) -> (v: Vec<T>)
    ensures
        v@.len() == n,
        forall|i: int| 0 <= i < n ==> v@[i] == val,
{
    let mut v: Vec<T> = Vec::new();
    let mut i: usize = 0;
    while i < n
        invariant
            i <= n,
            v@.len() == i,
            forall|k: int| 0 <= k < i ==> v@[k] == val,
        decreases n - i,
    {
        v.push(val);
        i = i + 1;
    }
    v
}

/// Whether the cell at flattened index `f` takes part in the graph.
pub open spec fn open_at(g: SpatialGrid, f: int) -> bool {
    g.cells@[f].open_cell()
}

/// A path from `a` to `b`: a non-empty chain of in-range, open cells, each
/// linked to the next.
pub open spec fn is_path(g: SpatialGrid, p: Seq<usize>, a: int, b: int) -> bool {
    &&& p.len() >= 1
    &&& p[0] == a
    &&& p[p.len() - 1] == b
    &&& forall|k: int|
        0 <= k < p.len() ==> (#[trigger] p[k]) < g.cells@.len() && open_at(g, p[k] as int)
    &&& forall|k: int| 0 <= k < p.len() - 1 ==> linked(g, (#[trigger] p[k]) as int, p[k + 1] as int)
}

/// Some path joins `a` to `b`.
pub open spec fn reachable(g: SpatialGrid, a: int, b: int) -> bool {
    exists|p: Seq<usize>| #[trigger] is_path(g, p, a, b)
}

/// How many entries of a flag vector are set.
spec fn count_true(s: Seq<bool>) -> int
    decreases s.len(),
{
    if s.len() == 0 {
        0
    } else {
        count_true(s.drop_last()) + if s.last() {
            1int
        } else {
            0int
        }
    }
}

proof fn lemma_count_true_bounds(s: Seq<bool>)
    ensures
        0 <= count_true(s) <= s.len(),
    decreases s.len(),
{
    if s.len() > 0 {
        lemma_count_true_bounds(s.drop_last());
    }
}

proof fn lemma_count_true_update(s: Seq<bool>, i: int)
    requires
        0 <= i < s.len(),
        !s[i],
    ensures
        count_true(s.update(i, true)) == count_true(s) + 1,
    decreases s.len(),
{
    let t = s.update(i, true);
    if i == s.len() - 1 {
        assert(t.drop_last() =~= s.drop_last());
    } else {
        assert(t.drop_last() =~= s.drop_last().update(i, true));
        lemma_count_true_update(s.drop_last(), i);
    }
}

proof fn lemma_count_true_zero(s: Seq<bool>)
    requires
        forall|i: int| 0 <= i < s.len() ==> !(#[trigger] s[i]),
    ensures
        count_true(s) == 0,
    decreases s.len(),
{
    if s.len() > 0 {
        lemma_count_true_zero(s.drop_last());
    }
}

/// The search's running state, between expansions: everything discovered is
/// open and carries a predecessor chain of strictly decreasing cost back to
/// the start, costs never exceed the number of expanded cells, and the
/// frontier holds exactly the discovered, unexpanded cells.
spec fn search_inv(
    g: SpatialGrid,
    start: int,
    goal: int,
    discovered: Seq<bool>,
    finalized: Seq<bool>,
    gcost: Seq<u64>,
    pred: Seq<usize>,
    frontier: Seq<SearchCell>,
) -> bool {
    let n = g.cells@.len() as int;
    &&& discovered.len() == n
    &&& finalized.len() == n
    &&& gcost.len() == n
    &&& pred.len() == n
    &&& 0 <= start < n
    &&& 0 <= goal < n
    &&& open_at(g, start)
    &&& open_at(g, goal)
    &&& discovered[start]
    &&& !finalized[goal]
    &&& forall|v: int| 0 <= v < n && #[trigger] finalized[v] ==> discovered[v]
    &&& forall|v: int| 0 <= v < n && #[trigger] discovered[v] ==> open_at(g, v)
    &&& forall|v: int|
        0 <= v < n && #[trigger] discovered[v] && v != start ==> {
            &&& (pred[v] as int) < n
            &&& discovered[pred[v] as int]
            &&& linked(g, pred[v] as int, v)
            &&& gcost[pred[v] as int] < gcost[v]
        }
    &&& forall|v: int| 0 <= v < n && #[trigger] discovered[v] ==> gcost[v] <= count_true(finalized)
    &&& forall|k: int|
        0 <= k < frontier.len() ==> ((#[trigger] frontier[k]).cell as int) < n
            && discovered[frontier[k].cell as int] && !finalized[frontier[k].cell as int]
    &&& forall|k1: int, k2: int|
        0 <= k1 < k2 < frontier.len() ==> (#[trigger] frontier[k1]).cell != (
        #[trigger] frontier[k2]).cell
}

/// Every discovered, unexpanded cell still waits in the frontier.
spec fn frontier_complete(
    n: int,
    discovered: Seq<bool>,
    finalized: Seq<bool>,
    frontier: Seq<SearchCell>,
) -> bool {
    forall|v: int|
        0 <= v < n && #[trigger] discovered[v] && !finalized[v] ==> exists|k: int|
            0 <= k < frontier.len() && (#[trigger] frontier[k]).cell == v
}

/// Every expanded cell's open neighbours have been discovered — except,
/// mid-expansion, the neighbours of `pending` from index `upto` on.
spec fn closed_upto(
    g: SpatialGrid,
    discovered: Seq<bool>,
    finalized: Seq<bool>,
    pending: int,
    upto: int,
) -> bool {
    let n = g.cells@.len() as int;
    forall|v: int, j: int|
        0 <= v < n && #[trigger] finalized[v] && 0 <= j < g.cells@[v].neighbours@.len() && (v
            != pending || j < upto) && ((#[trigger] g.cells@[v].neighbours@[j]) as int) < n
            && open_at(g, g.cells@[v].neighbours@[j] as int) ==> discovered[g.cells@[
            v
        ].neighbours@[j] as int]
}

/// A graph walk cannot leave a discovered set that is closed under the open
/// edges of its expanded cells once every discovered cell is expanded.
proof fn lemma_path_stays_discovered(
    g: SpatialGrid,
    p: Seq<usize>,
    a: int,
    b: int,
    discovered: Seq<bool>,
    finalized: Seq<bool>,
)
    requires
        is_path(g, p, a, b),
        discovered.len() == g.cells@.len(),
        finalized.len() == g.cells@.len(),
        0 <= a < g.cells@.len(),
        discovered[a],
        forall|v: int| 0 <= v < g.cells@.len() && #[trigger] discovered[v] ==> finalized[v],
        closed_upto(g, discovered, finalized, -1, 0),
    ensures
        0 <= b < g.cells@.len(),
        discovered[b],
    decreases p.len(),
{
    if p.len() == 1 {
        assert(p[0] == a && p[0] == b);
    } else {
        let w = p[1];
        assert(linked(g, p[0] as int, w as int));
        let j = choose|j: int|
            0 <= j < g.cells@[a].neighbours@.len() && g.cells@[a].neighbours@[j] == w;
        assert(g.cells@[a].neighbours@[j] == w);
        assert(finalized[a]);
        assert((w as int) < g.cells@.len() && open_at(g, w as int));
        assert(discovered[w as int]);
        let p2 = p.subrange(1, p.len() as int);
        assert(p2[0] == w);
        assert(p2[p2.len() - 1] == b);
        assert forall|k: int| 0 <= k < p2.len() implies (#[trigger] p2[k]) < g.cells@.len()
            && open_at(g, p2[k] as int) by {
            assert(p2[k] == p[k + 1]);
        }
        assert forall|k: int| 0 <= k < p2.len() - 1 implies linked(
            g,
            (#[trigger] p2[k]) as int,
            p2[k + 1] as int,
        ) by {
            assert(p2[k] == p[k + 1] && p2[k + 1] == p[k + 2]);
        }
        assert(is_path(g, p2, w as int, b));
        lemma_path_stays_discovered(g, p2, w as int, b, discovered, finalized);
    }
}

/// The frontier entry the search expands next: the lowest score, and among
/// equal scores the earliest inserted. This tie-break is what makes repeated
/// searches over one graph return the same path.
fn min_score_index(frontier: &Vec<SearchCell>) -> (best: usize)
    requires
        frontier@.len() > 0,
    ensures
        best < frontier@.len(),
        forall|k: int|
            0 <= k < frontier@.len() ==> frontier@[best as int].score <= (
            #[trigger] frontier@[k]).score,
        forall|k: int|
            0 <= k < best ==> (#[trigger] frontier@[k]).score > frontier@[best as int].score,
{
    let mut best: usize = 0;
    let mut i: usize = 1;
    while i < frontier.len()
        invariant
            frontier@.len() > 0,
            best < i,
            i <= frontier@.len(),
            forall|k: int|
                0 <= k < i ==> frontier@[best as int].score <= (#[trigger] frontier@[k]).score,
            forall|k: int|
                0 <= k < best ==> (#[trigger] frontier@[k]).score > frontier@[best as int].score,
        decreases frontier@.len() - i,
    {
        if frontier[i].score < frontier[best].score {
            best = i;
        }
        i = i + 1;
    }
    best
}

impl SpatialGrid {
    /// Finds a path of linked, open cells from `start` to `goal` (flattened
    /// indices), or reports `NoPathFound`.
    ///
    /// Succeeds exactly when both endpoints are traversable and unoccluded
    /// and some chain of neighbour links joins them; an occluded or
    /// non-traversable endpoint fails fast, before any expansion. The
    /// returned sequence begins at `start`, ends at `goal`, and steps only
    /// along neighbour links of open cells.
    #[verifier::loop_isolation(false)]
    #[verifier::rlimit(100)]
    pub fn find_path(&self, start: usize, goal: usize, heuristic: Heuristic) -> (r: Result<
        Vec<usize>,
        NavError,
    >)
        requires
            self.wf(),
            start < self.cells@.len(),
            goal < self.cells@.len(),
        ensures
            match r {
                Ok(p) => is_path(*self, p@, start as int, goal as int),
                Err(e) => {
                    &&& e == NavError::NoPathFound
                    &&& !(open_at(*self, start as int) && open_at(*self, goal as int) && reachable(
                        *self,
                        start as int,
                        goal as int,
                    ))
                },
            },
    {
        let n = self.cells.len();
        let start_open = self.cells[start].is_traversable && !self.cells[start].is_occluded;
        let goal_open = self.cells[goal].is_traversable && !self.cells[goal].is_occluded;
        if !start_open || !goal_open {
            return Err(NavError::NoPathFound);
        }
        if start == goal {
            let mut p: Vec<usize> = Vec::new();
            p.push(start);
            proof {
                assert(p@[0] == start);
                assert(is_path(*self, p@, start as int, goal as int));
            }
            return Ok(p);
        }
        let mut discovered = fill(n, false);
        let mut finalized = fill(n, false);
        let mut gcost = fill(n, 0u64);
        let mut pred = fill(n, 0usize);
        let mut frontier: Vec<SearchCell> = Vec::new();
        discovered[start] = true;
        let goal_indices = self.cells[goal].indices;
        let h0 = eval_heuristic(heuristic, self.cells[start].indices, goal_indices);
        frontier.push(SearchCell::new(start, h0));
        proof {
            lemma_count_true_zero(finalized@);
            lemma_count_true_bounds(finalized@);
            assert(frontier@[0].cell == start);
        }
        while frontier.len() > 0
            invariant
                search_inv(
                    *self,
                    start as int,
                    goal as int,
                    discovered@,
                    finalized@,
                    gcost@,
                    pred@,
                    frontier@,
                ),
                frontier_complete(n as int, discovered@, finalized@, frontier@),
                closed_upto(*self, discovered@, finalized@, -1, 0),
            decreases n - count_true(finalized@),
        {
            proof {
                lemma_count_true_bounds(finalized@);
            }
            let best = min_score_index(&frontier);
            let ghost fr0 = frontier@;
            let sc = frontier.remove(best);
            let u = sc.cell;
            proof {
                assert forall|k: int| 0 <= k < frontier@.len() implies ((
                #[trigger] frontier@[k]).cell as int) < n && discovered@[frontier@[k].cell as int]
                    && !finalized@[frontier@[k].cell as int] && frontier@[k].cell != u by {
                    if k < best {
                        assert(frontier@[k] == fr0[k]);
                    } else {
                        assert(frontier@[k] == fr0[k + 1]);
                    }
                    assert(fr0[best as int].cell == u);
                }
                assert forall|k1: int, k2: int|
                    0 <= k1 < k2 < frontier@.len() implies (#[trigger] frontier@[k1]).cell != (
                #[trigger] frontier@[k2]).cell by {
                    if k1 < best {
                        assert(frontier@[k1] == fr0[k1]);
                    } else {
                        assert(frontier@[k1] == fr0[k1 + 1]);
                    }
                    if k2 < best {
                        assert(frontier@[k2] == fr0[k2]);
                    } else {
                        assert(frontier@[k2] == fr0[k2 + 1]);
                    }
                }
            }
            if u == goal {
                // Reconstruct by walking predecessors, then reverse.
                let mut path_rev: Vec<usize> = Vec::new();
                let mut cur: usize = goal;
                path_rev.push(cur);
                while cur != start
                    invariant
                        (cur as int) < n,
                        discovered@[cur as int],
                        path_rev@.len() >= 1,
                        path_rev@[0] == goal,
                        path_rev@[path_rev@.len() - 1] == cur,
                        forall|k: int|
                            0 <= k < path_rev@.len() ==> ((#[trigger] path_rev@[k]) as int) < n
                                && open_at(*self, path_rev@[k] as int),
                        forall|k: int|
                            0 <= k < path_rev@.len() - 1 ==> linked(
                                *self,
                                path_rev@[k + 1] as int,
                                (#[trigger] path_rev@[k]) as int,
                            ),
                    decreases gcost@[cur as int],
                {
                    let prev = pred[cur];
                    path_rev.push(prev);
                    cur = prev;
                }
                let mut path: Vec<usize> = Vec::new();
                let mut k = path_rev.len();
                while k > 0
                    invariant
                        k <= path_rev@.len(),
                        path@.len() == path_rev@.len() - k,
                        forall|i2: int|
                            0 <= i2 < path@.len() ==> #[trigger] path@[i2] == path_rev@[
                                path_rev@.len() - 1 - i2
                            ],
                    decreases k,
                {
                    k = k - 1;
                    path.push(path_rev[k]);
                }
                proof {
                    assert(path@[0] == path_rev@[path_rev@.len() - 1]);
                    assert(path@[path@.len() - 1] == path_rev@[0]);
                    assert forall|k2: int| 0 <= k2 < path@.len() - 1 implies linked(
                        *self,
                        (#[trigger] path@[k2]) as int,
                        path@[k2 + 1] as int,
                    ) by {
                        let m = path_rev@.len() as int;
                        assert(path@[k2] == path_rev@[m - 1 - k2]);
                        assert(path@[k2 + 1] == path_rev@[m - 2 - k2]);
                    }
                    assert(is_path(*self, path@, start as int, goal as int));
                }
                return Ok(path);
            }
            let ghost fin_before = finalized@;
            finalized[u] = true;
            proof {
                lemma_count_true_update(fin_before, u as int);
                lemma_count_true_bounds(finalized@);
                assert forall|v: int|
                    0 <= v < n && discovered@[v] && !finalized@[v] implies exists|k: int|
                    0 <= k < frontier@.len() && (#[trigger] frontier@[k]).cell == v by {
                    let k0 = choose|k0: int| 0 <= k0 < fr0.len() && (#[trigger] fr0[k0]).cell == v;
                    if k0 < best {
                        assert(frontier@[k0] == fr0[k0]);
                    } else {
                        assert(fr0[best as int].cell == u);
                        assert(k0 > best);
                        assert(frontier@[k0 - 1] == fr0[k0]);
                    }
                }
            }
            let ghost count_now = count_true(finalized@);
            proof {
                assert(fr0[best as int].cell == u);
                assert(discovered@[u as int]);
                assert(gcost@[u as int] <= count_true(fin_before));
                assert(finalized@ == fin_before.update(u as int, true));
                assert(count_now == count_true(fin_before) + 1);
                assert(gcost@[u as int] < count_now);
            }
            let nb_len = self.cells[u].neighbours.len();
            let mut j: usize = 0;
            while j < nb_len
                invariant
                    j <= nb_len,
                    nb_len == self.cells@[u as int].neighbours@.len(),
                    (u as int) < n,
                    finalized@[u as int],
                    count_true(finalized@) == count_now,
                    gcost@[u as int] < count_now,
                    search_inv(
                        *self,
                        start as int,
                        goal as int,
                        discovered@,
                        finalized@,
                        gcost@,
                        pred@,
                        frontier@,
                    ),
                    frontier_complete(n as int, discovered@, finalized@, frontier@),
                    closed_upto(*self, discovered@, finalized@, u as int, j as int),
                decreases nb_len - j,
            {
                let v = self.cells[u].neighbours[j];
                if v < n {
                    let v_open = self.cells[v].is_traversable && !self.cells[v].is_occluded;
                    if v_open && !discovered[v] {
                        let ghost fr1 = frontier@;
                        let ghost disc_before = discovered@;
                        discovered[v] = true;
                        let g2 = gcost[u] + 1;
                        gcost[v] = g2;
                        pred[v] = u;
                        let hv = eval_heuristic(heuristic, self.cells[v].indices, goal_indices);
                        frontier.push(SearchCell::new(v, sat_add(g2, hv)));
                        proof {
                            assert(self.cells@[u as int].neighbours@[j as int] == v);
                            assert(linked(*self, u as int, v as int));
                            assert(frontier@[frontier@.len() - 1].cell == v);
                            assert forall|k: int| 0 <= k < fr1.len() implies (
                            #[trigger] fr1[k]).cell != v by {
                                assert(disc_before[fr1[k].cell as int]);
                                assert(!disc_before[v as int]);
                            }
                            assert forall|w: int|
                                0 <= w < n && discovered@[w] && !finalized@[w] implies exists|
                                k: int,
                            |
                                0 <= k < frontier@.len() && (#[trigger] frontier@[k]).cell
                                    == w by {
                                if w == v as int {
                                    assert(frontier@[frontier@.len() - 1].cell == w);
                                } else {
                                    let k0 = choose|k0: int|
                                        0 <= k0 < fr1.len() && (#[trigger] fr1[k0]).cell == w;
                                    assert(frontier@[k0] == fr1[k0]);
                                }
                            }
                        }
                    }
                }
                j = j + 1;
            }
        }
        proof {
            lemma_count_true_bounds(finalized@);
            if open_at(*self, start as int) && open_at(*self, goal as int) && reachable(
                *self,
                start as int,
                goal as int,
            ) {
                let p = choose|p: Seq<usize>| #[trigger] is_path(
                    *self,
                    p,
                    start as int,
                    goal as int,
                );
                lemma_path_stays_discovered(
                    *self,
                    p,
                    start as int,
                    goal as int,
                    discovered@,
                    finalized@,
                );
                assert(false);
            }
        }
        Err(NavError::NoPathFound)
    }
}

} // verus!
