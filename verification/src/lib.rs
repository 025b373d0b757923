//! An engine-agnostic 3D navigation grid: a dense lattice of cells spanning an
//! axis-aligned box, classified as traversable or occluded against injected
//! collision-query results, linked into a 6-connected graph (optionally pruned
//! by line-of-sight), and searched with a best-first shortest-path search.
//!
//! All coordinates are fixed-point integers; a host converts its
//! floating-point world units (and checks them for finiteness) before calling in.
use vstd::prelude::*;

pub mod point;
pub mod grid;
pub mod classify;
pub mod connect;
pub mod search;
pub mod nav;

verus! {

/// Failures reported at the call boundary; every condition here is recoverable.
#[derive(Clone, Copy, PartialEq, Eq, Structural, Debug)]
pub enum NavError {
    /// A non-positive step size, a negative collision margin, or a volume too
    /// large for the machine's address space: the build fails before any cell
    /// is allocated.
    InvalidConfiguration,
    /// The frontier emptied without reaching the goal, or an endpoint cell is
    /// occluded or non-traversable: a legitimate search outcome, not a fault.
    NoPathFound,
}

} // verus!
