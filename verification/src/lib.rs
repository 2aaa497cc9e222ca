//! Verified combinatorial core of a PCB trace router: joint routing of a few
//! connections on a window grid (exhaustive search with infeasibility
//! certificates, node-disjoint max-flow bounds, enclosing cuts, via barrels),
//! min-cost flow with price certificates for pin-field escapes, a Lee
//! wavefront grid router, union–find clustering of too-close vias, and
//! net-name classification of differential pairs and length-match groups.
pub mod auto;
pub mod bitset;
pub mod classes;
pub mod complete;
pub mod decision;
pub mod disjoint;
pub mod escape;
pub mod flow;
pub mod gpu_bridge;
pub mod grid;
pub mod legalize;
pub mod length_tune;
pub mod maze;
pub mod order;
pub mod pair;
pub mod prices;
pub mod search;
pub mod text;
pub mod window;

use vstd::prelude::*;

verus! {

/// Outcome of the differentiable-descent stage over the board's pairs.
#[derive(Debug, Clone, Copy, Default)]
pub struct DescentReport {
    /// Pairs whose geometry the descent improved and the oracle accepted.
    pub tuned: usize,
    /// Pairs the descent ran on.
    pub attempted: usize,
    /// Pairs whose descended geometry the oracle rejected.
    pub rejected: usize,
}

/// What the signal-integrity finishing pass changed.
#[derive(Debug, Clone, Copy, Default)]
pub struct SiFinishReport {
    /// Uncoupled pairs re-routed coupled by the polish stage.
    pub polished: usize,
    /// Uncoupled pairs the polish stage attempted.
    pub polish_attempted: usize,
    /// Differentiable-descent outcome.
    pub descent: DescentReport,
    /// Pairs whose residual skew was meandered out.
    pub meandered: usize,
    /// Pairs still over the skew tolerance after every stage.
    pub over_tolerance: usize,
}

} // verus!
