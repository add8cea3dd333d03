//! Search frontier entries.
//!
//! One `State` describes a single pending relaxation: the node it reached,
//! the direction of the search that produced it, the accumulated cost
//! vector along that partial path, and the accumulated scalar cost under
//! the query's weight vector. The scalar is carried alongside the vector
//! and updated in lock-step at every relaxation, never recomputed.

use vstd::prelude::*;

verus! {

/// Which of the two simultaneous searches an entry belongs to: the
/// forward search explores outgoing edges from the source, the backward
/// search walks incoming edges from the target as if reversed.
#[derive(PartialEq, Eq, Structural, Clone, Copy, Debug)]
pub enum Direction {
    Forward,
    Backward,
}

/// One frontier entry of the shared priority queue. The queue yields
/// entries in ascending order of `total_cost`, so it behaves as a
/// minimum-cost queue; ties are broken arbitrarily.
pub struct State {
    pub node_id: usize,
    pub costs: Vec<u64>,
    pub total_cost: u64,
    pub direction: Direction,
}

} // verus!
