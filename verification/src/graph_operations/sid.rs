//! The structural intervention distance (SID) between two DAGs: a thin
//! wrapper over Parent-AID that rejects graphs with undirected edges.

use vstd::prelude::*;

use super::parent_aid::{parent_aid, parent_aid_count};
use crate::partially_directed_acyclic_graph::PDAG;

verus! {

/// Errors that can occur when computing the SID.
#[derive(Debug, Clone, Copy, PartialEq, Eq, Structural)]
pub enum SIDError {
    /// The truth graph is not a DAG; use `parent_aid` for CPDAGs.
    TruthNotDAG,
    /// The guess graph is not a DAG; use `parent_aid` for CPDAGs.
    GuessNotDAG,
    /// The two input graphs do not have the same number of nodes.
    NotSameSize,
}

/// The structural intervention distance between two DAGs: exactly the
/// Parent-AID, after checking that both inputs are DAGs of the same size.
pub fn sid(truth: &PDAG, guess: &PDAG) -> (r: Result<(usize, usize), SIDError>)
    requires
        truth.wf(),
        guess.wf(),
        (truth.is_dag() && guess.is_dag() && truth.n_nodes == guess.n_nodes) ==> (truth.n_nodes
            >= 2 && truth.n() * truth.n() <= usize::MAX),
    ensures
        match r {
            Ok(mc) => {
                &&& truth.is_dag()
                &&& guess.is_dag()
                &&& truth.n_nodes == guess.n_nodes
                &&& mc.0 == parent_aid_count(truth, guess, truth.n())
                &&& mc.1 == truth.n() * (truth.n() - 1)
                &&& mc.0 <= mc.1
            },
            Err(SIDError::TruthNotDAG) => !truth.is_dag(),
            Err(SIDError::GuessNotDAG) => truth.is_dag() && !guess.is_dag(),
            Err(SIDError::NotSameSize) => truth.is_dag() && guess.is_dag() && truth.n_nodes
                != guess.n_nodes,
        },
{
    if !matches!(truth.pdag_type, crate::partially_directed_acyclic_graph::Structure::DAG) {
        return Err(SIDError::TruthNotDAG);
    }
    if !matches!(guess.pdag_type, crate::partially_directed_acyclic_graph::Structure::DAG) {
        return Err(SIDError::GuessNotDAG);
    }
    if truth.n_nodes != guess.n_nodes {
        return Err(SIDError::NotSameSize);
    }
    Ok(parent_aid(truth, guess))
}

} // verus!
