//! Rule table for collecting the union of parents of a set of nodes.

use vstd::prelude::*;

use super::ruletable::RuleTable;
use crate::partially_directed_acyclic_graph::Edge;

verus! {

/// Yield the immediate parents of the starting nodes; never continue.
pub struct Parents {}

impl RuleTable for Parents {
    open spec fn lookup_spec(
        &self,
        current_edge: Edge,
        current_node: usize,
        next_edge: Edge,
        next_node: usize,
    ) -> (bool, bool) {
        match (current_edge, next_edge) {
            (Edge::Init, Edge::Outgoing) => (false, true),
            _ => (false, false),
        }
    }

    fn lookup(
        &self,
        current_edge: &Edge,
        current_node: &usize,
        next_edge: &Edge,
        next_node: &usize,
    ) -> (r: (bool, bool)) {
        match (current_edge, next_edge) {
            (Edge::Init, Edge::Outgoing) => (false, true),
            _ => (false, false),
        }
    }
}

} // verus!
