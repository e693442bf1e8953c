//! Rule table for collecting all ancestors of a set of nodes.

use vstd::prelude::*;

use super::ruletable::RuleTable;
use crate::partially_directed_acyclic_graph::Edge;

verus! {

/// Continue and yield on every step to a parent; never step to a child. Run
/// with the starting nodes yielded, this collects the ancestors of the
/// starting set.
pub struct Ancestors {}

impl RuleTable for Ancestors {
    open spec fn lookup_spec(
        &self,
        current_edge: Edge,
        current_node: usize,
        next_edge: Edge,
        next_node: usize,
    ) -> (bool, bool) {
        match next_edge {
            Edge::Outgoing => (true, true),
            _ => (false, false),
        }
    }

    fn lookup(
        &self,
        current_edge: &Edge,
        current_node: &usize,
        next_edge: &Edge,
        next_node: &usize,
    ) -> (r: (bool, bool)) {
        match next_edge {
            Edge::Outgoing => (true, true),
            _ => (false, false),
        }
    }
}

} // verus!
