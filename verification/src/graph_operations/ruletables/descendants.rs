//! Rule table for collecting all descendants of a set of nodes.

use vstd::prelude::*;

use super::ruletable::RuleTable;
use crate::partially_directed_acyclic_graph::Edge;

verus! {

/// Continue and yield on every step to a child; never step to a parent. Run
/// with the starting nodes yielded, this collects the descendants of the
/// starting set.
pub struct Descendants {}

impl RuleTable for Descendants {
    open spec fn lookup_spec(
        &self,
        current_edge: Edge,
        current_node: usize,
        next_edge: Edge,
        next_node: usize,
    ) -> (bool, bool) {
        match next_edge {
            Edge::Incoming => (true, true),
            _ => (false, false),
        }
    }

    fn lookup(
        &self,
        current_edge: &Edge,
        current_node: &usize,
        next_edge: &Edge,
        next_node: &usize,
    ) -> (r: (bool, bool)) {
        match next_edge {
            Edge::Incoming => (true, true),
            _ => (false, false),
        }
    }
}

} // verus!
