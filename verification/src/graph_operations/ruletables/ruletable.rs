//! The rule-table trait for the generalized graph search.

use vstd::prelude::*;

use crate::partially_directed_acyclic_graph::Edge;

verus! {

/// A rule table decides, for each candidate continuation of a search walk,
/// whether to continue the walk there and whether to yield the node reached.
///
/// Given how the current node was reached (`current_edge`, `current_node`)
/// and a next step (`next_edge`, `next_node`), `lookup` returns
/// `(continue, yield)`. The edge direction is written from the perspective of
/// the node it reveals: stepping from `x` to a child `y` is
/// `(Incoming, y)`, stepping to a parent `y` is `(Outgoing, y)`.
pub trait RuleTable: Sized {
    /// The table as a mathematical function.
    spec fn lookup_spec(
        &self,
        current_edge: Edge,
        current_node: usize,
        next_edge: Edge,
        next_node: usize,
    ) -> (bool, bool);

    /// Looks the step up in the table.
    fn lookup(
        &self,
        current_edge: &Edge,
        current_node: &usize,
        next_edge: &Edge,
        next_node: &usize,
    ) -> (r: (bool, bool))
        ensures
            r == self.lookup_spec(*current_edge, *current_node, *next_edge, *next_node),
    ;
}

} // verus!
