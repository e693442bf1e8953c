//! Rule table for collecting the proper ancestors of response nodes with
//! respect to a treatment set.

use vstd::prelude::*;

use super::ruletable::RuleTable;
use crate::partially_directed_acyclic_graph::Edge;

verus! {

/// Like [`super::Ancestors`], but never continues into or yields a treatment
/// node: walks towards ancestors stop at the treatment set.
pub struct ProperAncestors {
    /// The treatment nodes that bound the ancestor walks.
    pub treatments: Vec<usize>,
}

impl RuleTable for ProperAncestors {
    open spec fn lookup_spec(
        &self,
        current_edge: Edge,
        current_node: usize,
        next_edge: Edge,
        next_node: usize,
    ) -> (bool, bool) {
        match next_edge {
            Edge::Outgoing => {
                let allowed = !self.treatments@.contains(next_node);
                (allowed, allowed)
            },
            _ => (false, false),
        }
    }

    fn lookup(
        &self,
        current_edge: &Edge,
        current_node: &usize,
        next_edge: &Edge,
        next_node: &usize,
    ) -> (r: (bool, bool)) {
        match next_edge {
            Edge::Outgoing => {
                let allowed = !list_contains(&self.treatments, *next_node);
                (allowed, allowed)
            },
            _ => (false, false),
        }
    }
}

/// Whether a list holds a value.
pub fn list_contains(list: &Vec<usize>, x: usize) -> (r: bool)
    ensures
        r == list@.contains(x),
{
    let mut k: usize = 0;
    while k < list.len()
        invariant
            k <= list@.len(),
            forall|j: int| 0 <= j < k ==> list@[j] != x,
        decreases list@.len() - k,
    {
        if list[k] == x {
            return true;
        }
        k += 1;
    }
    false
}

} // verus!
