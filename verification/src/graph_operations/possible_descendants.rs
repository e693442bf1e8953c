//! All possible descendants of a set of nodes.

use vstd::prelude::*;

use super::reachability::{get_pd_nam, in_pd, tmask_of};
use crate::partially_directed_acyclic_graph::PDAG;

verus! {

/// Gets all possible descendants of a set of nodes, the starting nodes
/// included: every node reached from the set by a walk of directed and
/// undirected edges that never points back.
pub fn get_possible_descendants(pdag: &PDAG, starting_vertices: &[usize]) -> (r: Vec<bool>)
    requires
        pdag.wf(),
        forall|k: int| 0 <= k < starting_vertices@.len() ==> (#[trigger] starting_vertices@[k])
            < pdag.n_nodes,
    ensures
        r@.len() == pdag.n(),
        forall|v: int|
            0 <= v < pdag.n() ==> r@[v] == in_pd(pdag, tmask_of(starting_vertices@, pdag.n()), v),
{
    let (pd, _) = get_pd_nam(pdag, starting_vertices);
    pd
}

} // verus!
