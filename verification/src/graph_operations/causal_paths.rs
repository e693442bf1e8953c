//! Causal nodes and causal children: the nodes that sit on directed paths
//! from the treatments to the responses.

use vstd::prelude::*;

use super::gensearch_wrappers::{
    get_children, get_descendants, get_proper_ancestors, is_child_of_set, is_descendant_of,
    is_proper_ancestor_of,
};
use crate::ascending_list_utils::strictly_ascending;
use crate::partially_directed_acyclic_graph::PDAG;
use crate::sets::{mask_and, mask_to_list};

verus! {

/// Gets all nodes on causal paths from the treatments to the responses, the
/// treatments themselves excluded: the proper ancestors of the responses
/// that are also descendants of the treatments, as an ascending list.
pub fn causal_nodes(dag: &PDAG, t: &[usize], y: &[usize]) -> (r: Vec<usize>)
    requires
        dag.wf(),
        t@.len() > 0,
        y@.len() > 0,
        forall|k: int| 0 <= k < t@.len() ==> (#[trigger] t@[k]) < dag.n_nodes,
        forall|k: int| 0 <= k < y@.len() ==> (#[trigger] y@[k]) < dag.n_nodes,
    ensures
        strictly_ascending(r@),
        forall|x: usize|
            r@.contains(x) <==> (x < dag.n_nodes && is_proper_ancestor_of(dag, t@, y@, x as int)
                && is_descendant_of(dag, t@, x as int)),
{
    let response_ancestors = get_proper_ancestors(dag, t, y);
    let treatment_descendants = get_descendants(dag, t);
    let causal = mask_and(&response_ancestors, &treatment_descendants);
    mask_to_list(&causal)
}

/// Gets the first node of each causal path from the treatments to the
/// responses: the proper ancestors of the responses that are also children
/// of the treatments, as an ascending list.
pub fn causal_children(dag: &PDAG, t: &[usize], y: &[usize]) -> (r: Vec<usize>)
    requires
        dag.wf(),
        t@.len() > 0,
        y@.len() > 0,
        forall|k: int| 0 <= k < t@.len() ==> (#[trigger] t@[k]) < dag.n_nodes,
        forall|k: int| 0 <= k < y@.len() ==> (#[trigger] y@[k]) < dag.n_nodes,
    ensures
        strictly_ascending(r@),
        forall|x: usize|
            r@.contains(x) <==> (x < dag.n_nodes && is_proper_ancestor_of(dag, t@, y@, x as int)
                && is_child_of_set(dag, t@, x as int)),
{
    let response_ancestors = get_proper_ancestors(dag, t, y);
    let treatment_children = get_children(dag, t);
    let causal = mask_and(&response_ancestors, &treatment_children);
    mask_to_list(&causal)
}

} // verus!
