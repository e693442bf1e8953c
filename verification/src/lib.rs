//! gadjid - Graph Adjustment Identification Distance library.
//!
//! Computes distances between causal graphs (DAGs and CPDAGs) that quantify
//! how often an estimated graph would lead to an incorrect choice of covariate
//! adjustment set: the Adjustment Identification Distance (AID) family, plus
//! the structural Hamming distance (SHD) and the structural intervention
//! distance (SID).

mod ascending_list_utils;
mod graph_loading;
mod partially_directed_acyclic_graph;
mod sets;

pub mod graph_operations;

pub use ascending_list_utils::ascending_lists_first_shared_element;
pub use ascending_list_utils::ascending_lists_set_symmetric_difference;
pub use ascending_list_utils::ascending_lists_set_union;
pub use graph_loading::edgelist::Edgelist;
pub use partially_directed_acyclic_graph::has_cycle;
pub use partially_directed_acyclic_graph::Edge;
pub use partially_directed_acyclic_graph::LoadError;
pub use partially_directed_acyclic_graph::NotSimpleKind;
pub use partially_directed_acyclic_graph::Structure;
pub use partially_directed_acyclic_graph::PDAG;
pub use sets::mask_from_list;
pub use sets::mask_to_list;
