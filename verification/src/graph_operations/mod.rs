//! Operations on PDAGs: reachability engines, generalized search, the AID
//! metric family, SHD and SID.

pub mod aid_utils;
pub mod ancestor_aid;
pub mod causal_paths;
pub mod gensearch;
pub mod gensearch_wrappers;
pub mod oset_aid;
pub mod parent_aid;
pub mod possible_descendants;
pub mod reachability;
pub mod ruletables;
pub mod shd;
pub mod sid;

pub use ancestor_aid::ancestor_aid;
pub use ancestor_aid::ancestor_aid_selected_pairs;
pub use causal_paths::causal_children;
pub use causal_paths::causal_nodes;
pub use gensearch::gensearch;
pub use gensearch_wrappers::get_ancestors;
pub use gensearch_wrappers::get_children;
pub use gensearch_wrappers::get_descendants;
pub use gensearch_wrappers::get_parents;
pub use gensearch_wrappers::get_proper_ancestors;
pub use oset_aid::optimal_adjustment_set;
pub use oset_aid::optimal_adjustment_set_given_descendants;
pub use oset_aid::oset_aid;
pub use oset_aid::oset_aid_selected_pairs;
pub use parent_aid::parent_aid;
pub use parent_aid::parent_aid_selected_pairs;
pub use possible_descendants::get_possible_descendants;
pub use reachability::get_d_pd_nam;
pub use reachability::get_invalidly_un_blocked;
pub use reachability::get_nam;
pub use reachability::get_nam_nva;
pub use reachability::get_pd_nam;
pub use reachability::get_pd_nam_nva;
pub use shd::shd;
pub use sid::sid;
pub use sid::SIDError;
