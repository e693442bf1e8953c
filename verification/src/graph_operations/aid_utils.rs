//! Conditioned amenability and adjustment-validity queries, as used by the
//! AID metrics.

pub use super::reachability::get_nam;
pub use super::reachability::get_nam_nva;
