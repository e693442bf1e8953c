//! Rule tables that instantiate the generalized graph search.

pub mod ancestors;
pub mod children;
pub mod descendants;
pub mod parents;
pub mod proper_ancestors;
pub mod ruletable;

pub use ancestors::Ancestors;
pub use children::Children;
pub use descendants::Descendants;
pub use parents::Parents;
pub use proper_ancestors::ProperAncestors;
pub use ruletable::RuleTable;
