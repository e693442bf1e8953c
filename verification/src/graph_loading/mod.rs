//! Loading PDAGs from adjacency-matrix triple streams.

pub mod edgelist;
