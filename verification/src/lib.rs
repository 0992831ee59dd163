//! Analysis of an undirected social-interaction network: connected groups,
//! closeness centrality and bounded reach of its participants.

pub mod algorithms;
pub mod centrality;
pub mod error;
pub mod graph;
pub mod laws;
pub mod model;
pub mod parse;
pub mod score;
pub mod store;
pub mod traversal;
