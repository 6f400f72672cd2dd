//! An in-memory hypergraph store with an identity registry, and the
//! structural measures that read it.

pub mod attributes;
pub mod centrality;
pub mod degree;
pub mod edge;
pub mod edge_similarity;
pub mod entity;
pub mod hypergraph;
pub mod label_encoder;
pub mod line_graph;
pub mod laws;
pub mod meta_handler;
