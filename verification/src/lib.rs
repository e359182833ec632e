//! Nanocubes: a sparse, shared-structure index of multi-dimensional points
//! whose every prefix query is answered by a pre-aggregated summary.

pub mod cube;
pub mod ref_counted_vec;
pub mod nanocube;
pub mod model;
pub mod counting;
pub mod frame;
pub mod merge_proof;
pub mod insert_proof;
pub mod chain_proof;
pub mod release_proof;
pub mod cascade;
pub mod liveness;
pub mod layout;
pub mod dot;
pub mod text_laws;
pub mod laws;
