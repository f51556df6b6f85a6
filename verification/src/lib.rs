//! Topological core of an STL-to-STEP reconstruction pipeline: stage bookkeeping, mesh
//! topology validation, coplanar-pair fusion, region growing of surface hypotheses, surface
//! selection, and the adjacency of the reconstructed faces, edges and vertices.

pub mod stage;
pub mod topology;
pub mod fusion;
pub mod growth;
pub mod selection;
pub mod adjacency;
pub mod sorted;
pub mod chains;
pub mod reconstruct;
pub mod wires;
