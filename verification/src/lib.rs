//! Exact network-flow solvers whose published results carry checked certificates.
pub mod ids;
pub mod model;
pub mod flows;
pub mod residual;
pub mod certificate;
pub mod augmenting;
pub mod feasibility;
pub mod trace;
pub mod max_flow;
pub mod min_cost;
pub mod potential_dijkstra;
pub mod mean_cycle;
pub mod ratio_cycle;
pub mod network_simplex;
pub mod interior_point;
pub mod matching_flow;
pub mod ratio_cycle_mcf;
pub mod mean_certificate;
