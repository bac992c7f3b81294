//! Phase-polynomial path-sum engine for Clifford+T+RZ circuits.
pub mod bits;
pub mod sorted;
pub mod ticks;
pub mod boolean_poly;
pub mod phase_poly;
pub mod continuous_poly;
pub mod expansion;
pub mod evaluator;
pub mod gf2;
pub mod render;
pub mod reduction;
pub mod pathsum;
pub mod parity_network;
pub mod combination;
pub mod gray;
pub mod routing;
pub mod edges;
pub mod steiner;
pub mod fresh;
pub mod identities;
pub mod replay;
