//! A bottom-up fixpoint evaluation engine for Horn-style rules over
//! integer-valued relations, with lattice-valued relations that merge by
//! minimum or maximum.
pub mod store;
pub mod rule;
pub mod engine;
pub mod deps;
pub mod plan;
pub mod seminaive;
