//! Differential testing of two dependency resolvers over one registry
//! snapshot: the canonical registry model, the queries that feed each
//! resolver, the classification of their outcomes and the shrinking of a
//! disagreeing snapshot.

pub mod cases;
pub mod checker;
pub mod defaults;
pub mod index_data;
pub mod minimizer;
pub mod order;
pub mod read_index;
pub mod semver_text;
pub mod solution;
pub mod text;
