//! Training and emission core of a recursive model index: a two-layer
//! hierarchy of small models that maps a sorted key to its position with a
//! bounded error.
mod bounds;
pub mod cache_fix;
pub mod codegen;
pub mod data;
pub mod emit;
pub mod load;
pub mod lower_bound_correction;
pub mod models;
pub mod optimizer;
pub mod train;
pub mod utils;
