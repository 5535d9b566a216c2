//! Ownership and lifetime visualisation for Rust: the data model of the
//! analysis results and the algorithms that turn them into decorations.

pub mod models;
pub mod maps;
pub mod utils;
pub mod decoration;
pub mod mir;
pub mod transform;
pub mod analyze;
pub mod text;
pub mod xtask;
pub mod perf_dummy;
pub mod cache;
pub mod cli;
pub mod analysis;
pub mod visualize;
pub mod backend;
pub mod rustowlc;
pub mod toolchain;
pub mod dataflow;
pub mod liveness;
