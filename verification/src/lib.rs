//! Superoptimisation of quantum circuits by equivalence classes of small circuits.

pub mod accept;
pub mod best_log;
pub mod compile;
pub mod dataflow;
pub mod ecc_set;
pub mod follow;
pub mod gates;
pub mod get_files;
pub mod main_loop;
pub mod plan;
pub mod qtz_circuit;
mod queue;
pub mod rep_set;
pub mod search;
pub mod wiring;
pub mod worker;

pub use compile::compile_eccs;
pub use rep_set::load_eccs;
