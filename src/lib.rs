//! Load-aware placement of weighted tasks on a small set of worker nodes.
//!
//! Each node keeps its tasks ordered by ascending weight; the cluster
//! functions measure per-node load, report exact statistics over the loads,
//! and move the heaviest task from one node to another.

pub mod cluster;
pub mod laws;
pub mod node;
pub mod stats;
pub mod task;

pub use cluster::{migrate, place_on, ClusterError};
pub use node::SlaveNode;
pub use stats::{loads, max_loaded_index, median_load_doubled, min_loaded_index, scaled_variance};
pub use task::Task;
