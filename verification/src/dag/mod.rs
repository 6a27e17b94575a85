pub mod digraph;
pub mod graph;
pub mod paths;
pub mod schedule;

pub use graph::{BuildGraph, GraphError};
pub use schedule::{Schedule, ScheduledTask};
