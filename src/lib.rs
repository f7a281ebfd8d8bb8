//! Turns an execution log into a tree of task nodes and selects nodes by
//! composable predicates.

pub mod filter;
pub mod node;
pub mod parser;
pub mod pattern;

pub use filter::{filter_nodes, has_matching_flags, has_output};
pub use node::Node;
pub use parser::parse_lines;
