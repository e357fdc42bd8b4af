//! The graph of operators and what stands around it.

pub mod dfg;
pub mod propagation;
pub mod serverinfo;
pub mod topology;
pub mod view;
