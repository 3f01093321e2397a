//! Planning library: s-expression and PDDL reading, a classical (STRIPS) state model with a
//! weighted-A* plan search, plan explanation records, UPF message conversion and box geometry
//! used for timeline analysis.
pub mod classical;
pub mod explain;
pub mod input;
pub mod parsing;
pub mod upf;
pub mod grpc;
pub mod timelines;
