//! Tracing of a computation graph and its expansion into a diagram.
//!
//! A [`store::NodeStore`] holds value nodes that refer to their dependencies
//! by index. [`trace::trace`] walks the dependencies of a root node and
//! returns the nodes it reached and the dependency edges among them;
//! [`diagram::build`] expands that into a diagram in which every operation
//! is a box of its own; [`render`] turns a diagram into Graphviz text.

pub mod store;
pub mod reach;
pub mod visited;
pub mod trace;
pub mod soundness;
pub mod diagram;
pub mod render;
