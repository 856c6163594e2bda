//! A hierarchical timing profile of nested scopes.
//!
//! Scopes are entered and left; each finished scope becomes a [`Node`] that
//! carries its name, the time it took and the nodes of the scopes that closed
//! inside it. When a scope without a parent closes, its tree is complete: it
//! can be aggregated, which merges siblings that share a name, and rendered
//! as indented lines of text.
//!
//! The library holds no clock and writes nowhere. Time stamps come in as
//! nanoseconds, and the rendered lines go out as strings.
//!
//! * [`tree`] and [`scopes`] hold the mathematical models: what a tree is and
//!   what it means to aggregate one, which scopes are open and what an event
//!   does to them.
//! * [`node`], [`aggregate`], [`limits`] and [`render`] hold the nodes in
//!   memory and what is done with them.
//! * [`builder`] turns the events of scopes into nodes.
//! * [`laws`] and [`nesting`] state what holds of every aggregation and of
//!   every tree that is built.

pub mod aggregate;
pub mod builder;
pub mod laws;
pub mod limits;
pub mod nesting;
pub mod node;
pub mod render;
pub mod scopes;
pub mod text;
pub mod tree;

pub use builder::{span_tree, Data, SpanTree};
pub use node::Node;
pub use render::format_line;
pub use scopes::{Event, Pending};
pub use text::compare_text;
pub use tree::Tree;
