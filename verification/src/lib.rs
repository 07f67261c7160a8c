//! A typed, cycle-free dataflow graph for block-wise signal processing.
//!
//! Flows are directed acyclic graphs whose nodes are inputs, outputs and
//! elements (primitives or nested flows) and whose edges carry one buffer
//! each. The [`Store`] keeps flows, their edge buffers and the shared state of
//! the primitives in step, plans the evaluation of a block and runs the plan.
//!
//! Samples of the two floating-point kinds are held by their bit patterns.
//! Everything that moves, sizes, clears or copies them is done here; rounding
//! arithmetic on them is left to a float unit that the caller drives between
//! two calls of [`Store::run`].

pub mod value;
pub mod buffer;
pub mod graph;
pub mod dag;
pub mod flow;
pub mod arena;
pub mod slot_map;
pub mod slot_table;
pub mod element;
pub mod flow_store;
pub mod prim_element;
pub mod processor;
pub mod schedule;
pub mod engine;
pub mod store;

pub use buffer::Buffer;
pub use flow_store::FlowId;
pub use store::Store;
pub use value::{InputNo, OutputNo, PrimType, Type, Value, C32, F32};
