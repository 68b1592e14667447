//! A frame-graph scheduler for GPU rendering.
//!
//! - `graph`: the dependency graph of render nodes and its topological schedule, with the
//!   reachability theory of `paths` behind its cycle check.
//! - `render_graph`: the graph as a renderer uses it, with a clear node kept first.
//! - `executor`: which node of a frame may start, and what each node's phase is.
//! - `async_queue`: the queue that releases command buffers in schedule order, whatever
//!   order they finish in.
//! - `param`: how a node's input is filled from its predecessors' outputs.
//! - `state_pool`: per-type pool of reusable node state.
//! - `entity`, `action`, `render_state`: entity ids, queued actions and render-state
//!   constants used around the graph.
pub mod paths;
pub mod graph;
pub mod render_graph;
pub mod async_queue;
pub mod state_pool;
pub mod entity;
pub mod action;
pub mod render_state;
pub mod executor;
pub mod param;
