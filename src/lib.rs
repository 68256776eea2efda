//! Execution of a directed acyclic graph of compute nodes by cooperating
//! workers that share one serialized copy of the graph.
//!
//! The library holds the graph model and its status state machine, the
//! textual and binary forms of a graph, the framing of the shared byte cells,
//! and the decisions of the worker loop. Operating-system primitives are
//! driven by the application around it.

pub mod text;
pub mod status;
pub mod error;
pub mod node;
pub mod edge;
pub mod graph;
pub mod codec;
pub mod schedule;
pub mod cells;
pub mod lock;
pub mod dot;
pub mod dot_round_trip;
