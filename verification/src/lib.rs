//! Pirx: the verified core of an execution profiler for fault-tolerant
//! quantum computing.
//!
//! The crate holds the circuit representation and its validation, the
//! dependency graph that the discrete-event engine drives, the engine's
//! decision logic, the magic-state buffer, the event queue, routing cost
//! models, trace collection and the integer parts of trace analysis.

pub mod circuit;
pub mod buffer;
pub mod validate;
pub mod ready_queue;
pub mod events;
pub mod routing;
pub mod trace;
pub mod dag;
pub mod factory;
pub mod engine;
pub mod analysis;
pub mod summary;
pub mod sobol;
pub mod hardware;
pub mod sensitivity;
pub mod builder;
pub mod adapter_error;
pub mod tket;
pub mod qasm;
pub mod accounting;
pub mod names;
pub mod tket_json;
