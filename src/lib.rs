//! A hierarchical finite-state-machine runtime.
//!
//! State kinds are identified by their index in the registration list and hold
//! `u64` values. A kind is either primary (set only by explicit requests), a sub
//! state (present only while its parent's value is in an allowed set), or
//! computed (a pure function of one or more source kinds). Each pass applies the
//! pending requests, re-derives the dependent kinds in a cached topological
//! order, emits one transition record per changed kind, and queues the entities
//! whose state scope ended.

pub mod engine;
pub mod graph;
pub mod kinds;
pub mod laws;
pub mod pass;
pub mod schedules;

pub use engine::{Engine, Polarity, RequestError, ScopedTag};
pub use graph::{evaluation_order, ConfigError};
pub use kinds::{derive_value, evaluate, KindDef, Rule};
pub use pass::{sweep, TransitionRecord};
pub use schedules::{schedules, Schedule};
