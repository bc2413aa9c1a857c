//! Bounded-concurrency fan-out over lazily produced work sequences.
//!
//! The library holds the decisions of a fan-out pass: which width it runs
//! at, when the executor may admit another item, when it must wait for a
//! completion and when it is done, and how the completion-ordered outcomes
//! are reduced. A runtime drives these decisions and performs the awaits.

pub mod width;
pub mod executor;
pub mod reduce;
pub mod semantics;
pub mod pass;
pub mod notice;
