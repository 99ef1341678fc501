//! A behavioral overlay for an entity-component simulation that lets callers
//! temporarily suppress ("disable") per-entity input state — in full, for one
//! action domain, or for a chosen subset of actions — without touching the
//! underlying state, and that reverses the suppression when the disabling
//! marker is removed.
//!
//! The enabled/disabled flags are never toggled incrementally: on every marker
//! change the recomputation engine re-derives them from the complete set of
//! markers currently present, so independent disablers compose correctly in
//! any order of insertion and removal.

pub mod action_state;
pub mod assoc;
pub mod engine;
pub mod id_set;
pub mod markers;
pub mod store;
