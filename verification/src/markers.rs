//! The disabling-marker vocabulary: plain, value-equal records whose mere
//! presence on an entity expresses a disabling intent.
//!
//! Entities, action domains and actions are all identified by `u64` tags;
//! each domain's markers are independent of every other domain's.

use vstd::prelude::*;

verus! {

/// Unit marker: every input state on the carrying entity is disabled.
#[derive(Clone, Copy, Debug, PartialEq, Eq, Structural)]
pub struct AllActionStatesDisabled;

/// Unit marker: the input state of the named domain on the carrying entity
/// is disabled.
#[derive(Clone, Copy, Debug, PartialEq, Eq, Structural)]
pub struct ActionStateDisabled {
    pub domain: u64,
}

/// Unit marker: only the listed actions within the named domain's input
/// state on the carrying entity are disabled. Duplicate actions are
/// permitted and collapse: disabling an action twice equals disabling it
/// once.
#[derive(Clone, Debug, PartialEq, Eq)]
pub struct ActionsDisabled {
    pub domain: u64,
    pub actions: Vec<u64>,
}

/// Relationship marker, held by a controller entity: every input state on
/// the target entity is disabled while this marker exists.
#[derive(Clone, Copy, Debug, PartialEq, Eq, Structural)]
pub struct DisablingAllActionStates {
    pub target: u64,
}

/// Relationship marker, held by a controller entity: the named domain's
/// input state on the target entity is disabled while this marker exists.
#[derive(Clone, Copy, Debug, PartialEq, Eq, Structural)]
pub struct DisablingActionState {
    pub domain: u64,
    pub target: u64,
}

/// Relationship marker, held by a controller entity: the listed actions of
/// the named domain on the target entity are disabled while this marker
/// exists.
#[derive(Clone, Debug, PartialEq, Eq)]
pub struct DisablingActions {
    pub domain: u64,
    pub to_disable: u64,
    pub actions_to_disable: Vec<u64>,
}

/// Ledger entry mirrored onto a target: the controllers currently holding
/// a `DisablingAllActionStates` marker aimed at it.
#[derive(Clone, Debug, PartialEq, Eq)]
pub struct AllActionStatesDisabledBy {
    pub controllers: Vec<u64>,
}

/// Ledger entry mirrored onto a target: the controllers currently holding
/// a `DisablingActionState` marker for this domain aimed at it.
#[derive(Clone, Debug, PartialEq, Eq)]
pub struct ActionStateDisabledBy {
    pub domain: u64,
    pub controllers: Vec<u64>,
}

/// Ledger entry mirrored onto a target: the controllers currently holding
/// a `DisablingActions` marker for this domain aimed at it.
#[derive(Clone, Debug, PartialEq, Eq)]
pub struct ActionsDisabledBy {
    pub domain: u64,
    pub disablers: Vec<u64>,
}

} // verus!
