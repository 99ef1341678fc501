//! The per-entity, per-domain input state whose enabled/disabled flags the
//! overlay derives. The overlay reads and writes it only through the
//! operations below; everything else about the input state is owned by its
//! host.

use crate::id_set::IdSet;
use vstd::prelude::*;

verus! {

/// One domain's input state: a whole-state disabled flag and the set of
/// individually disabled actions.
pub struct ActionState {
    pub disabled: bool,
    pub disabled_actions: IdSet,
}

impl ActionState {
    /// Representation invariant.
    pub open spec fn inv(&self) -> bool {
        self.disabled_actions.wf()
    }

    /// A fresh state: enabled, with every action enabled.
    pub fn new() -> (r: ActionState)
        ensures
            r.inv(),
            !r.disabled,
            r.disabled_actions@ == Set::<u64>::empty(),
    {
        ActionState { disabled: false, disabled_actions: IdSet::new() }
    }

    pub fn disable(&mut self)
        ensures
            final(self).disabled,
            final(self).disabled_actions == old(self).disabled_actions,
    {
        self.disabled = true;
    }

    pub fn enable(&mut self)
        ensures
            !final(self).disabled,
            final(self).disabled_actions == old(self).disabled_actions,
    {
        self.disabled = false;
    }

    pub fn disable_action(&mut self, a: u64)
        requires
            old(self).inv(),
        ensures
            final(self).inv(),
            final(self).disabled == old(self).disabled,
            final(self).disabled_actions@ == old(self).disabled_actions@.insert(a),
    {
        self.disabled_actions.insert(a);
    }

    pub fn enable_action(&mut self, a: u64)
        requires
            old(self).inv(),
        ensures
            final(self).inv(),
            final(self).disabled == old(self).disabled,
            final(self).disabled_actions@ == old(self).disabled_actions@.remove(a),
    {
        self.disabled_actions.remove(a);
    }

    pub fn is_disabled(&self) -> (r: bool)
        ensures
            r == self.disabled,
    {
        self.disabled
    }

    pub fn action_disabled(&self, a: u64) -> (r: bool)
        ensures
            r == self.disabled_actions@.contains(a),
    {
        self.disabled_actions.contains(a)
    }
}

} // verus!
