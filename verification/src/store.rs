//! The entity-component store of the overlay: every entity's record set,
//! the single mutation entry points for markers and relationships, and the
//! synchronous recomputation they trigger.
//!
//! The relationship ledger is kept in both directions — the controller
//! records its target, the target records its controllers — and every
//! mutation goes through one entry point that updates both sides together,
//! so the two can never diverge.

use crate::action_state::ActionState;
use crate::assoc::AssocMap;
use crate::engine::ControlledActions;
use crate::engine::EntityRecord;
use crate::engine::RemovedMarker;
use crate::engine::Trigger;
use crate::id_set::IdSet;
use crate::markers::ActionStateDisabled;
use crate::markers::ActionsDisabled;
use crate::markers::ActionStateDisabledBy;
use crate::markers::ActionsDisabledBy;
use crate::markers::AllActionStatesDisabled;
use crate::markers::AllActionStatesDisabledBy;
use crate::markers::DisablingActionState;
use crate::markers::DisablingActions;
use crate::markers::DisablingAllActionStates;
use vstd::prelude::*;

verus! {

/// The store: one record set per entity.
pub struct Store {
    pub entities: AssocMap<EntityRecord>,
}

impl Store {
    pub open spec fn has_entity(self, e: u64) -> bool {
        self.entities@.contains_key(e)
    }

    pub open spec fn rec(self, e: u64) -> EntityRecord {
        self.entities@[e]
    }

    /// `AllActionStatesDisabled` present on `e`.
    pub open spec fn has_unit_all(self, e: u64) -> bool {
        self.has_entity(e) && self.rec(e).unit_all
    }

    /// `ActionStateDisabled` for domain `d` present on `e`.
    pub open spec fn has_unit_state(self, e: u64, d: u64) -> bool {
        self.has_entity(e) && self.rec(e).unit_state@.contains(d)
    }

    /// `ActionsDisabled` for domain `d` present on `e`.
    pub open spec fn has_unit_actions(self, e: u64, d: u64) -> bool {
        self.has_entity(e) && self.rec(e).unit_actions@.contains_key(d)
    }

    /// The action set of `e`'s `ActionsDisabled` marker for domain `d`.
    pub open spec fn unit_actions_of(self, e: u64, d: u64) -> Set<u64> {
        if self.has_unit_actions(e, d) {
            self.rec(e).unit_actions@[d]@
        } else {
            Set::empty()
        }
    }

    /// The controllers disabling all of `e`'s states.
    pub open spec fn by_all_of(self, e: u64) -> Set<u64> {
        if self.has_entity(e) {
            self.rec(e).by_all@
        } else {
            Set::empty()
        }
    }

    /// The controllers disabling `e`'s state of domain `d`.
    pub open spec fn by_state_of(self, e: u64, d: u64) -> Set<u64> {
        if self.has_entity(e) && self.rec(e).by_state@.contains_key(d) {
            self.rec(e).by_state@[d]@
        } else {
            Set::empty()
        }
    }

    /// The controllers with actions recorded against `e`'s domain `d`.
    pub open spec fn by_actions_controllers(self, e: u64, d: u64) -> Set<u64> {
        if self.has_entity(e) && self.rec(e).by_actions@.contains_key(d) {
            self.rec(e).by_actions@[d]@.dom()
        } else {
            Set::empty()
        }
    }

    /// The actions controller `c` has recorded against `e`'s domain `d`.
    pub open spec fn by_actions_recorded(self, e: u64, d: u64, c: u64) -> Set<u64> {
        if self.has_entity(e) && self.rec(e).by_actions@.contains_key(d) && self.rec(
            e,
        ).by_actions@[d]@.contains_key(c) {
            self.rec(e).by_actions@[d]@[c]@
        } else {
            Set::empty()
        }
    }

    /// The target of `c`'s `DisablingAllActionStates` marker.
    pub open spec fn link_all_of(self, c: u64) -> Option<u64> {
        if self.has_entity(c) {
            self.rec(c).link_all
        } else {
            None
        }
    }

    /// The target of `c`'s `DisablingActionState` marker for domain `d`.
    pub open spec fn link_state_of(self, c: u64, d: u64) -> Option<u64> {
        if self.has_entity(c) && self.rec(c).link_state@.contains_key(d) {
            Some(self.rec(c).link_state@[d])
        } else {
            None
        }
    }

    /// The target of `c`'s `DisablingActions` marker for domain `d`.
    pub open spec fn link_actions_target(self, c: u64, d: u64) -> Option<u64> {
        if self.has_entity(c) && self.rec(c).link_actions@.contains_key(d) {
            Some(self.rec(c).link_actions@[d].target)
        } else {
            None
        }
    }

    /// The actions of `c`'s `DisablingActions` marker for domain `d`.
    pub open spec fn link_actions_recorded(self, c: u64, d: u64) -> Set<u64> {
        if self.has_entity(c) && self.rec(c).link_actions@.contains_key(d) {
            self.rec(c).link_actions@[d].actions@
        } else {
            Set::empty()
        }
    }

    /// An input state for domain `d` exists on `e`.
    pub open spec fn has_state(self, e: u64, d: u64) -> bool {
        self.has_entity(e) && self.rec(e).states@.contains_key(d)
    }

    /// The whole-state disabled flag of `e`'s input state for domain `d`.
    pub open spec fn state_disabled(self, e: u64, d: u64) -> bool {
        self.rec(e).states@[d].disabled
    }

    /// The disabled actions of `e`'s input state for domain `d`.
    pub open spec fn state_actions(self, e: u64, d: u64) -> Set<u64> {
        self.rec(e).states@[d].disabled_actions@
    }

    /// A `DisablingAllActionStates` marker exists on `c` exactly when its
    /// target's ledger entry lists `c`.
    pub open spec fn mirror_all(self) -> bool {
        forall|c: u64, t: u64|
            (self.link_all_of(c) == Some(t)) <==> #[trigger] self.by_all_of(t).contains(c)
    }

    /// A `DisablingActionState` marker exists on `c` exactly when its
    /// target's ledger entry for that domain lists `c`.
    pub open spec fn mirror_state(self) -> bool {
        forall|c: u64, d: u64, t: u64|
            (self.link_state_of(c, d) == Some(t)) <==> #[trigger] self.by_state_of(
                t,
                d,
            ).contains(c)
    }

    /// A `DisablingActions` marker exists on `c` exactly when its target's
    /// ledger entry for that domain records `c`, and both sides record the
    /// same action set.
    pub open spec fn mirror_actions(self) -> bool {
        &&& forall|c: u64, d: u64, t: u64|
            (self.link_actions_target(c, d) == Some(t)) <==> #[trigger] self.by_actions_controllers(
                t,
                d,
            ).contains(c)
        &&& forall|c: u64, d: u64, t: u64|
            self.link_actions_target(c, d) == Some(t) ==> #[trigger] self.by_actions_recorded(
                t,
                d,
                c,
            ) == self.link_actions_recorded(c, d)
    }

    /// The store invariant: every record is well formed and synced, and
    /// the relationship ledger mirrors the controller-side markers.
    pub open spec fn wf(self) -> bool {
        &&& self.entities.wf()
        &&& forall|e: u64| #[trigger]
            self.entities@.contains_key(e) ==> self.entities@[e].markers_wf()
                && self.entities@[e].states_wf() && self.entities@[e].synced()
        &&& self.mirror_all()
        &&& self.mirror_state()
        &&& self.mirror_actions()
    }

    /// An empty store.
    pub fn new() -> (r: Store)
        ensures
            r.wf(),
            forall|e: u64| !r.has_entity(e),
    {
        Store { entities: AssocMap::new() }
    }

    /// Takes `e`'s record out of the store, or a fresh empty one.
    fn take_record(&mut self, e: u64) -> (r: EntityRecord)
        requires
            old(self).entities.wf(),
            forall|x: u64| #[trigger]
                old(self).entities@.contains_key(x) ==> old(self).entities@[x].markers_wf()
                    && old(self).entities@[x].states_wf(),
        ensures
            final(self).entities.wf(),
            final(self).entities@ == old(self).entities@.remove(e),
            r.markers_wf(),
            r.states_wf(),
            old(self).has_entity(e) ==> r == old(self).rec(e),
            !old(self).has_entity(e) ==> {
                &&& r.synced()
                &&& !r.unit_all
                &&& r.unit_state@ == Set::<u64>::empty()
                &&& r.unit_actions@ == Map::<u64, IdSet>::empty()
                &&& r.by_all@ == Set::<u64>::empty()
                &&& r.by_state@ == Map::<u64, IdSet>::empty()
                &&& r.by_actions@ == Map::<u64, AssocMap<IdSet>>::empty()
                &&& r.link_all is None
                &&& r.link_state@ == Map::<u64, u64>::empty()
                &&& r.link_actions@ == Map::<u64, ControlledActions>::empty()
                &&& r.states@ == Map::<u64, ActionState>::empty()
            },
    {
        match self.entities.take_entry(e) {
            Some(r) => r,
            None => {
                proof {
                    assert(old(self).entities@.remove(e) =~= old(self).entities@);
                }
                EntityRecord::empty()
            },
        }
    }
}


/// Controller-side and target-side observations unchanged keep the
/// whole-entity mirror.
pub proof fn lemma_mirror_all_preserved(s1: Store, s2: Store)
    requires
        s1.mirror_all(),
        forall|c: u64| #![trigger s2.link_all_of(c)] s2.link_all_of(c) == s1.link_all_of(c),
        forall|t: u64| #![trigger s2.by_all_of(t)] s2.by_all_of(t) == s1.by_all_of(t),
    ensures
        s2.mirror_all(),
{
    assert forall|c: u64, t: u64|
        (s2.link_all_of(c) == Some(t)) <==> #[trigger] s2.by_all_of(t).contains(c) by {
        assert(s1.by_all_of(t).contains(c) <==> (s1.link_all_of(c) == Some(t)));
        assert(s2.by_all_of(t) == s1.by_all_of(t));
        assert(s2.link_all_of(c) == s1.link_all_of(c));
    }
}

/// Controller-side and target-side observations unchanged keep the
/// per-domain state mirror.
pub proof fn lemma_mirror_state_preserved(s1: Store, s2: Store)
    requires
        s1.mirror_state(),
        forall|c: u64, d: u64| #![trigger s2.link_state_of(c, d)]
            s2.link_state_of(c, d) == s1.link_state_of(c, d),
        forall|t: u64, d: u64| #![trigger s2.by_state_of(t, d)]
            s2.by_state_of(t, d) == s1.by_state_of(t, d),
    ensures
        s2.mirror_state(),
{
    assert forall|c: u64, d: u64, t: u64|
        (s2.link_state_of(c, d) == Some(t)) <==> #[trigger] s2.by_state_of(t, d).contains(
        c,
    ) by {
        assert(s1.by_state_of(t, d).contains(c) <==> (s1.link_state_of(c, d) == Some(t)));
        assert(s2.by_state_of(t, d) == s1.by_state_of(t, d));
        assert(s2.link_state_of(c, d) == s1.link_state_of(c, d));
    }
}

/// Controller-side and target-side observations unchanged keep the
/// action-subset mirror.
pub proof fn lemma_mirror_actions_preserved(s1: Store, s2: Store)
    requires
        s1.mirror_actions(),
        forall|c: u64, d: u64| #![trigger s2.link_actions_target(c, d)]
            s2.link_actions_target(c, d) == s1.link_actions_target(c, d),
        forall|c: u64, d: u64| #![trigger s2.link_actions_recorded(c, d)]
            s2.link_actions_recorded(c, d) == s1.link_actions_recorded(c, d),
        forall|t: u64, d: u64| #![trigger s2.by_actions_controllers(t, d)]
            s2.by_actions_controllers(t, d) == s1.by_actions_controllers(t, d),
        forall|t: u64, d: u64, c: u64| #![trigger s2.by_actions_recorded(t, d, c)]
            s2.by_actions_recorded(t, d, c) == s1.by_actions_recorded(t, d, c),
    ensures
        s2.mirror_actions(),
{
    assert forall|c: u64, d: u64, t: u64|
        (s2.link_actions_target(c, d) == Some(t)) <==> #[trigger] s2.by_actions_controllers(
        t,
        d,
    ).contains(c) by {
        assert(s1.by_actions_controllers(t, d).contains(c) <==> (s1.link_actions_target(c, d)
            == Some(t)));
        assert(s2.by_actions_controllers(t, d) == s1.by_actions_controllers(t, d));
        assert(s2.link_actions_target(c, d) == s1.link_actions_target(c, d));
    }
    assert forall|c: u64, d: u64, t: u64|
        s2.link_actions_target(c, d) == Some(t) implies #[trigger] s2.by_actions_recorded(
        t,
        d,
        c,
    ) == s2.link_actions_recorded(c, d) by {
        assert(s1.link_actions_target(c, d) == Some(t) ==> s1.by_actions_recorded(t, d, c)
            == s1.link_actions_recorded(c, d));
        assert(s2.by_actions_recorded(t, d, c) == s1.by_actions_recorded(t, d, c));
    }
}

impl Store {
    /// Inserts the `AllActionStatesDisabled` unit marker on `e` and
    /// recomputes every input state on `e`.
    pub fn insert_all_states_disabled(&mut self, e: u64, m: AllActionStatesDisabled)
        requires
            old(self).wf(),
        ensures
            final(self).wf(),
            forall|x: u64| #![trigger final(self).has_unit_all(x)]
                final(self).has_unit_all(x) == (old(self).has_unit_all(x) || x == e),
            forall|x: u64| #![trigger final(self).has_entity(x)]
                final(self).has_entity(x) == (old(self).has_entity(x) || x == e),
            forall|x: u64, d: u64| #![trigger final(self).has_unit_state(x, d)]
                final(self).has_unit_state(x, d) == old(self).has_unit_state(x, d),
            forall|x: u64, d: u64| #![trigger final(self).has_unit_actions(x, d)]
                final(self).has_unit_actions(x, d) == old(self).has_unit_actions(x, d),
            forall|x: u64, d: u64| #![trigger final(self).unit_actions_of(x, d)]
                final(self).unit_actions_of(x, d) == old(self).unit_actions_of(x, d),
            forall|x: u64| #![trigger final(self).by_all_of(x)]
                final(self).by_all_of(x) == old(self).by_all_of(x),
            forall|x: u64, d: u64| #![trigger final(self).by_state_of(x, d)]
                final(self).by_state_of(x, d) == old(self).by_state_of(x, d),
            forall|x: u64, d: u64| #![trigger final(self).by_actions_controllers(x, d)]
                final(self).by_actions_controllers(x, d) == old(self).by_actions_controllers(
                    x,
                    d,
                ),
            forall|x: u64, d: u64, c: u64| #![trigger final(self).by_actions_recorded(x, d, c)]
                final(self).by_actions_recorded(x, d, c) == old(self).by_actions_recorded(
                    x,
                    d,
                    c,
                ),
            forall|x: u64| #![trigger final(self).link_all_of(x)]
                final(self).link_all_of(x) == old(self).link_all_of(x),
            forall|x: u64, d: u64| #![trigger final(self).link_state_of(x, d)]
                final(self).link_state_of(x, d) == old(self).link_state_of(x, d),
            forall|x: u64, d: u64| #![trigger final(self).link_actions_target(x, d)]
                final(self).link_actions_target(x, d) == old(self).link_actions_target(x, d),
            forall|x: u64, d: u64| #![trigger final(self).link_actions_recorded(x, d)]
                final(self).link_actions_recorded(x, d) == old(self).link_actions_recorded(
                    x,
                    d,
                ),
            forall|x: u64, d: u64| #![trigger final(self).has_state(x, d)]
                final(self).has_state(x, d) == old(self).has_state(x, d),
    {
        let _ = m;
        let mut r = self.take_record(e);
        r.unit_all = true;
        r.recompute_entity(Trigger::Settled);
        let ghost rf = r;
        self.entities.insert(e, r);
        proof {
            let s1 = *old(self);
            let s2 = *self;
            assert(s2.entities@ == s1.entities@.remove(e).insert(e, rf));
            assert forall|x: u64| #[trigger]
                s2.entities@.contains_key(x) implies s2.entities@[x].markers_wf()
                && s2.entities@[x].states_wf() && s2.entities@[x].synced() by {
                if x == e {
                    assert(s2.entities@[x] == rf);
                    assert(rf.markers_wf());
                    assert forall|d: u64| #[trigger]
                        rf.states@.contains_key(d) implies rf.states@[d].disabled
                        == rf.spec_should_disable(d, Trigger::Settled)
                        && rf.states@[d].disabled_actions@ == rf.spec_disabled_actions(
                        d,
                        Trigger::Settled,
                    ) by {}
                } else {
                    assert(s2.entities@[x] == s1.entities@[x]);
                }
            }
            lemma_mirror_all_preserved(s1, s2);
            lemma_mirror_state_preserved(s1, s2);
            lemma_mirror_actions_preserved(s1, s2);
        }
    }
}

impl Store {
    /// Removes the `AllActionStatesDisabled` unit marker from `e`,
    /// recomputing first with the marker named as excluded, as the
    /// pre-removal hook timing requires. Removing an absent marker is a
    /// no-op.
    pub fn remove_all_states_disabled(&mut self, e: u64)
        requires
            old(self).wf(),
        ensures
            final(self).wf(),
            forall|x: u64| #![trigger final(self).has_unit_all(x)]
                final(self).has_unit_all(x) == (old(self).has_unit_all(x) && x != e),
            forall|x: u64| #![trigger final(self).has_entity(x)]
                final(self).has_entity(x) == old(self).has_entity(x),
            forall|x: u64, d: u64| #![trigger final(self).has_unit_state(x, d)]
                final(self).has_unit_state(x, d) == old(self).has_unit_state(x, d),
            forall|x: u64, d: u64| #![trigger final(self).has_unit_actions(x, d)]
                final(self).has_unit_actions(x, d) == old(self).has_unit_actions(x, d),
            forall|x: u64, d: u64| #![trigger final(self).unit_actions_of(x, d)]
                final(self).unit_actions_of(x, d) == old(self).unit_actions_of(x, d),
            forall|x: u64| #![trigger final(self).by_all_of(x)]
                final(self).by_all_of(x) == old(self).by_all_of(x),
            forall|x: u64, d: u64| #![trigger final(self).by_state_of(x, d)]
                final(self).by_state_of(x, d) == old(self).by_state_of(x, d),
            forall|x: u64, d: u64| #![trigger final(self).by_actions_controllers(x, d)]
                final(self).by_actions_controllers(x, d) == old(self).by_actions_controllers(x, d),
            forall|x: u64, d: u64, c: u64| #![trigger final(self).by_actions_recorded(x, d, c)]
                final(self).by_actions_recorded(x, d, c) == old(self).by_actions_recorded(x, d, c),
            forall|x: u64| #![trigger final(self).link_all_of(x)]
                final(self).link_all_of(x) == old(self).link_all_of(x),
            forall|x: u64, d: u64| #![trigger final(self).link_state_of(x, d)]
                final(self).link_state_of(x, d) == old(self).link_state_of(x, d),
            forall|x: u64, d: u64| #![trigger final(self).link_actions_target(x, d)]
                final(self).link_actions_target(x, d) == old(self).link_actions_target(x, d),
            forall|x: u64, d: u64| #![trigger final(self).link_actions_recorded(x, d)]
                final(self).link_actions_recorded(x, d) == old(self).link_actions_recorded(x, d),
            forall|x: u64, d: u64| #![trigger final(self).has_state(x, d)]
                final(self).has_state(x, d) == old(self).has_state(x, d),
    {
        let present = match self.entities.get(e) {
            Some(r0) => r0.unit_all,
            None => false,
        };
        if !present {
            return ;
        }
        let mut r = self.take_record(e);
        let ghost r0 = r;
        r.recompute_entity(Trigger::Removing(RemovedMarker::UnitAll));
        r.unit_all = false;
        let ghost rf = r;
        self.entities.insert(e, r);
        proof {
            let s1 = *old(self);
            let s2 = *self;
            assert(s2.entities@ == s1.entities@.remove(e).insert(e, rf));
            assert forall|x: u64| #[trigger]
                s2.entities@.contains_key(x) implies s2.entities@[x].markers_wf()
                && s2.entities@[x].states_wf() && s2.entities@[x].synced() by {
                if x == e {
                    assert(s2.entities@[x] == rf);
                    assert forall|d: u64| #[trigger]
                        rf.states@.contains_key(d) implies rf.states@[d].disabled
                        == rf.spec_should_disable(d, Trigger::Settled)
                        && rf.states@[d].disabled_actions@ == rf.spec_disabled_actions(
                        d,
                        Trigger::Settled,
                    ) by {
                        assert(rf.spec_should_disable(d, Trigger::Settled)
                            == r0.spec_should_disable(
                            d,
                            Trigger::Removing(RemovedMarker::UnitAll),
                        ));
                        assert(rf.spec_disabled_actions(d, Trigger::Settled)
                            =~= r0.spec_disabled_actions(
                            d,
                            Trigger::Removing(RemovedMarker::UnitAll),
                        ));
                    }
                } else {
                    assert(s2.entities@[x] == s1.entities@[x]);
                }
            }
            lemma_mirror_all_preserved(s1, s2);
            lemma_mirror_state_preserved(s1, s2);
            lemma_mirror_actions_preserved(s1, s2);
        }
    }

    /// Inserts the `ActionStateDisabled` unit marker for its domain on `e`
    /// and recomputes.
    pub fn insert_state_disabled(&mut self, e: u64, m: ActionStateDisabled)
        requires
            old(self).wf(),
        ensures
            final(self).wf(),
            forall|x: u64, d: u64| #![trigger final(self).has_unit_state(x, d)]
                final(self).has_unit_state(x, d) == (old(self).has_unit_state(x, d) || (x == e && d == m.domain)),
            forall|x: u64| #![trigger final(self).has_entity(x)]
                final(self).has_entity(x) == (old(self).has_entity(x) || x == e),
            forall|x: u64| #![trigger final(self).has_unit_all(x)]
                final(self).has_unit_all(x) == old(self).has_unit_all(x),
            forall|x: u64, d: u64| #![trigger final(self).has_unit_actions(x, d)]
                final(self).has_unit_actions(x, d) == old(self).has_unit_actions(x, d),
            forall|x: u64, d: u64| #![trigger final(self).unit_actions_of(x, d)]
                final(self).unit_actions_of(x, d) == old(self).unit_actions_of(x, d),
            forall|x: u64| #![trigger final(self).by_all_of(x)]
                final(self).by_all_of(x) == old(self).by_all_of(x),
            forall|x: u64, d: u64| #![trigger final(self).by_state_of(x, d)]
                final(self).by_state_of(x, d) == old(self).by_state_of(x, d),
            forall|x: u64, d: u64| #![trigger final(self).by_actions_controllers(x, d)]
                final(self).by_actions_controllers(x, d) == old(self).by_actions_controllers(x, d),
            forall|x: u64, d: u64, c: u64| #![trigger final(self).by_actions_recorded(x, d, c)]
                final(self).by_actions_recorded(x, d, c) == old(self).by_actions_recorded(x, d, c),
            forall|x: u64| #![trigger final(self).link_all_of(x)]
                final(self).link_all_of(x) == old(self).link_all_of(x),
            forall|x: u64, d: u64| #![trigger final(self).link_state_of(x, d)]
                final(self).link_state_of(x, d) == old(self).link_state_of(x, d),
            forall|x: u64, d: u64| #![trigger final(self).link_actions_target(x, d)]
                final(self).link_actions_target(x, d) == old(self).link_actions_target(x, d),
            forall|x: u64, d: u64| #![trigger final(self).link_actions_recorded(x, d)]
                final(self).link_actions_recorded(x, d) == old(self).link_actions_recorded(x, d),
            forall|x: u64, d: u64| #![trigger final(self).has_state(x, d)]
                final(self).has_state(x, d) == old(self).has_state(x, d),
    {
        let mut r = self.take_record(e);
        r.unit_state.insert(m.domain);
        r.recompute_entity(Trigger::Settled);
        let ghost rf = r;
        self.entities.insert(e, r);
        proof {
            let s1 = *old(self);
            let s2 = *self;
            assert(s2.entities@ == s1.entities@.remove(e).insert(e, rf));
            assert forall|x: u64| #[trigger]
                s2.entities@.contains_key(x) implies s2.entities@[x].markers_wf()
                && s2.entities@[x].states_wf() && s2.entities@[x].synced() by {
                if x == e {
                    assert(s2.entities@[x] == rf);
                } else {
                    assert(s2.entities@[x] == s1.entities@[x]);
                }
            }
            lemma_mirror_all_preserved(s1, s2);
            lemma_mirror_state_preserved(s1, s2);
            lemma_mirror_actions_preserved(s1, s2);
        }
    }

    /// Removes the `ActionStateDisabled` unit marker for domain `d0` from
    /// `e`, recomputing first with the marker named as excluded. Removing
    /// an absent marker is a no-op.
    pub fn remove_state_disabled(&mut self, e: u64, d0: u64)
        requires
            old(self).wf(),
        ensures
            final(self).wf(),
            forall|x: u64, d: u64| #![trigger final(self).has_unit_state(x, d)]
                final(self).has_unit_state(x, d) == (old(self).has_unit_state(x, d) && !(x == e && d == d0)),
            forall|x: u64| #![trigger final(self).has_unit_all(x)]
                final(self).has_unit_all(x) == old(self).has_unit_all(x),
            forall|x: u64| #![trigger final(self).has_entity(x)]
                final(self).has_entity(x) == old(self).has_entity(x),
            forall|x: u64, d: u64| #![trigger final(self).has_unit_actions(x, d)]
                final(self).has_unit_actions(x, d) == old(self).has_unit_actions(x, d),
            forall|x: u64, d: u64| #![trigger final(self).unit_actions_of(x, d)]
                final(self).unit_actions_of(x, d) == old(self).unit_actions_of(x, d),
            forall|x: u64| #![trigger final(self).by_all_of(x)]
                final(self).by_all_of(x) == old(self).by_all_of(x),
            forall|x: u64, d: u64| #![trigger final(self).by_state_of(x, d)]
                final(self).by_state_of(x, d) == old(self).by_state_of(x, d),
            forall|x: u64, d: u64| #![trigger final(self).by_actions_controllers(x, d)]
                final(self).by_actions_controllers(x, d) == old(self).by_actions_controllers(x, d),
            forall|x: u64, d: u64, c: u64| #![trigger final(self).by_actions_recorded(x, d, c)]
                final(self).by_actions_recorded(x, d, c) == old(self).by_actions_recorded(x, d, c),
            forall|x: u64| #![trigger final(self).link_all_of(x)]
                final(self).link_all_of(x) == old(self).link_all_of(x),
            forall|x: u64, d: u64| #![trigger final(self).link_state_of(x, d)]
                final(self).link_state_of(x, d) == old(self).link_state_of(x, d),
            forall|x: u64, d: u64| #![trigger final(self).link_actions_target(x, d)]
                final(self).link_actions_target(x, d) == old(self).link_actions_target(x, d),
            forall|x: u64, d: u64| #![trigger final(self).link_actions_recorded(x, d)]
                final(self).link_actions_recorded(x, d) == old(self).link_actions_recorded(x, d),
            forall|x: u64, d: u64| #![trigger final(self).has_state(x, d)]
                final(self).has_state(x, d) == old(self).has_state(x, d),
    {
        let present = match self.entities.get(e) {
            Some(r0) => r0.unit_state.contains(d0),
            None => false,
        };
        if !present {
            return ;
        }
        let mut r = self.take_record(e);
        let ghost r0 = r;
        r.recompute_entity(Trigger::Removing(RemovedMarker::UnitState(d0)));
        r.unit_state.remove(d0);
        let ghost rf = r;
        self.entities.insert(e, r);
        proof {
            let s1 = *old(self);
            let s2 = *self;
            assert(s2.entities@ == s1.entities@.remove(e).insert(e, rf));
            assert forall|x: u64| #[trigger]
                s2.entities@.contains_key(x) implies s2.entities@[x].markers_wf()
                && s2.entities@[x].states_wf() && s2.entities@[x].synced() by {
                if x == e {
                    assert(s2.entities@[x] == rf);
                    assert forall|d: u64| #[trigger]
                        rf.states@.contains_key(d) implies rf.states@[d].disabled
                        == rf.spec_should_disable(d, Trigger::Settled)
                        && rf.states@[d].disabled_actions@ == rf.spec_disabled_actions(
                        d,
                        Trigger::Settled,
                    ) by {
                        assert(rf.spec_should_disable(d, Trigger::Settled)
                            == r0.spec_should_disable(
                            d,
                            Trigger::Removing(RemovedMarker::UnitState(d0)),
                        ));
                        assert(rf.spec_disabled_actions(d, Trigger::Settled)
                            =~= r0.spec_disabled_actions(
                            d,
                            Trigger::Removing(RemovedMarker::UnitState(d0)),
                        ));
                    }
                } else {
                    assert(s2.entities@[x] == s1.entities@[x]);
                }
            }
            lemma_mirror_all_preserved(s1, s2);
            lemma_mirror_state_preserved(s1, s2);
            lemma_mirror_actions_preserved(s1, s2);
        }
    }

    /// Inserts the `ActionsDisabled` unit marker for its domain on `e` —
    /// duplicates in the action list collapse — and recomputes.
    pub fn insert_actions_disabled(&mut self, e: u64, m: ActionsDisabled)
        requires
            old(self).wf(),
        ensures
            final(self).wf(),
            forall|x: u64, d: u64| #![trigger final(self).has_unit_actions(x, d)]
                final(self).has_unit_actions(x, d) == (old(self).has_unit_actions(x, d) || (x == e && d == m.domain)),
            forall|x: u64, d: u64| #![trigger final(self).unit_actions_of(x, d)]
                final(self).unit_actions_of(x, d) == (if x == e && d == m.domain { m.actions@.to_set() } else { old(self).unit_actions_of(x, d) }),
            forall|x: u64| #![trigger final(self).has_entity(x)]
                final(self).has_entity(x) == (old(self).has_entity(x) || x == e),
            forall|x: u64| #![trigger final(self).has_unit_all(x)]
                final(self).has_unit_all(x) == old(self).has_unit_all(x),
            forall|x: u64, d: u64| #![trigger final(self).has_unit_state(x, d)]
                final(self).has_unit_state(x, d) == old(self).has_unit_state(x, d),
            forall|x: u64| #![trigger final(self).by_all_of(x)]
                final(self).by_all_of(x) == old(self).by_all_of(x),
            forall|x: u64, d: u64| #![trigger final(self).by_state_of(x, d)]
                final(self).by_state_of(x, d) == old(self).by_state_of(x, d),
            forall|x: u64, d: u64| #![trigger final(self).by_actions_controllers(x, d)]
                final(self).by_actions_controllers(x, d) == old(self).by_actions_controllers(x, d),
            forall|x: u64, d: u64, c: u64| #![trigger final(self).by_actions_recorded(x, d, c)]
                final(self).by_actions_recorded(x, d, c) == old(self).by_actions_recorded(x, d, c),
            forall|x: u64| #![trigger final(self).link_all_of(x)]
                final(self).link_all_of(x) == old(self).link_all_of(x),
            forall|x: u64, d: u64| #![trigger final(self).link_state_of(x, d)]
                final(self).link_state_of(x, d) == old(self).link_state_of(x, d),
            forall|x: u64, d: u64| #![trigger final(self).link_actions_target(x, d)]
                final(self).link_actions_target(x, d) == old(self).link_actions_target(x, d),
            forall|x: u64, d: u64| #![trigger final(self).link_actions_recorded(x, d)]
                final(self).link_actions_recorded(x, d) == old(self).link_actions_recorded(x, d),
            forall|x: u64, d: u64| #![trigger final(self).has_state(x, d)]
                final(self).has_state(x, d) == old(self).has_state(x, d),
    {
        let acts = IdSet::from_vec(&m.actions);
        let mut r = self.take_record(e);
        r.unit_actions.insert(m.domain, acts);
        r.recompute_entity(Trigger::Settled);
        let ghost rf = r;
        self.entities.insert(e, r);
        proof {
            let s1 = *old(self);
            let s2 = *self;
            assert(s2.entities@ == s1.entities@.remove(e).insert(e, rf));
            assert forall|x: u64| #[trigger]
                s2.entities@.contains_key(x) implies s2.entities@[x].markers_wf()
                && s2.entities@[x].states_wf() && s2.entities@[x].synced() by {
                if x == e {
                    assert(s2.entities@[x] == rf);
                } else {
                    assert(s2.entities@[x] == s1.entities@[x]);
                }
            }
            lemma_mirror_all_preserved(s1, s2);
            lemma_mirror_state_preserved(s1, s2);
            lemma_mirror_actions_preserved(s1, s2);
        }
    }

    /// Removes the `ActionsDisabled` unit marker for domain `d0` from `e`,
    /// recomputing first with the marker named as excluded. Removing an
    /// absent marker is a no-op.
    pub fn remove_actions_disabled(&mut self, e: u64, d0: u64)
        requires
            old(self).wf(),
        ensures
            final(self).wf(),
            forall|x: u64, d: u64| #![trigger final(self).has_unit_actions(x, d)]
                final(self).has_unit_actions(x, d) == (old(self).has_unit_actions(x, d) && !(x == e && d == d0)),
            forall|x: u64, d: u64| #![trigger final(self).unit_actions_of(x, d)]
                final(self).unit_actions_of(x, d) == (if x == e && d == d0 { Set::<u64>::empty() } else { old(self).unit_actions_of(x, d) }),
            forall|x: u64| #![trigger final(self).has_unit_all(x)]
                final(self).has_unit_all(x) == old(self).has_unit_all(x),
            forall|x: u64| #![trigger final(self).has_entity(x)]
                final(self).has_entity(x) == old(self).has_entity(x),
            forall|x: u64, d: u64| #![trigger final(self).has_unit_state(x, d)]
                final(self).has_unit_state(x, d) == old(self).has_unit_state(x, d),
            forall|x: u64| #![trigger final(self).by_all_of(x)]
                final(self).by_all_of(x) == old(self).by_all_of(x),
            forall|x: u64, d: u64| #![trigger final(self).by_state_of(x, d)]
                final(self).by_state_of(x, d) == old(self).by_state_of(x, d),
            forall|x: u64, d: u64| #![trigger final(self).by_actions_controllers(x, d)]
                final(self).by_actions_controllers(x, d) == old(self).by_actions_controllers(x, d),
            forall|x: u64, d: u64, c: u64| #![trigger final(self).by_actions_recorded(x, d, c)]
                final(self).by_actions_recorded(x, d, c) == old(self).by_actions_recorded(x, d, c),
            forall|x: u64| #![trigger final(self).link_all_of(x)]
                final(self).link_all_of(x) == old(self).link_all_of(x),
            forall|x: u64, d: u64| #![trigger final(self).link_state_of(x, d)]
                final(self).link_state_of(x, d) == old(self).link_state_of(x, d),
            forall|x: u64, d: u64| #![trigger final(self).link_actions_target(x, d)]
                final(self).link_actions_target(x, d) == old(self).link_actions_target(x, d),
            forall|x: u64, d: u64| #![trigger final(self).link_actions_recorded(x, d)]
                final(self).link_actions_recorded(x, d) == old(self).link_actions_recorded(x, d),
            forall|x: u64, d: u64| #![trigger final(self).has_state(x, d)]
                final(self).has_state(x, d) == old(self).has_state(x, d),
    {
        let present = match self.entities.get(e) {
            Some(r0) => r0.unit_actions.contains_key(d0),
            None => false,
        };
        if !present {
            return ;
        }
        let mut r = self.take_record(e);
        let ghost r0 = r;
        r.recompute_entity(Trigger::Removing(RemovedMarker::UnitActions(d0)));
        r.unit_actions.take_entry(d0);
        let ghost rf = r;
        self.entities.insert(e, r);
        proof {
            let s1 = *old(self);
            let s2 = *self;
            assert(s2.entities@ == s1.entities@.remove(e).insert(e, rf));
            assert forall|x: u64| #[trigger]
                s2.entities@.contains_key(x) implies s2.entities@[x].markers_wf()
                && s2.entities@[x].states_wf() && s2.entities@[x].synced() by {
                if x == e {
                    assert(s2.entities@[x] == rf);
                    assert forall|d: u64| #[trigger]
                        rf.states@.contains_key(d) implies rf.states@[d].disabled
                        == rf.spec_should_disable(d, Trigger::Settled)
                        && rf.states@[d].disabled_actions@ == rf.spec_disabled_actions(
                        d,
                        Trigger::Settled,
                    ) by {
                        assert(rf.spec_should_disable(d, Trigger::Settled)
                            == r0.spec_should_disable(
                            d,
                            Trigger::Removing(RemovedMarker::UnitActions(d0)),
                        ));
                        assert(rf.spec_disabled_actions(d, Trigger::Settled)
                            =~= r0.spec_disabled_actions(
                            d,
                            Trigger::Removing(RemovedMarker::UnitActions(d0)),
                        ));
                    }
                } else {
                    assert(s2.entities@[x] == s1.entities@[x]);
                }
            }
            lemma_mirror_all_preserved(s1, s2);
            lemma_mirror_state_preserved(s1, s2);
            lemma_mirror_actions_preserved(s1, s2);
        }
    }

    /// Inserts a fresh, fully enabled input state for domain `d0` on `e`,
    /// then recomputes: markers already present take effect immediately.
    pub fn insert_action_state(&mut self, e: u64, d0: u64)
        requires
            old(self).wf(),
        ensures
            final(self).wf(),
            forall|x: u64, d: u64| #![trigger final(self).has_state(x, d)]
                final(self).has_state(x, d) == (old(self).has_state(x, d) || (x == e && d == d0)),
            forall|x: u64| #![trigger final(self).has_entity(x)]
                final(self).has_entity(x) == (old(self).has_entity(x) || x == e),
            forall|x: u64| #![trigger final(self).has_unit_all(x)]
                final(self).has_unit_all(x) == old(self).has_unit_all(x),
            forall|x: u64, d: u64| #![trigger final(self).has_unit_state(x, d)]
                final(self).has_unit_state(x, d) == old(self).has_unit_state(x, d),
            forall|x: u64, d: u64| #![trigger final(self).has_unit_actions(x, d)]
                final(self).has_unit_actions(x, d) == old(self).has_unit_actions(x, d),
            forall|x: u64, d: u64| #![trigger final(self).unit_actions_of(x, d)]
                final(self).unit_actions_of(x, d) == old(self).unit_actions_of(x, d),
            forall|x: u64| #![trigger final(self).by_all_of(x)]
                final(self).by_all_of(x) == old(self).by_all_of(x),
            forall|x: u64, d: u64| #![trigger final(self).by_state_of(x, d)]
                final(self).by_state_of(x, d) == old(self).by_state_of(x, d),
            forall|x: u64, d: u64| #![trigger final(self).by_actions_controllers(x, d)]
                final(self).by_actions_controllers(x, d) == old(self).by_actions_controllers(x, d),
            forall|x: u64, d: u64, c: u64| #![trigger final(self).by_actions_recorded(x, d, c)]
                final(self).by_actions_recorded(x, d, c) == old(self).by_actions_recorded(x, d, c),
            forall|x: u64| #![trigger final(self).link_all_of(x)]
                final(self).link_all_of(x) == old(self).link_all_of(x),
            forall|x: u64, d: u64| #![trigger final(self).link_state_of(x, d)]
                final(self).link_state_of(x, d) == old(self).link_state_of(x, d),
            forall|x: u64, d: u64| #![trigger final(self).link_actions_target(x, d)]
                final(self).link_actions_target(x, d) == old(self).link_actions_target(x, d),
            forall|x: u64, d: u64| #![trigger final(self).link_actions_recorded(x, d)]
                final(self).link_actions_recorded(x, d) == old(self).link_actions_recorded(x, d),
    {
        let mut r = self.take_record(e);
        r.states.insert(d0, ActionState::new());
        proof {
            assert forall|d: u64| #[trigger]
                r.states@.contains_key(d) implies r.states@[d].inv() by {
                if d != d0 {
                    assert(r.states@[d] == old(self).entities@[e].states@[d]);
                }
            }
        }
        r.recompute_entity(Trigger::Settled);
        let ghost rf = r;
        self.entities.insert(e, r);
        proof {
            let s1 = *old(self);
            let s2 = *self;
            assert(s2.entities@ == s1.entities@.remove(e).insert(e, rf));
            assert forall|x: u64| #[trigger]
                s2.entities@.contains_key(x) implies s2.entities@[x].markers_wf()
                && s2.entities@[x].states_wf() && s2.entities@[x].synced() by {
                if x == e {
                    assert(s2.entities@[x] == rf);
                } else {
                    assert(s2.entities@[x] == s1.entities@[x]);
                }
            }
            lemma_mirror_all_preserved(s1, s2);
            lemma_mirror_state_preserved(s1, s2);
            lemma_mirror_actions_preserved(s1, s2);
        }
    }

    /// Removes the input state for domain `d0` from `e`; the markers stay
    /// and take effect again if a state is later inserted. Removing an
    /// absent state is a no-op.
    pub fn remove_action_state(&mut self, e: u64, d0: u64)
        requires
            old(self).wf(),
        ensures
            final(self).wf(),
            forall|x: u64, d: u64| #![trigger final(self).has_state(x, d)]
                final(self).has_state(x, d) == (old(self).has_state(x, d) && !(x == e && d == d0)),
            forall|x: u64| #![trigger final(self).has_unit_all(x)]
                final(self).has_unit_all(x) == old(self).has_unit_all(x),
            forall|x: u64| #![trigger final(self).has_entity(x)]
                final(self).has_entity(x) == old(self).has_entity(x),
            forall|x: u64, d: u64| #![trigger final(self).has_unit_state(x, d)]
                final(self).has_unit_state(x, d) == old(self).has_unit_state(x, d),
            forall|x: u64, d: u64| #![trigger final(self).has_unit_actions(x, d)]
                final(self).has_unit_actions(x, d) == old(self).has_unit_actions(x, d),
            forall|x: u64, d: u64| #![trigger final(self).unit_actions_of(x, d)]
                final(self).unit_actions_of(x, d) == old(self).unit_actions_of(x, d),
            forall|x: u64| #![trigger final(self).by_all_of(x)]
                final(self).by_all_of(x) == old(self).by_all_of(x),
            forall|x: u64, d: u64| #![trigger final(self).by_state_of(x, d)]
                final(self).by_state_of(x, d) == old(self).by_state_of(x, d),
            forall|x: u64, d: u64| #![trigger final(self).by_actions_controllers(x, d)]
                final(self).by_actions_controllers(x, d) == old(self).by_actions_controllers(x, d),
            forall|x: u64, d: u64, c: u64| #![trigger final(self).by_actions_recorded(x, d, c)]
                final(self).by_actions_recorded(x, d, c) == old(self).by_actions_recorded(x, d, c),
            forall|x: u64| #![trigger final(self).link_all_of(x)]
                final(self).link_all_of(x) == old(self).link_all_of(x),
            forall|x: u64, d: u64| #![trigger final(self).link_state_of(x, d)]
                final(self).link_state_of(x, d) == old(self).link_state_of(x, d),
            forall|x: u64, d: u64| #![trigger final(self).link_actions_target(x, d)]
                final(self).link_actions_target(x, d) == old(self).link_actions_target(x, d),
            forall|x: u64, d: u64| #![trigger final(self).link_actions_recorded(x, d)]
                final(self).link_actions_recorded(x, d) == old(self).link_actions_recorded(x, d),
    {
        let present = match self.entities.get(e) {
            Some(r0) => r0.states.contains_key(d0),
            None => false,
        };
        if !present {
            return ;
        }
        let mut r = self.take_record(e);
        let ghost r0 = r;
        r.states.take_entry(d0);
        let ghost rf = r;
        self.entities.insert(e, r);
        proof {
            let s1 = *old(self);
            let s2 = *self;
            assert(s2.entities@ == s1.entities@.remove(e).insert(e, rf));
            assert forall|x: u64| #[trigger]
                s2.entities@.contains_key(x) implies s2.entities@[x].markers_wf()
                && s2.entities@[x].states_wf() && s2.entities@[x].synced() by {
                if x == e {
                    assert(s2.entities@[x] == rf);
                    assert forall|d: u64| #[trigger]
                        rf.states@.contains_key(d) implies rf.states@[d].inv()
                        && rf.states@[d].disabled == rf.spec_should_disable(
                        d,
                        Trigger::Settled,
                    ) && rf.states@[d].disabled_actions@ == rf.spec_disabled_actions(
                        d,
                        Trigger::Settled,
                    ) by {
                        assert(rf.states@[d] == r0.states@[d]);
                        assert(rf.spec_should_disable(d, Trigger::Settled)
                            == r0.spec_should_disable(d, Trigger::Settled));
                        assert(rf.spec_disabled_actions(d, Trigger::Settled)
                            =~= r0.spec_disabled_actions(d, Trigger::Settled));
                    }
                } else {
                    assert(s2.entities@[x] == s1.entities@[x]);
                }
            }
            lemma_mirror_all_preserved(s1, s2);
            lemma_mirror_state_preserved(s1, s2);
            lemma_mirror_actions_preserved(s1, s2);
        }
    }
}

impl Store {
    /// Removes `c`'s `DisablingAllActionStates` marker, whatever its
    /// target: the target's ledger entry drops `c` and the target is
    /// recomputed. A controller without the marker is a no-op.
    fn unlink_all(&mut self, c: u64)
        requires
            old(self).wf(),
        ensures
            final(self).wf(),
            forall|x: u64| #![trigger final(self).link_all_of(x)]
                final(self).link_all_of(x) == (if x == c { None::<u64> } else { old(self).link_all_of(x) }),
            forall|x: u64| #![trigger final(self).by_all_of(x)]
                final(self).by_all_of(x) == (if old(self).link_all_of(c) == Some(x) { old(self).by_all_of(x).remove(c) } else { old(self).by_all_of(x) }),
            forall|x: u64| #![trigger final(self).has_unit_all(x)]
                final(self).has_unit_all(x) == old(self).has_unit_all(x),
            forall|x: u64| #![trigger final(self).has_entity(x)]
                final(self).has_entity(x) == old(self).has_entity(x),
            forall|x: u64, d: u64| #![trigger final(self).has_unit_state(x, d)]
                final(self).has_unit_state(x, d) == old(self).has_unit_state(x, d),
            forall|x: u64, d: u64| #![trigger final(self).has_unit_actions(x, d)]
                final(self).has_unit_actions(x, d) == old(self).has_unit_actions(x, d),
            forall|x: u64, d: u64| #![trigger final(self).unit_actions_of(x, d)]
                final(self).unit_actions_of(x, d) == old(self).unit_actions_of(x, d),
            forall|x: u64, d: u64| #![trigger final(self).by_state_of(x, d)]
                final(self).by_state_of(x, d) == old(self).by_state_of(x, d),
            forall|x: u64, d: u64| #![trigger final(self).by_actions_controllers(x, d)]
                final(self).by_actions_controllers(x, d) == old(self).by_actions_controllers(x, d),
            forall|x: u64, d: u64, c2: u64| #![trigger final(self).by_actions_recorded(x, d, c2)]
                final(self).by_actions_recorded(x, d, c2) == old(self).by_actions_recorded(x, d, c2),
            forall|x: u64, d: u64| #![trigger final(self).link_state_of(x, d)]
                final(self).link_state_of(x, d) == old(self).link_state_of(x, d),
            forall|x: u64, d: u64| #![trigger final(self).link_actions_target(x, d)]
                final(self).link_actions_target(x, d) == old(self).link_actions_target(x, d),
            forall|x: u64, d: u64| #![trigger final(self).link_actions_recorded(x, d)]
                final(self).link_actions_recorded(x, d) == old(self).link_actions_recorded(x, d),
            forall|x: u64, d: u64| #![trigger final(self).has_state(x, d)]
                final(self).has_state(x, d) == old(self).has_state(x, d),
    {
        let link: Option<u64> = match self.entities.get(c) {
            Some(r0) => r0.link_all,
            None => None,
        };
        let t0: u64 = match link {
            Some(t0) => t0,
            None => {
                return ;
            },
        };
        proof {
            let s1 = *old(self);
            assert(s1.by_all_of(t0).contains(c));
            assert(s1.has_entity(t0));
        }
        let mut rc = self.take_record(c);
        rc.link_all = None;
        let ghost rcf = rc;
        self.entities.insert(c, rc);
        proof {
            assert forall|x: u64| #[trigger]
                self.entities@.contains_key(x) implies self.entities@[x].markers_wf()
                && self.entities@[x].states_wf() by {
                if x != c {
                    assert(self.entities@[x] == old(self).entities@[x]);
                }
            }
        }
        let mut rt = self.take_record(t0);
        let ghost rt0 = rt;
        rt.by_all.remove(c);
        if rt.by_all.is_empty() {
            rt.recompute_entity(Trigger::Removing(RemovedMarker::LedgerAll));
        } else {
            rt.recompute_entity(Trigger::Settled);
        }
        let ghost rtf = rt;
        self.entities.insert(t0, rt);
        proof {
            let s1 = *old(self);
            let s2 = *self;
            assert(rt0 == (if t0 == c {
                rcf
            } else {
                s1.entities@[t0]
            }));
            assert forall|x: u64| #[trigger]
                s2.entities@.contains_key(x) implies s2.entities@[x].markers_wf()
                && s2.entities@[x].states_wf() && s2.entities@[x].synced() by {
                if x == t0 {
                    assert(s2.entities@[x] == rtf);
                    assert forall|d: u64| #[trigger]
                        rtf.states@.contains_key(d) implies rtf.states@[d].disabled
                        == rtf.spec_should_disable(d, Trigger::Settled)
                        && rtf.states@[d].disabled_actions@ == rtf.spec_disabled_actions(
                        d,
                        Trigger::Settled,
                    ) by {
                        if rtf.by_all@.is_empty() {
                            assert(rtf.spec_should_disable(d, Trigger::Settled)
                                == rtf.spec_should_disable(
                                d,
                                Trigger::Removing(RemovedMarker::LedgerAll),
                            ));
                            assert(rtf.spec_disabled_actions(d, Trigger::Settled)
                                =~= rtf.spec_disabled_actions(
                                d,
                                Trigger::Removing(RemovedMarker::LedgerAll),
                            ));
                        }
                    }
                } else if x == c {
                    assert(s2.entities@[x] == rcf);
                    assert(rcf.synced()) by {
                        assert forall|d: u64| #[trigger]
                            rcf.states@.contains_key(d) implies rcf.states@[d].disabled
                            == rcf.spec_should_disable(d, Trigger::Settled)
                            && rcf.states@[d].disabled_actions@ == rcf.spec_disabled_actions(
                            d,
                            Trigger::Settled,
                        ) by {
                            let r1 = s1.entities@[c];
                            assert(rcf.spec_should_disable(d, Trigger::Settled)
                                == r1.spec_should_disable(d, Trigger::Settled));
                            assert(rcf.spec_disabled_actions(d, Trigger::Settled)
                                =~= r1.spec_disabled_actions(d, Trigger::Settled));
                        }
                    }
                } else {
                    assert(s2.entities@[x] == s1.entities@[x]);
                }
            }
            assert forall|x: u64| #[trigger]
                s2.link_all_of(x) == (if x == c {
                    None::<u64>
                } else {
                    s1.link_all_of(x)
                }) by {
                if x == t0 && x != c {
                    assert(rtf.link_all == rt0.link_all);
                }
            }
            assert forall|x: u64| #[trigger]
                s2.by_all_of(x) == (if x == t0 {
                    s1.by_all_of(t0).remove(c)
                } else {
                    s1.by_all_of(x)
                }) by {
                if x == t0 {
                    assert(rtf.by_all@ == rt0.by_all@.remove(c));
                    assert(rt0.by_all@ == s1.by_all_of(t0));
                }
            }
            assert forall|c2: u64, t2: u64|
                (s2.link_all_of(c2) == Some(t2)) <==> #[trigger] s2.by_all_of(t2).contains(
                c2,
            ) by {
                assert(s1.by_all_of(t2).contains(c2) <==> (s1.link_all_of(c2) == Some(t2)));
                assert(s1.by_all_of(t0).contains(c) <==> (s1.link_all_of(c) == Some(t0)));
            }
            lemma_mirror_state_preserved(s1, s2);
            lemma_mirror_actions_preserved(s1, s2);
        }
    }

    /// Attaches a `DisablingAllActionStates` marker from `c` to its
    /// target: any previous marker of `c` is detached first, the target's
    /// ledger entry gains `c`, and the target is recomputed.
    pub fn attach_all(&mut self, c: u64, m: DisablingAllActionStates)
        requires
            old(self).wf(),
        ensures
            final(self).wf(),
            forall|x: u64| #![trigger final(self).link_all_of(x)]
                final(self).link_all_of(x) == (if x == c { Some(m.target) } else { old(self).link_all_of(x) }),
            forall|x: u64| #![trigger final(self).by_all_of(x)]
                final(self).by_all_of(x) == (if x == m.target {
                    (if old(self).link_all_of(c) == Some(x) {
                        old(self).by_all_of(x).remove(c)
                    } else {
                        old(self).by_all_of(x)
                    }).insert(c)
                } else if old(self).link_all_of(c) == Some(x) {
                    old(self).by_all_of(x).remove(c)
                } else {
                    old(self).by_all_of(x)
                }),
            forall|x: u64| #![trigger final(self).has_entity(x)]
                final(self).has_entity(x) == (old(self).has_entity(x) || x == c || x == m.target),
            forall|x: u64| #![trigger final(self).has_unit_all(x)]
                final(self).has_unit_all(x) == old(self).has_unit_all(x),
            forall|x: u64, d: u64| #![trigger final(self).has_unit_state(x, d)]
                final(self).has_unit_state(x, d) == old(self).has_unit_state(x, d),
            forall|x: u64, d: u64| #![trigger final(self).has_unit_actions(x, d)]
                final(self).has_unit_actions(x, d) == old(self).has_unit_actions(x, d),
            forall|x: u64, d: u64| #![trigger final(self).unit_actions_of(x, d)]
                final(self).unit_actions_of(x, d) == old(self).unit_actions_of(x, d),
            forall|x: u64, d: u64| #![trigger final(self).by_state_of(x, d)]
                final(self).by_state_of(x, d) == old(self).by_state_of(x, d),
            forall|x: u64, d: u64| #![trigger final(self).by_actions_controllers(x, d)]
                final(self).by_actions_controllers(x, d) == old(self).by_actions_controllers(x, d),
            forall|x: u64, d: u64, c2: u64| #![trigger final(self).by_actions_recorded(x, d, c2)]
                final(self).by_actions_recorded(x, d, c2) == old(self).by_actions_recorded(x, d, c2),
            forall|x: u64, d: u64| #![trigger final(self).link_state_of(x, d)]
                final(self).link_state_of(x, d) == old(self).link_state_of(x, d),
            forall|x: u64, d: u64| #![trigger final(self).link_actions_target(x, d)]
                final(self).link_actions_target(x, d) == old(self).link_actions_target(x, d),
            forall|x: u64, d: u64| #![trigger final(self).link_actions_recorded(x, d)]
                final(self).link_actions_recorded(x, d) == old(self).link_actions_recorded(x, d),
            forall|x: u64, d: u64| #![trigger final(self).has_state(x, d)]
                final(self).has_state(x, d) == old(self).has_state(x, d),
    {
        let t = m.target;
        self.unlink_all(c);
        let ghost sm = *self;
        let mut rc = self.take_record(c);
        rc.link_all = Some(t);
        let ghost rcf = rc;
        self.entities.insert(c, rc);
        proof {
            assert forall|x: u64| #[trigger]
                self.entities@.contains_key(x) implies self.entities@[x].markers_wf()
                && self.entities@[x].states_wf() by {
                if x != c {
                    assert(self.entities@[x] == sm.entities@[x]);
                }
            }
        }
        let mut rt = self.take_record(t);
        let ghost rt0 = rt;
        rt.by_all.insert(c);
        rt.recompute_entity(Trigger::Settled);
        let ghost rtf = rt;
        self.entities.insert(t, rt);
        proof {
            let s2 = *self;
            assert(rt0 == (if t == c {
                rcf
            } else if sm.has_entity(t) {
                sm.entities@[t]
            } else {
                rt0
            }));
            assert forall|x: u64| #[trigger]
                s2.entities@.contains_key(x) implies s2.entities@[x].markers_wf()
                && s2.entities@[x].states_wf() && s2.entities@[x].synced() by {
                if x == t {
                    assert(s2.entities@[x] == rtf);
                } else if x == c {
                    assert(s2.entities@[x] == rcf);
                    assert(rcf.synced()) by {
                        assert forall|d: u64| #[trigger]
                            rcf.states@.contains_key(d) implies rcf.states@[d].disabled
                            == rcf.spec_should_disable(d, Trigger::Settled)
                            && rcf.states@[d].disabled_actions@ == rcf.spec_disabled_actions(
                            d,
                            Trigger::Settled,
                        ) by {
                            let r1 = sm.entities@[c];
                            if sm.has_entity(c) {
                                assert(rcf.spec_should_disable(d, Trigger::Settled)
                                    == r1.spec_should_disable(d, Trigger::Settled));
                                assert(rcf.spec_disabled_actions(d, Trigger::Settled)
                                    =~= r1.spec_disabled_actions(d, Trigger::Settled));
                            }
                        }
                    }
                } else {
                    assert(s2.entities@[x] == sm.entities@[x]);
                }
            }
            assert forall|x: u64| #[trigger]
                s2.link_all_of(x) == (if x == c {
                    Some(t)
                } else {
                    sm.link_all_of(x)
                }) by {
                if x == t && x != c {
                    assert(rtf.link_all == rt0.link_all);
                }
            }
            assert forall|x: u64| #[trigger]
                s2.by_all_of(x) == (if x == t {
                    sm.by_all_of(t).insert(c)
                } else {
                    sm.by_all_of(x)
                }) by {
                if x == t {
                    assert(rtf.by_all@ == rt0.by_all@.insert(c));
                    assert(rt0.by_all@ == sm.by_all_of(t));
                } else if x == c {
                    assert(rcf.by_all@ == (if sm.has_entity(c) {
                        sm.entities@[c].by_all@
                    } else {
                        Set::<u64>::empty()
                    }));
                }
            }
            assert(rtf.unit_state == rt0.unit_state && rtf.unit_actions == rt0.unit_actions
                && rtf.by_state == rt0.by_state && rtf.by_actions == rt0.by_actions
                && rtf.link_all == rt0.link_all && rtf.link_state == rt0.link_state
                && rtf.link_actions == rt0.link_actions && rtf.unit_all == rt0.unit_all);
            assert(rtf.states@.dom() == rt0.states@.dom());
            assert(rcf.unit_state == (if sm.has_entity(c) {
                sm.entities@[c].unit_state
            } else {
                rcf.unit_state
            }));
            assert forall|x: u64| #[trigger]
                s2.has_entity(x) == (sm.has_entity(x) || x == c || x == t) by {}
            assert forall|x: u64| #[trigger] s2.has_unit_all(x) == sm.has_unit_all(x) by {
                if x == c || x == t {
                    assert(s2.entities@.contains_key(x));
                }
            }
            assert forall|x: u64, d: u64| #[trigger]
                s2.has_unit_state(x, d) == sm.has_unit_state(x, d) by {}
            assert forall|x: u64, d: u64| #[trigger]
                s2.has_unit_actions(x, d) == sm.has_unit_actions(x, d) by {}
            assert forall|x: u64, d: u64| #[trigger]
                s2.unit_actions_of(x, d) == sm.unit_actions_of(x, d) by {}
            assert forall|x: u64, d: u64| #[trigger]
                s2.by_state_of(x, d) == sm.by_state_of(x, d) by {}
            assert forall|x: u64, d: u64| #[trigger]
                s2.by_actions_controllers(x, d) == sm.by_actions_controllers(x, d) by {}
            assert forall|x: u64, d: u64, c2: u64| #[trigger]
                s2.by_actions_recorded(x, d, c2) == sm.by_actions_recorded(x, d, c2) by {}
            assert forall|x: u64, d: u64| #[trigger]
                s2.link_state_of(x, d) == sm.link_state_of(x, d) by {}
            assert forall|x: u64, d: u64| #[trigger]
                s2.link_actions_target(x, d) == sm.link_actions_target(x, d) by {}
            assert forall|x: u64, d: u64| #[trigger]
                s2.link_actions_recorded(x, d) == sm.link_actions_recorded(x, d) by {}
            assert forall|x: u64, d: u64| #[trigger] s2.has_state(x, d) == sm.has_state(
                x,
                d,
            ) by {}
            assert forall|c2: u64, t2: u64|
                (s2.link_all_of(c2) == Some(t2)) <==> #[trigger] s2.by_all_of(t2).contains(
                c2,
            ) by {
                assert(sm.by_all_of(t2).contains(c2) <==> (sm.link_all_of(c2) == Some(t2)));
                assert(sm.by_all_of(t).contains(c2) <==> (sm.link_all_of(c2) == Some(t)));
            }
            lemma_mirror_state_preserved(sm, s2);
            lemma_mirror_actions_preserved(sm, s2);
        }
    }

    /// Detaches `c`'s `DisablingAllActionStates` marker aimed at `t`.
    /// Detaching a pair that does not exist is a no-op.
    pub fn detach_all(&mut self, c: u64, t: u64)
        requires
            old(self).wf(),
        ensures
            final(self).wf(),
            forall|x: u64| #![trigger final(self).link_all_of(x)]
                final(self).link_all_of(x) == (if x == c && old(self).link_all_of(c) == Some(t) { None::<u64> } else { old(self).link_all_of(x) }),
            forall|x: u64| #![trigger final(self).by_all_of(x)]
                final(self).by_all_of(x) == (if x == t && old(self).link_all_of(c) == Some(t) { old(self).by_all_of(x).remove(c) } else { old(self).by_all_of(x) }),
            forall|x: u64| #![trigger final(self).has_unit_all(x)]
                final(self).has_unit_all(x) == old(self).has_unit_all(x),
            forall|x: u64| #![trigger final(self).has_entity(x)]
                final(self).has_entity(x) == old(self).has_entity(x),
            forall|x: u64, d: u64| #![trigger final(self).has_unit_state(x, d)]
                final(self).has_unit_state(x, d) == old(self).has_unit_state(x, d),
            forall|x: u64, d: u64| #![trigger final(self).has_unit_actions(x, d)]
                final(self).has_unit_actions(x, d) == old(self).has_unit_actions(x, d),
            forall|x: u64, d: u64| #![trigger final(self).unit_actions_of(x, d)]
                final(self).unit_actions_of(x, d) == old(self).unit_actions_of(x, d),
            forall|x: u64, d: u64| #![trigger final(self).by_state_of(x, d)]
                final(self).by_state_of(x, d) == old(self).by_state_of(x, d),
            forall|x: u64, d: u64| #![trigger final(self).by_actions_controllers(x, d)]
                final(self).by_actions_controllers(x, d) == old(self).by_actions_controllers(x, d),
            forall|x: u64, d: u64, c2: u64| #![trigger final(self).by_actions_recorded(x, d, c2)]
                final(self).by_actions_recorded(x, d, c2) == old(self).by_actions_recorded(x, d, c2),
            forall|x: u64, d: u64| #![trigger final(self).link_state_of(x, d)]
                final(self).link_state_of(x, d) == old(self).link_state_of(x, d),
            forall|x: u64, d: u64| #![trigger final(self).link_actions_target(x, d)]
                final(self).link_actions_target(x, d) == old(self).link_actions_target(x, d),
            forall|x: u64, d: u64| #![trigger final(self).link_actions_recorded(x, d)]
                final(self).link_actions_recorded(x, d) == old(self).link_actions_recorded(x, d),
            forall|x: u64, d: u64| #![trigger final(self).has_state(x, d)]
                final(self).has_state(x, d) == old(self).has_state(x, d),
    {
        let link: Option<u64> = match self.entities.get(c) {
            Some(r0) => r0.link_all,
            None => None,
        };
        match link {
            Some(t0) => {
                if t0 == t {
                    self.unlink_all(c);
                }
            },
            None => {},
        }
    }
}

impl Store {
    /// Removes `c`'s `DisablingActionState` marker for domain `d0`,
    /// whatever its target: the target's per-domain ledger entry drops
    /// `c` (and disappears when it empties) and the target is recomputed.
    fn unlink_state(&mut self, c: u64, d0: u64)
        requires
            old(self).wf(),
        ensures
            final(self).wf(),
            forall|x: u64, d: u64| #![trigger final(self).link_state_of(x, d)]
                final(self).link_state_of(x, d) == (if x == c && d == d0 { None::<u64> } else { old(self).link_state_of(x, d) }),
            forall|x: u64, d: u64| #![trigger final(self).by_state_of(x, d)]
                final(self).by_state_of(x, d) == (if old(self).link_state_of(c, d0) == Some(x) && d == d0 { old(self).by_state_of(x, d).remove(c) } else { old(self).by_state_of(x, d) }),
            forall|x: u64| #![trigger final(self).has_unit_all(x)]
                final(self).has_unit_all(x) == old(self).has_unit_all(x),
            forall|x: u64| #![trigger final(self).has_entity(x)]
                final(self).has_entity(x) == old(self).has_entity(x),
            forall|x: u64, d: u64| #![trigger final(self).has_unit_state(x, d)]
                final(self).has_unit_state(x, d) == old(self).has_unit_state(x, d),
            forall|x: u64, d: u64| #![trigger final(self).has_unit_actions(x, d)]
                final(self).has_unit_actions(x, d) == old(self).has_unit_actions(x, d),
            forall|x: u64, d: u64| #![trigger final(self).unit_actions_of(x, d)]
                final(self).unit_actions_of(x, d) == old(self).unit_actions_of(x, d),
            forall|x: u64| #![trigger final(self).by_all_of(x)]
                final(self).by_all_of(x) == old(self).by_all_of(x),
            forall|x: u64, d: u64| #![trigger final(self).by_actions_controllers(x, d)]
                final(self).by_actions_controllers(x, d) == old(self).by_actions_controllers(x, d),
            forall|x: u64, d: u64, c2: u64| #![trigger final(self).by_actions_recorded(x, d, c2)]
                final(self).by_actions_recorded(x, d, c2) == old(self).by_actions_recorded(x, d, c2),
            forall|x: u64| #![trigger final(self).link_all_of(x)]
                final(self).link_all_of(x) == old(self).link_all_of(x),
            forall|x: u64, d: u64| #![trigger final(self).link_actions_target(x, d)]
                final(self).link_actions_target(x, d) == old(self).link_actions_target(x, d),
            forall|x: u64, d: u64| #![trigger final(self).link_actions_recorded(x, d)]
                final(self).link_actions_recorded(x, d) == old(self).link_actions_recorded(x, d),
            forall|x: u64, d: u64| #![trigger final(self).has_state(x, d)]
                final(self).has_state(x, d) == old(self).has_state(x, d),
    {
        let link: Option<u64> = match self.entities.get(c) {
            Some(r0) => match r0.link_state.get(d0) {
                Some(tv) => Some(*tv),
                None => None,
            },
            None => None,
        };
        let t0: u64 = match link {
            Some(t0) => t0,
            None => {
                return ;
            },
        };
        proof {
            let s1 = *old(self);
            assert(s1.by_state_of(t0, d0).contains(c));
            assert(s1.has_entity(t0));
        }
        let mut rc = self.take_record(c);
        rc.link_state.take_entry(d0);
        let ghost rcf = rc;
        self.entities.insert(c, rc);
        proof {
            assert forall|x: u64| #[trigger]
                self.entities@.contains_key(x) implies self.entities@[x].markers_wf()
                && self.entities@[x].states_wf() by {
                if x != c {
                    assert(self.entities@[x] == old(self).entities@[x]);
                }
            }
        }
        let mut rt = self.take_record(t0);
        let ghost rt0 = rt;
        match rt.by_state.take_entry(d0) {
            Some(mut cs) => {
                cs.remove(c);
                if cs.is_empty() {
                    proof {
                        assert(cs@ =~= Set::<u64>::empty());
                    }
                    rt.recompute_entity(Trigger::Removing(RemovedMarker::LedgerState(d0)));
                } else {
                    rt.by_state.insert(d0, cs);
                    rt.recompute_entity(Trigger::Settled);
                }
            },
            None => {
                proof {
                    assert(false);
                }
            },
        }
        let ghost rtf = rt;
        self.entities.insert(t0, rt);
        proof {
            let s1 = *old(self);
            let s2 = *self;
            assert(rt0 == (if t0 == c {
                rcf
            } else {
                s1.entities@[t0]
            }));
            assert forall|x: u64| #[trigger]
                s2.entities@.contains_key(x) implies s2.entities@[x].markers_wf()
                && s2.entities@[x].states_wf() && s2.entities@[x].synced() by {
                if x == t0 {
                    assert(s2.entities@[x] == rtf);
                    assert forall|d: u64| #[trigger]
                        rtf.states@.contains_key(d) implies rtf.states@[d].disabled
                        == rtf.spec_should_disable(d, Trigger::Settled)
                        && rtf.states@[d].disabled_actions@ == rtf.spec_disabled_actions(
                        d,
                        Trigger::Settled,
                    ) by {
                        if !rtf.by_state@.contains_key(d0) {
                            assert(rtf.spec_should_disable(d, Trigger::Settled)
                                == rtf.spec_should_disable(
                                d,
                                Trigger::Removing(RemovedMarker::LedgerState(d0)),
                            ));
                            assert(rtf.spec_disabled_actions(d, Trigger::Settled)
                                =~= rtf.spec_disabled_actions(
                                d,
                                Trigger::Removing(RemovedMarker::LedgerState(d0)),
                            ));
                        }
                    }
                } else if x == c {
                    assert(s2.entities@[x] == rcf);
                    assert(rcf.synced()) by {
                        assert forall|d: u64| #[trigger]
                            rcf.states@.contains_key(d) implies rcf.states@[d].disabled
                            == rcf.spec_should_disable(d, Trigger::Settled)
                            && rcf.states@[d].disabled_actions@ == rcf.spec_disabled_actions(
                            d,
                            Trigger::Settled,
                        ) by {
                            let r1 = s1.entities@[c];
                            assert(rcf.spec_should_disable(d, Trigger::Settled)
                                == r1.spec_should_disable(d, Trigger::Settled));
                            assert(rcf.spec_disabled_actions(d, Trigger::Settled)
                                =~= r1.spec_disabled_actions(d, Trigger::Settled));
                        }
                    }
                } else {
                    assert(s2.entities@[x] == s1.entities@[x]);
                }
            }
            assert(rtf.unit_state == rt0.unit_state && rtf.unit_actions == rt0.unit_actions
                && rtf.by_all == rt0.by_all && rtf.by_actions == rt0.by_actions
                && rtf.link_all == rt0.link_all && rtf.link_state == rt0.link_state
                && rtf.link_actions == rt0.link_actions && rtf.unit_all == rt0.unit_all);
            assert(rtf.states@.dom() == rt0.states@.dom());
            assert forall|x: u64| #[trigger] s2.has_entity(x) == s1.has_entity(x) by {}
            assert forall|x: u64| #[trigger] s2.has_unit_all(x) == s1.has_unit_all(x) by {}
            assert forall|x: u64, d: u64| #[trigger] s2.has_unit_state(x, d) == s1.has_unit_state(x, d) by {}
            assert forall|x: u64, d: u64| #[trigger] s2.has_unit_actions(x, d) == s1.has_unit_actions(x, d) by {}
            assert forall|x: u64, d: u64| #[trigger] s2.unit_actions_of(x, d) == s1.unit_actions_of(x, d) by {}
            assert forall|x: u64| #[trigger] s2.by_all_of(x) == s1.by_all_of(x) by {}
            assert forall|x: u64, d: u64| #[trigger] s2.by_actions_controllers(x, d) == s1.by_actions_controllers(x, d) by {}
            assert forall|x: u64, d: u64, c2: u64| #[trigger] s2.by_actions_recorded(x, d, c2) == s1.by_actions_recorded(x, d, c2) by {}
            assert forall|x: u64| #[trigger] s2.link_all_of(x) == s1.link_all_of(x) by {}
            assert forall|x: u64, d: u64| #[trigger] s2.link_actions_target(x, d) == s1.link_actions_target(x, d) by {}
            assert forall|x: u64, d: u64| #[trigger] s2.link_actions_recorded(x, d) == s1.link_actions_recorded(x, d) by {}
            assert forall|x: u64, d: u64| #[trigger] s2.has_state(x, d) == s1.has_state(x, d) by {}
            assert forall|x: u64, d: u64| #[trigger]
                s2.link_state_of(x, d) == (if x == c && d == d0 {
                    None::<u64>
                } else {
                    s1.link_state_of(x, d)
                }) by {}
            assert forall|x: u64, d: u64| #[trigger]
                s2.by_state_of(x, d) == (if x == t0 && d == d0 {
                    s1.by_state_of(t0, d0).remove(c)
                } else {
                    s1.by_state_of(x, d)
                }) by {
                if x == t0 && d == d0 {
                    assert(rt0.by_state@[d0]@ == s1.by_state_of(t0, d0));
                    if rtf.by_state@.contains_key(d0) {
                        assert(rtf.by_state@[d0]@ == rt0.by_state@[d0]@.remove(c));
                    } else {
                        assert(s1.by_state_of(t0, d0).remove(c) =~= Set::<u64>::empty());
                    }
                }
            }
            assert forall|c2: u64, d2: u64, t2: u64|
                (s2.link_state_of(c2, d2) == Some(t2)) <==> #[trigger] s2.by_state_of(
                t2,
                d2,
            ).contains(c2) by {
                assert(s1.by_state_of(t2, d2).contains(c2) <==> (s1.link_state_of(c2, d2)
                    == Some(t2)));
                assert(s1.by_state_of(t0, d0).contains(c) <==> (s1.link_state_of(c, d0)
                    == Some(t0)));
            }
            lemma_mirror_all_preserved(s1, s2);
            lemma_mirror_actions_preserved(s1, s2);
        }
    }

    /// Attaches a `DisablingActionState` marker from `c` to its target
    /// for its domain: any previous marker of `c` for that domain is
    /// detached first, the target's per-domain ledger entry gains `c`,
    /// and the target is recomputed.
    pub fn attach_state(&mut self, c: u64, m: DisablingActionState)
        requires
            old(self).wf(),
        ensures
            final(self).wf(),
            forall|x: u64, d: u64| #![trigger final(self).link_state_of(x, d)]
                final(self).link_state_of(x, d) == (if x == c && d == m.domain { Some(m.target) } else { old(self).link_state_of(x, d) }),
            forall|x: u64, d: u64| #![trigger final(self).by_state_of(x, d)]
                final(self).by_state_of(x, d) == (if x == m.target && d == m.domain {
                    (if old(self).link_state_of(c, m.domain) == Some(x) {
                        old(self).by_state_of(x, d).remove(c)
                    } else {
                        old(self).by_state_of(x, d)
                    }).insert(c)
                } else if old(self).link_state_of(c, m.domain) == Some(x) && d == m.domain {
                    old(self).by_state_of(x, d).remove(c)
                } else {
                    old(self).by_state_of(x, d)
                }),
            forall|x: u64| #![trigger final(self).has_entity(x)]
                final(self).has_entity(x) == (old(self).has_entity(x) || x == c || x == m.target),
            forall|x: u64| #![trigger final(self).has_unit_all(x)]
                final(self).has_unit_all(x) == old(self).has_unit_all(x),
            forall|x: u64, d: u64| #![trigger final(self).has_unit_state(x, d)]
                final(self).has_unit_state(x, d) == old(self).has_unit_state(x, d),
            forall|x: u64, d: u64| #![trigger final(self).has_unit_actions(x, d)]
                final(self).has_unit_actions(x, d) == old(self).has_unit_actions(x, d),
            forall|x: u64, d: u64| #![trigger final(self).unit_actions_of(x, d)]
                final(self).unit_actions_of(x, d) == old(self).unit_actions_of(x, d),
            forall|x: u64| #![trigger final(self).by_all_of(x)]
                final(self).by_all_of(x) == old(self).by_all_of(x),
            forall|x: u64, d: u64| #![trigger final(self).by_actions_controllers(x, d)]
                final(self).by_actions_controllers(x, d) == old(self).by_actions_controllers(x, d),
            forall|x: u64, d: u64, c2: u64| #![trigger final(self).by_actions_recorded(x, d, c2)]
                final(self).by_actions_recorded(x, d, c2) == old(self).by_actions_recorded(x, d, c2),
            forall|x: u64| #![trigger final(self).link_all_of(x)]
                final(self).link_all_of(x) == old(self).link_all_of(x),
            forall|x: u64, d: u64| #![trigger final(self).link_actions_target(x, d)]
                final(self).link_actions_target(x, d) == old(self).link_actions_target(x, d),
            forall|x: u64, d: u64| #![trigger final(self).link_actions_recorded(x, d)]
                final(self).link_actions_recorded(x, d) == old(self).link_actions_recorded(x, d),
            forall|x: u64, d: u64| #![trigger final(self).has_state(x, d)]
                final(self).has_state(x, d) == old(self).has_state(x, d),
    {
        let t = m.target;
        let d0 = m.domain;
        self.unlink_state(c, d0);
        let ghost sm = *self;
        let mut rc = self.take_record(c);
        rc.link_state.insert(d0, t);
        let ghost rcf = rc;
        self.entities.insert(c, rc);
        proof {
            assert forall|x: u64| #[trigger]
                self.entities@.contains_key(x) implies self.entities@[x].markers_wf()
                && self.entities@[x].states_wf() by {
                if x != c {
                    assert(self.entities@[x] == sm.entities@[x]);
                }
            }
        }
        let mut rt = self.take_record(t);
        let ghost rt0 = rt;
        match rt.by_state.take_entry(d0) {
            Some(mut cs) => {
                cs.insert(c);
                proof {
                    assert(cs@.contains(c));
                }
                rt.by_state.insert(d0, cs);
            },
            None => {
                let mut cs = IdSet::new();
                cs.insert(c);
                proof {
                    assert(cs@.contains(c));
                }
                rt.by_state.insert(d0, cs);
            },
        }
        rt.recompute_entity(Trigger::Settled);
        let ghost rtf = rt;
        self.entities.insert(t, rt);
        proof {
            let s2 = *self;
            assert(rt0 == (if t == c {
                rcf
            } else if sm.has_entity(t) {
                sm.entities@[t]
            } else {
                rt0
            }));
            assert forall|x: u64| #[trigger]
                s2.entities@.contains_key(x) implies s2.entities@[x].markers_wf()
                && s2.entities@[x].states_wf() && s2.entities@[x].synced() by {
                if x == t {
                    assert(s2.entities@[x] == rtf);
                } else if x == c {
                    assert(s2.entities@[x] == rcf);
                    assert(rcf.synced()) by {
                        assert forall|d: u64| #[trigger]
                            rcf.states@.contains_key(d) implies rcf.states@[d].disabled
                            == rcf.spec_should_disable(d, Trigger::Settled)
                            && rcf.states@[d].disabled_actions@ == rcf.spec_disabled_actions(
                            d,
                            Trigger::Settled,
                        ) by {
                            let r1 = sm.entities@[c];
                            if sm.has_entity(c) {
                                assert(rcf.spec_should_disable(d, Trigger::Settled)
                                    == r1.spec_should_disable(d, Trigger::Settled));
                                assert(rcf.spec_disabled_actions(d, Trigger::Settled)
                                    =~= r1.spec_disabled_actions(d, Trigger::Settled));
                            }
                        }
                    }
                } else {
                    assert(s2.entities@[x] == sm.entities@[x]);
                }
            }
            assert(rtf.unit_state == rt0.unit_state && rtf.unit_actions == rt0.unit_actions
                && rtf.by_all == rt0.by_all && rtf.by_actions == rt0.by_actions
                && rtf.link_all == rt0.link_all && rtf.link_state == rt0.link_state
                && rtf.link_actions == rt0.link_actions && rtf.unit_all == rt0.unit_all);
            assert(rtf.states@.dom() == rt0.states@.dom());
            assert forall|x: u64| #[trigger] s2.has_unit_all(x) == sm.has_unit_all(x) by {}
            assert forall|x: u64, d: u64| #[trigger] s2.has_unit_state(x, d) == sm.has_unit_state(x, d) by {}
            assert forall|x: u64, d: u64| #[trigger] s2.has_unit_actions(x, d) == sm.has_unit_actions(x, d) by {}
            assert forall|x: u64, d: u64| #[trigger] s2.unit_actions_of(x, d) == sm.unit_actions_of(x, d) by {}
            assert forall|x: u64| #[trigger] s2.by_all_of(x) == sm.by_all_of(x) by {}
            assert forall|x: u64, d: u64| #[trigger] s2.by_actions_controllers(x, d) == sm.by_actions_controllers(x, d) by {}
            assert forall|x: u64, d: u64, c2: u64| #[trigger] s2.by_actions_recorded(x, d, c2) == sm.by_actions_recorded(x, d, c2) by {}
            assert forall|x: u64| #[trigger] s2.link_all_of(x) == sm.link_all_of(x) by {}
            assert forall|x: u64, d: u64| #[trigger] s2.link_actions_target(x, d) == sm.link_actions_target(x, d) by {}
            assert forall|x: u64, d: u64| #[trigger] s2.link_actions_recorded(x, d) == sm.link_actions_recorded(x, d) by {}
            assert forall|x: u64, d: u64| #[trigger] s2.has_state(x, d) == sm.has_state(x, d) by {}
            assert forall|x: u64| #[trigger]
                s2.has_entity(x) == (sm.has_entity(x) || x == c || x == t) by {}
            assert forall|x: u64, d: u64| #[trigger]
                s2.link_state_of(x, d) == (if x == c && d == d0 {
                    Some(t)
                } else {
                    sm.link_state_of(x, d)
                }) by {}
            assert forall|x: u64, d: u64| #[trigger]
                s2.by_state_of(x, d) == (if x == t && d == d0 {
                    sm.by_state_of(t, d0).insert(c)
                } else {
                    sm.by_state_of(x, d)
                }) by {
                if x == t && d == d0 {
                    assert(rtf.by_state@.contains_key(d0));
                    if t == c || sm.has_entity(t) {
                        if rt0.by_state@.contains_key(d0) {
                            assert(rtf.by_state@[d0]@ == rt0.by_state@[d0]@.insert(c));
                        } else {
                            assert(rtf.by_state@[d0]@ =~= Set::<u64>::empty().insert(c));
                        }
                    } else {
                        assert(rtf.by_state@[d0]@ =~= Set::<u64>::empty().insert(c));
                    }
                }
            }
            assert forall|c2: u64, d2: u64, t2: u64|
                (s2.link_state_of(c2, d2) == Some(t2)) <==> #[trigger] s2.by_state_of(
                t2,
                d2,
            ).contains(c2) by {
                assert(sm.by_state_of(t2, d2).contains(c2) <==> (sm.link_state_of(c2, d2)
                    == Some(t2)));
                assert(sm.by_state_of(t, d2).contains(c2) <==> (sm.link_state_of(c2, d2)
                    == Some(t)));
            }
            lemma_mirror_all_preserved(sm, s2);
            lemma_mirror_actions_preserved(sm, s2);
        }
    }

    /// Detaches `c`'s `DisablingActionState` marker for domain `d0` aimed
    /// at `t`. Detaching a pair that does not exist is a no-op.
    pub fn detach_state(&mut self, c: u64, d0: u64, t: u64)
        requires
            old(self).wf(),
        ensures
            final(self).wf(),
            forall|x: u64, d: u64| #![trigger final(self).link_state_of(x, d)]
                final(self).link_state_of(x, d) == (if x == c && d == d0 && old(self).link_state_of(c, d0) == Some(t) { None::<u64> } else { old(self).link_state_of(x, d) }),
            forall|x: u64, d: u64| #![trigger final(self).by_state_of(x, d)]
                final(self).by_state_of(x, d) == (if x == t && d == d0 && old(self).link_state_of(c, d0) == Some(t) { old(self).by_state_of(x, d).remove(c) } else { old(self).by_state_of(x, d) }),
            forall|x: u64| #![trigger final(self).has_unit_all(x)]
                final(self).has_unit_all(x) == old(self).has_unit_all(x),
            forall|x: u64| #![trigger final(self).has_entity(x)]
                final(self).has_entity(x) == old(self).has_entity(x),
            forall|x: u64, d: u64| #![trigger final(self).has_unit_state(x, d)]
                final(self).has_unit_state(x, d) == old(self).has_unit_state(x, d),
            forall|x: u64, d: u64| #![trigger final(self).has_unit_actions(x, d)]
                final(self).has_unit_actions(x, d) == old(self).has_unit_actions(x, d),
            forall|x: u64, d: u64| #![trigger final(self).unit_actions_of(x, d)]
                final(self).unit_actions_of(x, d) == old(self).unit_actions_of(x, d),
            forall|x: u64| #![trigger final(self).by_all_of(x)]
                final(self).by_all_of(x) == old(self).by_all_of(x),
            forall|x: u64, d: u64| #![trigger final(self).by_actions_controllers(x, d)]
                final(self).by_actions_controllers(x, d) == old(self).by_actions_controllers(x, d),
            forall|x: u64, d: u64, c2: u64| #![trigger final(self).by_actions_recorded(x, d, c2)]
                final(self).by_actions_recorded(x, d, c2) == old(self).by_actions_recorded(x, d, c2),
            forall|x: u64| #![trigger final(self).link_all_of(x)]
                final(self).link_all_of(x) == old(self).link_all_of(x),
            forall|x: u64, d: u64| #![trigger final(self).link_actions_target(x, d)]
                final(self).link_actions_target(x, d) == old(self).link_actions_target(x, d),
            forall|x: u64, d: u64| #![trigger final(self).link_actions_recorded(x, d)]
                final(self).link_actions_recorded(x, d) == old(self).link_actions_recorded(x, d),
            forall|x: u64, d: u64| #![trigger final(self).has_state(x, d)]
                final(self).has_state(x, d) == old(self).has_state(x, d),
    {
        let link: Option<u64> = match self.entities.get(c) {
            Some(r0) => match r0.link_state.get(d0) {
                Some(tv) => Some(*tv),
                None => None,
            },
            None => None,
        };
        match link {
            Some(t0) => {
                if t0 == t {
                    self.unlink_state(c, d0);
                }
            },
            None => {},
        }
    }
}

impl Store {
    /// Removes `c`'s `DisablingActions` marker for domain `d0`, whatever
    /// its target: the target's per-domain ledger entry drops `c`'s
    /// recorded actions (and disappears when it empties) and the target
    /// is recomputed.
    fn unlink_actions(&mut self, c: u64, d0: u64)
        requires
            old(self).wf(),
        ensures
            final(self).wf(),
            forall|x: u64, d: u64| #![trigger final(self).link_actions_target(x, d)]
                final(self).link_actions_target(x, d) == (if x == c && d == d0 { None::<u64> } else { old(self).link_actions_target(x, d) }),
            forall|x: u64, d: u64| #![trigger final(self).link_actions_recorded(x, d)]
                final(self).link_actions_recorded(x, d) == (if x == c && d == d0 { Set::<u64>::empty() } else { old(self).link_actions_recorded(x, d) }),
            forall|x: u64, d: u64| #![trigger final(self).by_actions_controllers(x, d)]
                final(self).by_actions_controllers(x, d) == (if old(self).link_actions_target(c, d0) == Some(x) && d == d0 { old(self).by_actions_controllers(x, d).remove(c) } else { old(self).by_actions_controllers(x, d) }),
            forall|x: u64, d: u64, c2: u64| #![trigger final(self).by_actions_recorded(x, d, c2)]
                final(self).by_actions_recorded(x, d, c2) == (if old(self).link_actions_target(c, d0) == Some(x) && d == d0 && c2 == c { Set::<u64>::empty() } else { old(self).by_actions_recorded(x, d, c2) }),
            forall|x: u64| #![trigger final(self).has_unit_all(x)]
                final(self).has_unit_all(x) == old(self).has_unit_all(x),
            forall|x: u64| #![trigger final(self).has_entity(x)]
                final(self).has_entity(x) == old(self).has_entity(x),
            forall|x: u64, d: u64| #![trigger final(self).has_unit_state(x, d)]
                final(self).has_unit_state(x, d) == old(self).has_unit_state(x, d),
            forall|x: u64, d: u64| #![trigger final(self).has_unit_actions(x, d)]
                final(self).has_unit_actions(x, d) == old(self).has_unit_actions(x, d),
            forall|x: u64, d: u64| #![trigger final(self).unit_actions_of(x, d)]
                final(self).unit_actions_of(x, d) == old(self).unit_actions_of(x, d),
            forall|x: u64| #![trigger final(self).by_all_of(x)]
                final(self).by_all_of(x) == old(self).by_all_of(x),
            forall|x: u64, d: u64| #![trigger final(self).by_state_of(x, d)]
                final(self).by_state_of(x, d) == old(self).by_state_of(x, d),
            forall|x: u64| #![trigger final(self).link_all_of(x)]
                final(self).link_all_of(x) == old(self).link_all_of(x),
            forall|x: u64, d: u64| #![trigger final(self).link_state_of(x, d)]
                final(self).link_state_of(x, d) == old(self).link_state_of(x, d),
            forall|x: u64, d: u64| #![trigger final(self).has_state(x, d)]
                final(self).has_state(x, d) == old(self).has_state(x, d),
    {
        let link: Option<u64> = match self.entities.get(c) {
            Some(r0) => match r0.link_actions.get(d0) {
                Some(ca) => Some(ca.target),
                None => None,
            },
            None => None,
        };
        let t0: u64 = match link {
            Some(t0) => t0,
            None => {
                return ;
            },
        };
        proof {
            let s1 = *old(self);
            assert(s1.by_actions_controllers(t0, d0).contains(c));
            assert(s1.has_entity(t0));
        }
        let mut rc = self.take_record(c);
        rc.link_actions.take_entry(d0);
        let ghost rcf = rc;
        self.entities.insert(c, rc);
        proof {
            assert forall|x: u64| #[trigger]
                self.entities@.contains_key(x) implies self.entities@[x].markers_wf()
                && self.entities@[x].states_wf() by {
                if x != c {
                    assert(self.entities@[x] == old(self).entities@[x]);
                }
            }
        }
        let mut rt = self.take_record(t0);
        let ghost rt0 = rt;
        match rt.by_actions.take_entry(d0) {
            Some(mut inner) => {
                let ghost inner0 = inner;
                inner.take_entry(c);
                proof {
                    assert(inner@.dom() =~= inner0@.dom().remove(c));
                }
                if inner.is_empty() {
                    proof {
                        assert(inner@.dom() =~= Set::<u64>::empty());
                    }
                    rt.recompute_entity(Trigger::Removing(RemovedMarker::LedgerActions(d0)));
                } else {
                    proof {
                        assert forall|c2: u64| #[trigger]
                            inner@.contains_key(c2) implies inner@[c2].wf() by {
                            assert(inner0@.contains_key(c2) && inner@[c2] == inner0@[c2]);
                        }
                    }
                    rt.by_actions.insert(d0, inner);
                    rt.recompute_entity(Trigger::Settled);
                }
            },
            None => {
                proof {
                    assert(false);
                }
            },
        }
        let ghost rtf = rt;
        self.entities.insert(t0, rt);
        proof {
            let s1 = *old(self);
            let s2 = *self;
            assert(rt0 == (if t0 == c {
                rcf
            } else {
                s1.entities@[t0]
            }));
            assert forall|x: u64| #[trigger]
                s2.entities@.contains_key(x) implies s2.entities@[x].markers_wf()
                && s2.entities@[x].states_wf() && s2.entities@[x].synced() by {
                if x == t0 {
                    assert(s2.entities@[x] == rtf);
                    assert forall|d: u64| #[trigger]
                        rtf.states@.contains_key(d) implies rtf.states@[d].disabled
                        == rtf.spec_should_disable(d, Trigger::Settled)
                        && rtf.states@[d].disabled_actions@ == rtf.spec_disabled_actions(
                        d,
                        Trigger::Settled,
                    ) by {
                        if !rtf.by_actions@.contains_key(d0) {
                            assert(rtf.spec_should_disable(d, Trigger::Settled)
                                == rtf.spec_should_disable(
                                d,
                                Trigger::Removing(RemovedMarker::LedgerActions(d0)),
                            ));
                            assert(rtf.spec_disabled_actions(d, Trigger::Settled)
                                =~= rtf.spec_disabled_actions(
                                d,
                                Trigger::Removing(RemovedMarker::LedgerActions(d0)),
                            ));
                        }
                    }
                } else if x == c {
                    assert(s2.entities@[x] == rcf);
                    assert(rcf.synced()) by {
                        assert forall|d: u64| #[trigger]
                            rcf.states@.contains_key(d) implies rcf.states@[d].disabled
                            == rcf.spec_should_disable(d, Trigger::Settled)
                            && rcf.states@[d].disabled_actions@ == rcf.spec_disabled_actions(
                            d,
                            Trigger::Settled,
                        ) by {
                            let r1 = s1.entities@[c];
                            assert(rcf.spec_should_disable(d, Trigger::Settled)
                                == r1.spec_should_disable(d, Trigger::Settled));
                            assert(rcf.spec_disabled_actions(d, Trigger::Settled)
                                =~= r1.spec_disabled_actions(d, Trigger::Settled));
                        }
                    }
                } else {
                    assert(s2.entities@[x] == s1.entities@[x]);
                }
            }
            assert(rtf.unit_state == rt0.unit_state && rtf.unit_actions == rt0.unit_actions
                && rtf.by_all == rt0.by_all && rtf.by_state == rt0.by_state
                && rtf.link_all == rt0.link_all && rtf.link_state == rt0.link_state
                && rtf.link_actions == rt0.link_actions && rtf.unit_all == rt0.unit_all);
            assert(rtf.states@.dom() == rt0.states@.dom());
            assert forall|x: u64| #[trigger] s2.has_entity(x) == s1.has_entity(x) by {}
            assert forall|x: u64| #[trigger] s2.has_unit_all(x) == s1.has_unit_all(x) by {}
            assert forall|x: u64, d: u64| #[trigger] s2.has_unit_state(x, d) == s1.has_unit_state(x, d) by {}
            assert forall|x: u64, d: u64| #[trigger] s2.has_unit_actions(x, d) == s1.has_unit_actions(x, d) by {}
            assert forall|x: u64, d: u64| #[trigger] s2.unit_actions_of(x, d) == s1.unit_actions_of(x, d) by {}
            assert forall|x: u64| #[trigger] s2.by_all_of(x) == s1.by_all_of(x) by {}
            assert forall|x: u64, d: u64| #[trigger] s2.by_state_of(x, d) == s1.by_state_of(x, d) by {}
            assert forall|x: u64| #[trigger] s2.link_all_of(x) == s1.link_all_of(x) by {}
            assert forall|x: u64, d: u64| #[trigger] s2.link_state_of(x, d) == s1.link_state_of(x, d) by {}
            assert forall|x: u64, d: u64| #[trigger] s2.has_state(x, d) == s1.has_state(x, d) by {}
            assert forall|x: u64, d: u64| #[trigger]
                s2.link_actions_target(x, d) == (if x == c && d == d0 {
                    None::<u64>
                } else {
                    s1.link_actions_target(x, d)
                }) by {}
            assert forall|x: u64, d: u64| #[trigger]
                s2.link_actions_recorded(x, d) == (if x == c && d == d0 {
                    Set::<u64>::empty()
                } else {
                    s1.link_actions_recorded(x, d)
                }) by {}
            assert forall|x: u64, d: u64| #[trigger]
                s2.by_actions_controllers(x, d) == (if x == t0 && d == d0 {
                    s1.by_actions_controllers(t0, d0).remove(c)
                } else {
                    s1.by_actions_controllers(x, d)
                }) by {
                if x == t0 && d == d0 {
                    assert(rt0.by_actions@[d0]@.dom() == s1.by_actions_controllers(t0, d0));
                    if rtf.by_actions@.contains_key(d0) {
                        assert(rtf.by_actions@[d0]@.dom() =~= rt0.by_actions@[d0]@.dom().remove(
                            c,
                        ));
                    } else {
                        assert(s1.by_actions_controllers(t0, d0).remove(c)
                            =~= Set::<u64>::empty());
                    }
                }
            }
            assert forall|x: u64, d: u64, c2: u64| #[trigger]
                s2.by_actions_recorded(x, d, c2) == (if x == t0 && d == d0 && c2 == c {
                    Set::<u64>::empty()
                } else {
                    s1.by_actions_recorded(x, d, c2)
                }) by {
                if x == t0 && d == d0 && c2 != c {
                    if rtf.by_actions@.contains_key(d0) {
                        assert(rtf.by_actions@[d0]@.contains_key(c2)
                            == rt0.by_actions@[d0]@.contains_key(c2));
                    } else {
                        assert(!rt0.by_actions@[d0]@.dom().remove(c).contains(c2));
                    }
                }
            }
            assert forall|c2: u64, d2: u64, t2: u64|
                (s2.link_actions_target(c2, d2) == Some(t2))
                <==> #[trigger] s2.by_actions_controllers(t2, d2).contains(c2) by {
                assert(s1.by_actions_controllers(t2, d2).contains(c2)
                    <==> (s1.link_actions_target(c2, d2) == Some(t2)));
                assert(s1.by_actions_controllers(t0, d0).contains(c)
                    <==> (s1.link_actions_target(c, d0) == Some(t0)));
            }
            assert forall|c2: u64, d2: u64, t2: u64|
                s2.link_actions_target(c2, d2) == Some(t2)
                implies #[trigger] s2.by_actions_recorded(t2, d2, c2)
                == s2.link_actions_recorded(c2, d2) by {
                assert(s1.link_actions_target(c2, d2) == Some(t2)
                    ==> s1.by_actions_recorded(t2, d2, c2) == s1.link_actions_recorded(
                    c2,
                    d2,
                ));
                assert(s1.by_actions_controllers(t2, d2).contains(c2)
                    <==> (s1.link_actions_target(c2, d2) == Some(t2)));
            }
            lemma_mirror_all_preserved(s1, s2);
            lemma_mirror_state_preserved(s1, s2);
        }
    }

    /// Attaches a `DisablingActions` marker from `c` to its target for
    /// its domain — duplicates in the action list collapse. Any previous
    /// marker of `c` for that domain is detached first; the target's
    /// per-domain ledger entry records `c`'s action set, and the target
    /// is recomputed.
    pub fn attach_actions(&mut self, c: u64, m: DisablingActions)
        requires
            old(self).wf(),
        ensures
            final(self).wf(),
            forall|x: u64, d: u64| #![trigger final(self).link_actions_target(x, d)]
                final(self).link_actions_target(x, d) == (if x == c && d == m.domain { Some(m.to_disable) } else { old(self).link_actions_target(x, d) }),
            forall|x: u64, d: u64| #![trigger final(self).link_actions_recorded(x, d)]
                final(self).link_actions_recorded(x, d) == (if x == c && d == m.domain { m.actions_to_disable@.to_set() } else { old(self).link_actions_recorded(x, d) }),
            forall|x: u64, d: u64| #![trigger final(self).by_actions_controllers(x, d)]
                final(self).by_actions_controllers(x, d) == (if x == m.to_disable && d == m.domain {
                    (if old(self).link_actions_target(c, m.domain) == Some(x) {
                        old(self).by_actions_controllers(x, d).remove(c)
                    } else {
                        old(self).by_actions_controllers(x, d)
                    }).insert(c)
                } else if old(self).link_actions_target(c, m.domain) == Some(x) && d == m.domain {
                    old(self).by_actions_controllers(x, d).remove(c)
                } else {
                    old(self).by_actions_controllers(x, d)
                }),
            forall|x: u64, d: u64, c2: u64| #![trigger final(self).by_actions_recorded(x, d, c2)]
                final(self).by_actions_recorded(x, d, c2) == (if x == m.to_disable && d == m.domain && c2 == c {
                    m.actions_to_disable@.to_set()
                } else if old(self).link_actions_target(c, m.domain) == Some(x) && d == m.domain
                    && c2 == c {
                    Set::<u64>::empty()
                } else {
                    old(self).by_actions_recorded(x, d, c2)
                }),
            forall|x: u64| #![trigger final(self).has_entity(x)]
                final(self).has_entity(x) == (old(self).has_entity(x) || x == c || x == m.to_disable),
            forall|x: u64| #![trigger final(self).has_unit_all(x)]
                final(self).has_unit_all(x) == old(self).has_unit_all(x),
            forall|x: u64, d: u64| #![trigger final(self).has_unit_state(x, d)]
                final(self).has_unit_state(x, d) == old(self).has_unit_state(x, d),
            forall|x: u64, d: u64| #![trigger final(self).has_unit_actions(x, d)]
                final(self).has_unit_actions(x, d) == old(self).has_unit_actions(x, d),
            forall|x: u64, d: u64| #![trigger final(self).unit_actions_of(x, d)]
                final(self).unit_actions_of(x, d) == old(self).unit_actions_of(x, d),
            forall|x: u64| #![trigger final(self).by_all_of(x)]
                final(self).by_all_of(x) == old(self).by_all_of(x),
            forall|x: u64, d: u64| #![trigger final(self).by_state_of(x, d)]
                final(self).by_state_of(x, d) == old(self).by_state_of(x, d),
            forall|x: u64| #![trigger final(self).link_all_of(x)]
                final(self).link_all_of(x) == old(self).link_all_of(x),
            forall|x: u64, d: u64| #![trigger final(self).link_state_of(x, d)]
                final(self).link_state_of(x, d) == old(self).link_state_of(x, d),
            forall|x: u64, d: u64| #![trigger final(self).has_state(x, d)]
                final(self).has_state(x, d) == old(self).has_state(x, d),
    {
        let t = m.to_disable;
        let d0 = m.domain;
        self.unlink_actions(c, d0);
        let ghost sm = *self;
        let mut rc = self.take_record(c);
        let acts_link = IdSet::from_vec(&m.actions_to_disable);
        rc.link_actions.insert(d0, ControlledActions { target: t, actions: acts_link });
        let ghost rcf = rc;
        self.entities.insert(c, rc);
        proof {
            assert forall|x: u64| #[trigger]
                self.entities@.contains_key(x) implies self.entities@[x].markers_wf()
                && self.entities@[x].states_wf() by {
                if x != c {
                    assert(self.entities@[x] == sm.entities@[x]);
                }
            }
        }
        let mut rt = self.take_record(t);
        let ghost rt0 = rt;
        let mut inner = match rt.by_actions.take_entry(d0) {
            Some(inner) => inner,
            None => AssocMap::new(),
        };
        let ghost inner0 = inner;
        let acts_rec = IdSet::from_vec(&m.actions_to_disable);
        inner.insert(c, acts_rec);
        proof {
            assert(inner@.contains_key(c));
            assert(inner@ != Map::<u64, IdSet>::empty());
            assert(inner@.dom() =~= inner0@.dom().insert(c));
            assert forall|c2: u64| #[trigger] inner@.contains_key(c2) implies inner@[c2].wf() by {
                if c2 != c {
                    assert(inner0@.contains_key(c2) && inner@[c2] == inner0@[c2]);
                }
            }
        }
        rt.by_actions.insert(d0, inner);
        rt.recompute_entity(Trigger::Settled);
        let ghost rtf = rt;
        self.entities.insert(t, rt);
        proof {
            let s2 = *self;
            assert(rt0 == (if t == c {
                rcf
            } else if sm.has_entity(t) {
                sm.entities@[t]
            } else {
                rt0
            }));
            assert forall|x: u64| #[trigger]
                s2.entities@.contains_key(x) implies s2.entities@[x].markers_wf()
                && s2.entities@[x].states_wf() && s2.entities@[x].synced() by {
                if x == t {
                    assert(s2.entities@[x] == rtf);
                } else if x == c {
                    assert(s2.entities@[x] == rcf);
                    assert(rcf.synced()) by {
                        assert forall|d: u64| #[trigger]
                            rcf.states@.contains_key(d) implies rcf.states@[d].disabled
                            == rcf.spec_should_disable(d, Trigger::Settled)
                            && rcf.states@[d].disabled_actions@ == rcf.spec_disabled_actions(
                            d,
                            Trigger::Settled,
                        ) by {
                            let r1 = sm.entities@[c];
                            if sm.has_entity(c) {
                                assert(rcf.spec_should_disable(d, Trigger::Settled)
                                    == r1.spec_should_disable(d, Trigger::Settled));
                                assert(rcf.spec_disabled_actions(d, Trigger::Settled)
                                    =~= r1.spec_disabled_actions(d, Trigger::Settled));
                            }
                        }
                    }
                } else {
                    assert(s2.entities@[x] == sm.entities@[x]);
                }
            }
            assert(rtf.unit_state == rt0.unit_state && rtf.unit_actions == rt0.unit_actions
                && rtf.by_all == rt0.by_all && rtf.by_state == rt0.by_state
                && rtf.link_all == rt0.link_all && rtf.link_state == rt0.link_state
                && rtf.link_actions == rt0.link_actions && rtf.unit_all == rt0.unit_all);
            assert(rtf.states@.dom() == rt0.states@.dom());
            assert forall|x: u64| #[trigger] s2.has_unit_all(x) == sm.has_unit_all(x) by {}
            assert forall|x: u64, d: u64| #[trigger] s2.has_unit_state(x, d) == sm.has_unit_state(x, d) by {}
            assert forall|x: u64, d: u64| #[trigger] s2.has_unit_actions(x, d) == sm.has_unit_actions(x, d) by {}
            assert forall|x: u64, d: u64| #[trigger] s2.unit_actions_of(x, d) == sm.unit_actions_of(x, d) by {}
            assert forall|x: u64| #[trigger] s2.by_all_of(x) == sm.by_all_of(x) by {}
            assert forall|x: u64, d: u64| #[trigger] s2.by_state_of(x, d) == sm.by_state_of(x, d) by {}
            assert forall|x: u64| #[trigger] s2.link_all_of(x) == sm.link_all_of(x) by {}
            assert forall|x: u64, d: u64| #[trigger] s2.link_state_of(x, d) == sm.link_state_of(x, d) by {}
            assert forall|x: u64, d: u64| #[trigger] s2.has_state(x, d) == sm.has_state(x, d) by {}
            assert forall|x: u64| #[trigger]
                s2.has_entity(x) == (sm.has_entity(x) || x == c || x == t) by {}
            assert forall|x: u64, d: u64| #[trigger]
                s2.link_actions_target(x, d) == (if x == c && d == d0 {
                    Some(t)
                } else {
                    sm.link_actions_target(x, d)
                }) by {}
            assert forall|x: u64, d: u64| #[trigger]
                s2.link_actions_recorded(x, d) == (if x == c && d == d0 {
                    m.actions_to_disable@.to_set()
                } else {
                    sm.link_actions_recorded(x, d)
                }) by {}
            assert forall|x: u64, d: u64| #[trigger]
                s2.by_actions_controllers(x, d) == (if x == t && d == d0 {
                    sm.by_actions_controllers(t, d0).insert(c)
                } else {
                    sm.by_actions_controllers(x, d)
                }) by {
                if x == t && d == d0 {
                    assert(rtf.by_actions@.contains_key(d0));
                    assert(rtf.by_actions@[d0]@.dom() =~= inner0@.dom().insert(c));
                    if t == c || sm.has_entity(t) {
                        if rt0.by_actions@.contains_key(d0) {
                            assert(inner0@.dom() == sm.by_actions_controllers(t, d0));
                        } else {
                            assert(inner0@.dom() =~= Set::<u64>::empty());
                            assert(sm.by_actions_controllers(t, d0) =~= Set::<u64>::empty());
                        }
                    } else {
                        assert(inner0@.dom() =~= Set::<u64>::empty());
                        assert(sm.by_actions_controllers(t, d0) =~= Set::<u64>::empty());
                    }
                }
            }
            assert forall|x: u64, d: u64, c2: u64| #[trigger]
                s2.by_actions_recorded(x, d, c2) == (if x == t && d == d0 && c2 == c {
                    m.actions_to_disable@.to_set()
                } else {
                    sm.by_actions_recorded(x, d, c2)
                }) by {
                if x == t && d == d0 && c2 != c {
                    assert(rtf.by_actions@[d0]@.contains_key(c2) == inner0@.contains_key(c2));
                    if t == c || sm.has_entity(t) {
                        if rt0.by_actions@.contains_key(d0) {
                            assert(inner0 == rt0.by_actions@[d0]);
                        } else {
                            assert(!inner0@.contains_key(c2));
                        }
                    } else {
                        assert(!inner0@.contains_key(c2));
                    }
                }
            }
            assert forall|c2: u64, d2: u64, t2: u64|
                (s2.link_actions_target(c2, d2) == Some(t2))
                <==> #[trigger] s2.by_actions_controllers(t2, d2).contains(c2) by {
                assert(sm.by_actions_controllers(t2, d2).contains(c2)
                    <==> (sm.link_actions_target(c2, d2) == Some(t2)));
                assert(sm.by_actions_controllers(t, d2).contains(c2)
                    <==> (sm.link_actions_target(c2, d2) == Some(t)));
            }
            assert forall|c2: u64, d2: u64, t2: u64|
                s2.link_actions_target(c2, d2) == Some(t2)
                implies #[trigger] s2.by_actions_recorded(t2, d2, c2)
                == s2.link_actions_recorded(c2, d2) by {
                assert(sm.link_actions_target(c2, d2) == Some(t2)
                    ==> sm.by_actions_recorded(t2, d2, c2) == sm.link_actions_recorded(
                    c2,
                    d2,
                ));
                assert(sm.by_actions_controllers(t2, d2).contains(c2)
                    <==> (sm.link_actions_target(c2, d2) == Some(t2)));
            }
            lemma_mirror_all_preserved(sm, s2);
            lemma_mirror_state_preserved(sm, s2);
        }
    }

    /// Detaches `c`'s `DisablingActions` marker for domain `d0` aimed at
    /// `t`. Detaching a pair that does not exist is a no-op.
    pub fn detach_actions(&mut self, c: u64, d0: u64, t: u64)
        requires
            old(self).wf(),
        ensures
            final(self).wf(),
            forall|x: u64, d: u64| #![trigger final(self).link_actions_target(x, d)]
                final(self).link_actions_target(x, d) == (if x == c && d == d0 && old(self).link_actions_target(c, d0) == Some(t) { None::<u64> } else { old(self).link_actions_target(x, d) }),
            forall|x: u64, d: u64| #![trigger final(self).link_actions_recorded(x, d)]
                final(self).link_actions_recorded(x, d) == (if x == c && d == d0 && old(self).link_actions_target(c, d0) == Some(t) { Set::<u64>::empty() } else { old(self).link_actions_recorded(x, d) }),
            forall|x: u64, d: u64| #![trigger final(self).by_actions_controllers(x, d)]
                final(self).by_actions_controllers(x, d) == (if x == t && d == d0 && old(self).link_actions_target(c, d0) == Some(t) { old(self).by_actions_controllers(x, d).remove(c) } else { old(self).by_actions_controllers(x, d) }),
            forall|x: u64, d: u64, c2: u64| #![trigger final(self).by_actions_recorded(x, d, c2)]
                final(self).by_actions_recorded(x, d, c2) == (if x == t && d == d0 && c2 == c && old(self).link_actions_target(c, d0) == Some(t) { Set::<u64>::empty() } else { old(self).by_actions_recorded(x, d, c2) }),
            forall|x: u64| #![trigger final(self).has_unit_all(x)]
                final(self).has_unit_all(x) == old(self).has_unit_all(x),
            forall|x: u64| #![trigger final(self).has_entity(x)]
                final(self).has_entity(x) == old(self).has_entity(x),
            forall|x: u64, d: u64| #![trigger final(self).has_unit_state(x, d)]
                final(self).has_unit_state(x, d) == old(self).has_unit_state(x, d),
            forall|x: u64, d: u64| #![trigger final(self).has_unit_actions(x, d)]
                final(self).has_unit_actions(x, d) == old(self).has_unit_actions(x, d),
            forall|x: u64, d: u64| #![trigger final(self).unit_actions_of(x, d)]
                final(self).unit_actions_of(x, d) == old(self).unit_actions_of(x, d),
            forall|x: u64| #![trigger final(self).by_all_of(x)]
                final(self).by_all_of(x) == old(self).by_all_of(x),
            forall|x: u64, d: u64| #![trigger final(self).by_state_of(x, d)]
                final(self).by_state_of(x, d) == old(self).by_state_of(x, d),
            forall|x: u64| #![trigger final(self).link_all_of(x)]
                final(self).link_all_of(x) == old(self).link_all_of(x),
            forall|x: u64, d: u64| #![trigger final(self).link_state_of(x, d)]
                final(self).link_state_of(x, d) == old(self).link_state_of(x, d),
            forall|x: u64, d: u64| #![trigger final(self).has_state(x, d)]
                final(self).has_state(x, d) == old(self).has_state(x, d),
    {
        let link: Option<u64> = match self.entities.get(c) {
            Some(r0) => match r0.link_actions.get(d0) {
                Some(ca) => Some(ca.target),
                None => None,
            },
            None => None,
        };
        match link {
            Some(t0) => {
                if t0 == t {
                    self.unlink_actions(c, d0);
                }
            },
            None => {},
        }
    }
}

impl Store {
    /// Whether an input state for domain `d` exists on `e`.
    pub fn has_action_state(&self, e: u64, d: u64) -> (r: bool)
        requires
            self.wf(),
        ensures
            r == self.has_state(e, d),
    {
        match self.entities.get(e) {
            Some(r0) => {
                proof {
                    assert(self.entities@.contains_key(e));
                }
                r0.states.contains_key(d)
            },
            None => false,
        }
    }

    /// The whole-state disabled flag of `e`'s input state for domain
    /// `d`, or nothing if no such state exists.
    pub fn is_disabled(&self, e: u64, d: u64) -> (r: Option<bool>)
        requires
            self.wf(),
        ensures
            r is Some <==> self.has_state(e, d),
            self.has_state(e, d) ==> r == Some(self.state_disabled(e, d)),
    {
        match self.entities.get(e) {
            Some(r0) => {
                proof {
                    assert(self.entities@.contains_key(e));
                }
                match r0.states.get(d) {
                    Some(st) => Some(st.is_disabled()),
                    None => None,
                }
            },
            None => None,
        }
    }

    /// Whether action `a` of domain `d` is disabled on `e`, or nothing
    /// if no input state for that domain exists.
    pub fn is_action_disabled(&self, e: u64, d: u64, a: u64) -> (r: Option<bool>)
        requires
            self.wf(),
        ensures
            r is Some <==> self.has_state(e, d),
            self.has_state(e, d) ==> r == Some(self.state_actions(e, d).contains(a)),
    {
        match self.entities.get(e) {
            Some(r0) => {
                proof {
                    assert(self.entities@.contains_key(e));
                }
                match r0.states.get(d) {
                    Some(st) => Some(st.action_disabled(a)),
                    None => None,
                }
            },
            None => None,
        }
    }

    /// The `AllActionStatesDisabledBy` ledger entry of `e`: the
    /// controllers disabling all of its states, or nothing while no
    /// controller does.
    pub fn all_disabled_by(&self, e: u64) -> (r: Option<AllActionStatesDisabledBy>)
        requires
            self.wf(),
        ensures
            r is Some <==> !self.by_all_of(e).is_empty(),
            r matches Some(v) ==> v.controllers@.to_set() == self.by_all_of(e)
                && v.controllers@.no_duplicates(),
    {
        match self.entities.get(e) {
            Some(r0) => {
                proof {
                    assert(self.entities@.contains_key(e));
                }
                if r0.by_all.is_empty() {
                    None
                } else {
                    Some(AllActionStatesDisabledBy { controllers: r0.by_all.to_vec() })
                }
            },
            None => None,
        }
    }

    /// The `ActionStateDisabledBy` ledger entry of `e` for domain `d`,
    /// or nothing while no controller disables that domain's state.
    pub fn state_disabled_by(&self, e: u64, d: u64) -> (r: Option<ActionStateDisabledBy>)
        requires
            self.wf(),
        ensures
            r is Some <==> !self.by_state_of(e, d).is_empty(),
            r matches Some(v) ==> v.domain == d && v.controllers@.to_set() == self.by_state_of(
                e,
                d,
            ) && v.controllers@.no_duplicates(),
    {
        match self.entities.get(e) {
            Some(r0) => {
                proof {
                    assert(self.entities@.contains_key(e));
                }
                match r0.by_state.get(d) {
                    Some(cs) => Some(
                        ActionStateDisabledBy { domain: d, controllers: cs.to_vec() },
                    ),
                    None => None,
                }
            },
            None => None,
        }
    }

    /// The `ActionsDisabledBy` ledger entry of `e` for domain `d`, or
    /// nothing while no controller disables actions of that domain.
    pub fn actions_disabled_by(&self, e: u64, d: u64) -> (r: Option<ActionsDisabledBy>)
        requires
            self.wf(),
        ensures
            r is Some <==> !self.by_actions_controllers(e, d).is_empty(),
            r matches Some(v) ==> v.domain == d && v.disablers@.to_set()
                == self.by_actions_controllers(e, d) && v.disablers@.no_duplicates(),
    {
        match self.entities.get(e) {
            Some(r0) => {
                proof {
                    assert(self.entities@.contains_key(e));
                }
                match r0.by_actions.get(d) {
                    Some(inner) => {
                        let ks = inner.keys_vec();
                        proof {
                            assert(ks@.to_set() =~= inner@.dom());
                            assert(inner@ != Map::<u64, IdSet>::empty());
                            assert(!inner@.dom().is_empty()) by {
                                if inner@.dom().is_empty() {
                                    assert(inner@ =~= Map::<u64, IdSet>::empty());
                                }
                            }
                        }
                        Some(ActionsDisabledBy { domain: d, disablers: ks })
                    },
                    None => None,
                }
            },
            None => None,
        }
    }
}

/// Recomputation is idempotent: the derived flags are a function of the
/// marker set alone, so recomputing a record again with no marker change
/// derives the same flags both times.
pub proof fn lemma_recompute_idempotent(r1: EntityRecord, r2: EntityRecord, d: u64, t: Trigger)
    requires
        r1.markers_eq(&r2),
    ensures
        r1.spec_should_disable(d, t) == r2.spec_should_disable(d, t),
        r1.spec_disabled_actions(d, t) == r2.spec_disabled_actions(d, t),
{
}

/// Soundness: under the store invariant an input state is disabled
/// exactly when at least one whole-state disabling marker for it exists —
/// a unit marker on the entity or a non-empty ledger entry, for the whole
/// entity or for its domain.
pub proof fn lemma_soundness(s: Store, e: u64, d: u64)
    requires
        s.wf(),
        s.has_state(e, d),
    ensures
        s.state_disabled(e, d) <==> (s.has_unit_all(e) || s.has_unit_state(e, d)
            || !s.by_all_of(e).is_empty() || !s.by_state_of(e, d).is_empty()),
{
    assert(s.entities@.contains_key(e));
    assert(s.rec(e).states@.contains_key(d));
    assert(s.rec(e).states@[d].disabled == s.rec(e).spec_should_disable(d, Trigger::Settled));
}

/// The disabled action set is the union of the unit marker actions and of
/// every action set recorded in the per-domain ledger entry.
pub proof fn lemma_action_soundness(s: Store, e: u64, d: u64)
    requires
        s.wf(),
        s.has_state(e, d),
    ensures
        s.state_actions(e, d) == s.unit_actions_of(e, d) + Set::new(
            |a: u64|
                exists|c: u64| #[trigger]
                    s.by_actions_controllers(e, d).contains(c) && s.by_actions_recorded(
                        e,
                        d,
                        c,
                    ).contains(a),
        ),
    {
    assert(s.entities@.contains_key(e));
    assert(s.rec(e).states@.contains_key(d));
    let r = s.rec(e);
    assert(r.states@[d].disabled_actions@ == r.spec_disabled_actions(d, Trigger::Settled));
    assert forall|a: u64|
        r.spec_disabled_actions(d, Trigger::Settled).contains(a) == (s.unit_actions_of(
            e,
            d,
        ) + Set::new(
            |a2: u64|
                exists|c: u64| #[trigger]
                    s.by_actions_controllers(e, d).contains(c) && s.by_actions_recorded(
                        e,
                        d,
                        c,
                    ).contains(a2),
        )).contains(a) by {
        if r.by_actions@.contains_key(d) {
            let m = r.by_actions@[d]@;
            if crate::engine::union_of_sets(m).contains(a) {
                let c = choose|c: u64| #[trigger] m.contains_key(c) && m[c]@.contains(a);
                assert(s.by_actions_controllers(e, d).contains(c));
                assert(s.by_actions_recorded(e, d, c).contains(a));
            }
            if exists|c: u64| #[trigger]
                s.by_actions_controllers(e, d).contains(c) && s.by_actions_recorded(
                    e,
                    d,
                    c,
                ).contains(a) {
                let c = choose|c: u64| #[trigger]
                    s.by_actions_controllers(e, d).contains(c) && s.by_actions_recorded(
                        e,
                        d,
                        c,
                    ).contains(a);
                assert(m.contains_key(c) && m[c]@.contains(a));
            }
        }
    }
    assert(r.spec_disabled_actions(d, Trigger::Settled) =~= s.unit_actions_of(e, d) + Set::new(
        |a2: u64|
            exists|c: u64| #[trigger]
                s.by_actions_controllers(e, d).contains(c) && s.by_actions_recorded(
                    e,
                    d,
                    c,
                ).contains(a2),
    ));
}

/// Multi-controller correctness: while two distinct controllers disable
/// one target domain, the state is disabled, and dropping one of them
/// leaves a non-empty controller set — the target stays disabled.
pub proof fn lemma_multi_controller(s: Store, e: u64, d: u64, c1: u64, c2: u64)
    requires
        s.wf(),
        s.has_state(e, d),
        s.by_state_of(e, d).contains(c1),
        s.by_state_of(e, d).contains(c2),
        c1 != c2,
    ensures
        s.state_disabled(e, d),
        !s.by_state_of(e, d).remove(c1).is_empty(),
{
    assert(!s.by_state_of(e, d).is_empty());
    lemma_soundness(s, e, d);
    assert(s.by_state_of(e, d).remove(c1).contains(c2));
}

/// Action-subset independence: a lone action-subset marker disables
/// exactly its own actions and never the whole state, whose flag is
/// governed by the state-level markers alone.
pub proof fn lemma_action_subset_independence(s: Store, e: u64, d: u64, a1: u64, a2: u64)
    requires
        s.wf(),
        s.has_state(e, d),
        s.unit_actions_of(e, d).contains(a1),
        !s.unit_actions_of(e, d).contains(a2),
        s.by_actions_controllers(e, d).is_empty(),
    ensures
        s.state_actions(e, d).contains(a1),
        !s.state_actions(e, d).contains(a2),
        s.state_disabled(e, d) <==> (s.has_unit_all(e) || s.has_unit_state(e, d)
            || !s.by_all_of(e).is_empty() || !s.by_state_of(e, d).is_empty()),
{
    lemma_soundness(s, e, d);
    lemma_action_soundness(s, e, d);
    assert forall|c: u64, a: u64|
        !(s.by_actions_controllers(e, d).contains(c) && #[trigger] s.by_actions_recorded(
            e,
            d,
            c,
        ).contains(a)) by {
        assert(!s.by_actions_controllers(e, d).contains(c));
    }
    assert(s.state_actions(e, d).contains(a1));
    assert(!s.state_actions(e, d).contains(a2));
}

/// Mirror consistency: a `Disabling*` marker exists on a controller
/// exactly when the target's corresponding ledger entry lists that
/// controller, and the recorded action sets agree; the store invariant
/// holds after every mutation, so this holds after every insert and
/// remove.
pub proof fn lemma_mirror_consistency(s: Store, c: u64, d: u64, t: u64)
    requires
        s.wf(),
    ensures
        (s.link_all_of(c) == Some(t)) <==> s.by_all_of(t).contains(c),
        (s.link_state_of(c, d) == Some(t)) <==> s.by_state_of(t, d).contains(c),
        (s.link_actions_target(c, d) == Some(t)) <==> s.by_actions_controllers(t, d).contains(
            c,
        ),
        s.link_actions_target(c, d) == Some(t) ==> s.by_actions_recorded(t, d, c)
            == s.link_actions_recorded(c, d),
{
    assert(s.by_all_of(t).contains(c) <==> (s.link_all_of(c) == Some(t)));
    assert(s.by_state_of(t, d).contains(c) <==> (s.link_state_of(c, d) == Some(t)));
    assert(s.by_actions_controllers(t, d).contains(c) <==> (s.link_actions_target(c, d)
        == Some(t)));
}

/// Retroactive application: a state-level marker already present when an
/// input state appears disables that state at once.
pub proof fn lemma_retroactive_application(s: Store, e: u64, d: u64)
    requires
        s.wf(),
        s.has_state(e, d),
        s.has_unit_state(e, d),
    ensures
        s.state_disabled(e, d),
{
    lemma_soundness(s, e, d);
}

} // verus!
