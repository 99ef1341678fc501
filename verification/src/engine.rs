//! The recomputation engine and the per-entity record it runs on.
//!
//! All records attached to one entity live in an `EntityRecord`: its input
//! states, its own unit markers, the ledger entries mirrored onto it as a
//! target, and the relationship markers it holds as a controller. On every
//! marker change the engine re-derives each input state's flags from the
//! complete current marker set — level-triggered, never incremental.
//!
//! A removal hook runs before the record is actually gone, so a removal is
//! recomputed with the triggering marker named as excluded and treated as
//! absent, whatever the record set still reports.

use crate::action_state::ActionState;
use crate::assoc::AssocMap;
use crate::id_set::lemma_take_succ;
use crate::id_set::IdSet;
use vstd::prelude::*;

verus! {

/// Names the marker whose removal triggered a recomputation; that marker
/// is treated as absent even though it is still present in the record.
#[derive(Clone, Copy, Debug, PartialEq, Eq, Structural)]
pub enum RemovedMarker {
    UnitAll,
    UnitState(u64),
    UnitActions(u64),
    LedgerAll,
    LedgerState(u64),
    LedgerActions(u64),
}

/// What triggered a recomputation: an insertion (or any settled view of
/// the record set), or the pending removal of one marker.
#[derive(Clone, Copy, Debug, PartialEq, Eq, Structural)]
pub enum Trigger {
    Settled,
    Removing(RemovedMarker),
}

/// The controller-side payload of a `DisablingActions` marker: the target
/// and the recorded action set.
pub struct ControlledActions {
    pub target: u64,
    pub actions: IdSet,
}

/// Every record attached to one entity.
pub struct EntityRecord {
    /// Input states, one per domain.
    pub states: AssocMap<ActionState>,
    /// `AllActionStatesDisabled` present.
    pub unit_all: bool,
    /// Domains with `ActionStateDisabled`.
    pub unit_state: IdSet,
    /// Domain to the action set of its `ActionsDisabled` marker.
    pub unit_actions: AssocMap<IdSet>,
    /// Controllers in the `AllActionStatesDisabledBy` ledger entry.
    pub by_all: IdSet,
    /// Domain to the controllers of its `ActionStateDisabledBy` entry.
    pub by_state: AssocMap<IdSet>,
    /// Domain to its `ActionsDisabledBy` entry: each controller with the
    /// actions it recorded.
    pub by_actions: AssocMap<AssocMap<IdSet>>,
    /// Target of a held `DisablingAllActionStates` marker.
    pub link_all: Option<u64>,
    /// Domain to the target of a held `DisablingActionState` marker.
    pub link_state: AssocMap<u64>,
    /// Domain to the payload of a held `DisablingActions` marker.
    pub link_actions: AssocMap<ControlledActions>,
}

/// The union of all action sets recorded in one ledger entry.
pub open spec fn union_of_sets(m: Map<u64, IdSet>) -> Set<u64> {
    Set::new(|a: u64| exists|c: u64| #[trigger] m.contains_key(c) && m[c]@.contains(a))
}

impl EntityRecord {
    /// Well-formedness of the marker and ledger fields.
    pub open spec fn markers_wf(&self) -> bool {
        &&& self.unit_state.wf()
        &&& self.unit_actions.wf()
        &&& forall|d: u64| #[trigger]
            self.unit_actions@.contains_key(d) ==> self.unit_actions@[d].wf()
        &&& self.by_all.wf()
        &&& self.by_state.wf()
        &&& forall|d: u64| #[trigger]
            self.by_state@.contains_key(d) ==> self.by_state@[d].wf()
                && !self.by_state@[d]@.is_empty()
        &&& self.by_actions.wf()
        &&& forall|d: u64| #[trigger]
            self.by_actions@.contains_key(d) ==> self.by_actions@[d].wf() && self.by_actions@[d]@
                != Map::<u64, IdSet>::empty()
        &&& forall|d: u64, c: u64|
            self.by_actions@.contains_key(d) && #[trigger] self.by_actions@[d]@.contains_key(c)
                ==> self.by_actions@[d]@[c].wf()
        &&& self.link_state.wf()
        &&& self.link_actions.wf()
        &&& forall|d: u64| #[trigger]
            self.link_actions@.contains_key(d) ==> self.link_actions@[d].actions.wf()
    }

    /// Well-formedness of the input states.
    pub open spec fn states_wf(&self) -> bool {
        &&& self.states.wf()
        &&& forall|d: u64| #[trigger] self.states@.contains_key(d) ==> self.states@[d].inv()
    }

    /// The marker fields of the two records agree; the input states may
    /// differ.
    pub open spec fn markers_eq(&self, other: &EntityRecord) -> bool {
        &&& self.unit_all == other.unit_all
        &&& self.unit_state == other.unit_state
        &&& self.unit_actions == other.unit_actions
        &&& self.by_all == other.by_all
        &&& self.by_state == other.by_state
        &&& self.by_actions == other.by_actions
        &&& self.link_all == other.link_all
        &&& self.link_state == other.link_state
        &&& self.link_actions == other.link_actions
    }

    /// Whether the whole input state of domain `d` must be disabled:
    /// a unit marker on the entity, or a non-empty ledger entry, for the
    /// whole entity or for this domain — ignoring the marker being
    /// removed, if any.
    pub open spec fn spec_should_disable(&self, d: u64, t: Trigger) -> bool {
        ||| (self.unit_all && t != Trigger::Removing(RemovedMarker::UnitAll))
        ||| (self.unit_state@.contains(d) && t != Trigger::Removing(
            RemovedMarker::UnitState(d),
        ))
        ||| (!self.by_all@.is_empty() && t != Trigger::Removing(RemovedMarker::LedgerAll))
        ||| (self.by_state@.contains_key(d) && !self.by_state@[d]@.is_empty() && t
            != Trigger::Removing(RemovedMarker::LedgerState(d)))
    }

    /// The actions of domain `d` that must be disabled: the union of the
    /// unit marker's actions and of every action set recorded in the
    /// ledger entry — ignoring the marker being removed, if any.
    pub open spec fn spec_disabled_actions(&self, d: u64, t: Trigger) -> Set<u64> {
        (if self.unit_actions@.contains_key(d) && t != Trigger::Removing(
            RemovedMarker::UnitActions(d),
        ) {
            self.unit_actions@[d]@
        } else {
            Set::empty()
        }) + (if self.by_actions@.contains_key(d) && t != Trigger::Removing(
            RemovedMarker::LedgerActions(d),
        ) {
            union_of_sets(self.by_actions@[d]@)
        } else {
            Set::empty()
        })
    }

    /// Every input state carries exactly the flags the settled marker set
    /// derives: the record is what the recomputation engine leaves behind.
    pub open spec fn synced(&self) -> bool {
        forall|d: u64| #[trigger]
            self.states@.contains_key(d) ==> {
                &&& self.states@[d].disabled == self.spec_should_disable(d, Trigger::Settled)
                &&& self.states@[d].disabled_actions@ == self.spec_disabled_actions(
                    d,
                    Trigger::Settled,
                )
            }
    }

    /// An entity with no records at all.
    pub fn empty() -> (r: EntityRecord)
        ensures
            r.markers_wf(),
            r.states_wf(),
            r.synced(),
            !r.unit_all,
            r.unit_state@ == Set::<u64>::empty(),
            r.unit_actions@ == Map::<u64, IdSet>::empty(),
            r.by_all@ == Set::<u64>::empty(),
            r.by_state@ == Map::<u64, IdSet>::empty(),
            r.by_actions@ == Map::<u64, AssocMap<IdSet>>::empty(),
            r.link_all is None,
            r.link_state@ == Map::<u64, u64>::empty(),
            r.link_actions@ == Map::<u64, ControlledActions>::empty(),
            r.states@ == Map::<u64, ActionState>::empty(),
    {
        EntityRecord {
            states: AssocMap::new(),
            unit_all: false,
            unit_state: IdSet::new(),
            unit_actions: AssocMap::new(),
            by_all: IdSet::new(),
            by_state: AssocMap::new(),
            by_actions: AssocMap::new(),
            link_all: None,
            link_state: AssocMap::new(),
            link_actions: AssocMap::new(),
        }
    }

    /// Step 2 of the recomputation algorithm: derive the whole-state flag
    /// from the markers now present, minus the excluded one.
    pub fn compute_should_disable(&self, d: u64, t: Trigger) -> (b: bool)
        requires
            self.markers_wf(),
        ensures
            b == self.spec_should_disable(d, t),
    {
        let a1 = self.unit_all && t != Trigger::Removing(RemovedMarker::UnitAll);
        let a2 = self.unit_state.contains(d) && t != Trigger::Removing(
            RemovedMarker::UnitState(d),
        );
        let a3 = !self.by_all.is_empty() && t != Trigger::Removing(RemovedMarker::LedgerAll);
        let a4 = (match self.by_state.get(d) {
            Some(cs) => !cs.is_empty(),
            None => false,
        }) && t != Trigger::Removing(RemovedMarker::LedgerState(d));
        a1 || a2 || a3 || a4
    }

    /// Step 3 of the recomputation algorithm: union every action set that
    /// a marker now present records for domain `d`, minus the excluded
    /// marker's.
    #[verifier::loop_isolation(false)]
    pub fn compute_disabled_actions(&self, d: u64, t: Trigger) -> (u: IdSet)
        requires
            self.markers_wf(),
        ensures
            u.wf(),
            u@ == self.spec_disabled_actions(d, t),
    {
        let mut u = IdSet::new();
        if t != Trigger::Removing(RemovedMarker::UnitActions(d)) {
            if let Some(s) = self.unit_actions.get(d) {
                u.add_all(s);
            }
        }
        let ghost unit_part = u@;
        if t != Trigger::Removing(RemovedMarker::LedgerActions(d)) {
            if let Some(inner) = self.by_actions.get(d) {
                let ks = inner.keys_vec();
                let mut j: usize = 0;
                while j < ks.len()
                    invariant
                        j <= ks.len(),
                        u.wf(),
                        u@ == unit_part + Set::new(
                            |a: u64|
                                exists|jj: int|
                                    0 <= jj < j && #[trigger] inner@[ks@[jj]]@.contains(a),
                        ),
                    decreases ks.len() - j,
                {
                    let ghost prev = u@;
                    if let Some(cs) = inner.get(ks[j]) {
                        u.add_all(cs);
                    }
                    proof {
                        assert(inner@.contains_key(ks@[j as int]));
                        assert(u@ == prev + inner@[ks@[j as int]]@);
                        assert forall|a: u64|
                            u@.contains(a) <==> (unit_part + Set::new(
                                |a: u64|
                                    exists|jj: int|
                                        0 <= jj < j + 1 && #[trigger] inner@[ks@[jj]]@.contains(
                                            a,
                                        ),
                            )).contains(a) by {
                            if u@.contains(a) && !prev.contains(a) {
                                assert(inner@[ks@[j as int]]@.contains(a));
                            }
                        }
                        assert(u@ =~= unit_part + Set::new(
                            |a: u64|
                                exists|jj: int|
                                    0 <= jj < j + 1 && #[trigger] inner@[ks@[jj]]@.contains(a),
                        ));
                    }
                    j += 1;
                }
                proof {
                    assert forall|a: u64|
                        u@.contains(a) <==> (unit_part + union_of_sets(inner@)).contains(a) by {
                        if u@.contains(a) && !unit_part.contains(a) {
                            let jj = choose|jj: int|
                                0 <= jj < ks@.len() && #[trigger] inner@[ks@[jj]]@.contains(a);
                            assert(inner@.contains_key(ks@[jj]));
                        }
                        if union_of_sets(inner@).contains(a) {
                            let c = choose|c: u64| #[trigger]
                                inner@.contains_key(c) && inner@[c]@.contains(a);
                            assert(ks@.contains(c));
                            let jj = choose|jj: int| 0 <= jj < ks@.len() && ks@[jj] == c;
                            assert(inner@[ks@[jj]]@.contains(a));
                        }
                    }
                    assert(u@ =~= unit_part + union_of_sets(inner@));
                }
            }
        }
        proof {
            assert(u@ =~= self.spec_disabled_actions(d, t));
        }
        u
    }

    /// Step 4 of the recomputation algorithm, for one input state: set the
    /// derived whole-state flag, then walk the actions through the input
    /// state's own enable/disable operations until exactly the derived set
    /// is disabled.
    #[verifier::loop_isolation(false)]
    fn apply_flags(st: &mut ActionState, sd: bool, acts: &IdSet)
        requires
            old(st).inv(),
            acts.wf(),
        ensures
            final(st).inv(),
            final(st).disabled == sd,
            final(st).disabled_actions@ == acts@,
    {
        if sd {
            st.disable();
        } else {
            st.enable();
        }
        let ghost base = st.disabled_actions@;
        let cur = st.disabled_actions.to_vec();
        let mut i: usize = 0;
        while i < cur.len()
            invariant
                i <= cur.len(),
                st.inv(),
                st.disabled == sd,
                st.disabled_actions@ == Set::new(
                    |x: u64|
                        base.contains(x) && (acts@.contains(x) || !cur@.take(
                            i as int,
                        ).contains(x)),
                ),
            decreases cur.len() - i,
        {
            let a = cur[i];
            let ghost prevset = st.disabled_actions@;
            if !acts.contains(a) {
                st.enable_action(a);
            }
            proof {
                lemma_take_succ(cur@, i as int);
                assert forall|x: u64|
                    st.disabled_actions@.contains(x) == (base.contains(x) && (acts@.contains(
                        x,
                    ) || !cur@.take(i as int + 1).contains(x))) by {
                    assert(cur@.take(i as int + 1).contains(x) <==> (cur@.take(
                        i as int,
                    ).contains(x) || x == cur@[i as int]));
                }
                assert(st.disabled_actions@ =~= Set::new(
                    |x: u64|
                        base.contains(x) && (acts@.contains(x) || !cur@.take(
                            i as int + 1,
                        ).contains(x)),
                ));
            }
            i += 1;
        }
        proof {
            assert(cur@.take(cur@.len() as int) =~= cur@);
        }
        let tv = acts.to_vec();
        let ghost mid = st.disabled_actions@;
        let mut i2: usize = 0;
        while i2 < tv.len()
            invariant
                i2 <= tv.len(),
                st.inv(),
                st.disabled == sd,
                st.disabled_actions@ == mid + tv@.take(i2 as int).to_set(),
            decreases tv.len() - i2,
        {
            st.disable_action(tv[i2]);
            proof {
                lemma_take_succ(tv@, i2 as int);
                assert forall|x: u64|
                    st.disabled_actions@.contains(x) == (mid + tv@.take(
                        i2 as int + 1,
                    ).to_set()).contains(x) by {
                    assert(tv@.take(i2 as int + 1).contains(x) <==> (tv@.take(
                        i2 as int,
                    ).contains(x) || x == tv@[i2 as int]));
                    assert(tv@.take(i2 as int + 1).to_set().contains(x) == tv@.take(
                        i2 as int + 1,
                    ).contains(x));
                    assert(tv@.take(i2 as int).to_set().contains(x) == tv@.take(
                        i2 as int,
                    ).contains(x));
                }
                assert(st.disabled_actions@ =~= mid + tv@.take(i2 as int + 1).to_set());
            }
            i2 += 1;
        }
        proof {
            assert(tv@.take(tv@.len() as int) =~= tv@);
            assert forall|x: u64| st.disabled_actions@.contains(x) == acts@.contains(x) by {
                assert(tv@.contains(x) == acts@.contains(x));
                assert(mid.contains(x) == (base.contains(x) && acts@.contains(x)));
            }
            assert(st.disabled_actions@ =~= acts@);
        }
    }

    /// Recomputes the input state of one domain from the markers now
    /// present, treating the marker named by `t` as absent. An absent
    /// input state is left alone: the effect is deferred until one is
    /// inserted.
    pub fn recompute_domain(&mut self, d: u64, t: Trigger)
        requires
            old(self).markers_wf(),
            old(self).states_wf(),
        ensures
            final(self).markers_eq(old(self)),
            final(self).states_wf(),
            final(self).states@.dom() == old(self).states@.dom(),
            forall|d2: u64| #[trigger]
                final(self).states@.contains_key(d2) && d2 != d ==> final(self).states@[d2]
                    == old(self).states@[d2],
            old(self).states@.contains_key(d) ==> {
                &&& final(self).states@[d].disabled == old(self).spec_should_disable(d, t)
                &&& final(self).states@[d].disabled_actions@ == old(self).spec_disabled_actions(
                    d,
                    t,
                )
            },
    {
        let sd = self.compute_should_disable(d, t);
        let acts = self.compute_disabled_actions(d, t);
        match self.states.take_entry(d) {
            Some(mut st) => {
                Self::apply_flags(&mut st, sd, &acts);
                self.states.insert(d, st);
                proof {
                    assert(final(self).states@.dom() =~= old(self).states@.dom());
                }
            },
            None => {
                proof {
                    assert(final(self).states@.dom() =~= old(self).states@.dom());
                }
            },
        }
    }

    /// Recomputes every input state on the entity from the markers now
    /// present, treating the marker named by `t` as absent.
    #[verifier::loop_isolation(false)]
    pub fn recompute_entity(&mut self, t: Trigger)
        requires
            old(self).markers_wf(),
            old(self).states_wf(),
        ensures
            final(self).markers_eq(old(self)),
            final(self).states_wf(),
            final(self).states@.dom() == old(self).states@.dom(),
            forall|d: u64| #[trigger]
                final(self).states@.contains_key(d) ==> {
                    &&& final(self).states@[d].disabled == old(self).spec_should_disable(d, t)
                    &&& final(self).states@[d].disabled_actions@ == old(
                        self,
                    ).spec_disabled_actions(d, t)
                },
    {
        let ds = self.states.keys_vec();
        let mut j: usize = 0;
        while j < ds.len()
            invariant
                j <= ds.len(),
                self.markers_eq(old(self)),
                self.states_wf(),
                self.states@.dom() == old(self).states@.dom(),
                forall|d: u64| #[trigger]
                    self.states@.contains_key(d) ==> {
                        if ds@.take(j as int).contains(d) {
                            &&& self.states@[d].disabled == old(self).spec_should_disable(d, t)
                            &&& self.states@[d].disabled_actions@ == old(
                                self,
                            ).spec_disabled_actions(d, t)
                        } else {
                            self.states@[d] == old(self).states@[d]
                        }
                    },
            decreases ds.len() - j,
        {
            let d = ds[j];
            proof {
                assert(self.spec_should_disable(d, t) == old(self).spec_should_disable(d, t));
                assert(self.spec_disabled_actions(d, t) == old(self).spec_disabled_actions(
                    d,
                    t,
                ));
            }
            self.recompute_domain(d, t);
            proof {
                lemma_take_succ(ds@, j as int);
            }
            j += 1;
        }
        proof {
            assert(ds@.take(ds@.len() as int) =~= ds@);
        }
    }
}

} // verus!
