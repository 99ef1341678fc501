use action_disabler::engine::Trigger;
use action_disabler::markers::ActionStateDisabled;
use action_disabler::markers::ActionsDisabled;
use action_disabler::markers::AllActionStatesDisabled;
use action_disabler::store::Store;

#[test]
fn scenario_state_level_disable_dominates() {
    let mut s = Store::new();
    let e = 10u64;
    let dom = 1u64;
    let jump = 100u64;
    let fire = 101u64;
    s.insert_action_state(e, dom);
    assert_eq!(s.is_disabled(e, dom), Some(false));
    assert_eq!(s.is_action_disabled(e, dom, jump), Some(false));
    assert_eq!(s.is_action_disabled(e, dom, fire), Some(false));

    s.insert_all_states_disabled(e, AllActionStatesDisabled);
    assert_eq!(s.is_disabled(e, dom), Some(true));

    s.insert_actions_disabled(e, ActionsDisabled { domain: dom, actions: vec![fire] });
    assert_eq!(s.is_disabled(e, dom), Some(true));
    assert_eq!(s.is_action_disabled(e, dom, fire), Some(true));

    s.remove_all_states_disabled(e);
    assert_eq!(s.is_disabled(e, dom), Some(false));
    assert_eq!(s.is_action_disabled(e, dom, jump), Some(false));
    assert_eq!(s.is_action_disabled(e, dom, fire), Some(true));

    s.remove_actions_disabled(e, dom);
    assert_eq!(s.is_action_disabled(e, dom, fire), Some(false));
}

#[test]
fn recompute_twice_yields_identical_flags() {
    let mut s = Store::new();
    s.insert_action_state(7, 1);
    s.insert_state_disabled(7, ActionStateDisabled { domain: 1 });
    s.insert_actions_disabled(7, ActionsDisabled { domain: 1, actions: vec![5, 6] });

    let mut r = s.entities.take_entry(7).unwrap();
    r.recompute_entity(Trigger::Settled);
    let disabled_1 = r.states.get(1).unwrap().is_disabled();
    let a5_1 = r.states.get(1).unwrap().action_disabled(5);
    let a9_1 = r.states.get(1).unwrap().action_disabled(9);
    r.recompute_entity(Trigger::Settled);
    let disabled_2 = r.states.get(1).unwrap().is_disabled();
    let a5_2 = r.states.get(1).unwrap().action_disabled(5);
    let a9_2 = r.states.get(1).unwrap().action_disabled(9);
    assert_eq!(disabled_1, disabled_2);
    assert_eq!(a5_1, a5_2);
    assert_eq!(a9_1, a9_2);
    assert!(disabled_1);
    assert!(a5_1);
    assert!(!a9_1);
}

#[test]
fn disabled_iff_some_marker_exists() {
    let mut s = Store::new();
    let e = 3u64;
    let dom = 2u64;
    s.insert_action_state(e, dom);
    assert_eq!(s.is_disabled(e, dom), Some(false));

    s.insert_state_disabled(e, ActionStateDisabled { domain: dom });
    assert_eq!(s.is_disabled(e, dom), Some(true));
    s.insert_all_states_disabled(e, AllActionStatesDisabled);
    assert_eq!(s.is_disabled(e, dom), Some(true));

    // one of two overlapping markers removed: still disabled
    s.remove_state_disabled(e, dom);
    assert_eq!(s.is_disabled(e, dom), Some(true));
    // the last marker removed: enabled again
    s.remove_all_states_disabled(e);
    assert_eq!(s.is_disabled(e, dom), Some(false));
}

#[test]
fn marker_for_one_domain_leaves_others_alone() {
    let mut s = Store::new();
    let e = 4u64;
    s.insert_action_state(e, 1);
    s.insert_action_state(e, 2);
    s.insert_state_disabled(e, ActionStateDisabled { domain: 1 });
    assert_eq!(s.is_disabled(e, 1), Some(true));
    assert_eq!(s.is_disabled(e, 2), Some(false));
    // the whole-entity marker spans every domain
    s.insert_all_states_disabled(e, AllActionStatesDisabled);
    assert_eq!(s.is_disabled(e, 2), Some(true));
}

#[test]
fn action_subset_independence() {
    let mut s = Store::new();
    let e = 5u64;
    let dom = 1u64;
    let a1 = 11u64;
    let a2 = 12u64;
    s.insert_action_state(e, dom);
    s.insert_actions_disabled(e, ActionsDisabled { domain: dom, actions: vec![a1] });
    assert_eq!(s.is_action_disabled(e, dom, a1), Some(true));
    assert_eq!(s.is_action_disabled(e, dom, a2), Some(false));
    assert_eq!(s.is_disabled(e, dom), Some(false));

    // a separate state-level marker disables the whole state
    // independently of the action set
    s.insert_state_disabled(e, ActionStateDisabled { domain: dom });
    assert_eq!(s.is_disabled(e, dom), Some(true));
    assert_eq!(s.is_action_disabled(e, dom, a1), Some(true));
    assert_eq!(s.is_action_disabled(e, dom, a2), Some(false));
}

#[test]
fn retroactive_application_on_state_insertion() {
    let mut s = Store::new();
    let e = 6u64;
    let dom = 1u64;
    s.insert_state_disabled(e, ActionStateDisabled { domain: dom });
    assert_eq!(s.is_disabled(e, dom), None);
    s.insert_action_state(e, dom);
    assert_eq!(s.is_disabled(e, dom), Some(true));
    s.remove_state_disabled(e, dom);
    assert_eq!(s.is_disabled(e, dom), Some(false));
}

#[test]
fn latent_markers_without_state_are_inert() {
    let mut s = Store::new();
    let e = 8u64;
    s.insert_all_states_disabled(e, AllActionStatesDisabled);
    s.insert_actions_disabled(e, ActionsDisabled { domain: 1, actions: vec![2] });
    assert_eq!(s.is_disabled(e, 1), None);
    assert_eq!(s.is_action_disabled(e, 1, 2), None);
    assert!(!s.has_action_state(e, 1));
}

#[test]
fn removing_absent_markers_is_a_no_op() {
    let mut s = Store::new();
    let e = 9u64;
    s.insert_action_state(e, 1);
    s.remove_all_states_disabled(e);
    s.remove_state_disabled(e, 1);
    s.remove_actions_disabled(e, 1);
    s.remove_all_states_disabled(77);
    assert_eq!(s.is_disabled(e, 1), Some(false));
}

#[test]
fn duplicate_actions_collapse_to_a_set() {
    let mut s = Store::new();
    let e = 12u64;
    let dom = 1u64;
    s.insert_action_state(e, dom);
    s.insert_actions_disabled(
        e,
        ActionsDisabled { domain: dom, actions: vec![4, 4, 5, 4] },
    );
    assert_eq!(s.is_action_disabled(e, dom, 4), Some(true));
    assert_eq!(s.is_action_disabled(e, dom, 5), Some(true));
    assert_eq!(s.is_action_disabled(e, dom, 6), Some(false));
    s.remove_actions_disabled(e, dom);
    assert_eq!(s.is_action_disabled(e, dom, 4), Some(false));
    assert_eq!(s.is_action_disabled(e, dom, 5), Some(false));
}

#[test]
fn replacing_the_action_subset_marker() {
    let mut s = Store::new();
    let e = 13u64;
    let dom = 1u64;
    s.insert_action_state(e, dom);
    s.insert_actions_disabled(e, ActionsDisabled { domain: dom, actions: vec![1, 2] });
    assert_eq!(s.is_action_disabled(e, dom, 1), Some(true));
    // a second insertion replaces the singleton record per entity
    s.insert_actions_disabled(e, ActionsDisabled { domain: dom, actions: vec![3] });
    assert_eq!(s.is_action_disabled(e, dom, 1), Some(false));
    assert_eq!(s.is_action_disabled(e, dom, 2), Some(false));
    assert_eq!(s.is_action_disabled(e, dom, 3), Some(true));
}

#[test]
fn empty_action_list_disables_nothing() {
    let mut s = Store::new();
    let e = 14u64;
    let dom = 1u64;
    s.insert_action_state(e, dom);
    s.insert_actions_disabled(e, ActionsDisabled { domain: dom, actions: vec![] });
    assert_eq!(s.is_disabled(e, dom), Some(false));
    assert_eq!(s.is_action_disabled(e, dom, 1), Some(false));
}

#[test]
fn removing_the_input_state_keeps_markers_latent() {
    let mut s = Store::new();
    let e = 15u64;
    let dom = 1u64;
    s.insert_action_state(e, dom);
    s.insert_state_disabled(e, ActionStateDisabled { domain: dom });
    assert_eq!(s.is_disabled(e, dom), Some(true));
    s.remove_action_state(e, dom);
    assert_eq!(s.is_disabled(e, dom), None);
    s.insert_action_state(e, dom);
    assert_eq!(s.is_disabled(e, dom), Some(true));
}
