use action_disabler::markers::DisablingActionState;
use action_disabler::markers::DisablingActions;
use action_disabler::markers::DisablingAllActionStates;
use action_disabler::store::Store;

#[test]
fn two_controllers_remove_one_then_the_other() {
    let mut s = Store::new();
    let e = 1u64;
    let c1 = 2u64;
    let c2 = 3u64;
    let dom = 1u64;
    s.insert_action_state(e, dom);
    s.attach_state(c1, DisablingActionState { domain: dom, target: e });
    s.attach_state(c2, DisablingActionState { domain: dom, target: e });
    assert_eq!(s.is_disabled(e, dom), Some(true));

    // one controller lets go: the other still holds its marker
    s.detach_state(c1, dom, e);
    assert_eq!(s.is_disabled(e, dom), Some(true));

    // the last controller lets go: the state is re-enabled
    s.detach_state(c2, dom, e);
    assert_eq!(s.is_disabled(e, dom), Some(false));
}

#[test]
fn ledger_mirrors_attach_and_detach() {
    let mut s = Store::new();
    let e = 1u64;
    let c = 2u64;
    let dom = 4u64;
    s.insert_action_state(e, dom);

    s.attach_all(c, DisablingAllActionStates { target: e });
    let entry = s.all_disabled_by(e).unwrap();
    assert_eq!(entry.controllers, vec![c]);
    assert_eq!(s.is_disabled(e, dom), Some(true));

    s.detach_all(c, e);
    assert!(s.all_disabled_by(e).is_none());
    assert_eq!(s.is_disabled(e, dom), Some(false));

    s.attach_state(c, DisablingActionState { domain: dom, target: e });
    let entry = s.state_disabled_by(e, dom).unwrap();
    assert_eq!(entry.domain, dom);
    assert_eq!(entry.controllers, vec![c]);
    s.detach_state(c, dom, e);
    assert!(s.state_disabled_by(e, dom).is_none());

    s.attach_actions(
        c,
        DisablingActions { domain: dom, to_disable: e, actions_to_disable: vec![9] },
    );
    let entry = s.actions_disabled_by(e, dom).unwrap();
    assert_eq!(entry.domain, dom);
    assert_eq!(entry.disablers, vec![c]);
    assert_eq!(s.is_action_disabled(e, dom, 9), Some(true));
    s.detach_actions(c, dom, e);
    assert!(s.actions_disabled_by(e, dom).is_none());
    assert_eq!(s.is_action_disabled(e, dom, 9), Some(false));
}

#[test]
fn double_attach_by_one_controller_is_idempotent() {
    let mut s = Store::new();
    let e = 1u64;
    let c = 2u64;
    let dom = 1u64;
    s.insert_action_state(e, dom);
    s.attach_state(c, DisablingActionState { domain: dom, target: e });
    s.attach_state(c, DisablingActionState { domain: dom, target: e });
    let entry = s.state_disabled_by(e, dom).unwrap();
    assert_eq!(entry.controllers.len(), 1);
    s.detach_state(c, dom, e);
    assert_eq!(s.is_disabled(e, dom), Some(false));
    assert!(s.state_disabled_by(e, dom).is_none());
}

#[test]
fn reattaching_to_a_new_target_releases_the_old_one() {
    let mut s = Store::new();
    let e1 = 1u64;
    let e2 = 2u64;
    let c = 3u64;
    let dom = 1u64;
    s.insert_action_state(e1, dom);
    s.insert_action_state(e2, dom);
    s.attach_all(c, DisablingAllActionStates { target: e1 });
    assert_eq!(s.is_disabled(e1, dom), Some(true));
    s.attach_all(c, DisablingAllActionStates { target: e2 });
    assert_eq!(s.is_disabled(e1, dom), Some(false));
    assert_eq!(s.is_disabled(e2, dom), Some(true));
    assert!(s.all_disabled_by(e1).is_none());
}

#[test]
fn detach_of_a_nonexistent_pair_is_a_no_op() {
    let mut s = Store::new();
    let e = 1u64;
    let c1 = 2u64;
    let c2 = 3u64;
    let dom = 1u64;
    s.insert_action_state(e, dom);
    s.attach_state(c1, DisablingActionState { domain: dom, target: e });
    // wrong controller, wrong target, wrong domain: all no-ops
    s.detach_state(c2, dom, e);
    s.detach_state(c1, dom, 42);
    s.detach_state(c1, 9, e);
    s.detach_all(c1, e);
    s.detach_actions(c1, dom, e);
    assert_eq!(s.is_disabled(e, dom), Some(true));
    let entry = s.state_disabled_by(e, dom).unwrap();
    assert_eq!(entry.controllers, vec![c1]);
}

#[test]
fn self_disabling_loop_is_legal() {
    let mut s = Store::new();
    let e = 1u64;
    let dom = 1u64;
    s.insert_action_state(e, dom);
    s.attach_all(e, DisablingAllActionStates { target: e });
    assert_eq!(s.is_disabled(e, dom), Some(true));
    let entry = s.all_disabled_by(e).unwrap();
    assert_eq!(entry.controllers, vec![e]);
    s.detach_all(e, e);
    assert_eq!(s.is_disabled(e, dom), Some(false));
}

#[test]
fn mixed_kinds_compose_per_entity() {
    let mut s = Store::new();
    let e = 1u64;
    let c1 = 2u64;
    let c2 = 3u64;
    let dom = 1u64;
    s.insert_action_state(e, dom);
    s.attach_all(c1, DisablingAllActionStates { target: e });
    s.attach_state(c2, DisablingActionState { domain: dom, target: e });
    assert_eq!(s.is_disabled(e, dom), Some(true));
    // removing one kind's controller must not re-enable while the other
    // kind's controller still holds a marker
    s.detach_all(c1, e);
    assert_eq!(s.is_disabled(e, dom), Some(true));
    s.detach_state(c2, dom, e);
    assert_eq!(s.is_disabled(e, dom), Some(false));
}

#[test]
fn recorded_action_sets_union_across_controllers() {
    let mut s = Store::new();
    let e = 1u64;
    let c1 = 2u64;
    let c2 = 3u64;
    let dom = 1u64;
    s.insert_action_state(e, dom);
    s.attach_actions(
        c1,
        DisablingActions { domain: dom, to_disable: e, actions_to_disable: vec![7, 8] },
    );
    s.attach_actions(
        c2,
        DisablingActions { domain: dom, to_disable: e, actions_to_disable: vec![8, 9] },
    );
    assert_eq!(s.is_action_disabled(e, dom, 7), Some(true));
    assert_eq!(s.is_action_disabled(e, dom, 8), Some(true));
    assert_eq!(s.is_action_disabled(e, dom, 9), Some(true));
    assert_eq!(s.is_disabled(e, dom), Some(false));

    s.detach_actions(c1, dom, e);
    assert_eq!(s.is_action_disabled(e, dom, 7), Some(false));
    assert_eq!(s.is_action_disabled(e, dom, 8), Some(true));
    assert_eq!(s.is_action_disabled(e, dom, 9), Some(true));

    s.detach_actions(c2, dom, e);
    assert_eq!(s.is_action_disabled(e, dom, 8), Some(false));
    assert_eq!(s.is_action_disabled(e, dom, 9), Some(false));
}

#[test]
fn latent_relationship_applies_when_state_appears() {
    let mut s = Store::new();
    let e = 1u64;
    let c = 2u64;
    let dom = 1u64;
    s.attach_state(c, DisablingActionState { domain: dom, target: e });
    assert_eq!(s.is_disabled(e, dom), None);
    s.insert_action_state(e, dom);
    assert_eq!(s.is_disabled(e, dom), Some(true));
}
