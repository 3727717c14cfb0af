use hotkey_listener::error::Error;
use hotkey_listener::registry::ActionRegistry;

const A: u32 = 20;
const B: u32 = 21;
const CTRL: u32 = 60;
const SHIFT: u32 = 65;
const WINDOW: u64 = 200_000_000;
const MS: u64 = 1_000_000;
const T0: u64 = 3_600_000_000_000;

fn s(name: &str) -> String {
    name.to_string()
}

#[test]
fn a_new_registry_is_empty() {
    let registry = ActionRegistry::new();
    assert_eq!(registry.handle_count(), 0);
    assert!(registry.action_names().is_empty());
    assert!(!registry.uses_key(A));
    assert!(registry.action(0).is_none());
    assert!(registry.find(&s("X"), &[A]).is_none());
}

#[test]
fn handles_count_up_from_zero() {
    let mut registry = ActionRegistry::new();
    assert!(matches!(registry.register(&s("X"), &[A, CTRL], T0), Ok(0)));
    assert!(matches!(registry.register(&s("Y"), &[A, SHIFT], T0), Ok(1)));
    assert!(matches!(registry.register(&s("Z"), &[B], T0), Ok(2)));
    assert_eq!(registry.handle_count(), 3);
    assert_eq!(registry.action_names(), vec![s("X"), s("Y"), s("Z")]);
}

#[test]
fn registering_the_same_keys_in_another_order_is_refused() {
    let mut registry = ActionRegistry::new();
    assert!(registry.register(&s("X"), &[A, CTRL], T0).is_ok());
    let again = registry.register(&s("X"), &[CTRL, A], T0);
    assert!(matches!(again, Err(Error::ActionAlreadyExists)));
    let again = registry.register(&s("X"), &[CTRL, A, CTRL], T0);
    assert!(matches!(again, Err(Error::ActionAlreadyExists)));
    assert_eq!(registry.handle_count(), 1);
    assert_eq!(registry.action_names(), vec![s("X")]);
}

#[test]
fn same_name_over_other_keys_is_another_action() {
    let mut registry = ActionRegistry::new();
    assert!(matches!(registry.register(&s("Test"), &[A, CTRL], T0), Ok(0)));
    assert!(matches!(registry.register(&s("Test"), &[B, CTRL], T0), Ok(1)));
    assert!(matches!(registry.register(&s("Test"), &[A], T0), Ok(2)));
    assert_eq!(registry.action_names(), vec![s("Test"), s("Test"), s("Test")]);
}

#[test]
fn another_name_over_the_same_keys_is_another_action() {
    let mut registry = ActionRegistry::new();
    assert!(matches!(registry.register(&s("APressed"), &[B, CTRL], T0), Ok(0)));
    assert!(matches!(registry.register(&s("Test"), &[B, CTRL], T0), Ok(1)));
    assert_eq!(registry.find(&s("APressed"), &[CTRL, B]), Some(0));
    assert_eq!(registry.find(&s("Test"), &[CTRL, B]), Some(1));
}

#[test]
fn an_empty_key_set_is_refused() {
    let mut registry = ActionRegistry::new();
    let r = registry.register(&s("Nothing"), &[], T0);
    assert!(matches!(r, Err(Error::EmptyKeySet)));
    assert_eq!(registry.handle_count(), 0);
}

#[test]
fn find_tells_the_handle() {
    let mut registry = ActionRegistry::new();
    registry.register(&s("X"), &[A, CTRL], T0).unwrap();
    registry.register(&s("Y"), &[A, SHIFT], T0).unwrap();
    assert_eq!(registry.find(&s("Y"), &[SHIFT, A]), Some(1));
    assert_eq!(registry.find(&s("X"), &[CTRL, A]), Some(0));
    assert_eq!(registry.find(&s("X"), &[A]), None);
    assert_eq!(registry.find(&s("X"), &[A, CTRL, SHIFT]), None);
    assert_eq!(registry.find(&s("Y"), &[A, CTRL]), None);
    assert_eq!(registry.find(&s("X"), &[]), None);
}

#[test]
fn a_new_action_is_backdated() {
    let mut registry = ActionRegistry::new();
    registry.register(&s("X"), &[A, CTRL], T0).unwrap();
    let action = registry.action(0).unwrap();
    assert_eq!(action.name(), "X");
    assert_eq!(action.last_press(A), Some(T0 as i128 - 60_000_000_000));
    assert_eq!(action.last_press(CTRL), Some(T0 as i128 - 60_000_000_000));
    assert_eq!(action.last_press(SHIFT), None);
}

#[test]
fn first_seen_keys_are_those_not_in_use() {
    let mut registry = ActionRegistry::new();
    assert_eq!(registry.keys_first_seen(&[A, CTRL]), vec![A, CTRL]);
    assert_eq!(registry.keys_first_seen(&[CTRL, A, CTRL, A]), vec![CTRL, A]);
    registry.register(&s("X"), &[A, CTRL], T0).unwrap();
    assert_eq!(registry.keys_first_seen(&[A, SHIFT]), vec![SHIFT]);
    assert_eq!(registry.keys_first_seen(&[SHIFT, B, A, SHIFT]), vec![SHIFT, B]);
    assert_eq!(registry.keys_first_seen(&[A, CTRL]), Vec::<u32>::new());
    assert_eq!(registry.keys_first_seen(&[]), Vec::<u32>::new());
}

#[test]
fn uses_key_follows_the_registered_actions() {
    let mut registry = ActionRegistry::new();
    registry.register(&s("X"), &[A, CTRL], T0).unwrap();
    assert!(registry.uses_key(A));
    assert!(registry.uses_key(CTRL));
    assert!(!registry.uses_key(SHIFT));
}

#[test]
fn both_keys_within_the_window_fire() {
    let mut registry = ActionRegistry::new();
    registry.register(&s("AB"), &[A, B], T0).unwrap();
    assert_eq!(registry.record_key_press(A, T0), vec![0]);
    assert!(registry.names_fired(A, T0, WINDOW).is_empty());
    assert_eq!(registry.record_key_press(B, T0 + 100 * MS), vec![0]);
    assert_eq!(registry.names_fired(B, T0 + 100 * MS, WINDOW), vec![s("AB")]);
}

#[test]
fn a_stale_key_keeps_the_action_from_firing() {
    let mut registry = ActionRegistry::new();
    registry.register(&s("AB"), &[A, B], T0).unwrap();
    registry.record_key_press(A, T0);
    assert!(registry.names_fired(A, T0, WINDOW).is_empty());
    registry.record_key_press(B, T0 + 500 * MS);
    assert!(registry.names_fired(B, T0 + 500 * MS, WINDOW).is_empty());
}

#[test]
fn a_shared_key_updates_every_action_that_has_it() {
    let mut registry = ActionRegistry::new();
    registry.register(&s("X"), &[A, CTRL], T0).unwrap();
    registry.register(&s("Y"), &[A, SHIFT], T0).unwrap();
    registry.record_key_press(SHIFT, T0 + 10 * MS);
    assert!(registry.names_fired(SHIFT, T0 + 10 * MS, WINDOW).is_empty());
    assert_eq!(registry.record_key_press(A, T0 + 20 * MS), vec![0, 1]);
    assert_eq!(registry.action(0).unwrap().last_press(A), Some((T0 + 20 * MS) as i128));
    assert_eq!(registry.action(1).unwrap().last_press(A), Some((T0 + 20 * MS) as i128));
    assert_eq!(registry.action(0).unwrap().last_press(CTRL), Some(T0 as i128 - 60_000_000_000));
    assert_eq!(registry.action(1).unwrap().last_press(SHIFT), Some((T0 + 10 * MS) as i128));
    // Only the action whose other key is fresh as well fires.
    assert_eq!(registry.names_fired(A, T0 + 20 * MS, WINDOW), vec![s("Y")]);
}

#[test]
fn actions_fire_in_registration_order() {
    let mut registry = ActionRegistry::new();
    registry.register(&s("Second"), &[A, B], T0).unwrap();
    registry.register(&s("Other"), &[CTRL], T0).unwrap();
    registry.register(&s("First"), &[A], T0).unwrap();
    registry.register(&s("Third"), &[B, A], T0).unwrap();
    registry.record_key_press(B, T0);
    assert_eq!(registry.names_fired(B, T0, WINDOW), Vec::<String>::new());
    assert_eq!(registry.record_key_press(A, T0 + MS), vec![0, 2, 3]);
    assert_eq!(
        registry.names_fired(A, T0 + MS, WINDOW),
        vec![s("Second"), s("First"), s("Third")]
    );
}

#[test]
fn sustained_presses_fire_again_and_again() {
    let mut registry = ActionRegistry::new();
    registry.register(&s("Save"), &[CTRL, A], T0).unwrap();
    registry.record_key_press(CTRL, T0);
    assert!(registry.names_fired(CTRL, T0, WINDOW).is_empty());
    let mut now = T0;
    for _ in 0..5 {
        now += 30 * MS;
        registry.record_key_press(A, now);
        assert_eq!(registry.names_fired(A, now, WINDOW), vec![s("Save")]);
        now += 30 * MS;
        registry.record_key_press(CTRL, now);
        assert_eq!(registry.names_fired(CTRL, now, WINDOW), vec![s("Save")]);
    }
}

#[test]
fn the_same_press_twice_fires_twice() {
    let mut registry = ActionRegistry::new();
    registry.register(&s("One"), &[A], T0).unwrap();
    registry.record_key_press(A, T0 + MS);
    assert_eq!(registry.names_fired(A, T0 + MS, WINDOW), vec![s("One")]);
    registry.record_key_press(A, T0 + MS);
    assert_eq!(registry.names_fired(A, T0 + MS, WINDOW), vec![s("One")]);
}

#[test]
fn an_action_stops_firing_once_a_key_has_gone_stale() {
    let mut registry = ActionRegistry::new();
    registry.register(&s("Save"), &[CTRL, A], T0).unwrap();
    registry.record_key_press(CTRL, T0);
    registry.record_key_press(A, T0 + 50 * MS);
    assert_eq!(registry.names_fired(A, T0 + 50 * MS, WINDOW), vec![s("Save")]);
    registry.record_key_press(A, T0 + 199 * MS);
    assert_eq!(registry.names_fired(A, T0 + 199 * MS, WINDOW), vec![s("Save")]);
    registry.record_key_press(A, T0 + 200 * MS);
    assert!(registry.names_fired(A, T0 + 200 * MS, WINDOW).is_empty());
}

#[test]
fn a_press_of_an_unknown_key_is_discarded() {
    let mut registry = ActionRegistry::new();
    registry.register(&s("X"), &[A, CTRL], T0).unwrap();
    assert!(registry.record_key_press(SHIFT, T0 + MS).is_empty());
    assert!(registry.names_fired(SHIFT, T0 + MS, WINDOW).is_empty());
    let action = registry.action(0).unwrap();
    assert_eq!(action.last_press(A), Some(T0 as i128 - 60_000_000_000));
    assert_eq!(action.last_press(CTRL), Some(T0 as i128 - 60_000_000_000));
    assert_eq!(action.last_press(SHIFT), None);
    assert_eq!(registry.handle_count(), 1);
}

#[test]
fn names_fired_records_nothing() {
    let mut registry = ActionRegistry::new();
    registry.register(&s("One"), &[A], T0).unwrap();
    assert!(registry.names_fired(A, T0 + MS, WINDOW).is_empty());
    assert_eq!(registry.action(0).unwrap().last_press(A), Some(T0 as i128 - 60_000_000_000));
}

#[test]
fn unregister_removes_the_action_and_reports_free_keys() {
    let mut registry = ActionRegistry::new();
    registry.register(&s("X"), &[A, CTRL], T0).unwrap();
    registry.register(&s("Y"), &[A, SHIFT], T0).unwrap();
    let mut free = registry.unregister(&s("X"), &[CTRL, A]).unwrap();
    free.sort();
    assert_eq!(free, vec![CTRL]);
    assert!(registry.uses_key(A));
    assert!(!registry.uses_key(CTRL));
    assert!(registry.uses_key(SHIFT));
    assert!(registry.action(0).is_none());
    assert!(registry.action(1).is_some());
    assert_eq!(registry.find(&s("X"), &[A, CTRL]), None);
    assert_eq!(registry.action_names(), vec![s("Y")]);
    let mut free = registry.unregister(&s("Y"), &[A, SHIFT]).unwrap();
    free.sort();
    assert_eq!(free, vec![A, SHIFT]);
    assert!(!registry.uses_key(A));
    assert!(!registry.uses_key(SHIFT));
    assert!(registry.action_names().is_empty());
}

#[test]
fn unregister_of_an_unknown_action_is_refused() {
    let mut registry = ActionRegistry::new();
    registry.register(&s("X"), &[A, CTRL], T0).unwrap();
    assert!(matches!(registry.unregister(&s("Y"), &[A, CTRL]), Err(Error::ActionDoesNotExist)));
    assert!(matches!(registry.unregister(&s("X"), &[A]), Err(Error::ActionDoesNotExist)));
    assert!(matches!(registry.unregister(&s("X"), &[]), Err(Error::ActionDoesNotExist)));
    assert!(matches!(
        registry.unregister(&s("X"), &[A, CTRL, SHIFT]),
        Err(Error::ActionDoesNotExist)
    ));
    assert_eq!(registry.find(&s("X"), &[A, CTRL]), Some(0));
    assert!(registry.uses_key(A));
    assert!(registry.uses_key(CTRL));
}

#[test]
fn an_unregistered_action_no_longer_fires() {
    let mut registry = ActionRegistry::new();
    registry.register(&s("X"), &[A], T0).unwrap();
    registry.register(&s("Y"), &[A], T0).unwrap();
    registry.unregister(&s("X"), &[A]).unwrap();
    assert_eq!(registry.record_key_press(A, T0 + MS), vec![1]);
    assert_eq!(registry.names_fired(A, T0 + MS, WINDOW), vec![s("Y")]);
}

#[test]
fn an_action_can_be_registered_again_after_it_was_removed() {
    let mut registry = ActionRegistry::new();
    registry.register(&s("X"), &[A, CTRL], T0).unwrap();
    registry.unregister(&s("X"), &[A, CTRL]).unwrap();
    assert_eq!(registry.keys_first_seen(&[A, CTRL]), vec![A, CTRL]);
    // Handles are not given out twice.
    assert!(matches!(registry.register(&s("X"), &[CTRL, A], T0 + MS), Ok(1)));
    assert_eq!(registry.find(&s("X"), &[A, CTRL]), Some(1));
    assert_eq!(registry.keys_first_seen(&[A, CTRL]), Vec::<u32>::new());
}

#[test]
fn unregister_twice_fails_the_second_time() {
    let mut registry = ActionRegistry::new();
    registry.register(&s("X"), &[A, CTRL], T0).unwrap();
    assert!(registry.unregister(&s("X"), &[A, CTRL]).is_ok());
    assert!(matches!(registry.unregister(&s("X"), &[A, CTRL]), Err(Error::ActionDoesNotExist)));
}
