use hotkey_listener::action::{Action, STALE_MARGIN_NANOS};
use hotkey_listener::clock::nanos_to_u64;

const SECOND: u64 = 1_000_000_000;

#[test]
fn stale_margin_is_one_minute() {
    assert_eq!(STALE_MARGIN_NANOS, 60 * SECOND);
}

#[test]
fn new_action_keeps_its_name_and_keys() {
    let action = Action::new(&"Save".to_string(), &[5, 3], 0);
    assert_eq!(action.name(), "Save");
    assert!(action.has_key(5));
    assert!(action.has_key(3));
    assert!(!action.has_key(4));
    let mut keys = action.key_ids();
    keys.sort();
    assert_eq!(keys, vec![3, 5]);
}

#[test]
fn repeated_keys_are_stored_once() {
    let action = Action::new(&"Twice".to_string(), &[8, 8, 2, 8], 0);
    let mut keys = action.key_ids();
    keys.sort();
    assert_eq!(keys, vec![2, 8]);
}

#[test]
fn new_action_is_backdated_by_the_stale_margin() {
    let action = Action::new(&"Save".to_string(), &[5, 3], 100 * SECOND);
    assert_eq!(action.last_press(5), Some(40_000_000_000));
    assert_eq!(action.last_press(3), Some(40_000_000_000));
    assert_eq!(action.last_press(4), None);
}

#[test]
fn backdating_goes_below_zero_at_the_start_of_the_clock() {
    let action = Action::new(&"Early".to_string(), &[1], 0);
    assert_eq!(action.last_press(1), Some(-60_000_000_000));
    let action = Action::new(&"Early".to_string(), &[1], 7);
    assert_eq!(action.last_press(1), Some(-59_999_999_993));
}

#[test]
fn new_action_is_not_pressed() {
    let action = Action::new(&"Save".to_string(), &[5, 3], 0);
    assert!(!action.is_pressed(0, 200_000_000));
    assert!(!action.is_pressed(SECOND, 200_000_000));
    // Only a window longer than the stale margin makes it count.
    assert!(!action.is_pressed(0, STALE_MARGIN_NANOS));
    assert!(action.is_pressed(0, STALE_MARGIN_NANOS + 1));
}

#[test]
fn press_key_sets_the_time_of_that_key_only() {
    let mut action = Action::new(&"Save".to_string(), &[5, 3], 0);
    action.press_key(5, 1234);
    assert_eq!(action.last_press(5), Some(1234));
    assert_eq!(action.last_press(3), Some(-60_000_000_000));
    action.press_key(3, u64::MAX);
    assert_eq!(action.last_press(3), Some(u64::MAX as i128));
    assert_eq!(action.last_press(5), Some(1234));
}

#[test]
fn press_of_a_foreign_key_changes_nothing() {
    let mut action = Action::new(&"Save".to_string(), &[5, 3], 0);
    action.press_key(9, 1234);
    assert!(!action.has_key(9));
    assert_eq!(action.last_press(9), None);
    assert_eq!(action.last_press(5), Some(-60_000_000_000));
    assert_eq!(action.last_press(3), Some(-60_000_000_000));
    assert_eq!(action.key_ids().len(), 2);
}

#[test]
fn pressed_needs_every_key_within_the_window() {
    let mut action = Action::new(&"AB".to_string(), &[1, 2], 0);
    action.press_key(1, 10 * SECOND);
    assert!(!action.is_pressed(10 * SECOND, 200_000_000));
    action.press_key(2, 10 * SECOND + 100_000_000);
    assert!(action.is_pressed(10 * SECOND + 100_000_000, 200_000_000));
}

#[test]
fn a_key_pressed_too_long_ago_does_not_count() {
    let mut action = Action::new(&"AB".to_string(), &[1, 2], 0);
    action.press_key(1, 10 * SECOND);
    action.press_key(2, 10 * SECOND + 500_000_000);
    assert!(!action.is_pressed(10 * SECOND + 500_000_000, 200_000_000));
}

#[test]
fn the_window_is_strict() {
    let mut action = Action::new(&"A".to_string(), &[1], 0);
    action.press_key(1, 1000);
    assert!(action.is_pressed(1000, 1));
    assert!(action.is_pressed(1199, 200));
    assert!(!action.is_pressed(1200, 200));
    assert!(!action.is_pressed(1201, 200));
}

#[test]
fn an_empty_window_never_counts() {
    let mut action = Action::new(&"A".to_string(), &[1], 0);
    action.press_key(1, 1000);
    assert!(!action.is_pressed(1000, 0));
}

#[test]
fn a_press_in_the_future_counts_as_fresh() {
    let mut action = Action::new(&"A".to_string(), &[1], 0);
    action.press_key(1, 5000);
    assert!(action.is_pressed(1000, 1));
}

#[test]
fn extreme_times_do_not_overflow() {
    let mut action = Action::new(&"A".to_string(), &[1], u64::MAX);
    assert_eq!(action.last_press(1), Some(u64::MAX as i128 - 60_000_000_000));
    assert!(!action.is_pressed(u64::MAX, STALE_MARGIN_NANOS));
    assert!(action.is_pressed(u64::MAX, u64::MAX));
    action.press_key(1, 0);
    assert!(!action.is_pressed(u64::MAX, u64::MAX));
    assert!(action.is_pressed(u64::MAX - 1, u64::MAX));
}

#[test]
fn has_key_set_ignores_order_and_repetition() {
    let action = Action::new(&"Save".to_string(), &[5, 3], 0);
    assert!(action.has_key_set(&[3, 5]));
    assert!(action.has_key_set(&[5, 3, 5]));
    assert!(!action.has_key_set(&[5]));
    assert!(!action.has_key_set(&[5, 3, 4]));
    assert!(!action.has_key_set(&[]));
}

#[test]
fn nanoseconds_are_clamped_to_64_bits() {
    assert_eq!(nanos_to_u64(0), 0);
    assert_eq!(nanos_to_u64(123_456_789), 123_456_789);
    assert_eq!(nanos_to_u64(u64::MAX as u128), u64::MAX);
    assert_eq!(nanos_to_u64(u64::MAX as u128 + 1), u64::MAX);
    assert_eq!(nanos_to_u64(u128::MAX), u64::MAX);
}
