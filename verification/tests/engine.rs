use core::str::FromStr;

use vaction::config::{Action, Config};
use vaction::hotkey_listener::{Error, HotkeyListener, MapType};
use vaction::hotkey_listener::{get_hash, string_slice_to_vec_and_hash};

fn key_id(name: &str) -> u16 {
    livesplit_hotkey::KeyCode::from_str(name).unwrap() as u16
}

fn listener() -> (HotkeyListener, crossbeam_channel::Receiver<String>) {
    let (tx, rx) = crossbeam_channel::unbounded::<String>();
    (HotkeyListener::new(tx), rx)
}

fn names(v: &[&str]) -> Vec<String> {
    v.iter().map(|s| s.to_string()).collect()
}

#[test]
fn fingerprint_order_independent() {
    let a = string_slice_to_vec_and_hash(&names(&["ShiftLeft", "KeyA"])).unwrap();
    let b = string_slice_to_vec_and_hash(&names(&["KeyA", "ShiftLeft"])).unwrap();
    assert_eq!(a.0, b.0);
    assert_eq!(a.1, b.1);
}

#[test]
fn fingerprint_dedups_repeated_names() {
    let a = string_slice_to_vec_and_hash(&names(&["KeyA", "KeyA"])).unwrap();
    let b = string_slice_to_vec_and_hash(&names(&["KeyA"])).unwrap();
    assert_eq!(a.0, b.0);
    assert_eq!(a.1, b.1);
}

#[test]
fn bad_key_name_rejected() {
    let r = string_slice_to_vec_and_hash(&names(&["KeyA", "NotAKey"]));
    assert_eq!(r.unwrap_err(), Error::BadKeyCodeName);
    let (mut l, _rx) = listener();
    let r = l.register_action(&"x".to_string(), &names(&["NotAKey"]));
    assert_eq!(r.unwrap_err(), Error::BadKeyCodeName);
}

#[test]
fn parse_distinguishes_keys() {
    let a = string_slice_to_vec_and_hash(&names(&["KeyA"])).unwrap();
    let b = string_slice_to_vec_and_hash(&names(&["KeyB"])).unwrap();
    assert_eq!(a.0.len(), 1);
    assert_eq!(b.0.len(), 1);
    assert_ne!(a.0[0], b.0[0]);
}

#[test]
fn get_hash_matches_fnv_formula() {
    let data: Vec<u16> = vec![5, 10];
    let mut h: u64 = 0xcbf29ce484222325;
    for id in &data {
        for b in [(id & 0xff) as u8, (id >> 8) as u8] {
            h = (h ^ b as u64).wrapping_mul(0x100000001b3);
        }
    }
    assert_eq!(get_hash(&data), h);
    assert_eq!(get_hash(&Vec::new()), 0xcbf29ce484222325);
}

#[test]
fn register_reports_new_keys_once() {
    let (mut l, _rx) = listener();
    let installs = l.register_action(&"x".to_string(), &names(&["KeyA", "KeyB"])).unwrap();
    assert_eq!(installs, vec!["KeyA".to_string(), "KeyB".to_string()]);
    let installs = l.register_action(&"y".to_string(), &names(&["KeyB", "KeyA"])).unwrap();
    assert!(installs.is_empty());
}

#[test]
fn register_duplicate_action_fails() {
    let (mut l, _rx) = listener();
    l.register_action(&"x".to_string(), &names(&["KeyA", "KeyB"])).unwrap();
    let r = l.register_action(&"x".to_string(), &names(&["KeyB", "KeyA"]));
    assert_eq!(r.unwrap_err(), Error::ActionAlreadyExists);
    assert_eq!(l.get_action_names().len(), 1);
}

#[test]
fn unregister_errors() {
    let (mut l, _rx) = listener();
    l.register_action(&"x".to_string(), &names(&["KeyA"])).unwrap();
    let r = l.unregister_action(&"y".to_string(), &names(&["KeyA"]));
    assert_eq!(r.unwrap_err(), Error::ActionDoesNotExist(MapType::ActionMapping));
    let r = l.unregister_action(&"x".to_string(), &names(&["KeyB"]));
    assert_eq!(r.unwrap_err(), Error::ActionDoesNotExist(MapType::Actions));
}

#[test]
fn unregister_last_action_removes_keys() {
    let (mut l, _rx) = listener();
    l.register_action(&"x".to_string(), &names(&["KeyA", "KeyB"])).unwrap();
    assert_eq!(l.get_key_names().len(), 2);
    let uninstalls = l.unregister_action(&"x".to_string(), &names(&["KeyA", "KeyB"])).unwrap();
    assert_eq!(uninstalls, vec!["KeyA".to_string(), "KeyB".to_string()]);
    assert!(l.get_key_names().is_empty());
}

#[test]
fn reregistered_group_starts_unpressed() {
    let (mut l, _rx) = listener();
    let x = "x".to_string();
    let ks = names(&["KeyA", "KeyB"]);
    l.register_action(&x, &ks).unwrap();
    assert!(l.handle_key(key_id("KeyA"), 1000).is_empty());
    l.unregister_action(&x, &ks).unwrap();
    l.register_action(&x, &ks).unwrap();
    // the earlier press of KeyA was forgotten with the old group
    assert!(l.handle_key(key_id("KeyB"), 1050).is_empty());
}

#[test]
fn window_trigger_and_expiry() {
    let (mut l, _rx) = listener();
    l.register_action(&"x".to_string(), &names(&["KeyA", "KeyB"])).unwrap();
    assert_eq!(l.get_min_elapsed_time(), 200);
    assert!(l.handle_key(key_id("KeyA"), 1000).is_empty());
    assert_eq!(l.handle_key(key_id("KeyB"), 1100), vec!["x".to_string()]);

    let (mut l, _rx) = listener();
    l.register_action(&"x".to_string(), &names(&["KeyA", "KeyB"])).unwrap();
    assert!(l.handle_key(key_id("KeyA"), 1000).is_empty());
    assert!(l.handle_key(key_id("KeyB"), 1300).is_empty());
}

#[test]
fn window_is_configurable() {
    let (mut l, _rx) = listener();
    l.register_action(&"x".to_string(), &names(&["KeyA", "KeyB"])).unwrap();
    l.set_min_elapsed_time(50);
    assert_eq!(l.get_min_elapsed_time(), 50);
    assert!(l.handle_key(key_id("KeyA"), 1000).is_empty());
    assert!(l.handle_key(key_id("KeyB"), 1060).is_empty());
    assert!(l.handle_key(key_id("KeyA"), 2000).is_empty());
    assert_eq!(l.handle_key(key_id("KeyB"), 2040), vec!["x".to_string()]);
}

#[test]
fn held_keys_retrigger_on_each_event() {
    let (mut l, _rx) = listener();
    l.register_action(&"x".to_string(), &names(&["KeyA", "KeyB"])).unwrap();
    assert!(l.handle_key(key_id("KeyA"), 1000).is_empty());
    assert_eq!(l.handle_key(key_id("KeyB"), 1050), vec!["x".to_string()]);
    assert_eq!(l.handle_key(key_id("KeyB"), 1100), vec!["x".to_string()]);
}

#[test]
fn unbound_key_event_is_discarded() {
    let (mut l, _rx) = listener();
    l.register_action(&"x".to_string(), &names(&["KeyA"])).unwrap();
    assert!(l.handle_key(key_id("KeyZ"), 1000).is_empty());
}

#[test]
fn action_names_sorted_and_deduplicated() {
    let (mut l, _rx) = listener();
    l.register_action(&"beta".to_string(), &names(&["KeyA"])).unwrap();
    l.register_action(&"alpha".to_string(), &names(&["KeyA"])).unwrap();
    l.register_action(&"alpha".to_string(), &names(&["KeyB"])).unwrap();
    assert_eq!(l.get_action_names(), vec!["alpha".to_string(), "beta".to_string()]);
}

#[test]
fn shared_key_hook_released_exactly_once() {
    let (mut l, _rx) = listener();
    l.register_action(&"x".to_string(), &names(&["KeyA", "KeyB"])).unwrap();
    l.register_action(&"y".to_string(), &names(&["KeyB", "KeyC"])).unwrap();
    let dropped = l.unregister_action(&"x".to_string(), &names(&["KeyA", "KeyB"])).unwrap();
    assert_eq!(dropped, vec!["KeyA".to_string()]);
    let mut left = l.get_key_names();
    left.sort();
    assert_eq!(left, vec!["KeyB".to_string(), "KeyC".to_string()]);
    let mut dropped = l.unregister_action(&"y".to_string(), &names(&["KeyB", "KeyC"])).unwrap();
    dropped.sort();
    assert_eq!(dropped, vec!["KeyB".to_string(), "KeyC".to_string()]);
    assert!(l.get_key_names().is_empty());
}

#[test]
fn screenshot_scenario_emits_once_on_third_poll() {
    let (mut l, rx) = listener();
    l.register_action(
        &"screenshot".to_string(),
        &names(&["ControlLeft", "ShiftLeft", "KeyS"]),
    )
    .unwrap();
    let events = l.event_sender();
    events.send(key_id("ControlLeft")).unwrap();
    events.send(key_id("ShiftLeft")).unwrap();
    events.send(key_id("KeyS")).unwrap();
    l.poll(1000);
    l.poll(1040);
    assert!(rx.try_recv().is_err());
    l.poll(1080);
    assert_eq!(rx.try_recv().unwrap(), "screenshot".to_string());
    assert!(rx.try_recv().is_err());
}

#[test]
fn poll_without_events_does_nothing() {
    let (mut l, rx) = listener();
    l.register_action(&"x".to_string(), &names(&["KeyA"])).unwrap();
    l.poll(1000);
    assert!(rx.try_recv().is_err());
}

#[test]
fn single_key_action_triggers_via_poll() {
    let (mut l, rx) = listener();
    l.register_action(&"solo".to_string(), &names(&["KeyQ"])).unwrap();
    l.event_sender().send(key_id("KeyQ")).unwrap();
    l.poll(500);
    assert_eq!(rx.try_recv().unwrap(), "solo".to_string());
}

#[test]
fn config_defaults_are_empty() {
    let c = Config::new();
    assert!(!c.run_at_startup);
    assert!(c.actions.is_empty());
    let name = "shot".to_string();
    let k1 = "ControlLeft".to_string();
    let k2 = "KeyS".to_string();
    let a = Action::new(&name, &[&k1, &k2]);
    assert_eq!(a.name, "shot".to_string());
    assert_eq!(a.keys, vec!["ControlLeft".to_string(), "KeyS".to_string()]);
}
