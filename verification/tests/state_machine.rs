use pishock_bridge::state::{describe, mode, Batch, Pulse, Reading, State};

const HEAD: &str = "/avatar/parameters/SHK/Head";

fn ready_state() -> State {
    let mut s = State::new();
    s.set_devices(vec!["Left".to_string(), "Right".to_string()]);
    s.connection(true);
    s.update(HEAD, 0, false, true, 0);
    s.toggle_route(HEAD, "Right");
    s.toggle_route(HEAD, "Left");
    s.armed = true;
    s
}

fn result_of(s: &State, device: &str) -> Option<String> {
    s.results.iter().find(|(d, _)| d == device).map(|(_, r)| r.clone())
}

#[test]
fn defaults() {
    let s = State::default();
    assert!(!s.armed && !s.connected);
    assert_eq!((s.op, s.intensity, s.duration, s.cooldown, s.random), (2, 5, 1, 1, false));
    assert_eq!(s.status, "Waiting for VRChat");
    assert!(s.idle());
    assert!(s.contacts.is_empty());
}

#[test]
fn rising_value_fires_routed_devices_in_device_order() {
    let mut s = ready_state();
    let batch = s.update(HEAD, 1, true, true, 1000).unwrap();
    assert_eq!(
        batch,
        Batch { devices: vec!["Left".to_string(), "Right".to_string()], pulse: Pulse { op: 2, intensity: 5, duration: 1 } }
    );
    assert!(s.sending("Left") && s.sending("Right"));
    assert!(!s.idle());
    assert_eq!(s.cooldown_left("Left", 1000), Some(2000));
}

#[test]
fn law_no_refire_while_high() {
    let mut s = ready_state();
    assert!(s.update(HEAD, 1, true, true, 1000).is_some());
    s.finish("Left", Ok(()));
    s.finish("Right", Ok(()));
    assert!(s.update(HEAD, 2, true, true, 10_000).is_none());
    assert!(s.update(HEAD, 3, false, true, 10_001).is_none());
    assert!(s.update(HEAD, 4, true, true, 10_002).is_some());
}

#[test]
fn law_cooldown_holds_then_ends() {
    let mut s = ready_state();
    s.cooldown = 3;
    s.update(HEAD, 1, true, true, 1000).unwrap();
    s.finish("Left", Ok(()));
    s.finish("Right", Ok(()));
    assert!(!s.ready("Left", 4999));
    s.update(HEAD, 0, false, true, 2000);
    assert!(s.update(HEAD, 1, true, true, 2500).is_none());
    assert_eq!(s.status, "SHK/Head: Left cooling down 3s, Right cooling down 3s");
    assert!(s.ready("Left", 5000));
    s.update(HEAD, 0, false, true, 5000);
    assert!(s.update(HEAD, 1, true, true, 5000).is_some());
}

#[test]
fn sending_devices_are_reported() {
    let mut s = ready_state();
    s.update(HEAD, 1, true, true, 1000).unwrap();
    s.update(HEAD, 0, false, true, 1100);
    assert!(s.update(HEAD, 1, true, true, 1200).is_none());
    assert_eq!(s.status, "SHK/Head: Left sending, Right sending");
}

#[test]
fn law_other_devices_unaffected() {
    let mut s = ready_state();
    s.toggle_route(HEAD, "Right");
    s.armed = true;
    s.update(HEAD, 1, true, true, 1000).unwrap();
    assert!(!s.ready("Left", 1000));
    assert!(s.ready("Right", 1000));
    assert!(s.test("Right", 1000).is_some());
}

#[test]
fn reasons_for_not_firing() {
    let mut s = ready_state();
    s.armed = false;
    assert!(s.update(HEAD, 1, true, true, 0).is_none());
    assert_eq!(s.status, "SHK/Head: output disarmed");
    s.update(HEAD, 0, false, true, 0);
    s.armed = true;
    s.connected = false;
    assert!(s.update(HEAD, 1, true, true, 0).is_none());
    assert_eq!(s.status, "SHK/Head: VRChat not connected");
    let other = "/avatar/parameters/SHK/Back";
    s.connected = true;
    assert!(s.update(other, 1, true, true, 0).is_none());
    assert_eq!(s.status, "SHK/Back: contact not routed");
}

#[test]
fn only_live_values_fire() {
    let mut s = ready_state();
    assert!(s.update(HEAD, 1, true, false, 0).is_none());
    assert_eq!(s.contacts[0].bits, 1);
    assert!(s.contacts[0].high);
}

#[test]
fn other_parameters_are_ignored() {
    let mut s = ready_state();
    assert!(s.update("/avatar/parameters/Other", 1, true, true, 0).is_none());
    assert!(s.update("/avatar/change", 1, true, true, 0).is_none());
    assert_eq!(s.contacts.len(), 1);
}

#[test]
fn law_every_parameter_becomes_a_contact() {
    let mut s = State::new();
    s.update("/avatar/parameters/SHK/HandL", 7, false, false, 0);
    assert_eq!(s.contacts.len(), 1);
    assert_eq!(s.contacts[0].path, "/avatar/parameters/SHK/HandL");
    assert!(s.contacts[0].routes.is_empty());
    assert!(!s.routed());
}

#[test]
fn law_sending_then_accepted() {
    let mut s = ready_state();
    let batch = s.update(HEAD, 1, true, true, 0).unwrap();
    s.announce("SHK/Head", &batch);
    assert_eq!(s.status, "SHK/Head: sending BEEP (1s) to Left, Right");
    assert_eq!(result_of(&s, "Left").as_deref(), Some("sending BEEP (1s)"));
    s.finish("Left", Ok(()));
    assert_eq!(result_of(&s, "Left").as_deref(), Some("accepted BEEP (1s)"));
    assert!(!s.sending("Left"));
    assert!(s.sending("Right"));
}

#[test]
fn finish_without_sending_line() {
    let mut s = State::new();
    s.finish("Left", Ok(()));
    assert_eq!(result_of(&s, "Left").as_deref(), Some("accepted "));
}

#[test]
fn failure_disarms() {
    let mut s = ready_state();
    s.update(HEAD, 1, true, true, 0).unwrap();
    s.finish("Left", Err("PiShock HTTP 500: nope".to_string()));
    assert!(!s.armed);
    assert_eq!(result_of(&s, "Left").as_deref(), Some("PiShock HTTP 500: nope"));
    assert_eq!(s.status, "Left failed; output disarmed");
}

#[test]
fn random_status_suffix() {
    let mut s = ready_state();
    s.random = true;
    s.op = 0;
    let batch = Batch { devices: vec!["Left".to_string()], pulse: Pulse { op: 0, intensity: 30, duration: 2 } };
    s.announce("Test", &batch);
    assert_eq!(s.status, "Test: sending SHOCK (30%, 2s) to Left (random)");
}

#[test]
fn random_pulses_roll_within_maximums() {
    let mut s = State::new();
    s.random = true;
    s.op = 1;
    s.intensity = 100;
    s.duration = 15;
    let pulses: Vec<Pulse> = (0..64).map(|_| s.pulse()).collect();
    assert!(pulses.iter().all(|p| p.op == 1 && (1..=100).contains(&p.intensity) && (1..=15).contains(&p.duration)));
    assert!(pulses.iter().any(|p| p.intensity != 100));
    s.intensity = 0;
    assert_eq!(s.pulse().intensity, 1);
}

#[test]
fn law_device_list_cleanup() {
    let mut s = ready_state();
    s.update(HEAD, 1, true, true, 0).unwrap();
    s.finish("Left", Ok(()));
    s.finish("Right", Ok(()));
    s.set_devices(vec!["Right".to_string()]);
    assert!(!s.armed);
    assert_eq!(s.contacts[0].routes, vec!["Right".to_string()]);
    assert_eq!(s.targets(HEAD), vec!["Right".to_string()]);
    assert!(result_of(&s, "Left").is_none());
    assert_eq!(s.cooldown_left("Left", 0), None);
    assert!(s.cooldown_left("Right", 0).is_some());
}

#[test]
fn law_disarming_events() {
    let mut s = ready_state();
    s.toggle_route(HEAD, "Left");
    assert!(!s.armed);
    let mut s = ready_state();
    s.connection(false);
    assert!(!s.armed);
    assert!(s.contacts.is_empty());
    assert_eq!(s.status, "VRChat disconnected; output disarmed");
    let mut s = ready_state();
    s.avatar_changed();
    assert!(!s.armed && s.contacts.is_empty());
    assert_eq!(s.status, "Avatar changed; output disarmed");
    let mut s = ready_state();
    s.network_error("mDNS advertisement failed: x".to_string());
    assert!(!s.armed);
    assert_eq!(s.status, "mDNS advertisement failed: x");
}

#[test]
fn connection_messages() {
    let mut s = State::new();
    s.connection(true);
    assert_eq!(s.status, "VRChat connected; route contacts to devices");
    assert!(s.connected);
    s.connection(true);
    assert_eq!(s.status, "VRChat connected; route contacts to devices");
}

#[test]
fn law_discard_frees() {
    let mut s = ready_state();
    let batch = s.update(HEAD, 1, true, true, 0).unwrap();
    s.discard(&batch);
    assert!(s.idle());
    assert!(s.results.is_empty());
    assert!(!s.armed);
}

#[test]
fn snapshot_skips_newer_live_values() {
    let mut s = ready_state();
    s.update(HEAD, 5, true, true, 100);
    let readings = vec![
        Reading { path: HEAD.to_string(), bits: 9, high: false },
        Reading { path: "/avatar/parameters/SHK/Back".to_string(), bits: 3, high: true },
    ];
    s.snapshot(readings, 50);
    assert_eq!(s.contacts[0].bits, 5);
    assert_eq!(s.contacts.len(), 2);
    assert_eq!(s.contacts[1].bits, 3);
    let readings = vec![Reading { path: HEAD.to_string(), bits: 9, high: false }];
    s.snapshot(readings, 100);
    assert_eq!(s.contacts[0].bits, 9);
}

#[test]
fn routing_toggle_and_arming() {
    let mut s = ready_state();
    assert!(s.can_arm(true));
    assert!(!s.can_arm(false));
    s.toggle_route(HEAD, "Left");
    s.toggle_route(HEAD, "Right");
    assert!(!s.routed());
    assert!(!s.can_arm(true));
    s.toggle_route("/avatar/parameters/SHK/None", "Left");
    assert_eq!(s.contacts.len(), 1);
}

#[test]
fn traffic_counts() {
    let mut s = State::new();
    s.traffic();
    s.traffic();
    assert_eq!(s.osc_packets, 2);
}

#[test]
fn describe_pulses() {
    assert_eq!(describe(Pulse { op: 2, intensity: 50, duration: 3 }), "BEEP (3s)");
    assert_eq!(describe(Pulse { op: 0, intensity: 50, duration: 2 }), "SHOCK (50%, 2s)");
    assert_eq!(describe(Pulse { op: 1, intensity: 100, duration: 15 }), "VIBRATE (100%, 15s)");
    assert_eq!(mode(7), "BEEP");
}

#[test]
fn law_state_holds_one_entry_per_key() {
    let mut s = ready_state();
    s.update(HEAD, 1, true, true, 1000).unwrap();
    s.update(HEAD, 0, false, true, 1100);
    s.snapshot(
        vec![Reading { path: HEAD.to_string(), bits: 5, high: false }],
        0,
    );
    s.finish("Left", Ok(()));
    s.finish("Left", Err("late".to_string()));
    s.finish("Right", Ok(()));
    assert!(s.test("Right", 1_000_000).is_some());
    assert_eq!(s.contacts.len(), 1);
    assert_eq!(s.contacts[0].routes.len(), 2);
    assert_eq!(s.busy, vec!["Right".to_string()]);
    assert_eq!(s.cooling.len(), 2);
    assert_eq!(s.results.len(), 2);
    s.toggle_route(HEAD, "Left");
    s.toggle_route(HEAD, "Left");
    assert_eq!(s.contacts[0].routes.len(), 2);
}

#[test]
fn law_arm_button() {
    let mut s = ready_state();
    s.armed = false;
    s.toggle_arm(false);
    assert!(!s.armed);
    s.toggle_arm(true);
    assert!(s.armed);
    s.toggle_arm(true);
    assert!(!s.armed);
    let mut fresh = State::new();
    fresh.toggle_arm(true);
    assert!(!fresh.armed);
}

#[test]
fn law_settings_changes_disarm() {
    let mut s = ready_state();
    s.apply_settings(2, 5, 1, 1, false);
    assert!(s.armed);
    s.apply_settings(0, 40, 3, 2, true);
    assert!(!s.armed);
    assert_eq!((s.op, s.intensity, s.duration, s.cooldown, s.random), (0, 40, 3, 2, true));
    s.armed = true;
    s.disarm();
    assert!(!s.armed);
}
