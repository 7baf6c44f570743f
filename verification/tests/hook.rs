use chatter_blocker::calibrate::Snapshot;
use chatter_blocker::config::Config;
use chatter_blocker::filter::Decision;
use chatter_blocker::hook::{
    apply_calibration_to_config, calibration_report_body, checked_total_suppressed, start_calibration,
    stop_calibration, total_suppressed, HookState, KeyEvent, KeyEventKind,
};

fn down(vk: u32, time_ms: u32) -> KeyEvent {
    KeyEvent { kind: KeyEventKind::Down, vk, time_ms, injected: false }
}

fn up(vk: u32, time_ms: u32) -> KeyEvent {
    KeyEvent { kind: KeyEventKind::Up, vk, time_ms, injected: false }
}

fn chatter(state: &mut HookState, vk: u32) -> Decision {
    state.handle_key_event(down(vk, 100));
    state.handle_key_event(up(vk, 150));
    state.handle_key_event(down(vk, 160))
}

#[test]
fn enabled_hook_filters_chatter() {
    let mut h = HookState::new(Config::default(), false);
    assert!(h.is_enabled());
    assert!(!h.is_calibrating());
    assert_eq!(chatter(&mut h, 0x41), Decision::Suppress);
    assert_eq!(total_suppressed(&h), 1);
}

#[test]
fn injected_events_bypass_the_filter() {
    let mut h = HookState::new(Config::default(), false);
    h.handle_key_event(down(0x41, 100));
    h.handle_key_event(up(0x41, 150));
    let ev = KeyEvent { kind: KeyEventKind::Down, vk: 0x41, time_ms: 160, injected: true };
    assert_eq!(h.handle_key_event(ev), Decision::Pass);
    assert_eq!(total_suppressed(&h), 0);
}

#[test]
fn disabled_hook_passes_everything() {
    let cfg = Config { enabled: false, ..Config::default() };
    let mut h = HookState::new(cfg, false);
    assert!(!h.is_enabled());
    assert_eq!(chatter(&mut h, 0x41), Decision::Pass);
    assert_eq!(total_suppressed(&h), 0);
    assert!(h.toggle_enabled());
    assert_eq!(chatter(&mut h, 0x42), Decision::Suppress);
    assert!(!h.toggle_enabled());
}

#[test]
fn other_messages_pass() {
    let mut h = HookState::new(Config::default(), false);
    let ev = KeyEvent { kind: KeyEventKind::Other, vk: 0x41, time_ms: 5, injected: false };
    assert_eq!(h.handle_key_event(ev), Decision::Pass);
}

#[test]
fn calibration_records_and_bypasses_filter() {
    let mut h = HookState::new(Config::default(), false);
    start_calibration(&mut h);
    assert!(h.is_calibrating());
    assert_eq!(chatter(&mut h, 0x41), Decision::Pass);
    assert_eq!(total_suppressed(&h), 0);
    assert_eq!(h.calibration_snapshot()[&0x41], vec![60]);
    let snap = stop_calibration(&mut h).unwrap();
    assert_eq!(snap[&0x41], vec![60]);
    assert!(!h.is_calibrating());
    assert!(stop_calibration(&mut h).is_none());
    assert!(h.calibration_snapshot().is_empty());
    assert_eq!(chatter(&mut h, 0x42), Decision::Suppress);
}

#[test]
fn calibrate_mode_at_start_records_even_when_disabled() {
    let cfg = Config { enabled: false, ..Config::default() };
    let mut h = HookState::new(cfg, true);
    assert!(h.is_calibrating());
    h.handle_key_event(down(0x41, 10));
    h.handle_key_event(down(0x41, 30));
    assert_eq!(h.calibration_snapshot()[&0x41], vec![20]);
}

#[test]
fn reload_config_changes_switch_and_windows() {
    let mut h = HookState::new(Config::default(), false);
    let mut cfg = Config::default();
    cfg.per_key_threshold_ms.insert(0x41, 0);
    h.reload_config(cfg);
    assert_eq!(chatter(&mut h, 0x41), Decision::Pass);
    assert_eq!(chatter(&mut h, 0x42), Decision::Suppress);
    h.reload_config(Config { enabled: false, ..Config::default() });
    assert!(!h.is_enabled());
    assert_eq!(total_suppressed(&h), 1);
}

#[test]
fn apply_calibration_keeps_unrelated_keys() {
    let mut snap = Snapshot::new();
    snap.insert(0x42, vec![10, 15, 20, 25, 15, 20, 12]);
    snap.insert(0x43, vec![100, 120, 140]);
    let mut cfg = Config::default();
    cfg.per_key_threshold_ms.insert(0x41, 44);
    cfg.per_key_threshold_ms.insert(0x42, 99);
    let applied = apply_calibration_to_config(&mut cfg, &snap);
    assert_eq!(applied, vec![(0x42, 30)]);
    assert_eq!(cfg.threshold(0x41), 44);
    assert_eq!(cfg.threshold(0x42), 30);
    assert_eq!(cfg.threshold(0x43), 30);
    assert!(!cfg.per_key_threshold_ms.contains_key(&0x43));
}

#[test]
fn apply_calibration_without_chatter_changes_nothing() {
    let mut cfg = Config::default();
    cfg.per_key_threshold_ms.insert(0x41, 44);
    let applied = apply_calibration_to_config(&mut cfg, &Snapshot::new());
    assert!(applied.is_empty());
    assert_eq!(cfg.per_key_threshold_ms.len(), 1);
    assert_eq!(cfg.threshold(0x41), 44);
}

#[test]
fn report_body_puts_prelude_first() {
    let snap = Snapshot::new();
    assert_eq!(calibration_report_body(&snap, None), "[calibrate] no data yet\n");
    assert_eq!(
        calibration_report_body(&snap, Some("applied: none")),
        "applied: none\n\n[calibrate] no data yet\n"
    );
}

#[test]
fn decide_predicts_without_recording() {
    let mut h = HookState::new(Config::default(), false);
    h.handle_key_event(down(0x41, 100));
    h.handle_key_event(up(0x41, 150));
    assert_eq!(h.decide(down(0x41, 160)), Decision::Suppress);
    assert_eq!(h.decide(up(0x41, 160)), Decision::Pass);
    assert_eq!(h.suppressed(0x41), 0);
    assert_eq!(h.handle_key_event(down(0x41, 160)), Decision::Suppress);
    assert_eq!(h.suppressed(0x41), 1);
    assert_eq!(checked_total_suppressed(&h), Some(1));
}
