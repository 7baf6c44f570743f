use chatter_blocker::config::Config;
use chatter_blocker::filter::{Decision, Filter};

fn filter(threshold_ms: u32) -> Filter {
    let cfg = Config {
        default_threshold_ms: threshold_ms,
        ..Config::default()
    };
    Filter::new(cfg)
}

const A: u32 = 0x41;
const B: u32 = 0x42;

#[test]
fn single_press_passes() {
    let mut f = filter(30);
    assert!(matches!(f.on_key_down(A, 100), Decision::Pass));
    assert!(matches!(f.on_key_up(A, 150), Decision::Pass));
    assert_eq!(f.total_suppressed(), 0);
}

#[test]
fn chatter_down_after_real_tap_suppressed() {
    let mut f = filter(30);
    f.on_key_down(A, 100);
    f.on_key_up(A, 150);
    assert!(matches!(f.on_key_down(A, 160), Decision::Suppress));
    assert_eq!(f.suppressed(A), 1);
}

#[test]
fn auto_repeat_passes() {
    let mut f = filter(25);
    f.on_key_down(A, 0);
    assert!(matches!(f.on_key_down(A, 500), Decision::Pass));
    assert!(matches!(f.on_key_down(A, 533), Decision::Pass));
    assert!(matches!(f.on_key_down(A, 566), Decision::Pass));
    assert_eq!(f.total_suppressed(), 0);
}

#[test]
fn bounce_back_down_after_spurious_up_suppressed() {
    // Mid-hold bounce: the spurious UP leaks through (UPs always pass),
    // but the bounce-back DOWN that would produce a duplicate character
    // is blocked.
    let mut f = filter(30);
    f.on_key_down(A, 100);
    assert!(matches!(f.on_key_up(A, 105), Decision::Pass));
    assert!(matches!(f.on_key_down(A, 110), Decision::Suppress));
    assert!(matches!(f.on_key_up(A, 600), Decision::Pass));
    assert_eq!(f.suppressed(A), 1);
}

#[test]
fn legitimate_fast_tap_passes() {
    let mut f = filter(30);
    f.on_key_down(A, 0);
    f.on_key_up(A, 40);
    assert!(matches!(f.on_key_down(A, 80), Decision::Pass));
    assert!(matches!(f.on_key_up(A, 120), Decision::Pass));
    assert_eq!(f.total_suppressed(), 0);
}

#[test]
fn different_keys_do_not_interfere() {
    let mut f = filter(30);
    f.on_key_down(A, 0);
    f.on_key_up(A, 50);
    // Would look like chatter for A (5 ms after A's release), but B has clean state.
    assert!(matches!(f.on_key_down(B, 55), Decision::Pass));
    assert!(matches!(f.on_key_up(B, 100), Decision::Pass));
}

#[test]
fn per_key_threshold_overrides_default() {
    let mut cfg = Config {
        default_threshold_ms: 30,
        ..Config::default()
    };
    cfg.per_key_threshold_ms.insert(A, 0);
    let mut f = Filter::new(cfg);
    f.on_key_down(A, 0);
    f.on_key_up(A, 3);
    assert!(matches!(f.on_key_down(A, 5), Decision::Pass));
    assert_eq!(f.total_suppressed(), 0);
}

#[test]
fn held_key_chatter_inside_window_suppressed() {
    let mut f = filter(30);
    assert_eq!(f.on_key_down(A, 1000), Decision::Pass);
    assert_eq!(f.on_key_down(A, 1010), Decision::Suppress);
    // The suppressed down does not move the reference: 1035 is 35 ms after 1000.
    assert_eq!(f.on_key_down(A, 1035), Decision::Pass);
    assert_eq!(f.on_key_down(A, 1060), Decision::Suppress);
    assert_eq!(f.suppressed(A), 2);
    assert_eq!(f.total_suppressed(), 2);
}

#[test]
fn window_edge_passes() {
    let mut f = filter(30);
    f.on_key_down(A, 100);
    f.on_key_up(A, 150);
    // Exactly the window after the release is not chatter.
    assert_eq!(f.on_key_down(A, 180), Decision::Pass);
    f.on_key_up(A, 200);
    assert_eq!(f.on_key_down(A, 229), Decision::Suppress);
}

#[test]
fn first_down_ever_passes_even_at_time_zero() {
    let mut f = filter(1000);
    assert_eq!(f.on_key_down(A, 0), Decision::Pass);
    assert_eq!(f.on_key_down(B, 1), Decision::Pass);
    assert_eq!(f.total_suppressed(), 0);
}

#[test]
fn release_at_time_zero_is_not_a_reference() {
    let mut f = filter(30);
    f.on_key_up(A, 0);
    assert_eq!(f.on_key_down(A, 5), Decision::Pass);
}

#[test]
fn clock_going_backwards_counts_as_zero_gap() {
    let mut f = filter(30);
    f.on_key_down(A, 100);
    f.on_key_up(A, 500);
    assert_eq!(f.on_key_down(A, 400), Decision::Suppress);
}

#[test]
fn counts_are_per_key_and_total_sums_them() {
    let mut f = filter(30);
    f.on_key_down(A, 100);
    f.on_key_up(A, 110);
    f.on_key_down(A, 115);
    f.on_key_down(B, 100);
    f.on_key_up(B, 120);
    f.on_key_down(B, 125);
    f.on_key_down(B, 126);
    assert_eq!(f.suppressed(A), 1);
    assert_eq!(f.suppressed(B), 2);
    assert_eq!(f.suppressed(0x43), 0);
    assert_eq!(f.total_suppressed(), 3);
}

#[test]
fn set_config_keeps_state_and_counts() {
    let mut f = filter(30);
    f.on_key_down(A, 100);
    f.on_key_up(A, 110);
    assert_eq!(f.on_key_down(A, 120), Decision::Suppress);
    f.set_config(Config {
        default_threshold_ms: 5,
        ..Config::default()
    });
    assert_eq!(f.suppressed(A), 1);
    // The release at 110 is still remembered; 120 - 110 = 10 >= 5.
    assert_eq!(f.on_key_down(A, 120), Decision::Pass);
}

#[test]
fn peek_and_checked_total_match_the_record() {
    let mut f = filter(30);
    assert_eq!(f.checked_total_suppressed(), Some(0));
    f.on_key_down(A, 100);
    f.on_key_up(A, 110);
    assert_eq!(f.peek_key_down(A, 115), Decision::Suppress);
    assert_eq!(f.peek_key_down(A, 140), Decision::Pass);
    assert_eq!(f.suppressed(A), 0);
    f.on_key_down(A, 115);
    f.on_key_down(B, 1);
    f.on_key_up(B, 2);
    f.on_key_down(B, 3);
    assert_eq!(f.checked_total_suppressed(), Some(2));
    assert_eq!(f.total_suppressed(), 2);
}
