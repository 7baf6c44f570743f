use chatter_blocker::config::Config;

#[test]
fn default_config_is_on_with_thirty_ms() {
    let cfg = Config::default();
    assert!(cfg.enabled);
    assert_eq!(cfg.default_threshold_ms, 30);
    assert!(cfg.per_key_threshold_ms.is_empty());
    assert_eq!(cfg.threshold(0x41), 30);
}

#[test]
fn threshold_prefers_per_key_entry() {
    let mut cfg = Config::default();
    cfg.per_key_threshold_ms.insert(0x42, 12);
    assert_eq!(cfg.threshold(0x42), 12);
    assert_eq!(cfg.threshold(0x41), 30);
}

#[test]
fn set_thresholds_keeps_other_keys_and_last_pair_wins() {
    let mut cfg = Config::default();
    cfg.per_key_threshold_ms.insert(0x41, 40);
    cfg.per_key_threshold_ms.insert(0x42, 12);
    cfg.set_thresholds(&vec![(0x42, 20), (0x43, 25), (0x42, 35)]);
    assert_eq!(cfg.threshold(0x41), 40);
    assert_eq!(cfg.threshold(0x42), 35);
    assert_eq!(cfg.threshold(0x43), 25);
    assert_eq!(cfg.per_key_threshold_ms.len(), 3);
    assert_eq!(cfg.default_threshold_ms, 30);
    assert!(cfg.enabled);
}
