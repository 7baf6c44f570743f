use chatter_blocker::calibrate::{suggest_from_gaps, Calibrator};

#[test]
fn first_event_records_no_gap() {
    let mut c = Calibrator::new();
    c.record_down(0x42, 100);
    assert!(c.snapshot().get(&0x42).is_none());
}

#[test]
fn second_event_records_gap() {
    let mut c = Calibrator::new();
    c.record_down(0x42, 100);
    c.record_down(0x42, 140);
    assert_eq!(c.snapshot()[&0x42], vec![40]);
}

#[test]
fn huge_gap_is_dropped() {
    // Gaps over 2 s aren't part of typing rhythm; treat as session break.
    let mut c = Calibrator::new();
    c.record_down(0x42, 100);
    c.record_down(0x42, 10_000);
    assert!(c.snapshot().get(&0x42).is_none_or(|v| v.is_empty()));
}

#[test]
fn suggest_finds_valley_between_clusters() {
    let mut c = Calibrator::new();
    // Chatter cluster at 10-25 ms
    for g in [10u32, 15, 20, 25, 15, 20, 12] {
        c.record_down(0x42, 0);
        c.record_down(0x42, g);
    }
    // Legit cluster at 80-120 ms
    for g in [80u32, 90, 100, 110, 120] {
        c.record_down(0x42, 10_000);
        c.record_down(0x42, 10_000 + g);
    }
    let t = c.suggest_threshold(0x42).unwrap();
    assert!((25..=80).contains(&t), "expected 25..=80, got {t}");
}

#[test]
fn suggest_none_with_insufficient_data() {
    let mut c = Calibrator::new();
    c.record_down(0x42, 0);
    c.record_down(0x42, 50);
    assert!(c.suggest_threshold(0x42).is_none());
}

#[test]
fn suggest_none_when_only_typing_range_gaps() {
    // A non-chattering key that got occasionally mashed fast — all gaps
    // above the 50 ms chatter ceiling shouldn't look like chatter, even
    // if the samples cluster in one typing bucket.
    let gaps: Vec<u32> = vec![180, 185, 190, 185, 190, 180];
    assert!(suggest_from_gaps(&gaps).is_none());
}

#[test]
fn suggest_none_with_lone_chatter_sample() {
    // One stray sub-ceiling gap (e.g. a single rolled double-press) is
    // not enough to declare chatter.
    let gaps: Vec<u32> = vec![18, 180, 200, 210];
    assert!(suggest_from_gaps(&gaps).is_none());
}

#[test]
fn suggestion_is_bucket_edge_above_highest_chatter_gap() {
    assert_eq!(suggest_from_gaps(&[10, 15, 20, 25, 15, 20, 12]), Some(30));
    assert_eq!(suggest_from_gaps(&[3, 4, 49, 300]), Some(50));
    assert_eq!(suggest_from_gaps(&[0, 0, 0]), Some(5));
    assert_eq!(suggest_from_gaps(&[24, 21, 22, 120]), Some(25));
    assert_eq!(suggest_from_gaps(&[50, 51, 49, 48]), None);
    assert_eq!(suggest_from_gaps(&[]), None);
}

#[test]
fn record_down_ignores_zero_gap_and_keeps_keys_apart() {
    let mut c = Calibrator::new();
    c.record_down(0x41, 100);
    c.record_down(0x42, 110);
    c.record_down(0x41, 100);
    c.record_down(0x41, 130);
    c.record_down(0x42, 2109);
    c.record_down(0x42, 4109);
    let s = c.snapshot();
    assert_eq!(s[&0x41], vec![30]);
    assert_eq!(s[&0x42], vec![1999]);
    assert_eq!(s.len(), 2);
}

#[test]
fn suggest_threshold_of_unknown_key_is_none() {
    let c = Calibrator::new();
    assert!(c.suggest_threshold(0x41).is_none());
    assert!(c.snapshot().is_empty());
}
