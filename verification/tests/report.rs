use chatter_blocker::calibrate::Snapshot;
use chatter_blocker::report::{chatter_suggestions, format_report, vk_name, write_histogram};

fn snapshot(entries: &[(u32, &[u32])]) -> Snapshot {
    let mut s = Snapshot::new();
    for (vk, gaps) in entries {
        s.insert(*vk, gaps.to_vec());
    }
    s
}

#[test]
fn empty_snapshot_reports_no_data() {
    assert_eq!(format_report(&Snapshot::new()), "[calibrate] no data yet\n");
}

#[test]
fn report_lists_chatter_then_clean_keys_in_order() {
    let s = snapshot(&[
        (0x42, &[10, 15, 20, 25, 15, 20, 12, 80, 90, 100, 110, 120]),
        (0x41, &[100, 120, 210]),
        (0x10, &[5]),
    ]);
    let bar40 = "#".repeat(40);
    let bar20 = "#".repeat(20);
    let mut expected = String::new();
    expected.push_str("[calibrate] 2 keys sampled — 1 chatter candidate, 1 clean\n");
    expected.push_str("\n  vk 0x42 ('B'): n=12 — CHATTER: 7 gaps <50ms, suggest threshold 30ms\n");
    expected.push_str(&format!("     10- 15ms (  2) {}\n", bar40));
    expected.push_str(&format!("     15- 20ms (  2) {}\n", bar40));
    expected.push_str(&format!("     20- 25ms (  2) {}\n", bar40));
    expected.push_str(&format!("     25- 30ms (  1) {}\n", bar20));
    expected.push_str(&format!("     80- 85ms (  1) {}\n", bar20));
    expected.push_str(&format!("     90- 95ms (  1) {}\n", bar20));
    expected.push_str(&format!("    100-105ms (  1) {}\n", bar20));
    expected.push_str(&format!("    110-115ms (  1) {}\n", bar20));
    expected.push_str(&format!("    120-125ms (  1) {}\n", bar20));
    expected.push_str("\n  clean (no chatter signature):\n");
    expected.push_str("    vk 0x41 ('A'): n=3, min gap 100ms\n");
    assert_eq!(format_report(&s), expected);
}

#[test]
fn report_with_only_unsampled_keys_has_zero_counts() {
    let s = snapshot(&[(0x41, &[10, 12])]);
    assert_eq!(
        format_report(&s),
        "[calibrate] 0 keys sampled — 0 chatter candidates, 0 clean\n"
    );
}

#[test]
fn report_names_function_and_unnamed_keys() {
    let s = snapshot(&[(0x70, &[20, 21, 22]), (0x1234, &[1, 2, 3])]);
    let report = format_report(&s);
    assert!(report.starts_with("[calibrate] 2 keys sampled — 2 chatter candidates, 0 clean\n"));
    assert!(report.contains("\n  vk 0x70 (F1): n=3 — CHATTER: 3 gaps <50ms, suggest threshold 25ms\n"));
    assert!(report.contains("\n  vk 0x1234 (0x1234): n=3 — CHATTER: 3 gaps <50ms, suggest threshold 5ms\n"));
    assert!(!report.contains("clean (no chatter signature)"));
    // 0x70 sorts before 0x1234.
    assert!(report.find("vk 0x70").unwrap() < report.find("vk 0x1234").unwrap());
}

#[test]
fn histogram_overflow_line_and_minimum_bar() {
    let mut out = String::from("x");
    write_histogram(&mut out, &[1, 2, 3, 4, 6, 250, 199, 200]);
    let expected = format!(
        "x      0-  5ms (  4) {}\n      5- 10ms (  1) {}\n    195-200ms (  1) {}\n    >200ms (2)\n",
        "#".repeat(40),
        "#".repeat(10),
        "#".repeat(10)
    );
    assert_eq!(out, expected);
}

#[test]
fn histogram_bar_never_shorter_than_one() {
    let mut gaps = vec![7u32; 100];
    gaps.push(30);
    let mut out = String::new();
    write_histogram(&mut out, &gaps);
    assert_eq!(
        out,
        format!("      5- 10ms (100) {}\n     30- 35ms (  1) #\n", "#".repeat(40))
    );
}

#[test]
fn histogram_of_no_gaps_is_empty() {
    let mut out = String::new();
    write_histogram(&mut out, &[]);
    assert_eq!(out, "");
}

#[test]
fn vk_names() {
    assert_eq!(vk_name(0x08), "Back");
    assert_eq!(vk_name(0x09), "Tab");
    assert_eq!(vk_name(0x0D), "Enter");
    assert_eq!(vk_name(0x10), "Shift");
    assert_eq!(vk_name(0x11), "Ctrl");
    assert_eq!(vk_name(0x12), "Alt");
    assert_eq!(vk_name(0x14), "CapsLock");
    assert_eq!(vk_name(0x1B), "Esc");
    assert_eq!(vk_name(0x20), "Space");
    assert_eq!(vk_name(0x25), "Left");
    assert_eq!(vk_name(0x26), "Up");
    assert_eq!(vk_name(0x27), "Right");
    assert_eq!(vk_name(0x28), "Down");
    assert_eq!(vk_name(0x30), "'0'");
    assert_eq!(vk_name(0x39), "'9'");
    assert_eq!(vk_name(0x41), "'A'");
    assert_eq!(vk_name(0x5A), "'Z'");
    assert_eq!(vk_name(0x70), "F1");
    assert_eq!(vk_name(0x87), "F24");
    assert_eq!(vk_name(0x05), "0x05");
    assert_eq!(vk_name(0x3A), "0x3A");
    assert_eq!(vk_name(0xFF), "0xFF");
    assert_eq!(vk_name(0x1234), "0x1234");
    assert_eq!(vk_name(u32::MAX), "0xFFFFFFFF");
}

#[test]
fn chatter_suggestions_in_key_order() {
    let s = snapshot(&[
        (0x43, &[40, 41, 42]),
        (0x41, &[10, 11, 12, 300]),
        (0x42, &[100, 120, 140]),
        (0x44, &[1, 2]),
    ]);
    assert_eq!(chatter_suggestions(&s), vec![(0x41, 15), (0x43, 45)]);
    assert!(chatter_suggestions(&Snapshot::new()).is_empty());
}
