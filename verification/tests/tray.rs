use chatter_blocker::autostart::quote_wide_path;
use chatter_blocker::tray::{icon_bgra, suppressed_label, tray_command, write_tip, TrayCommand};

fn wide(s: &str) -> Vec<u16> {
    s.encode_utf16().collect()
}

#[test]
fn tip_is_written_nul_terminated() {
    let mut buf = [0xAAAAu16; 128];
    write_tip(&mut buf, true, 0);
    let text = wide("ChatterBlocker — on\nSuppressed: 0");
    assert_eq!(&buf[..text.len()], &text[..]);
    assert_eq!(buf[text.len()], 0);
    assert_eq!(buf[text.len() + 1], 0xAAAA);
    assert_eq!(text[15], 0x2014);

    write_tip(&mut buf, false, 1234);
    let text = wide("ChatterBlocker — off\nSuppressed: 1234");
    assert_eq!(&buf[..text.len()], &text[..]);
    assert_eq!(buf[text.len()], 0);
}

#[test]
fn tip_is_cut_to_fit() {
    let mut buf = [7u16; 5];
    write_tip(&mut buf, true, 5);
    assert_eq!(buf, [0x43, 0x68, 0x61, 0x74, 0]);
    let mut one = [7u16; 1];
    write_tip(&mut one, false, 5);
    assert_eq!(one, [0]);
}

#[test]
fn suppressed_label_counts() {
    let mut expected = wide("Suppressed: 0");
    expected.push(0);
    assert_eq!(suppressed_label(0), expected);
    let mut expected = wide("Suppressed: 18446744073709551615");
    expected.push(0);
    assert_eq!(suppressed_label(u64::MAX), expected);
}

#[test]
fn menu_commands_from_low_word() {
    assert_eq!(tray_command(1001), TrayCommand::Toggle);
    assert_eq!(tray_command(1002), TrayCommand::OpenConfig);
    assert_eq!(tray_command(1003), TrayCommand::Quit);
    assert_eq!(tray_command(0x1_0000 + 1003), TrayCommand::Quit);
    assert_eq!(tray_command(1004), TrayCommand::ToggleAutostart);
    assert_eq!(tray_command(1005), TrayCommand::Ignore);
    assert_eq!(tray_command(0), TrayCommand::Ignore);
}

#[test]
fn icon_cells_become_bgra_pixels() {
    let px = icon_bgra(b".#kBz");
    assert_eq!(
        px,
        vec![0, 0, 0, 0, 40, 40, 40, 255, 235, 235, 235, 255, 40, 40, 40, 255, 255, 0, 255, 255]
    );
    assert!(icon_bgra(b"").is_empty());
}

#[test]
fn exe_path_is_quoted_and_terminated() {
    let path = wide("C:\\Program Files\\cb.exe");
    let out = quote_wide_path(&path);
    assert_eq!(out.len(), path.len() + 3);
    assert_eq!(out[0], b'"' as u16);
    assert_eq!(&out[1..=path.len()], &path[..]);
    assert_eq!(out[path.len() + 1], b'"' as u16);
    assert_eq!(out[path.len() + 2], 0);
    assert_eq!(quote_wide_path(&[]), vec![0x22, 0x22, 0]);
}
