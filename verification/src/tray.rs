//! What the tray icon shows and how its menu is read: the tooltip text, the
//! keycap icon's pixels and the menu commands.

use crate::text::{decimal, digit_char, push_decimal};
use vstd::prelude::*;

verus! {

/// Menu item: turn filtering on or off.
pub const IDM_TOGGLE: usize = 1001;

/// Menu item: open the folder that holds `config.toml`.
pub const IDM_OPEN_CONFIG: usize = 1002;

/// Menu item: quit.
pub const IDM_QUIT: usize = 1003;

/// Menu item: start the program at login, or stop doing so.
pub const IDM_AUTOSTART: usize = 1004;

/// A tray menu command.
#[derive(Debug, Clone, Copy, PartialEq, Eq, Structural)]
pub enum TrayCommand {
    Toggle,
    OpenConfig,
    Quit,
    /// Start with Windows, or stop.
    ToggleAutostart,
    /// Not one of ours.
    Ignore,
}

/// The command that a `WM_COMMAND` message's `wparam` selects: its low word
/// is the menu item.
pub open spec fn command_of(wparam: usize) -> TrayCommand {
    let id = wparam & 0xFFFF;
    if id == IDM_TOGGLE {
        TrayCommand::Toggle
    } else if id == IDM_OPEN_CONFIG {
        TrayCommand::OpenConfig
    } else if id == IDM_QUIT {
        TrayCommand::Quit
    } else if id == IDM_AUTOSTART {
        TrayCommand::ToggleAutostart
    } else {
        TrayCommand::Ignore
    }
}

/// Reads the menu command of a `WM_COMMAND` message.
pub fn tray_command(wparam: usize) -> (c: TrayCommand)
    ensures
        c == command_of(wparam),
{
    let id = wparam & 0xFFFF;
    if id == IDM_TOGGLE {
        TrayCommand::Toggle
    } else if id == IDM_OPEN_CONFIG {
        TrayCommand::OpenConfig
    } else if id == IDM_QUIT {
        TrayCommand::Quit
    } else if id == IDM_AUTOSTART {
        TrayCommand::ToggleAutostart
    } else {
        TrayCommand::Ignore
    }
}

/// The menu's running count: "Suppressed: N".
pub open spec fn suppressed_text(suppressed: u64) -> Seq<char> {
    "Suppressed: "@ + decimal(suppressed as nat)
}

/// The tooltip text: whether filtering is on, then the running count.
pub open spec fn tip_text(enabled: bool, suppressed: u64) -> Seq<char> {
    (if enabled {
        "ChatterBlocker — on"@
    } else {
        "ChatterBlocker — off"@
    }) + "\n"@ + suppressed_text(suppressed)
}

/// Every character lies in the Basic Multilingual Plane, outside the
/// surrogate range, so that UTF-16 spends one unit on it.
pub open spec fn single_unit_chars(s: Seq<char>) -> bool {
    forall|i: int| 0 <= i < s.len() ==> (s[i] as u32) < 0xD800 || (0xE000 <= (s[i] as u32) < 0x10000)
}

/// The UTF-16 units of a string whose characters each take one unit.
pub open spec fn utf16_units(s: Seq<char>) -> Seq<u16> {
    s.map(|i: int, c: char| (c as u32) as u16)
}

/// Decimal digits are ASCII.
pub proof fn lemma_decimal_single_unit(n: nat)
    ensures
        single_unit_chars(decimal(n)),
    decreases n,
{
    if n >= 10 {
        lemma_decimal_single_unit(n / 10);
        assert(digit_char(n % 10) as u32 == 48 + n % 10);
    } else {
        assert(digit_char(n) as u32 == 48 + n);
    }
}

/// The UTF-16 encoding of a string whose characters each take one unit.
fn utf16_of(s: &str) -> (units: Vec<u16>)
    requires
        single_unit_chars(s@),
    ensures
        units@ == utf16_units(s@),
{
    broadcast use vstd::string::group_string_axioms;

    let mut units: Vec<u16> = Vec::new();
    for c in it: s.chars()
        invariant
            it.seq() == s@,
            single_unit_chars(s@),
            units@ == utf16_units(s@.take(it.index())),
    {
        let ghost idx = it.index();
        assert(c == s@[idx]);
        units.push((c as u32) as u16);
        assert(units@ =~= utf16_units(s@.take(idx + 1)));
    }
    assert(s@.take(s@.len() as int) =~= s@);
    units
}

/// The "Suppressed: N" menu item, as a NUL-terminated UTF-16 string.
pub fn suppressed_label(suppressed: u64) -> (label: Vec<u16>)
    ensures
        label@ == utf16_units(suppressed_text(suppressed)).push(0),
{
    let mut text = String::from_str("Suppressed: ");
    push_decimal(&mut text, suppressed);
    proof {
        reveal_strlit("Suppressed: ");
        lemma_decimal_single_unit(suppressed as nat);
        assert(text@ == suppressed_text(suppressed));
        assert(single_unit_chars(text@));
    }
    let mut label = utf16_of(text.as_str());
    label.push(0);
    label
}

/// Writes the tooltip into `buf` as a NUL-terminated UTF-16 string, cut to
/// fit. Units after the terminator keep their values.
pub fn write_tip(buf: &mut [u16], enabled: bool, suppressed: u64)
    requires
        old(buf).len() >= 1,
    ensures
        ({
            let units = utf16_units(tip_text(enabled, suppressed));
            let n = if units.len() < old(buf).len() - 1 {
                units.len() as int
            } else {
                old(buf).len() - 1
            };
            &&& final(buf)@.len() == old(buf)@.len()
            &&& final(buf)@.subrange(0, n) == units.subrange(0, n)
            &&& final(buf)@[n] == 0
            &&& final(buf)@.subrange(n + 1, old(buf)@.len() as int) == old(buf)@.subrange(
                n + 1,
                old(buf)@.len() as int,
            )
        }),
{
    let mut text = if enabled {
        String::from_str("ChatterBlocker — on\nSuppressed: ")
    } else {
        String::from_str("ChatterBlocker — off\nSuppressed: ")
    };
    push_decimal(&mut text, suppressed);
    proof {
        reveal_strlit("ChatterBlocker — on\nSuppressed: ");
        reveal_strlit("ChatterBlocker — off\nSuppressed: ");
        reveal_strlit("ChatterBlocker — on");
        reveal_strlit("ChatterBlocker — off");
        reveal_strlit("\n");
        reveal_strlit("Suppressed: ");
        lemma_decimal_single_unit(suppressed as nat);
        assert(text@ =~= tip_text(enabled, suppressed));
        assert(single_unit_chars(text@));
    }
    let wide = utf16_of(text.as_str());
    let n = if wide.len() < buf.len() - 1 {
        wide.len()
    } else {
        buf.len() - 1
    };
    let mut i: usize = 0;
    while i < n
        invariant
            i <= n,
            n < buf.len(),
            n <= wide.len(),
            buf@.len() == old(buf)@.len(),
            forall|j: int| 0 <= j < i ==> buf@[j] == wide@[j],
            forall|j: int| i <= j < buf@.len() ==> buf@[j] == old(buf)@[j],
        decreases n - i,
    {
        buf[i] = wide[i];
        i = i + 1;
    }
    buf[n] = 0;
    assert(buf@.subrange(0, n as int) =~= wide@.subrange(0, n as int));
    assert(buf@.subrange(n + 1, buf@.len() as int) =~= old(buf)@.subrange(
        n + 1,
        old(buf)@.len() as int,
    ));
}

/// The colour of one icon cell as (red, green, blue, alpha): '.' transparent
/// (rounded corners), '#' border and 'B' letter dark, 'k' keycap face light,
/// anything else magenta.
pub open spec fn cell_rgba(cell: u8) -> (u8, u8, u8, u8) {
    if cell == 0x2E {
        (0, 0, 0, 0)
    } else if cell == 0x23 || cell == 0x42 {
        (40, 40, 40, 255)
    } else if cell == 0x6B {
        (235, 235, 235, 255)
    } else {
        (255, 0, 255, 255)
    }
}

fn rgba(cell: u8) -> (c: (u8, u8, u8, u8))
    ensures
        c == cell_rgba(cell),
{
    if cell == 0x2E {
        (0, 0, 0, 0)
    } else if cell == 0x23 || cell == 0x42 {
        (40, 40, 40, 255)
    } else if cell == 0x6B {
        (235, 235, 235, 255)
    } else {
        (255, 0, 255, 255)
    }
}

/// The 32-bit colour bitmap of an icon drawn from a pattern of cells, row by
/// row: four bytes per cell, in blue, green, red, alpha order.
pub fn icon_bgra(pattern: &[u8]) -> (px: Vec<u8>)
    requires
        pattern.len() * 4 <= usize::MAX,
    ensures
        px@.len() == pattern@.len() * 4,
        forall|i: int|
            0 <= i < pattern@.len() ==> {
                let (r, g, b, a) = cell_rgba(#[trigger] pattern@[i]);
                &&& px@[4 * i] == b
                &&& px@[4 * i + 1] == g
                &&& px@[4 * i + 2] == r
                &&& px@[4 * i + 3] == a
            },
{
    let mut px: Vec<u8> = Vec::new();
    let mut i: usize = 0;
    while i < pattern.len()
        invariant
            i <= pattern.len(),
            pattern.len() * 4 <= usize::MAX,
            px@.len() == i * 4,
            forall|k: int|
                0 <= k < i ==> {
                    let (r, g, b, a) = cell_rgba(#[trigger] pattern@[k]);
                    &&& px@[4 * k] == b
                    &&& px@[4 * k + 1] == g
                    &&& px@[4 * k + 2] == r
                    &&& px@[4 * k + 3] == a
                },
        decreases pattern.len() - i,
    {
        let (r, g, b, a) = rgba(pattern[i]);
        px.push(b);
        px.push(g);
        px.push(r);
        px.push(a);
        i = i + 1;
    }
    px
}

} // verus!
