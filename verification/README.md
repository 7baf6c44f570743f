# chatter-blocker

A Windows tray utility that suppresses keyboard chatter: the duplicate key
events a worn or bouncy switch emits when pressed once. A low-level keyboard
hook timestamps events per virtual key and swallows any key-down that arrives
inside a configurable debounce window; key-ups always pass.

## Layout

- `src/` — the library, verified with Verus:
  - `filter.rs` — per-key state and the debounce rule, with its laws
    (key independence, counting, auto-repeat, bounce suppression);
  - `calibrate.rs` — gap recording and the suggested window;
  - `report.rs` — the calibration report (histograms, key names) and the
    chatter suggestions;
  - `config.rs` — thresholds and merging suggestions into them;
  - `hook.rs` — the hook's decisions, calibration sessions, the on/off switch;
  - `tray.rs`, `autostart.rs`, `text.rs` — tooltip text, icon pixels, menu
    commands, the quoted `Run` command line, number rendering.
- `app/` — the Windows program around it: the hook, tray window, registry,
  `config.toml` on disk and its watcher.
- `tests/` — tests of the library.
