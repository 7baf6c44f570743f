//! The keyboard hook's decisions and the state it shares with the tray and
//! the configuration watcher: the filter, the calibration session, and the
//! on/off switch.

use crate::calibrate::{snapshot_view, Calibrator, CalibratorView, Snapshot};
use crate::config::{insert_pairs, Config};
use crate::filter::{Decision, Filter, FilterView};
use crate::report::{chatter_suggestions, format_report, report_text, sorted_keys, suggestion_pairs};
use vstd::prelude::*;

verus! {

/// The kind of a low-level keyboard message.
#[derive(Debug, Clone, Copy)]
pub enum KeyEventKind {
    /// A key-down or system key-down.
    Down,
    /// A key-up or system key-up.
    Up,
    /// Any other keyboard message.
    Other,
}

/// One low-level keyboard event as the hook receives it.
#[derive(Debug, Clone, Copy)]
pub struct KeyEvent {
    pub kind: KeyEventKind,
    pub vk: u32,
    pub time_ms: u32,
    /// Synthesised by another process (AutoHotkey, on-screen keyboards, SendInput).
    pub injected: bool,
}

/// The mathematical content of a [`HookState`].
pub struct HookView {
    pub filter: FilterView,
    pub calibrator: Option<CalibratorView>,
    pub calibrate_mode: bool,
    pub enabled: bool,
}

impl HookView {
    /// The state after the hook sees `ev`, and whether `ev` reaches the
    /// applications. Injected events are never filtered; while calibrating,
    /// key-downs are recorded and everything passes, whether or not
    /// filtering is on; when filtering is off everything passes.
    pub open spec fn on_event(self, ev: KeyEvent) -> (HookView, Decision) {
        if ev.injected {
            (self, Decision::Pass)
        } else if self.calibrate_mode {
            let calibrator = match (ev.kind, self.calibrator) {
                (KeyEventKind::Down, Some(c)) => Some(c.record_down(ev.vk, ev.time_ms)),
                _ => self.calibrator,
            };
            (HookView { calibrator, ..self }, Decision::Pass)
        } else if !self.enabled {
            (self, Decision::Pass)
        } else {
            match ev.kind {
                KeyEventKind::Down => {
                    let (f, d) = self.filter.key_down(ev.vk, ev.time_ms);
                    (HookView { filter: f, ..self }, d)
                },
                KeyEventKind::Up => (
                    HookView { filter: self.filter.key_up(ev.vk, ev.time_ms), ..self },
                    Decision::Pass,
                ),
                KeyEventKind::Other => (self, Decision::Pass),
            }
        }
    }

    /// A fresh calibration session: recording starts from nothing.
    pub open spec fn start_calibration(self) -> HookView {
        HookView {
            calibrator: Some(
                CalibratorView { last_down: Map::empty(), gaps: Map::empty() },
            ),
            calibrate_mode: true,
            ..self
        }
    }

    /// The state after a session ends, and the gaps it recorded if one was running.
    pub open spec fn stop_calibration(self) -> (HookView, Option<Map<u32, Seq<u32>>>) {
        (
            HookView { calibrator: None, calibrate_mode: false, ..self },
            match self.calibrator {
                Some(c) => Some(c.gaps),
                None => None,
            },
        )
    }
}

/// What the hook, the tray and the configuration watcher share.
pub struct HookState {
    filter: Filter,
    calibrator: Option<Calibrator>,
    calibrate_mode: bool,
    enabled: bool,
}

impl View for HookState {
    type V = HookView;

    closed spec fn view(&self) -> HookView {
        HookView {
            filter: self.filter@,
            calibrator: match self.calibrator {
                Some(c) => Some(c@),
                None => None,
            },
            calibrate_mode: self.calibrate_mode,
            enabled: self.enabled,
        }
    }
}

impl HookState {
    /// The state at start-up: filtering as the configuration says, and a
    /// calibration session already running when started in calibrate mode.
    pub fn new(cfg: Config, calibrate_mode: bool) -> (s: Self)
        ensures
            s@.enabled == cfg@.enabled,
            s@.calibrate_mode == calibrate_mode,
            s@.filter == (FilterView {
                config: cfg@,
                states: Map::empty(),
                counts: Map::empty(),
            }),
            s@.calibrator == (if calibrate_mode {
                Some(CalibratorView { last_down: Map::empty(), gaps: Map::empty() })
            } else {
                None
            }),
    {
        let enabled = cfg.enabled;
        let calibrator = if calibrate_mode {
            Some(Calibrator::new())
        } else {
            None
        };
        HookState { filter: Filter::new(cfg), calibrator, calibrate_mode, enabled }
    }

    /// Decides one keyboard event.
    pub fn handle_key_event(&mut self, ev: KeyEvent) -> (d: Decision)
        requires
            old(self)@.on_event(ev).1 == Decision::Suppress ==> old(self)@.filter.suppressed(ev.vk)
                < u64::MAX,
        ensures
            (final(self)@, d) == old(self)@.on_event(ev),
    {
        if ev.injected {
            return Decision::Pass;
        }
        // Calibration runs independently of `enabled`: once the user starts a
        // session we record regardless of the filter's on/off state.
        if self.calibrate_mode {
            if let KeyEventKind::Down = ev.kind {
                if let Some(c) = &mut self.calibrator {
                    c.record_down(ev.vk, ev.time_ms);
                }
            }
            return Decision::Pass;
        }
        if !self.enabled {
            return Decision::Pass;
        }
        match ev.kind {
            KeyEventKind::Down => self.filter.on_key_down(ev.vk, ev.time_ms),
            KeyEventKind::Up => self.filter.on_key_up(ev.vk, ev.time_ms),
            KeyEventKind::Other => Decision::Pass,
        }
    }

    /// The decision `ev` would get; nothing is recorded.
    pub fn decide(&self, ev: KeyEvent) -> (d: Decision)
        ensures
            d == self@.on_event(ev).1,
    {
        if ev.injected || self.calibrate_mode || !self.enabled {
            return Decision::Pass;
        }
        match ev.kind {
            KeyEventKind::Down => self.filter.peek_key_down(ev.vk, ev.time_ms),
            KeyEventKind::Up => Decision::Pass,
            KeyEventKind::Other => Decision::Pass,
        }
    }

    /// The number of suppressed key-downs of `vk` so far.
    pub fn suppressed(&self, vk: u32) -> (n: u64)
        ensures
            n == self@.filter.suppressed(vk),
    {
        self.filter.suppressed(vk)
    }

    /// Takes a reloaded configuration: its on/off switch and its windows.
    pub fn reload_config(&mut self, cfg: Config)
            ensures
            final(self)@ == (HookView {
                enabled: cfg@.enabled,
                filter: FilterView { config: cfg@, ..old(self)@.filter },
                ..old(self)@
            }),
    {
        self.enabled = cfg.enabled;
        self.filter.set_config(cfg);
    }

    /// Flips filtering on or off and returns the new setting.
    pub fn toggle_enabled(&mut self) -> (on: bool)
            ensures
            on == !old(self)@.enabled,
            final(self)@ == (HookView { enabled: on, ..old(self)@ }),
    {
        self.enabled = !self.enabled;
        self.enabled
    }

    pub fn is_enabled(&self) -> (on: bool)
        ensures
            on == self@.enabled,
    {
        self.enabled
    }

    pub fn is_calibrating(&self) -> (on: bool)
        ensures
            on == self@.calibrate_mode,
    {
        self.calibrate_mode
    }

    /// The gaps recorded so far in the running session; none without one.
    pub fn calibration_snapshot(&self) -> (s: Snapshot)
        ensures
            snapshot_view(s@) == match self@.calibrator {
                Some(c) => c.gaps,
                None => Map::empty(),
            },
    {
        match &self.calibrator {
            Some(c) => c.snapshot(),
            None => {
                let s = Snapshot::new();
                assert(snapshot_view(s@) =~= Map::empty());
                s
            },
        }
    }
}

/// The number of suppressed key-downs so far.
pub fn total_suppressed(state: &HookState) -> (n: u64)
    requires
        state@.filter.total() <= u64::MAX,
    ensures
        n == state@.filter.total(),
{
    state.filter.total_suppressed()
}

/// The number of suppressed key-downs so far, or `None` where that number
/// does not fit in a `u64`.
pub fn checked_total_suppressed(state: &HookState) -> (n: Option<u64>)
    ensures
        n == (if state@.filter.total() <= u64::MAX {
            Some(state@.filter.total() as u64)
        } else {
            None
        }),
{
    state.filter.checked_total_suppressed()
}

/// Starts a fresh calibration session.
pub fn start_calibration(state: &mut HookState)
    ensures
        final(state)@ == old(state)@.start_calibration(),
{
    state.calibrator = Some(Calibrator::new());
    state.calibrate_mode = true;
}

/// Stops an in-progress calibration and hands back the final snapshot.
/// Returns None if there was no active session.
pub fn stop_calibration(state: &mut HookState) -> (r: Option<Snapshot>)
    ensures
        final(state)@ == old(state)@.stop_calibration().0,
        match (r, old(state)@.stop_calibration().1) {
            (Some(s), Some(g)) => snapshot_view(s@) == g,
            (None, None) => true,
            _ => false,
        },
{
    state.calibrate_mode = false;
    match state.calibrator.take() {
        Some(c) => Some(c.snapshot()),
        None => None,
    }
}

/// Merges the chatter suggestions of a snapshot into `cfg`, keeping the
/// windows of all other keys, and returns the pairs applied.
pub fn apply_calibration_to_config(cfg: &mut Config, snapshot: &Snapshot) -> (applied: Vec<
    (u32, u32),
>)
    ensures
        applied@ == suggestion_pairs(sorted_keys(snapshot@.dom()), snapshot_view(snapshot@)),
        final(cfg)@.enabled == old(cfg)@.enabled,
        final(cfg)@.default_threshold_ms == old(cfg)@.default_threshold_ms,
        final(cfg)@.per_key_threshold_ms == insert_pairs(old(cfg)@.per_key_threshold_ms, applied@),
{
    let suggestions = chatter_suggestions(snapshot);
    cfg.set_thresholds(&suggestions);
    suggestions
}

/// The text of `calibration.txt`: the prelude, if any, and a blank line,
/// then the report.
pub fn calibration_report_body(snapshot: &Snapshot, prelude: Option<&str>) -> (body: String)
    ensures
        body@ == match prelude {
            Some(p) => p@ + "\n\n"@ + report_text(snapshot_view(snapshot@)),
            None => report_text(snapshot_view(snapshot@)),
        },
{
    let mut body = String::new();
    if let Some(p) = prelude {
        body.append(p);
        body.append("\n\n");
    }
    let report = format_report(snapshot);
    body.append(report.as_str());
    body
}

/// Injected events always pass and change nothing.
pub proof fn law_injected_events_pass(h: HookView, ev: KeyEvent)
    requires
        ev.injected,
    ensures
        h.on_event(ev) == (h, Decision::Pass),
{
}

/// While calibrating, every event passes and neither the filter nor the
/// switch changes, whether filtering is on or off; a key-down is recorded.
pub proof fn law_calibration_bypasses_filter(h: HookView, ev: KeyEvent)
    requires
        h.calibrate_mode,
        !ev.injected,
    ensures
        h.on_event(ev).1 == Decision::Pass,
        h.on_event(ev).0.filter == h.filter,
        h.on_event(ev).0.enabled == h.enabled,
        ev.kind is Down && h.calibrator is Some ==> h.on_event(ev).0.calibrator == Some(
            h.calibrator.unwrap().record_down(ev.vk, ev.time_ms),
        ),
{
}

/// With filtering off and no calibration, every event passes and nothing changes.
pub proof fn law_disabled_passes_everything(h: HookView, ev: KeyEvent)
    requires
        !h.calibrate_mode,
        !h.enabled,
    ensures
        h.on_event(ev) == (h, Decision::Pass),
{
}

/// Key-ups always pass, whatever the state.
pub proof fn law_key_ups_pass(h: HookView, ev: KeyEvent)
    requires
        ev.kind is Up,
    ensures
        h.on_event(ev).1 == Decision::Pass,
{
}

/// Stopping a session hands back exactly what it recorded, and stopping
/// right after starting hands back an empty snapshot; either way the
/// filter is untouched.
pub proof fn law_calibration_session(h: HookView)
    ensures
        h.start_calibration().stop_calibration().1 == Some(Map::<u32, Seq<u32>>::empty()),
        h.start_calibration().stop_calibration().0.filter == h.filter,
        !h.start_calibration().stop_calibration().0.calibrate_mode,
        h.stop_calibration().1 is None <==> h.calibrator is None,
{
}

} // verus!
