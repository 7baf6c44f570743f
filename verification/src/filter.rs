//! The per-key debounce filter. Each key-down consults the key's last real
//! down, last release and whether it is held; a down that arrives inside the
//! debounce window is suppressed. Key-ups always pass.

use crate::config::{Config, ConfigView};
use std::collections::HashMap;
use vstd::prelude::*;
use vstd::std_specs::iter::IteratorSpec;

verus! {

broadcast use vstd::std_specs::hash::group_hash_axioms;

/// What the filter remembers of one key.
#[derive(Debug, Clone, Copy)]
pub struct KeyState {
    pub last_down_ms: u32,
    pub last_up_ms: u32,
    pub is_held: bool,
}

impl KeyState {
    /// The state of a key that has seen no event.
    pub open spec fn fresh() -> KeyState {
        KeyState { last_down_ms: 0, last_up_ms: 0, is_held: false }
    }
}

impl Default for KeyState {
    fn default() -> (s: Self)
        ensures
            s == KeyState::fresh(),
    {
        KeyState { last_down_ms: 0, last_up_ms: 0, is_held: false }
    }
}

/// Whether an event reaches the applications.
#[derive(Debug, Clone, Copy, PartialEq, Eq, Structural)]
pub enum Decision {
    Pass,
    Suppress,
}

/// What a key-down does to a key's state, and whether it is suppressed.
///
/// A held key is compared with its last accepted down (auto-repeat arrives
/// at intervals above any practical window); a released key is compared with
/// its last release, unless it was never released.
pub open spec fn down_step(ks: KeyState, threshold: u32, time_ms: u32) -> (KeyState, Decision) {
    if ks.is_held {
        if time_ms.saturating_sub(ks.last_down_ms) < threshold {
            (ks, Decision::Suppress)
        } else {
            (KeyState { last_down_ms: time_ms, ..ks }, Decision::Pass)
        }
    } else {
        if ks.last_up_ms != 0 && time_ms.saturating_sub(ks.last_up_ms) < threshold {
            (ks, Decision::Suppress)
        } else {
            (KeyState { last_down_ms: time_ms, is_held: true, ..ks }, Decision::Pass)
        }
    }
}

/// What a key-up does to a key's state.
pub open spec fn up_step(ks: KeyState, time_ms: u32) -> KeyState {
    KeyState { last_up_ms: time_ms, is_held: false, ..ks }
}

/// The sum of the values of a finite map.
pub open spec fn count_sum(m: Map<u32, u64>) -> int
    decreases m.dom().len(),
    when m.dom().finite()
{
    if m.dom().len() == 0 {
        0
    } else {
        let k = m.dom().choose();
        m[k] + count_sum(m.remove(k))
    }
}

/// The mathematical content of a [`Filter`].
pub struct FilterView {
    pub config: ConfigView,
    /// The state of each key that has seen an event.
    pub states: Map<u32, KeyState>,
    /// The number of suppressed downs of each key that has had one.
    pub counts: Map<u32, u64>,
}

impl FilterView {
    pub open spec fn key_state(self, vk: u32) -> KeyState {
        if self.states.contains_key(vk) {
            self.states[vk]
        } else {
            KeyState::fresh()
        }
    }

    pub open spec fn suppressed(self, vk: u32) -> u64 {
        if self.counts.contains_key(vk) {
            self.counts[vk]
        } else {
            0
        }
    }

    pub open spec fn total(self) -> int {
        count_sum(self.counts)
    }

    /// The filter after a key-down of `vk` at `time_ms`, and its decision.
    pub open spec fn key_down(self, vk: u32, time_ms: u32) -> (FilterView, Decision) {
        let (ks, d) = down_step(self.key_state(vk), self.config.threshold(vk), time_ms);
        let counts = if d == Decision::Suppress {
            self.counts.insert(vk, (self.suppressed(vk) + 1) as u64)
        } else {
            self.counts
        };
        (FilterView { config: self.config, states: self.states.insert(vk, ks), counts }, d)
    }

    /// The filter after a key-up of `vk` at `time_ms`.
    pub open spec fn key_up(self, vk: u32, time_ms: u32) -> FilterView {
        FilterView {
            states: self.states.insert(vk, up_step(self.key_state(vk), time_ms)),
            ..self
        }
    }
}

/// The debounce filter.
pub struct Filter {
    cfg: Config,
    state: HashMap<u32, KeyState>,
    suppressed_count: HashMap<u32, u64>,
}

impl View for Filter {
    type V = FilterView;

    closed spec fn view(&self) -> FilterView {
        FilterView { config: self.cfg@, states: self.state@, counts: self.suppressed_count@ }
    }
}

/// The sum of a finite map is the value at any of its keys plus the sum of the rest.
pub proof fn lemma_count_sum_remove(m: Map<u32, u64>, k: u32)
    requires
        m.dom().finite(),
        m.contains_key(k),
    ensures
        count_sum(m) == m[k] + count_sum(m.remove(k)),
    decreases m.dom().len(),
{
    let c = m.dom().choose();
    if c != k {
        lemma_count_sum_remove(m.remove(c), k);
        lemma_count_sum_remove(m.remove(k), c);
        assert(m.remove(c).remove(k) =~= m.remove(k).remove(c));
    }
}

/// The sum of a finite map is not negative.
pub proof fn lemma_count_sum_nonneg(m: Map<u32, u64>)
    requires
        m.dom().finite(),
    ensures
        count_sum(m) >= 0,
    decreases m.dom().len(),
{
    if m.dom().len() != 0 {
        lemma_count_sum_nonneg(m.remove(m.dom().choose()));
    }
}

/// Setting one value of a finite map changes its sum by the difference.
pub proof fn lemma_count_sum_insert(m: Map<u32, u64>, k: u32, v: u64)
    requires
        m.dom().finite(),
    ensures
        count_sum(m.insert(k, v)) == count_sum(m) - (if m.contains_key(k) {
            m[k] as int
        } else {
            0
        }) + v,
{
    let m2 = m.insert(k, v);
    lemma_count_sum_remove(m2, k);
    assert(m2.remove(k) =~= m.remove(k));
    if m.contains_key(k) {
        lemma_count_sum_remove(m, k);
    } else {
        assert(m.remove(k) =~= m);
    }
}

/// The sum of the values of a sequence of (key, count) pairs.
pub open spec fn pair_sum(s: Seq<(u32, u64)>) -> int
    decreases s.len(),
{
    if s.len() == 0 {
        0
    } else {
        pair_sum(s.drop_last()) + s.last().1
    }
}

/// A prefix of a sequence of pairs sums to no more than the whole.
pub proof fn lemma_pair_sum_prefix(s: Seq<(u32, u64)>, i: int)
    requires
        0 <= i <= s.len(),
    ensures
        pair_sum(s.take(i)) <= pair_sum(s),
    decreases s.len(),
{
    if i < s.len() {
        lemma_pair_sum_prefix(s.drop_last(), i);
        assert(s.drop_last().take(i) =~= s.take(i));
    } else {
        assert(s.take(i) =~= s);
    }
}

/// Listing each entry of a finite map once, in any order, and summing the
/// values gives the map's sum.
pub proof fn lemma_pair_sum_is_count_sum(s: Seq<(u32, u64)>, m: Map<u32, u64>)
    requires
        m.dom().finite(),
        s.len() == m.dom().len(),
        s.no_duplicates(),
        forall|i: int| 0 <= i < s.len() ==> #[trigger] m.contains_key(s[i].0) && m[s[i].0] == s[i].1,
    ensures
        pair_sum(s) == count_sum(m),
    decreases s.len(),
{
    if s.len() > 0 {
        let n = s.len() - 1;
        let k = s[n].0;
        let t = s.drop_last();
        let m2 = m.remove(k);
        assert(m.contains_key(s[n].0));
        assert forall|i: int| 0 <= i < t.len() implies #[trigger] m2.contains_key(t[i].0) && m2[t[i].0]
            == t[i].1 by {
            assert(t[i] == s[i]);
            assert(m.contains_key(s[i].0));
            if t[i].0 == k {
                assert(s[i] == s[n]);
            }
        }
        assert forall|i: int, j: int| 0 <= i < t.len() && 0 <= j < t.len() && i != j implies t[i]
            != t[j] by {
            assert(t[i] == s[i] && t[j] == s[j]);
        }
        lemma_pair_sum_is_count_sum(t, m2);
        lemma_count_sum_remove(m, k);
    }
}

impl Filter {
    pub fn new(cfg: Config) -> (f: Self)
        ensures
            f@.config == cfg@,
            f@.states == Map::<u32, KeyState>::empty(),
            f@.counts == Map::<u32, u64>::empty(),
    {
        Filter { cfg, state: HashMap::new(), suppressed_count: HashMap::new() }
    }

    /// Every filter counts suppressions for finitely many keys.
    pub proof fn lemma_counts_finite(&self)
        ensures
            self@.counts.dom().finite(),
    {
    }

    /// Replaces the configuration; key states and counts stay.
    pub fn set_config(&mut self, cfg: Config)
        ensures
            final(self)@ == (FilterView { config: cfg@, ..old(self)@ }),
    {
        self.cfg = cfg;
    }

    /// The new state of `vk` and the decision that a key-down at `time_ms`
    /// would bring, without recording it.
    fn down_outcome(&self, vk: u32, time_ms: u32) -> (r: (KeyState, Decision))
        ensures
            r == down_step(self@.key_state(vk), self@.config.threshold(vk), time_ms),
    {
        let threshold = self.cfg.threshold(vk);
        let mut state = match self.state.get(&vk) {
            Some(s) => *s,
            None => KeyState::default(),
        };
        // Auto-repeat intervals don't fall below typical thresholds (~25–30 ms) in
        // practice, so a gap inside the window means chatter in either branch.
        let suppress = if state.is_held {
            let gap = time_ms.saturating_sub(state.last_down_ms);
            if gap < threshold {
                true
            } else {
                state.last_down_ms = time_ms;
                false
            }
        } else {
            let gap = time_ms.saturating_sub(state.last_up_ms);
            if state.last_up_ms != 0 && gap < threshold {
                true
            } else {
                state.last_down_ms = time_ms;
                state.is_held = true;
                false
            }
        };
        if suppress {
            (state, Decision::Suppress)
        } else {
            (state, Decision::Pass)
        }
    }

    /// The decision a key-down of `vk` at `time_ms` would get; nothing is recorded.
    pub fn peek_key_down(&self, vk: u32, time_ms: u32) -> (d: Decision)
        ensures
            d == self@.key_down(vk, time_ms).1,
    {
        self.down_outcome(vk, time_ms).1
    }

    /// Decides a key-down of `vk` at `time_ms`. The suppression count of a
    /// key cannot pass `u64::MAX`.
    pub fn on_key_down(&mut self, vk: u32, time_ms: u32) -> (d: Decision)
        requires
            old(self)@.key_down(vk, time_ms).1 == Decision::Suppress ==> old(self)@.suppressed(vk)
                < u64::MAX,
        ensures
            (final(self)@, d) == old(self)@.key_down(vk, time_ms),
            final(self)@.total() == old(self)@.total() + if d == Decision::Suppress {
                1int
            } else {
                0int
            },
    {
        let (state, d) = self.down_outcome(vk, time_ms);
        self.state.insert(vk, state);
        if let Decision::Suppress = d {
            let count = match self.suppressed_count.get(&vk) {
                Some(c) => *c,
                None => 0,
            };
            proof {
                lemma_count_sum_insert(self.suppressed_count@, vk, (count + 1) as u64);
            }
            self.suppressed_count.insert(vk, count + 1);
        }
        d
    }

    /// Records a key-up of `vk` at `time_ms`. Key-ups always pass: swallowing
    /// them would leave modifiers stuck.
    pub fn on_key_up(&mut self, vk: u32, time_ms: u32) -> (d: Decision)
        ensures
            d == Decision::Pass,
            final(self)@ == old(self)@.key_up(vk, time_ms),
    {
        // UPs always pass. Suppressing them would cause stuck modifiers (Ctrl,
        // Shift, Alt) at any non-trivial threshold since held time is usually
        // shorter than the debounce window. A mid-hold bounce still briefly
        // looks like a release to the app, but that's cheaper than stuck keys.
        let mut state = match self.state.get(&vk) {
            Some(s) => *s,
            None => KeyState::default(),
        };
        state.last_up_ms = time_ms;
        state.is_held = false;
        self.state.insert(vk, state);
        Decision::Pass
    }

    /// The number of suppressed downs of `vk`.
    pub fn suppressed(&self, vk: u32) -> (n: u64)
        ensures
            n == self@.suppressed(vk),
    {
        match self.suppressed_count.get(&vk) {
            Some(n) => *n,
            None => 0,
        }
    }

    /// The number of suppressed downs over all keys, or `None` where that
    /// number does not fit in a `u64`.
    pub fn checked_total_suppressed(&self) -> (n: Option<u64>)
        ensures
            n == (if self@.total() <= u64::MAX {
                Some(self@.total() as u64)
            } else {
                None
            }),
    {
        let ghost m = self.suppressed_count@;
        let entries = self.suppressed_count.iter();
        let ghost all = entries.remaining();
        let ghost pairs = all.unref();
        proof {
            assert(pairs.no_duplicates()) by {
                assert forall|i: int, j: int| 0 <= i < pairs.len() && 0 <= j < pairs.len() && i != j
                    implies pairs[i] != pairs[j] by {
                    assert(all[i] != all[j]);
                }
            }
            assert forall|i: int| 0 <= i < pairs.len() implies #[trigger] m.contains_key(pairs[i].0)
                && m[pairs[i].0] == pairs[i].1 by {
                assert(m.contains_key(*all[i].0));
            }
            lemma_pair_sum_is_count_sum(pairs, m);
        }
        let mut total: u64 = 0;
        for kv in it: entries
            invariant
                it.seq() == all,
                pairs == all.unref(),
                pair_sum(pairs) == count_sum(m),
                m == self.suppressed_count@,
                total == pair_sum(pairs.take(it.index())),
        {
            let ghost idx = it.index();
            assert(pairs.take(idx + 1).drop_last() =~= pairs.take(idx));
            proof {
                lemma_pair_sum_prefix(pairs, idx + 1);
            }
            let v = *kv.1;
            match total.checked_add(v) {
                Some(t) => total = t,
                None => return None,
            }
        }
        assert(pairs.take(pairs.len() as int) =~= pairs);
        Some(total)
    }

    /// The number of suppressed downs over all keys.
    pub fn total_suppressed(&self) -> (n: u64)
        requires
            self@.total() <= u64::MAX,
        ensures
            n == self@.total(),
    {
        proof {
            lemma_count_sum_nonneg(self@.counts);
        }
        match self.checked_total_suppressed() {
            Some(n) => n,
            None => 0,
        }
    }
}

/// A key-down or key-up of one key changes neither the state nor the
/// suppression count of any other key.
pub proof fn law_keys_independent(f: FilterView, vk: u32, other: u32, time_ms: u32)
    requires
        vk != other,
    ensures
        f.key_down(vk, time_ms).0.key_state(other) == f.key_state(other),
        f.key_down(vk, time_ms).0.suppressed(other) == f.suppressed(other),
        f.key_up(vk, time_ms).key_state(other) == f.key_state(other),
        f.key_up(vk, time_ms).suppressed(other) == f.suppressed(other),
{
}

/// Each suppressed key-down adds one to its key's count and to the total;
/// a passed key-down and any key-up leave every count alone.
pub proof fn law_counts_track_suppressions(f: FilterView, vk: u32, time_ms: u32)
    requires
        f.counts.dom().finite(),
        f.key_down(vk, time_ms).1 == Decision::Suppress ==> f.suppressed(vk) < u64::MAX,
    ensures
        ({
            let (g, d) = f.key_down(vk, time_ms);
            &&& d == Decision::Suppress ==> g.suppressed(vk) == f.suppressed(vk) + 1 && g.total()
                == f.total() + 1
            &&& d == Decision::Pass ==> g.counts == f.counts
        }),
        f.key_up(vk, time_ms).counts == f.counts,
{
    lemma_count_sum_insert(f.counts, vk, (f.suppressed(vk) + 1) as u64);
}

/// A suppressed key-down leaves no trace in the key's state: the filter
/// behaves afterwards as if the event had never arrived.
pub proof fn law_suppressed_down_is_forgotten(f: FilterView, vk: u32, time_ms: u32)
    ensures
        f.key_down(vk, time_ms).1 == Decision::Suppress ==> f.key_down(vk, time_ms).0.key_state(vk)
            == f.key_state(vk),
{
}

/// The first key-down of a key that has never been released passes, whatever
/// the window.
pub proof fn law_first_press_passes(f: FilterView, vk: u32, time_ms: u32)
    requires
        f.key_state(vk) == KeyState::fresh(),
    ensures
        f.key_down(vk, time_ms).1 == Decision::Pass,
        f.key_down(vk, time_ms).0.key_state(vk).is_held,
        f.key_down(vk, time_ms).0.key_state(vk).last_down_ms == time_ms,
{
}

/// While a key is held, a repeat down at or beyond the window after the last
/// accepted down passes and becomes the new reference (auto-repeat is not
/// chatter); one inside the window is suppressed.
pub proof fn law_held_key_repeats(f: FilterView, vk: u32, time_ms: u32)
    requires
        f.key_state(vk).is_held,
    ensures
        ({
            let gap = time_ms.saturating_sub(f.key_state(vk).last_down_ms);
            let (g, d) = f.key_down(vk, time_ms);
            &&& gap >= f.config.threshold(vk) ==> d == Decision::Pass && g.key_state(vk).last_down_ms
                == time_ms && g.key_state(vk).is_held
            &&& gap < f.config.threshold(vk) ==> d == Decision::Suppress
        }),
{
}

/// After a release at a nonzero time `up_ms`, a key-down at `down_ms >= up_ms`
/// is suppressed exactly when it comes sooner than the key's window after the
/// release: a bounce back down is blocked, a real new press passes.
pub proof fn law_down_after_release(f: FilterView, vk: u32, up_ms: u32, down_ms: u32)
    requires
        up_ms != 0,
        up_ms <= down_ms,
    ensures
        ({
            let (g, d) = f.key_up(vk, up_ms).key_down(vk, down_ms);
            &&& d == Decision::Suppress <==> down_ms - up_ms < f.config.threshold(vk)
            &&& d == Decision::Pass ==> g.key_state(vk).is_held && g.key_state(vk).last_down_ms
                == down_ms
        }),
{
}

/// Suppression counts never go down.
pub proof fn law_counts_never_decrease(f: FilterView, vk: u32, other: u32, time_ms: u32)
    requires
        f.key_down(vk, time_ms).1 == Decision::Suppress ==> f.suppressed(vk) < u64::MAX,
    ensures
        f.key_down(vk, time_ms).0.suppressed(other) >= f.suppressed(other),
        f.key_up(vk, time_ms).suppressed(other) == f.suppressed(other),
{
}

/// A window of zero never suppresses anything.
pub proof fn law_zero_window_passes_all(f: FilterView, vk: u32, time_ms: u32)
    requires
        f.config.threshold(vk) == 0,
    ensures
        f.key_down(vk, time_ms).1 == Decision::Pass,
{
}


/// One call on a filter, for stating what a whole history of calls does.
pub enum FilterCall {
    KeyDown(u32, u32),
    KeyUp(u32, u32),
    SetConfig(ConfigView),
}

impl FilterView {
    /// The filter after one call, and the call's decision (set-config passes
    /// nothing and answers `Pass`).
    pub open spec fn apply(self, call: FilterCall) -> (FilterView, Decision) {
        match call {
            FilterCall::KeyDown(vk, t) => self.key_down(vk, t),
            FilterCall::KeyUp(vk, t) => (self.key_up(vk, t), Decision::Pass),
            FilterCall::SetConfig(c) => (FilterView { config: c, ..self }, Decision::Pass),
        }
    }

    /// The filter after a sequence of calls.
    pub open spec fn run(self, calls: Seq<FilterCall>) -> FilterView
        decreases calls.len(),
    {
        if calls.len() == 0 {
            self
        } else {
            self.run(calls.drop_last()).apply(calls.last()).0
        }
    }

    /// Whether the last of `calls`, made after the others, is a suppressed
    /// key-down of `vk`.
    pub open spec fn last_suppresses(self, calls: Seq<FilterCall>, vk: u32) -> bool
        recommends
            calls.len() > 0,
    {
        &&& calls.last() matches FilterCall::KeyDown(k, _)
        &&& k == vk
        &&& self.run(calls.drop_last()).apply(calls.last()).1 == Decision::Suppress
    }

    /// The number of key-downs of `vk` among `calls` that were suppressed.
    pub open spec fn suppressions_of(self, calls: Seq<FilterCall>, vk: u32) -> nat
        decreases calls.len(),
    {
        if calls.len() == 0 {
            0
        } else {
            self.suppressions_of(calls.drop_last(), vk) + if self.last_suppresses(calls, vk) {
                1nat
            } else {
                0nat
            }
        }
    }

    /// The number of key-downs among `calls` that were suppressed.
    pub open spec fn suppressions(self, calls: Seq<FilterCall>) -> nat
        decreases calls.len(),
    {
        if calls.len() == 0 {
            0
        } else {
            self.suppressions(calls.drop_last()) + if self.run(calls.drop_last()).apply(
                calls.last(),
            ).1 == Decision::Suppress {
                1nat
            } else {
                0nat
            }
        }
    }

    /// Every call of the history meets the filter's requirement: no
    /// suppressed key-down finds its key's count already at `u64::MAX`.
    pub open spec fn admits(self, calls: Seq<FilterCall>) -> bool
        decreases calls.len(),
    {
        if calls.len() == 0 {
            true
        } else {
            &&& self.admits(calls.drop_last())
            &&& match calls.last() {
                FilterCall::KeyDown(vk, t) => self.run(calls.drop_last()).key_down(vk, t).1
                    == Decision::Suppress ==> self.run(calls.drop_last()).suppressed(vk) < u64::MAX,
                _ => true,
            }
        }
    }
}

/// Over any history of calls that the filter admits, each key's count grows
/// by exactly the number of its key-downs that were suppressed, and the total
/// by the number of all suppressed key-downs. From a new filter, the total is
/// the number of suppressions.
pub proof fn law_counts_over_history(f: FilterView, calls: Seq<FilterCall>, vk: u32)
    requires
        f.counts.dom().finite(),
        f.admits(calls),
    ensures
        f.run(calls).counts.dom().finite(),
        f.run(calls).suppressed(vk) == f.suppressed(vk) + f.suppressions_of(calls, vk),
        f.run(calls).total() == f.total() + f.suppressions(calls),
    decreases calls.len(),
{
    if calls.len() > 0 {
        let t = calls.drop_last();
        law_counts_over_history(f, t, vk);
        let g = f.run(t);
        match calls.last() {
            FilterCall::KeyDown(k, time) => {
                law_counts_track_suppressions(g, k, time);
            },
            _ => {},
        }
    }
}

} // verus!
