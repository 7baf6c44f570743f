//! Calibration: the gaps between successive key-downs of each key, and the
//! debounce window they suggest.

use std::collections::HashMap;
use vstd::multiset::Multiset;
use vstd::prelude::*;

verus! {

broadcast use vstd::std_specs::hash::group_hash_axioms;

/// Width of one histogram bucket.
pub const BUCKET_MS: u32 = 5;

/// Gaps at or above this are drawn together in the histogram's overflow line.
pub const MAX_MS: u32 = 200;

/// Number of histogram buckets below `MAX_MS`.
pub const N_BUCKETS: usize = 40;

/// Gaps at or above this aren't chatter — by this point you're into legit
/// fast-typing intervals. Keeps the detector from firing on a thin scatter
/// of 150+ ms gaps when there's no actual chatter cluster at all.
pub const CHATTER_CEILING_MS: u32 = 50;

/// Minimum sub-ceiling samples before we'll suggest a threshold.
pub const MIN_CHATTER_COUNT: usize = 3;

/// Gaps of this length or more are a break in typing, not part of its rhythm.
pub const SESSION_BREAK_MS: u32 = 2000;

/// The recorded gaps of each key, by virtual-key code.
pub type Snapshot = HashMap<u32, Vec<u32>>;

/// The gap sequences of a snapshot.
pub open spec fn snapshot_view(s: Map<u32, Vec<u32>>) -> Map<u32, Seq<u32>> {
    s.map_values(|v: Vec<u32>| v@)
}

/// The number of elements of `s` below `ceiling`.
pub open spec fn count_below(s: Seq<u32>, ceiling: u32) -> nat
    decreases s.len(),
{
    if s.len() == 0 {
        0
    } else {
        count_below(s.drop_last(), ceiling) + if s.last() < ceiling {
            1nat
        } else {
            0nat
        }
    }
}

/// The largest element of `s` below `ceiling`, or -1 where there is none.
pub open spec fn max_below(s: Seq<u32>, ceiling: u32) -> int
    decreases s.len(),
{
    if s.len() == 0 {
        -1
    } else {
        let m = max_below(s.drop_last(), ceiling);
        if s.last() < ceiling && s.last() > m {
            s.last() as int
        } else {
            m
        }
    }
}

/// The window that a key's gaps suggest: none with fewer than three gaps
/// under the chatter ceiling; else the low edge of the bucket just above the
/// highest such gap.
pub open spec fn suggestion(gaps: Seq<u32>) -> Option<u32> {
    if count_below(gaps, CHATTER_CEILING_MS) < MIN_CHATTER_COUNT {
        None
    } else {
        Some(((max_below(gaps, CHATTER_CEILING_MS) / BUCKET_MS as int + 1) * BUCKET_MS) as u32)
    }
}

/// `max_below` is the largest element under the ceiling, and exists exactly
/// when some element is under it.
pub proof fn lemma_max_below(s: Seq<u32>, ceiling: u32)
    ensures
        count_below(s, ceiling) == 0 <==> max_below(s, ceiling) == -1,
        count_below(s, ceiling) <= s.len(),
        -1 <= max_below(s, ceiling) < ceiling,
        forall|i: int| 0 <= i < s.len() && s[i] < ceiling ==> s[i] <= max_below(s, ceiling),
        max_below(s, ceiling) >= 0 ==> exists|i: int|
            0 <= i < s.len() && s[i] == max_below(s, ceiling),
    decreases s.len(),
{
    if s.len() > 0 {
        let t = s.drop_last();
        lemma_max_below(t, ceiling);
        assert forall|i: int| 0 <= i < s.len() && s[i] < ceiling implies s[i] <= max_below(
            s,
            ceiling,
        ) by {
            if i < s.len() - 1 {
                assert(s[i] == t[i]);
            }
        }
        if max_below(s, ceiling) >= 0 {
            if max_below(s, ceiling) == max_below(t, ceiling) {
                let j = choose|j: int| 0 <= j < t.len() && t[j] == max_below(t, ceiling);
                assert(s[j] == t[j]);
            } else {
                assert(s[s.len() - 1] == max_below(s, ceiling));
            }
        }
    }
}

/// A threshold is suggested only for a chatter cluster: it lies above every
/// gap under the ceiling, no higher than the ceiling, on a bucket edge, and
/// within one bucket of the highest such gap.
pub proof fn law_suggestion_clears_chatter(gaps: Seq<u32>)
    ensures
        suggestion(gaps) is None <==> count_below(gaps, CHATTER_CEILING_MS) < MIN_CHATTER_COUNT,
        suggestion(gaps) matches Some(t) ==> {
            &&& t <= CHATTER_CEILING_MS
            &&& t % BUCKET_MS == 0
            &&& forall|i: int|
                0 <= i < gaps.len() && gaps[i] < CHATTER_CEILING_MS ==> gaps[i] < t
            &&& exists|i: int|
                0 <= i < gaps.len() && gaps[i] < CHATTER_CEILING_MS && t - BUCKET_MS <= gaps[i]
        },
{
    lemma_max_below(gaps, CHATTER_CEILING_MS);
}

/// The number of elements of `ms` below `n`.
pub open spec fn multiset_count_below(ms: Multiset<u32>, n: nat) -> nat
    decreases n,
{
    if n == 0 {
        0
    } else {
        multiset_count_below(ms, (n - 1) as nat) + ms.count((n - 1) as u32)
    }
}

proof fn lemma_multiset_count_below_insert(ms: Multiset<u32>, a: u32, n: nat)
    requires
        n <= CHATTER_CEILING_MS,
    ensures
        multiset_count_below(ms.insert(a), n) == multiset_count_below(ms, n) + if a < n {
            1nat
        } else {
            0nat
        },
    decreases n,
{
    if n > 0 {
        lemma_multiset_count_below_insert(ms, a, (n - 1) as nat);
    }
}

proof fn lemma_count_below_multiset(s: Seq<u32>)
    ensures
        count_below(s, CHATTER_CEILING_MS) == multiset_count_below(
            s.to_multiset(),
            CHATTER_CEILING_MS as nat,
        ),
    decreases s.len(),
{
    broadcast use vstd::seq_lib::group_to_multiset_ensures;

    if s.len() == 0 {
        assert(s.to_multiset() =~= Multiset::empty());
        lemma_multiset_count_below_zero(CHATTER_CEILING_MS as nat);
    } else {
        let t = s.drop_last();
        lemma_count_below_multiset(t);
        assert(s =~= t.push(s.last()));
        lemma_multiset_count_below_insert(t.to_multiset(), s.last(), CHATTER_CEILING_MS as nat);
    }
}

proof fn lemma_multiset_count_below_zero(n: nat)
    ensures
        multiset_count_below(Multiset::empty(), n) == 0,
    decreases n,
{
    if n > 0 {
        lemma_multiset_count_below_zero((n - 1) as nat);
    }
}

proof fn lemma_multiset_count_below_agree(a: Multiset<u32>, b: Multiset<u32>, n: nat)
    requires
        n <= CHATTER_CEILING_MS,
        forall|x: u32| x < CHATTER_CEILING_MS ==> a.count(x) == b.count(x),
    ensures
        multiset_count_below(a, n) == multiset_count_below(b, n),
    decreases n,
{
    if n > 0 {
        lemma_multiset_count_below_agree(a, b, (n - 1) as nat);
        assert(a.count((n - 1) as u32) == b.count((n - 1) as u32));
    }
}

/// The suggestion depends only on how often each gap under the chatter
/// ceiling occurs: reordering the gaps, or adding or removing gaps at or
/// above the ceiling, does not change it.
pub proof fn law_suggestion_ignores_order_and_long_gaps(a: Seq<u32>, b: Seq<u32>)
    requires
        forall|x: u32| x < CHATTER_CEILING_MS ==> a.to_multiset().count(x) == b.to_multiset().count(x),
    ensures
        suggestion(a) == suggestion(b),
{
    broadcast use vstd::seq_lib::group_to_multiset_ensures;

    let c = CHATTER_CEILING_MS;
    lemma_count_below_multiset(a);
    lemma_count_below_multiset(b);
    lemma_multiset_count_below_agree(a.to_multiset(), b.to_multiset(), c as nat);
    lemma_max_below(a, c);
    lemma_max_below(b, c);
    let ma = max_below(a, c);
    let mb = max_below(b, c);
    if ma >= 0 {
        let i = choose|i: int| 0 <= i < a.len() && a[i] == ma;
        assert(a.contains(a[i]));
        assert(b.to_multiset().count(a[i]) > 0);
        assert(b.contains(a[i]));
        let j = choose|j: int| 0 <= j < b.len() && b[j] == a[i];
        assert(ma <= mb);
    }
    if mb >= 0 {
        let j = choose|j: int| 0 <= j < b.len() && b[j] == mb;
        assert(b.contains(b[j]));
        assert(a.to_multiset().count(b[j]) > 0);
        assert(a.contains(b[j]));
        let i = choose|i: int| 0 <= i < a.len() && a[i] == b[j];
        assert(mb <= ma);
    }
}

/// Look for a chatter cluster — several gaps below `CHATTER_CEILING_MS`.
/// Returns the low edge of the next bucket above the highest sub-ceiling
/// gap. None when there aren't enough sub-ceiling samples to be confident.
pub fn suggest_from_gaps(gaps: &[u32]) -> (r: Option<u32>)
    ensures
        r == suggestion(gaps@),
{
    let mut count_low: usize = 0;
    let mut max_low: u32 = 0;
    let mut i: usize = 0;
    while i < gaps.len()
        invariant
            i <= gaps.len(),
            count_low == count_below(gaps@.take(i as int), CHATTER_CEILING_MS),
            count_low == 0 ==> max_below(gaps@.take(i as int), CHATTER_CEILING_MS) == -1,
            count_low > 0 ==> max_low == max_below(gaps@.take(i as int), CHATTER_CEILING_MS),
            count_low > 0 ==> max_low < CHATTER_CEILING_MS,
            count_low <= i,
        decreases gaps.len() - i,
    {
        assert(gaps@.take(i + 1).drop_last() =~= gaps@.take(i as int));
        let g = gaps[i];
        if g < CHATTER_CEILING_MS {
            if count_low == 0 || g > max_low {
                max_low = g;
            }
            count_low = count_low + 1;
        }
        i = i + 1;
    }
    assert(gaps@.take(gaps.len() as int) =~= gaps@);
    if count_low < MIN_CHATTER_COUNT {
        return None;
    }
    Some(((max_low / BUCKET_MS) + 1) * BUCKET_MS)
}

/// The mathematical content of a [`Calibrator`].
pub struct CalibratorView {
    /// The time of the last key-down of each key seen.
    pub last_down: Map<u32, u32>,
    /// The recorded gaps of each key that has some.
    pub gaps: Map<u32, Seq<u32>>,
}

impl CalibratorView {
    pub open spec fn gaps_of(self, vk: u32) -> Seq<u32> {
        if self.gaps.contains_key(vk) {
            self.gaps[vk]
        } else {
            Seq::empty()
        }
    }

    /// The calibrator after a key-down of `vk` at `time_ms`: the gap since
    /// the key's previous down is recorded when it is positive and shorter
    /// than a session break.
    pub open spec fn record_down(self, vk: u32, time_ms: u32) -> CalibratorView {
        let last_down = self.last_down.insert(vk, time_ms);
        if self.last_down.contains_key(vk) {
            let gap = time_ms.saturating_sub(self.last_down[vk]);
            if 0 < gap < SESSION_BREAK_MS {
                CalibratorView { last_down, gaps: self.gaps.insert(vk, self.gaps_of(vk).push(gap)) }
            } else {
                CalibratorView { last_down, gaps: self.gaps }
            }
        } else {
            CalibratorView { last_down, gaps: self.gaps }
        }
    }

    /// Every recorded sequence is non-empty and holds only gaps in
    /// `1..SESSION_BREAK_MS`.
    pub open spec fn gaps_in_range(self) -> bool {
        forall|vk: u32| #[trigger]
            self.gaps.contains_key(vk) ==> self.gaps[vk].len() > 0 && forall|i: int|
                0 <= i < self.gaps[vk].len() ==> 0 < #[trigger] self.gaps[vk][i] < SESSION_BREAK_MS
    }
}

/// Records the gaps between successive key-downs of each key.
pub struct Calibrator {
    last_down_ms: HashMap<u32, u32>,
    gaps: HashMap<u32, Vec<u32>>,
}

impl View for Calibrator {
    type V = CalibratorView;

    closed spec fn view(&self) -> CalibratorView {
        CalibratorView { last_down: self.last_down_ms@, gaps: snapshot_view(self.gaps@) }
    }
}

impl Default for Calibrator {
    fn default() -> (c: Self)
        ensures
            c@.last_down == Map::<u32, u32>::empty(),
            c@.gaps == Map::<u32, Seq<u32>>::empty(),
    {
        let c = Calibrator { last_down_ms: HashMap::new(), gaps: HashMap::new() };
        assert(c@.gaps =~= Map::<u32, Seq<u32>>::empty());
        c
    }
}

/// Every recorded gap lies in `1..SESSION_BREAK_MS`, and a key has a gap
/// sequence only once it has a gap.
pub proof fn law_recorded_gaps_in_range(c: CalibratorView, vk: u32, time_ms: u32)
    requires
        c.gaps_in_range(),
    ensures
        c.record_down(vk, time_ms).gaps_in_range(),
{
    let d = c.record_down(vk, time_ms);
    assert forall|k: u32| #[trigger] d.gaps.contains_key(k) implies d.gaps[k].len() > 0
        && forall|i: int| 0 <= i < d.gaps[k].len() ==> 0 < #[trigger] d.gaps[k][i] < SESSION_BREAK_MS by {
        if k == vk && d.gaps != c.gaps {
            assert forall|i: int| 0 <= i < d.gaps[k].len() implies 0 < #[trigger] d.gaps[k][i]
                < SESSION_BREAK_MS by {
                if i < c.gaps_of(vk).len() {
                    assert(d.gaps[k][i] == c.gaps_of(vk)[i]);
                }
            }
        }
    }
}

impl Calibrator {
    /// Every calibrator holds only non-empty gap sequences of gaps in
    /// `1..SESSION_BREAK_MS`.
    #[verifier::type_invariant]
    spec fn recorded_gaps_in_range(self) -> bool {
        self@.gaps_in_range()
    }

    pub fn new() -> (c: Self)
        ensures
            c@.last_down == Map::<u32, u32>::empty(),
            c@.gaps == Map::<u32, Seq<u32>>::empty(),
    {
        Self::default()
    }

    /// Records a key-down of `vk` at `time_ms`.
    pub fn record_down(&mut self, vk: u32, time_ms: u32)
        ensures
            final(self)@ == old(self)@.record_down(vk, time_ms),
            final(self)@.gaps_in_range(),
    {
        proof {
            use_type_invariant(&*self);
            law_recorded_gaps_in_range(self@, vk, time_ms);
        }
        let ghost pre = self@;
        let mut last_down: HashMap<u32, u32> = HashMap::new();
        std::mem::swap(&mut last_down, &mut self.last_down_ms);
        let mut gaps: HashMap<u32, Vec<u32>> = HashMap::new();
        std::mem::swap(&mut gaps, &mut self.gaps);
        assert(snapshot_view(self.gaps@) =~= Map::empty());
        if let Some(prev) = last_down.insert(vk, time_ms) {
            let gap = time_ms.saturating_sub(prev);
            if gap > 0 && gap < SESSION_BREAK_MS {
                let ghost before = gaps@;
                let ghost expected = pre.gaps_of(vk).push(gap);
                let recorded = match gaps.remove(&vk) {
                    Some(mut v) => {
                        assert(before.contains_key(vk) && before[vk] == v);
                        v.push(gap);
                        assert(v@ =~= expected);
                        v
                    },
                    None => {
                        let v = vec![gap];
                        assert(v@ =~= expected);
                        v
                    },
                };
                gaps.insert(vk, recorded);
                proof {
                    assert(gaps@ =~= before.insert(vk, recorded));
                    assert(snapshot_view(gaps@) =~= snapshot_view(before).insert(
                        vk,
                        pre.gaps_of(vk).push(gap),
                    ));
                }
            }
        }
        self.last_down_ms = last_down;
        self.gaps = gaps;
    }

    /// The window this key's gaps suggest, if any.
    pub fn suggest_threshold(&self, vk: u32) -> (r: Option<u32>)
        ensures
            r == (if self@.gaps.contains_key(vk) {
                suggestion(self@.gaps[vk])
            } else {
                None
            }),
    {
        match self.gaps.get(&vk) {
            Some(g) => suggest_from_gaps(g.as_slice()),
            None => None,
        }
    }

    /// A copy of the recorded gaps.
    pub fn snapshot(&self) -> (s: Snapshot)
        ensures
            snapshot_view(s@) == self@.gaps,
            self@.gaps_in_range(),
    {
        proof {
            use_type_invariant(self);
        }
        self.gaps.clone()
    }
}


/// Every key-down becomes its key's reference for the next gap, whether or
/// not the gap before it was recorded; no other key's reference moves.
pub proof fn law_every_down_becomes_reference(c: CalibratorView, vk: u32, time_ms: u32)
    ensures
        c.record_down(vk, time_ms).last_down == c.last_down.insert(vk, time_ms),
{
}

/// A key-down whose gap since the key's previous down is positive and
/// shorter than a session break appends exactly that gap to the key's gaps,
/// even if it equals an earlier one; any other key-down records nothing.
/// Other keys' gaps never change.
pub proof fn law_record_down_appends_gap(c: CalibratorView, vk: u32, other: u32, time_ms: u32)
    requires
        other != vk,
    ensures
        c.last_down.contains_key(vk) && c.last_down[vk] < time_ms && time_ms - c.last_down[vk]
            < SESSION_BREAK_MS ==> c.record_down(vk, time_ms).gaps_of(vk) == c.gaps_of(vk).push(
            (time_ms - c.last_down[vk]) as u32,
        ) && c.record_down(vk, time_ms).gaps_of(vk).len() == c.gaps_of(vk).len() + 1,
        !(c.last_down.contains_key(vk) && c.last_down[vk] < time_ms && time_ms - c.last_down[vk]
            < SESSION_BREAK_MS) ==> c.record_down(vk, time_ms).gaps == c.gaps,
        c.record_down(vk, time_ms).gaps_of(other) == c.gaps_of(other),
{
}

} // verus!
