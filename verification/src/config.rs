//! The filter configuration: whether filtering is on, the default debounce
//! window and per-key overrides, keyed by Windows virtual-key code.

use std::collections::HashMap;
use vstd::prelude::*;

verus! {

broadcast use vstd::std_specs::hash::group_hash_axioms;

/// The configuration as read from `config.toml`.
#[derive(Debug, Clone)]
pub struct Config {
    pub enabled: bool,
    pub default_threshold_ms: u32,
    pub per_key_threshold_ms: HashMap<u32, u32>,
}

/// The mathematical content of a [`Config`].
pub struct ConfigView {
    pub enabled: bool,
    pub default_threshold_ms: u32,
    pub per_key_threshold_ms: Map<u32, u32>,
}

impl ConfigView {
    /// The debounce window of a key: its own entry if it has one, else the default.
    pub open spec fn threshold(self, vk: u32) -> u32 {
        if self.per_key_threshold_ms.contains_key(vk) {
            self.per_key_threshold_ms[vk]
        } else {
            self.default_threshold_ms
        }
    }
}

impl View for Config {
    type V = ConfigView;

    open spec fn view(&self) -> ConfigView {
        ConfigView {
            enabled: self.enabled,
            default_threshold_ms: self.default_threshold_ms,
            per_key_threshold_ms: self.per_key_threshold_ms@,
        }
    }
}

/// The map `m` after inserting each pair of `pairs` in order: a later pair
/// for the same key wins.
pub open spec fn insert_pairs(m: Map<u32, u32>, pairs: Seq<(u32, u32)>) -> Map<u32, u32>
    decreases pairs.len(),
{
    if pairs.len() == 0 {
        m
    } else {
        insert_pairs(m, pairs.drop_last()).insert(pairs.last().0, pairs.last().1)
    }
}

impl Default for Config {
    /// Filtering on, a 30 ms window, no per-key overrides.
    fn default() -> (cfg: Self)
        ensures
            cfg@.enabled,
            cfg@.default_threshold_ms == 30,
            cfg@.per_key_threshold_ms == Map::<u32, u32>::empty(),
    {
        Config { enabled: true, default_threshold_ms: 30, per_key_threshold_ms: HashMap::new() }
    }
}

impl Config {
    /// The debounce window for `vk`.
    pub fn threshold(&self, vk: u32) -> (t: u32)
        ensures
            t == self@.threshold(vk),
    {
        match self.per_key_threshold_ms.get(&vk) {
            Some(t) => *t,
            None => self.default_threshold_ms,
        }
    }

    /// Sets the window of each key in `pairs`; other keys keep theirs.
    pub fn set_thresholds(&mut self, pairs: &Vec<(u32, u32)>)
        ensures
            final(self)@.enabled == old(self)@.enabled,
            final(self)@.default_threshold_ms == old(self)@.default_threshold_ms,
            final(self)@.per_key_threshold_ms == insert_pairs(
                old(self)@.per_key_threshold_ms,
                pairs@,
            ),
    {
        let mut i: usize = 0;
        while i < pairs.len()
            invariant
                i <= pairs.len(),
                self@.enabled == old(self)@.enabled,
                self@.default_threshold_ms == old(self)@.default_threshold_ms,
                self@.per_key_threshold_ms == insert_pairs(
                    old(self)@.per_key_threshold_ms,
                    pairs@.take(i as int),
                ),
            decreases pairs.len() - i,
        {
            let (vk, t) = pairs[i];
            self.per_key_threshold_ms.insert(vk, t);
            assert(pairs@.take(i + 1).drop_last() =~= pairs@.take(i as int));
            i = i + 1;
        }
        assert(pairs@.take(pairs.len() as int) =~= pairs@);
    }
}

proof fn lemma_insert_pairs_other(m: Map<u32, u32>, pairs: Seq<(u32, u32)>, k: u32)
    requires
        forall|i: int| 0 <= i < pairs.len() ==> pairs[i].0 != k,
    ensures
        insert_pairs(m, pairs).contains_key(k) == m.contains_key(k),
        m.contains_key(k) ==> insert_pairs(m, pairs)[k] == m[k],
    decreases pairs.len(),
{
    if pairs.len() > 0 {
        let t = pairs.drop_last();
        assert(pairs[pairs.len() - 1].0 != k);
        assert forall|i: int| 0 <= i < t.len() implies t[i].0 != k by {
            assert(t[i] == pairs[i]);
        }
        lemma_insert_pairs_other(m, t, k);
    }
}

proof fn lemma_insert_pairs_last(m: Map<u32, u32>, pairs: Seq<(u32, u32)>, i: int)
    requires
        0 <= i < pairs.len(),
        forall|j: int| i < j < pairs.len() ==> pairs[j].0 != pairs[i].0,
    ensures
        insert_pairs(m, pairs).contains_key(pairs[i].0),
        insert_pairs(m, pairs)[pairs[i].0] == pairs[i].1,
    decreases pairs.len(),
{
    if i < pairs.len() - 1 {
        let t = pairs.drop_last();
        assert(t[i] == pairs[i]);
        assert(pairs[pairs.len() - 1].0 != pairs[i].0);
        assert forall|j: int| i < j < t.len() implies t[j].0 != t[i].0 by {
            assert(t[j] == pairs[j]);
        }
        lemma_insert_pairs_last(m, t, i);
    }
}

/// Inserting pairs keeps every key that no pair names, with its value, and
/// gives each named key the value of its last pair.
pub proof fn law_insert_pairs(m: Map<u32, u32>, pairs: Seq<(u32, u32)>)
    ensures
        forall|k: u32|
            (forall|i: int| 0 <= i < pairs.len() ==> pairs[i].0 != k) ==> {
                &&& #[trigger] insert_pairs(m, pairs).contains_key(k) == m.contains_key(k)
                &&& m.contains_key(k) ==> insert_pairs(m, pairs)[k] == m[k]
            },
        forall|i: int|
            0 <= i < pairs.len() && (forall|j: int| i < j < pairs.len() ==> pairs[j].0 != pairs[i].0)
                ==> #[trigger] insert_pairs(m, pairs).contains_key(pairs[i].0) && insert_pairs(
                m,
                pairs,
            )[pairs[i].0] == pairs[i].1,
{
    assert forall|k: u32|
        (forall|i: int| 0 <= i < pairs.len() ==> pairs[i].0 != k) implies {
            &&& #[trigger] insert_pairs(m, pairs).contains_key(k) == m.contains_key(k)
            &&& m.contains_key(k) ==> insert_pairs(m, pairs)[k] == m[k]
        } by {
        lemma_insert_pairs_other(m, pairs, k);
    }
    assert forall|i: int|
        0 <= i < pairs.len() && (forall|j: int| i < j < pairs.len() ==> pairs[j].0 != pairs[i].0)
            implies #[trigger] insert_pairs(m, pairs).contains_key(pairs[i].0) && insert_pairs(
            m,
            pairs,
        )[pairs[i].0] == pairs[i].1 by {
        lemma_insert_pairs_last(m, pairs, i);
    }
}


/// A key's window is its own entry when it has one, whatever the key, and
/// the default otherwise.
pub proof fn law_threshold_lookup(c: ConfigView, vk: u32)
    ensures
        c.per_key_threshold_ms.contains_key(vk) ==> c.threshold(vk) == c.per_key_threshold_ms[vk],
        !c.per_key_threshold_ms.contains_key(vk) ==> c.threshold(vk) == c.default_threshold_ms,
{
}

} // verus!
