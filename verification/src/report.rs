//! The calibration report: per-key gap histograms and suggested windows,
//! rendered as text, and the chatter suggestions drawn from a snapshot.

use crate::calibrate::{
    count_below, snapshot_view, suggest_from_gaps, suggestion, Snapshot, BUCKET_MS,
    CHATTER_CEILING_MS, MAX_MS, MIN_CHATTER_COUNT, N_BUCKETS,
};
use crate::text::{
    decimal, hex2, push_char, push_decimal, push_decimal_right3, push_hex2, push_repeated,
    right3,
};
use vstd::prelude::*;
use vstd::std_specs::iter::IteratorSpec;

verus! {

broadcast use vstd::std_specs::hash::group_hash_axioms;

/// Each element is smaller than every later one.
pub open spec fn strictly_increasing(s: Seq<u32>) -> bool {
    forall|i: int, j: int| 0 <= i < j < s.len() ==> s[i] < s[j]
}

/// The elements of a finite set in increasing order.
pub open spec fn sorted_keys(d: Set<u32>) -> Seq<u32> {
    choose|s: Seq<u32>| strictly_increasing(s) && s.to_set() == d
}

/// Two increasing sequences with the same elements are equal.
pub proof fn lemma_increasing_unique(a: Seq<u32>, b: Seq<u32>)
    requires
        strictly_increasing(a),
        strictly_increasing(b),
        a.to_set() == b.to_set(),
    ensures
        a == b,
    decreases a.len(),
{
    if a.len() == 0 {
        if b.len() > 0 {
            assert(a.to_set().contains(b[0]));
        }
        assert(a =~= b);
    } else {
        assert(b.to_set().contains(a[0]));
        assert(b.len() > 0);
        assert(a.to_set().contains(b[0]));
        let i = choose|i: int| 0 <= i < a.len() && a[i] == b[0];
        let j = choose|j: int| 0 <= j < b.len() && b[j] == a[0];
        assert(a[0] <= a[i]);
        assert(b[0] <= b[j]);
        assert(a[0] == b[0]);
        let a1 = a.drop_first();
        let b1 = b.drop_first();
        assert forall|x: u32| a1.to_set().contains(x) implies b1.to_set().contains(x) by {
            let k = choose|k: int| 0 <= k < a1.len() && a1[k] == x;
            assert(a[k + 1] == x);
            assert(a.to_set().contains(x));
            let l = choose|l: int| 0 <= l < b.len() && b[l] == x;
            assert(l != 0);
            assert(b1[l - 1] == x);
        }
        assert forall|x: u32| b1.to_set().contains(x) implies a1.to_set().contains(x) by {
            let k = choose|k: int| 0 <= k < b1.len() && b1[k] == x;
            assert(b[k + 1] == x);
            assert(b.to_set().contains(x));
            let l = choose|l: int| 0 <= l < a.len() && a[l] == x;
            assert(l != 0);
            assert(a1[l - 1] == x);
        }
        assert(a1.to_set() =~= b1.to_set());
        lemma_increasing_unique(a1, b1);
        assert forall|k: int| 0 <= k < a.len() implies a[k] == b[k] by {
            if k > 0 {
                assert(a[k] == a1[k - 1]);
                assert(b[k] == b1[k - 1]);
            }
        }
        assert(a =~= b);
    }
}

/// The keys of a snapshot, in increasing order.
pub fn sorted_snapshot_keys(snapshot: &Snapshot) -> (keys: Vec<u32>)
    ensures
        keys@ == sorted_keys(snapshot@.dom()),
        strictly_increasing(keys@),
        keys@.to_set() == snapshot@.dom(),
{
    let mut keys: Vec<u32> = Vec::new();
    let ghost all = snapshot.keys().remaining();
    for k in it: snapshot.keys()
        invariant
            it.seq() == all,
            all.no_duplicates(),
            strictly_increasing(keys@),
            forall|x: u32| keys@.contains(x) <==> exists|j: int| 0 <= j < it.index() && *all[j] == x,
    {
        let k = *k;
        let ghost idx = it.index();
        assert(!keys@.contains(k)) by {
            if keys@.contains(k) {
                let j = choose|j: int| 0 <= j < idx && *all[j] == k;
                assert(all[j] == all[idx]);
            }
        }
        let mut pos: usize = 0;
        while pos < keys.len() && keys[pos] < k
            invariant
                pos <= keys.len(),
                forall|j: int| 0 <= j < pos ==> keys@[j] < k,
            decreases keys.len() - pos,
        {
            pos = pos + 1;
        }
        let ghost before = keys@;
        keys.insert(pos, k);
        assert forall|i: int, j: int| 0 <= i < j < keys@.len() implies keys@[i] < keys@[j] by {
            if pos < before.len() {
                assert(before[pos as int] != k);
                assert(before.contains(before[pos as int]));
            }
        }
        assert forall|x: u32| keys@.contains(x) <==> exists|j: int|
            0 <= j < idx + 1 && *all[j] == x by {
            if keys@.contains(x) {
                let i = choose|i: int| 0 <= i < keys@.len() && keys@[i] == x;
                if i < pos {
                    assert(before[i] == x);
                    assert(before.contains(x));
                } else if i > pos {
                    assert(before[i - 1] == x);
                    assert(before.contains(x));
                } else {
                    assert(*all[idx] == x);
                }
            }
            if exists|j: int| 0 <= j < idx + 1 && *all[j] == x {
                let j = choose|j: int| 0 <= j < idx + 1 && *all[j] == x;
                if j < idx {
                    assert(before.contains(x));
                    let i = choose|i: int| 0 <= i < before.len() && before[i] == x;
                    if i < pos {
                        assert(keys@[i] == x);
                    } else {
                        assert(keys@[i + 1] == x);
                    }
                } else {
                    assert(keys@[pos as int] == x);
                }
            }
        }
    }
    proof {
        assert forall|x: u32| keys@.to_set().contains(x) <==> snapshot@.dom().contains(x) by {
            assert(all.unref().to_set() == snapshot@.dom());
            if snapshot@.dom().contains(x) {
                assert(all.unref().to_set().contains(x));
                let j = choose|j: int| 0 <= j < all.unref().len() && all.unref()[j] == x;
                assert(*all[j] == x);
            }
            if keys@.contains(x) {
                let j = choose|j: int| 0 <= j < all.len() && *all[j] == x;
                assert(all.unref()[j] == x);
                assert(all.unref().to_set().contains(x));
            }
        }
        assert(keys@.to_set() =~= snapshot@.dom());
        lemma_increasing_unique(keys@, sorted_keys(snapshot@.dom()));
    }
    keys
}

/// The number of gaps of `s` that fall into bucket `b`.
pub open spec fn count_in_bucket(s: Seq<u32>, b: int) -> nat
    decreases s.len(),
{
    if s.len() == 0 {
        0
    } else {
        count_in_bucket(s.drop_last(), b) + if s.last() / BUCKET_MS == b {
            1nat
        } else {
            0nat
        }
    }
}

/// The number of elements of `s` at or above `floor`.
pub open spec fn count_not_below(s: Seq<u32>, floor: u32) -> nat
    decreases s.len(),
{
    if s.len() == 0 {
        0
    } else {
        count_not_below(s.drop_last(), floor) + if s.last() >= floor {
            1nat
        } else {
            0nat
        }
    }
}

/// The histogram's bucket counts.
pub open spec fn bucket_counts(s: Seq<u32>) -> Seq<nat> {
    Seq::new(N_BUCKETS as nat, |b: int| count_in_bucket(s, b))
}

/// The largest element of `s`, or 0 for an empty sequence.
pub open spec fn seq_max(s: Seq<nat>) -> nat
    decreases s.len(),
{
    if s.len() == 0 {
        0
    } else {
        let m = seq_max(s.drop_last());
        if s.last() > m {
            s.last()
        } else {
            m
        }
    }
}

/// The length of a bucket's bar: proportional to its count, the fullest
/// bucket drawing forty marks, and never shorter than one.
pub open spec fn bar_len(count: nat, max: nat) -> nat {
    let q = count * 40 / max;
    if q >= 1 {
        q
    } else {
        1
    }
}

/// One histogram line: the bucket's range, its count and its bar.
pub open spec fn bucket_line(b: int, count: nat, max: nat) -> Seq<char> {
    "    "@ + right3(decimal((b * BUCKET_MS) as nat)) + "-"@ + right3(
        decimal(((b + 1) * BUCKET_MS) as nat),
    ) + "ms ("@ + right3(decimal(count)) + ") "@ + Seq::new(bar_len(count, max), |i: int| '#')
        + "\n"@
}

/// The lines of the non-empty buckets among the first `n`.
pub open spec fn bucket_lines(counts: Seq<nat>, max: nat, n: int) -> Seq<char>
    decreases n,
{
    if n <= 0 {
        Seq::empty()
    } else {
        bucket_lines(counts, max, n - 1) + if counts[n - 1] == 0 {
            Seq::<char>::empty()
        } else {
            bucket_line(n - 1, counts[n - 1], max)
        }
    }
}

/// The histogram of a key's gaps: a line per non-empty bucket, then a line
/// for the gaps beyond the last bucket if there are any.
pub open spec fn histogram(s: Seq<u32>) -> Seq<char> {
    let counts = bucket_counts(s);
    let over = count_not_below(s, MAX_MS);
    bucket_lines(counts, seq_max(counts), N_BUCKETS as int) + if over > 0 {
        "    >"@ + decimal(MAX_MS as nat) + "ms ("@ + decimal(over) + ")\n"@
    } else {
        Seq::<char>::empty()
    }
}

/// `seq_max` bounds every element.
pub proof fn lemma_seq_max(s: Seq<nat>)
    ensures
        forall|i: int| 0 <= i < s.len() ==> s[i] <= seq_max(s),
    decreases s.len(),
{
    if s.len() > 0 {
        lemma_seq_max(s.drop_last());
        assert forall|i: int| 0 <= i < s.len() implies s[i] <= seq_max(s) by {
            if i < s.len() - 1 {
                assert(s[i] == s.drop_last()[i]);
            }
        }
    }
}

proof fn lemma_bar_len_bound(count: nat, max: nat)
    requires
        0 < count <= max,
    ensures
        1 <= bar_len(count, max) <= 40,
{
    assert(count * 40 / max <= 40) by (nonlinear_arith)
        requires
            0 < count <= max,
    {
        assert(count * 40 <= max * 40);
    }
}

fn write_bucket_line(out: &mut String, b: usize, c: u64, max: u64)
    requires
        b < N_BUCKETS,
        0 < c <= max,
    ensures
        final(out)@ == old(out)@ + bucket_line(b as int, c as nat, max as nat),
{
    proof {
        lemma_bar_len_bound(c as nat, max as nat);
    }
    let bar = ((c as u128 * 40) / (max as u128)) as u64;
    let bar = if bar >= 1 {
        bar
    } else {
        1
    };
    out.append("    ");
    push_decimal_right3(out, (b as u32 * BUCKET_MS) as u64);
    out.append("-");
    push_decimal_right3(out, ((b as u32 + 1) * BUCKET_MS) as u64);
    out.append("ms (");
    push_decimal_right3(out, c);
    out.append(") ");
    push_repeated(out, '#', bar);
    out.append("\n");
    assert(out@ =~= old(out)@ + bucket_line(b as int, c as nat, max as nat));
}

/// Appends the histogram of `gaps`.
pub fn write_histogram(out: &mut String, gaps: &[u32])
    ensures
        final(out)@ == old(out)@ + histogram(gaps@),
{
    let mut buckets: Vec<u64> = Vec::new();
    while buckets.len() < N_BUCKETS
        invariant
            buckets.len() <= N_BUCKETS,
            forall|j: int| 0 <= j < buckets.len() ==> buckets@[j] == 0,
        decreases N_BUCKETS - buckets.len(),
    {
        buckets.push(0);
    }
    let mut over: u64 = 0;
    let mut i: usize = 0;
    while i < gaps.len()
        invariant
            i <= gaps.len(),
            buckets.len() == N_BUCKETS,
            forall|j: int|
                0 <= j < N_BUCKETS ==> #[trigger] buckets@[j] == count_in_bucket(
                    gaps@.take(i as int),
                    j,
                ) && buckets@[j] <= i,
            over == count_not_below(gaps@.take(i as int), MAX_MS),
            over <= i,
        decreases gaps.len() - i,
    {
        let ghost pre = buckets@;
        assert(gaps@.take(i + 1).drop_last() =~= gaps@.take(i as int));
        let g = gaps[i];
        let b = (g / BUCKET_MS) as usize;
        if b < N_BUCKETS {
            let c = buckets[b];
            buckets.set(b, c + 1);
        } else {
            over = over + 1;
        }
        assert forall|j: int| 0 <= j < N_BUCKETS implies #[trigger] buckets@[j] == count_in_bucket(
            gaps@.take(i + 1),
            j,
        ) && buckets@[j] <= i + 1 by {
            assert(pre[j] == count_in_bucket(gaps@.take(i as int), j));
        }
        i = i + 1;
    }
    assert(gaps@.take(gaps.len() as int) =~= gaps@);
    let ghost counts = bucket_counts(gaps@);
    assert forall|j: int| 0 <= j < N_BUCKETS implies buckets@[j] == counts[j] by {
        assert(buckets@[j] == count_in_bucket(gaps@.take(gaps.len() as int), j));
    }
    let mut max: u64 = 0;
    let mut j: usize = 0;
    while j < N_BUCKETS
        invariant
            j <= N_BUCKETS,
            buckets.len() == N_BUCKETS,
            counts == bucket_counts(gaps@),
            forall|k: int| 0 <= k < N_BUCKETS ==> buckets@[k] == counts[k],
            max == seq_max(counts.take(j as int)),
        decreases N_BUCKETS - j,
    {
        assert(counts.take(j + 1).drop_last() =~= counts.take(j as int));
        if buckets[j] > max {
            max = buckets[j];
        }
        j = j + 1;
    }
    assert(counts.take(N_BUCKETS as int) =~= counts);
    proof {
        lemma_seq_max(counts);
    }
    let ghost start = out@;
    let mut b: usize = 0;
    while b < N_BUCKETS
        invariant
            b <= N_BUCKETS,
            buckets.len() == N_BUCKETS,
            counts == bucket_counts(gaps@),
            forall|k: int| 0 <= k < N_BUCKETS ==> buckets@[k] == counts[k],
            forall|k: int| 0 <= k < counts.len() ==> counts[k] <= seq_max(counts),
            max == seq_max(counts),
            out@ == start + bucket_lines(counts, max as nat, b as int),
        decreases N_BUCKETS - b,
    {
        let c = buckets[b];
        if c != 0 {
            assert(counts[b as int] <= seq_max(counts));
            write_bucket_line(out, b, c, max);
        }
        assert(out@ =~= start + bucket_lines(counts, max as nat, b + 1));
        b = b + 1;
    }
    if over > 0 {
        out.append("    >");
        push_decimal(out, MAX_MS as u64);
        out.append("ms (");
        push_decimal(out, over);
        out.append(")\n");
    }
    assert(out@ =~= old(out)@ + histogram(gaps@));
}

/// The name shown for a virtual-key code: common keys by name, digits and
/// letters quoted, function keys as `F1`.., anything else in hexadecimal.
pub open spec fn key_name(vk: u32) -> Seq<char> {
    if vk == 0x08 {
        "Back"@
    } else if vk == 0x09 {
        "Tab"@
    } else if vk == 0x0D {
        "Enter"@
    } else if vk == 0x10 {
        "Shift"@
    } else if vk == 0x11 {
        "Ctrl"@
    } else if vk == 0x12 {
        "Alt"@
    } else if vk == 0x14 {
        "CapsLock"@
    } else if vk == 0x1B {
        "Esc"@
    } else if vk == 0x20 {
        "Space"@
    } else if vk == 0x25 {
        "Left"@
    } else if vk == 0x26 {
        "Up"@
    } else if vk == 0x27 {
        "Right"@
    } else if vk == 0x28 {
        "Down"@
    } else if (0x30 <= vk <= 0x39) || (0x41 <= vk <= 0x5A) {
        seq!['\'', (vk as u8) as char, '\'']
    } else if 0x70 <= vk <= 0x87 {
        seq!['F'] + decimal((vk - 0x6F) as nat)
    } else {
        seq!['0', 'x'] + hex2(vk as nat)
    }
}

/// The name shown for a virtual-key code.
pub fn vk_name(vk: u32) -> (name: String)
    ensures
        name@ == key_name(vk),
{
    if vk == 0x08 {
        String::from_str("Back")
    } else if vk == 0x09 {
        String::from_str("Tab")
    } else if vk == 0x0D {
        String::from_str("Enter")
    } else if vk == 0x10 {
        String::from_str("Shift")
    } else if vk == 0x11 {
        String::from_str("Ctrl")
    } else if vk == 0x12 {
        String::from_str("Alt")
    } else if vk == 0x14 {
        String::from_str("CapsLock")
    } else if vk == 0x1B {
        String::from_str("Esc")
    } else if vk == 0x20 {
        String::from_str("Space")
    } else if vk == 0x25 {
        String::from_str("Left")
    } else if vk == 0x26 {
        String::from_str("Up")
    } else if vk == 0x27 {
        String::from_str("Right")
    } else if vk == 0x28 {
        String::from_str("Down")
    } else if (0x30 <= vk && vk <= 0x39) || (0x41 <= vk && vk <= 0x5A) {
        let mut name = String::new();
        push_char(&mut name, '\'');
        push_char(&mut name, (vk as u8) as char);
        push_char(&mut name, '\'');
        assert(name@ =~= key_name(vk));
        name
    } else if 0x70 <= vk && vk <= 0x87 {
        let mut name = String::new();
        push_char(&mut name, 'F');
        push_decimal(&mut name, (vk - 0x6F) as u64);
        assert(name@ =~= key_name(vk));
        name
    } else {
        let mut name = String::new();
        push_char(&mut name, '0');
        push_char(&mut name, 'x');
        push_hex2(&mut name, vk);
        assert(name@ =~= key_name(vk));
        name
    }
}

/// "s" unless there is exactly one.
pub open spec fn plural(n: nat) -> Seq<char> {
    if n == 1 {
        Seq::empty()
    } else {
        seq!['s']
    }
}

/// The smallest element of `s`, or 0 for an empty sequence.
pub open spec fn seq_min(s: Seq<u32>) -> nat
    decreases s.len(),
{
    if s.len() == 0 {
        0
    } else if s.len() == 1 {
        s[0] as nat
    } else {
        let m = seq_min(s.drop_last());
        if (s.last() as nat) < m {
            s.last() as nat
        } else {
            m
        }
    }
}

/// The label of a key in the report: its code in hexadecimal, its name and
/// its number of samples.
pub open spec fn key_label(vk: u32, gaps: Seq<u32>) -> Seq<char> {
    "vk 0x"@ + hex2(vk as nat) + " ("@ + key_name(vk) + "): n="@ + decimal(gaps.len())
}

/// The first line of a chatter candidate's block: its sub-ceiling gap count
/// and the suggested window.
pub open spec fn chatter_head(vk: u32, gaps: Seq<u32>) -> Seq<char> {
    let low = count_below(gaps, CHATTER_CEILING_MS);
    "\n  "@ + key_label(vk, gaps) + " — CHATTER: "@ + decimal(low) + " gap"@ + plural(low) + " <"@
        + decimal(CHATTER_CEILING_MS as nat) + "ms, suggest threshold "@ + decimal(
        suggestion(gaps).unwrap() as nat,
    ) + "ms\n"@
}

/// A chatter candidate's block: its sample counts, the suggested window and
/// the histogram of its gaps.
pub open spec fn chatter_block(vk: u32, gaps: Seq<u32>) -> Seq<char> {
    chatter_head(vk, gaps) + histogram(gaps)
}

/// A clean key's line: its sample count and its shortest gap.
pub open spec fn clean_line(vk: u32, gaps: Seq<u32>) -> Seq<char> {
    "    "@ + key_label(vk, gaps) + ", min gap "@ + decimal(seq_min(gaps)) + "ms\n"@
}

/// A key with enough samples to be judged.
pub open spec fn is_sampled(gaps: Seq<u32>) -> bool {
    gaps.len() >= MIN_CHATTER_COUNT
}

/// The keys of `ks`, in order, that were sampled and show chatter.
pub open spec fn chatter_keys(ks: Seq<u32>, m: Map<u32, Seq<u32>>) -> Seq<u32>
    decreases ks.len(),
{
    if ks.len() == 0 {
        Seq::empty()
    } else {
        let rest = chatter_keys(ks.drop_last(), m);
        let k = ks.last();
        if is_sampled(m[k]) && suggestion(m[k]) is Some {
            rest.push(k)
        } else {
            rest
        }
    }
}

/// The keys of `ks`, in order, that were sampled and show no chatter.
pub open spec fn clean_keys(ks: Seq<u32>, m: Map<u32, Seq<u32>>) -> Seq<u32>
    decreases ks.len(),
{
    if ks.len() == 0 {
        Seq::empty()
    } else {
        let rest = clean_keys(ks.drop_last(), m);
        let k = ks.last();
        if is_sampled(m[k]) && suggestion(m[k]) is None {
            rest.push(k)
        } else {
            rest
        }
    }
}

/// The number of keys of `ks` that were sampled.
pub open spec fn sampled_count(ks: Seq<u32>, m: Map<u32, Seq<u32>>) -> nat
    decreases ks.len(),
{
    if ks.len() == 0 {
        0
    } else {
        sampled_count(ks.drop_last(), m) + if is_sampled(m[ks.last()]) {
            1nat
        } else {
            0nat
        }
    }
}

/// The (key, suggested window) pairs of the chatter keys of `ks`, in order.
pub open spec fn suggestion_pairs(ks: Seq<u32>, m: Map<u32, Seq<u32>>) -> Seq<(u32, u32)>
    decreases ks.len(),
{
    if ks.len() == 0 {
        Seq::empty()
    } else {
        let rest = suggestion_pairs(ks.drop_last(), m);
        let k = ks.last();
        if is_sampled(m[k]) && suggestion(m[k]) is Some {
            rest.push((k, suggestion(m[k]).unwrap()))
        } else {
            rest
        }
    }
}

pub open spec fn chatter_text(ks: Seq<u32>, m: Map<u32, Seq<u32>>) -> Seq<char>
    decreases ks.len(),
{
    if ks.len() == 0 {
        Seq::empty()
    } else {
        chatter_text(ks.drop_last(), m) + chatter_block(ks.last(), m[ks.last()])
    }
}

pub open spec fn clean_text(ks: Seq<u32>, m: Map<u32, Seq<u32>>) -> Seq<char>
    decreases ks.len(),
{
    if ks.len() == 0 {
        Seq::empty()
    } else {
        clean_text(ks.drop_last(), m) + clean_line(ks.last(), m[ks.last()])
    }
}

/// The report's first line.
pub open spec fn report_header(chatter: nat, clean: nat) -> Seq<char> {
    "[calibrate] "@ + decimal(chatter + clean) + " keys sampled — "@ + decimal(chatter)
        + " chatter candidate"@ + plural(chatter) + ", "@ + decimal(clean) + " clean\n"@
}

/// The calibration report of a snapshot: keys in increasing order, those with
/// at least three gaps judged; chatter candidates with their suggestion and
/// histogram, then the clean keys with their shortest gap.
pub open spec fn report_text(m: Map<u32, Seq<u32>>) -> Seq<char> {
    if m.dom().is_empty() {
        "[calibrate] no data yet\n"@
    } else {
        let ks = sorted_keys(m.dom());
        let chatter = chatter_keys(ks, m);
        let clean = clean_keys(ks, m);
        report_header(chatter.len(), clean.len()) + chatter_text(chatter, m) + if clean.len()
            == 0 {
            Seq::<char>::empty()
        } else {
            "\n  clean (no chatter signature):\n"@ + clean_text(clean, m)
        }
    }
}

/// Every sampled key is judged exactly once: as a chatter candidate, which
/// has a suggestion, or as clean, which has none; both lists keep the keys'
/// order, and unsampled keys are in neither.
pub proof fn law_report_partitions_sampled_keys(ks: Seq<u32>, m: Map<u32, Seq<u32>>)
    ensures
        chatter_keys(ks, m).len() + clean_keys(ks, m).len() == sampled_count(ks, m),
        forall|i: int|
            0 <= i < chatter_keys(ks, m).len() ==> #[trigger] is_sampled(m[chatter_keys(ks, m)[i]])
                && suggestion(m[chatter_keys(ks, m)[i]]) is Some && ks.contains(
                chatter_keys(ks, m)[i],
            ),
        forall|i: int|
            0 <= i < clean_keys(ks, m).len() ==> #[trigger] is_sampled(m[clean_keys(ks, m)[i]])
                && suggestion(m[clean_keys(ks, m)[i]]) is None && ks.contains(clean_keys(ks, m)[i]),
        suggestion_pairs(ks, m).len() == chatter_keys(ks, m).len(),
        forall|i: int|
            0 <= i < suggestion_pairs(ks, m).len() ==> #[trigger] suggestion_pairs(ks, m)[i] == (
                chatter_keys(ks, m)[i],
                suggestion(m[chatter_keys(ks, m)[i]]).unwrap(),
            ),
    decreases ks.len(),
{
    if ks.len() > 0 {
        let t = ks.drop_last();
        law_report_partitions_sampled_keys(t, m);
        assert forall|x: u32| t.contains(x) implies ks.contains(x) by {
            let j = choose|j: int| 0 <= j < t.len() && t[j] == x;
            assert(ks[j] == x);
        }
        assert(ks.contains(ks[ks.len() - 1]));
        let c = chatter_keys(ks, m);
        let l = clean_keys(ks, m);
        let p = suggestion_pairs(ks, m);
        assert forall|i: int| 0 <= i < c.len() implies #[trigger] is_sampled(m[c[i]])
            && suggestion(m[c[i]]) is Some && ks.contains(c[i]) by {
            if i < chatter_keys(t, m).len() {
                assert(c[i] == chatter_keys(t, m)[i]);
            }
        }
        assert forall|i: int| 0 <= i < l.len() implies #[trigger] is_sampled(m[l[i]])
            && suggestion(m[l[i]]) is None && ks.contains(l[i]) by {
            if i < clean_keys(t, m).len() {
                assert(l[i] == clean_keys(t, m)[i]);
            }
        }
        assert forall|i: int| 0 <= i < p.len() implies #[trigger] p[i] == (
            c[i],
            suggestion(m[c[i]]).unwrap(),
        ) by {
            if i < suggestion_pairs(t, m).len() {
                assert(p[i] == suggestion_pairs(t, m)[i]);
                assert(c[i] == chatter_keys(t, m)[i]);
            }
        }
    }
}

/// The number of gaps of `gaps` below `ceiling`.
fn count_gaps_below(gaps: &[u32], ceiling: u32) -> (n: usize)
    ensures
        n == count_below(gaps@, ceiling),
{
    let mut n: usize = 0;
    let mut i: usize = 0;
    while i < gaps.len()
        invariant
            i <= gaps.len(),
            n == count_below(gaps@.take(i as int), ceiling),
            n <= i,
        decreases gaps.len() - i,
    {
        assert(gaps@.take(i + 1).drop_last() =~= gaps@.take(i as int));
        if gaps[i] < ceiling {
            n = n + 1;
        }
        i = i + 1;
    }
    assert(gaps@.take(gaps.len() as int) =~= gaps@);
    n
}

/// The shortest gap of `gaps`, or 0 when there are none.
fn min_gap(gaps: &[u32]) -> (m: u32)
    ensures
        m == seq_min(gaps@),
{
    if gaps.len() == 0 {
        return 0;
    }
    let mut m = gaps[0];
    let mut i: usize = 1;
    assert(gaps@.take(1).drop_last().len() == 0);
    while i < gaps.len()
        invariant
            1 <= i <= gaps.len(),
            m == seq_min(gaps@.take(i as int)),
        decreases gaps.len() - i,
    {
        assert(gaps@.take(i + 1).drop_last() =~= gaps@.take(i as int));
        if gaps[i] < m {
            m = gaps[i];
        }
        i = i + 1;
    }
    assert(gaps@.take(gaps.len() as int) =~= gaps@);
    m
}

fn write_key_label(out: &mut String, vk: u32, gaps: &[u32])
    ensures
        final(out)@ == old(out)@ + key_label(vk, gaps@),
{
    let name = vk_name(vk);
    out.append("vk 0x");
    push_hex2(out, vk);
    out.append(" (");
    out.append(name.as_str());
    out.append("): n=");
    push_decimal(out, gaps.len() as u64);
    assert(out@ =~= old(out)@ + key_label(vk, gaps@));
}

fn write_chatter_head(out: &mut String, vk: u32, gaps: &[u32])
    requires
        suggestion(gaps@) is Some,
    ensures
        final(out)@ == old(out)@ + chatter_head(vk, gaps@),
{
    let suggest = suggest_from_gaps(gaps).unwrap();
    let low = count_gaps_below(gaps, CHATTER_CEILING_MS);
    out.append("\n  ");
    write_key_label(out, vk, gaps);
    out.append(" — CHATTER: ");
    push_decimal(out, low as u64);
    out.append(" gap");
    if low != 1 {
        push_char(out, 's');
    }
    out.append(" <");
    push_decimal(out, CHATTER_CEILING_MS as u64);
    out.append("ms, suggest threshold ");
    push_decimal(out, suggest as u64);
    out.append("ms\n");
    assert(out@ =~= old(out)@ + chatter_head(vk, gaps@));
}

fn write_chatter_block(out: &mut String, vk: u32, gaps: &[u32])
    requires
        suggestion(gaps@) is Some,
    ensures
        final(out)@ == old(out)@ + chatter_block(vk, gaps@),
{
    write_chatter_head(out, vk, gaps);
    write_histogram(out, gaps);
    assert(out@ =~= old(out)@ + chatter_block(vk, gaps@));
}

fn write_clean_line(out: &mut String, vk: u32, gaps: &[u32])
    ensures
        final(out)@ == old(out)@ + clean_line(vk, gaps@),
{
    let min = min_gap(gaps);
    out.append("    ");
    write_key_label(out, vk, gaps);
    out.append(", min gap ");
    push_decimal(out, min as u64);
    out.append("ms\n");
    assert(out@ =~= old(out)@ + clean_line(vk, gaps@));
}

/// Splits the sampled keys of `keys` into chatter candidates and clean keys.
fn classify(snapshot: &Snapshot, keys: &Vec<u32>) -> (r: (Vec<u32>, Vec<u32>))
    requires
        forall|i: int| 0 <= i < keys.len() ==> snapshot@.dom().contains(#[trigger] keys@[i]),
    ensures
        r.0@ == chatter_keys(keys@, snapshot_view(snapshot@)),
        r.1@ == clean_keys(keys@, snapshot_view(snapshot@)),
        r.0.len() + r.1.len() <= keys.len(),
        forall|i: int| 0 <= i < r.0.len() ==> snapshot@.dom().contains(#[trigger] r.0@[i]),
        forall|i: int| 0 <= i < r.1.len() ==> snapshot@.dom().contains(#[trigger] r.1@[i]),
{
    let ghost m = snapshot_view(snapshot@);
    let mut chatter: Vec<u32> = Vec::new();
    let mut clean: Vec<u32> = Vec::new();
    let mut i: usize = 0;
    while i < keys.len()
        invariant
            i <= keys.len(),
            m == snapshot_view(snapshot@),
            forall|j: int| 0 <= j < keys.len() ==> snapshot@.dom().contains(#[trigger] keys@[j]),
            chatter@ == chatter_keys(keys@.take(i as int), m),
            clean@ == clean_keys(keys@.take(i as int), m),
            chatter.len() + clean.len() <= i,
            forall|j: int| 0 <= j < chatter.len() ==> snapshot@.dom().contains(#[trigger] chatter@[j]),
            forall|j: int| 0 <= j < clean.len() ==> snapshot@.dom().contains(#[trigger] clean@[j]),
        decreases keys.len() - i,
    {
        assert(keys@.take(i + 1).drop_last() =~= keys@.take(i as int));
        let k = keys[i];
        assert(snapshot@.dom().contains(keys@[i as int]));
        let gaps = snapshot.get(&k).unwrap();
        assert(gaps@ == m[k]);
        if gaps.len() >= MIN_CHATTER_COUNT {
            if suggest_from_gaps(gaps.as_slice()).is_some() {
                chatter.push(k);
            } else {
                clean.push(k);
            }
        }
        i = i + 1;
    }
    assert(keys@.take(keys.len() as int) =~= keys@);
    (chatter, clean)
}

/// The calibration report of a snapshot.
pub fn format_report(snapshot: &Snapshot) -> (out: String)
    ensures
        out@ == report_text(snapshot_view(snapshot@)),
{
    let ghost m = snapshot_view(snapshot@);
    assert(m.dom() =~= snapshot@.dom());
    if snapshot.is_empty() {
        return String::from_str("[calibrate] no data yet\n");
    }
    let keys = sorted_snapshot_keys(snapshot);
    assert forall|i: int| 0 <= i < keys.len() implies snapshot@.dom().contains(#[trigger] keys@[i]) by {
        assert(keys@.to_set().contains(keys@[i]));
    }
    let (chatter, clean) = classify(snapshot, &keys);
    let mut out = String::new();
    out.append("[calibrate] ");
    push_decimal(&mut out, (chatter.len() + clean.len()) as u64);
    out.append(" keys sampled — ");
    push_decimal(&mut out, chatter.len() as u64);
    out.append(" chatter candidate");
    if chatter.len() != 1 {
        push_char(&mut out, 's');
    }
    out.append(", ");
    push_decimal(&mut out, clean.len() as u64);
    out.append(" clean\n");
    assert(out@ =~= report_header(chatter.len() as nat, clean.len() as nat));
    let ghost head = out@;
    let mut i: usize = 0;
    while i < chatter.len()
        invariant
            i <= chatter.len(),
            m == snapshot_view(snapshot@),
            forall|j: int| 0 <= j < chatter.len() ==> snapshot@.dom().contains(#[trigger] chatter@[j]),
            chatter@ == chatter_keys(keys@, m),
            out@ == head + chatter_text(chatter@.take(i as int), m),
        decreases chatter.len() - i,
    {
        assert(chatter@.take(i + 1).drop_last() =~= chatter@.take(i as int));
        let k = chatter[i];
        assert(snapshot@.dom().contains(chatter@[i as int]));
        let gaps = snapshot.get(&k).unwrap();
        assert(gaps@ == m[k]);
        proof {
            law_report_partitions_sampled_keys(keys@, m);
            assert(is_sampled(m[chatter_keys(keys@, m)[i as int]]));
        }
        write_chatter_block(&mut out, k, gaps.as_slice());
        i = i + 1;
    }
    assert(chatter@.take(chatter.len() as int) =~= chatter@);
    if !clean.is_empty() {
        out.append("\n  clean (no chatter signature):\n");
        let ghost mid = out@;
        let mut i: usize = 0;
        while i < clean.len()
            invariant
                i <= clean.len(),
                m == snapshot_view(snapshot@),
                forall|j: int| 0 <= j < clean.len() ==> snapshot@.dom().contains(#[trigger] clean@[j]),
                out@ == mid + clean_text(clean@.take(i as int), m),
            decreases clean.len() - i,
        {
            assert(clean@.take(i + 1).drop_last() =~= clean@.take(i as int));
            let k = clean[i];
            assert(snapshot@.dom().contains(clean@[i as int]));
            let gaps = snapshot.get(&k).unwrap();
            assert(gaps@ == m[k]);
            write_clean_line(&mut out, k, gaps.as_slice());
            i = i + 1;
        }
        assert(clean@.take(clean.len() as int) =~= clean@);
    }
    assert(out@ =~= report_text(m));
    out
}

/// The (key, suggested window) pair of every chatter candidate of the
/// snapshot, in increasing key order.
pub fn chatter_suggestions(snapshot: &Snapshot) -> (pairs: Vec<(u32, u32)>)
    ensures
        pairs@ == suggestion_pairs(sorted_keys(snapshot@.dom()), snapshot_view(snapshot@)),
{
    let ghost m = snapshot_view(snapshot@);
    let keys = sorted_snapshot_keys(snapshot);
    let mut pairs: Vec<(u32, u32)> = Vec::new();
    let mut i: usize = 0;
    while i < keys.len()
        invariant
            i <= keys.len(),
            m == snapshot_view(snapshot@),
            keys@.to_set() == snapshot@.dom(),
            pairs@ == suggestion_pairs(keys@.take(i as int), m),
        decreases keys.len() - i,
    {
        assert(keys@.take(i + 1).drop_last() =~= keys@.take(i as int));
        let k = keys[i];
        assert(keys@.to_set().contains(keys@[i as int]));
        let gaps = snapshot.get(&k).unwrap();
        assert(gaps@ == m[k]);
        if gaps.len() >= MIN_CHATTER_COUNT {
            match suggest_from_gaps(gaps.as_slice()) {
                Some(t) => pairs.push((k, t)),
                None => {},
            }
        }
        i = i + 1;
    }
    assert(keys@.take(keys.len() as int) =~= keys@);
    pairs
}


/// The shortest gap reported for a clean key is the smallest of its gaps: no
/// gap is shorter, and it is one of them.
pub proof fn law_min_gap_is_smallest(s: Seq<u32>)
    requires
        s.len() > 0,
    ensures
        forall|i: int| 0 <= i < s.len() ==> seq_min(s) <= s[i],
        exists|j: int| 0 <= j < s.len() && seq_min(s) == s[j],
    decreases s.len(),
{
    if s.len() > 1 {
        let t = s.drop_last();
        law_min_gap_is_smallest(t);
        assert forall|i: int| 0 <= i < s.len() implies seq_min(s) <= s[i] by {
            if i < s.len() - 1 {
                assert(s[i] == t[i]);
            }
        }
        if seq_min(s) == seq_min(t) {
            let j = choose|j: int| 0 <= j < t.len() && seq_min(t) == t[j];
            assert(s[j] == t[j]);
        } else {
            assert(seq_min(s) == s[s.len() - 1]);
        }
    } else {
        assert(seq_min(s) == s[0]);
    }
}

/// A histogram line whose bar is full: forty marks.
pub open spec fn full_bar_line(b: int, count: nat) -> Seq<char> {
    "    "@ + right3(decimal((b * BUCKET_MS) as nat)) + "-"@ + right3(
        decimal(((b + 1) * BUCKET_MS) as nat),
    ) + "ms ("@ + right3(decimal(count)) + ") "@ + Seq::new(40, |i: int| '#') + "\n"@
}

proof fn lemma_seq_max_at_most(s: Seq<nat>, u: nat)
    requires
        forall|i: int| 0 <= i < s.len() ==> s[i] <= u,
    ensures
        seq_max(s) <= u,
    decreases s.len(),
{
    if s.len() > 0 {
        let t = s.drop_last();
        assert forall|i: int| 0 <= i < t.len() implies t[i] <= u by {
            assert(t[i] == s[i]);
        }
        lemma_seq_max_at_most(t, u);
    }
}

proof fn lemma_bucket_lines_prefix(counts: Seq<nat>, max: nat, m: int, n: int)
    requires
        0 <= m <= n,
    ensures
        bucket_lines(counts, max, m).len() <= bucket_lines(counts, max, n).len(),
        bucket_lines(counts, max, n).subrange(0, bucket_lines(counts, max, m).len() as int)
            == bucket_lines(counts, max, m),
    decreases n - m,
{
    if m < n {
        lemma_bucket_lines_prefix(counts, max, m, n - 1);
        let a = bucket_lines(counts, max, m);
        let p = bucket_lines(counts, max, n - 1);
        let q = bucket_lines(counts, max, n);
        assert(q.subrange(0, p.len() as int) =~= p);
        assert(q.subrange(0, a.len() as int) =~= p.subrange(0, a.len() as int));
    }
}

/// The bars are scaled by the fullest bucket: its line draws exactly forty
/// marks, however many gaps lie beyond the last bucket.
pub proof fn law_fullest_bucket_fills_bar(s: Seq<u32>, b: int)
    requires
        0 <= b < N_BUCKETS,
        bucket_counts(s)[b] > 0,
        forall|k: int| 0 <= k < N_BUCKETS ==> bucket_counts(s)[k] <= bucket_counts(s)[b],
    ensures
        exists|off: int|
            0 <= off && off + full_bar_line(b, bucket_counts(s)[b]).len() <= histogram(s).len()
                && #[trigger] histogram(s).subrange(
                off,
                off + full_bar_line(b, bucket_counts(s)[b]).len(),
            ) == full_bar_line(b, bucket_counts(s)[b]),
{
    let counts = bucket_counts(s);
    let c = counts[b];
    lemma_seq_max(counts);
    lemma_seq_max_at_most(counts, c);
    let max = seq_max(counts);
    assert(max == c);
    assert(c * 40 / c == 40) by (nonlinear_arith)
        requires
            c > 0,
    ;
    assert(bar_len(c, max) == 40);
    assert(bucket_line(b, c, max) =~= full_bar_line(b, c));
    let pre = bucket_lines(counts, max, b);
    let upto = bucket_lines(counts, max, b + 1);
    assert(upto == pre + bucket_line(b, c, max));
    lemma_bucket_lines_prefix(counts, max, b + 1, N_BUCKETS as int);
    let all = bucket_lines(counts, max, N_BUCKETS as int);
    let h = histogram(s);
    assert(h.subrange(0, all.len() as int) =~= all);
    let off = pre.len() as int;
    let line = full_bar_line(b, c);
    assert(h.subrange(off, off + line.len()) =~= upto.subrange(off, off + line.len()));
    assert(upto.subrange(off, off + line.len()) =~= line);
    assert(histogram(s).subrange(off, off + full_bar_line(b, bucket_counts(s)[b]).len())
        == full_bar_line(b, bucket_counts(s)[b]));
}

} // verus!
