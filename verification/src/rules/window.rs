use vstd::prelude::*;

use std::collections::{HashMap, VecDeque};
use std::hash::Hash;
use vstd::std_specs::hash::obeys_key_model;

verus! {

broadcast use {vstd::std_specs::hash::group_hash_axioms, vstd::std_specs::vecdeque::group_vec_dequeue_axioms};

/// The most events one source keeps in a window; when it is full, the
/// oldest event makes room for the newest.
pub const MAX_EVENTS_PER_SOURCE: usize = 65_536;

/// Where a window of `window_us` ending at `ts_us` starts (never below 0).
pub open spec fn cutoff_spec(ts_us: u64, window_us: u64) -> u64 {
    if ts_us >= window_us { (ts_us - window_us) as u64 } else { 0 }
}

/// Drops events from the front while they are older than `cutoff` (stops at
/// the first one that is not, even if later ones are).
pub open spec fn drop_older<T>(s: Seq<(u64, T)>, cutoff: u64) -> Seq<(u64, T)>
    decreases s.len(),
{
    if s.len() > 0 && s[0].0 < cutoff {
        drop_older(s.drop_first(), cutoff)
    } else {
        s
    }
}

/// The events after adding one at `ts_us` to a window of `window_us`:
/// events older than the window leave from the front, then the oldest
/// leaves if the window is full, then the new event joins at the back.
pub open spec fn window_add_spec<T>(s: Seq<(u64, T)>, ts_us: u64, window_us: u64, item: T) -> Seq<(u64, T)> {
    let s1 = drop_older(s, cutoff_spec(ts_us, window_us));
    let s2 = if s1.len() == MAX_EVENTS_PER_SOURCE { s1.drop_first() } else { s1 };
    s2.push((ts_us, item))
}

/// How many events of `s` carry `k`.
pub open spec fn occurrences<K>(s: Seq<(u64, K)>, k: K) -> nat
    decreases s.len(),
{
    if s.len() == 0 {
        0
    } else {
        (if s[0].1 == k { 1nat } else { 0nat }) + occurrences(s.drop_first(), k)
    }
}

/// The distinct values that events of `s` carry.
pub open spec fn carried<K>(s: Seq<(u64, K)>) -> Set<K> {
    Set::new(|k: K| exists|i: int| 0 <= i < s.len() && s[i].1 == k)
}

proof fn lemma_drop_older_suffix<T>(s: Seq<(u64, T)>, cutoff: u64)
    ensures
        drop_older(s, cutoff).len() <= s.len(),
        drop_older(s, cutoff) == s.subrange(s.len() - drop_older(s, cutoff).len(), s.len() as int),
    decreases s.len(),
{
    if s.len() > 0 && s[0].0 < cutoff {
        lemma_drop_older_suffix(s.drop_first(), cutoff);
        let d = drop_older(s.drop_first(), cutoff);
        assert(s.drop_first().subrange(s.len() - 1 - d.len(), s.len() - 1) =~= s.subrange(
            s.len() - d.len(),
            s.len() as int,
        ));
    } else {
        assert(s.subrange(0, s.len() as int) =~= s);
    }
}

proof fn lemma_occurrences_push<K>(s: Seq<(u64, K)>, e: (u64, K), k: K)
    ensures
        occurrences(s.push(e), k) == occurrences(s, k) + if e.1 == k { 1nat } else { 0nat },
    decreases s.len(),
{
    if s.len() == 0 {
        assert(s.push(e).drop_first() =~= Seq::<(u64, K)>::empty());
        assert(s.push(e)[0] == e);
        assert(occurrences(s.push(e).drop_first(), k) == 0);
        assert(occurrences(s, k) == 0);
    } else {
        assert(s.push(e).drop_first() =~= s.drop_first().push(e));
        assert(s.push(e)[0] == s[0]);
        lemma_occurrences_push(s.drop_first(), e, k);
    }
}

proof fn lemma_occurrences_bound<K>(s: Seq<(u64, K)>, k: K)
    ensures
        occurrences(s, k) <= s.len(),
        occurrences(s, k) > 0 <==> exists|i: int| 0 <= i < s.len() && s[i].1 == k,
    decreases s.len(),
{
    if s.len() > 0 {
        lemma_occurrences_bound(s.drop_first(), k);
        if exists|i: int| 0 <= i < s.len() && s[i].1 == k {
            let i = choose|i: int| 0 <= i < s.len() && s[i].1 == k;
            if i > 0 {
                assert(s.drop_first()[i - 1].1 == k);
            }
        }
        if exists|i: int| 0 <= i < s.drop_first().len() && s.drop_first()[i].1 == k {
            let i = choose|i: int| 0 <= i < s.drop_first().len() && s.drop_first()[i].1 == k;
            assert(s[i + 1].1 == k);
        }
    }
}

/// Counts of keys match the events: the map holds exactly the carried keys,
/// each with its number of occurrences.
pub open spec fn counts_match<K>(events: Seq<(u64, K)>, counts: Map<K, u32>) -> bool {
    &&& forall|k: K| #[trigger] counts.contains_key(k) <==> occurrences(events, k) > 0
    &&& forall|k: K| counts.contains_key(k) ==> #[trigger] counts[k] == occurrences(events, k)
}

proof fn lemma_counts_dom<K>(events: Seq<(u64, K)>, counts: Map<K, u32>)
    requires
        counts_match(events, counts),
    ensures
        counts.dom() == carried(events),
{
    assert forall|k: K| counts.dom().contains(k) <==> carried(events).contains(k) by {
        lemma_occurrences_bound(events, k);
    }
    assert(counts.dom() =~= carried(events));
}

/// A sliding time window of keyed events that counts the distinct keys in
/// it, in constant time per event.
pub struct DistinctWindow<K> {
    events: VecDeque<(u64, K)>,
    counts: HashMap<K, u32>,
}

impl<K: Copy + Eq + Hash> DistinctWindow<K> {
    /// The events in the window, oldest first.
    pub closed spec fn events(&self) -> Seq<(u64, K)> {
        self.events@
    }

    pub closed spec fn wf(&self) -> bool {
        &&& obeys_key_model::<K>()
        &&& self.events@.len() <= MAX_EVENTS_PER_SOURCE
        &&& counts_match(self.events@, self.counts@)
    }

    /// An empty window.
    pub fn new() -> (w: Self)
        requires
            obeys_key_model::<K>(),
        ensures
            w.wf(),
            w.events() == Seq::<(u64, K)>::empty(),
    {
        DistinctWindow { events: VecDeque::new(), counts: HashMap::new() }
    }

    /// Adds an event with key `key` at `ts_us` to a window of `window_us`
    /// (see `window_add_spec`) and returns the number of distinct keys in
    /// the window afterwards.
    pub fn add(&mut self, ts_us: u64, key: K, window_us: u64) -> (distinct: usize)
        requires
            old(self).wf(),
        ensures
            final(self).wf(),
            final(self).events() == window_add_spec(old(self).events(), ts_us, window_us, key),
            distinct == carried(final(self).events()).len(),
    {
        let cutoff = if ts_us >= window_us { ts_us - window_us } else { 0 };
        self.evict_before(cutoff);
        let ghost s1 = self.events@;
        if self.events.len() == MAX_EVENTS_PER_SOURCE {
            self.pop_oldest();
        }
        let ghost s2 = self.events@;
        let ghost e = (ts_us, key);
        self.events.push_back((ts_us, key));
        proof {
            assert forall|k: K| #[trigger] occurrences(self.events@, k) == occurrences(s2, k) + if k == key {
                1nat
            } else {
                0nat
            } by {
                lemma_occurrences_push(s2, e, k);
            }
            lemma_occurrences_bound(s2, key);
        }
        let n = match self.counts.get(&key) {
            Some(n) => *n,
            None => 0,
        };
        self.counts.insert(key, n + 1);
        proof {
            assert forall|k: K| #[trigger] self.counts@.contains_key(k) <==> occurrences(self.events@, k) > 0 by {
            }
            lemma_counts_dom(self.events@, self.counts@);
        }
        self.counts.len()
    }

    /// Removes events from the front while they are older than `cutoff`.
    fn evict_before(&mut self, cutoff: u64)
        requires
            old(self).wf(),
        ensures
            final(self).wf(),
            final(self).events() == drop_older(old(self).events(), cutoff),
    {
        while self.events.len() > 0 && self.events[0].0 < cutoff
            invariant
                self.wf(),
                drop_older(self.events@, cutoff) == drop_older(old(self).events(), cutoff),
            decreases self.events@.len(),
        {
            let ghost before = self.events@;
            self.pop_oldest();
            assert(before.drop_first() =~= self.events@);
        }
    }

    /// Removes the oldest event, if any.
    fn pop_oldest(&mut self)
        requires
            old(self).wf(),
        ensures
            final(self).wf(),
            old(self).events().len() > 0 ==> final(self).events() == old(self).events().drop_first(),
            old(self).events().len() == 0 ==> final(self).events() == old(self).events(),
    {
        let ghost s0 = self.events@;
        match self.events.pop_front() {
            None => {},
            Some((_, key)) => {
                assert(self.events@ =~= s0.drop_first());
                proof {
                    assert(occurrences(s0, key) == 1 + occurrences(s0.drop_first(), key));
                    lemma_occurrences_bound(s0, key);
                }
                let n = match self.counts.get(&key) {
                    Some(n) => *n,
                    None => 0,
                };
                if n <= 1 {
                    self.counts.remove(&key);
                } else {
                    self.counts.insert(key, n - 1);
                }
                proof {
                    assert forall|k: K| k != key implies #[trigger] occurrences(self.events@, k) == occurrences(
                        s0,
                        k,
                    ) by {
                        assert(occurrences(s0, k) == occurrences(s0.drop_first(), k));
                    }
                }
            },
        }
    }
}

/// A sliding time window that counts its events.
pub struct CountWindow {
    events: VecDeque<u64>,
}

/// Drops times from the front while they are older than `cutoff`.
pub open spec fn drop_older_times(s: Seq<u64>, cutoff: u64) -> Seq<u64>
    decreases s.len(),
{
    if s.len() > 0 && s[0] < cutoff {
        drop_older_times(s.drop_first(), cutoff)
    } else {
        s
    }
}

/// The times after adding one at `ts_us` to a window of `window_us` (as
/// `window_add_spec`).
pub open spec fn count_add_spec(s: Seq<u64>, ts_us: u64, window_us: u64) -> Seq<u64> {
    let s1 = drop_older_times(s, cutoff_spec(ts_us, window_us));
    let s2 = if s1.len() == MAX_EVENTS_PER_SOURCE { s1.drop_first() } else { s1 };
    s2.push(ts_us)
}

impl CountWindow {
    /// The times of the events in the window, oldest first.
    pub closed spec fn times(&self) -> Seq<u64> {
        self.events@
    }

    pub closed spec fn wf(&self) -> bool {
        self.events@.len() <= MAX_EVENTS_PER_SOURCE
    }

    pub fn new() -> (w: Self)
        ensures
            w.wf(),
            w.times() == Seq::<u64>::empty(),
    {
        CountWindow { events: VecDeque::new() }
    }

    /// Adds an event at `ts_us` to a window of `window_us` and returns the
    /// number of events in the window afterwards.
    pub fn add(&mut self, ts_us: u64, window_us: u64) -> (count: usize)
        requires
            old(self).wf(),
        ensures
            final(self).wf(),
            final(self).times() == count_add_spec(old(self).times(), ts_us, window_us),
            count == final(self).times().len(),
    {
        let cutoff = if ts_us >= window_us { ts_us - window_us } else { 0 };
        while self.events.len() > 0 && self.events[0] < cutoff
            invariant
                self.wf(),
                drop_older_times(self.events@, cutoff) == drop_older_times(old(self).times(), cutoff),
            decreases self.events@.len(),
        {
            let ghost before = self.events@;
            self.events.pop_front();
            assert(before.drop_first() =~= self.events@);
        }
        if self.events.len() == MAX_EVENTS_PER_SOURCE {
            let ghost before = self.events@;
            self.events.pop_front();
            assert(before.drop_first() =~= self.events@);
        }
        self.events.push_back(ts_us);
        self.events.len()
    }
}

// ---- what a window holds after a run of calls ----

/// The events a distinct window holds after the calls `calls` (times and
/// keys) were added in order to a new window, all with `window_us`.
pub open spec fn window_after<K>(calls: Seq<(u64, K)>, window_us: u64) -> Seq<(u64, K)>
    decreases calls.len(),
{
    if calls.len() == 0 {
        Seq::empty()
    } else {
        window_add_spec(window_after(calls.drop_last(), window_us), calls.last().0, window_us, calls.last().1)
    }
}

/// The times of `calls` never go back.
pub open spec fn times_sorted<K>(calls: Seq<(u64, K)>) -> bool {
    forall|i: int, j: int| 0 <= i <= j < calls.len() ==> calls[i].0 <= calls[j].0
}

/// How many of `calls` come at or after `cutoff`.
pub open spec fn recent_count<K>(calls: Seq<(u64, K)>, cutoff: u64) -> nat
    decreases calls.len(),
{
    if calls.len() == 0 {
        0
    } else {
        recent_count(calls.drop_last(), cutoff) + if calls.last().0 >= cutoff { 1nat } else { 0nat }
    }
}

/// Dropping older events from a run of sorted times drops a prefix: the
/// events before the cutoff.
proof fn lemma_drop_older_sorted<T>(s: Seq<(u64, T)>, cutoff: u64) -> (k: int)
    requires
        times_sorted(s),
    ensures
        0 <= k <= s.len(),
        drop_older(s, cutoff) == s.subrange(k, s.len() as int),
        forall|i: int| 0 <= i < k ==> s[i].0 < cutoff,
        forall|i: int| k <= i < s.len() ==> s[i].0 >= cutoff,
    decreases s.len(),
{
    if s.len() > 0 && s[0].0 < cutoff {
        let t = s.drop_first();
        assert forall|i: int, j: int| 0 <= i <= j < t.len() implies t[i].0 <= t[j].0 by {
            assert(t[i] == s[i + 1] && t[j] == s[j + 1]);
        }
        let k1 = lemma_drop_older_sorted(t, cutoff);
        assert(t.subrange(k1, t.len() as int) =~= s.subrange(k1 + 1, s.len() as int));
        assert forall|i: int| 0 <= i < k1 + 1 implies s[i].0 < cutoff by {
            if i > 0 {
                assert(s[i] == t[i - 1]);
            }
        }
        assert forall|i: int| k1 + 1 <= i < s.len() implies s[i].0 >= cutoff by {
            assert(s[i] == t[i - 1]);
        }
        k1 + 1
    } else {
        assert(s.subrange(0, s.len() as int) =~= s);
        assert forall|i: int| 0 <= i < s.len() implies s[i].0 >= cutoff by {
            assert(s[0].0 <= s[i].0);
        }
        0
    }
}

/// After a run of calls with sorted times, a distinct window holds a
/// suffix of the calls, all at or after the current cutoff; before it lies
/// a call older than the cutoff, or nothing, or the window is full.
proof fn lemma_window_suffix<K>(calls: Seq<(u64, K)>, window_us: u64) -> (j: int)
    requires
        calls.len() > 0,
        times_sorted(calls),
    ensures
        0 <= j < calls.len(),
        calls.len() - j <= MAX_EVENTS_PER_SOURCE,
        window_after(calls, window_us) == calls.subrange(j, calls.len() as int),
        forall|i: int| j <= i < calls.len() ==> calls[i].0 >= cutoff_spec(calls.last().0, window_us),
        j == 0 || calls[j - 1].0 < cutoff_spec(calls.last().0, window_us) || calls.len() - j == MAX_EVENTS_PER_SOURCE,
    decreases calls.len(),
{
    let n = calls.len() as int;
    let t = calls.last().0;
    let c = cutoff_spec(t, window_us);
    let prev = calls.drop_last();
    if n == 1 {
        assert(window_after(prev, window_us) == Seq::<(u64, K)>::empty());
        assert(drop_older(Seq::<(u64, K)>::empty(), c) == Seq::<(u64, K)>::empty());
        assert(window_after(calls, window_us) =~= calls.subrange(0, 1));
        0
    } else {
        assert forall|a: int, b: int| 0 <= a <= b < prev.len() implies prev[a].0 <= prev[b].0 by {
            assert(prev[a] == calls[a] && prev[b] == calls[b]);
        }
        let j1 = lemma_window_suffix(prev, window_us);
        let c1 = cutoff_spec(prev.last().0, window_us);
        assert(prev.last().0 <= t) by {
            assert(prev.last() == calls[n - 2]);
        }
        assert(c1 <= c);
        let w1 = prev.subrange(j1, n - 1);
        assert(w1 =~= calls.subrange(j1, n - 1));
        assert forall|a: int, b: int| 0 <= a <= b < w1.len() implies w1[a].0 <= w1[b].0 by {
            assert(w1[a] == calls[j1 + a] && w1[b] == calls[j1 + b]);
        }
        let k = lemma_drop_older_sorted(w1, c);
        let j2 = j1 + k;
        assert(w1.subrange(k, w1.len() as int) =~= calls.subrange(j2, n - 1));
        let s1 = calls.subrange(j2, n - 1);
        assert forall|i: int| j2 <= i < n - 1 implies calls[i].0 >= c by {
            assert(w1[i - j1] == calls[i]);
        }
        assert(t >= c);
        if s1.len() == MAX_EVENTS_PER_SOURCE {
            assert(s1.drop_first().push((t, calls.last().1)) =~= calls.subrange(j2 + 1, n));
            j2 + 1
        } else {
            assert(s1.push((t, calls.last().1)) =~= calls.subrange(j2, n));
            if j2 > j1 {
                assert(w1[k - 1] == calls[j2 - 1]);
            } else if j1 > 0 {
                assert(prev[j1 - 1] == calls[j1 - 1]);
            }
            j2
        }
    }
}

proof fn lemma_recent_split<K>(calls: Seq<(u64, K)>, cutoff: u64, m: int)
    requires
        0 <= m <= calls.len(),
        forall|i: int| 0 <= i < m ==> calls[i].0 < cutoff,
        forall|i: int| m <= i < calls.len() ==> calls[i].0 >= cutoff,
    ensures
        recent_count(calls, cutoff) == calls.len() - m,
    decreases calls.len(),
{
    if calls.len() > 0 {
        let prev = calls.drop_last();
        let m1 = if m == calls.len() { m - 1 } else { m };
        assert forall|i: int| 0 <= i < m1 implies prev[i].0 < cutoff by {
            assert(prev[i] == calls[i]);
        }
        assert forall|i: int| m1 <= i < prev.len() implies prev[i].0 >= cutoff by {
            assert(prev[i] == calls[i]);
        }
        lemma_recent_split(prev, cutoff, m1);
    }
}

proof fn lemma_recent_at_least<K>(calls: Seq<(u64, K)>, cutoff: u64, m: int)
    requires
        0 <= m <= calls.len(),
        forall|i: int| m <= i < calls.len() ==> calls[i].0 >= cutoff,
    ensures
        recent_count(calls, cutoff) >= calls.len() - m,
    decreases calls.len(),
{
    if calls.len() > m {
        let prev = calls.drop_last();
        assert forall|i: int| m <= i < prev.len() implies prev[i].0 >= cutoff by {
            assert(prev[i] == calls[i]);
        }
        lemma_recent_at_least(prev, cutoff, m);
    }
}

/// A distinct window counts the distinct keys of the recent calls: after
/// calls with times that never go back, all with the same `window_us`, it
/// holds exactly the calls at or after the last call's cutoff, in order,
/// and so the keys it carries (whose number `DistinctWindow::add` returns)
/// are those of these calls. This holds while at most `MAX_EVENTS_PER_SOURCE`
/// calls are that recent; beyond that the oldest of them have made room.
pub proof fn lemma_window_counts_recent<K>(calls: Seq<(u64, K)>, window_us: u64)
    requires
        calls.len() > 0,
        times_sorted(calls),
        recent_count(calls, cutoff_spec(calls.last().0, window_us)) <= MAX_EVENTS_PER_SOURCE,
    ensures
        window_after(calls, window_us) == calls.subrange(
            calls.len() - recent_count(calls, cutoff_spec(calls.last().0, window_us)),
            calls.len() as int,
        ),
        forall|k: K|
            carried(window_after(calls, window_us)).contains(k) <==> exists|i: int|
                0 <= i < calls.len() && calls[i].0 >= cutoff_spec(calls.last().0, window_us) && calls[i].1 == k,
{
    let c = cutoff_spec(calls.last().0, window_us);
    let n = calls.len() as int;
    let j = lemma_window_suffix(calls, window_us);
    if j > 0 && calls[j - 1].0 >= c {
        assert forall|i: int| j - 1 <= i < n implies calls[i].0 >= c by {
            assert(calls[j - 1].0 <= calls[i].0);
        }
        lemma_recent_at_least(calls, c, j - 1);
        assert(false);
    }
    assert forall|i: int| 0 <= i < j implies calls[i].0 < c by {
        assert(calls[i].0 <= calls[j - 1].0);
    }
    lemma_recent_split(calls, c, j);
    let w = window_after(calls, window_us);
    assert forall|k: K| carried(w).contains(k) <==> exists|i: int| 0 <= i < n && calls[i].0 >= c && calls[i].1 == k by {
        if carried(w).contains(k) {
            let a = choose|a: int| 0 <= a < w.len() && w[a].1 == k;
            assert(w[a] == calls[j + a]);
        }
        if exists|i: int| 0 <= i < n && calls[i].0 >= c && calls[i].1 == k {
            let i = choose|i: int| 0 <= i < n && calls[i].0 >= c && calls[i].1 == k;
            assert(i >= j);
            assert(w[i - j] == calls[i]);
        }
    }
}

/// The times a count window holds after calls at the times `ts`, made in
/// order on a new window, all with `window_us`.
pub open spec fn count_after(ts: Seq<u64>, window_us: u64) -> Seq<u64>
    decreases ts.len(),
{
    if ts.len() == 0 {
        Seq::empty()
    } else {
        count_add_spec(count_after(ts.drop_last(), window_us), ts.last(), window_us)
    }
}

/// The times `ts` never go back.
pub open spec fn sorted_times(ts: Seq<u64>) -> bool {
    forall|i: int, j: int| 0 <= i <= j < ts.len() ==> ts[i] <= ts[j]
}

/// How many of the times `ts` are at or after `cutoff`.
pub open spec fn recent_times(ts: Seq<u64>, cutoff: u64) -> nat
    decreases ts.len(),
{
    if ts.len() == 0 {
        0
    } else {
        recent_times(ts.drop_last(), cutoff) + if ts.last() >= cutoff { 1nat } else { 0nat }
    }
}

proof fn lemma_drop_older_times_sorted(s: Seq<u64>, cutoff: u64) -> (k: int)
    requires
        sorted_times(s),
    ensures
        0 <= k <= s.len(),
        drop_older_times(s, cutoff) == s.subrange(k, s.len() as int),
        forall|i: int| 0 <= i < k ==> s[i] < cutoff,
        forall|i: int| k <= i < s.len() ==> s[i] >= cutoff,
    decreases s.len(),
{
    if s.len() > 0 && s[0] < cutoff {
        let t = s.drop_first();
        assert forall|i: int, j: int| 0 <= i <= j < t.len() implies t[i] <= t[j] by {
            assert(t[i] == s[i + 1] && t[j] == s[j + 1]);
        }
        let k1 = lemma_drop_older_times_sorted(t, cutoff);
        assert(t.subrange(k1, t.len() as int) =~= s.subrange(k1 + 1, s.len() as int));
        assert forall|i: int| 0 <= i < k1 + 1 implies s[i] < cutoff by {
            if i > 0 {
                assert(s[i] == t[i - 1]);
            }
        }
        assert forall|i: int| k1 + 1 <= i < s.len() implies s[i] >= cutoff by {
            assert(s[i] == t[i - 1]);
        }
        k1 + 1
    } else {
        assert(s.subrange(0, s.len() as int) =~= s);
        assert forall|i: int| 0 <= i < s.len() implies s[i] >= cutoff by {
            assert(s[0] <= s[i]);
        }
        0
    }
}

/// After calls at sorted times, a count window holds a suffix of them, all
/// at or after the current cutoff; before it lies an older time, or
/// nothing, or the window is full.
proof fn lemma_count_suffix(ts: Seq<u64>, window_us: u64) -> (j: int)
    requires
        ts.len() > 0,
        sorted_times(ts),
    ensures
        0 <= j < ts.len(),
        ts.len() - j <= MAX_EVENTS_PER_SOURCE,
        count_after(ts, window_us) == ts.subrange(j, ts.len() as int),
        forall|i: int| j <= i < ts.len() ==> ts[i] >= cutoff_spec(ts.last(), window_us),
        j == 0 || ts[j - 1] < cutoff_spec(ts.last(), window_us) || ts.len() - j == MAX_EVENTS_PER_SOURCE,
    decreases ts.len(),
{
    let n = ts.len() as int;
    let t = ts.last();
    let c = cutoff_spec(t, window_us);
    let prev = ts.drop_last();
    if n == 1 {
        assert(count_after(prev, window_us) == Seq::<u64>::empty());
        assert(drop_older_times(Seq::<u64>::empty(), c) == Seq::<u64>::empty());
        assert(count_after(ts, window_us) =~= ts.subrange(0, 1));
        0
    } else {
        assert forall|a: int, b: int| 0 <= a <= b < prev.len() implies prev[a] <= prev[b] by {
            assert(prev[a] == ts[a] && prev[b] == ts[b]);
        }
        let j1 = lemma_count_suffix(prev, window_us);
        let c1 = cutoff_spec(prev.last(), window_us);
        assert(prev.last() <= t) by {
            assert(prev.last() == ts[n - 2]);
        }
        assert(c1 <= c);
        let w1 = prev.subrange(j1, n - 1);
        assert(w1 =~= ts.subrange(j1, n - 1));
        assert forall|a: int, b: int| 0 <= a <= b < w1.len() implies w1[a] <= w1[b] by {
            assert(w1[a] == ts[j1 + a] && w1[b] == ts[j1 + b]);
        }
        let k = lemma_drop_older_times_sorted(w1, c);
        let j2 = j1 + k;
        assert(w1.subrange(k, w1.len() as int) =~= ts.subrange(j2, n - 1));
        let s1 = ts.subrange(j2, n - 1);
        assert forall|i: int| j2 <= i < n - 1 implies ts[i] >= c by {
            assert(w1[i - j1] == ts[i]);
        }
        assert(t >= c);
        if s1.len() == MAX_EVENTS_PER_SOURCE {
            assert(s1.drop_first().push(t) =~= ts.subrange(j2 + 1, n));
            j2 + 1
        } else {
            assert(s1.push(t) =~= ts.subrange(j2, n));
            if j2 > j1 {
                assert(w1[k - 1] == ts[j2 - 1]);
            } else if j1 > 0 {
                assert(prev[j1 - 1] == ts[j1 - 1]);
            }
            j2
        }
    }
}

proof fn lemma_recent_times_split(ts: Seq<u64>, cutoff: u64, m: int)
    requires
        0 <= m <= ts.len(),
        forall|i: int| 0 <= i < m ==> ts[i] < cutoff,
        forall|i: int| m <= i < ts.len() ==> ts[i] >= cutoff,
    ensures
        recent_times(ts, cutoff) == ts.len() - m,
    decreases ts.len(),
{
    if ts.len() > 0 {
        let prev = ts.drop_last();
        let m1 = if m == ts.len() { m - 1 } else { m };
        assert forall|i: int| 0 <= i < m1 implies prev[i] < cutoff by {
            assert(prev[i] == ts[i]);
        }
        assert forall|i: int| m1 <= i < prev.len() implies prev[i] >= cutoff by {
            assert(prev[i] == ts[i]);
        }
        lemma_recent_times_split(prev, cutoff, m1);
    }
}

proof fn lemma_recent_times_at_least(ts: Seq<u64>, cutoff: u64, m: int)
    requires
        0 <= m <= ts.len(),
        forall|i: int| m <= i < ts.len() ==> ts[i] >= cutoff,
    ensures
        recent_times(ts, cutoff) >= ts.len() - m,
    decreases ts.len(),
{
    if ts.len() > m {
        let prev = ts.drop_last();
        assert forall|i: int| m <= i < prev.len() implies prev[i] >= cutoff by {
            assert(prev[i] == ts[i]);
        }
        lemma_recent_times_at_least(prev, cutoff, m);
    }
}

/// A count window counts the recent calls: after calls at times that never
/// go back, all with the same `window_us`, the number of times it holds
/// (what `CountWindow::add` returns) is the number of calls at or after the
/// last call's cutoff, at most `MAX_EVENTS_PER_SOURCE`, and at least one.
pub proof fn lemma_count_window_recent(ts: Seq<u64>, window_us: u64)
    requires
        ts.len() > 0,
        sorted_times(ts),
    ensures
        count_after(ts, window_us).len() == if recent_times(ts, cutoff_spec(ts.last(), window_us))
            <= MAX_EVENTS_PER_SOURCE {
            recent_times(ts, cutoff_spec(ts.last(), window_us))
        } else {
            MAX_EVENTS_PER_SOURCE as nat
        },
        count_after(ts, window_us).len() >= 1,
{
    let c = cutoff_spec(ts.last(), window_us);
    let n = ts.len() as int;
    let j = lemma_count_suffix(ts, window_us);
    if j > 0 && ts[j - 1] >= c {
        assert(n - j == MAX_EVENTS_PER_SOURCE);
        assert forall|i: int| j - 1 <= i < n implies ts[i] >= c by {
            assert(ts[j - 1] <= ts[i]);
        }
        lemma_recent_times_at_least(ts, c, j - 1);
    } else {
        assert forall|i: int| 0 <= i < j implies ts[i] < c by {
            assert(ts[i] <= ts[j - 1]);
        }
        lemma_recent_times_split(ts, c, j);
    }
}

} // verus!
