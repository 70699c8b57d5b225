//! The `lru` crate's cache, as this library uses it: a map of at most `cap`
//! entries, kept in order of use. Its contents are modelled as a sequence of
//! entries, most recently used first (the order of `LruCache::iter`), with
//! no key twice.
use vstd::prelude::*;

use lru::LruCache;

use crate::flow::{FlowKeyBits, FlowStats};
use crate::rules::engine::SourceState;

verus! {

#[verifier::external_type_specification]
#[verifier::external_body]
#[verifier::reject_recursive_types(K)]
#[verifier::reject_recursive_types(V)]
#[verifier::reject_recursive_types(S)]
pub struct ExLruCache<K, V, S>(LruCache<K, V, S>);

/// The hasher that an `LruCache` uses unless told otherwise.
#[verifier::external_type_specification]
#[verifier::external_body]
pub struct ExLruDefaultHasher(lru::DefaultHasher);

/// No key occurs twice, and there are at most `cap` entries.
pub open spec fn lru_wf<K, V>(s: Seq<(K, V)>, cap: nat) -> bool {
    &&& s.len() <= cap
    &&& forall|i: int, j: int| 0 <= i < s.len() && 0 <= j < s.len() && i != j ==> s[i].0 != s[j].0
}

pub open spec fn has_key<K, V>(s: Seq<(K, V)>, k: K) -> bool {
    exists|i: int| 0 <= i < s.len() && s[i].0 == k
}

/// The position of key `k` (meaningful when `has_key(s, k)`).
pub open spec fn key_index<K, V>(s: Seq<(K, V)>, k: K) -> int {
    choose|i: int| 0 <= i < s.len() && s[i].0 == k
}

pub open spec fn lookup<K, V>(s: Seq<(K, V)>, k: K) -> Option<V> {
    if has_key(s, k) {
        Some(s[key_index(s, k)].1)
    } else {
        None
    }
}

/// The entries without the one for `k`, in the same order.
pub open spec fn without_key<K, V>(s: Seq<(K, V)>, k: K) -> Seq<(K, V)> {
    if has_key(s, k) {
        s.remove(key_index(s, k))
    } else {
        s
    }
}

/// `LruCache::push`: the entry for `k` becomes the most recent one with
/// value `v`. If `k` was there, its old entry comes back; else if the cache
/// was full, the least recently used entry is dropped and comes back.
pub open spec fn push_spec<K, V>(s: Seq<(K, V)>, cap: nat, k: K, v: V) -> (Seq<(K, V)>, Option<(K, V)>) {
    if has_key(s, k) {
        (seq![(k, v)] + without_key(s, k), Some((k, s[key_index(s, k)].1)))
    } else if s.len() == cap {
        (seq![(k, v)] + s.drop_last(), Some(s.last()))
    } else {
        (seq![(k, v)] + s, None)
    }
}

/// Facts about a sequence with distinct keys.
pub proof fn lemma_distinct_lookup<K, V>(s: Seq<(K, V)>, cap: nat, k: K, i: int)
    requires
        lru_wf(s, cap),
        0 <= i < s.len(),
        s[i].0 == k,
    ensures
        has_key(s, k),
        key_index(s, k) == i,
        lookup(s, k) == Some(s[i].1),
{
}

/// Removing an entry, dropping the last entry, or pushing a new key at the
/// front keeps keys distinct.
pub proof fn lemma_wf_after_push<K, V>(s: Seq<(K, V)>, cap: nat, k: K, v: V)
    requires
        lru_wf(s, cap),
        cap > 0,
    ensures
        lru_wf(push_spec(s, cap, k, v).0, cap),
        lru_wf(without_key(s, k), cap),
        !has_key(without_key(s, k), k),
        without_key(s, k).len() == if has_key(s, k) { s.len() - 1 } else { s.len() as int },
{
    let w = without_key(s, k);
    if has_key(s, k) {
        let idx = key_index(s, k);
        assert forall|i: int| 0 <= i < w.len() implies w[i].0 != k by {
            if i < idx {
                assert(w[i] == s[i]);
            } else {
                assert(w[i] == s[i + 1]);
            }
        }
        assert forall|i: int, j: int| 0 <= i < w.len() && 0 <= j < w.len() && i != j implies w[i].0 
            != w[j].0 by {
            let si = if i < idx { i } else { i + 1 };
            let sj = if j < idx { j } else { j + 1 };
            assert(w[i] == s[si]);
            assert(w[j] == s[sj]);
        }
    }
    let n = push_spec(s, cap, k, v).0;
    if has_key(s, k) {
        assert forall|i: int, j: int| 0 <= i < n.len() && 0 <= j < n.len() && i != j implies n[i].0
            != n[j].0 by {
            if i > 0 {
                assert(n[i] == w[i - 1]);
            }
            if j > 0 {
                assert(n[j] == w[j - 1]);
            }
        }
    } else if s.len() == cap {
        let d = s.drop_last();
        assert forall|i: int, j: int| 0 <= i < n.len() && 0 <= j < n.len() && i != j implies n[i].0
            != n[j].0 by {
            if i > 0 {
                assert(n[i] == d[i - 1]);
                assert(d[i - 1] == s[i - 1]);
            }
            if j > 0 {
                assert(n[j] == d[j - 1]);
                assert(d[j - 1] == s[j - 1]);
            }
        }
    } else {
        assert forall|i: int, j: int| 0 <= i < n.len() && 0 <= j < n.len() && i != j implies n[i].0
            != n[j].0 by {
            if i > 0 {
                assert(n[i] == s[i - 1]);
            }
            if j > 0 {
                assert(n[j] == s[j - 1]);
            }
        }
    }
}

/// `e` is one of the entries of `s`.
pub open spec fn holds_entry<K, V>(s: Seq<(K, V)>, e: (K, V)) -> bool {
    exists|j: int| 0 <= j < s.len() && s[j] == e
}

/// Each entry after a push is the pushed one (at the front) or an entry
/// from before; a push adds an entry exactly when the key is new and the
/// cache was not full.
pub proof fn lemma_push_entries<K, V>(s: Seq<(K, V)>, cap: nat, k: K, v: V)
    requires
        lru_wf(s, cap),
        cap > 0,
    ensures
        push_spec(s, cap, k, v).0.len() > 0,
        push_spec(s, cap, k, v).0[0] == (k, v),
        push_spec(s, cap, k, v).0.len() == if !has_key(s, k) && s.len() < cap { s.len() + 1 } else { s.len() + 0 },
        forall|i: int|
            0 < i < push_spec(s, cap, k, v).0.len() ==> holds_entry(s, #[trigger] push_spec(s, cap, k, v).0[i]),
{
    lemma_wf_after_push(s, cap, k, v);
    let n = push_spec(s, cap, k, v).0;
    let w = without_key(s, k);
    assert forall|i: int| 0 < i < n.len() implies holds_entry(s, #[trigger] n[i]) by {
        if has_key(s, k) {
            let idx = key_index(s, k);
            assert(n[i] == w[i - 1]);
            if i - 1 < idx {
                assert(w[i - 1] == s[i - 1]);
            } else {
                assert(w[i - 1] == s[i]);
            }
        } else if s.len() == cap {
            assert(n[i] == s.drop_last()[i - 1]);
            assert(s.drop_last()[i - 1] == s[i - 1]);
        } else {
            assert(n[i] == s[i - 1]);
        }
    }
}

/// The entries with each value passed through `f`.
pub open spec fn map_vals<K, V, W>(s: Seq<(K, V)>, f: spec_fn(V) -> W) -> Seq<(K, W)> {
    s.map_values(|e: (K, V)| (e.0, f(e.1)))
}

/// Viewing the values through `f` commutes with the cache operations.
pub proof fn lemma_map_vals<K, V, W>(s: Seq<(K, V)>, cap: nat, k: K, v: V, f: spec_fn(V) -> W)
    requires
        lru_wf(s, cap),
        cap > 0,
    ensures
        lru_wf(map_vals(s, f), cap),
        has_key(map_vals(s, f), k) == has_key(s, k),
        has_key(s, k) ==> lookup(map_vals(s, f), k) == Some(f(lookup(s, k).unwrap())),
        !has_key(s, k) ==> lookup(map_vals(s, f), k) is None,
        map_vals(push_spec(s, cap, k, v).0, f) == push_spec(map_vals(s, f), cap, k, f(v)).0,
        map_vals(without_key(s, k), f) == without_key(map_vals(s, f), k),
{
    let m = map_vals(s, f);
    assert forall|i: int, j: int| 0 <= i < m.len() && 0 <= j < m.len() && i != j implies m[i].0 != m[j].0 by {
        assert(m[i].0 == s[i].0);
        assert(m[j].0 == s[j].0);
    }
    if has_key(s, k) {
        let i = key_index(s, k);
        assert(m[i].0 == k);
        assert(has_key(m, k));
        lemma_distinct_lookup(m, cap, k, i);
        lemma_distinct_lookup(s, cap, k, i);
        assert(map_vals(without_key(s, k), f) =~= without_key(m, k));
        assert(map_vals(push_spec(s, cap, k, v).0, f) =~= push_spec(m, cap, k, f(v)).0);
    } else {
        assert forall|i: int| 0 <= i < m.len() implies m[i].0 != k by {
            assert(m[i].0 == s[i].0);
        }
        if s.len() == cap {
            assert(map_vals(push_spec(s, cap, k, v).0, f) =~= push_spec(m, cap, k, f(v)).0);
        } else {
            assert(map_vals(push_spec(s, cap, k, v).0, f) =~= push_spec(m, cap, k, f(v)).0);
        }
    }
}

// ---- the flow table's cache: flow keys to flow statistics ----

/// The entries of a flow cache, most recently used first.
pub uninterp spec fn flow_entries(c: LruCache<FlowKeyBits, FlowStats>) -> Seq<(FlowKeyBits, FlowStats)>;

/// The capacity a flow cache was made with.
pub uninterp spec fn flow_cap(c: LruCache<FlowKeyBits, FlowStats>) -> nat;

/// `LruCache::new`: an empty cache of capacity `cap`.
#[verifier::external_body]
pub(crate) fn flow_cache_new(cap: usize) -> (c: LruCache<FlowKeyBits, FlowStats>)
    requires
        cap > 0,
    ensures
        flow_entries(c) == Seq::<(FlowKeyBits, FlowStats)>::empty(),
        flow_cap(c) == cap,
{
    LruCache::new(std::num::NonZeroUsize::new(cap).unwrap())
}

/// `LruCache::push` (see `push_spec`).
#[verifier::external_body]
pub(crate) fn flow_cache_push(c: &mut LruCache<FlowKeyBits, FlowStats>, k: FlowKeyBits, v: FlowStats) -> (r:
    Option<(FlowKeyBits, FlowStats)>)
    requires
        lru_wf(flow_entries(*old(c)), flow_cap(*old(c))),
    ensures
        (flow_entries(*final(c)), r) == push_spec(flow_entries(*old(c)), flow_cap(*old(c)), k, v),
        flow_cap(*final(c)) == flow_cap(*old(c)),
        lru_wf(flow_entries(*final(c)), flow_cap(*final(c))),
{
    c.push(k, v)
}

/// `LruCache::pop`: removes the entry for `k` and gives its value.
#[verifier::external_body]
pub(crate) fn flow_cache_pop(c: &mut LruCache<FlowKeyBits, FlowStats>, k: &FlowKeyBits) -> (r: Option<FlowStats>)
    requires
        lru_wf(flow_entries(*old(c)), flow_cap(*old(c))),
    ensures
        r == lookup(flow_entries(*old(c)), *k),
        flow_entries(*final(c)) == without_key(flow_entries(*old(c)), *k),
        flow_cap(*final(c)) == flow_cap(*old(c)),
        lru_wf(flow_entries(*final(c)), flow_cap(*final(c))),
{
    c.pop(k)
}

/// `LruCache::peek`: the value for `k`, without changing the order.
#[verifier::external_body]
pub(crate) fn flow_cache_peek(c: &LruCache<FlowKeyBits, FlowStats>, k: &FlowKeyBits) -> (r: Option<FlowStats>)
    ensures
        r == lookup(flow_entries(*c), *k),
{
    c.peek(k).copied()
}

/// `LruCache::peek_lru`: the least recently used entry.
#[verifier::external_body]
pub(crate) fn flow_cache_peek_lru(c: &LruCache<FlowKeyBits, FlowStats>) -> (r: Option<(FlowKeyBits, FlowStats)>)
    ensures
        flow_entries(*c).len() == 0 ==> r is None,
        flow_entries(*c).len() > 0 ==> r == Some(flow_entries(*c).last()),
{
    c.peek_lru().map(|(k, v)| (*k, *v))
}

/// `LruCache::pop_lru`: removes and gives the least recently used entry.
#[verifier::external_body]
pub(crate) fn flow_cache_pop_lru(c: &mut LruCache<FlowKeyBits, FlowStats>) -> (r: Option<(FlowKeyBits, FlowStats)>)
    requires
        lru_wf(flow_entries(*old(c)), flow_cap(*old(c))),
    ensures
        flow_entries(*old(c)).len() == 0 ==> r is None && flow_entries(*final(c)) == flow_entries(*old(c)),
        flow_entries(*old(c)).len() > 0 ==> r == Some(flow_entries(*old(c)).last())
            && flow_entries(*final(c)) == flow_entries(*old(c)).drop_last(),
        flow_cap(*final(c)) == flow_cap(*old(c)),
        lru_wf(flow_entries(*final(c)), flow_cap(*final(c))),
{
    c.pop_lru()
}

/// `LruCache::len`: the number of entries.
#[verifier::external_body]
pub(crate) fn flow_cache_len(c: &LruCache<FlowKeyBits, FlowStats>) -> (n: usize)
    ensures
        n == flow_entries(*c).len(),
{
    c.len()
}

/// `LruCache::iter`: the entries, most recently used first.
#[verifier::external_body]
pub(crate) fn flow_cache_items(c: &LruCache<FlowKeyBits, FlowStats>) -> (v: Vec<(FlowKeyBits, FlowStats)>)
    ensures
        v@ == flow_entries(*c),
{
    c.iter().map(|(k, v)| (*k, *v)).collect()
}

} // verus!

verus! {

// ---- a rule's cache: source addresses to per-source state ----

/// The entries of a rule's source cache, most recently used first.
pub uninterp spec fn source_entries(c: LruCache<(bool, u128), SourceState>) -> Seq<((bool, u128), SourceState)>;

/// The capacity a source cache was made with.
pub uninterp spec fn source_cap(c: LruCache<(bool, u128), SourceState>) -> nat;

/// `LruCache::new`: an empty cache of capacity `cap`.
#[verifier::external_body]
pub(crate) fn source_cache_new(cap: usize) -> (c: LruCache<(bool, u128), SourceState>)
    requires
        cap > 0,
    ensures
        source_entries(c) == Seq::<((bool, u128), SourceState)>::empty(),
        source_cap(c) == cap,
{
    LruCache::new(std::num::NonZeroUsize::new(cap).unwrap())
}

/// `LruCache::push` (see `push_spec`).
#[verifier::external_body]
pub(crate) fn source_cache_push(c: &mut LruCache<(bool, u128), SourceState>, k: (bool, u128), v: SourceState) -> (r:
    Option<((bool, u128), SourceState)>)
    requires
        lru_wf(source_entries(*old(c)), source_cap(*old(c))),
    ensures
        (source_entries(*final(c)), r) == push_spec(source_entries(*old(c)), source_cap(*old(c)), k, v),
        source_cap(*final(c)) == source_cap(*old(c)),
        lru_wf(source_entries(*final(c)), source_cap(*final(c))),
{
    c.push(k, v)
}

/// `LruCache::pop`: removes the entry for `k` and gives its value.
#[verifier::external_body]
pub(crate) fn source_cache_pop(c: &mut LruCache<(bool, u128), SourceState>, k: &(bool, u128)) -> (r: Option<SourceState>)
    requires
        lru_wf(source_entries(*old(c)), source_cap(*old(c))),
    ensures
        r == lookup(source_entries(*old(c)), *k),
        source_entries(*final(c)) == without_key(source_entries(*old(c)), *k),
        source_cap(*final(c)) == source_cap(*old(c)),
        lru_wf(source_entries(*final(c)), source_cap(*final(c))),
{
    c.pop(k)
}

} // verus!
