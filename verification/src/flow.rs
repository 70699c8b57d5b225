use vstd::prelude::*;

use lru::LruCache;

use crate::addr::IpAddr;
use crate::lru_cache::{
    flow_cache_items, flow_cache_len, flow_cache_new, flow_cache_peek, flow_cache_peek_lru,
    flow_cache_pop, flow_cache_pop_lru, flow_cache_push, flow_cap, flow_entries, has_key, key_index,
    lemma_wf_after_push, lookup, lru_wf, push_spec, without_key,
};

verus! {

/// One end of a flow.
#[derive(Debug, Clone, Copy, PartialEq, Eq, Hash, PartialOrd, Ord, Structural)]
pub struct Endpoint {
    pub addr: IpAddr,
    pub port: u16,
}

/// A bidirectional flow: two endpoints in canonical order (`a` is not
/// greater than `b`) and the IP protocol.
#[derive(Debug, Clone, Copy, PartialEq, Eq, Hash, PartialOrd, Ord, Structural)]
pub struct FlowKey {
    pub a: Endpoint,
    pub b: Endpoint,
    pub proto: u8,
}

/// Which way a packet went within its flow.
#[derive(Debug, Clone, Copy, PartialEq, Eq, Structural)]
pub enum Direction {
    AtoB,
    BtoA,
}

/// A flow key as plain values: for each endpoint the address (IPv6 flag and
/// bits) and port, then the protocol.
pub type FlowKeyBits = ((bool, u128), u16, (bool, u128), u16, u8);

impl Endpoint {
    /// The order of endpoints: by address, then by port.
    pub open spec fn lt_spec(self, other: Endpoint) -> bool {
        self.addr.lt_spec(other.addr) || (self.addr == other.addr && self.port < other.port)
    }

    pub fn less_than(&self, other: &Endpoint) -> (b: bool)
        ensures
            b == self.lt_spec(*other),
    {
        self.addr.less_than(&other.addr) || (self.addr == other.addr && self.port < other.port)
    }
}

impl Direction {
    /// 0 for a-to-b, 1 for b-to-a: the index of the direction's counters.
    pub open spec fn index_spec(self) -> int {
        match self {
            Direction::AtoB => 0,
            Direction::BtoA => 1,
        }
    }

    pub fn index(&self) -> (i: usize)
        ensures
            i == self.index_spec(),
    {
        match self {
            Direction::AtoB => 0,
            Direction::BtoA => 1,
        }
    }
}

impl FlowKey {
    /// The lexicographic order of keys: `a`, then `b`, then protocol.
    pub open spec fn lt_spec(self, other: FlowKey) -> bool {
        ||| self.a.lt_spec(other.a)
        ||| self.a == other.a && self.b.lt_spec(other.b)
        ||| self.a == other.a && self.b == other.b && self.proto < other.proto
    }

    pub fn less_than(&self, other: &FlowKey) -> (r: bool)
        ensures
            r == self.lt_spec(*other),
    {
        self.a.less_than(&other.a) || (self.a == other.a && self.b.less_than(&other.b)) || (self.a
            == other.a && self.b == other.b && self.proto < other.proto)
    }

    pub open spec fn bits_spec(self) -> FlowKeyBits {
        (self.a.addr.key_spec(), self.a.port, self.b.addr.key_spec(), self.b.port, self.proto)
    }

    pub fn bits(&self) -> (r: FlowKeyBits)
        ensures
            r == self.bits_spec(),
    {
        (self.a.addr.key(), self.a.port, self.b.addr.key(), self.b.port, self.proto)
    }

    /// Bits that some flow key has.
    pub open spec fn valid_bits(b: FlowKeyBits) -> bool {
        &&& (!b.0.0 ==> b.0.1 <= u32::MAX)
        &&& (!b.2.0 ==> b.2.1 <= u32::MAX)
    }

    pub open spec fn from_bits_spec(b: FlowKeyBits) -> FlowKey {
        FlowKey {
            a: Endpoint { addr: IpAddr::from_key_spec(b.0), port: b.1 },
            b: Endpoint { addr: IpAddr::from_key_spec(b.2), port: b.3 },
            proto: b.4,
        }
    }

    pub fn from_bits(b: FlowKeyBits) -> (k: FlowKey)
        requires
            Self::valid_bits(b),
        ensures
            k == Self::from_bits_spec(b),
            k.bits_spec() == b,
    {
        FlowKey {
            a: Endpoint { addr: IpAddr::from_key(b.0), port: b.1 },
            b: Endpoint { addr: IpAddr::from_key(b.2), port: b.3 },
            proto: b.4,
        }
    }

    /// The key of the flow that a packet from `src` to `dst` belongs to, and
    /// the packet's direction in it: the smaller endpoint is `a`.
    pub open spec fn canonical_spec(src: Endpoint, dst: Endpoint, proto: u8) -> (FlowKey, Direction) {
        if !dst.lt_spec(src) {
            (FlowKey { a: src, b: dst, proto }, Direction::AtoB)
        } else {
            (FlowKey { a: dst, b: src, proto }, Direction::BtoA)
        }
    }

    pub fn canonical(src: Endpoint, dst: Endpoint, proto: u8) -> (r: (Self, Direction))
        ensures
            r == Self::canonical_spec(src, dst, proto),
    {
        if !dst.less_than(&src) {
            (FlowKey { a: src, b: dst, proto }, Direction::AtoB)
        } else {
            (FlowKey { a: dst, b: src, proto }, Direction::BtoA)
        }
    }
}

/// Both directions of a conversation share one flow: the packets from
/// `src` to `dst` and those from `dst` to `src` get the same key, and
/// opposite directions when the two endpoints differ.
pub proof fn lemma_canonical_symmetric(src: Endpoint, dst: Endpoint, proto: u8)
    ensures
        FlowKey::canonical_spec(src, dst, proto).0 == FlowKey::canonical_spec(dst, src, proto).0,
        src != dst ==> FlowKey::canonical_spec(src, dst, proto).1 != FlowKey::canonical_spec(dst, src, proto).1,
        FlowKey::canonical_spec(src, dst, proto).0.proto == proto,
        !FlowKey::canonical_spec(src, dst, proto).0.b.lt_spec(FlowKey::canonical_spec(src, dst, proto).0.a),
{
    if src == dst {
    } else if src.addr == dst.addr {
    } else {
        crate::addr::lemma_key_injective(src.addr, dst.addr);
    }
}

/// A table never holds more flows than it was made for, nor a flow twice.
pub proof fn lemma_table_bounded(t: FlowTable)
    requires
        t.wf(),
    ensures
        t.entries().len() <= t.capacity(),
        forall|i: int, j: int|
            0 <= i < t.entries().len() && 0 <= j < t.entries().len() && i != j ==> t.entries()[i].0 != t.entries()[j].0,
{
}

/// A key and its bits determine each other.
pub proof fn lemma_bits(k: FlowKey)
    ensures
        FlowKey::valid_bits(k.bits_spec()),
        FlowKey::from_bits_spec(k.bits_spec()) == k,
{
    crate::addr::lemma_key_injective(k.a.addr, k.a.addr);
    crate::addr::lemma_key_injective(k.b.addr, k.b.addr);
}

/// Two keys have the same bits exactly when they are the same key, so the
/// flow table finds a flow by its bits.
pub proof fn lemma_bits_injective(x: FlowKey, y: FlowKey)
    ensures
        x.bits_spec() == y.bits_spec() <==> x == y,
{
    lemma_bits(x);
    lemma_bits(y);
}

/// The key order is a strict total order.
pub proof fn lemma_key_order(x: FlowKey, y: FlowKey, z: FlowKey)
    ensures
        !x.lt_spec(x),
        x != y ==> x.lt_spec(y) || y.lt_spec(x),
        x.lt_spec(y) ==> !y.lt_spec(x),
        x.lt_spec(y) && y.lt_spec(z) ==> x.lt_spec(z),
{
}

/// Counters of one flow; index 0 of `packets` and `bytes` is the a-to-b
/// direction, index 1 b-to-a.
#[derive(Debug, Clone, Copy, PartialEq, Eq)]
pub struct FlowStats {
    pub first_seen_us: u64,
    pub last_seen_us: u64,
    pub packets: [u64; 2],
    pub bytes: [u64; 2],
    pub tcp_flags: u8,
}

impl Default for FlowStats {
    fn default() -> (s: FlowStats)
        ensures
            s.first_seen_us == 0 && s.last_seen_us == 0 && s.tcp_flags == 0,
            s.packets@ == seq![0u64, 0u64],
            s.bytes@ == seq![0u64, 0u64],
    {
        FlowStats { first_seen_us: 0, last_seen_us: 0, packets: [0, 0], bytes: [0, 0], tcp_flags: 0 }
    }
}

impl FlowStats {
    pub open spec fn total_packets_spec(&self) -> int {
        self.packets[0] + self.packets[1]
    }

    pub open spec fn total_bytes_spec(&self) -> int {
        self.bytes[0] + self.bytes[1]
    }

    /// Packets in both directions.
    pub fn total_packets(&self) -> (n: u64)
        requires
            self.total_packets_spec() <= u64::MAX,
        ensures
            n == self.total_packets_spec(),
    {
        self.packets[0] + self.packets[1]
    }

    /// Bytes in both directions.
    pub fn total_bytes(&self) -> (n: u64)
        requires
            self.total_bytes_spec() <= u64::MAX,
        ensures
            n == self.total_bytes_spec(),
    {
        self.bytes[0] + self.bytes[1]
    }

    /// Time from the first packet to the last.
    pub fn duration_us(&self) -> (d: u64)
        requires
            self.first_seen_us <= self.last_seen_us,
        ensures
            d == self.last_seen_us - self.first_seen_us,
    {
        self.last_seen_us - self.first_seen_us
    }
}

/// One packet's contribution to its flow.
#[derive(Debug, Clone, Copy)]
pub struct FlowUpdate {
    pub key: FlowKey,
    pub direction: Direction,
    pub ts_us: u64,
    pub bytes: u32,
    pub tcp_flags: u8,
}

/// The statistics of a flow's first packet.
pub open spec fn fresh_stats(u: FlowUpdate) -> FlowStats {
    let d = u.direction.index_spec();
    FlowStats {
        first_seen_us: u.ts_us,
        last_seen_us: u.ts_us,
        packets: if d == 0 { [1u64, 0u64] } else { [0u64, 1u64] },
        bytes: if d == 0 { [u.bytes as u64, 0u64] } else { [0u64, u.bytes as u64] },
        tcp_flags: u.tcp_flags,
    }
}

/// A flow's statistics after one more packet: the latest time seen, one more
/// packet and `u.bytes` more bytes in its direction, its TCP flags added.
pub open spec fn bumped_stats(s: FlowStats, u: FlowUpdate) -> FlowStats {
    let d = u.direction.index_spec();
    FlowStats {
        first_seen_us: s.first_seen_us,
        last_seen_us: if s.last_seen_us >= u.ts_us { s.last_seen_us } else { u.ts_us },
        packets: if d == 0 {
            [(s.packets[0] + 1) as u64, s.packets[1]]
        } else {
            [s.packets[0], (s.packets[1] + 1) as u64]
        },
        bytes: if d == 0 {
            [(s.bytes[0] + u.bytes) as u64, s.bytes[1]]
        } else {
            [s.bytes[0], (s.bytes[1] + u.bytes) as u64]
        },
        tcp_flags: s.tcp_flags | u.tcp_flags,
    }
}

/// A flow's counters have room for one more packet of `u`.
pub open spec fn can_bump(s: FlowStats, u: FlowUpdate) -> bool {
    let d = u.direction.index_spec();
    &&& s.packets[d] + 1 <= u64::MAX
    &&& s.bytes[d] + u.bytes <= u64::MAX
}

/// A flow was first seen no later than it was last seen.
pub open spec fn seen_in_order(s: FlowStats) -> bool {
    s.first_seen_us <= s.last_seen_us
}

/// The statistics a flow has after `u`, given what the table held.
pub open spec fn updated_stats(entries: Seq<(FlowKeyBits, FlowStats)>, u: FlowUpdate) -> FlowStats {
    match lookup(entries, u.key.bits_spec()) {
        Some(s) => bumped_stats(s, u),
        None => fresh_stats(u),
    }
}

/// TCP flags accumulate over a flow's packets: when the table already holds
/// the flow, each flag bit of its statistics after an update is set exactly
/// when it was set before or is set in the update, so the flags are the
/// bitwise OR of the old flags and the update's; a flow that is new starts
/// with the update's flags. A flag once seen is never lost.
pub proof fn lemma_flags_accumulate(entries: Seq<(FlowKeyBits, FlowStats)>, u: FlowUpdate, bit: u8)
    requires
        bit < 8,
    ensures
        lookup(entries, u.key.bits_spec()) matches Some(s) ==> {
            &&& updated_stats(entries, u).tcp_flags == s.tcp_flags | u.tcp_flags
            &&& ((updated_stats(entries, u).tcp_flags >> bit) & 1 == 1 <==> ((s.tcp_flags >> bit) & 1 == 1
                || (u.tcp_flags >> bit) & 1 == 1))
        },
        lookup(entries, u.key.bits_spec()) is None ==> updated_stats(entries, u).tcp_flags == u.tcp_flags,
{
    if let Some(s) = lookup(entries, u.key.bits_spec()) {
        let a = s.tcp_flags;
        let b = u.tcp_flags;
        let c = a | b;
        assert((c >> bit) & 1 == 1 <==> ((a >> bit) & 1 == 1 || (b >> bit) & 1 == 1)) by (bit_vector)
            requires
                c == a | b,
                bit < 8,
        ;
    }
}

/// An update counts one packet and its bytes in its own direction only:
/// for a flow the table holds, the packet and byte counters of the update's
/// direction grow by one and by the update's bytes, those of the other
/// direction stay, the first-seen time stays and the last-seen time is the
/// later of the old one and the update's. A new flow has one packet and the
/// update's bytes in that direction, none in the other, and was first and
/// last seen at the update's time.
pub proof fn lemma_counters_accumulate(entries: Seq<(FlowKeyBits, FlowStats)>, u: FlowUpdate)
    requires
        lookup(entries, u.key.bits_spec()) matches Some(s) ==> can_bump(s, u),
    ensures
        ({
            let n = updated_stats(entries, u);
            let d = u.direction.index_spec();
            &&& lookup(entries, u.key.bits_spec()) matches Some(s) ==> {
                &&& n.packets[d] == s.packets[d] + 1
                &&& n.packets[1 - d] == s.packets[1 - d]
                &&& n.bytes[d] == s.bytes[d] + u.bytes
                &&& n.bytes[1 - d] == s.bytes[1 - d]
                &&& n.first_seen_us == s.first_seen_us
                &&& n.last_seen_us >= s.last_seen_us && n.last_seen_us >= u.ts_us
                &&& n.last_seen_us == s.last_seen_us || n.last_seen_us == u.ts_us
            }
            &&& lookup(entries, u.key.bits_spec()) is None ==> {
                &&& n.packets[d] == 1 && n.packets[1 - d] == 0
                &&& n.bytes[d] == u.bytes && n.bytes[1 - d] == 0
                &&& n.first_seen_us == u.ts_us && n.last_seen_us == u.ts_us
            }
        }),
{
}

/// Expiry keeps at most the flows it was given.
proof fn lemma_expire_len(s: Seq<(FlowKeyBits, FlowStats)>, now: u64, timeout: u64)
    ensures
        expire_spec(s, now, timeout).len() <= s.len(),
    decreases s.len(),
{
    if s.len() > 0 && s.last().1.last_seen_us + timeout <= now {
        lemma_expire_len(s.drop_last(), now, timeout);
    }
}

/// Drops least recently used flows while they have been idle for at least
/// `timeout` at time `now`; stops at the first flow that has not.
pub open spec fn expire_spec(s: Seq<(FlowKeyBits, FlowStats)>, now: u64, timeout: u64) -> Seq<
    (FlowKeyBits, FlowStats),
>
    decreases s.len(),
{
    if s.len() == 0 {
        s
    } else if s.last().1.last_seen_us + timeout > now {
        s
    } else {
        expire_spec(s.drop_last(), now, timeout)
    }
}

/// Order of ranking: more bytes first; for equal bytes the smaller key.
pub open spec fn listed_before(x: (FlowKey, FlowStats), y: (FlowKey, FlowStats)) -> bool {
    x.1.total_bytes_spec() > y.1.total_bytes_spec() || (x.1.total_bytes_spec()
        == y.1.total_bytes_spec() && x.0.lt_spec(y.0))
}

/// The rank by which flows are selected: fewer bytes rank lower, and for
/// equal bytes the smaller key ranks lower.
pub open spec fn ranks_below(x: (FlowKey, FlowStats), y: (FlowKey, FlowStats)) -> bool {
    x.1.total_bytes_spec() < y.1.total_bytes_spec() || (x.1.total_bytes_spec()
        == y.1.total_bytes_spec() && x.0.lt_spec(y.0))
}

pub open spec fn contains_key_of(t: Seq<(FlowKey, FlowStats)>, k: FlowKey) -> bool {
    exists|i: int| 0 <= i < t.len() && t[i].0 == k
}

pub open spec fn min_nat(a: nat, b: nat) -> nat {
    if a < b { a } else { b }
}

/// `t` is the list of the `n` flows of `s` that rank highest, listed with
/// the most bytes first (ties by ascending key).
pub open spec fn top_spec(s: Seq<(FlowKey, FlowStats)>, n: nat, t: Seq<(FlowKey, FlowStats)>) -> bool {
    &&& t.len() == min_nat(n, s.len())
    &&& forall|i: int| 0 <= i < t.len() ==> s.contains(#[trigger] t[i])
    &&& forall|i: int, j: int| 0 <= i < j < t.len() ==> listed_before(#[trigger] t[i], #[trigger] t[j])
    &&& forall|j: int, i: int|
        0 <= j < s.len() && 0 <= i < t.len() && !contains_key_of(t, s[j].0) ==> ranks_below(
            #[trigger] s[j],
            #[trigger] t[i],
        )
}


/// The invariant of the selection of top flows after the first `k` flows of
/// `items`: it holds `min(n, k)` of them, listed in order, and every flow
/// among the first `k` that is not listed ranks below every listed one (and
/// while `k <= n`, every one is listed).
pub open spec fn top_invariant(items: Seq<(FlowKey, FlowStats)>, k: int, n: nat, t: Seq<(FlowKey, FlowStats)>) -> bool {
    &&& t.len() == min_nat(n, k as nat)
    &&& forall|i: int| 0 <= i < t.len() ==> items.subrange(0, k).contains(#[trigger] t[i])
    &&& forall|i: int, j: int| 0 <= i < j < t.len() ==> listed_before(#[trigger] t[i], #[trigger] t[j])
    &&& forall|j: int, i: int|
        0 <= j < k && 0 <= i < t.len() && !contains_key_of(t, items[j].0) ==> ranks_below(
            #[trigger] items[j],
            #[trigger] t[i],
        )
    &&& k <= n ==> forall|j: int| 0 <= j < k ==> contains_key_of(t, #[trigger] items[j].0)
}

/// Listing order and rank are strict total orders on flows with distinct
/// keys.
pub proof fn lemma_orders(x: (FlowKey, FlowStats), y: (FlowKey, FlowStats), z: (FlowKey, FlowStats))
    ensures
        !listed_before(x, x),
        !ranks_below(x, x),
        x.0 != y.0 ==> listed_before(x, y) || listed_before(y, x),
        x.0 != y.0 ==> ranks_below(x, y) || ranks_below(y, x),
        listed_before(x, y) ==> !listed_before(y, x),
        ranks_below(x, y) ==> !ranks_below(y, x),
        listed_before(x, y) && listed_before(y, z) ==> listed_before(x, z),
        ranks_below(x, y) && ranks_below(y, z) ==> ranks_below(x, z),
{
    lemma_key_order(x.0, y.0, z.0);
    lemma_key_order(y.0, x.0, z.0);
    lemma_key_order(x.0, z.0, y.0);
}

/// Inserting a new flow at its place in the listing order.
proof fn lemma_top_insert(items: Seq<(FlowKey, FlowStats)>, k: int, n: nat, t0: Seq<(FlowKey, FlowStats)>, p: int)
    requires
        0 <= k < items.len(),
        forall|i: int, j: int|
            0 <= i < items.len() && 0 <= j < items.len() && i != j ==> (#[trigger] items[i]).0 != (
            #[trigger] items[j]).0,
        top_invariant(items, k, n, t0),
        0 <= p <= t0.len(),
        forall|i: int| 0 <= i < p ==> !listed_before(items[k], #[trigger] t0[i]),
        p == t0.len() || listed_before(items[k], t0[p]),
    ensures
        ({
            let t1 = t0.insert(p, items[k]);
            &&& t1.len() == t0.len() + 1
            &&& forall|i: int| 0 <= i < t1.len() ==> items.subrange(0, k + 1).contains(#[trigger] t1[i])
            &&& forall|i: int, j: int| 0 <= i < j < t1.len() ==> listed_before(#[trigger] t1[i], #[trigger] t1[j])
            &&& forall|i: int| 0 <= i < t1.len() ==> (#[trigger] t1[i]).0 != items[k].0 || t1[i] == items[k]
            &&& exists|i: int| 0 <= i < t1.len() && t1[i] == items[k]
            &&& forall|x: (FlowKey, FlowStats)| t0.contains(x) ==> t1.contains(x)
            &&& forall|x: (FlowKey, FlowStats)| t1.contains(x) ==> t0.contains(x) || x == items[k]
        }),
{
    let e = items[k];
    let t1 = t0.insert(p, e);
    // Members of t0 come from the first k items, so their keys differ from e's.
    assert forall|i: int| 0 <= i < t0.len() implies (#[trigger] t0[i]).0 != e.0 by {
        assert(items.subrange(0, k).contains(t0[i]));
        let j = choose|j: int| 0 <= j < k && items.subrange(0, k)[j] == t0[i];
        assert(items[j] == t0[i]);
    }
    assert forall|i: int| 0 <= i < t1.len() implies items.subrange(0, k + 1).contains(#[trigger] t1[i]) by {
        if i == p {
            assert(items.subrange(0, k + 1)[k] == e);
        } else {
            let i0 = if i < p { i } else { i - 1 };
            assert(t1[i] == t0[i0]);
            assert(items.subrange(0, k).contains(t0[i0]));
            let j = choose|j: int| 0 <= j < k && items.subrange(0, k)[j] == t0[i0];
            assert(items.subrange(0, k + 1)[j] == t0[i0]);
        }
    }
    assert forall|i: int, j: int| 0 <= i < j < t1.len() implies listed_before(#[trigger] t1[i], #[trigger] t1[j]) by {
        if i == p {
            assert(t1[j] == t0[j - 1]);
            lemma_orders(e, t0[p], t0[j - 1]);
            if j - 1 > p {
                assert(listed_before(t0[p], t0[j - 1]));
            }
        } else if j == p {
            assert(t1[i] == t0[i]);
            lemma_orders(e, t0[i], e);
        } else {
            let i0 = if i < p { i } else { i - 1 };
            let j0 = if j < p { j } else { j - 1 };
            assert(t1[i] == t0[i0]);
            assert(t1[j] == t0[j0]);
        }
    }
    assert forall|i: int| 0 <= i < t1.len() implies (#[trigger] t1[i]).0 != items[k].0 || t1[i] == items[k] by {
        if i != p {
            let i0 = if i < p { i } else { i - 1 };
            assert(t1[i] == t0[i0]);
        }
    }
    assert(t1[p] == e);
    assert forall|x: (FlowKey, FlowStats)| t0.contains(x) implies t1.contains(x) by {
        let i = choose|i: int| 0 <= i < t0.len() && t0[i] == x;
        let i1 = if i < p { i } else { i + 1 };
        assert(t1[i1] == x);
    }
    assert forall|x: (FlowKey, FlowStats)| t1.contains(x) implies t0.contains(x) || x == items[k] by {
        let i = choose|i: int| 0 <= i < t1.len() && t1[i] == x;
        if i != p {
            let i0 = if i < p { i } else { i - 1 };
            assert(t1[i] == t0[i0]);
        }
    }
}

/// While fewer than `n` flows are listed, a new flow just joins the list.
proof fn lemma_top_grow(items: Seq<(FlowKey, FlowStats)>, k: int, n: nat, t0: Seq<(FlowKey, FlowStats)>, t1: Seq<(FlowKey, FlowStats)>)
    requires
        0 <= k < items.len(),
        top_invariant(items, k, n, t0),
        t1.len() == t0.len() + 1,
        t1.len() <= n,
        forall|i: int| 0 <= i < t1.len() ==> items.subrange(0, k + 1).contains(#[trigger] t1[i]),
        forall|i: int, j: int| 0 <= i < j < t1.len() ==> listed_before(#[trigger] t1[i], #[trigger] t1[j]),
        exists|i: int| 0 <= i < t1.len() && t1[i] == items[k],
        forall|x: (FlowKey, FlowStats)| t0.contains(x) ==> t1.contains(x),
    ensures
        top_invariant(items, k + 1, n, t1),
{
    assert(k < n);
    assert forall|j: int| 0 <= j < k + 1 implies contains_key_of(t1, #[trigger] items[j].0) by {
        if j < k {
            assert(contains_key_of(t0, items[j].0));
            let i = choose|i: int| 0 <= i < t0.len() && t0[i].0 == items[j].0;
            assert(t0.contains(t0[i]));
            assert(t1.contains(t0[i]));
        }
    }
}

/// When the list is full, the flow that ranks lowest (the first of the run
/// with the fewest bytes) leaves it.
proof fn lemma_top_evict(items: Seq<(FlowKey, FlowStats)>, k: int, n: nat, t0: Seq<(FlowKey, FlowStats)>, t1: Seq<(FlowKey, FlowStats)>, w: int)
    requires
        0 <= k < items.len(),
        n > 0,
        forall|i: int, j: int|
            0 <= i < items.len() && 0 <= j < items.len() && i != j ==> (#[trigger] items[i]).0 != (
            #[trigger] items[j]).0,
        top_invariant(items, k, n, t0),
        t1.len() == t0.len() + 1,
        t1.len() > n,
        forall|i: int| 0 <= i < t1.len() ==> items.subrange(0, k + 1).contains(#[trigger] t1[i]),
        forall|i: int, j: int| 0 <= i < j < t1.len() ==> listed_before(#[trigger] t1[i], #[trigger] t1[j]),
        forall|i: int| 0 <= i < t1.len() ==> (#[trigger] t1[i]).0 != items[k].0 || t1[i] == items[k],
        exists|i: int| 0 <= i < t1.len() && t1[i] == items[k],
        forall|x: (FlowKey, FlowStats)| t0.contains(x) ==> t1.contains(x),
        forall|x: (FlowKey, FlowStats)| t1.contains(x) ==> t0.contains(x) || x == items[k],
        0 <= w < t1.len(),
        forall|i: int| w <= i < t1.len() ==> (#[trigger] t1[i]).1.total_bytes_spec() == t1.last().1.total_bytes_spec(),
        w == 0 || t1[w - 1].1.total_bytes_spec() != t1.last().1.total_bytes_spec(),
    ensures
        top_invariant(items, k + 1, n, t1.remove(w)),
{
    let t2 = t1.remove(w);
    let x = t1[w];
    // x ranks below every other listed flow.
    assert forall|i: int| 0 <= i < t1.len() && i != w implies ranks_below(x, #[trigger] t1[i]) by {
        if i < w {
            assert(listed_before(t1[i], t1[w - 1]) || i == w - 1);
            assert(listed_before(t1[w - 1], t1[w]));
            if i < w - 1 {
                lemma_orders(t1[i], t1[w - 1], t1[w]);
            }
        } else {
            assert(listed_before(t1[w], t1[i]));
        }
    }
    assert forall|i: int| 0 <= i < t2.len() implies ranks_below(x, #[trigger] t2[i]) by {
        let i1 = if i < w { i } else { i + 1 };
        assert(t2[i] == t1[i1]);
    }
    assert(t2.len() == min_nat(n, (k + 1) as nat));
    assert forall|i: int| 0 <= i < t2.len() implies items.subrange(0, k + 1).contains(#[trigger] t2[i]) by {
        let i1 = if i < w { i } else { i + 1 };
        assert(t2[i] == t1[i1]);
    }
    assert forall|i: int, j: int| 0 <= i < j < t2.len() implies listed_before(#[trigger] t2[i], #[trigger] t2[j]) by {
        let i1 = if i < w { i } else { i + 1 };
        let j1 = if j < w { j } else { j + 1 };
        assert(t2[i] == t1[i1]);
        assert(t2[j] == t1[j1]);
    }
    assert forall|j: int, i: int|
        0 <= j < k + 1 && 0 <= i < t2.len() && !contains_key_of(t2, items[j].0) implies ranks_below(
        #[trigger] items[j],
        #[trigger] t2[i],
    ) by {
        let i1 = if i < w { i } else { i + 1 };
        assert(t2[i] == t1[i1]);
        if items[j] == x {
        } else if j == k {
            // items[k] is listed in t1; if it is not in t2, it was x.
            let m = choose|m: int| 0 <= m < t1.len() && t1[m] == items[k];
            if m != w {
                let m2 = if m < w { m } else { m - 1 };
                assert(t2[m2] == t1[m]);
                assert(contains_key_of(t2, items[j].0));
            }
        } else {
            // items[j] with j < k: either it was listed in t0 (then it is in t1,
            // and being absent from t2 it is x), or it ranked below all of t0.
            if contains_key_of(t0, items[j].0) {
                let m0 = choose|m: int| 0 <= m < t0.len() && t0[m].0 == items[j].0;
                assert(t0.contains(t0[m0]));
                assert(t1.contains(t0[m0]));
                let m = choose|m: int| 0 <= m < t1.len() && t1[m] == t0[m0];
                assert(items.subrange(0, k).contains(t0[m0]));
                let q = choose|q: int| 0 <= q < items.subrange(0, k).len() && items.subrange(0, k)[q] == t0[m0];
                assert(items[q] == t0[m0]);
                assert(items[q].0 == items[j].0);
                assert(0 <= q < items.len() && 0 <= j < items.len());
                assert(q == j);
                if m != w {
                    let m2 = if m < w { m } else { m - 1 };
                    assert(t2[m2] == t1[m]);
                    assert(contains_key_of(t2, items[j].0));
                }
            } else {
                // ranks below every member of t0; t2 members are t0 members or items[k].
                let y = t1[i1];
                assert(t1.contains(y));
                if t0.contains(y) {
                    let m = choose|m: int| 0 <= m < t0.len() && t0[m] == y;
                    assert(ranks_below(items[j], t0[m]));
                } else {
                    assert(y == items[k]);
                    // x is a member of t0 (it is not items[k], which is listed in t2).
                    assert(t1.contains(x));
                    assert(t0.contains(x));
                    let m = choose|m: int| 0 <= m < t0.len() && t0[m] == x;
                    assert(ranks_below(items[j], x));
                    assert(ranks_below(x, y));
                    lemma_orders(items[j], x, y);
                }
            }
        }
    }
}

/// A table of flows with a bounded number of entries: when it is full, a
/// new flow evicts the least recently updated one.
pub struct FlowTable {
    flows: LruCache<FlowKeyBits, FlowStats>,
    idle_timeout_us: u64,
    evicted: u64,
    expired: u64,
}

impl FlowTable {
    /// The entries, most recently updated first.
    pub closed spec fn entries(&self) -> Seq<(FlowKeyBits, FlowStats)> {
        flow_entries(self.flows)
    }

    pub closed spec fn capacity(&self) -> nat {
        flow_cap(self.flows)
    }

    pub closed spec fn idle_timeout_spec(&self) -> u64 {
        self.idle_timeout_us
    }

    pub closed spec fn evicted_spec(&self) -> u64 {
        self.evicted
    }

    pub closed spec fn expired_spec(&self) -> u64 {
        self.expired
    }

    /// The entries with their keys as flow keys.
    pub open spec fn keyed(&self) -> Seq<(FlowKey, FlowStats)> {
        self.entries().map_values(|e: (FlowKeyBits, FlowStats)| (FlowKey::from_bits_spec(e.0), e.1))
    }

    pub open spec fn stats_of(&self, key: FlowKey) -> Option<FlowStats> {
        lookup(self.entries(), key.bits_spec())
    }

    /// No flow twice, at most `capacity` flows, each entry the bits of a key.
    pub open spec fn wf(&self) -> bool {
        &&& 0 < self.capacity() <= usize::MAX
        &&& lru_wf(self.entries(), self.capacity())
        &&& forall|i: int| 0 <= i < self.entries().len() ==> FlowKey::valid_bits(
            #[trigger] self.entries()[i].0,
        )
        &&& forall|i: int| 0 <= i < self.entries().len() ==> seen_in_order(#[trigger] self.entries()[i].1)
    }

    /// An empty table of at most `capacity` flows, expiring flows idle for
    /// `idle_timeout_us`.
    pub fn new(capacity: usize, idle_timeout_us: u64) -> (t: Self)
        requires
            capacity > 0,
        ensures
            t.wf(),
            t.entries().len() == 0,
            t.capacity() == capacity,
            t.idle_timeout_spec() == idle_timeout_us,
            t.evicted_spec() == 0,
            t.expired_spec() == 0,
    {
        FlowTable { flows: flow_cache_new(capacity), idle_timeout_us, evicted: 0, expired: 0 }
    }

    /// Counts a packet in its flow, creating the flow if it is new (and then
    /// evicting the least recently updated flow if the table is full). The
    /// flow becomes the most recently updated one. Returns its statistics.
    pub fn update(&mut self, u: &FlowUpdate) -> (stats: FlowStats)
        requires
            old(self).wf(),
            old(self).stats_of(u.key) matches Some(s) ==> can_bump(s, *u),
            old(self).stats_of(u.key) is None && old(self).entries().len() == old(self).capacity()
                ==> old(self).evicted_spec() < u64::MAX,
        ensures
            final(self).wf(),
            stats == updated_stats(old(self).entries(), *u),
            final(self).entries() == push_spec(
                old(self).entries(),
                old(self).capacity(),
                u.key.bits_spec(),
                stats,
            ).0,
            final(self).capacity() == old(self).capacity(),
            final(self).idle_timeout_spec() == old(self).idle_timeout_spec(),
            final(self).expired_spec() == old(self).expired_spec(),
            final(self).evicted_spec() == old(self).evicted_spec() + if old(self).stats_of(
                u.key,
            ) is None && old(self).entries().len() == old(self).capacity() {
                1int
            } else {
                0int
            },
    {
        let dir = u.direction.index();
        let key = u.key.bits();
        let ghost s0 = self.entries();
        proof {
            lemma_wf_after_push(s0, self.capacity(), key, updated_stats(s0, *u));
            lemma_bits(u.key);
        }
        if let Some(mut stats) = flow_cache_pop(&mut self.flows, &key) {
            if u.ts_us > stats.last_seen_us {
                stats.last_seen_us = u.ts_us;
            }
            stats.packets[dir] = stats.packets[dir] + 1;
            stats.bytes[dir] = stats.bytes[dir] + u.bytes as u64;
            stats.tcp_flags = stats.tcp_flags | u.tcp_flags;
            assert(stats.packets =~= bumped_stats(lookup(s0, key).unwrap(), *u).packets);
            assert(stats.bytes =~= bumped_stats(lookup(s0, key).unwrap(), *u).bytes);
            let r = flow_cache_push(&mut self.flows, key, stats);
            proof {
                self.lemma_valid_after_push(s0, key, stats);
            }
            return stats;
        }
        let mut stats = FlowStats {
            first_seen_us: u.ts_us,
            last_seen_us: u.ts_us,
            packets: [0, 0],
            bytes: [0, 0],
            tcp_flags: u.tcp_flags,
        };
        stats.packets[dir] = 1;
        stats.bytes[dir] = u.bytes as u64;
        assert(stats.packets =~= fresh_stats(*u).packets);
        assert(stats.bytes =~= fresh_stats(*u).bytes);
        if flow_cache_push(&mut self.flows, key, stats).is_some() {
            self.evicted = self.evicted + 1;
        }
        proof {
            self.lemma_valid_after_push(s0, key, stats);
        }
        stats
    }

    proof fn lemma_valid_after_push(&self, s0: Seq<(FlowKeyBits, FlowStats)>, key: FlowKeyBits, v: FlowStats)
        requires
            forall|i: int| 0 <= i < s0.len() ==> FlowKey::valid_bits(#[trigger] s0[i].0),
            forall|i: int| 0 <= i < s0.len() ==> seen_in_order(#[trigger] s0[i].1),
            FlowKey::valid_bits(key),
            seen_in_order(v),
            lru_wf(s0, self.capacity()),
            self.capacity() > 0,
            self.entries() == push_spec(s0, self.capacity(), key, v).0,
        ensures
            forall|i: int| 0 <= i < self.entries().len() ==> FlowKey::valid_bits(
                #[trigger] self.entries()[i].0,
            ),
            forall|i: int| 0 <= i < self.entries().len() ==> seen_in_order(#[trigger] self.entries()[i].1),
    {
        let e = self.entries();
        lemma_wf_after_push(s0, self.capacity(), key, v);
        let w = without_key(s0, key);
        assert forall|i: int| 0 <= i < e.len() implies FlowKey::valid_bits(#[trigger] e[i].0) && seen_in_order(e[i].1) by {
            if i > 0 {
                if has_key(s0, key) {
                    let idx = key_index(s0, key);
                    assert(e[i] == w[i - 1]);
                    if i - 1 < idx {
                        assert(w[i - 1] == s0[i - 1]);
                    } else {
                        assert(w[i - 1] == s0[i]);
                    }
                } else {
                    assert(e[i] == s0[i - 1]);
                }
            }
        }
    }

    /// Removes the least recently updated flows for as long as they have
    /// been idle for at least the idle timeout at `now_us`; returns how many
    /// were removed.
    pub fn expire(&mut self, now_us: u64) -> (removed: usize)
        requires
            old(self).wf(),
            forall|i: int|
                0 <= i < old(self).entries().len() && i + 1 >= expire_spec(
                    old(self).entries(),
                    now_us,
                    old(self).idle_timeout_spec(),
                ).len() ==> #[trigger] old(self).entries()[i].1.last_seen_us + old(self).idle_timeout_spec()
                    <= u64::MAX,
            old(self).expired_spec() + old(self).entries().len() <= u64::MAX,
        ensures
            final(self).wf(),
            final(self).entries() == expire_spec(old(self).entries(), now_us, old(self).idle_timeout_spec()),
            removed == old(self).entries().len() - final(self).entries().len(),
            final(self).expired_spec() == old(self).expired_spec() + removed,
            final(self).capacity() == old(self).capacity(),
            final(self).idle_timeout_spec() == old(self).idle_timeout_spec(),
            final(self).evicted_spec() == old(self).evicted_spec(),
    {
        let ghost s0 = self.entries();
        let ghost goal = expire_spec(s0, now_us, self.idle_timeout_us);
        proof {
            lemma_expire_len(s0, now_us, self.idle_timeout_us);
        }
        let mut removed: usize = 0;
        loop
            invariant
                self.wf(),
                self.idle_timeout_spec() == old(self).idle_timeout_spec(),
                self.capacity() == old(self).capacity(),
                self.evicted_spec() == old(self).evicted_spec(),
                self.expired_spec() == old(self).expired_spec(),
                goal == expire_spec(old(self).entries(), now_us, old(self).idle_timeout_spec()),
                expire_spec(self.entries(), now_us, self.idle_timeout_us) == goal,
                removed + self.entries().len() == old(self).entries().len(),
                old(self).entries().len() <= usize::MAX,
                self.entries() == old(self).entries().subrange(0, self.entries().len() as int),
                goal.len() <= self.entries().len(),
                forall|i: int|
                    0 <= i < old(self).entries().len() && i + 1 >= goal.len() ==> #[trigger] old(
                        self,
                    ).entries()[i].1.last_seen_us + old(self).idle_timeout_spec() <= u64::MAX,
            ensures
                self.wf(),
                self.entries() == goal,
                removed + self.entries().len() == old(self).entries().len(),
                self.idle_timeout_spec() == old(self).idle_timeout_spec(),
                self.capacity() == old(self).capacity(),
                self.evicted_spec() == old(self).evicted_spec(),
                self.expired_spec() == old(self).expired_spec(),
            decreases self.entries().len(),
        {
            let last = flow_cache_peek_lru(&self.flows);
            match last {
                None => {
                    break;
                },
                Some((_, stats)) => {
                    let ghost n = self.entries().len();
                    assert(self.entries().last() == old(self).entries()[n - 1]);
                    if stats.last_seen_us + self.idle_timeout_us > now_us {
                        break;
                    }
                    let ghost before = self.entries();
                    let _ = flow_cache_pop_lru(&mut self.flows);
                    removed += 1;
                    proof {
                        assert(self.entries() =~= old(self).entries().subrange(
                            0,
                            self.entries().len() as int,
                        ));
                        lemma_expire_len(self.entries(), now_us, self.idle_timeout_us);
                        assert forall|i: int| 0 <= i < self.entries().len() implies FlowKey::valid_bits(
                            #[trigger] self.entries()[i].0,
                        ) && seen_in_order(self.entries()[i].1) by {
                            assert(self.entries()[i] == before[i]);
                        }
                    }
                },
            }
        }
        self.expired = self.expired + removed as u64;
        removed
    }

    /// The statistics of `key`'s flow, without touching its recency.
    pub fn get(&self, key: &FlowKey) -> (r: Option<FlowStats>)
        ensures
            r == self.stats_of(*key),
    {
        flow_cache_peek(&self.flows, &key.bits())
    }

    /// All flows, most recently updated first.
    pub fn iter(&self) -> (v: Vec<(FlowKey, FlowStats)>)
        requires
            self.wf(),
        ensures
            v@ == self.keyed(),
            forall|i: int| 0 <= i < v@.len() ==> seen_in_order(#[trigger] v@[i].1),
    {
        let items = flow_cache_items(&self.flows);
        let mut out: Vec<(FlowKey, FlowStats)> = Vec::new();
        let mut i: usize = 0;
        while i < items.len()
            invariant
                self.wf(),
                items@ == self.entries(),
                i <= items@.len(),
                out@ == self.keyed().subrange(0, i as int),
            decreases items@.len() - i,
        {
            let (bits, stats) = items[i];
            assert(FlowKey::valid_bits(self.entries()[i as int].0));
            out.push((FlowKey::from_bits(bits), stats));
            i += 1;
            assert(out@ =~= self.keyed().subrange(0, i as int));
        }
        assert(self.keyed().subrange(0, i as int) =~= self.keyed());
        out
    }

    /// The number of flows.
    pub fn len(&self) -> (n: usize)
        ensures
            n == self.entries().len(),
    {
        flow_cache_len(&self.flows)
    }

    pub fn is_empty(&self) -> (b: bool)
        ensures
            b == (self.entries().len() == 0),
    {
        flow_cache_len(&self.flows) == 0
    }

    /// Flows evicted because the table was full.
    pub fn evicted(&self) -> (n: u64)
        ensures
            n == self.evicted_spec(),
    {
        self.evicted
    }

    /// Flows removed because they were idle.
    pub fn expired(&self) -> (n: u64)
        ensures
            n == self.expired_spec(),
    {
        self.expired
    }

    /// The idle timeout the table was made with.
    pub fn idle_timeout_us(&self) -> (t: u64)
        ensures
            t == self.idle_timeout_spec(),
    {
        self.idle_timeout_us
    }

    /// The `n` flows with the most bytes, the most first; among flows with
    /// equal bytes the greater keys are the ones kept, and they are listed
    /// by ascending key.
    pub fn top_by_bytes(&self, n: usize) -> (top: Vec<(FlowKey, FlowStats)>)
        requires
            self.wf(),
            forall|i: int|
                0 <= i < self.entries().len() ==> (#[trigger] self.entries()[i]).1.total_bytes_spec()
                    <= u64::MAX,
        ensures
            top_spec(self.keyed(), n as nat, top@),
    {
        if n == 0 {
            let empty: Vec<(FlowKey, FlowStats)> = Vec::new();
            assert(top_spec(self.keyed(), 0, empty@));
            return empty;
        }
        let items = self.iter();
        proof {
            self.lemma_keyed_distinct();
            assert forall|i: int| 0 <= i < items@.len() implies (#[trigger] items@[i]).1.total_bytes_spec()
                <= u64::MAX by {
                assert(items@[i].1 == self.entries()[i].1);
            }
        }
        let mut top: Vec<(FlowKey, FlowStats)> = Vec::new();
        let mut k: usize = 0;
        while k < items.len()
            invariant
                0 < n,
                items@ == self.keyed(),
                k <= items@.len(),
                forall|i: int, j: int|
                    0 <= i < items@.len() && 0 <= j < items@.len() && i != j ==> (#[trigger] items@[i]).0
                        != (#[trigger] items@[j]).0,
                forall|i: int|
                    0 <= i < items@.len() ==> (#[trigger] items@[i]).1.total_bytes_spec() <= u64::MAX,
                top_invariant(items@, k as int, n as nat, top@),
            decreases items@.len() - k,
        {
            let e = items[k];
            let eb = e.1.total_bytes();
            let ghost t0 = top@;
            proof {
                assert forall|i: int| 0 <= i < t0.len() implies (#[trigger] t0[i]).1.total_bytes_spec()
                    <= u64::MAX by {
                    assert(items@.subrange(0, k as int).contains(t0[i]));
                }
            }
            let mut p: usize = 0;
            while p < top.len()
                invariant
                    top@ == t0,
                    p <= top@.len(),
                    e.1.total_bytes_spec() == eb,
                    forall|i: int|
                        0 <= i < top@.len() ==> (#[trigger] top@[i]).1.total_bytes_spec() <= u64::MAX,
                    forall|i: int| 0 <= i < p ==> !listed_before(e, #[trigger] top@[i]),
                ensures
                    top@ == t0,
                    p <= top@.len(),
                    forall|i: int| 0 <= i < p ==> !listed_before(e, #[trigger] top@[i]),
                    p == top@.len() || listed_before(e, top@[p as int]),
                decreases top@.len() - p,
            {
                let tb = top[p].1.total_bytes();
                if eb > tb || (eb == tb && e.0.less_than(&top[p].0)) {
                    break;
                }
                p += 1;
            }
            top.insert(p, e);
            let ghost t1 = top@;
            proof {
                lemma_top_insert(items@, k as int, n as nat, t0, p as int);
            }
            if top.len() > n {
                let last = top.len() - 1;
                let lb = top[last].1.total_bytes();
                let mut w = last;
                while w > 0 && top[w - 1].1.total_bytes() == lb
                    invariant
                        top@ == t1,
                        w <= last,
                        last == t1.len() - 1,
                        lb == t1[last as int].1.total_bytes_spec(),
                        forall|i: int|
                            0 <= i < t1.len() ==> (#[trigger] t1[i]).1.total_bytes_spec() <= u64::MAX,
                        forall|i: int| w <= i <= last ==> (#[trigger] t1[i]).1.total_bytes_spec() == lb,
                    ensures
                        w <= last,
                        forall|i: int| w <= i <= last ==> (#[trigger] t1[i]).1.total_bytes_spec() == lb,
                        w == 0 || t1[w - 1].1.total_bytes_spec() != lb,
                    decreases w,
                {
                    w -= 1;
                }
                top.remove(w);
                proof {
                    lemma_top_evict(items@, k as int, n as nat, t0, t1, w as int);
                }
            } else {
                proof {
                    lemma_top_grow(items@, k as int, n as nat, t0, t1);
                }
            }
            k += 1;
        }
        proof {
            assert(items@.subrange(0, k as int) =~= items@);
            let t = top@;
            assert forall|i: int| 0 <= i < t.len() implies items@.contains(#[trigger] t[i]) by {
                assert(items@.subrange(0, k as int).contains(t[i]));
            }
        }
        top
    }

    /// Flows of the table have distinct keys.
    proof fn lemma_keyed_distinct(&self)
        requires
            self.wf(),
        ensures
            forall|i: int, j: int|
                0 <= i < self.keyed().len() && 0 <= j < self.keyed().len() && i != j ==> (
                #[trigger] self.keyed()[i]).0 != (#[trigger] self.keyed()[j]).0,
    {
        assert forall|i: int, j: int|
            0 <= i < self.keyed().len() && 0 <= j < self.keyed().len() && i != j implies (
            #[trigger] self.keyed()[i]).0 != (#[trigger] self.keyed()[j]).0 by {
            let bi = self.entries()[i].0;
            let bj = self.entries()[j].0;
            assert(FlowKey::valid_bits(bi));
            assert(FlowKey::valid_bits(bj));
            let ki = FlowKey::from_bits_spec(bi);
            let kj = FlowKey::from_bits_spec(bj);
            assert(ki.bits_spec() == bi);
            assert(kj.bits_spec() == bj);
        }
    }
}

} // verus!
