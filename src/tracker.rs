use vstd::prelude::*;

use crate::address::XdpIpAddress;
use crate::counters::{
    cap, delta, get_throughput_map, merged_snapshot, saturating_add, saturating_delta,
    HostCounter, RttTrackingEntry,
};

verus! {

/// What the engine knows of one address.
#[derive(Clone, Copy, Debug)]
pub struct ThroughputEntry {
    pub address: XdpIpAddress,
    pub first_cycle: u64,
    pub bytes: (u64, u64),
    pub packets: (u64, u64),
    pub prev_bytes: (u64, u64),
    pub prev_packets: (u64, u64),
    pub bytes_per_second: (u64, u64),
    pub packets_per_second: (u64, u64),
    pub tc_handle: u32,
    pub recent_rtt_data: [u32; 60],
}

/// An entry at the start of a cycle: the cumulative counters become the
/// previous snapshot and the rates start from zero.
pub open spec fn begin(e: ThroughputEntry) -> ThroughputEntry {
    ThroughputEntry {
        prev_bytes: e.bytes,
        prev_packets: e.packets,
        bytes_per_second: (0, 0),
        packets_per_second: (0, 0),
        ..e
    }
}

/// An address seen for the first time in cycle `c`.
pub open spec fn blank(k: XdpIpAddress, c: u64) -> ThroughputEntry {
    ThroughputEntry {
        address: k,
        first_cycle: c,
        bytes: (0, 0),
        packets: (0, 0),
        prev_bytes: (0, 0),
        prev_packets: (0, 0),
        bytes_per_second: (0, 0),
        packets_per_second: (0, 0),
        tc_handle: 0,
        recent_rtt_data: vstd::array::spec_array_fill_for_copy_type::<u32, 60>(0u32),
    }
}

/// An entry after the merged counter `h` was read for it in cycle `c`. The
/// counters are cumulative and replace the old ones. An entry older than the
/// cycle gets the difference to its previous snapshot as its rate (zero where
/// the counter went down); an entry of this cycle keeps a rate of zero.
pub open spec fn observe(e: ThroughputEntry, h: HostCounter, c: u64) -> ThroughputEntry {
    let bytes = (h.download_bytes, h.upload_bytes);
    let packets = (h.download_packets, h.upload_packets);
    let handle = if h.tc_handle != 0 {
        h.tc_handle
    } else {
        e.tc_handle
    };
    if e.first_cycle < c {
        ThroughputEntry {
            bytes: bytes,
            packets: packets,
            bytes_per_second: (delta(bytes.0, e.prev_bytes.0), delta(bytes.1, e.prev_bytes.1)),
            packets_per_second: (
                delta(packets.0, e.prev_packets.0),
                delta(packets.1, e.prev_packets.1),
            ),
            tc_handle: handle,
            ..e
        }
    } else {
        ThroughputEntry {
            bytes: bytes,
            packets: packets,
            prev_bytes: bytes,
            prev_packets: packets,
            bytes_per_second: (0, 0),
            packets_per_second: (0, 0),
            tc_handle: handle,
            ..e
        }
    }
}

/// An entry after every record of the snapshot `m` with its address was
/// read, in order.
pub open spec fn fold_counters(
    e: ThroughputEntry,
    m: Seq<(XdpIpAddress, HostCounter)>,
    c: u64,
) -> ThroughputEntry
    decreases m.len(),
{
    if m.len() == 0 {
        e
    } else {
        let p = fold_counters(e, m.drop_last(), c);
        if m.last().0.0@ == e.address.0@ {
            observe(p, m.last().1, c)
        } else {
            p
        }
    }
}

/// An entry after the latency records `r` were read: each one with its
/// address and fresh samples replaces the ring; the last one wins.
pub open spec fn fold_rtt(e: ThroughputEntry, r: Seq<(XdpIpAddress, RttTrackingEntry)>) -> ThroughputEntry
    decreases r.len(),
{
    if r.len() == 0 {
        e
    } else {
        let p = fold_rtt(e, r.drop_last());
        if r.last().0.0@ == e.address.0@ && r.last().1.has_fresh_data != 0 {
            ThroughputEntry { recent_rtt_data: r.last().1.rtt, ..p }
        } else {
            p
        }
    }
}

/// Rate `k` of an entry: 0 bytes down, 1 bytes up, 2 packets down, 3 packets up.
pub open spec fn rate_field(e: ThroughputEntry, k: int) -> u64 {
    if k == 0 {
        e.bytes_per_second.0
    } else if k == 1 {
        e.bytes_per_second.1
    } else if k == 2 {
        e.packets_per_second.0
    } else {
        e.packets_per_second.1
    }
}

/// The exact sum of rate `k` over entries.
pub open spec fn rate_total(s: Seq<ThroughputEntry>, k: int) -> int
    decreases s.len(),
{
    if s.len() == 0 {
        0
    } else {
        rate_total(s.drop_last(), k) + rate_field(s.last(), k)
    }
}

/// Some entry of `s` has the key bytes `k`.
pub open spec fn has_key(s: Seq<ThroughputEntry>, k: Seq<u8>) -> bool {
    exists|j: int| 0 <= j < s.len() && (#[trigger] s[j]).address.0@ == k
}

/// No two entries share an address.
pub open spec fn keys_unique(s: Seq<ThroughputEntry>) -> bool {
    forall|i: int, j: int|
        0 <= i < s.len() && 0 <= j < s.len() && i != j ==> (#[trigger] s[i]).address.0@ != (
        #[trigger] s[j]).address.0@
}

proof fn lemma_fold_counters_keeps(e: ThroughputEntry, m: Seq<(XdpIpAddress, HostCounter)>, c: u64)
    ensures
        fold_counters(e, m, c).address == e.address,
        fold_counters(e, m, c).first_cycle == e.first_cycle,
    decreases m.len(),
{
    if m.len() > 0 {
        lemma_fold_counters_keeps(e, m.drop_last(), c);
    }
}

proof fn lemma_fold_counters_absent(e: ThroughputEntry, m: Seq<(XdpIpAddress, HostCounter)>, c: u64)
    requires
        forall|t: int| 0 <= t < m.len() ==> (#[trigger] m[t]).0.0@ != e.address.0@,
    ensures
        fold_counters(e, m, c) == e,
    decreases m.len(),
{
    if m.len() > 0 {
        lemma_fold_counters_absent(e, m.drop_last(), c);
    }
}

proof fn lemma_fold_rtt_keeps(e: ThroughputEntry, r: Seq<(XdpIpAddress, RttTrackingEntry)>)
    ensures
        fold_rtt(e, r).address == e.address,
    decreases r.len(),
{
    if r.len() > 0 {
        lemma_fold_rtt_keeps(e, r.drop_last());
    }
}

/// Entries with the same addresses, position by position, keep their
/// addresses unique.
proof fn lemma_same_addresses_unique(a: Seq<ThroughputEntry>, b: Seq<ThroughputEntry>)
    requires
        keys_unique(a),
        a.len() == b.len(),
        forall|i: int| 0 <= i < b.len() ==> (#[trigger] b[i]).address == a[i].address,
    ensures
        keys_unique(b),
{
    assert forall|x: int, y: int|
        0 <= x < b.len() && 0 <= y < b.len() && x != y implies (#[trigger] b[x]).address.0@ != (
    #[trigger] b[y]).address.0@ by {
        assert(b[x].address == a[x].address);
        assert(b[y].address == a[y].address);
    }
}

proof fn lemma_rate_total_nonneg(s: Seq<ThroughputEntry>, k: int)
    ensures
        rate_total(s, k) >= 0,
    decreases s.len(),
{
    if s.len() > 0 {
        lemma_rate_total_nonneg(s.drop_last(), k);
    }
}

fn begin_entry(e: ThroughputEntry) -> (r: ThroughputEntry)
    ensures
        r == begin(e),
{
    ThroughputEntry {
        prev_bytes: e.bytes,
        prev_packets: e.packets,
        bytes_per_second: (0, 0),
        packets_per_second: (0, 0),
        ..e
    }
}

fn observe_entry(e: ThroughputEntry, h: HostCounter, c: u64) -> (r: ThroughputEntry)
    ensures
        r == observe(e, h, c),
{
    let bytes = (h.download_bytes, h.upload_bytes);
    let packets = (h.download_packets, h.upload_packets);
    let handle = if h.tc_handle != 0 {
        h.tc_handle
    } else {
        e.tc_handle
    };
    if e.first_cycle < c {
        ThroughputEntry {
            bytes: bytes,
            packets: packets,
            bytes_per_second: (
                saturating_delta(bytes.0, e.prev_bytes.0),
                saturating_delta(bytes.1, e.prev_bytes.1),
            ),
            packets_per_second: (
                saturating_delta(packets.0, e.prev_packets.0),
                saturating_delta(packets.1, e.prev_packets.1),
            ),
            tc_handle: handle,
            ..e
        }
    } else {
        ThroughputEntry {
            bytes: bytes,
            packets: packets,
            prev_bytes: bytes,
            prev_packets: packets,
            bytes_per_second: (0, 0),
            packets_per_second: (0, 0),
            tc_handle: handle,
            ..e
        }
    }
}

fn blank_entry(k: XdpIpAddress, c: u64) -> (r: ThroughputEntry)
    ensures
        r == blank(k, c),
{
    ThroughputEntry {
        address: k,
        first_cycle: c,
        bytes: (0, 0),
        packets: (0, 0),
        prev_bytes: (0, 0),
        prev_packets: (0, 0),
        bytes_per_second: (0, 0),
        packets_per_second: (0, 0),
        tc_handle: 0,
        recent_rtt_data: [0u32; 60],
    }
}

/// The per-address table of the engine and its aggregate rates, valid for
/// the cycle that computed them. No two entries share an address.
pub struct ThroughputTracker {
    pub cycle: u64,
    pub raw_data: Vec<ThroughputEntry>,
    pub bytes_per_second: (u64, u64),
    pub packets_per_second: (u64, u64),
}

impl ThroughputTracker {
    pub open spec fn wf(&self) -> bool {
        keys_unique(self.raw_data@)
    }

    /// An engine that has seen nothing, before its first cycle.
    pub fn new() -> (r: ThroughputTracker)
        ensures
            r.wf(),
            r.cycle == 0,
            r.raw_data@.len() == 0,
            r.bytes_per_second == (0u64, 0u64),
            r.packets_per_second == (0u64, 0u64),
    {
        ThroughputTracker {
            cycle: 0,
            raw_data: Vec::new(),
            bytes_per_second: (0, 0),
            packets_per_second: (0, 0),
        }
    }

    /// The index of the entry for an address, if there is one.
    pub fn find(&self, key: &XdpIpAddress) -> (r: Option<usize>)
        ensures
            match r {
                Some(j) => j < self.raw_data@.len() && self.raw_data@[j as int].address.0@
                    == key.0@,
                None => !has_key(self.raw_data@, key.0@),
            },
    {
        let mut j: usize = 0;
        while j < self.raw_data.len()
            invariant
                j <= self.raw_data@.len(),
                forall|t: int| 0 <= t < j ==> (#[trigger] self.raw_data@[t]).address.0@ != key.0@,
            decreases self.raw_data@.len() - j,
        {
            if self.raw_data[j].address.same_key(key) {
                return Some(j);
            }
            j = j + 1;
        }
        None
    }

    /// Runs one cycle on the per-CPU traffic snapshot and the latency
    /// snapshot that were read for it. Every known entry starts the cycle
    /// from its current counters; each address of the snapshot has its
    /// shards summed into its entry, which is created where it is new; the
    /// fresh latency samples replace the rings; the aggregate rates become
    /// the sums of the entries' rates; the cycle counter advances.
    pub fn tick(
        &mut self,
        per_cpu: &Vec<(XdpIpAddress, Vec<HostCounter>)>,
        rtt: &Vec<(XdpIpAddress, RttTrackingEntry)>,
    )
        requires
            old(self).wf(),
            old(self).cycle < u64::MAX,
        ensures
            final(self).wf(),
            final(self).cycle == old(self).cycle + 1,
            final(self).raw_data@.len() >= old(self).raw_data@.len(),
            forall|j: int|
                0 <= j < old(self).raw_data@.len() ==> #[trigger] final(self).raw_data@[j]
                    == fold_rtt(
                    fold_counters(
                        begin(old(self).raw_data@[j]),
                        merged_snapshot(per_cpu@),
                        old(self).cycle,
                    ),
                    rtt@,
                ),
            forall|j: int|
                old(self).raw_data@.len() <= j < final(self).raw_data@.len() ==> {
                    &&& #[trigger] final(self).raw_data@[j] == fold_rtt(
                        fold_counters(
                            blank(final(self).raw_data@[j].address, old(self).cycle),
                            merged_snapshot(per_cpu@),
                            old(self).cycle,
                        ),
                        rtt@,
                    )
                    &&& !has_key(old(self).raw_data@, final(self).raw_data@[j].address.0@)
                    &&& exists|t: int|
                        0 <= t < per_cpu@.len() && (#[trigger] per_cpu@[t]).0.0@
                            == final(self).raw_data@[j].address.0@
                },
            forall|t: int|
                0 <= t < per_cpu@.len() ==> has_key(
                    final(self).raw_data@,
                    (#[trigger] per_cpu@[t]).0.0@,
                ),
            final(self).bytes_per_second == (
                cap(rate_total(final(self).raw_data@, 0)),
                cap(rate_total(final(self).raw_data@, 1)),
            ),
            final(self).packets_per_second == (
                cap(rate_total(final(self).raw_data@, 2)),
                cap(rate_total(final(self).raw_data@, 3)),
            ),
    {
        let m = get_throughput_map(per_cpu);
        let c = self.cycle;
        let ghost old_data = self.raw_data@;
        let old_len = self.raw_data.len();

        // Every entry starts the cycle from its current counters.
        let mut i: usize = 0;
        while i < old_len
            invariant
                old_len == old_data.len(),
                self.raw_data@.len() == old_len,
                i <= old_len,
                forall|j: int| 0 <= j < i ==> #[trigger] self.raw_data@[j] == begin(old_data[j]),
                forall|j: int| i <= j < old_len ==> #[trigger] self.raw_data@[j] == old_data[j],
            decreases old_len - i,
        {
            let e = self.raw_data[i];
            self.raw_data.set(i, begin_entry(e));
            i = i + 1;
        }
        let ghost started = self.raw_data@;
        proof {
            lemma_same_addresses_unique(old_data, started);
        }

        // Read the merged counters into the entries.
        let mut i: usize = 0;
        while i < m.len()
            invariant
                m@ == merged_snapshot(per_cpu@),
                started.len() == old_len,
                old_len == old_data.len(),
                i <= m@.len(),
                self.raw_data@.len() >= old_len,
                keys_unique(self.raw_data@),
                forall|j: int|
                    0 <= j < old_len ==> #[trigger] self.raw_data@[j] == fold_counters(
                        started[j],
                        m@.take(i as int),
                        c,
                    ),
                forall|j: int|
                    old_len <= j < self.raw_data@.len() ==> {
                        &&& #[trigger] self.raw_data@[j] == fold_counters(
                            blank(self.raw_data@[j].address, c),
                            m@.take(i as int),
                            c,
                        )
                        &&& !has_key(old_data, self.raw_data@[j].address.0@)
                        &&& exists|t: int|
                            0 <= t < i && (#[trigger] m@[t]).0.0@
                                == self.raw_data@[j].address.0@
                    },
                forall|t: int| 0 <= t < i ==> has_key(self.raw_data@, (#[trigger] m@[t]).0.0@),
                forall|j: int| 0 <= j < old_len ==> (#[trigger] started[j]).address == old_data[j].address,
            decreases m@.len() - i,
        {
            let key = m[i].0;
            let h = m[i].1;
            let ghost before = self.raw_data@;
            let ghost mt = m@.take(i as int);
            let ghost mt1 = m@.take(i as int + 1);
            proof {
                assert(mt1.drop_last() =~= mt);
                assert(mt1.last() == m@[i as int]);
            }
            match self.find(&key) {
                Some(j) => {
                    let e = self.raw_data[j];
                    self.raw_data.set(j, observe_entry(e, h, c));
                    proof {
                        assert forall|x: int|
                            0 <= x < self.raw_data@.len() && x != j implies #[trigger] self.raw_data@[x] == before[x] by {}
                        assert forall|x: int| 0 <= x < old_len implies #[trigger] self.raw_data@[x]
                            == fold_counters(started[x], mt1, c) by {
                            lemma_fold_counters_keeps(started[x], mt, c);
                            if x != j {
                                assert(before[x].address.0@ != before[j as int].address.0@);
                            }
                        }
                        assert forall|x: int| old_len <= x < self.raw_data@.len() implies {
                            &&& #[trigger] self.raw_data@[x] == fold_counters(
                                blank(self.raw_data@[x].address, c),
                                mt1,
                                c,
                            )
                            &&& !has_key(old_data, self.raw_data@[x].address.0@)
                            &&& exists|t: int|
                                0 <= t < i + 1 && (#[trigger] m@[t]).0.0@
                                    == self.raw_data@[x].address.0@
                        } by {
                            lemma_fold_counters_keeps(blank(before[x].address, c), mt, c);
                            if x != j {
                                assert(before[x].address.0@ != before[j as int].address.0@);
                            }
                            assert(self.raw_data@[x].address == before[x].address);
                            let t = choose|t: int|
                                0 <= t < i && (#[trigger] m@[t]).0.0@ == before[x].address.0@;
                            assert(0 <= t < i + 1 && m@[t].0.0@ == self.raw_data@[x].address.0@);
                        }
                        assert forall|t: int| 0 <= t < i + 1 implies has_key(
                            self.raw_data@,
                            (#[trigger] m@[t]).0.0@,
                        ) by {
                            if t < i {
                                let y = choose|y: int|
                                    0 <= y < before.len() && (#[trigger] before[y]).address.0@
                                        == m@[t].0.0@;
                                if y == j {
                                    lemma_fold_counters_keeps(before[y], seq![mt1.last()], c);
                                }
                                assert(self.raw_data@[y].address == before[y].address);
                            } else {
                                assert(self.raw_data@[j as int].address == before[j as int].address);
                            }
                        }
                        assert forall|x: int| 0 <= x < self.raw_data@.len() implies (
                        #[trigger] self.raw_data@[x]).address == before[x].address by {}
                        lemma_same_addresses_unique(before, self.raw_data@);
                    }
                },
                None => {
                    let fresh = observe_entry(blank_entry(key, c), h, c);
                    self.raw_data.push(fresh);
                    proof {
                        let n = before.len() as int;
                        assert forall|t: int| 0 <= t < mt.len() implies (#[trigger] mt[t]).0.0@
                            != key.0@ by {
                            assert(has_key(before, m@[t].0.0@));
                        }
                        lemma_fold_counters_absent(blank(key, c), mt, c);
                        assert(!has_key(old_data, key.0@)) by {
                            if has_key(old_data, key.0@) {
                                let y = choose|y: int|
                                    0 <= y < old_data.len() && (#[trigger] old_data[y]).address.0@
                                        == key.0@;
                                lemma_fold_counters_keeps(started[y], mt, c);
                                assert(before[y].address.0@ == key.0@);
                            }
                        }
                        assert forall|x: int| 0 <= x < old_len implies #[trigger] self.raw_data@[x]
                            == fold_counters(started[x], mt1, c) by {
                            lemma_fold_counters_keeps(started[x], mt, c);
                            assert(before[x].address.0@ != key.0@);
                        }
                        assert forall|x: int| old_len <= x < self.raw_data@.len() implies {
                            &&& #[trigger] self.raw_data@[x] == fold_counters(
                                blank(self.raw_data@[x].address, c),
                                mt1,
                                c,
                            )
                            &&& !has_key(old_data, self.raw_data@[x].address.0@)
                            &&& exists|t: int|
                                0 <= t < i + 1 && (#[trigger] m@[t]).0.0@
                                    == self.raw_data@[x].address.0@
                        } by {
                            if x < n {
                                lemma_fold_counters_keeps(blank(before[x].address, c), mt, c);
                                assert(before[x].address.0@ != key.0@);
                                let t = choose|t: int|
                                    0 <= t < i && (#[trigger] m@[t]).0.0@
                                        == before[x].address.0@;
                                assert(0 <= t < i + 1 && m@[t].0.0@
                                    == self.raw_data@[x].address.0@);
                            } else {
                                assert(self.raw_data@[x] == fresh);
                                assert(0 <= i < i + 1 && m@[i as int].0.0@
                                    == self.raw_data@[x].address.0@);
                            }
                        }
                        assert forall|t: int| 0 <= t < i + 1 implies has_key(
                            self.raw_data@,
                            (#[trigger] m@[t]).0.0@,
                        ) by {
                            if t < i {
                                let y = choose|y: int|
                                    0 <= y < before.len() && (#[trigger] before[y]).address.0@
                                        == m@[t].0.0@;
                                assert(self.raw_data@[y] == before[y]);
                            } else {
                                assert(self.raw_data@[n] == fresh);
                            }
                        }
                        assert(keys_unique(self.raw_data@)) by {
                            assert forall|a: int, b: int|
                                0 <= a < self.raw_data@.len() && 0 <= b < self.raw_data@.len()
                                    && a != b implies (#[trigger] self.raw_data@[a]).address.0@
                                != (#[trigger] self.raw_data@[b]).address.0@ by {
                                if a < n && b < n {
                                    assert(self.raw_data@[a] == before[a]);
                                    assert(self.raw_data@[b] == before[b]);
                                } else if a < n {
                                    assert(self.raw_data@[a] == before[a]);
                                } else if b < n {
                                    assert(self.raw_data@[b] == before[b]);
                                }
                            }
                        }
                    }
                },
            }
            i = i + 1;
        }
        proof {
            assert(m@.take(m@.len() as int) =~= m@);
        }
        let ghost counted = self.raw_data@;

        // Fresh latency samples replace the rings.
        let mut i: usize = 0;
        while i < rtt.len()
            invariant
                i <= rtt@.len(),
                self.raw_data@.len() == counted.len(),
                keys_unique(counted),
                forall|j: int|
                    0 <= j < counted.len() ==> #[trigger] self.raw_data@[j] == fold_rtt(
                        counted[j],
                        rtt@.take(i as int),
                    ),
            decreases rtt@.len() - i,
        {
            let key = rtt[i].0;
            let fresh = rtt[i].1.has_fresh_data != 0;
            let ghost before = self.raw_data@;
            proof {
                assert(rtt@.take(i as int + 1).drop_last() =~= rtt@.take(i as int));
            }
            if fresh {
                match self.find(&key) {
                    Some(j) => {
                        let mut e = self.raw_data[j];
                        e.recent_rtt_data = rtt[i].1.rtt;
                        self.raw_data.set(j, e);
                        proof {
                            assert forall|x: int| 0 <= x < counted.len() implies #[trigger] self.raw_data@[x]
                                == fold_rtt(counted[x], rtt@.take(i as int + 1)) by {
                                lemma_fold_rtt_keeps(counted[x], rtt@.take(i as int));
                                assert(rtt@.take(i as int + 1).last() == rtt@[i as int]);
                                if x != j {
                                    assert(self.raw_data@[x] == before[x]);
                                    lemma_fold_rtt_keeps(counted[j as int], rtt@.take(i as int));
                                    assert(counted[x].address.0@ != counted[j as int].address.0@);
                                } else {
                                    let t1 = rtt@.take(i as int + 1);
                                    assert(t1.drop_last() =~= rtt@.take(i as int));
                                    assert(t1.last().0.0@ == counted[x].address.0@);
                                }
                            }
                        }
                    },
                    None => {
                        proof {
                            assert forall|x: int| 0 <= x < counted.len() implies #[trigger] self.raw_data@[x]
                                == fold_rtt(counted[x], rtt@.take(i as int + 1)) by {
                                lemma_fold_rtt_keeps(counted[x], rtt@.take(i as int));
                                assert(before[x].address.0@ != key.0@);
                            }
                        }
                    },
                }
            }
            i = i + 1;
        }
        proof {
            assert(rtt@.take(rtt@.len() as int) =~= rtt@);
            assert forall|j: int| 0 <= j < counted.len() implies #[trigger] self.raw_data@[j].address
                == counted[j].address by {
                lemma_fold_rtt_keeps(counted[j], rtt@);
            }
            assert forall|j: int| 0 <= j < old_len implies #[trigger] self.raw_data@[j]
                == fold_rtt(fold_counters(begin(old_data[j]), m@, c), rtt@) by {
                assert(started[j] == begin(old_data[j]));
            }
            assert forall|t: int| 0 <= t < per_cpu@.len() implies has_key(
                self.raw_data@,
                (#[trigger] per_cpu@[t]).0.0@,
            ) by {
                assert(m@[t].0 == per_cpu@[t].0);
                let y = choose|y: int|
                    0 <= y < counted.len() && (#[trigger] counted[y]).address.0@ == m@[t].0.0@;
                assert(self.raw_data@[y].address == counted[y].address);
            }
            assert forall|j: int| old_len <= j < self.raw_data@.len() implies #[trigger] self.raw_data@[j].address.0@
                == self.raw_data@[j].address.0@ && exists|t: int|
                0 <= t < per_cpu@.len() && (#[trigger] per_cpu@[t]).0.0@
                    == self.raw_data@[j].address.0@ by {
                assert(self.raw_data@[j].address == counted[j].address);
                let t = choose|t: int|
                    0 <= t < m@.len() && (#[trigger] m@[t]).0.0@ == counted[j].address.0@;
                assert(per_cpu@[t].0 == m@[t].0);
            }
            assert forall|j: int| old_len <= j < self.raw_data@.len() implies !has_key(
                old_data,
                #[trigger] self.raw_data@[j].address.0@,
            ) by {
                assert(self.raw_data@[j].address == counted[j].address);
            }
            lemma_same_addresses_unique(counted, self.raw_data@);
        }

        // The aggregate rates are the sums of the entries' rates.
        let mut totals: (u64, u64, u64, u64) = (0, 0, 0, 0);
        let mut i: usize = 0;
        while i < self.raw_data.len()
            invariant
                i <= self.raw_data@.len(),
                totals.0 == cap(rate_total(self.raw_data@.take(i as int), 0)),
                totals.1 == cap(rate_total(self.raw_data@.take(i as int), 1)),
                totals.2 == cap(rate_total(self.raw_data@.take(i as int), 2)),
                totals.3 == cap(rate_total(self.raw_data@.take(i as int), 3)),
            decreases self.raw_data@.len() - i,
        {
            let e = self.raw_data[i];
            proof {
                let s = self.raw_data@.take(i as int);
                assert(self.raw_data@.take(i as int + 1).drop_last() =~= s);
                lemma_rate_total_nonneg(s, 0);
                lemma_rate_total_nonneg(s, 1);
                lemma_rate_total_nonneg(s, 2);
                lemma_rate_total_nonneg(s, 3);
            }
            totals = (
                saturating_add(totals.0, e.bytes_per_second.0),
                saturating_add(totals.1, e.bytes_per_second.1),
                saturating_add(totals.2, e.packets_per_second.0),
                saturating_add(totals.3, e.packets_per_second.1),
            );
            i = i + 1;
        }
        proof {
            assert(self.raw_data@.take(self.raw_data@.len() as int) =~= self.raw_data@);
        }
        self.bytes_per_second = (totals.0, totals.1);
        self.packets_per_second = (totals.2, totals.3);
        self.cycle = c + 1;
    }
}

/// In the cycle that first sees an address, its entry reports zero rates,
/// whatever the snapshot holds.
pub proof fn lemma_new_flow_silent(k: XdpIpAddress, m: Seq<(XdpIpAddress, HostCounter)>, c: u64)
    ensures
        fold_counters(blank(k, c), m, c).bytes_per_second == (0u64, 0u64),
        fold_counters(blank(k, c), m, c).packets_per_second == (0u64, 0u64),
    decreases m.len(),
{
    if m.len() > 0 {
        lemma_new_flow_silent(k, m.drop_last(), c);
        lemma_fold_counters_keeps(blank(k, c), m.drop_last(), c);
    }
}

/// A flow first seen with counter `first` reports zero rates in that cycle;
/// in the next cycle, read with counter `next`, it reports how much each
/// cumulative counter grew.
pub proof fn lemma_new_flow_rates(k: XdpIpAddress, first: HostCounter, next: HostCounter, c: u64)
    requires
        c < u64::MAX,
    ensures
        ({
            let e1 = fold_counters(blank(k, c), seq![(k, first)], c);
            let e2 = fold_counters(begin(e1), seq![(k, next)], (c + 1) as u64);
            &&& e1.bytes_per_second == (0u64, 0u64)
            &&& e1.packets_per_second == (0u64, 0u64)
            &&& e2.bytes_per_second == (
                delta(next.download_bytes, first.download_bytes),
                delta(next.upload_bytes, first.upload_bytes),
            )
            &&& e2.packets_per_second == (
                delta(next.download_packets, first.download_packets),
                delta(next.upload_packets, first.upload_packets),
            )
        }),
{
    let m1 = seq![(k, first)];
    let m2 = seq![(k, next)];
    assert(m1.drop_last() =~= Seq::<(XdpIpAddress, HostCounter)>::empty());
    assert(m2.drop_last() =~= Seq::<(XdpIpAddress, HostCounter)>::empty());
    let empty = Seq::<(XdpIpAddress, HostCounter)>::empty();
    assert(fold_counters(blank(k, c), empty, c) == blank(k, c));
    assert(m1.last() == (k, first));
    assert(m2.last() == (k, next));
    let e1 = fold_counters(blank(k, c), m1, c);
    assert(fold_counters(begin(e1), empty, (c + 1) as u64) == begin(e1));
    assert(e1 == observe(blank(k, c), first, c));
    assert(fold_counters(begin(e1), m2, (c + 1) as u64) == observe(begin(e1), next, (c + 1) as u64));
}

proof fn lemma_fold_rtt_keeps_counters(e: ThroughputEntry, r: Seq<(XdpIpAddress, RttTrackingEntry)>)
    ensures
        fold_rtt(e, r).first_cycle == e.first_cycle,
        fold_rtt(e, r).bytes == e.bytes,
        fold_rtt(e, r).packets == e.packets,
        fold_rtt(e, r).bytes_per_second == e.bytes_per_second,
        fold_rtt(e, r).packets_per_second == e.packets_per_second,
    decreases r.len(),
{
    if r.len() > 0 {
        lemma_fold_rtt_keeps_counters(e, r.drop_last());
    }
}

/// An address that a cycle sees for the first time gets an entry of that
/// cycle with zero rates, so it adds nothing to the cycle's aggregate rates.
pub proof fn lemma_tick_new_entry_silent(
    k: XdpIpAddress,
    m: Seq<(XdpIpAddress, HostCounter)>,
    r: Seq<(XdpIpAddress, RttTrackingEntry)>,
    c: u64,
)
    ensures
        ({
            let e = fold_rtt(fold_counters(blank(k, c), m, c), r);
            &&& e.first_cycle == c
            &&& e.bytes_per_second == (0u64, 0u64)
            &&& e.packets_per_second == (0u64, 0u64)
        }),
{
    lemma_new_flow_silent(k, m, c);
    lemma_fold_counters_keeps(blank(k, c), m, c);
    lemma_fold_rtt_keeps_counters(fold_counters(blank(k, c), m, c), r);
}

/// After a cycle, an entry's cumulative counters are those of the last
/// snapshot record with its address: the shards of that record summed.
pub proof fn lemma_tick_counters_are_last_record(
    e: ThroughputEntry,
    m: Seq<(XdpIpAddress, HostCounter)>,
    c: u64,
    t: int,
)
    requires
        0 <= t < m.len(),
        m[t].0.0@ == e.address.0@,
        forall|u: int| t < u < m.len() ==> (#[trigger] m[u]).0.0@ != e.address.0@,
    ensures
        fold_counters(e, m, c).bytes == (m[t].1.download_bytes, m[t].1.upload_bytes),
        fold_counters(e, m, c).packets == (m[t].1.download_packets, m[t].1.upload_packets),
    decreases m.len(),
{
    if t < m.len() - 1 {
        let d = m.drop_last();
        assert forall|u: int| t < u < d.len() implies (#[trigger] d[u]).0.0@ != e.address.0@ by {
            assert(d[u] == m[u]);
        }
        lemma_tick_counters_are_last_record(e, d, c, t);
    }
}

} // verus!
