use vstd::prelude::*;

use crate::address::XdpIpAddress;

verus! {

/// One per-CPU shard of the kernel's traffic counters for one address.
#[derive(Clone, Copy, Debug)]
pub struct HostCounter {
    pub download_bytes: u64,
    pub upload_bytes: u64,
    pub download_packets: u64,
    pub upload_packets: u64,
    pub tc_handle: u32,
}

/// The kernel's round-trip-time record for one address: the last 60 samples,
/// in hundredths of a millisecond.
#[derive(Clone, Copy, Debug)]
pub struct RttTrackingEntry {
    pub tc_handle: u32,
    pub rtt: [u32; 60],
    pub next_entry: u32,
    pub recycle_time: u64,
    pub has_fresh_data: u32,
}

/// An integer clamped into the range of `u64`.
pub open spec fn cap(x: int) -> u64 {
    if x > u64::MAX {
        u64::MAX
    } else if x < 0 {
        0
    } else {
        x as u64
    }
}

/// `a - b`, or zero where `b` is larger.
pub open spec fn delta(a: u64, b: u64) -> u64 {
    if a >= b {
        (a - b) as u64
    } else {
        0
    }
}

pub fn saturating_add(a: u64, b: u64) -> (r: u64)
    ensures
        r == cap(a + b),
{
    if a > u64::MAX - b {
        u64::MAX
    } else {
        a + b
    }
}

pub fn saturating_delta(a: u64, b: u64) -> (r: u64)
    ensures
        r == delta(a, b),
{
    if a >= b {
        a - b
    } else {
        0
    }
}

/// Counter `k` of a shard: 0 bytes down, 1 bytes up, 2 packets down,
/// 3 packets up.
pub open spec fn counter_field(c: HostCounter, k: int) -> u64 {
    if k == 0 {
        c.download_bytes
    } else if k == 1 {
        c.upload_bytes
    } else if k == 2 {
        c.download_packets
    } else {
        c.upload_packets
    }
}

/// The exact sum of counter `k` over all shards.
pub open spec fn shard_total(s: Seq<HostCounter>, k: int) -> int
    decreases s.len(),
{
    if s.len() == 0 {
        0
    } else {
        shard_total(s.drop_last(), k) + counter_field(s.last(), k)
    }
}

/// The queue handle of the last shard that reports a non-zero one.
pub open spec fn last_handle(s: Seq<HostCounter>) -> u32
    decreases s.len(),
{
    if s.len() == 0 {
        0
    } else if s.last().tc_handle != 0 {
        s.last().tc_handle
    } else {
        last_handle(s.drop_last())
    }
}

/// All shards of one address summed into one counter.
pub open spec fn merged(s: Seq<HostCounter>) -> HostCounter {
    HostCounter {
        download_bytes: cap(shard_total(s, 0)),
        upload_bytes: cap(shard_total(s, 1)),
        download_packets: cap(shard_total(s, 2)),
        upload_packets: cap(shard_total(s, 3)),
        tc_handle: last_handle(s),
    }
}

/// A per-CPU snapshot with the shards of each key merged.
pub open spec fn merged_snapshot(p: Seq<(XdpIpAddress, Vec<HostCounter>)>) -> Seq<
    (XdpIpAddress, HostCounter),
> {
    Seq::new(p.len(), |i: int| (p[i].0, merged(p[i].1@)))
}

pub proof fn lemma_shard_total_nonneg(s: Seq<HostCounter>, k: int)
    ensures
        shard_total(s, k) >= 0,
    decreases s.len(),
{
    if s.len() > 0 {
        lemma_shard_total_nonneg(s.drop_last(), k);
    }
}

/// Sums the per-CPU shards of one address.
pub fn merge_shards(shards: &Vec<HostCounter>) -> (r: HostCounter)
    ensures
        r == merged(shards@),
{
    let mut r = HostCounter {
        download_bytes: 0,
        upload_bytes: 0,
        download_packets: 0,
        upload_packets: 0,
        tc_handle: 0,
    };
    let mut i: usize = 0;
    while i < shards.len()
        invariant
            i <= shards@.len(),
            r == merged(shards@.take(i as int)),
        decreases shards@.len() - i,
    {
        let c = shards[i];
        proof {
            let t = shards@.take(i as int + 1);
            assert(t.drop_last() =~= shards@.take(i as int));
            lemma_shard_total_nonneg(shards@.take(i as int), 0);
            lemma_shard_total_nonneg(shards@.take(i as int), 1);
            lemma_shard_total_nonneg(shards@.take(i as int), 2);
            lemma_shard_total_nonneg(shards@.take(i as int), 3);
        }
        let handle = if c.tc_handle != 0 {
            c.tc_handle
        } else {
            r.tc_handle
        };
        r = HostCounter {
            download_bytes: saturating_add(r.download_bytes, c.download_bytes),
            upload_bytes: saturating_add(r.upload_bytes, c.upload_bytes),
            download_packets: saturating_add(r.download_packets, c.download_packets),
            upload_packets: saturating_add(r.upload_packets, c.upload_packets),
            tc_handle: handle,
        };
        i = i + 1;
    }
    assert(shards@.take(shards@.len() as int) =~= shards@);
    r
}

/// Turns a per-CPU snapshot of the traffic table into one counter per
/// address, the shards of each summed.
pub fn get_throughput_map(per_cpu: &Vec<(XdpIpAddress, Vec<HostCounter>)>) -> (r: Vec<
    (XdpIpAddress, HostCounter),
>)
    ensures
        r@ == merged_snapshot(per_cpu@),
{
    let mut r: Vec<(XdpIpAddress, HostCounter)> = Vec::new();
    let mut i: usize = 0;
    while i < per_cpu.len()
        invariant
            i <= per_cpu@.len(),
            r@ =~= merged_snapshot(per_cpu@).take(i as int),
        decreases per_cpu@.len() - i,
    {
        let key = per_cpu[i].0;
        let total = merge_shards(&per_cpu[i].1);
        r.push((key, total));
        i = i + 1;
    }
    r
}

/// Shards that all report the same counter add up to that many times it.
pub proof fn lemma_equal_shards_sum(s: Seq<HostCounter>, k: int, b: u64)
    requires
        forall|i: int| 0 <= i < s.len() ==> counter_field(#[trigger] s[i], k) == b,
    ensures
        shard_total(s, k) == s.len() * b,
    decreases s.len(),
{
    if s.len() > 0 {
        lemma_equal_shards_sum(s.drop_last(), k, b);
        assert(s.len() * b == (s.len() - 1) * b + b) by (nonlinear_arith);
    }
}

/// N shards that each report B bytes downstream merge into N * B bytes
/// (clamped to the counter's range), not B and not an average.
pub proof fn lemma_shards_are_summed(s: Seq<HostCounter>, b: u64)
    requires
        forall|i: int| 0 <= i < s.len() ==> (#[trigger] s[i]).download_bytes == b,
    ensures
        merged(s).download_bytes == cap(s.len() * b),
{
    assert forall|i: int| 0 <= i < s.len() implies counter_field(#[trigger] s[i], 0) == b by {}
    lemma_equal_shards_sum(s, 0, b);
}

} // verus!
