use vstd::prelude::*;

use crate::address::XdpIpAddress;
use crate::counters::cap;
use crate::latency::{
    count_nonzero, count_nz, max_nz, median_latency, median_of, min_nz, sample_extremes, sum_nz,
};
use crate::tracker::{ThroughputEntry, ThroughputTracker};

verus! {

/// The statistics of one flow: rates per second and the median round-trip
/// time in hundredths of a millisecond.
#[derive(Clone, Copy, Debug)]
pub struct IpStats {
    pub address: XdpIpAddress,
    pub bits_per_second: (u64, u64),
    pub packets_per_second: (u64, u64),
    pub median_tcp_rtt: u32,
}

/// The latency summary of one flow, over its non-zero samples, in
/// hundredths of a millisecond.
#[derive(Clone, Copy, Debug)]
pub struct XdpPpingResult {
    pub tc_handle: u32,
    pub median: u32,
    pub total: u64,
    pub min: u32,
    pub max: u32,
    pub samples: u32,
}

/// A byte rate as a bit rate.
pub open spec fn bits_of(bytes: u64) -> u64 {
    cap(bytes * 8)
}

pub open spec fn stats_of(e: ThroughputEntry) -> IpStats {
    IpStats {
        address: e.address,
        bits_per_second: (bits_of(e.bytes_per_second.0), bits_of(e.bytes_per_second.1)),
        packets_per_second: e.packets_per_second,
        median_tcp_rtt: median_of(e.recent_rtt_data@),
    }
}

/// What flows are ranked by: the median round-trip time, or the
/// downstream byte rate.
pub open spec fn rank_key(e: ThroughputEntry, by_latency: bool) -> u64 {
    if by_latency {
        median_of(e.recent_rtt_data@) as u64
    } else {
        e.bytes_per_second.0
    }
}

/// `perm` lists each index below `n` once.
pub open spec fn is_permutation(perm: Seq<int>, n: int) -> bool {
    &&& perm.len() == n
    &&& forall|i: int| 0 <= i < n ==> 0 <= #[trigger] perm[i] < n
    &&& forall|i: int, j: int| 0 <= i < n && 0 <= j < n && i != j ==> #[trigger] perm[i] != #[trigger] perm[j]
}

/// `r` is the start of an ordering `perm` of all entries of `s`: it lists
/// entries by descending rank key, and no entry left out ranks above the
/// last one listed.
pub open spec fn ranked(
    s: Seq<ThroughputEntry>,
    r: Seq<IpStats>,
    perm: Seq<int>,
    by_latency: bool,
) -> bool {
    &&& is_permutation(perm, s.len() as int)
    &&& r.len() <= s.len()
    &&& forall|t: int| 0 <= t < r.len() ==> #[trigger] r[t] == stats_of(s[perm[t]])
    &&& forall|a: int, b: int|
        0 <= a < b < r.len() ==> rank_key(s[#[trigger] perm[a]], by_latency) >= rank_key(s[#[trigger] perm[b]], by_latency)
    &&& r.len() > 0 ==> forall|p: int|
        r.len() <= p < s.len() ==> rank_key(s[#[trigger] perm[p]], by_latency) <= rank_key(s[perm[r.len() - 1]], by_latency)
}

pub open spec fn pping_of(e: ThroughputEntry) -> XdpPpingResult {
    XdpPpingResult {
        tc_handle: e.tc_handle,
        median: median_of(e.recent_rtt_data@),
        total: sum_nz(e.recent_rtt_data@) as u64,
        min: min_nz(e.recent_rtt_data@),
        max: max_nz(e.recent_rtt_data@),
        samples: count_nz(e.recent_rtt_data@) as u32,
    }
}

/// An entry that a latency digest reports: it has a queue and a sample.
pub open spec fn in_digest(e: ThroughputEntry) -> bool {
    e.tc_handle != 0 && count_nz(e.recent_rtt_data@) > 0
}

/// The latency digest of entries, in their order.
pub open spec fn digest_of(s: Seq<ThroughputEntry>) -> Seq<XdpPpingResult>
    decreases s.len(),
{
    if s.len() == 0 {
        Seq::empty()
    } else if in_digest(s.last()) {
        digest_of(s.drop_last()).push(pping_of(s.last()))
    } else {
        digest_of(s.drop_last())
    }
}

/// A byte rate as a bit rate, saturating.
pub fn bits_from_bytes(bytes: u64) -> (r: u64)
    ensures
        r == bits_of(bytes),
{
    if bytes > u64::MAX / 8 {
        u64::MAX
    } else {
        bytes * 8
    }
}

fn stats_of_entry(e: &ThroughputEntry) -> (r: IpStats)
    ensures
        r == stats_of(*e),
{
    IpStats {
        address: e.address,
        bits_per_second: (
            bits_from_bytes(e.bytes_per_second.0),
            bits_from_bytes(e.bytes_per_second.1),
        ),
        packets_per_second: e.packets_per_second,
        median_tcp_rtt: median_latency(&e.recent_rtt_data),
    }
}

impl ThroughputTracker {
    /// The aggregate rates in bits per second, (downstream, upstream).
    pub fn bits_per_second(&self) -> (r: (u64, u64))
        ensures
            r == (bits_of(self.bytes_per_second.0), bits_of(self.bytes_per_second.1)),
    {
        (bits_from_bytes(self.bytes_per_second.0), bits_from_bytes(self.bytes_per_second.1))
    }

    /// The aggregate rates in packets per second, (downstream, upstream).
    pub fn packets_per_second(&self) -> (r: (u64, u64))
        ensures
            r == self.packets_per_second,
    {
        self.packets_per_second
    }

    /// The `n` flows with the highest downstream rate, fastest first. Among
    /// equal rates the order is not specified.
    pub fn top_n(&self, n: u32) -> (r: Vec<IpStats>)
        ensures
            r@.len() == if (n as int) < self.raw_data@.len() {
                n as int
            } else {
                self.raw_data@.len() as int
            },
            exists|perm: Seq<int>| ranked(self.raw_data@, r@, perm, false),
    {
        self.rank(n, false)
    }

    /// The `n` flows with the highest median round-trip time, slowest
    /// first. Among equal medians the order is not specified.
    pub fn worst_n(&self, n: u32) -> (r: Vec<IpStats>)
        ensures
            r@.len() == if (n as int) < self.raw_data@.len() {
                n as int
            } else {
                self.raw_data@.len() as int
            },
            exists|perm: Seq<int>| ranked(self.raw_data@, r@, perm, true),
    {
        self.rank(n, true)
    }

    /// The rank key of every entry, in table order.
    fn rank_keys(&self, by_latency: bool) -> (r: Vec<u64>)
        ensures
            r@.len() == self.raw_data@.len(),
            forall|j: int|
                0 <= j < r@.len() ==> #[trigger] r@[j] == rank_key(self.raw_data@[j], by_latency),
    {
        let mut r: Vec<u64> = Vec::new();
        let mut i: usize = 0;
        while i < self.raw_data.len()
            invariant
                i <= self.raw_data@.len(),
                r@.len() == i,
                forall|j: int|
                    0 <= j < i ==> #[trigger] r@[j] == rank_key(self.raw_data@[j], by_latency),
            decreases self.raw_data@.len() - i,
        {
            let key = if by_latency {
                median_latency(&self.raw_data[i].recent_rtt_data) as u64
            } else {
                self.raw_data[i].bytes_per_second.0
            };
            r.push(key);
            i = i + 1;
        }
        r
    }

    /// The first `n` entries of an ordering of all entries by descending
    /// rank key.
    fn rank(&self, n: u32, by_latency: bool) -> (r: Vec<IpStats>)
        ensures
            r@.len() == if (n as int) < self.raw_data@.len() {
                n as int
            } else {
                self.raw_data@.len() as int
            },
            exists|perm: Seq<int>| ranked(self.raw_data@, r@, perm, by_latency),
    {
        let keys = self.rank_keys(by_latency);
        let len = self.raw_data.len();
        let k: usize = if (n as usize) < len {
            n as usize
        } else {
            len
        };
        let ghost s = self.raw_data@;
        let mut rest: Vec<usize> = Vec::new();
        let mut i: usize = 0;
        while i < len
            invariant
                i <= len,
                len == s.len(),
                rest@.len() == i,
                forall|q: int| 0 <= q < i ==> rest@[q] == q,
            decreases len - i,
        {
            rest.push(i);
            i = i + 1;
        }
        let mut r: Vec<IpStats> = Vec::new();
        let ghost mut idx: Seq<int> = Seq::empty();
        proof {
            let perm = idx + rest@.map_values(|x: usize| x as int);
            assert forall|a: int| 0 <= a < len implies #[trigger] perm[a] == a by {}
        }
        while r.len() < k
            invariant
                len == s.len(),
                s == self.raw_data@,
                keys@.len() == len,
                forall|j: int| 0 <= j < len ==> #[trigger] keys@[j] == rank_key(s[j], by_latency),
                k <= len,
                r@.len() <= k,
                idx.len() == r@.len(),
                rest@.len() + r@.len() == len,
                is_permutation(idx + rest@.map_values(|x: usize| x as int), len as int),
                forall|t: int| 0 <= t < r@.len() ==> #[trigger] r@[t] == stats_of(s[idx[t]]),
                forall|a: int, b: int|
                    0 <= a < b < r@.len() ==> rank_key(s[#[trigger] idx[a]], by_latency) >= rank_key(s[#[trigger] idx[b]], by_latency),
                r@.len() > 0 ==> forall|q: int|
                    0 <= q < rest@.len() ==> rank_key(s[#[trigger] rest@[q] as int], by_latency)
                        <= rank_key(s[idx[r@.len() - 1]], by_latency),
            decreases k - r@.len(),
        {
            let ghost perm = idx + rest@.map_values(|x: usize| x as int);
            proof {
                assert forall|q: int| 0 <= q < rest@.len() implies #[trigger] rest@[q] < len by {
                    assert(perm[idx.len() + q] == rest@[q] as int);
                }
            }
            let mut p: usize = 0;
            let mut q: usize = 1;
            while q < rest.len()
                invariant
                    rest@.len() > 0,
                    p < rest@.len(),
                    1 <= q <= rest@.len(),
                    s == self.raw_data@,
                    keys@.len() == len,
                    forall|j: int| 0 <= j < len ==> #[trigger] keys@[j] == rank_key(s[j], by_latency),
                    forall|x: int| 0 <= x < rest@.len() ==> #[trigger] rest@[x] < len,
                    len == s.len(),
                    forall|x: int|
                        0 <= x < q ==> rank_key(s[#[trigger] rest@[x] as int], by_latency) <= rank_key(s[rest@[p as int] as int], by_latency),
                decreases rest@.len() - q,
            {
                if keys[rest[q]] > keys[rest[p]] {
                    p = q;
                }
                q = q + 1;
            }
            let j = rest[p];
            r.push(stats_of_entry(&self.raw_data[j]));
            let ghost old_rest = rest@;
            let ghost old_idx = idx;
            let ghost t = old_idx.len();
            rest.remove(p);
            proof {
                idx = idx.push(j as int);
                let np = idx + rest@.map_values(|x: usize| x as int);
                let f = |a: int|
                    if a < t {
                        a
                    } else if a == t {
                        t + p as int
                    } else if a - t - 1 < p {
                        a - 1
                    } else {
                        a
                    };
                assert forall|a: int| 0 <= a < len implies #[trigger] np[a] == perm[f(a)] && 0
                    <= f(a) < len by {
                    if a > t {
                        let q2 = a - t - 1;
                        assert(np[a] == rest@[q2] as int);
                        if q2 < p {
                            assert(rest@[q2] == old_rest[q2]);
                            assert(perm[a - 1] == old_rest[q2] as int);
                        } else {
                            assert(rest@[q2] == old_rest[q2 + 1]);
                            assert(perm[a] == old_rest[q2 + 1] as int);
                        }
                    } else if a == t {
                        assert(perm[t + p as int] == old_rest[p as int] as int);
                    }
                }
                assert(is_permutation(np, len as int)) by {
                    assert forall|a: int, b: int|
                        0 <= a < len && 0 <= b < len && a != b implies #[trigger] np[a]
                        != #[trigger] np[b] by {
                        assert(np[a] == perm[f(a)]);
                        assert(np[b] == perm[f(b)]);
                    }
                    assert forall|a: int| 0 <= a < len implies 0 <= #[trigger] np[a] < len by {
                        assert(np[a] == perm[f(a)]);
                    }
                }
                assert forall|a: int, b: int|
                    0 <= a < b < r@.len() implies rank_key(s[#[trigger] idx[a]], by_latency) >= rank_key(s[#[trigger] idx[b]], by_latency) by {
                    if b == t {
                        if t > 0 {
                            assert(rank_key(s[old_idx[a]], by_latency) >= rank_key(s[old_idx[t - 1]], by_latency));
                            assert(rank_key(s[old_rest[p as int] as int], by_latency) <= rank_key(s[old_idx[t - 1]], by_latency));
                        }
                    } else {
                        assert(idx[a] == old_idx[a]);
                        assert(idx[b] == old_idx[b]);
                    }
                }
                assert forall|x: int| 0 <= x < rest@.len() implies rank_key(s[#[trigger] rest@[x] as int], by_latency) <= rank_key(s[idx[r@.len() - 1]], by_latency) by {
                    if x < p {
                        assert(rest@[x] == old_rest[x]);
                    } else {
                        assert(rest@[x] == old_rest[x + 1]);
                    }
                }
                assert forall|t2: int| 0 <= t2 < r@.len() implies #[trigger] r@[t2] == stats_of(
                    s[idx[t2]],
                ) by {
                    if t2 < t {
                        assert(idx[t2] == old_idx[t2]);
                    }
                }
            }
        }
        proof {
            let perm = idx + rest@.map_values(|x: usize| x as int);
            assert forall|t: int| 0 <= t < r@.len() implies perm[t] == idx[t] by {}
            assert forall|q: int| r@.len() <= q < len implies perm[q] == rest@[q - r@.len()] as int by {}
            if r@.len() > 0 {
                assert forall|q: int| r@.len() <= q < s.len() implies rank_key(s[#[trigger] perm[q]], by_latency) <= rank_key(s[perm[r@.len() - 1]], by_latency) by {
                    assert(perm[q] == rest@[q - r@.len()] as int);
                }
            }
            assert(ranked(s, r@, perm, by_latency));
        }
        r
    }

    /// The latency digest: for each entry with a queue handle and at least
    /// one non-zero sample, in table order, the summary of its non-zero
    /// samples. Entries without samples are left out.
    pub fn xdp_pping_compat(&self) -> (r: Vec<XdpPpingResult>)
        ensures
            r@ == digest_of(self.raw_data@),
    {
        let mut r: Vec<XdpPpingResult> = Vec::new();
        let mut i: usize = 0;
        while i < self.raw_data.len()
            invariant
                i <= self.raw_data@.len(),
                r@ == digest_of(self.raw_data@.take(i as int)),
            decreases self.raw_data@.len() - i,
        {
            let e = &self.raw_data[i];
            proof {
                assert(self.raw_data@.take(i as int + 1).drop_last() =~= self.raw_data@.take(
                    i as int,
                ));
            }
            let samples = count_nonzero(&e.recent_rtt_data);
            if e.tc_handle != 0 && samples > 0 {
                let (total, lo, hi) = sample_extremes(&e.recent_rtt_data);
                r.push(
                    XdpPpingResult {
                        tc_handle: e.tc_handle,
                        median: median_latency(&e.recent_rtt_data),
                        total: total,
                        min: lo,
                        max: hi,
                        samples: samples,
                    },
                );
            }
            i = i + 1;
        }
        proof {
            assert(self.raw_data@.take(self.raw_data@.len() as int) =~= self.raw_data@);
        }
        r
    }
}

proof fn lemma_digest_concat(a: Seq<ThroughputEntry>, b: Seq<ThroughputEntry>)
    ensures
        digest_of(a + b) == digest_of(a) + digest_of(b),
    decreases b.len(),
{
    if b.len() == 0 {
        assert(a + b =~= a);
        assert(digest_of(a) + digest_of(b) =~= digest_of(a));
    } else {
        lemma_digest_concat(a, b.drop_last());
        assert((a + b).drop_last() =~= a + b.drop_last());
        assert((a + b).last() == b.last());
        if in_digest(b.last()) {
            assert(digest_of(a) + digest_of(b) =~= (digest_of(a) + digest_of(b.drop_last())).push(
                pping_of(b.last()),
            ));
        }
    }
}

/// An entry whose samples are all zero adds nothing to a latency digest,
/// wherever it stands among the entries.
pub proof fn lemma_silent_entry_omitted(s: Seq<ThroughputEntry>, i: int)
    requires
        0 <= i < s.len(),
        count_nz(s[i].recent_rtt_data@) == 0,
    ensures
        digest_of(s.remove(i)) == digest_of(s),
{
    let a = s.take(i);
    let c = s.skip(i + 1);
    let one = seq![s[i]];
    assert(s =~= a + one + c);
    assert(s.remove(i) =~= a + c);
    assert(one.drop_last() =~= Seq::<ThroughputEntry>::empty());
    assert(one.last() == s[i]);
    assert(!in_digest(s[i]));
    assert(digest_of(Seq::<ThroughputEntry>::empty()) =~= Seq::<XdpPpingResult>::empty());
    assert(digest_of(one) =~= Seq::<XdpPpingResult>::empty());
    lemma_digest_concat(a + one, c);
    lemma_digest_concat(a, one);
    lemma_digest_concat(a, c);
    assert(digest_of(a) + digest_of(one) =~= digest_of(a));
}

/// The host counts a dashboard shows: the number of shaped devices, and how
/// many of the `seen.0` hosts with traffic are not among the `seen.1` known
/// ones (zero where more are known than seen). Counts beyond `u32` are
/// clamped.
pub fn host_counts(n_devices: usize, seen: (u32, u32)) -> (r: (u32, u32))
    ensures
        r.0 == if n_devices > u32::MAX {
            u32::MAX as int
        } else {
            n_devices as int
        },
        r.1 == if seen.0 >= seen.1 {
            seen.0 - seen.1
        } else {
            0
        },
{
    let devices: u32 = if n_devices > u32::MAX as usize {
        u32::MAX
    } else {
        n_devices as u32
    };
    let unknown: u32 = if seen.0 >= seen.1 {
        seen.0 - seen.1
    } else {
        0
    };
    (devices, unknown)
}

} // verus!
