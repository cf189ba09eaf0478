use lqos_core::address::{IpAddress, XdpIpAddress};
use lqos_core::counters::{get_throughput_map, merge_shards, HostCounter, RttTrackingEntry};
use lqos_core::latency::{count_nonzero, median_latency, sample_extremes};
use lqos_core::report::{bits_from_bytes, host_counts};
use lqos_core::tracker::ThroughputTracker;

fn addr(last: u8) -> XdpIpAddress {
    XdpIpAddress::from_ip(IpAddress::V4([10, 0, 0, last]))
}

fn counter(down: u64, up: u64, handle: u32) -> HostCounter {
    HostCounter {
        download_bytes: down,
        upload_bytes: up,
        download_packets: down / 100,
        upload_packets: up / 100,
        tc_handle: handle,
    }
}

fn ring(samples: &[u32]) -> [u32; 60] {
    let mut r = [0u32; 60];
    for (i, s) in samples.iter().enumerate() {
        r[i] = *s;
    }
    r
}

fn rtt(samples: &[u32], fresh: bool) -> RttTrackingEntry {
    RttTrackingEntry {
        tc_handle: 0,
        rtt: ring(samples),
        next_entry: 0,
        recycle_time: 0,
        has_fresh_data: if fresh { 1 } else { 0 },
    }
}

#[test]
fn shards_are_summed() {
    let shards = vec![counter(1000, 10, 0); 4];
    let total = merge_shards(&shards);
    assert_eq!(total.download_bytes, 4000);
    assert_eq!(total.upload_bytes, 40);
    assert_eq!(total.download_packets, 40);
    let map = get_throughput_map(&vec![(addr(1), shards), (addr(2), vec![])]);
    assert_eq!(map.len(), 2);
    assert_eq!(map[0].1.download_bytes, 4000);
    assert_eq!(map[1].1.download_bytes, 0);
}

#[test]
fn shard_sum_saturates() {
    let total = merge_shards(&vec![counter(u64::MAX, 0, 0), counter(5, 0, 0)]);
    assert_eq!(total.download_bytes, u64::MAX);
}

#[test]
fn last_nonzero_handle_wins() {
    let total = merge_shards(&vec![counter(1, 1, 7), counter(1, 1, 9), counter(1, 1, 0)]);
    assert_eq!(total.tc_handle, 9);
}

#[test]
fn new_flow_reports_zero_then_rate() {
    let mut t = ThroughputTracker::new();
    t.tick(&vec![(addr(1), vec![counter(5000, 500, 3)])], &vec![]);
    assert_eq!(t.raw_data.len(), 1);
    assert_eq!(t.raw_data[0].bytes_per_second, (0, 0));
    assert_eq!(t.bits_per_second(), (0, 0));
    t.tick(&vec![(addr(1), vec![counter(8000, 700, 3)])], &vec![]);
    assert_eq!(t.raw_data[0].bytes_per_second, (3000, 200));
    assert_eq!(t.raw_data[0].packets_per_second, (30, 2));
    assert_eq!(t.bits_per_second(), (24000, 1600));
    assert_eq!(t.packets_per_second(), (30, 2));
    assert_eq!(t.cycle, 2);
}

#[test]
fn unseen_flow_goes_quiet() {
    let mut t = ThroughputTracker::new();
    t.tick(&vec![(addr(1), vec![counter(100, 100, 1)])], &vec![]);
    t.tick(&vec![(addr(1), vec![counter(300, 100, 1)])], &vec![]);
    assert_eq!(t.raw_data[0].bytes_per_second, (200, 0));
    t.tick(&vec![], &vec![]);
    assert_eq!(t.raw_data[0].bytes_per_second, (0, 0));
    assert_eq!(t.raw_data[0].bytes, (300, 100));
}

#[test]
fn counter_reset_gives_zero_rate() {
    let mut t = ThroughputTracker::new();
    t.tick(&vec![(addr(1), vec![counter(100, 100, 1)])], &vec![]);
    t.tick(&vec![(addr(1), vec![counter(50, 100, 1)])], &vec![]);
    assert_eq!(t.raw_data[0].bytes_per_second, (0, 0));
}

#[test]
fn totals_sum_entries() {
    let mut t = ThroughputTracker::new();
    let first = vec![(addr(1), vec![counter(100, 0, 1)]), (addr(2), vec![counter(100, 0, 1)])];
    t.tick(&first, &vec![]);
    let second = vec![
        (addr(1), vec![counter(600, 0, 1)]),
        (addr(2), vec![counter(300, 0, 1), counter(100, 0, 0)]),
        (addr(3), vec![counter(999, 0, 1)]),
    ];
    t.tick(&second, &vec![]);
    assert_eq!(t.raw_data.len(), 3);
    assert_eq!(t.bytes_per_second, (500 + 300, 0));
    assert_eq!(t.bits_per_second(), (6400, 0));
}

#[test]
fn fresh_latency_replaces_ring() {
    let mut t = ThroughputTracker::new();
    t.tick(&vec![(addr(1), vec![counter(1, 1, 5)])], &vec![(addr(1), rtt(&[100, 200], true))]);
    assert_eq!(t.raw_data[0].recent_rtt_data[0], 100);
    t.tick(&vec![], &vec![(addr(1), rtt(&[900], false))]);
    assert_eq!(t.raw_data[0].recent_rtt_data[0], 100);
    t.tick(&vec![], &vec![(addr(1), rtt(&[700], true)), (addr(9), rtt(&[1], true))]);
    assert_eq!(t.raw_data[0].recent_rtt_data, ring(&[700]));
    assert_eq!(t.raw_data.len(), 1);
}

#[test]
fn median_of_samples() {
    assert_eq!(median_latency(&ring(&[])), 0);
    assert_eq!(median_latency(&ring(&[100, 300, 200])), 200);
    assert_eq!(median_latency(&ring(&[0, 400, 0, 100, 300, 200])), 300);
    assert_eq!(median_latency(&ring(&[5, 5, 5, 1])), 5);
    assert_eq!(count_nonzero(&ring(&[0, 4, 0, 1])), 2);
    assert_eq!(sample_extremes(&ring(&[100, 300, 200])), (600, 100, 300));
}

#[test]
fn latency_digest_skips_silent_entries() {
    let mut t = ThroughputTracker::new();
    t.tick(
        &vec![
            (addr(1), vec![counter(1, 1, 0x10002)]),
            (addr(2), vec![counter(1, 1, 0x10003)]),
            (addr(3), vec![counter(1, 1, 0)]),
        ],
        &vec![
            (addr(1), rtt(&[100, 300, 200], true)),
            (addr(2), rtt(&[], true)),
            (addr(3), rtt(&[500], true)),
        ],
    );
    let digest = t.xdp_pping_compat();
    assert_eq!(digest.len(), 1);
    let d = digest[0];
    assert_eq!(d.tc_handle, 0x10002);
    assert_eq!(d.median, 200);
    assert_eq!(d.min, 100);
    assert_eq!(d.max, 300);
    assert_eq!(d.samples, 3);
    assert_eq!(d.total, 600);
    // in milliseconds: median 2.0, min 1.0, max 3.0
    assert_eq!(d.median as f32 / 100.0, 2.0);
    assert_eq!(d.min as f32 / 100.0, 1.0);
    assert_eq!(d.max as f32 / 100.0, 3.0);
}

#[test]
fn top_n_orders_by_download_rate() {
    let mut t = ThroughputTracker::new();
    let base: Vec<(XdpIpAddress, Vec<HostCounter>)> =
        (1..=4).map(|i| (addr(i), vec![counter(0, 0, 1)])).collect();
    t.tick(&base, &vec![]);
    let next = vec![
        (addr(1), vec![counter(100, 0, 1)]),
        (addr(2), vec![counter(400, 0, 1)]),
        (addr(3), vec![counter(200, 0, 1)]),
        (addr(4), vec![counter(300, 0, 1)]),
    ];
    t.tick(&next, &vec![(addr(2), rtt(&[250], true))]);
    let top = t.top_n(3);
    assert_eq!(top.len(), 3);
    assert_eq!(top[0].address, addr(2));
    assert_eq!(top[0].bits_per_second, (3200, 0));
    assert_eq!(top[0].median_tcp_rtt, 250);
    assert_eq!(top[1].address, addr(4));
    assert_eq!(top[2].address, addr(3));
    assert_eq!(t.top_n(10).len(), 4);
    assert_eq!(t.top_n(0).len(), 0);
}

#[test]
fn top_n_with_ties_keeps_the_fastest_first() {
    // order among equal rates is not specified; only the rates are checked
    let mut t = ThroughputTracker::new();
    t.tick(&vec![(addr(1), vec![counter(0, 0, 1)]), (addr(2), vec![counter(0, 0, 1)])], &vec![]);
    t.tick(&vec![(addr(1), vec![counter(50, 0, 1)]), (addr(2), vec![counter(50, 0, 1)])], &vec![]);
    let top = t.top_n(2);
    assert_eq!(top[0].bits_per_second.0, 400);
    assert_eq!(top[1].bits_per_second.0, 400);
    assert_ne!(top[0].address, top[1].address);
}

#[test]
fn bits_saturate() {
    assert_eq!(bits_from_bytes(10), 80);
    assert_eq!(bits_from_bytes(u64::MAX / 4), u64::MAX);
}

#[test]
fn host_counts_report_unknown_hosts() {
    assert_eq!(host_counts(12, (30, 20)), (12, 10));
    assert_eq!(host_counts(0, (3, 5)), (0, 0));
}

#[test]
fn worst_n_orders_by_median_latency() {
    let mut t = ThroughputTracker::new();
    t.tick(
        &vec![
            (addr(1), vec![counter(1, 1, 1)]),
            (addr(2), vec![counter(1, 1, 1)]),
            (addr(3), vec![counter(1, 1, 1)]),
        ],
        &vec![
            (addr(1), rtt(&[100, 120, 140], true)),
            (addr(2), rtt(&[900, 800], true)),
            (addr(3), rtt(&[], true)),
        ],
    );
    let worst = t.worst_n(2);
    assert_eq!(worst.len(), 2);
    assert_eq!(worst[0].address, addr(2));
    assert_eq!(worst[0].median_tcp_rtt, 900);
    assert_eq!(worst[1].address, addr(1));
    assert_eq!(worst[1].median_tcp_rtt, 120);
}
