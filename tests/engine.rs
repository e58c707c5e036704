use rxtx::models::{NetworkStats, Receive, Transmit};
use rxtx::rates::{load_permille, rate_between, Direction, RateEngine, SpeedStats, HISTORY_CAPACITY};

fn snapshot(name: &str, rx: u64, tx: u64) -> NetworkStats {
    NetworkStats {
        name: name.to_string(),
        receive: Receive {
            bytes: rx,
            packets: 0,
            errs: 0,
            drop: 0,
            fifo: 0,
            frame: 0,
            compressed: 0,
            multicast: 0,
        },
        transmit: Transmit {
            bytes: tx,
            packets: 0,
            errs: 0,
            drop: 0,
            fifo: 0,
            colls: 0,
            carrier: 0,
            compressed: 0,
        },
    }
}

#[test]
fn two_ticks_then_a_reset() {
    let mut e = RateEngine::new();
    e.tick(vec![snapshot("eth0", 1000, 0)], 0);
    assert_eq!(e.interfaces().len(), 0);
    e.tick(vec![snapshot("eth0", 1500, 0)], 1000);
    let eth0 = &e.interfaces()[0];
    assert_eq!(eth0.name, "eth0");
    assert_eq!(eth0.rx.len(), 1);
    assert_eq!(eth0.rx[0].timestamp_ms, 1000);
    assert_eq!(eth0.rx[0].rate, 500);
    e.tick(vec![snapshot("eth0", 1200, 0)], 2000);
    let eth0 = &e.interfaces()[0];
    assert_eq!(eth0.rx.len(), 2);
    assert_eq!(eth0.rx[1].rate, 0);
    assert_eq!(e.latest_rate(&"eth0".to_string(), Direction::Rx), 0);
}

#[test]
fn rate_formula() {
    assert_eq!(rate_between(1000, 1500, 1000), 500);
    assert_eq!(rate_between(0, 3000, 1500), 2000);
    assert_eq!(rate_between(0, 10, 3000), 3);
    assert_eq!(rate_between(1500, 1200, 1000), 0);
    assert_eq!(rate_between(5, 5, 7), 0);
    assert_eq!(rate_between(0, u64::MAX, 1), u64::MAX as u128 * 1000);
}

#[test]
fn no_rate_before_two_samples() {
    let mut e = RateEngine::new();
    let name = "wlan0".to_string();
    assert_eq!(e.latest_rate(&name, Direction::Rx), 0);
    e.tick(vec![snapshot("wlan0", 10, 20)], 500);
    assert_eq!(e.latest_rate(&name, Direction::Tx), 0);
    assert_eq!(e.interfaces().len(), 0);
}

#[test]
fn interfaces_matched_by_name() {
    let mut e = RateEngine::new();
    e.tick(vec![snapshot("a", 100, 1000), snapshot("b", 0, 0)], 0);
    e.tick(vec![snapshot("b", 2000, 4000), snapshot("c", 5, 5), snapshot("a", 300, 1000)], 2000);
    let t = e.interfaces();
    assert_eq!(t.len(), 2);
    assert_eq!(t[0].name, "b");
    assert_eq!((t[0].rx[0].rate, t[0].tx[0].rate), (1000, 2000));
    assert_eq!(t[1].name, "a");
    assert_eq!((t[1].rx[0].rate, t[1].tx[0].rate), (100, 0));
    assert_eq!(e.latest_rate(&"c".to_string(), Direction::Rx), 0);
}

#[test]
fn same_time_gives_no_point() {
    let mut e = RateEngine::new();
    e.tick(vec![snapshot("eth0", 0, 0)], 100);
    e.tick(vec![snapshot("eth0", 50, 0)], 100);
    assert_eq!(e.interfaces().len(), 0);
    e.tick(vec![snapshot("eth0", 150, 0)], 200);
    assert_eq!(e.interfaces()[0].rx[0].rate, 1000);
}

#[test]
fn history_keeps_newest_hundred_in_order() {
    let mut e = RateEngine::new();
    for i in 0..150u64 {
        e.tick(vec![snapshot("eth0", i * 1000, i * 10)], i * 1000);
    }
    let eth0 = &e.interfaces()[0];
    assert_eq!(HISTORY_CAPACITY, 100);
    assert_eq!(eth0.rx.len(), 100);
    assert_eq!(eth0.tx.len(), 100);
    assert_eq!(eth0.rx[0].timestamp_ms, 50_000);
    assert_eq!(eth0.rx[99].timestamp_ms, 149_000);
    for w in eth0.rx.windows(2) {
        assert!(w[0].timestamp_ms < w[1].timestamp_ms);
    }
    assert_eq!(eth0.tx[99].rate, 10);
}

#[test]
fn peak_and_average() {
    let mut s = SpeedStats::new();
    s.update_stats(100);
    assert_eq!(s, SpeedStats { peak: 100, average: 5 });
    s.update_stats(40);
    assert_eq!(s, SpeedStats { peak: 100, average: 6 });
    s.update_stats(400);
    assert_eq!(s.peak, 400);
    assert_eq!(s.average, (19 * 6 + 400) / 20);
    let mut peaks = vec![];
    let mut t = SpeedStats::new();
    for r in [3u128, 9, 2, 9, 7] {
        t.update_stats(r);
        peaks.push(t.peak);
    }
    assert_eq!(peaks, vec![3, 9, 9, 9, 9]);
}

#[test]
fn average_of_huge_rates_does_not_overflow() {
    let mut s = SpeedStats { peak: 0, average: u128::MAX };
    s.update_stats(u128::MAX);
    assert_eq!(s.average, u128::MAX);
    assert_eq!(s.peak, u128::MAX);
}

#[test]
fn engine_stats_per_direction() {
    let mut e = RateEngine::new();
    let name = "eth0".to_string();
    e.tick(vec![snapshot("eth0", 0, 0)], 0);
    e.tick(vec![snapshot("eth0", 2000, 1000)], 1000);
    let rx = e.latest_rate(&name, Direction::Rx);
    let tx = e.latest_rate(&name, Direction::Tx);
    e.update_stats(&name, Direction::Rx, rx);
    e.update_stats(&name, Direction::Tx, tx);
    let eth0 = &e.interfaces()[0];
    assert_eq!(eth0.rx_stats, SpeedStats { peak: 2000, average: 100 });
    assert_eq!(eth0.tx_stats, SpeedStats { peak: 1000, average: 50 });
    let other = "eth9".to_string();
    e.update_stats(&other, Direction::Tx, 60);
    let t = e.interfaces();
    assert_eq!(t.len(), 2);
    assert_eq!(t[1].name, "eth9");
    assert_eq!(t[1].rx.len(), 0);
    assert_eq!(t[1].tx_stats, SpeedStats { peak: 60, average: 3 });
    assert_eq!(t[1].rx_stats, SpeedStats { peak: 0, average: 0 });
}

#[test]
fn load_against_capacity() {
    // 100 Mbit/s is 12_500_000 bytes per second
    assert_eq!(load_permille(12_500_000, Some(100)), Some(1000));
    assert_eq!(load_permille(6_250_000, Some(100)), Some(500));
    assert_eq!(load_permille(1_000_000, Some(1000)), Some(8));
    assert_eq!(load_permille(u128::MAX, Some(1)), Some(1000));
    assert_eq!(load_permille(0, Some(100)), Some(0));
    assert_eq!(load_permille(500, None), None);
    assert_eq!(load_permille(500, Some(0)), None);
}
