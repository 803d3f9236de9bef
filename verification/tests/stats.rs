use cortado::addr::parse_ip;
use cortado::stats::{add, dec, format_bytes, get, inc, record_traffic, Counter, GaugeGuard, Stats};

#[test]
fn gauge_guard_balances() {
    let mut g = Counter::new(0);
    assert_eq!(get(&g), 0);
    {
        let a = GaugeGuard::new(&mut g);
        let b = GaugeGuard::new(&mut g);
        assert_eq!(get(&g), 2);
        b.release(&mut g);
        a.release(&mut g);
    }
    assert_eq!(get(&g), 0);
}

#[test]
fn record_traffic_splits_by_family() {
    let mut s = Stats::new();
    let v4_before = get(&s.bytes_v4);
    let v6_before = get(&s.bytes_v6);
    record_traffic(&mut s, parse_ip("1.2.3.4").unwrap(), 100);
    record_traffic(&mut s, parse_ip("::1").unwrap(), 200);
    assert_eq!(get(&s.bytes_v4), v4_before + 100);
    assert_eq!(get(&s.bytes_v6), v6_before + 200);
}

#[test]
fn format_bytes_scales_units() {
    assert_eq!(format_bytes(0), "0 B");
    assert_eq!(format_bytes(512), "512 B");
    assert_eq!(format_bytes(999), "999 B");
    assert_eq!(format_bytes(1_000), "1.00 KB");
    assert_eq!(format_bytes(1_500), "1.50 KB");
    assert_eq!(format_bytes(2_340_000), "2.34 MB");
    assert_eq!(format_bytes(1_100_000_000), "1.10 GB");
    assert_eq!(format_bytes(3_000_000_000_000), "3.00 TB");
    assert_eq!(format_bytes(5_000_000_000_000_000), "5000.00 TB");
}

#[test]
fn counters_increment() {
    let mut c = Counter::new(0);
    inc(&mut c);
    add(&mut c, 5);
    assert_eq!(get(&c), 6);
    dec(&mut c);
    assert_eq!(get(&c), 5);
}

#[test]
fn counters_start_again_at_zero() {
    let mut c = Counter::new(u64::MAX);
    inc(&mut c);
    assert_eq!(get(&c), 0);
    dec(&mut c);
    assert_eq!(get(&c), u64::MAX);
    add(&mut c, 3);
    assert_eq!(get(&c), 2);
}

fn by_floating_point(bytes: u64) -> String {
    let units = ["B", "KB", "MB", "GB", "TB"];
    if bytes < 1000 {
        return format!("{bytes} B");
    }
    let mut value = bytes as f64;
    let mut unit = 0;
    while value >= 1000.0 && unit < 4 {
        value /= 1000.0;
        unit += 1;
    }
    format!("{value:.2} {}", units[unit])
}

#[test]
fn amounts_agree_with_floating_point() {
    let mut samples: Vec<u64> = vec![
        1_004, 1_005, 1_006, 1_015, 1_025, 1_125, 1_375, 1_995, 9_995, 99_995, 999_994, 999_995,
        999_999, 1_000_000, 1_005_000, 1_115_000, 9_007_199_254_740_993, 9_007_199_254_740_995,
        18_014_398_509_481_985, 36_028_797_018_963_971, u64::MAX, u64::MAX - 1023, u64::MAX - 1024,
        u64::MAX - 1025, 999_999_999_999, 999_994_999_999, 999_995_000_000,
    ];
    let mut x: u64 = 88172645463325252;
    for _ in 0..20_000 {
        x ^= x << 13;
        x ^= x >> 7;
        x ^= x << 17;
        samples.push(x >> (x % 60));
    }
    for i in 0..5_000u64 {
        samples.push(1_000 + 5 * i);
        samples.push((1 << 53) + i);
    }
    for s in samples {
        assert_eq!(format_bytes(s), by_floating_point(s), "{s}");
    }
}
