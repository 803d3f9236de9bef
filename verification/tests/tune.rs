use cortado::tune::{
    fd_limit_after_request, fd_limit_to_request, read_total_memory, SystemProbe, Tuning,
    FALLBACK_MTU, MAX_MTU, MIN_MTU, RELAY_BUF_MAX, RELAY_BUF_MIN, TCP_CONN_MIN,
    UDP_IDLE_TIMEOUT_NANOS, UDP_PER_TCP, UDP_SESSION_MIN,
};

fn probe(mtu: Option<u32>, v6: bool, mem: Option<u64>, fds: Option<u64>) -> SystemProbe {
    SystemProbe {
        link_mtu: mtu,
        has_ipv6_gateway: v6,
        total_memory_bytes: mem,
        fd_limit: fds,
    }
}

#[test]
fn uses_detected_mtu_and_v6_gateway() {
    let t = Tuning::compute(&probe(Some(9000), true, Some(8 << 30), Some(1 << 20)));
    assert_eq!(t.mtu, 9000);
    assert!(t.capture_ipv6);
    assert!(t.relay_buf_size <= RELAY_BUF_MAX);
    assert!(t.relay_buf_size >= RELAY_BUF_MIN);
}

#[test]
fn clamps_extreme_mtu() {
    assert_eq!(
        Tuning::compute(&probe(Some(50), false, None, None)).mtu,
        MIN_MTU
    );
    assert_eq!(
        Tuning::compute(&probe(Some(100000), false, None, None)).mtu,
        MAX_MTU
    );
}

#[test]
fn connection_cap_is_fd_limited_when_fds_are_scarce() {
    let t = Tuning::compute(&probe(Some(1500), false, Some(8 << 30), Some(1024)));
    assert_eq!(t.max_tcp_connections, ((1024 - 64) / 2) as usize);
    assert_eq!(t.max_udp_sessions, t.max_tcp_connections / UDP_PER_TCP);
}

#[test]
fn falls_back_without_system_state() {
    let t = Tuning::compute(&probe(None, false, None, None));
    assert_eq!(t.mtu, FALLBACK_MTU);
    assert!(!t.capture_ipv6);
    assert!(t.max_tcp_connections >= TCP_CONN_MIN);
    assert!(t.max_udp_sessions >= UDP_SESSION_MIN);
    assert_eq!(t.udp_idle_timeout.nanos, UDP_IDLE_TIMEOUT_NANOS);
}

#[test]
fn jumbo_mtu_grows_buffers_versus_small_mtu() {
    let small = Tuning::compute(&probe(Some(1500), false, Some(8 << 30), Some(1 << 20)));
    let jumbo = Tuning::compute(&probe(Some(9000), false, Some(8 << 30), Some(1 << 20)));
    assert!(jumbo.relay_buf_size > small.relay_buf_size);
    assert!(jumbo.relay_copy_buf_size > small.relay_copy_buf_size);
}

#[test]
fn exact_values() {
    let t = Tuning::compute(&probe(Some(1500), true, Some(8 << 30), Some(1 << 20)));
    assert_eq!(t.relay_buf_size, 264_000);
    assert_eq!(t.relay_copy_buf_size, 32_768);
    assert_eq!(t.stack_buf_size, 4096);
    assert_eq!(t.max_tcp_connections, 3829);
    assert_eq!(t.max_udp_sessions, 957);
    let tiny = Tuning::compute(&probe(Some(1500), false, Some(0), Some(0)));
    assert_eq!(tiny.stack_buf_size, 512);
    assert_eq!(tiny.max_tcp_connections, 128);
    assert_eq!(tiny.max_udp_sessions, 64);
    let huge = Tuning::compute(&probe(Some(576), false, Some(u64::MAX), Some(u64::MAX)));
    assert_eq!(huge.max_tcp_connections, 65536);
    assert_eq!(huge.max_udp_sessions, 16384);
    assert_eq!(huge.relay_buf_size, 131_072);
}

#[test]
fn summary_text() {
    let t = Tuning::compute(&probe(Some(1500), true, Some(8 << 30), Some(1 << 20)));
    assert_eq!(
        t.summary(),
        "auto-tuned: mtu=1500 relay_buf=264000 copy_buf=32768 stack_depth=4096 max_tcp=3829 max_udp=957 udp_idle=60s capture_ipv6=true"
    );
}

#[test]
fn more_memory_or_files_never_lower_a_limit() {
    let mut last = 0;
    for shift in 20..45 {
        let t = Tuning::compute(&probe(Some(1500), false, Some(1 << shift), Some(1 << 20)));
        assert!(t.max_tcp_connections >= last);
        last = t.max_tcp_connections;
    }
}

#[test]
fn connections_fit_into_a_quarter_of_memory() {
    let t = Tuning::compute(&probe(Some(9000), false, Some(16 << 30), Some(1 << 20)));
    assert!(t.max_tcp_connections > TCP_CONN_MIN);
    let each = (2 * t.relay_buf_size + t.relay_copy_buf_size) as u64;
    assert!(t.max_tcp_connections as u64 * each <= 4 << 30);
}

#[test]
fn memory_from_meminfo() {
    assert_eq!(
        read_total_memory("MemTotal:       16384 kB\nMemFree: 1 kB\n"),
        Some(16384 * 1024)
    );
    assert_eq!(read_total_memory("MemFree: 1 kB\r\nMemTotal: 7"), Some(7168));
    assert_eq!(read_total_memory("MemTotal:"), None);
    assert_eq!(read_total_memory("MemTotal: many\nMemTotal: 3"), None);
    assert_eq!(read_total_memory(" MemTotal: 3"), None);
    assert_eq!(read_total_memory(""), None);
    assert_eq!(read_total_memory("MemTotal: 18446744073709551615"), Some(u64::MAX));
    assert_eq!(read_total_memory("MemTotal: 18446744073709551616"), None);
    assert_eq!(read_total_memory("MemTotal:\t+2"), Some(2048));
}

#[test]
fn limit_on_open_files() {
    assert_eq!(fd_limit_to_request(Some(1024), Some(4096)), Some(4096));
    assert_eq!(fd_limit_to_request(Some(4096), Some(4096)), None);
    assert_eq!(fd_limit_to_request(None, Some(4096)), None);
    assert_eq!(fd_limit_to_request(Some(1024), None), None);
    assert_eq!(fd_limit_after_request(Some(1024), Some(4096), true), Some(4096));
    assert_eq!(fd_limit_after_request(Some(1024), Some(4096), false), Some(1024));
    assert_eq!(fd_limit_after_request(None, None, true), None);
}
