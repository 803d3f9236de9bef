use cortado::metrics::{render, reply, response};
use cortado::stats::{add, GaugeGuard, Stats};

#[test]
fn render_contains_all_metrics() {
    let text = render(&Stats::new());
    for name in [
        "cortado_tcp_opened_total",
        "cortado_tcp_closed_total",
        "cortado_tcp_errors_total",
        "cortado_udp_packets_total",
        "cortado_udp_errors_total",
        "cortado_bytes_tx_total",
        "cortado_bytes_rx_total",
        "cortado_bytes_ipv4_total",
        "cortado_bytes_ipv6_total",
        "cortado_dns_requests_total",
        "cortado_dns_failures_total",
        "cortado_route_direct_total",
        "cortado_route_proxy_total",
        "cortado_conn_failures_total",
        "cortado_socks_handshake_failures_total",
        "cortado_tcp_sessions_active",
        "cortado_udp_sessions_active",
        "cortado_config_reloads_total",
    ] {
        assert!(text.contains(name), "missing metric {name}");
    }
    assert!(text.contains("# TYPE cortado_tcp_opened_total counter"));
    assert!(text.contains("# TYPE cortado_tcp_sessions_active gauge"));
}

#[test]
fn gauges_reflect_active_sessions() {
    let mut stats = Stats::new();
    let before = render(&stats);
    assert!(before.contains("cortado_tcp_sessions_active"));
    let _g = GaugeGuard::new(&mut stats.tcp_active);
    let during = render(&stats);
    let line = during
        .lines()
        .find(|l| l.starts_with("cortado_tcp_sessions_active "))
        .unwrap();
    let value: u64 = line.rsplit(' ').next().unwrap().parse().unwrap();
    assert!(value >= 1);
}

#[test]
fn render_is_exact() {
    let mut stats = Stats::new();
    add(&mut stats.bytes_tx, 18446744073709551615);
    add(&mut stats.dns_pool_hits, 7);
    let text = render(&stats);
    assert_eq!(text.lines().count(), 60);
    assert!(text.starts_with(
        "# HELP cortado_tcp_opened_total TCP connections opened\n# TYPE cortado_tcp_opened_total counter\ncortado_tcp_opened_total 0\n# HELP cortado_tcp_closed_total TCP connections closed\n"
    ));
    assert!(text.contains("cortado_bytes_tx_total 18446744073709551615\n"));
    assert!(text.contains(
        "# HELP cortado_dns_pool_hits_total DNS queries served by a reused connection\n# TYPE cortado_dns_pool_hits_total counter\ncortado_dns_pool_hits_total 7\n"
    ));
    assert!(text.ends_with(
        "# HELP cortado_udp_sessions_active Active UDP sessions\n# TYPE cortado_udp_sessions_active gauge\ncortado_udp_sessions_active 0\n"
    ));
}

#[test]
fn reply_to_a_scrape() {
    assert_eq!(
        response("é"),
        "HTTP/1.1 200 OK\r\nContent-Type: text/plain; version=0.0.4\r\nContent-Length: 2\r\nConnection: close\r\n\r\né"
    );
    let stats = Stats::new();
    assert_eq!(reply(&stats), response(&render(&stats)));
}
