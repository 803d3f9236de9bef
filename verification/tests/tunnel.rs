use cortado::addr::{parse_ip, parse_socket, IpAddr};
use cortado::config::{Config, ProxyConfig};
use cortado::dns::DnsPool;
use cortado::net::{RouteDecision, RouteTable};
use cortado::reload::{immutable_changes, take_over, Shared};
use cortado::socks::connect_failure;
use cortado::stats::Stats;
use cortado::time::Duration;
use cortado::tune::{SystemProbe, Tuning};
use cortado::tunnel::{
    decide_reload, finish_reload, is_handshake_failure, mentions_handshake, on_connect_failed,
    on_flow_opened, on_relay_ended, plan_run, report, run_step, start, ReloadDecision, RunAction,
    RunEvent,
};
use cortado::LoadError;
use std::sync::Arc;

fn ip(s: &str) -> IpAddr {
    parse_ip(s).unwrap()
}

fn tuning() -> Tuning {
    Tuning::compute(&SystemProbe {
        link_mtu: Some(1500),
        has_ipv6_gateway: true,
        total_memory_bytes: None,
        fd_limit: None,
    })
}

#[test]
fn flow_is_counted_from_start_to_end() {
    let mut stats = Stats::new();
    let guard = on_flow_opened(&mut stats, RouteDecision::Proxy);
    assert_eq!(stats.tcp_active.value, 1);
    assert_eq!(stats.route_proxy.value, 1);
    on_relay_ended(&mut stats, ip("8.8.8.8"), Some((10, 32)));
    guard.release(&mut stats.tcp_active);
    assert_eq!(stats.tcp_opened.value, 1);
    assert_eq!(stats.tcp_closed.value, 1);
    assert_eq!(stats.tcp_active.value, 0);
    assert_eq!(stats.tcp_errors.value, 0);
    assert_eq!(stats.bytes_tx.value, 10);
    assert_eq!(stats.bytes_rx.value, 32);
    assert_eq!(stats.bytes_v4.value, 42);
}

#[test]
fn failed_flows_are_counted() {
    let mut stats = Stats::new();
    let guard = on_flow_opened(&mut stats, RouteDecision::Direct);
    on_connect_failed(&mut stats, true);
    guard.release(&mut stats.tcp_active);
    let guard = on_flow_opened(&mut stats, RouteDecision::Direct);
    on_connect_failed(&mut stats, false);
    guard.release(&mut stats.tcp_active);
    let guard = on_flow_opened(&mut stats, RouteDecision::Direct);
    on_relay_ended(&mut stats, ip("::1"), None);
    guard.release(&mut stats.tcp_active);
    assert_eq!(stats.route_direct.value, 3);
    assert_eq!(stats.tcp_opened.value, 3);
    assert_eq!(stats.tcp_closed.value, 3);
    assert_eq!(stats.tcp_errors.value, 3);
    assert_eq!(stats.conn_failures.value, 2);
    assert_eq!(stats.socks_handshake_failures.value, 1);
    assert_eq!(stats.tcp_active.value, 0);
    assert_eq!(stats.bytes_v6.value, 0);
}

#[test]
fn handshake_failures_are_told_apart() {
    assert!(is_handshake_failure("SOCKS5 connect failed: Connection refused"));
    assert!(is_handshake_failure("Authentication rejected"));
    assert!(is_handshake_failure("TLS HANDSHAKE broken"));
    assert!(!is_handshake_failure("connection reset by peer"));
    assert!(!is_handshake_failure(""));
    assert!(!is_handshake_failure("sock puppet"));
    assert!(mentions_handshake("a socks b"));
    assert!(!mentions_handshake("a SOCKS b"));
}

#[test]
fn letters_beyond_ascii_are_lowered_too() {
    assert!(is_handshake_failure("\u{c4}\u{d6} SOC\u{212a}S"));
}

#[test]
fn every_failed_connect_is_a_handshake_failure() {
    for with_password in [false, true] {
        for timed_out in [false, true] {
            let fault = format!("{}: refused", connect_failure(with_password, timed_out));
            assert!(is_handshake_failure(&fault));
        }
    }
}

#[test]
fn report_lists_the_counters() {
    let mut stats = Stats::new();
    stats.tcp_active.value = 1;
    stats.tcp_opened.value = 2;
    stats.tcp_errors.value = 3;
    stats.udp_active.value = 4;
    stats.udp_packets.value = 5;
    stats.udp_errors.value = 6;
    stats.dns_requests.value = 7;
    stats.dns_failures.value = 8;
    stats.bytes_tx.value = 999;
    stats.bytes_rx.value = 2_340_000;
    assert_eq!(
        report(&stats),
        "stats: tcp_active=1 tcp_open=2 tcp_err=3 udp_active=4 udp_pkts=5 udp_err=6 dns_req=7 dns_fail=8 tx=999 B rx=2.34 MB"
    );
}

#[test]
fn only_a_reload_keeps_the_tunnel_up() {
    assert_eq!(run_step(RunEvent::Reload), RunAction::Reload);
    assert_eq!(run_step(RunEvent::Shutdown), RunAction::Stop);
    assert_eq!(run_step(RunEvent::UdpEnded), RunAction::Stop);
    assert_eq!(run_step(RunEvent::StartFailed), RunAction::Stop);
}

#[test]
fn parts_start_from_configuration_and_host() {
    let mut cfg = Config::default();
    cfg.metrics_addr = Some("127.0.0.1:9100".to_string());
    cfg.bypass_cidrs = vec!["10.0.0.0/8".to_string()];
    let t = tuning();
    let plan = plan_run(&cfg, &t);
    assert_eq!(plan.mtu, 1500);
    assert_eq!(plan.stack_buf_size, t.stack_buf_size);
    assert_eq!(plan.tcp_buf_size, t.relay_buf_size);
    assert_eq!(plan.udp_buf_size, t.relay_buf_size);
    assert_eq!(plan.relay_copy_buf_size, t.relay_copy_buf_size);
    assert_eq!(plan.max_tcp_connections, t.max_tcp_connections);
    assert!(plan.capture_ipv6);
    assert_eq!(plan.udp.max_sessions, t.max_udp_sessions);
    assert_eq!(plan.udp.idle_timeout, Duration::from_secs(60));
    assert!(plan.udp.dns_over_tcp);
    assert_eq!(plan.metrics, parse_socket("127.0.0.1:9100"));

    let (shared, pool) = start(&cfg, &t);
    assert_eq!(Some(shared.proxy().addr), parse_socket("127.0.0.1:1080"));
    assert_eq!(
        shared.routes().decide(ip("10.2.3.4")),
        RouteDecision::Direct
    );
    assert_eq!(shared.routes().decide(ip("11.2.3.4")), RouteDecision::Proxy);
    assert_eq!(Some(pool.proxy().addr), parse_socket("127.0.0.1:1080"));
    assert_eq!(pool.query_timeout(), shared.proxy().connect_timeout);
    assert_eq!(pool.idle_timeout(), Duration::from_secs(60));
    assert_eq!(pool.conn_count(), 0);
}

fn running(cfg: &Config) -> (Shared, DnsPool) {
    let proxy = Arc::new(ProxyConfig::from_config(cfg));
    let shared = Shared::new(Arc::clone(&proxy), Arc::new(RouteTable::default()));
    let pool = DnsPool::new(proxy, Duration::from_secs(5), Duration::from_secs(60));
    (shared, pool)
}

#[test]
fn reload_that_asks_nothing() {
    let cfg = Config::default();
    let mut new = Config::default();
    new.tun_name = "other0".to_string();
    match decide_reload(&cfg, Ok(&new)) {
        ReloadDecision::Nothing => {}
        _ => panic!("nothing to do"),
    }
    match decide_reload(&cfg, Err(LoadError::Unparsable)) {
        ReloadDecision::Keep(e) => assert_eq!(e, LoadError::Unparsable),
        _ => panic!("the old one is kept"),
    }
}

#[test]
fn reload_takes_effect() {
    let mut current = Config::default();
    let (mut shared, mut pool) = running(&current);
    let mut stats = Stats::new();
    let server = parse_socket("8.8.8.8:53").unwrap();
    pool.register(server, 0, &mut stats);
    assert_eq!(pool.conn_count(), 1);

    let mut new = Config::default();
    new.proxy_addr = "203.0.113.9:1080".to_string();
    new.bypass_cidrs = vec!["192.168.0.0/16".to_string()];
    let plan = match decide_reload(&current, Ok(&new)) {
        ReloadDecision::Apply(plan) => plan,
        _ => panic!("a plan"),
    };
    finish_reload(plan, new, &mut current, &mut shared, &mut pool, &mut stats);
    assert_eq!(current.proxy_addr, "203.0.113.9:1080");
    assert_eq!(Some(shared.proxy().addr), parse_socket("203.0.113.9:1080"));
    assert_eq!(Some(pool.proxy().addr), parse_socket("203.0.113.9:1080"));
    assert_eq!(pool.conn_count(), 0);
    assert_eq!(
        shared.routes().decide(ip("192.168.1.1")),
        RouteDecision::Direct
    );
    assert_eq!(stats.config_reloads.value, 1);
}

#[test]
fn reload_of_routes_keeps_pooled_connections() {
    let mut current = Config::default();
    let (mut shared, mut pool) = running(&current);
    let mut stats = Stats::new();
    pool.register(parse_socket("8.8.8.8:53").unwrap(), 0, &mut stats);
    let mut new = Config::default();
    new.bypass_cidrs = vec!["192.168.0.0/16".to_string()];
    let plan = match decide_reload(&current, Ok(&new)) {
        ReloadDecision::Apply(plan) => plan,
        _ => panic!("a plan"),
    };
    finish_reload(plan, new, &mut current, &mut shared, &mut pool, &mut stats);
    assert_eq!(pool.conn_count(), 1);
    assert_eq!(shared.routes().len(), 1);
}

#[test]
fn fields_that_need_a_restart_stay_reported() {
    let mut current = Config::default();
    let (mut shared, mut pool) = running(&current);
    let mut stats = Stats::new();
    let edited = || {
        let mut new = Config::default();
        new.tun_name = "tun9".to_string();
        new.metrics_addr = Some("127.0.0.1:9100".to_string());
        new.proxy_addr = "203.0.113.9:1080".to_string();
        new
    };
    assert_eq!(
        immutable_changes(&current, &edited()),
        vec!["tun_name", "metrics_addr"]
    );
    let plan = match decide_reload(&current, Ok(&edited())) {
        ReloadDecision::Apply(plan) => plan,
        _ => panic!("a plan"),
    };
    finish_reload(plan, edited(), &mut current, &mut shared, &mut pool, &mut stats);
    assert_eq!(current.proxy_addr, "203.0.113.9:1080");
    assert_eq!(current.tun_name, "cortado0");
    assert_eq!(current.metrics_addr, None);

    assert_eq!(
        immutable_changes(&current, &edited()),
        vec!["tun_name", "metrics_addr"]
    );
    assert!(matches!(
        decide_reload(&current, Ok(&edited())),
        ReloadDecision::Nothing
    ));
    take_over(&mut current, edited());
    assert_eq!(current.tun_name, "cortado0");
    assert_eq!(
        immutable_changes(&current, &edited()),
        vec!["tun_name", "metrics_addr"]
    );
}

#[test]
fn taking_over_keeps_what_needs_a_restart() {
    let mut current = Config::default();
    let mut new = Config::default();
    new.tun_name = "tun9".to_string();
    new.tun_ip = "10.9.9.9".to_string();
    new.metrics_addr = Some("127.0.0.1:9100".to_string());
    new.username = Some("u".to_string());
    new.verbose = true;
    take_over(&mut current, new);
    assert_eq!(current.tun_name, "cortado0");
    assert_eq!(current.tun_ip, "10.0.0.1");
    assert_eq!(current.metrics_addr, None);
    assert_eq!(current.username.as_deref(), Some("u"));
    assert!(current.verbose);
}
