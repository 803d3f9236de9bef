use std::sync::Arc;

use cortado::addr::{parse_ip, parse_socket, IpAddr};
use cortado::config::{Config, ProxyConfig};
use cortado::net::{RouteDecision, RouteTable};
use cortado::reload::{immutable_changes, ReloadPlan, Shared, IMMUTABLE_FIELDS};

fn ip(s: &str) -> IpAddr {
    parse_ip(s).unwrap()
}

#[test]
fn shared_swaps_atomically() {
    let p1 = Arc::new(ProxyConfig::from_config(&Config::default()));
    let routes = Arc::new(RouteTable::default());
    let mut shared = Shared::new(Arc::clone(&p1), routes);
    assert_eq!(shared.proxy().addr, p1.addr);

    let mut cfg2 = Config::default();
    cfg2.proxy_addr = "10.0.0.9:9050".into();
    let p2 = Arc::new(ProxyConfig::from_config(&cfg2));
    shared.store_proxy(Arc::clone(&p2));
    assert_eq!(shared.proxy().addr, p2.addr);
}

#[test]
fn shared_routes_swap() {
    let p = Arc::new(ProxyConfig::from_config(&Config::default()));
    let mut shared = Shared::new(p, Arc::new(RouteTable::default()));
    assert!(shared.routes().is_empty());
    shared.store_routes(Arc::new(RouteTable::new(&[(ip("10.0.0.0"), 8)])));
    assert_eq!(shared.routes().len(), 1);
    assert_eq!(shared.routes().decide(ip("10.1.1.1")), RouteDecision::Direct);
    assert_eq!(Some(shared.proxy().addr), parse_socket("127.0.0.1:1080"));
}

#[test]
fn noop_plan_when_unchanged() {
    let cfg = Config::default();
    let plan = ReloadPlan::compute(&cfg, &cfg);
    assert!(plan.is_noop());
}

#[test]
fn detects_proxy_address_change() {
    let old = Config::default();
    let mut new = Config::default();
    new.proxy_addr = "203.0.113.9:1080".into();
    let plan = ReloadPlan::compute(&old, &new);
    assert!(plan.proxy_changed);
    assert_eq!(
        plan.proxy_route_change,
        Some((ip("127.0.0.1"), ip("203.0.113.9")))
    );
    assert!(!plan.is_noop());
}

#[test]
fn detects_bypass_changes() {
    let mut old = Config::default();
    old.bypass_cidrs = vec!["10.0.0.0/8".into()];
    let mut new = Config::default();
    new.bypass_cidrs = vec!["192.168.0.0/16".into()];
    let plan = ReloadPlan::compute(&old, &new);
    assert_eq!(plan.bypass_add, vec![(ip("192.168.0.0"), 16)]);
    assert_eq!(plan.bypass_remove, vec![(ip("10.0.0.0"), 8)]);
}

#[test]
fn detects_dns_change() {
    let old = Config::default();
    let mut new = Config::default();
    new.dns_server = "9.9.9.9".into();
    let plan = ReloadPlan::compute(&old, &new);
    assert!(plan.dns_changed);
    assert_eq!(plan.dns, Some(ip("9.9.9.9")));
}

#[test]
fn dns_unchanged_when_override_off() {
    let mut old = Config::default();
    old.override_dns = false;
    let mut new = Config::default();
    new.override_dns = false;
    new.dns_server = "9.9.9.9".into();
    let plan = ReloadPlan::compute(&old, &new);
    assert!(!plan.dns_changed);
    assert_eq!(plan.dns, None);
}

#[test]
fn flags_immutable_field_changes() {
    let old = Config::default();
    let mut new = Config::default();
    new.tun_ip = "10.9.0.1".into();
    new.tun_name = "tun9".into();
    let changed = immutable_changes(&old, &new);
    assert!(changed.contains(&"tun_ip"));
    assert!(changed.contains(&"tun_name"));
}

#[test]
fn no_immutable_changes_for_proxy_only_edit() {
    let old = Config::default();
    let mut new = Config::default();
    new.proxy_addr = "203.0.113.9:1080".into();
    assert!(immutable_changes(&old, &new).is_empty());
}

#[test]
fn all_immutable_fields_are_reported_in_order() {
    let old = Config::default();
    let mut new = Config::default();
    new.tun_ip = "10.9.0.1".into();
    new.tun_name = "tun9".into();
    new.metrics_addr = Some("127.0.0.1:9".into());
    assert_eq!(immutable_changes(&old, &new), IMMUTABLE_FIELDS.to_vec());
    let plan = ReloadPlan::compute(&old, &new);
    assert!(plan.is_noop());
}

#[test]
fn new_port_changes_the_proxy_but_not_its_route() {
    let old = Config::default();
    let mut new = Config::default();
    new.proxy_addr = "127.0.0.1:1081".into();
    let plan = ReloadPlan::compute(&old, &new);
    assert!(plan.proxy_changed);
    assert_eq!(plan.proxy_route_change, None);
    assert!(!plan.is_noop());
}

#[test]
fn new_credentials_change_the_proxy() {
    let mut old = Config::default();
    old.username = Some("u".into());
    old.password = Some("p".into());
    let mut new = Config::default();
    new.username = Some("u".into());
    new.password = Some("q".into());
    let plan = ReloadPlan::compute(&old, &new);
    assert!(plan.proxy_changed);
    assert_eq!(plan.proxy.password.as_deref(), Some("q"));
    assert_eq!(plan.route_table.len(), 0);
    assert_eq!(plan.new_bypass.len(), 0);
}

#[test]
fn reordered_bypass_networks_are_no_change() {
    let mut old = Config::default();
    old.bypass_cidrs = vec!["10.0.0.0/8".into(), "fd00::/8".into()];
    let mut new = Config::default();
    new.bypass_cidrs = vec!["fd00::/8".into(), "10.0.0.0/8".into()];
    assert!(ReloadPlan::compute(&old, &new).is_noop());
}
