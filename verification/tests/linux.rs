use std::collections::HashMap;

use cortado::addr::{parse_ip, parse_ipv4, IpAddr, Ipv4Addr, Ipv6Addr};
use cortado::config::Config;
use cortado::net::Cidr;
use cortado::platform::linux::detect::{
    default_v4_oif, default_v6_present, link_info, link_mtu, LinkAttribute,
};
use cortado::platform::linux::dns::ResolvConf;
use cortado::platform::linux::route::{
    build_del_message, read_v4_gateway, read_v6_gateway, RouteAttribute, RouteEntry, RouteManager,
};
use cortado::platform::linux::tun::{tun_settings, TUN_NETMASK, TUN_PEER_ADDR};
use cortado::platform::routes::{
    goes_on, host_prefix, take_back, Hop, Item, Purpose, RouteAction, RouteStep,
};
use cortado::reload::ReloadPlan;

fn ip(s: &str) -> IpAddr {
    parse_ip(s).unwrap()
}

fn v4(s: &str) -> Ipv4Addr {
    parse_ipv4(s).unwrap()
}

fn v6(s: &str) -> Ipv6Addr {
    match ip(s) {
        IpAddr::V6(a) => a,
        _ => panic!("an IPv6 address"),
    }
}

type Table = HashMap<(String, u8), Hop>;

fn key(s: &RouteStep) -> (String, u8) {
    (s.dst.to_text(), s.prefix)
}

/// Carries out a plan, with the changes to `broken` failing, and tells how
/// many items went through.
fn perform(table: &mut Table, items: &[Item], broken: Option<&str>) -> usize {
    let mut done = 0;
    for item in items {
        let succeeded = match item {
            Item::Step(s) => {
                if broken == Some(s.dst.to_text().as_str()) {
                    false
                } else {
                    match s.action {
                        RouteAction::Add => {
                            table.insert(key(s), s.hop);
                            true
                        }
                        RouteAction::Delete => {
                            if table.get(&key(s)) == Some(&s.hop) {
                                table.remove(&key(s));
                                true
                            } else {
                                false
                            }
                        }
                    }
                }
            }
            _ => true,
        };
        if !goes_on(item, succeeded) {
            break;
        }
        done += 1;
    }
    done
}

fn manager(proxy: &str, bypass: Vec<(IpAddr, u8)>, capture_ipv6: bool) -> RouteManager {
    RouteManager::new(
        ip(proxy),
        7,
        ResolvConf::system(),
        Some(ip("1.1.1.1")),
        bypass,
        capture_ipv6,
    )
}

fn hop4() -> Hop {
    Hop::Gateway(ip("192.168.1.1"), Some(2))
}

fn first_table() -> Table {
    let mut t = Table::new();
    t.insert(("0.0.0.0".to_string(), 0), hop4());
    t.insert(("192.168.1.0".to_string(), 24), Hop::Gateway(ip("0.0.0.0"), Some(2)));
    t
}

#[test]
fn apply_pins_proxy_then_bypass_then_halves() {
    let mut m = manager("203.0.113.9", vec![(ip("10.0.0.0"), 8), (ip("fd00::"), 8)], true);
    let items = m.apply(Some((v4("192.168.1.1"), 2)), None);
    assert_eq!(m.gateway_for(ip("8.8.8.8")), Some((ip("192.168.1.1"), 2)));
    assert_eq!(m.gateway_for(ip("::1")), None);
    let step = |dst: &str, prefix: u8, hop: Hop, purpose: Purpose| {
        Item::Step(RouteStep {
            action: RouteAction::Add,
            dst: ip(dst),
            prefix,
            hop,
            purpose,
            required: true,
        })
    };
    assert_eq!(
        items,
        vec![
            step("203.0.113.9", 32, hop4(), Purpose::Proxy),
            step("10.0.0.0", 8, hop4(), Purpose::Bypass),
            Item::SkipBypass(ip("fd00::"), 8),
            step("0.0.0.0", 1, Hop::Tun, Purpose::Split),
            step("128.0.0.0", 1, Hop::Tun, Purpose::Split),
            Item::SkipIpv6,
        ]
    );
}

#[test]
fn apply_leads_ipv6_where_there_is_a_gateway() {
    let mut m = manager("203.0.113.9", vec![], true);
    let items = m.apply(Some((v4("192.168.1.1"), 2)), Some((v6("fe80::1"), 3)));
    assert_eq!(items.len(), 5);
    match items[4] {
        Item::Step(s) => {
            assert_eq!(s.dst, ip("8000::"));
            assert_eq!(s.prefix, 1);
            assert_eq!(s.hop, Hop::Tun);
        }
        _ => panic!("a route"),
    }
}

#[test]
fn apply_needs_a_gateway_to_the_proxy() {
    let mut m = manager("2001:db8::9", vec![(ip("10.0.0.0"), 8)], false);
    let items = m.apply(Some((v4("192.168.1.1"), 2)), None);
    assert_eq!(items, vec![Item::NoGateway(ip("2001:db8::9"))]);
    assert!(!goes_on(&items[0], true));
}

/// The hop of the route with the longest prefix that an address lies in.
fn way(table: &Table, to: &str) -> Option<Hop> {
    let a = ip(to);
    table
        .iter()
        .filter(|(k, _)| Cidr::new(ip(&k.0), k.1).contains(a))
        .max_by_key(|(k, _)| k.1)
        .map(|(_, hop)| *hop)
}

#[test]
fn traffic_takes_its_way() {
    let mut table = Table::new();
    table.insert(("0.0.0.0".to_string(), 0), hop4());
    let mut m = manager("203.0.113.9", vec![(ip("10.0.0.0"), 8)], true);
    let items = m.apply(Some((v4("192.168.1.1"), 2)), Some((v6("fe80::1"), 3)));
    perform(&mut table, &items, None);
    m.mark_applied();
    assert_eq!(way(&table, "203.0.113.9"), Some(hop4()));
    assert_eq!(way(&table, "203.0.113.10"), Some(Hop::Tun));
    assert_eq!(way(&table, "10.1.2.3"), Some(hop4()));
    assert_eq!(way(&table, "8.8.8.8"), Some(Hop::Tun));
    assert_eq!(way(&table, "200.1.2.3"), Some(Hop::Tun));
    assert_eq!(way(&table, "::1"), Some(Hop::Tun));
    assert_eq!(way(&table, "fd00::1"), Some(Hop::Tun));

    let mut cfg = Config::default();
    cfg.proxy_addr = "203.0.113.9:1080".to_string();
    cfg.bypass_cidrs = vec!["10.0.0.0/8".to_string()];
    let mut new = Config::default();
    new.proxy_addr = "203.0.113.10:1080".to_string();
    new.bypass_cidrs = vec!["172.16.0.0/12".to_string()];
    let plan = ReloadPlan::compute(&cfg, &new);
    let items = m.reload(&plan);
    let done = perform(&mut table, &items, None);
    m.finish_reload(plan, done);
    assert_eq!(way(&table, "203.0.113.9"), Some(Hop::Tun));
    assert_eq!(way(&table, "203.0.113.10"), Some(hop4()));
    assert_eq!(way(&table, "10.1.2.3"), Some(Hop::Tun));
    assert_eq!(way(&table, "172.16.2.3"), Some(hop4()));
}

#[test]
fn teardown_restores_the_table() {
    let mut table = first_table();
    let mut m = manager("203.0.113.9", vec![(ip("10.0.0.0"), 8), (ip("fd00::"), 8)], true);
    let items = m.apply(Some((v4("192.168.1.1"), 2)), Some((v6("fe80::1"), 3)));
    assert_eq!(perform(&mut table, &items, None), items.len());
    m.mark_applied();
    assert_eq!(table.len(), 9);

    let items = m.teardown();
    assert_eq!(perform(&mut table, &items, None), items.len());
    assert_eq!(table, first_table());
    assert!(m.teardown().is_empty());
}

#[test]
fn reload_moves_routes_and_teardown_restores() {
    let mut table = first_table();
    let mut cfg = Config::default();
    cfg.proxy_addr = "203.0.113.9:1080".to_string();
    cfg.bypass_cidrs = vec!["10.0.0.0/8".to_string()];
    let mut m = manager("203.0.113.9", vec![(ip("10.0.0.0"), 8)], false);
    let items = m.apply(Some((v4("192.168.1.1"), 2)), None);
    perform(&mut table, &items, None);
    m.mark_applied();

    let mut new = Config::default();
    new.proxy_addr = "198.51.100.7:1080".to_string();
    new.bypass_cidrs = vec!["172.16.0.0/12".to_string()];
    let plan = ReloadPlan::compute(&cfg, &new);
    let items = m.reload(&plan);
    assert_eq!(items.len(), 4);
    let done = perform(&mut table, &items, None);
    m.finish_reload(plan, done);
    m.note_dns(Some(ip("9.9.9.9")));
    assert_eq!(m.proxy_ip, ip("198.51.100.7"));
    assert_eq!(m.bypass, vec![(ip("172.16.0.0"), 12)]);
    assert_eq!(m.dns_server, Some(ip("9.9.9.9")));
    assert!(table.contains_key(&("198.51.100.7".to_string(), 32)));
    assert!(!table.contains_key(&("203.0.113.9".to_string(), 32)));
    assert!(table.contains_key(&("172.16.0.0".to_string(), 12)));
    assert!(!table.contains_key(&("10.0.0.0".to_string(), 8)));

    let items = m.teardown();
    perform(&mut table, &items, None);
    assert_eq!(table, first_table());
}

#[test]
fn reload_that_breaks_off_keeps_what_it_reached() {
    let mut table = first_table();
    let cfg = Config::default();
    let mut m = manager("127.0.0.1", vec![], false);
    let items = m.apply(Some((v4("192.168.1.1"), 2)), None);
    perform(&mut table, &items, None);
    m.mark_applied();

    let mut new = Config::default();
    new.proxy_addr = "198.51.100.7:1080".to_string();
    new.bypass_cidrs = vec!["172.16.0.0/12".to_string()];
    let plan = ReloadPlan::compute(&cfg, &new);
    let items = m.reload(&plan);
    let done = perform(&mut table, &items, Some("172.16.0.0"));
    assert_eq!(done, 2);
    m.finish_reload(plan, done);
    assert_eq!(m.proxy_ip, ip("198.51.100.7"));
    assert!(m.bypass.is_empty());

    let plan = ReloadPlan::compute(&new, &cfg);
    let items = m.reload(&plan);
    let done = perform(&mut table, &items, Some("127.0.0.1"));
    assert!(done < items.len());
    m.finish_reload(plan, done);
    assert_eq!(m.proxy_ip, ip("198.51.100.7"));
}

#[test]
fn reload_without_gateway_for_new_proxy_stops() {
    let cfg = Config::default();
    let mut m = manager("127.0.0.1", vec![], false);
    m.apply(Some((v4("192.168.1.1"), 2)), None);
    m.mark_applied();
    let mut new = Config::default();
    new.proxy_addr = "[2001:db8::9]:1080".to_string();
    let plan = ReloadPlan::compute(&cfg, &new);
    let items = m.reload(&plan);
    assert_eq!(items.len(), 2);
    assert_eq!(items[1], Item::NoGateway(ip("2001:db8::9")));
    m.finish_reload(plan, 1);
    assert_eq!(m.proxy_ip, ip("127.0.0.1"));
}

#[test]
fn nothing_is_reloaded_before_routes_are_in_place() {
    let mut new = Config::default();
    new.proxy_addr = "198.51.100.7:1080".to_string();
    let plan = ReloadPlan::compute(&Config::default(), &new);
    let m = manager("127.0.0.1", vec![], false);
    assert!(m.reload(&plan).is_empty());
}

#[test]
fn gateways_are_read_from_default_routes() {
    let route = |prefix: u8, attributes: Vec<RouteAttribute>| RouteEntry {
        destination_prefix_length: prefix,
        attributes,
    };
    let full = route(
        0,
        vec![
            RouteAttribute::Other,
            RouteAttribute::Gateway(ip("192.168.1.1")),
            RouteAttribute::Oif(2),
        ],
    );
    assert_eq!(read_v4_gateway(&full), Some((v4("192.168.1.1"), 2)));
    assert_eq!(read_v6_gateway(&full), None);
    assert_eq!(default_v4_oif(&full), Some(2));
    assert!(!default_v6_present(&full));

    let other = route(24, full.attributes.clone());
    assert_eq!(read_v4_gateway(&other), None);
    assert_eq!(default_v4_oif(&other), None);

    let twice = route(
        0,
        vec![
            RouteAttribute::Oif(5),
            RouteAttribute::Gateway(ip("10.0.0.1")),
            RouteAttribute::Gateway(ip("10.0.0.2")),
            RouteAttribute::Oif(6),
        ],
    );
    assert_eq!(read_v4_gateway(&twice), Some((v4("10.0.0.2"), 6)));
    assert_eq!(default_v4_oif(&twice), Some(5));

    let linkless = route(0, vec![RouteAttribute::Gateway(ip("fe80::1"))]);
    assert_eq!(read_v6_gateway(&linkless), None);
    assert!(default_v6_present(&linkless));
    let six = route(
        0,
        vec![RouteAttribute::Gateway(ip("fe80::1")), RouteAttribute::Oif(3)],
    );
    assert_eq!(read_v6_gateway(&six), Some((v6("fe80::1"), 3)));
}

#[test]
fn link_is_told_by_its_attributes() {
    assert_eq!(
        link_mtu(&[LinkAttribute::Other, LinkAttribute::Mtu(9000), LinkAttribute::Mtu(1)]),
        Some(9000)
    );
    assert_eq!(link_mtu(&[LinkAttribute::Other]), None);
    let info = link_info(Some((Some(1400), true)));
    assert_eq!((info.mtu, info.has_ipv6_gateway), (Some(1400), true));
    let info = link_info(None);
    assert_eq!((info.mtu, info.has_ipv6_gateway), (None, false));
}

#[test]
fn delete_message_names_the_route() {
    let m = build_del_message(ip("10.0.0.0"), 8, 2, Some(ip("192.168.1.1")));
    assert!(!m.ipv6);
    assert_eq!(m.destination_prefix_length, 8);
    assert_eq!(
        m.attributes,
        vec![
            RouteAttribute::Destination(ip("10.0.0.0")),
            RouteAttribute::Gateway(ip("192.168.1.1")),
            RouteAttribute::Oif(2),
        ]
    );
    let m = build_del_message(ip("8000::"), 1, 7, None);
    assert!(m.ipv6);
    assert_eq!(
        m.attributes,
        vec![
            RouteAttribute::Destination(ip("8000::")),
            RouteAttribute::Oif(7),
        ]
    );
    assert_eq!(host_prefix(ip("1.2.3.4")), 32);
    assert_eq!(host_prefix(ip("::1")), 128);
}

#[test]
fn device_settings() {
    let cfg = Config::default();
    let s = tun_settings(&cfg, 1400);
    assert_eq!(s.name, "cortado0");
    assert_eq!(s.address, v4("10.0.0.1"));
    assert_eq!(s.destination, v4(TUN_PEER_ADDR));
    assert_eq!(s.netmask, v4(TUN_NETMASK));
    assert_eq!(s.mtu, 1400);
}

#[test]
fn start_that_breaks_off_is_taken_back() {
    let mut m = manager("203.0.113.9", vec![(ip("10.0.0.0"), 8)], true);
    let items = m.apply(Some((v4("192.168.1.1"), 2)), None);
    let mut table = first_table();
    let done = perform(&mut table, &items, Some("0.0.0.0"));
    assert!(0 < done && done < items.len());
    assert_ne!(table, first_table());
    let back = take_back(&items, done);
    assert_eq!(back.len(), 2);
    for item in &back {
        match item {
            Item::Step(s) => {
                assert_eq!(s.action, RouteAction::Delete);
                assert!(!s.required);
            }
            _ => panic!("a change"),
        }
    }
    perform(&mut table, &back, None);
    assert_eq!(table, first_table());
}

#[test]
fn whole_start_is_taken_back() {
    let mut m = manager("203.0.113.9", vec![(ip("10.0.0.0"), 8), (ip("fd00::"), 8)], true);
    let items = m.apply(Some((v4("192.168.1.1"), 2)), None);
    let mut table = first_table();
    let done = perform(&mut table, &items, None);
    assert_eq!(done, items.len());
    perform(&mut table, &take_back(&items, done), None);
    assert_eq!(table, first_table());
    assert!(take_back(&items, 0).is_empty());
}
