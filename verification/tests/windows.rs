use cortado::addr::{parse_ip, IpAddr};
use cortado::config::Config;
use cortado::platform::routes::{Hop, Item, Purpose, RouteAction, RouteStep};
use cortado::platform::windows::detect::{
    default_interface_mtu, has_ipv6_default_route, link_info, number_in, some_counted_in,
};
use cortado::platform::windows::dns::{set_dhcp, set_static, DnsAction, NetshDns};
use cortado::platform::windows::route::{
    default_gateway, gateway_in, mask_to_prefix, render_args, WindowsRoutes,
};
use cortado::platform::windows::tun::{address_args, is_writable, mtu_args, Pending};
use cortado::reload::ReloadPlan;

fn ip(s: &str) -> IpAddr {
    parse_ip(s).unwrap()
}

#[test]
fn numbers_are_read() {
    assert_eq!(number_in("1500\r\n1400\r\n"), Some(1500));
    assert_eq!(number_in("  \r\n 1500 \r\n"), Some(1500));
    assert_eq!(number_in("none"), None);
    assert_eq!(number_in(""), None);
    assert_eq!(number_in("4294967296"), None);
    assert_eq!(default_interface_mtu(b"1500\r\n"), Some(1500));
    assert!(some_counted_in("2\r\n"));
    assert!(!some_counted_in("0\r\n"));
    assert!(!some_counted_in(""));
    assert!(has_ipv6_default_route(b"1\r\n"));
    assert!(!has_ipv6_default_route(b"\xff\r\n"));
    let info = link_info(None, true);
    assert_eq!((info.mtu, info.has_ipv6_gateway), (None, true));
}

#[test]
fn gateway_is_read() {
    assert_eq!(gateway_in(" 192.168.1.1\r\n"), Some(ip("192.168.1.1")));
    assert_eq!(gateway_in("192.168.1.1\r\n10.0.0.1\r\n"), None);
    assert_eq!(default_gateway(b"192.168.1.1\r\n"), Some(ip("192.168.1.1")));
    assert_eq!(default_gateway(b"\xff192.168.1.1"), None);
}

#[test]
fn masks_have_prefix_lengths() {
    assert_eq!(mask_to_prefix("128.0.0.0"), 1);
    assert_eq!(mask_to_prefix("255.255.255.0"), 24);
    assert_eq!(mask_to_prefix("0.0.0.0"), 0);
    assert_eq!(mask_to_prefix("255.255.255.255"), 32);
    assert_eq!(mask_to_prefix("nonsense"), 1);
}

#[test]
fn arguments_for_changes() {
    let step = |action: RouteAction, dst: &str, prefix: u8, hop: Hop, purpose: Purpose| RouteStep {
        action,
        dst: ip(dst),
        prefix,
        hop,
        purpose,
        required: true,
    };
    let gw = Hop::Gateway(ip("192.168.1.1"), None);
    assert_eq!(
        render_args(
            &step(RouteAction::Add, "203.0.113.9", 32, gw, Purpose::Proxy),
            "cortado0"
        ),
        vec![
            "interface",
            "ipv4",
            "add",
            "route",
            "203.0.113.9/32",
            "nexthop=192.168.1.1",
            "store=active"
        ]
    );
    assert_eq!(
        render_args(
            &step(RouteAction::Delete, "2001:db8::9", 128, gw, Purpose::Proxy),
            "cortado0"
        ),
        vec![
            "interface",
            "ipv4",
            "delete",
            "route",
            "2001:db8::9/128",
            "nexthop=192.168.1.1"
        ]
    );
    assert_eq!(
        render_args(
            &step(RouteAction::Delete, "8000::", 1, Hop::Tun, Purpose::Split),
            "cortado0"
        ),
        vec![
            "interface",
            "ipv6",
            "delete",
            "route",
            "8000::/1",
            "interface=cortado0"
        ]
    );
}

#[test]
fn routes_follow_the_configuration() {
    let mut cfg = Config::default();
    cfg.bypass_cidrs = vec!["10.0.0.0/8".to_string(), "fd00::/8".to_string()];
    let mut m = WindowsRoutes::new(&cfg, ip("127.0.0.1"), "cortado0".to_string(), true);
    let items = m.apply(None);
    assert_eq!(items[0], Item::ProxyUnpinned);
    assert_eq!(items.len(), 5);
    let items = m.apply(Some(ip("192.168.1.1")));
    assert_eq!(items.len(), 7);
    let required = |i: usize| match items[i] {
        Item::Step(s) => s.required,
        _ => panic!("a route"),
    };
    assert!(required(0));
    assert!(!required(1));
    assert!(!required(2));
    assert!(required(3));
    assert!(required(4));
    assert!(!required(5));
    assert!(!required(6));
    m.mark_applied();

    let mut new = Config::default();
    new.proxy_addr = "203.0.113.9:1080".to_string();
    let plan = ReloadPlan::compute(&cfg, &new);
    assert_eq!(m.reload(&plan).len(), 4);
    m.finish_reload(plan, 4);
    assert_eq!(m.proxy_ip, ip("203.0.113.9"));
    assert!(m.bypass.is_empty());
    m.note_dns(Some(ip("9.9.9.9")));
    assert_eq!(m.dns_server, Some(ip("9.9.9.9")));
    assert_eq!(m.teardown().len(), 5);
    assert!(m.teardown().is_empty());
}

#[test]
fn proxy_moves_even_without_gateway() {
    let cfg = Config::default();
    let mut m = WindowsRoutes::new(&cfg, ip("127.0.0.1"), "cortado0".to_string(), false);
    m.apply(None);
    m.mark_applied();
    let mut new = Config::default();
    new.proxy_addr = "203.0.113.9:1080".to_string();
    let plan = ReloadPlan::compute(&cfg, &new);
    assert!(m.reload(&plan).is_empty());
    m.finish_reload(plan, 0);
    assert_eq!(m.proxy_ip, ip("203.0.113.9"));
}

#[test]
fn name_server_is_set_and_reset() {
    let mut dns = NetshDns::new("cortado0".to_string());
    assert_eq!(dns.apply(None), DnsAction::Nothing);
    assert_eq!(dns.restore(), DnsAction::Nothing);
    let action = dns.apply(Some(ip("1.1.1.1")));
    assert_eq!(action, DnsAction::SetStatic(ip("1.1.1.1")));
    dns.finish(action);
    assert_eq!(dns.current, Some(ip("1.1.1.1")));
    assert_eq!(dns.reload(Some(ip("1.1.1.1"))), DnsAction::Nothing);
    let action = dns.reload(None);
    assert_eq!(action, DnsAction::ResetToDhcp);
    dns.finish(action);
    assert_eq!(dns.current, None);
    assert_eq!(dns.restore(), DnsAction::Nothing);
    dns.finish(DnsAction::SetStatic(ip("::1")));
    assert_eq!(dns.restore(), DnsAction::ResetToDhcp);
    assert!(!dns.configured);
    assert_eq!(
        set_static("cortado0", ip("1.1.1.1")),
        vec![
            "interface",
            "ipv4",
            "set",
            "dnsservers",
            "name=cortado0",
            "static",
            "1.1.1.1",
            "primary"
        ]
    );
    assert_eq!(set_static("cortado0", ip("::1"))[1], "ipv6");
    assert_eq!(
        set_dhcp("cortado0", true),
        vec!["interface", "ipv6", "set", "dnsservers", "name=cortado0", "dhcp"]
    );
    assert_eq!(set_dhcp("cortado0", false)[1], "ipv4");
}

#[test]
fn packets_are_handed_out_in_parts() {
    let (a, rest) = Pending::new(vec![1, 2, 3]).take(2);
    assert_eq!(a, vec![1, 2]);
    let (b, rest) = rest.unwrap().take(2);
    assert_eq!(b, vec![3]);
    assert!(rest.is_none());
    let (c, rest) = Pending::new(vec![1, 2]).take(2);
    assert_eq!(c, vec![1, 2]);
    assert!(rest.is_none());
    assert!(!is_writable(&[]));
    assert!(is_writable(&[1]));
    assert!(is_writable(&vec![0; 65535]));
    assert!(!is_writable(&vec![0; 65536]));
}

#[test]
fn device_is_set_up() {
    let cfg = Config::default();
    assert_eq!(
        address_args("cortado0", &cfg),
        vec![
            "interface",
            "ipv4",
            "set",
            "address",
            "name=cortado0",
            "static",
            "10.0.0.1",
            "255.255.255.0"
        ]
    );
    assert_eq!(
        mtu_args("cortado0", 1400),
        vec![
            "interface",
            "ipv4",
            "set",
            "subinterface",
            "cortado0",
            "mtu=1400",
            "store=active"
        ]
    );
}
