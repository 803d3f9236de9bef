use cortado::addr::{parse_ip, IpAddr};
use cortado::config::Config;
use cortado::platform::macos::detect::{
    default_interface, gateway_named_in, has_default_gateway, interface_in, interface_mtu,
    link_info, mtu_in,
};
use cortado::platform::macos::dns::{
    get_servers, primary_service, servers_in, service_in, set_servers, NetworkSetupDns,
};
use cortado::platform::macos::route::{default_gateway, gateway_in, render_args, MacosRoutes};
use cortado::platform::macos::tun::{
    address_args, frame_packet, mtu_args, name_length, unframe_packet,
};
use cortado::platform::routes::{Hop, Item, Purpose, RouteAction, RouteStep};
use cortado::reload::ReloadPlan;

fn ip(s: &str) -> IpAddr {
    parse_ip(s).unwrap()
}

const ROUTE: &str = "   route to: default\n  interface: en0 \n    gateway: 192.168.1.1\n";

#[test]
fn route_output_is_read() {
    assert_eq!(interface_in(ROUTE), Some("en0".to_string()));
    assert_eq!(interface_in("nothing\n"), None);
    assert_eq!(default_interface(ROUTE.as_bytes()), Some("en0".to_string()));
    assert!(gateway_named_in(ROUTE));
    assert!(!gateway_named_in("  my gateway: 1\n"));
    assert!(has_default_gateway(ROUTE.as_bytes()));
    assert_eq!(gateway_in(ROUTE), Some(ip("192.168.1.1")));
    assert_eq!(
        gateway_in("gateway: link#4\ngateway: fe80::1\n"),
        Some(ip("fe80::1"))
    );
    assert_eq!(gateway_in("gateway: link#4\n"), None);
    assert_eq!(default_gateway(ROUTE.as_bytes()), Some(ip("192.168.1.1")));
}

#[test]
fn output_that_is_no_text_is_read_as_far_as_it_is() {
    let mut raw = vec![0xff, b'\n'];
    raw.extend_from_slice(b"interface: e\xffn\ngateway: 10.0.0.1\n");
    assert_eq!(default_interface(&raw), Some("e\u{fffd}n".to_string()));
    assert_eq!(default_gateway(&raw), Some(ip("10.0.0.1")));
    assert!(has_default_gateway(&raw));
}

#[test]
fn unit_size_is_read() {
    let text = "en0: flags=8863<UP,BROADCAST> mtu 1500\n\toptions=400\n";
    assert_eq!(mtu_in(text), Some(1500));
    assert_eq!(interface_mtu(text.as_bytes()), Some(1500));
    assert_eq!(mtu_in("en0: mtu many mtu 1500"), None);
    assert_eq!(mtu_in("en0: mtu"), None);
    assert_eq!(mtu_in("en0: xmtu 1500"), None);
    let info = link_info(Some(1400), true);
    assert_eq!((info.mtu, info.has_ipv6_gateway), (Some(1400), true));
}

const ORDER: &str = "An asterisk (*) denotes that a network service is disabled.\n\n(1) Wi-Fi\n(Hardware Port: Wi-Fi, Device: en0)\n\n(2) Bridge\n(Hardware Port: Bridge, Device: bridge0)\n\n";

#[test]
fn service_is_read() {
    assert_eq!(service_in(ORDER), Some("Wi-Fi".to_string()));
    assert_eq!(primary_service(ORDER.as_bytes()), Some("Wi-Fi".to_string()));
    assert_eq!(service_in("(1) Wi-Fi\n"), None);
    assert_eq!(
        service_in("()  \n(2) Link (old)\nDevice: en1"),
        Some("Link (old".to_string())
    );
    assert_eq!(service_in(""), None);
}

#[test]
fn servers_are_read() {
    assert_eq!(
        servers_in(" 8.8.8.8 \n\n1.1.1.1\n"),
        vec!["8.8.8.8".to_string(), "1.1.1.1".to_string()]
    );
    assert!(servers_in("There aren't any DNS Servers set on Wi-Fi.\n").is_empty());
    assert_eq!(get_servers(b"9.9.9.9\n"), vec!["9.9.9.9".to_string()]);
    assert_eq!(
        set_servers("Wi-Fi", &vec![]),
        vec!["-setdnsservers", "Wi-Fi", "Empty"]
    );
    assert_eq!(
        set_servers("Wi-Fi", &vec!["8.8.8.8".to_string(), "::1".to_string()]),
        vec!["-setdnsservers", "Wi-Fi", "8.8.8.8", "::1"]
    );
}

#[test]
fn service_name_server_is_set_and_put_back() {
    let mut dns = NetworkSetupDns::new("Wi-Fi".to_string());
    assert!(dns.apply(None).is_none());
    assert!(dns.needs_backup());
    dns.note_original(vec!["8.8.8.8".to_string()]);
    dns.note_original(vec!["4.4.4.4".to_string()]);
    assert!(!dns.needs_backup());
    assert_eq!(
        dns.apply(Some(ip("1.1.1.1"))).unwrap(),
        vec!["-setdnsservers", "Wi-Fi", "1.1.1.1"]
    );
    dns.finish(Some(ip("1.1.1.1")));
    assert_eq!(dns.current(), Some(ip("1.1.1.1")));
    assert!(dns.reload(Some(ip("1.1.1.1"))).is_none());
    assert_eq!(
        dns.reload(Some(ip("9.9.9.9"))).unwrap(),
        vec!["-setdnsservers", "Wi-Fi", "9.9.9.9"]
    );
    assert_eq!(
        dns.reload(None).unwrap(),
        vec!["-setdnsservers", "Wi-Fi", "8.8.8.8"]
    );
    assert_eq!(
        dns.restore().unwrap(),
        vec!["-setdnsservers", "Wi-Fi", "8.8.8.8"]
    );
    assert_eq!(dns.current(), None);
    assert!(dns.restore().is_none());
}

#[test]
fn route_arguments_for_changes() {
    let step = |action: RouteAction, dst: &str, prefix: u8, hop: Hop| RouteStep {
        action,
        dst: ip(dst),
        prefix,
        hop,
        purpose: Purpose::Bypass,
        required: true,
    };
    assert_eq!(
        render_args(
            &step(RouteAction::Add, "10.0.0.0", 8, Hop::Gateway(ip("192.168.1.1"), None)),
            "utun3"
        ),
        vec!["add", "-inet", "-net", "10.0.0.0/8", "192.168.1.1"]
    );
    assert_eq!(
        render_args(&step(RouteAction::Delete, "8000::", 1, Hop::Tun), "utun3"),
        vec!["delete", "-inet6", "-net", "8000::/1", "-interface", "utun3"]
    );
}

#[test]
fn utun_routes_follow_the_configuration() {
    let mut cfg = Config::default();
    cfg.bypass_cidrs = vec!["10.0.0.0/8".to_string(), "fd00::/8".to_string()];
    let mut m = MacosRoutes::new(
        &cfg,
        ip("127.0.0.1"),
        "utun3".to_string(),
        NetworkSetupDns::new("Wi-Fi".to_string()),
        true,
    );
    assert_eq!(m.dns_server, Some(ip("1.1.1.1")));
    assert_eq!(m.apply(None, None), vec![Item::NoGateway(ip("127.0.0.1"))]);
    let items = m.apply(Some(ip("192.168.1.1")), None);
    assert_eq!(items.len(), 5);
    assert_eq!(items[2], Item::SkipBypass(ip("fd00::"), 8));
    assert_eq!(m.gateway_for(ip("8.8.8.8")), Some(ip("192.168.1.1")));
    assert_eq!(m.gateway_for(ip("::1")), None);
    m.mark_applied();

    let mut new = Config::default();
    new.proxy_addr = "203.0.113.9:1080".to_string();
    let plan = ReloadPlan::compute(&cfg, &new);
    let items = m.reload(&plan);
    assert_eq!(items.len(), 3);
    m.finish_reload(plan, 3);
    assert_eq!(m.proxy_ip, ip("203.0.113.9"));
    assert!(m.bypass.is_empty());
    m.note_dns(None);
    assert_eq!(m.dns_server, None);

    let items = m.teardown();
    assert_eq!(items.len(), 5);
    assert!(m.teardown().is_empty());
}

#[test]
fn packets_are_framed() {
    let v4 = [0x45, 1, 2];
    let v6 = [0x60, 1];
    assert_eq!(frame_packet(&v4), vec![0, 0, 0, 2, 0x45, 1, 2]);
    assert_eq!(frame_packet(&v6), vec![0, 0, 0, 30, 0x60, 1]);
    assert_eq!(unframe_packet(&frame_packet(&v4), 100), &v4[..]);
    assert_eq!(unframe_packet(&frame_packet(&v4), 2), &v4[..2]);
    assert_eq!(unframe_packet(&[0, 0, 0, 2], 100), &[] as &[u8]);
    assert_eq!(unframe_packet(&[], 100), &[] as &[u8]);
}

#[test]
fn device_is_named_and_set_up() {
    assert_eq!(name_length(b"utun3\0\0", 6), 5);
    assert_eq!(name_length(b"utun3", 4), 4);
    let cfg = Config::default();
    assert_eq!(
        address_args("utun3", &cfg),
        vec!["utun3", "10.0.0.1", "10.0.0.1", "up"]
    );
    assert_eq!(mtu_args("utun3", 1400), vec!["utun3", "mtu", "1400"]);
}
