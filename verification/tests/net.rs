use cortado::addr::{parse_ip, IpAddr};
use cortado::net::{diff_cidrs, Cidr, RouteDecision, RouteTable};

fn ip(s: &str) -> IpAddr {
    parse_ip(s).unwrap()
}

#[test]
fn v4_cidr_contains() {
    let c = Cidr::new(ip("10.0.0.0"), 8);
    assert!(c.contains(ip("10.255.255.255")));
    assert!(c.contains(ip("10.0.0.1")));
    assert!(!c.contains(ip("11.0.0.1")));
}

#[test]
fn v4_host_route() {
    let c = Cidr::new(ip("192.168.1.5"), 32);
    assert!(c.contains(ip("192.168.1.5")));
    assert!(!c.contains(ip("192.168.1.6")));
}

#[test]
fn v4_default_route_matches_everything() {
    let c = Cidr::new(ip("0.0.0.0"), 0);
    assert!(c.contains(ip("8.8.8.8")));
    assert!(c.contains(ip("0.0.0.0")));
}

#[test]
fn v6_cidr_contains() {
    let c = Cidr::new(ip("2001:db8::"), 32);
    assert!(c.contains(ip("2001:db8:dead:beef::1")));
    assert!(!c.contains(ip("2001:db9::1")));
}

#[test]
fn v6_host_route() {
    let c = Cidr::new(ip("fd00::1"), 128);
    assert!(c.contains(ip("fd00::1")));
    assert!(!c.contains(ip("fd00::2")));
}

#[test]
fn v6_default_route_matches_everything() {
    let c = Cidr::new(ip("::"), 0);
    assert!(c.contains(ip("2606:4700:4700::1111")));
}

#[test]
fn cidr_normalizes_base() {
    let c = Cidr::new(ip("10.1.2.3"), 8);
    assert_eq!(c.base(), ip("10.0.0.0"));
}

#[test]
fn family_mismatch_never_matches() {
    let v4 = Cidr::new(ip("0.0.0.0"), 0);
    assert!(!v4.contains(ip("::1")));
    let v6 = Cidr::new(ip("::"), 0);
    assert!(!v6.contains(ip("1.2.3.4")));
}

#[test]
fn route_table_direct_vs_proxy() {
    let table = RouteTable::new(&[(ip("10.0.0.0"), 8), (ip("fd00::"), 8)]);
    assert_eq!(table.decide(ip("10.5.6.7")), RouteDecision::Direct);
    assert_eq!(table.decide(ip("fd00::abcd")), RouteDecision::Direct);
    assert_eq!(table.decide(ip("8.8.8.8")), RouteDecision::Proxy);
    assert_eq!(table.decide(ip("2606:4700::1")), RouteDecision::Proxy);
}

#[test]
fn route_table_overlapping_prefixes() {
    let table = RouteTable::new(&[(ip("10.0.0.0"), 8), (ip("10.1.0.0"), 16)]);
    assert_eq!(table.decide(ip("10.1.2.3")), RouteDecision::Direct);
    assert_eq!(table.decide(ip("10.9.2.3")), RouteDecision::Direct);
    assert_eq!(table.decide(ip("11.1.2.3")), RouteDecision::Proxy);
}

#[test]
fn empty_table_is_all_proxy() {
    let table = RouteTable::default();
    assert!(table.is_empty());
    assert_eq!(table.decide(ip("1.2.3.4")), RouteDecision::Proxy);
    assert_eq!(table.decide(ip("::1")), RouteDecision::Proxy);
}

#[test]
fn diff_cidrs_adds_and_removes() {
    let old = vec![(ip("10.0.0.0"), 8), (ip("192.168.0.0"), 16)];
    let new = vec![(ip("10.0.0.0"), 8), (ip("fd00::"), 8)];
    let (add, remove) = diff_cidrs(&old, &new);
    assert_eq!(add, vec![(ip("fd00::"), 8)]);
    assert_eq!(remove, vec![(ip("192.168.0.0"), 16)]);
}

#[test]
fn diff_cidrs_identical_is_empty() {
    let same = vec![(ip("10.0.0.0"), 8)];
    let (add, remove) = diff_cidrs(&same, &same);
    assert!(add.is_empty());
    assert!(remove.is_empty());
}

#[test]
fn mixed_stack_classification() {
    let table = RouteTable::new(&[(ip("192.168.0.0"), 16)]);
    assert_eq!(table.decide(ip("192.168.50.1")), RouteDecision::Direct);
    assert_eq!(table.decide(ip("2001:db8::1")), RouteDecision::Proxy);
    assert_eq!(table.len(), 1);
}

#[test]
fn masks_of_every_length() {
    let all = ip("255.255.255.255");
    for (prefix, base) in [
        (0u8, "0.0.0.0"), (1, "128.0.0.0"), (9, "255.128.0.0"), (24, "255.255.255.0"),
        (31, "255.255.255.254"), (32, "255.255.255.255"), (200, "255.255.255.255"),
    ] {
        let c = Cidr::new(all, prefix);
        assert_eq!(c.base(), ip(base));
        assert_eq!(c.prefix(), prefix);
        assert!(!c.is_ipv6());
        assert!(c.contains(all));
    }
    let six = ip("ffff:ffff:ffff:ffff:ffff:ffff:ffff:ffff");
    for (prefix, base) in [
        (0u8, "::"), (1, "8000::"), (64, "ffff:ffff:ffff:ffff::"), (127, "ffff:ffff:ffff:ffff:ffff:ffff:ffff:fffe"),
        (128, "ffff:ffff:ffff:ffff:ffff:ffff:ffff:ffff"), (255, "ffff:ffff:ffff:ffff:ffff:ffff:ffff:ffff"),
    ] {
        let c = Cidr::new(six, prefix);
        assert_eq!(c.base(), ip(base));
        assert!(c.is_ipv6());
        assert!(c.contains(six));
    }
}

#[test]
fn order_and_repetition_do_not_matter() {
    let a = RouteTable::new(&[(ip("10.0.0.0"), 8), (ip("10.1.0.0"), 16), (ip("172.16.0.0"), 12)]);
    let b = RouteTable::new(&[
        (ip("172.16.0.0"), 12), (ip("10.1.0.0"), 16), (ip("10.0.0.0"), 8), (ip("10.0.0.0"), 8),
    ]);
    for s in ["10.1.2.3", "10.2.0.0", "172.31.0.1", "172.32.0.1", "8.8.8.8", "::1"] {
        assert_eq!(a.decide(ip(s)), b.decide(ip(s)));
    }
    assert_eq!(b.len(), 4);
    let c = b.clone();
    assert_eq!(c.len(), 4);
    assert_eq!(c.decide(ip("10.1.2.3")), RouteDecision::Direct);
    assert_eq!(c.decide(ip("9.1.2.3")), RouteDecision::Proxy);
}

#[test]
fn diff_keeps_order() {
    let old = [(ip("1.0.0.0"), 8), (ip("2.0.0.0"), 8)];
    let new = [(ip("4.0.0.0"), 8), (ip("2.0.0.0"), 9), (ip("4.0.0.0"), 8)];
    let (add, remove) = diff_cidrs(&old, &new);
    assert_eq!(add, new.to_vec());
    assert_eq!(remove, old.to_vec());
}
