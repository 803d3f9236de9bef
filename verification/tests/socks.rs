use cortado::addr::{parse_ip, parse_socket, IpAddr, SocketAddr};
use cortado::config::ProxyConfig;
use cortado::socks::{
    associate_request, auth_receive_failure, connect_failure, connects_with_password, decode_udp,
    encode_udp, method_offer, negotiate_auth, normalize_relay, read_bind_address, AuthStep,
    BindStep, ReplyPart, SocksError,
};
use cortado::time::Duration;

fn socket(s: &str) -> SocketAddr {
    parse_socket(s).unwrap()
}

fn ip(s: &str) -> IpAddr {
    parse_ip(s).unwrap()
}

fn proxy(username: Option<&str>, password: Option<&str>) -> ProxyConfig {
    ProxyConfig {
        addr: socket("127.0.0.1:1080"),
        username: username.map(|s| s.to_string()),
        password: password.map(|s| s.to_string()),
        connect_timeout: Duration::from_secs(5),
        tcp_nodelay: true,
    }
}

fn auth(step: AuthStep) -> String {
    match step {
        AuthStep::Receive(n) => format!("receive {n}"),
        AuthStep::Send(b) => format!("send {b:?}"),
        AuthStep::Done => "done".to_string(),
        AuthStep::Fail(e) => e.message(),
    }
}

#[test]
fn encode_decode_v4_roundtrip() {
    let target = socket("8.8.8.8:53");
    let payload = b"hello world";
    let mut buf = Vec::new();
    encode_udp(target, payload, &mut buf);
    assert_eq!(buf[0..3], [0, 0, 0]);
    assert_eq!(buf[3], 0x01);
    let (addr, data) = decode_udp(&buf).expect("decodes");
    assert_eq!(addr, target);
    assert_eq!(data, payload);
}

#[test]
fn encode_decode_v6_roundtrip() {
    let target = socket("[2606:4700:4700::1111]:53");
    let payload = b"dual stack";
    let mut buf = Vec::new();
    encode_udp(target, payload, &mut buf);
    assert_eq!(buf[3], 0x04);
    let (addr, data) = decode_udp(&buf).expect("decodes");
    assert_eq!(addr, target);
    assert_eq!(data, payload);
}

#[test]
fn encode_reuses_buffer() {
    let mut buf = Vec::new();
    encode_udp(socket("1.1.1.1:53"), b"aaaa", &mut buf);
    let first_len = buf.len();
    encode_udp(socket("1.1.1.1:53"), b"bb", &mut buf);
    assert!(buf.len() < first_len);
}

#[test]
fn encode_writes_every_octet() {
    let mut buf = vec![9, 9, 9];
    encode_udp(socket("1.2.3.4:4660"), b"xy", &mut buf);
    assert_eq!(buf, vec![0, 0, 0, 1, 1, 2, 3, 4, 0x12, 0x34, b'x', b'y']);
    encode_udp(socket("[::1]:1"), b"", &mut buf);
    assert_eq!(
        buf,
        vec![0, 0, 0, 4, 0, 0, 0, 0, 0, 0, 0, 0, 0, 0, 0, 0, 0, 0, 0, 1, 0, 1]
    );
}

#[test]
fn decode_rejects_truncated() {
    assert!(decode_udp(&[]).is_none());
    assert!(decode_udp(&[0, 0, 0]).is_none());
    assert!(decode_udp(&[0, 0, 0, 0x01, 1, 2, 3]).is_none());
    assert!(decode_udp(&[0, 0, 0, 0x04, 0, 0]).is_none());
}

#[test]
fn decode_rejects_fragmented() {
    let frag = [0, 0, 0x01, 0x01, 8, 8, 8, 8, 0, 53];
    assert!(decode_udp(&frag).is_none());
}

#[test]
fn decode_rejects_unknown_atyp() {
    let bad = [0, 0, 0, 0x09, 1, 2, 3, 4, 0, 53];
    assert!(decode_udp(&bad).is_none());
}

#[test]
fn decode_ignores_reserved_octets_and_takes_empty_payload() {
    let buf = [7, 7, 0, 0x01, 8, 8, 8, 8, 0, 53];
    let (addr, data) = decode_udp(&buf).unwrap();
    assert_eq!(addr, socket("8.8.8.8:53"));
    assert!(data.is_empty());
}

#[test]
fn normalize_relay_substitutes_unspecified() {
    let proxy = socket("203.0.113.5:1080");
    let reply = socket("0.0.0.0:40000");
    let relay = normalize_relay(reply, proxy);
    assert_eq!(relay, socket("203.0.113.5:40000"));
}

#[test]
fn normalize_relay_substitutes_unspecified_v6() {
    let proxy = socket("203.0.113.5:1080");
    assert_eq!(
        normalize_relay(socket("[::]:40000"), proxy),
        socket("203.0.113.5:40000")
    );
}

#[test]
fn normalize_relay_keeps_concrete() {
    let proxy = socket("203.0.113.5:1080");
    let reply = socket("198.51.100.7:40000");
    assert_eq!(normalize_relay(reply, proxy), reply);
}

#[test]
fn method_offer_depends_on_username() {
    assert_eq!(method_offer(&proxy(None, None)), vec![5, 1, 0]);
    assert_eq!(method_offer(&proxy(None, Some("p"))), vec![5, 1, 0]);
    assert_eq!(method_offer(&proxy(Some("u"), None)), vec![5, 2, 0, 2]);
    assert_eq!(method_offer(&proxy(Some("u"), Some("p"))), vec![5, 2, 0, 2]);
}

#[test]
fn password_needs_both_parts() {
    assert!(connects_with_password(&proxy(Some("u"), Some("p"))));
    assert!(!connects_with_password(&proxy(Some("u"), None)));
    assert!(!connects_with_password(&proxy(None, Some("p"))));
    assert!(!connects_with_password(&proxy(None, None)));
    assert_eq!(connect_failure(false, false), "SOCKS5 connect failed");
    assert_eq!(connect_failure(false, true), "SOCKS5 connect timed out");
    assert_eq!(
        connect_failure(true, false),
        "SOCKS5 authenticated connect failed"
    );
    assert_eq!(
        connect_failure(true, true),
        "SOCKS5 authenticated connect timed out"
    );
}

#[test]
fn authentication_without_method() {
    let p = proxy(None, None);
    assert_eq!(auth(negotiate_auth(&p, &[], false)), "receive 2");
    assert_eq!(auth(negotiate_auth(&p, &[5], false)), "receive 1");
    assert_eq!(auth(negotiate_auth(&p, &[5, 0], false)), "done");
}

#[test]
fn authentication_with_password() {
    let p = proxy(Some("us"), Some("pwd"));
    assert_eq!(
        auth(negotiate_auth(&p, &[5, 2], false)),
        format!("send {:?}", vec![1u8, 2, b'u', b's', 3, b'p', b'w', b'd'])
    );
    assert_eq!(auth(negotiate_auth(&p, &[5, 2], true)), "receive 2");
    assert_eq!(auth(negotiate_auth(&p, &[5, 2, 1], true)), "receive 1");
    assert_eq!(auth(negotiate_auth(&p, &[5, 2, 1, 0], true)), "done");
    assert_eq!(
        auth(negotiate_auth(&p, &[5, 2, 1, 1], true)),
        "SOCKS5 authentication rejected by proxy"
    );
}

#[test]
fn credentials_count_octets_and_wrap() {
    let long = "x".repeat(257);
    let p = proxy(Some("\u{e9}"), Some(&long));
    match negotiate_auth(&p, &[5, 2], false) {
        AuthStep::Send(b) => {
            assert_eq!(b[..5], [1, 2, 0xc3, 0xa9, 1]);
            assert_eq!(b.len(), 5 + 257);
        }
        _ => panic!("credentials are sent"),
    }
}

#[test]
fn authentication_failures() {
    let open = proxy(None, None);
    assert_eq!(
        auth(negotiate_auth(&open, &[4, 0], false)),
        "invalid SOCKS5 version in method reply: 4"
    );
    assert_eq!(
        auth(negotiate_auth(&open, &[5, 2], false)),
        "proxy requires username/password authentication"
    );
    let half = proxy(Some("u"), None);
    assert_eq!(
        auth(negotiate_auth(&half, &[5, 2], false)),
        "proxy requires username/password authentication"
    );
    assert_eq!(
        auth(negotiate_auth(&open, &[5, 255], false)),
        "SOCKS5 proxy offered no acceptable authentication method"
    );
    assert_eq!(
        auth(negotiate_auth(&open, &[5, 1], false)),
        "SOCKS5 proxy selected unsupported auth method 1"
    );
    assert_eq!(
        auth_receive_failure(false),
        "failed to read SOCKS5 method selection reply"
    );
    assert_eq!(
        auth_receive_failure(true),
        "failed to read SOCKS5 auth reply"
    );
}

#[test]
fn bind_address_v4() {
    let reply = [5, 0, 0, 1, 127, 0, 0, 1, 0xd9, 0x03];
    let part = |n: usize| read_bind_address(&reply[..n]);
    assert_eq!(part(0), BindStep::Receive(4, ReplyPart::Header));
    assert_eq!(part(3), BindStep::Receive(1, ReplyPart::Header));
    assert_eq!(part(4), BindStep::Receive(4, ReplyPart::Ipv4Address));
    assert_eq!(part(8), BindStep::Receive(2, ReplyPart::Port));
    assert_eq!(part(9), BindStep::Receive(1, ReplyPart::Port));
    assert_eq!(part(10), BindStep::Done(socket("127.0.0.1:55555")));
}

#[test]
fn bind_address_v6() {
    let mut reply = vec![5, 0, 0, 4];
    assert_eq!(
        read_bind_address(&reply),
        BindStep::Receive(16, ReplyPart::Ipv6Address)
    );
    reply.extend_from_slice(&[0x20, 1, 0x0d, 0xb8, 0, 0, 0, 0, 0, 0, 0, 0, 0, 0, 0, 7]);
    reply.extend_from_slice(&[0, 53]);
    assert_eq!(
        read_bind_address(&reply),
        BindStep::Done(SocketAddr::new(ip("2001:db8::7"), 53))
    );
}

#[test]
fn bind_address_failures() {
    let fault = |b: &[u8]| match read_bind_address(b) {
        BindStep::Fail(e) => e.message(),
        _ => panic!("a fault"),
    };
    assert_eq!(fault(&[4, 0, 0, 1]), "invalid SOCKS5 version in reply: 4");
    assert_eq!(
        fault(&[5, 1, 0, 1]),
        "SOCKS5 request failed with reply code 1"
    );
    assert_eq!(
        fault(&[5, 0, 0, 9]),
        "SOCKS5 reply used unsupported address type 9"
    );
    assert_eq!(
        read_bind_address(&[5, 0, 0, 3]),
        BindStep::Receive(1, ReplyPart::DomainLength)
    );
    assert_eq!(
        read_bind_address(&[5, 0, 0, 3, 2, b'a']),
        BindStep::Receive(1, ReplyPart::Domain)
    );
    assert_eq!(
        read_bind_address(&[5, 0, 0, 3, 0]),
        BindStep::Fail(SocksError::DomainBindAddress)
    );
    assert_eq!(
        fault(&[5, 0, 0, 3, 2, b'a', b'b']),
        "SOCKS5 proxy returned a domain bind address which is not supported for UDP"
    );
    assert_eq!(
        ReplyPart::Header.failure(),
        "failed to read SOCKS5 reply header"
    );
    assert_eq!(
        ReplyPart::Ipv4Address.failure(),
        "failed to read SOCKS5 IPv4 bind address"
    );
    assert_eq!(
        ReplyPart::Ipv6Address.failure(),
        "failed to read SOCKS5 IPv6 bind address"
    );
    assert_eq!(
        ReplyPart::DomainLength.failure(),
        "failed to read SOCKS5 domain length"
    );
    assert_eq!(
        ReplyPart::Domain.failure(),
        "failed to read SOCKS5 domain bind address"
    );
    assert_eq!(ReplyPart::Port.failure(), "failed to read SOCKS5 bind port");
}

#[test]
fn association_exchange_relays_datagram() {
    assert_eq!(associate_request(), vec![5, 3, 0, 1, 0, 0, 0, 0, 0, 0]);
    let mut reply = vec![5, 0, 0, 1, 127, 0, 0, 1];
    reply.extend_from_slice(&40001u16.to_be_bytes());
    let relay = match read_bind_address(&reply) {
        BindStep::Done(a) => normalize_relay(a, socket("127.0.0.1:1080")),
        _ => panic!("a bound address"),
    };
    assert_eq!(relay, socket("127.0.0.1:40001"));

    let target = socket("8.8.8.8:53");
    let mut framed = Vec::new();
    encode_udp(target, b"ping", &mut framed);
    let (to, data) = decode_udp(&framed).expect("valid udp request");
    assert_eq!(to, target);
    assert_eq!(data, b"ping");
    let mut answer = Vec::new();
    encode_udp(to, b"pong", &mut answer);
    let (from, data) = decode_udp(&answer).expect("valid udp response");
    assert_eq!(from, target);
    assert_eq!(data, b"pong");
}

#[test]
fn association_uses_proxy_address_when_bind_unspecified() {
    let mut reply = vec![5, 0, 0, 1, 0, 0, 0, 0];
    reply.extend_from_slice(&55555u16.to_be_bytes());
    let bound = match read_bind_address(&reply) {
        BindStep::Done(a) => a,
        _ => panic!("a bound address"),
    };
    assert_eq!(bound, socket("0.0.0.0:55555"));
    let relay = normalize_relay(bound, socket("127.0.0.1:1080"));
    assert_eq!(relay.ip(), ip("127.0.0.1"));
    assert_eq!(relay.port(), 55555);
}
