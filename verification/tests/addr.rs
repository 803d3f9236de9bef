use cortado::addr::{
    parse_ip, parse_ipv4, parse_socket, IpAddr, Ipv4Addr, Ipv6Addr, SocketAddr,
};

fn v6(bits: u128) -> IpAddr {
    IpAddr::V6(Ipv6Addr { bits })
}

#[test]
fn reads_ipv4() {
    assert_eq!(parse_ipv4("0.0.0.0").map(|a| a.bits), Some(0));
    assert_eq!(parse_ipv4("255.255.255.255").map(|a| a.bits), Some(0xffff_ffff));
    assert_eq!(parse_ipv4("1.2.3.4").map(|a| a.bits), Some(0x0102_0304));
    for bad in [
        "", "1.2.3", "1.2.3.4.5", "1.2.3.256", "01.2.3.4", "1.2.3.", ".1.2.3", "1..2.3",
        "1.2.3.4 ", "+1.2.3.4", "1.2.3.0004", "a.b.c.d",
    ] {
        assert_eq!(parse_ipv4(bad), None, "{bad}");
    }
}

#[test]
fn reads_ipv6() {
    assert_eq!(parse_ip("::"), Some(v6(0)));
    assert_eq!(parse_ip("::1"), Some(v6(1)));
    assert_eq!(parse_ip("1::"), Some(v6(1 << 112)));
    assert_eq!(
        parse_ip("1:2:3:4:5:6:7:8"),
        Some(v6(0x0001_0002_0003_0004_0005_0006_0007_0008))
    );
    assert_eq!(
        parse_ip("2606:4700:4700::1111"),
        Some(v6(0x2606_4700_4700_0000_0000_0000_0000_1111))
    );
    assert_eq!(parse_ip("ABCD::ef"), Some(v6(0xabcd << 112 | 0xef)));
    assert_eq!(parse_ip("::ffff:1.2.3.4"), Some(v6(0xffff_0102_0304)));
    assert_eq!(parse_ip("::1.2.3.4"), Some(v6(0x0102_0304)));
    assert_eq!(
        parse_ip("1:2:3:4:5:6:1.2.3.4"),
        Some(v6(0x0001_0002_0003_0004_0005_0006_0102_0304))
    );
    assert_eq!(
        parse_ip("1:2:3:4:5:6:7::"),
        Some(v6(0x0001_0002_0003_0004_0005_0006_0007_0000))
    );
    for bad in [
        ":", ":::", "1", "1:2:3:4:5:6:7", "1:2:3:4:5:6:7:8:9", "1::2::3", "12345::", "g::",
        "1:2:3:4:5:6:7:8::", "::1:2:3:4:5:6:7:8", "1.2.3.4::", "::1.2.3.4:5", "1:2:3:4:5:6:7:1.2.3.4",
        "1:", ":1", "::1%eth0", "1:2:3:4:5:6::1.2.3.4", "[::1]",
    ] {
        assert_eq!(parse_ip(bad), None, "{bad}");
    }
}

#[test]
fn writes_addresses() {
    for (text, same) in [
        ("0.0.0.0", "0.0.0.0"),
        ("192.168.1.250", "192.168.1.250"),
        ("::", "::"),
        ("::1", "::1"),
        ("1::", "1::"),
        ("0:0:0:0:0:0:0:0", "::"),
        ("1:0:0:2:0:0:0:3", "1:0:0:2::3"),
        ("1:0:0:2:0:0:3:4", "1::2:0:0:3:4"),
        ("1:0:2:3:4:5:6:7", "1:0:2:3:4:5:6:7"),
        ("2001:0db8:0000:0000:0000:00ff:fe00:0001", "2001:db8::ff:fe00:1"),
        ("::ffff:10.0.0.1", "::ffff:10.0.0.1"),
        ("::10.0.0.1", "::a00:1"),
        ("8000::", "8000::"),
        ("ABCD:EF01:2345:6789:ABCD:EF01:2345:6789", "abcd:ef01:2345:6789:abcd:ef01:2345:6789"),
    ] {
        let ip = parse_ip(text).unwrap();
        assert_eq!(ip.to_text(), same);
        assert_eq!(parse_ip(same), Some(ip));
    }
}

#[test]
fn reads_and_writes_addresses_with_ports() {
    for text in ["1.2.3.4:0", "127.0.0.1:65535", "[::1]:1080", "[fe80::1%3]:53", "[::ffff:1.2.3.4]:1"] {
        let a = parse_socket(text).unwrap();
        assert_eq!(a.to_text(), text);
    }
    assert_eq!(parse_socket("1.2.3.4:00080"), parse_socket("1.2.3.4:80"));
    assert_eq!(parse_socket("[::1%0]:1"), parse_socket("[::1]:1"));
    for bad in [
        "", "1.2.3.4", "1.2.3.4:", "1.2.3.4:65536", "1.2.3.4:+1", ":80", "::1:80", "[::1]", "[::1]80",
        "[::1]:", "[1.2.3.4]:80", "[::1:80", "[::1%]:80", "[::1%4294967296]:80", "[::1%eth0]:80",
        "localhost:80", "1.2.3.4:80 ",
    ] {
        assert_eq!(parse_socket(bad), None, "{bad}");
    }
}

#[test]
fn parts_of_an_address_with_port() {
    let a = parse_socket("[fe80::1%3]:53").unwrap();
    assert!(a.is_ipv6());
    assert!(!a.is_ipv4());
    assert_eq!(a.port(), 53);
    assert_eq!(Some(a.ip()), parse_ip("fe80::1"));
    let b = SocketAddr::new(IpAddr::V4(Ipv4Addr::new(9, 8, 7, 6)), 5);
    assert_eq!(b.to_text(), "9.8.7.6:5");
    assert!(b.is_ipv4());
}

#[test]
fn segments_of_an_address() {
    let ip = Ipv6Addr::from_segments(&[1, 2, 3, 4, 5, 6, 7, 0xffff]);
    assert_eq!(ip.bits, 0x0001_0002_0003_0004_0005_0006_0007_ffff);
    assert_eq!(ip.to_segments(), vec![1, 2, 3, 4, 5, 6, 7, 0xffff]);
    assert!(!ip.is_unspecified());
    assert!(Ipv6Addr { bits: 0 }.is_unspecified());
    assert!(Ipv4Addr { bits: 0 }.is_unspecified());
}
