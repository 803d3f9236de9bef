use cortado::addr::{parse_ip, parse_socket};
use cortado::config::{
    default_proxy_addr, default_tun_ip, default_tun_name, parse_cidr, CidrError, Config,
    ConfigError, ProxyConfig,
};

fn long(n: usize) -> String {
    "x".repeat(n)
}

#[test]
fn default_config_is_valid() {
    assert!(Config::default().validate().is_ok());
}

#[test]
fn rejects_bad_proxy_addr() {
    let mut cfg = Config::default();
    cfg.proxy_addr = "not-an-addr".into();
    assert!(cfg.validate().is_err());
}

#[test]
fn rejects_half_credentials() {
    let mut cfg = Config::default();
    cfg.username = Some("user".into());
    cfg.password = None;
    assert!(cfg.validate().is_err());
}

#[test]
fn accepts_ipv6_proxy_and_dns() {
    let mut cfg = Config::default();
    cfg.proxy_addr = "[::1]:1080".into();
    cfg.dns_server = "2606:4700:4700::1111".into();
    assert!(cfg.validate().is_ok());
    assert!(cfg.proxy_socket_addr().is_ipv6());
    assert!(cfg.dns_addr().unwrap().is_ipv6());
}

#[test]
fn parses_bypass_cidrs() {
    let mut cfg = Config::default();
    cfg.bypass_cidrs = vec!["10.0.0.0/8".into(), "fd00::/8".into()];
    assert!(cfg.validate().is_ok());
    let routes = cfg.bypass_routes();
    assert_eq!(routes.len(), 2);
    assert_eq!(routes[0].1, 8);
}

#[test]
fn rejects_bad_cidr() {
    let mut cfg = Config::default();
    cfg.bypass_cidrs = vec!["10.0.0.0/40".into()];
    assert!(cfg.validate().is_err());
}

#[test]
fn cidr_requires_prefix() {
    assert!(parse_cidr("10.0.0.0").is_err());
    assert!(parse_cidr("10.0.0.0/8").is_ok());
    assert!(parse_cidr("::/0").is_ok());
}

#[test]
fn rejects_bad_metrics_addr() {
    let mut cfg = Config::default();
    cfg.metrics_addr = Some("bogus".into());
    assert!(cfg.validate().is_err());
}

#[test]
fn default_fields() {
    let cfg = Config::default();
    assert_eq!(cfg.proxy_addr, "127.0.0.1:1080");
    assert_eq!(cfg.username, None);
    assert_eq!(cfg.password, None);
    assert_eq!(cfg.tun_name, "cortado0");
    assert_eq!(cfg.tun_ip, "10.0.0.1");
    assert!(!cfg.verbose);
    assert_eq!(cfg.dns_server, "1.1.1.1");
    assert!(cfg.override_dns);
    assert!(cfg.dns_over_tcp);
    assert!(cfg.bypass_cidrs.is_empty());
    assert_eq!(cfg.metrics_addr, None);
    assert_eq!(default_proxy_addr(), "127.0.0.1:1080");
    assert_eq!(default_tun_name(), "cortado0");
    assert_eq!(default_tun_ip(), "10.0.0.1");
}

#[test]
fn cidr_values_and_faults() {
    assert_eq!(parse_cidr("10.1.2.3/8"), Ok((parse_ip("10.1.2.3").unwrap(), 8)));
    assert_eq!(parse_cidr("fd00::/+8"), Ok((parse_ip("fd00::").unwrap(), 8)));
    assert_eq!(parse_cidr("10.0.0.0/008"), Ok((parse_ip("10.0.0.0").unwrap(), 8)));
    assert_eq!(parse_cidr(""), Err(CidrError::MissingPrefix));
    assert_eq!(parse_cidr("/8"), Err(CidrError::InvalidAddress));
    assert_eq!(parse_cidr("10.0.0/8"), Err(CidrError::InvalidAddress));
    assert_eq!(parse_cidr("10.0.0.0/"), Err(CidrError::InvalidPrefix));
    assert_eq!(parse_cidr("10.0.0.0/8/8"), Err(CidrError::InvalidPrefix));
    assert_eq!(parse_cidr("10.0.0.0/256"), Err(CidrError::InvalidPrefix));
    assert_eq!(parse_cidr("10.0.0.0/-1"), Err(CidrError::InvalidPrefix));
    assert_eq!(parse_cidr("10.0.0.0/33"), Err(CidrError::PrefixTooLong(32)));
    assert_eq!(parse_cidr("::/129"), Err(CidrError::PrefixTooLong(128)));
    assert_eq!(parse_cidr("::/128"), Ok((parse_ip("::").unwrap(), 128)));
}

#[test]
fn cidr_messages() {
    assert_eq!(CidrError::MissingPrefix.message("a"), "cidr a is missing a prefix length");
    assert_eq!(CidrError::InvalidAddress.message("a/1"), "cidr a/1 has an invalid address");
    assert_eq!(
        CidrError::InvalidPrefix.message("::/x"),
        "cidr ::/x has an invalid prefix length"
    );
    assert_eq!(
        CidrError::PrefixTooLong(32).message("1.2.3.4/40"),
        "cidr 1.2.3.4/40 prefix length exceeds 32"
    );
}

#[test]
fn faults_come_in_order() {
    let mut cfg = Config::default();
    cfg.username = Some("".into());
    cfg.password = Some(long(256));
    assert_eq!(cfg.validate(), Err(ConfigError::UsernameLength));
    cfg.username = Some(long(256));
    assert_eq!(cfg.validate(), Err(ConfigError::UsernameLength));
    cfg.username = Some(long(255));
    assert_eq!(cfg.validate(), Err(ConfigError::PasswordLength));
    cfg.password = Some("".into());
    assert_eq!(cfg.validate(), Err(ConfigError::PasswordLength));
    cfg.password = None;
    assert_eq!(cfg.validate(), Err(ConfigError::HalfCredentials));
    cfg.metrics_addr = Some("127.0.0.1".into());
    assert_eq!(cfg.validate(), Err(ConfigError::MetricsAddr));
    cfg.bypass_cidrs = vec!["10.0.0.0/8".into(), "10.0.0.0/99".into(), "x".into()];
    assert_eq!(
        cfg.validate(),
        Err(ConfigError::BypassCidr(1, CidrError::PrefixTooLong(32)))
    );
    cfg.dns_server = "dns.example".into();
    assert_eq!(cfg.validate(), Err(ConfigError::DnsServer));
    cfg.tun_ip = "::1".into();
    assert_eq!(cfg.validate(), Err(ConfigError::TunIp));
    cfg.proxy_addr = "127.0.0.1".into();
    assert_eq!(cfg.validate(), Err(ConfigError::ProxyAddr));
}

#[test]
fn username_length_is_in_octets() {
    let mut cfg = Config::default();
    cfg.username = Some("é".repeat(128));
    cfg.password = Some("p".into());
    assert_eq!(cfg.validate(), Err(ConfigError::UsernameLength));
    cfg.username = Some("é".repeat(127));
    assert_eq!(cfg.validate(), Ok(()));
}

#[test]
fn name_server_is_checked_only_where_it_is_used() {
    let mut cfg = Config::default();
    cfg.override_dns = false;
    cfg.dns_server = "nonsense".into();
    assert_eq!(cfg.validate(), Ok(()));
    assert_eq!(cfg.dns_addr(), None);
}

#[test]
fn config_error_messages() {
    let mut cfg = Config::default();
    cfg.bypass_cidrs = vec!["10.0.0.0/40".into()];
    assert_eq!(
        ConfigError::ProxyAddr.message(&cfg),
        "proxy_addr is not a valid socket address (expected ip:port)"
    );
    assert_eq!(ConfigError::TunIp.message(&cfg), "tun_ip is not a valid IPv4 address");
    assert_eq!(ConfigError::DnsServer.message(&cfg), "dns_server is not a valid IP address");
    assert_eq!(
        ConfigError::BypassCidr(0, CidrError::PrefixTooLong(32)).message(&cfg),
        "cidr 10.0.0.0/40 prefix length exceeds 32"
    );
    assert_eq!(
        ConfigError::MetricsAddr.message(&cfg),
        "metrics_addr is not a valid socket address (expected ip:port)"
    );
    assert_eq!(
        ConfigError::HalfCredentials.message(&cfg),
        "username and password must both be set or both be absent"
    );
    assert_eq!(
        ConfigError::UsernameLength.message(&cfg),
        "username length must be between 1 and 255"
    );
    assert_eq!(
        ConfigError::PasswordLength.message(&cfg),
        "password length must be between 1 and 255"
    );
}

#[test]
fn addresses_of_a_config() {
    let mut cfg = Config::default();
    cfg.metrics_addr = Some("[::]:9090".into());
    assert_eq!(Some(cfg.proxy_socket_addr()), parse_socket("127.0.0.1:1080"));
    assert_eq!(cfg.tun_ipv4().bits, 0x0a00_0001);
    assert_eq!(cfg.dns_addr(), parse_ip("1.1.1.1"));
    assert_eq!(cfg.metrics_socket_addr(), parse_socket("[::]:9090"));
    cfg.metrics_addr = None;
    assert_eq!(cfg.metrics_socket_addr(), None);
}

#[test]
fn proxy_from_config() {
    let mut cfg = Config::default();
    cfg.username = Some("u".into());
    cfg.password = Some("p".into());
    let proxy = ProxyConfig::from_config(&cfg);
    assert_eq!(Some(proxy.addr), parse_socket("127.0.0.1:1080"));
    assert_eq!(proxy.username.as_deref(), Some("u"));
    assert_eq!(proxy.password.as_deref(), Some("p"));
    assert_eq!(proxy.connect_timeout.as_secs(), 10);
    assert!(proxy.tcp_nodelay);
    let copy = proxy.clone();
    assert_eq!(copy.addr, proxy.addr);
    assert_eq!(copy.username, proxy.username);
}

#[test]
fn clone_keeps_every_field() {
    let mut cfg = Config::default();
    cfg.username = Some("u".to_string());
    cfg.bypass_cidrs = vec!["10.0.0.0/8".to_string(), "fd00::/8".to_string()];
    cfg.metrics_addr = Some("127.0.0.1:9100".to_string());
    cfg.verbose = true;
    let copy = cfg.clone();
    assert_eq!(copy.proxy_addr, cfg.proxy_addr);
    assert_eq!(copy.username, cfg.username);
    assert_eq!(copy.password, cfg.password);
    assert_eq!(copy.tun_name, cfg.tun_name);
    assert_eq!(copy.tun_ip, cfg.tun_ip);
    assert_eq!(copy.verbose, cfg.verbose);
    assert_eq!(copy.dns_server, cfg.dns_server);
    assert_eq!(copy.override_dns, cfg.override_dns);
    assert_eq!(copy.dns_over_tcp, cfg.dns_over_tcp);
    assert_eq!(copy.bypass_cidrs, cfg.bypass_cidrs);
    assert_eq!(copy.metrics_addr, cfg.metrics_addr);
}
