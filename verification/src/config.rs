//! The configuration: its fields, their defaults and what makes it valid.

use vstd::prelude::*;
use vstd::slice::slice_subrange;
use crate::addr;
use crate::addr::{IpAddr, Ipv4Addr, SocketAddr};
use crate::bytes;
use crate::text;
use crate::time::Duration;

verus! {

// ---------------------------------------------------------------------------
// Networks in text
// ---------------------------------------------------------------------------
/// Why a text is not a network in prefix notation.
#[derive(Clone, Copy, PartialEq, Eq, Debug, Structural)]
pub enum CidrError {
    MissingPrefix,
    InvalidAddress,
    InvalidPrefix,
    /// The prefix is longer than this many bits.
    PrefixTooLong(u8),
}

/// How many bits an address of this family has.
pub open spec fn family_bits(ip: IpAddr) -> u8 {
    match ip {
        IpAddr::V4(_) => 32,
        IpAddr::V6(_) => 128,
    }
}

/// The network that `s` writes: an address, a slash and a prefix length that
/// is not longer than the address. The first fault from the left counts.
pub open spec fn cidr_value(s: Seq<char>) -> Result<(IpAddr, u8), CidrError> {
    let i = text::find(s, '/');
    if i >= s.len() {
        Err(CidrError::MissingPrefix)
    } else {
        match addr::ip_value(s.take(i)) {
            None => Err(CidrError::InvalidAddress),
            Some(ip) => match text::at_most(text::parse_unsigned(s.skip(i + 1)), 255) {
                None => Err(CidrError::InvalidPrefix),
                Some(n) => if n > family_bits(ip) {
                    Err(CidrError::PrefixTooLong(family_bits(ip)))
                } else {
                    Ok((ip, n as u8))
                },
            },
        }
    }
}

/// Reads a network in prefix notation.
pub fn parse_cidr(spec: &str) -> (r: Result<(IpAddr, u8), CidrError>)
    ensures
        r == cidr_value(spec@),
{
    let chars = text::chars_of(spec);
    let s = chars.as_slice();
    let i = text::find_char(s, '/');
    proof {
        text::lemma_find(s@, '/');
    }
    if i >= s.len() {
        return Err(CidrError::MissingPrefix);
    }
    let left = slice_subrange(s, 0, i);
    let right = slice_subrange(s, i + 1, s.len());
    assert(left@ =~= s@.take(i as int));
    assert(right@ =~= s@.skip(i + 1));
    let ip = match addr::read_ip(left) {
        Some(ip) => ip,
        None => {
            return Err(CidrError::InvalidAddress);
        },
    };
    let prefix = match text::read_unsigned(right, 255) {
        Some(n) => n as u8,
        None => {
            return Err(CidrError::InvalidPrefix);
        },
    };
    let max: u8 = if ip.is_ipv4() {
        32
    } else {
        128
    };
    if prefix > max {
        Err(CidrError::PrefixTooLong(max))
    } else {
        Ok((ip, prefix))
    }
}

impl CidrError {
    pub open spec fn text(self, spec: Seq<char>) -> Seq<char> {
        "cidr "@ + spec + match self {
            CidrError::MissingPrefix => " is missing a prefix length"@,
            CidrError::InvalidAddress => " has an invalid address"@,
            CidrError::InvalidPrefix => " has an invalid prefix length"@,
            CidrError::PrefixTooLong(max) => " prefix length exceeds "@ + text::dec_text(max as nat),
        }
    }

    /// The fault of `spec` in words.
    pub fn message(&self, spec: &str) -> (r: String)
        ensures
            r@ == self.text(spec@),
    {
        let mut out = String::new();
        text::push_text(&mut out, "cidr ");
        text::push_text(&mut out, spec);
        match self {
            CidrError::MissingPrefix => text::push_text(&mut out, " is missing a prefix length"),
            CidrError::InvalidAddress => text::push_text(&mut out, " has an invalid address"),
            CidrError::InvalidPrefix => text::push_text(&mut out, " has an invalid prefix length"),
            CidrError::PrefixTooLong(max) => {
                text::push_text(&mut out, " prefix length exceeds ");
                text::push_decimal(&mut out, *max as u64);
            },
        }
        assert(out@ =~= self.text(spec@));
        out
    }
}

// ---------------------------------------------------------------------------
// The configuration
// ---------------------------------------------------------------------------
pub struct Config {
    pub proxy_addr: String,
    pub username: Option<String>,
    pub password: Option<String>,
    pub tun_name: String,
    pub tun_ip: String,
    pub verbose: bool,
    pub dns_server: String,
    pub override_dns: bool,
    pub dns_over_tcp: bool,
    pub bypass_cidrs: Vec<String>,
    pub metrics_addr: Option<String>,
}

pub fn default_proxy_addr() -> (r: String)
    ensures
        r@ == "127.0.0.1:1080"@,
{
    "127.0.0.1:1080".to_owned()
}

pub fn default_tun_name() -> (r: String)
    ensures
        r@ == "cortado0"@,
{
    "cortado0".to_owned()
}

pub fn default_tun_ip() -> (r: String)
    ensures
        r@ == "10.0.0.1"@,
{
    "10.0.0.1".to_owned()
}

pub fn default_dns_server() -> (r: String)
    ensures
        r@ == "1.1.1.1"@,
{
    "1.1.1.1".to_owned()
}

pub fn default_override_dns() -> (r: bool)
    ensures
        r,
{
    true
}

pub fn default_dns_over_tcp() -> (r: bool)
    ensures
        r,
{
    true
}

pub fn default_bypass_cidrs() -> (r: Vec<String>)
    ensures
        r@.len() == 0,
{
    Vec::new()
}

impl Default for Config {
    fn default() -> (r: Config)
        ensures
            r.proxy_addr@ == "127.0.0.1:1080"@,
            r.username is None,
            r.password is None,
            r.tun_name@ == "cortado0"@,
            r.tun_ip@ == "10.0.0.1"@,
            !r.verbose,
            r.dns_server@ == "1.1.1.1"@,
            r.override_dns,
            r.dns_over_tcp,
            r.bypass_cidrs@.len() == 0,
            r.metrics_addr is None,
            r.fault() is None,
    {
        proof {
            lemma_default_texts();
        }
        Config {
            proxy_addr: default_proxy_addr(),
            username: None,
            password: None,
            tun_name: default_tun_name(),
            tun_ip: default_tun_ip(),
            verbose: false,
            dns_server: default_dns_server(),
            override_dns: default_override_dns(),
            dns_over_tcp: default_dns_over_tcp(),
            bypass_cidrs: default_bypass_cidrs(),
            metrics_addr: None,
        }
    }
}

impl Clone for Config {
    fn clone(&self) -> (r: Config)
        ensures
            r.proxy_addr@ == self.proxy_addr@,
            text::optional_text(r.username) == text::optional_text(self.username),
            text::optional_text(r.password) == text::optional_text(self.password),
            r.tun_name@ == self.tun_name@,
            r.tun_ip@ == self.tun_ip@,
            r.verbose == self.verbose,
            r.dns_server@ == self.dns_server@,
            r.override_dns == self.override_dns,
            r.dns_over_tcp == self.dns_over_tcp,
            text::texts(r.bypass_cidrs@) == text::texts(self.bypass_cidrs@),
            text::optional_text(r.metrics_addr) == text::optional_text(self.metrics_addr),
    {
        let mut bypass_cidrs: Vec<String> = Vec::new();
        for i in 0..self.bypass_cidrs.len()
            invariant
                text::texts(bypass_cidrs@) == text::texts(self.bypass_cidrs@).take(i as int),
        {
            let ghost before = text::texts(bypass_cidrs@);
            let entry = self.bypass_cidrs[i].clone();
            bypass_cidrs.push(entry);
            assert(text::texts(bypass_cidrs@) =~= before.push(entry@));
            assert(text::texts(self.bypass_cidrs@).take(i + 1) =~= before.push(entry@));
        }
        assert(text::texts(self.bypass_cidrs@).take(self.bypass_cidrs@.len() as int) =~= text::texts(
            self.bypass_cidrs@,
        ));
        Config {
            proxy_addr: self.proxy_addr.clone(),
            username: copy_optional_text(&self.username),
            password: copy_optional_text(&self.password),
            tun_name: self.tun_name.clone(),
            tun_ip: self.tun_ip.clone(),
            verbose: self.verbose,
            dns_server: self.dns_server.clone(),
            override_dns: self.override_dns,
            dns_over_tcp: self.dns_over_tcp,
            bypass_cidrs,
            metrics_addr: copy_optional_text(&self.metrics_addr),
        }
    }
}

/// The addresses of the default configuration can be read.
proof fn lemma_default_texts()
    ensures
        addr::socket_value("127.0.0.1:1080"@) is Some,
        addr::ipv4_value("10.0.0.1"@) is Some,
        addr::ip_value("1.1.1.1"@) is Some,
{
    let local = Ipv4Addr { bits: 0x7f00_0001 };
    let proxy = SocketAddr::of(IpAddr::V4(local), 1080);
    let tun = Ipv4Addr { bits: 0x0a00_0001 };
    let dns = Ipv4Addr { bits: 0x0101_0101 };
    reveal_strlit("127.0.0.1:1080");
    reveal_strlit("10.0.0.1");
    reveal_strlit("1.1.1.1");
    reveal_with_fuel(bytes::be_bytes, 5);
    reveal_with_fuel(text::dec_text, 5);
    assert(proxy.text() =~= "127.0.0.1:1080"@);
    assert(tun.text() =~= "10.0.0.1"@);
    assert(dns.text() =~= "1.1.1.1"@);
    addr::lemma_socket_round_trip(proxy);
    addr::lemma_ipv4_round_trip(tun);
    addr::lemma_ipv4_round_trip(dns);
}

/// Why a configuration is not valid.
#[derive(Clone, Copy, PartialEq, Eq, Debug, Structural)]
pub enum ConfigError {
    ProxyAddr,
    TunIp,
    DnsServer,
    /// The position of the entry of `bypass_cidrs`, and what is wrong with it.
    BypassCidr(usize, CidrError),
    MetricsAddr,
    HalfCredentials,
    UsernameLength,
    PasswordLength,
}

/// The position of the first text from `i` on that is not a network, or the
/// length of the list where all are.
pub open spec fn first_bad_cidr(list: Seq<String>, i: int) -> int
    decreases list.len() - i,
{
    if 0 <= i < list.len() && cidr_value(list[i]@) is Ok {
        first_bad_cidr(list, i + 1)
    } else {
        i
    }
}

/// How many octets a text takes.
pub open spec fn octet_count(s: Seq<char>) -> nat {
    vstd::utf8::encode_utf8(s).len()
}

/// What is wrong with the credentials, if anything.
pub open spec fn credentials_fault(
    username: Option<String>,
    password: Option<String>,
) -> Option<ConfigError> {
    match (username, password) {
        (None, None) => None,
        (Some(u), Some(p)) => if !(1 <= octet_count(u@) <= 255) {
            Some(ConfigError::UsernameLength)
        } else if !(1 <= octet_count(p@) <= 255) {
            Some(ConfigError::PasswordLength)
        } else {
            None
        },
        _ => Some(ConfigError::HalfCredentials),
    }
}

impl Config {
    /// The first thing that is wrong with the configuration, if any.
    pub open spec fn fault(self) -> Option<ConfigError> {
        let bad = first_bad_cidr(self.bypass_cidrs@, 0);
        if addr::socket_value(self.proxy_addr@) is None {
            Some(ConfigError::ProxyAddr)
        } else if addr::ipv4_value(self.tun_ip@) is None {
            Some(ConfigError::TunIp)
        } else if self.override_dns && addr::ip_value(self.dns_server@) is None {
            Some(ConfigError::DnsServer)
        } else if bad < self.bypass_cidrs@.len() {
            Some(
                ConfigError::BypassCidr(
                    bad as usize,
                    cidr_value(self.bypass_cidrs@[bad]@)->Err_0,
                ),
            )
        } else if self.metrics_addr is Some && addr::socket_value(self.metrics_addr->0@) is None {
            Some(ConfigError::MetricsAddr)
        } else {
            credentials_fault(self.username, self.password)
        }
    }

    /// Whether the address of the proxy can be read.
    pub open spec fn has_proxy_addr(self) -> bool {
        addr::socket_value(self.proxy_addr@) is Some
    }

    /// Whether the name server can be read, where one is to be set.
    pub open spec fn has_dns_addr(self) -> bool {
        self.override_dns ==> addr::ip_value(self.dns_server@) is Some
    }

    /// Whether all networks that bypass the tunnel can be read.
    pub open spec fn has_bypass_routes(self) -> bool {
        forall|i: int| 0 <= i < self.bypass_cidrs@.len() ==> cidr_value(#[trigger] self.bypass_cidrs@[i]@) is Ok
    }

    pub open spec fn spec_proxy_addr(self) -> SocketAddr {
        addr::socket_value(self.proxy_addr@)->0
    }

    pub open spec fn spec_dns_addr(self) -> Option<IpAddr> {
        if self.override_dns {
            addr::ip_value(self.dns_server@)
        } else {
            None
        }
    }

    pub open spec fn spec_bypass(self) -> Seq<(IpAddr, u8)> {
        self.bypass_cidrs@.map_values(|s: String| cidr_value(s@)->Ok_0)
    }

    /// Checks the configuration.
    pub fn validate(&self) -> (r: Result<(), ConfigError>)
        ensures
            match r {
                Ok(_) => self.fault() is None,
                Err(e) => self.fault() == Some(e),
            },
    {
        if addr::parse_socket(self.proxy_addr.as_str()).is_none() {
            return Err(ConfigError::ProxyAddr);
        }
        if addr::parse_ipv4(self.tun_ip.as_str()).is_none() {
            return Err(ConfigError::TunIp);
        }
        if self.override_dns && addr::parse_ip(self.dns_server.as_str()).is_none() {
            return Err(ConfigError::DnsServer);
        }
        let n = self.bypass_cidrs.len();
        let mut i: usize = 0;
        while i < n
            invariant
                n == self.bypass_cidrs@.len(),
                i <= n,
                first_bad_cidr(self.bypass_cidrs@, 0) == first_bad_cidr(
                    self.bypass_cidrs@,
                    i as int,
                ),
                addr::socket_value(self.proxy_addr@) is Some,
                addr::ipv4_value(self.tun_ip@) is Some,
                self.override_dns ==> addr::ip_value(self.dns_server@) is Some,
            decreases n - i,
        {
            match parse_cidr(self.bypass_cidrs[i].as_str()) {
                Ok(_) => {},
                Err(e) => {
                    return Err(ConfigError::BypassCidr(i, e));
                },
            }
            i += 1;
        }
        match &self.metrics_addr {
            Some(a) => {
                if addr::parse_socket(a.as_str()).is_none() {
                    return Err(ConfigError::MetricsAddr);
                }
            },
            None => {},
        }
        match (&self.username, &self.password) {
            (Some(_), None) | (None, Some(_)) => Err(ConfigError::HalfCredentials),
            (Some(u), Some(p)) => {
                let ulen = u.as_str().as_bytes().len();
                let plen = p.as_str().as_bytes().len();
                if ulen == 0 || ulen > 255 {
                    Err(ConfigError::UsernameLength)
                } else if plen == 0 || plen > 255 {
                    Err(ConfigError::PasswordLength)
                } else {
                    Ok(())
                }
            },
            (None, None) => Ok(()),
        }
    }

    pub fn proxy_socket_addr(&self) -> (r: SocketAddr)
        requires
            self.has_proxy_addr(),
        ensures
            r == self.spec_proxy_addr(),
    {
        addr::parse_socket(self.proxy_addr.as_str()).unwrap()
    }

    pub fn tun_ipv4(&self) -> (r: Ipv4Addr)
        requires
            addr::ipv4_value(self.tun_ip@) is Some,
        ensures
            Some(r) == addr::ipv4_value(self.tun_ip@),
    {
        addr::parse_ipv4(self.tun_ip.as_str()).unwrap()
    }

    pub fn dns_addr(&self) -> (r: Option<IpAddr>)
        requires
            self.has_dns_addr(),
        ensures
            r == self.spec_dns_addr(),
            r is Some == self.override_dns,
    {
        if self.override_dns {
            addr::parse_ip(self.dns_server.as_str())
        } else {
            None
        }
    }

    pub fn bypass_routes(&self) -> (r: Vec<(IpAddr, u8)>)
        requires
            self.has_bypass_routes(),
        ensures
            r@ == self.spec_bypass(),
    {
        let mut out: Vec<(IpAddr, u8)> = Vec::new();
        for i in 0..self.bypass_cidrs.len()
            invariant
                self.has_bypass_routes(),
                out@ == self.spec_bypass().take(i as int),
        {
            let route = parse_cidr(self.bypass_cidrs[i].as_str());
            assert(cidr_value(self.bypass_cidrs@[i as int]@) is Ok);
            out.push(route.unwrap());
        }
        out
    }

    pub fn metrics_socket_addr(&self) -> (r: Option<SocketAddr>)
        requires
            self.metrics_addr is Some ==> addr::socket_value(self.metrics_addr->0@) is Some,
        ensures
            r == (match self.metrics_addr {
                Some(a) => addr::socket_value(a@),
                None => None,
            }),
            r is Some == self.metrics_addr is Some,
    {
        match &self.metrics_addr {
            Some(a) => addr::parse_socket(a.as_str()),
            None => None,
        }
    }
}

proof fn lemma_first_bad_cidr(list: Seq<String>, i: int)
    requires
        0 <= i <= list.len(),
    ensures
        i <= first_bad_cidr(list, i) <= list.len(),
        forall|j: int| i <= j < first_bad_cidr(list, i) ==> cidr_value(#[trigger] list[j]@) is Ok,
        first_bad_cidr(list, i) < list.len() ==> cidr_value(list[first_bad_cidr(list, i)]@) is Err,
    decreases list.len() - i,
{
    if i < list.len() && cidr_value(list[i]@) is Ok {
        lemma_first_bad_cidr(list, i + 1);
    }
}

/// Of a configuration that passes validation every address can be read.
pub proof fn lemma_valid_config_is_readable(cfg: Config)
    requires
        cfg.fault() is None,
    ensures
        cfg.has_proxy_addr(),
        cfg.has_dns_addr(),
        cfg.has_bypass_routes(),
        addr::ipv4_value(cfg.tun_ip@) is Some,
        cfg.metrics_addr is Some ==> addr::socket_value(cfg.metrics_addr->0@) is Some,
        cfg.username is Some == cfg.password is Some,
{
    lemma_first_bad_cidr(cfg.bypass_cidrs@, 0);
}

impl ConfigError {
    pub open spec fn text(self, cfg: Config) -> Seq<char> {
        match self {
            ConfigError::ProxyAddr => "proxy_addr is not a valid socket address (expected ip:port)"@,
            ConfigError::TunIp => "tun_ip is not a valid IPv4 address"@,
            ConfigError::DnsServer => "dns_server is not a valid IP address"@,
            ConfigError::BypassCidr(i, e) => e.text(cfg.bypass_cidrs@[i as int]@),
            ConfigError::MetricsAddr =>
                "metrics_addr is not a valid socket address (expected ip:port)"@,
            ConfigError::HalfCredentials =>
                "username and password must both be set or both be absent"@,
            ConfigError::UsernameLength => "username length must be between 1 and 255"@,
            ConfigError::PasswordLength => "password length must be between 1 and 255"@,
        }
    }

    /// The fault of `cfg` in words.
    pub fn message(&self, cfg: &Config) -> (r: String)
        requires
            self matches ConfigError::BypassCidr(i, _) ==> i < cfg.bypass_cidrs@.len(),
        ensures
            r@ == self.text(*cfg),
    {
        match self {
            ConfigError::ProxyAddr =>
                "proxy_addr is not a valid socket address (expected ip:port)".to_owned(),
            ConfigError::TunIp => "tun_ip is not a valid IPv4 address".to_owned(),
            ConfigError::DnsServer => "dns_server is not a valid IP address".to_owned(),
            ConfigError::BypassCidr(i, e) => e.message(cfg.bypass_cidrs[*i].as_str()),
            ConfigError::MetricsAddr =>
                "metrics_addr is not a valid socket address (expected ip:port)".to_owned(),
            ConfigError::HalfCredentials =>
                "username and password must both be set or both be absent".to_owned(),
            ConfigError::UsernameLength => "username length must be between 1 and 255".to_owned(),
            ConfigError::PasswordLength => "password length must be between 1 and 255".to_owned(),
        }
    }
}

// ---------------------------------------------------------------------------
// The proxy
// ---------------------------------------------------------------------------
/// How long a connection to the proxy may take to come up.
pub const DEFAULT_CONNECT_TIMEOUT_NANOS: u64 = 10_000_000_000;

/// What is needed to talk to the proxy.
pub struct ProxyConfig {
    pub addr: SocketAddr,
    pub username: Option<String>,
    pub password: Option<String>,
    pub connect_timeout: Duration,
    pub tcp_nodelay: bool,
}

pub fn copy_optional_text(s: &Option<String>) -> (r: Option<String>)
    ensures
        r == *s,
{
    match s {
        Some(t) => Some(t.clone()),
        None => None,
    }
}

impl ProxyConfig {
    /// The proxy that a configuration names.
    pub open spec fn describes(self, cfg: Config) -> bool {
        &&& self.addr == cfg.spec_proxy_addr()
        &&& self.username == cfg.username
        &&& self.password == cfg.password
        &&& self.connect_timeout.nanos == DEFAULT_CONNECT_TIMEOUT_NANOS
        &&& self.tcp_nodelay
    }

    pub fn from_config(cfg: &Config) -> (r: ProxyConfig)
        requires
            cfg.has_proxy_addr(),
        ensures
            r.describes(*cfg),
    {
        ProxyConfig {
            addr: cfg.proxy_socket_addr(),
            username: copy_optional_text(&cfg.username),
            password: copy_optional_text(&cfg.password),
            connect_timeout: Duration { nanos: DEFAULT_CONNECT_TIMEOUT_NANOS },
            tcp_nodelay: true,
        }
    }
}

impl Clone for ProxyConfig {
    fn clone(&self) -> (r: ProxyConfig)
        ensures
            r == *self,
    {
        ProxyConfig {
            addr: self.addr,
            username: copy_optional_text(&self.username),
            password: copy_optional_text(&self.password),
            connect_timeout: self.connect_timeout,
            tcp_nodelay: self.tcp_nodelay,
        }
    }
}

/// The text of an address holds no slash.
proof fn lemma_no_slash(ip: IpAddr)
    ensures
        forall|j: int| 0 <= j < ip.text().len() ==> #[trigger] ip.text()[j] != '/',
{
    match ip {
        IpAddr::V4(a) => {
            crate::ipv6::lemma_dotted_chars(a);
        },
        IpAddr::V6(a) => {
            crate::ipv6::lemma_ipv6_chars(a);
        },
    }
}

/// What stands before the first slash is the address, and what stands behind it
/// the prefix length: nothing else has a say in what is read.
pub proof fn lemma_cidr_parts(left: Seq<char>, right: Seq<char>)
    requires
        forall|j: int| 0 <= j < left.len() ==> left[j] != '/',
    ensures
        cidr_value(left) == Err::<(IpAddr, u8), CidrError>(CidrError::MissingPrefix),
        ({
            let r = cidr_value(left + seq!['/'] + right);
            match (addr::ip_value(left), text::parse_unsigned(right)) {
                (None, _) => r == Err::<(IpAddr, u8), CidrError>(CidrError::InvalidAddress),
                (Some(_), None) => r == Err::<(IpAddr, u8), CidrError>(CidrError::InvalidPrefix),
                (Some(IpAddr::V4(a)), Some(n)) => {
                    &&& n <= 32 ==> r == Ok::<(IpAddr, u8), CidrError>((IpAddr::V4(a), n as u8))
                    &&& 32 < n <= 255 ==> r == Err::<(IpAddr, u8), CidrError>(
                        CidrError::PrefixTooLong(32),
                    )
                    &&& n > 255 ==> r == Err::<(IpAddr, u8), CidrError>(CidrError::InvalidPrefix)
                },
                (Some(IpAddr::V6(a)), Some(n)) => {
                    &&& n <= 128 ==> r == Ok::<(IpAddr, u8), CidrError>((IpAddr::V6(a), n as u8))
                    &&& 128 < n <= 255 ==> r == Err::<(IpAddr, u8), CidrError>(
                        CidrError::PrefixTooLong(128),
                    )
                    &&& n > 255 ==> r == Err::<(IpAddr, u8), CidrError>(CidrError::InvalidPrefix)
                },
            }
        }),
{
    let s = left + seq!['/'] + right;
    let i = left.len() as int;
    text::lemma_find_is(left, '/', i);
    assert forall|j: int| 0 <= j < i implies s[j] != '/' by {
        assert(s[j] == left[j]);
    }
    text::lemma_find_is(s, '/', i);
    assert(s.take(i) =~= left);
    assert(s.skip(i + 1) =~= right);
}

/// A network reads back as it is written: the address, and the very prefix
/// length, up to the number of bits of the address.
pub proof fn lemma_cidr_round_trip(ip: IpAddr, n: u8)
    ensures
        ({
            let s = ip.text() + seq!['/'] + text::dec_text(n as nat);
            let bits: u8 = if ip is V4 {
                32
            } else {
                128
            };
            &&& n <= bits ==> cidr_value(s) == Ok::<(IpAddr, u8), CidrError>((ip, n))
            &&& n > bits ==> cidr_value(s) == Err::<(IpAddr, u8), CidrError>(
                CidrError::PrefixTooLong(bits),
            )
        }),
{
    lemma_no_slash(ip);
    addr::lemma_ip_round_trip(ip);
    text::lemma_unsigned_round_trip(n as nat);
    lemma_cidr_parts(ip.text(), text::dec_text(n as nat));
}

/// A configuration is valid exactly where all its addresses can be read, every
/// entry of `bypass_cidrs` is a network, and the credentials are both absent, or
/// both set and of 1 to 255 octets. The name server counts only where it is to
/// be set.
pub proof fn lemma_what_makes_a_config_valid(cfg: Config)
    ensures
        cfg.fault() is None <==> {
            &&& addr::socket_value(cfg.proxy_addr@) is Some
            &&& addr::ipv4_value(cfg.tun_ip@) is Some
            &&& !cfg.override_dns || addr::ip_value(cfg.dns_server@) is Some
            &&& forall|i: int|
                0 <= i < cfg.bypass_cidrs@.len() ==> cidr_value(
                    #[trigger] cfg.bypass_cidrs@[i]@,
                ) is Ok
            &&& match cfg.metrics_addr {
                Some(a) => addr::socket_value(a@) is Some,
                None => true,
            }
            &&& match (cfg.username, cfg.password) {
                (None, None) => true,
                (Some(u), Some(p)) => 1 <= vstd::utf8::encode_utf8(u@).len() <= 255 && 1
                    <= vstd::utf8::encode_utf8(p@).len() <= 255,
                _ => false,
            }
        },
{
    lemma_first_bad_cidr(cfg.bypass_cidrs@, 0);
}

/// A fault that is told is one that the configuration has, and of several the
/// first one is told: all that is checked before it is in order.
pub proof fn lemma_fault_is_the_first(cfg: Config)
    ensures
        cfg.fault() == Some(ConfigError::ProxyAddr) <==> addr::socket_value(cfg.proxy_addr@) is None,
        cfg.fault() == Some(ConfigError::TunIp) <==> addr::socket_value(cfg.proxy_addr@) is Some
            && addr::ipv4_value(cfg.tun_ip@) is None,
        cfg.fault() == Some(ConfigError::DnsServer) <==> {
            &&& addr::socket_value(cfg.proxy_addr@) is Some
            &&& addr::ipv4_value(cfg.tun_ip@) is Some
            &&& cfg.override_dns
            &&& addr::ip_value(cfg.dns_server@) is None
        },
        cfg.fault() matches Some(ConfigError::BypassCidr(i, e)) ==> {
            &&& i < cfg.bypass_cidrs@.len()
            &&& cidr_value(cfg.bypass_cidrs@[i as int]@) == Err::<(IpAddr, u8), CidrError>(e)
            &&& forall|j: int|
                0 <= j < i ==> cidr_value(#[trigger] cfg.bypass_cidrs@[j]@) is Ok
        },
        cfg.fault() == Some(ConfigError::MetricsAddr) ==> {
            &&& cfg.has_bypass_routes()
            &&& cfg.metrics_addr matches Some(a) && addr::socket_value(a@) is None
        },
        cfg.fault() == Some(ConfigError::HalfCredentials) ==> cfg.username is Some
            != cfg.password is Some,
        cfg.fault() == Some(ConfigError::UsernameLength) ==> (cfg.username matches Some(u) && !(1
            <= vstd::utf8::encode_utf8(u@).len() <= 255)),
        cfg.fault() == Some(ConfigError::PasswordLength) ==> (cfg.password matches Some(p) && !(1
            <= vstd::utf8::encode_utf8(p@).len() <= 255)),
{
    lemma_first_bad_cidr(cfg.bypass_cidrs@, 0);
    assert(cfg.bypass_cidrs.len() == cfg.bypass_cidrs@.len());
}

/// What a configuration names is what is used: the proxy at the address that is
/// written, with the credentials as they stand, and a name server only where
/// one is to be set.
pub proof fn lemma_config_means_what_it_says(
    cfg: Config,
    proxy: ProxyConfig,
    at: SocketAddr,
    dns: IpAddr,
)
    ensures
        proxy.describes(cfg) && cfg.proxy_addr@ == at.text() ==> proxy.addr == at && proxy.username
            == cfg.username && proxy.password == cfg.password && proxy.connect_timeout.nanos == 10
            * 1_000_000_000 && proxy.tcp_nodelay,
        cfg.override_dns && cfg.dns_server@ == dns.text() ==> cfg.spec_dns_addr() == Some(dns),
        !cfg.override_dns ==> cfg.spec_dns_addr() is None,
{
    addr::lemma_socket_round_trip(at);
    addr::lemma_ip_round_trip(dns);
}

/// The list of networks that bypass the tunnel is the list that is written, each
/// at its place.
pub proof fn lemma_bypass_is_as_written(cfg: Config, i: int, ip: IpAddr, n: u8)
    requires
        0 <= i < cfg.bypass_cidrs@.len(),
        n <= (if ip is V4 {
            32u8
        } else {
            128u8
        }),
        cfg.bypass_cidrs@[i]@ == ip.text() + seq!['/'] + text::dec_text(n as nat),
    ensures
        cfg.spec_bypass().len() == cfg.bypass_cidrs@.len(),
        cfg.spec_bypass()[i] == (ip, n),
{
    lemma_cidr_round_trip(ip, n);
}

/// A fault of a network is told with the very text that is at fault, and where
/// the prefix is too long, with the longest that could be.
pub proof fn lemma_network_fault_tells_its_text(spec: Seq<char>, max: u8, e: CidrError)
    ensures
        e.text(spec).take((5 + spec.len()) as int) == "cidr "@ + spec,
        CidrError::PrefixTooLong(max).text(spec) == "cidr "@ + spec + (" prefix length exceeds "@
            + text::dec_text(max as nat)),
{
    reveal_strlit("cidr ");
    assert(e.text(spec).take((5 + spec.len()) as int) =~= "cidr "@ + spec);
}

} // verus!
