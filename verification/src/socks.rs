//! The SOCKS5 exchanges: what to send, how much to wait for and what a reply
//! means; and the framing of relayed datagrams.

use vstd::prelude::*;
use vstd::slice::slice_subrange;
use crate::addr::{IpAddr, Ipv4Addr, Ipv6Addr, SocketAddr};
use crate::bytes;
use crate::config::ProxyConfig;
use crate::text;

verus! {

/// The size of the socket buffers of a connection to the proxy.
pub const SOCKET_BUF_BYTES: usize = 524_288;

/// Why an exchange with the proxy failed.
#[derive(Clone, Copy, PartialEq, Eq, Debug, Structural)]
pub enum SocksError {
    MethodVersion(u8),
    CredentialsRequired,
    AuthenticationRejected,
    NoAcceptableMethod,
    UnsupportedMethod(u8),
    ReplyVersion(u8),
    RequestFailed(u8),
    DomainBindAddress,
    UnsupportedAddressType(u8),
}

impl SocksError {
    pub open spec fn text(self) -> Seq<char> {
        match self {
            SocksError::MethodVersion(v) => "invalid SOCKS5 version in method reply: "@
                + text::dec_text(v as nat),
            SocksError::CredentialsRequired =>
                "proxy requires username/password authentication"@,
            SocksError::AuthenticationRejected => "SOCKS5 authentication rejected by proxy"@,
            SocksError::NoAcceptableMethod =>
                "SOCKS5 proxy offered no acceptable authentication method"@,
            SocksError::UnsupportedMethod(m) => "SOCKS5 proxy selected unsupported auth method "@
                + text::dec_text(m as nat),
            SocksError::ReplyVersion(v) => "invalid SOCKS5 version in reply: "@ + text::dec_text(
                v as nat,
            ),
            SocksError::RequestFailed(c) => "SOCKS5 request failed with reply code "@
                + text::dec_text(c as nat),
            SocksError::DomainBindAddress =>
                "SOCKS5 proxy returned a domain bind address which is not supported for UDP"@,
            SocksError::UnsupportedAddressType(t) =>
                "SOCKS5 reply used unsupported address type "@ + text::dec_text(t as nat),
        }
    }

    /// The fault in words.
    pub fn message(&self) -> (r: String)
        ensures
            r@ == self.text(),
    {
        let mut out = String::new();
        match self {
            SocksError::MethodVersion(v) => {
                text::push_text(&mut out, "invalid SOCKS5 version in method reply: ");
                text::push_decimal(&mut out, *v as u64);
            },
            SocksError::CredentialsRequired => {
                text::push_text(&mut out, "proxy requires username/password authentication");
            },
            SocksError::AuthenticationRejected => {
                text::push_text(&mut out, "SOCKS5 authentication rejected by proxy");
            },
            SocksError::NoAcceptableMethod => {
                text::push_text(
                    &mut out,
                    "SOCKS5 proxy offered no acceptable authentication method",
                );
            },
            SocksError::UnsupportedMethod(m) => {
                text::push_text(&mut out, "SOCKS5 proxy selected unsupported auth method ");
                text::push_decimal(&mut out, *m as u64);
            },
            SocksError::ReplyVersion(v) => {
                text::push_text(&mut out, "invalid SOCKS5 version in reply: ");
                text::push_decimal(&mut out, *v as u64);
            },
            SocksError::RequestFailed(c) => {
                text::push_text(&mut out, "SOCKS5 request failed with reply code ");
                text::push_decimal(&mut out, *c as u64);
            },
            SocksError::DomainBindAddress => {
                text::push_text(
                    &mut out,
                    "SOCKS5 proxy returned a domain bind address which is not supported for UDP",
                );
            },
            SocksError::UnsupportedAddressType(t) => {
                text::push_text(&mut out, "SOCKS5 reply used unsupported address type ");
                text::push_decimal(&mut out, *t as u64);
            },
        }
        assert(out@ =~= self.text());
        out
    }
}

// ---------------------------------------------------------------------------
// Connecting
// ---------------------------------------------------------------------------
/// Whether a connection through the proxy is opened with a user name and a
/// password: only where both are set.
pub fn connects_with_password(proxy: &ProxyConfig) -> (r: bool)
    ensures
        r == (proxy.username is Some && proxy.password is Some),
{
    proxy.username.is_some() && proxy.password.is_some()
}

/// What it is called when a connection through the proxy does not come up.
pub open spec fn connect_failure_text(with_password: bool, timed_out: bool) -> &'static str {
    match (with_password, timed_out) {
        (true, true) => "SOCKS5 authenticated connect timed out",
        (true, false) => "SOCKS5 authenticated connect failed",
        (false, true) => "SOCKS5 connect timed out",
        (false, false) => "SOCKS5 connect failed",
    }
}

/// What it is called when a connection through the proxy does not come up.
pub fn connect_failure(with_password: bool, timed_out: bool) -> (r: &'static str)
    ensures
        r == connect_failure_text(with_password, timed_out),
{
    match (with_password, timed_out) {
        (true, true) => "SOCKS5 authenticated connect timed out",
        (true, false) => "SOCKS5 authenticated connect failed",
        (false, true) => "SOCKS5 connect timed out",
        (false, false) => "SOCKS5 connect failed",
    }
}

// ---------------------------------------------------------------------------
// Authentication
// ---------------------------------------------------------------------------
/// The methods to offer: none, and a password where a user name is set.
pub open spec fn offer_bytes(with_username: bool) -> Seq<u8> {
    if with_username {
        seq![5u8, 2, 0, 2]
    } else {
        seq![5u8, 1, 0]
    }
}

/// The methods to offer to the proxy.
pub fn method_offer(proxy: &ProxyConfig) -> (r: Vec<u8>)
    ensures
        r@ == offer_bytes(proxy.username is Some),
{
    let mut r: Vec<u8> = Vec::new();
    r.push(5);
    if proxy.username.is_some() {
        r.push(2);
        r.push(0);
        r.push(2);
    } else {
        r.push(1);
        r.push(0);
    }
    assert(r@ =~= offer_bytes(proxy.username is Some));
    r
}

/// A user name and a password as they go to the proxy, each after its length
/// in one octet.
pub open spec fn credential_bytes(user: Seq<char>, pass: Seq<char>) -> Seq<u8> {
    let u = vstd::utf8::encode_utf8(user);
    let p = vstd::utf8::encode_utf8(pass);
    seq![1u8, (u.len() % 256) as u8] + u + seq![(p.len() % 256) as u8] + p
}

fn credentials(user: &str, pass: &str) -> (r: Vec<u8>)
    ensures
        r@ == credential_bytes(user@, pass@),
{
    let u = user.as_bytes();
    let p = pass.as_bytes();
    let mut r: Vec<u8> = Vec::new();
    r.push(1);
    r.push((u.len() % 256) as u8);
    text::append_bytes(&mut r, u);
    r.push((p.len() % 256) as u8);
    text::append_bytes(&mut r, p);
    assert(r@ =~= credential_bytes(user@, pass@));
    r
}

/// What to do next to authenticate.
pub enum AuthStep {
    /// Wait for this many more octets.
    Receive(usize),
    /// Send the credentials.
    Send(Vec<u8>),
    Done,
    Fail(SocksError),
}

/// What to do next to authenticate, in terms of the octets to send.
pub enum AuthPlan {
    Receive(int),
    Send(Seq<u8>),
    Done,
    Fail(SocksError),
}

impl AuthStep {
    pub open spec fn plan(self) -> AuthPlan {
        match self {
            AuthStep::Receive(n) => AuthPlan::Receive(n as int),
            AuthStep::Send(b) => AuthPlan::Send(b@),
            AuthStep::Done => AuthPlan::Done,
            AuthStep::Fail(e) => AuthPlan::Fail(e),
        }
    }
}

/// What follows once `received` has come in after the offer, and the
/// credentials have been sent or not.
pub open spec fn auth_plan(
    username: Option<Seq<char>>,
    password: Option<Seq<char>>,
    received: Seq<u8>,
    sent: bool,
) -> AuthPlan {
    if received.len() < 2 {
        AuthPlan::Receive(2 - received.len())
    } else if received[0] != 5 {
        AuthPlan::Fail(SocksError::MethodVersion(received[0]))
    } else if received[1] == 0 {
        AuthPlan::Done
    } else if received[1] == 2 {
        match (username, password) {
            (Some(user), Some(pass)) => if !sent {
                AuthPlan::Send(credential_bytes(user, pass))
            } else if received.len() < 4 {
                AuthPlan::Receive(4 - received.len())
            } else if received[3] != 0 {
                AuthPlan::Fail(SocksError::AuthenticationRejected)
            } else {
                AuthPlan::Done
            },
            _ => AuthPlan::Fail(SocksError::CredentialsRequired),
        }
    } else if received[1] == 0xff {
        AuthPlan::Fail(SocksError::NoAcceptableMethod)
    } else {
        AuthPlan::Fail(SocksError::UnsupportedMethod(received[1]))
    }
}

/// What to do next to authenticate, once `received` has come in.
pub fn negotiate_auth(proxy: &ProxyConfig, received: &[u8], sent: bool) -> (r: AuthStep)
    ensures
        r.plan() == auth_plan(
            text::optional_text(proxy.username),
            text::optional_text(proxy.password),
            received@,
            sent,
        ),
{
    let n = received.len();
    if n < 2 {
        return AuthStep::Receive(2 - n);
    }
    if received[0] != 5 {
        return AuthStep::Fail(SocksError::MethodVersion(received[0]));
    }
    let method = received[1];
    if method == 0 {
        AuthStep::Done
    } else if method == 2 {
        match (&proxy.username, &proxy.password) {
            (Some(user), Some(pass)) => {
                if !sent {
                    AuthStep::Send(credentials(user.as_str(), pass.as_str()))
                } else if n < 4 {
                    AuthStep::Receive(4 - n)
                } else if received[3] != 0 {
                    AuthStep::Fail(SocksError::AuthenticationRejected)
                } else {
                    AuthStep::Done
                }
            },
            _ => AuthStep::Fail(SocksError::CredentialsRequired),
        }
    } else if method == 0xff {
        AuthStep::Fail(SocksError::NoAcceptableMethod)
    } else {
        AuthStep::Fail(SocksError::UnsupportedMethod(method))
    }
}

/// What it is called when the octets of the authentication do not come in:
/// those before the credentials were sent, or those after.
pub fn auth_receive_failure(sent: bool) -> (r: &'static str)
    ensures
        r == (if sent {
            "failed to read SOCKS5 auth reply"
        } else {
            "failed to read SOCKS5 method selection reply"
        }),
{
    if sent {
        "failed to read SOCKS5 auth reply"
    } else {
        "failed to read SOCKS5 method selection reply"
    }
}

/// Credentials go out only after the proxy has asked for them, only where both
/// are set, and never a second time.
pub proof fn lemma_credentials_only_on_request(
    username: Option<Seq<char>>,
    password: Option<Seq<char>>,
    received: Seq<u8>,
    sent: bool,
)
    requires
        auth_plan(username, password, received, sent) is Send,
    ensures
        received.len() >= 2,
        received[0] == 5,
        received[1] == 2,
        username is Some,
        password is Some,
        !sent,
{
}

/// However a proxy answers, the exchange is over after four octets at the
/// latest.
pub proof fn lemma_authentication_ends(
    username: Option<Seq<char>>,
    password: Option<Seq<char>>,
    received: Seq<u8>,
)
    requires
        received.len() >= 4,
    ensures
        auth_plan(username, password, received, true) is Done || auth_plan(
            username,
            password,
            received,
            true,
        ) is Fail,
{
}

// ---------------------------------------------------------------------------
// The reply to a request
// ---------------------------------------------------------------------------
/// The part of a reply that is waited for.
#[derive(Clone, Copy, PartialEq, Eq, Debug, Structural)]
pub enum ReplyPart {
    Header,
    Ipv4Address,
    Ipv6Address,
    DomainLength,
    Domain,
    Port,
}

/// What follows from the octets of a reply that have come in.
#[derive(Clone, Copy, PartialEq, Eq, Debug, Structural)]
pub enum BindStep {
    /// Wait for this many more octets, which are of this part.
    Receive(usize, ReplyPart),
    Done(SocketAddr),
    Fail(SocksError),
}

pub open spec fn octets_to_ip(octets: Seq<u8>) -> IpAddr {
    if octets.len() == 4 {
        IpAddr::V4(Ipv4Addr { bits: bytes::be_value(octets) as u32 })
    } else {
        IpAddr::V6(Ipv6Addr { bits: bytes::be_value(octets) as u128 })
    }
}

/// What follows from an address of `size` octets behind the header of a reply.
pub open spec fn address_step(b: Seq<u8>, size: int, part: ReplyPart) -> BindStep {
    if b.len() < 4 + size {
        BindStep::Receive((4 + size - b.len()) as usize, part)
    } else if b.len() < 6 + size {
        BindStep::Receive((6 + size - b.len()) as usize, ReplyPart::Port)
    } else {
        BindStep::Done(
            SocketAddr::of(
                octets_to_ip(b.subrange(4, 4 + size)),
                bytes::be_value(b.subrange(4 + size, 6 + size)) as u16,
            ),
        )
    }
}

/// What follows from the octets of a reply that have come in: the address the
/// proxy has bound, or the first thing that is wrong.
pub open spec fn bind_step(b: Seq<u8>) -> BindStep {
    if b.len() < 4 {
        BindStep::Receive((4 - b.len()) as usize, ReplyPart::Header)
    } else if b[0] != 5 {
        BindStep::Fail(SocksError::ReplyVersion(b[0]))
    } else if b[1] != 0 {
        BindStep::Fail(SocksError::RequestFailed(b[1]))
    } else if b[3] == 1 {
        address_step(b, 4, ReplyPart::Ipv4Address)
    } else if b[3] == 4 {
        address_step(b, 16, ReplyPart::Ipv6Address)
    } else if b[3] == 3 {
        if b.len() < 5 {
            BindStep::Receive(1, ReplyPart::DomainLength)
        } else if b.len() < 5 + b[4] {
            BindStep::Receive((5 + b[4] - b.len()) as usize, ReplyPart::Domain)
        } else {
            BindStep::Fail(SocksError::DomainBindAddress)
        }
    } else {
        BindStep::Fail(SocksError::UnsupportedAddressType(b[3]))
    }
}

fn read_ip_octets(octets: &[u8]) -> (r: IpAddr)
    requires
        octets@.len() == 4 || octets@.len() == 16,
    ensures
        r == octets_to_ip(octets@),
        octets@.len() == 4 ==> r is V4,
        octets@.len() == 16 ==> r is V6,
{
    let v = bytes::read_be(octets);
    proof {
        bytes::lemma_be_value_bound(octets@);
        bytes::lemma_byte_range();
    }
    if octets.len() == 4 {
        IpAddr::V4(Ipv4Addr { bits: v as u32 })
    } else {
        IpAddr::V6(Ipv6Addr { bits: v })
    }
}

fn read_address(b: &[u8], size: usize, part: ReplyPart) -> (r: BindStep)
    requires
        size == 4 || size == 16,
        b@.len() >= 4,
    ensures
        r == address_step(b@, size as int, part),
{
    let n = b.len();
    if n < 4 + size {
        return BindStep::Receive(4 + size - n, part);
    }
    if n < 6 + size {
        return BindStep::Receive(6 + size - n, ReplyPart::Port);
    }
    let ip = read_ip_octets(slice_subrange(b, 4, 4 + size));
    let port = bytes::read_be_u16(b[4 + size], b[5 + size]);
    assert(b@.subrange(4 + size, 6 + size) =~= seq![b@[4 + size], b@[5 + size]]);
    BindStep::Done(SocketAddr::new(ip, port))
}

/// What follows from the octets of a reply that have come in.
pub fn read_bind_address(b: &[u8]) -> (r: BindStep)
    ensures
        r == bind_step(b@),
{
    let n = b.len();
    if n < 4 {
        return BindStep::Receive(4 - n, ReplyPart::Header);
    }
    if b[0] != 5 {
        return BindStep::Fail(SocksError::ReplyVersion(b[0]));
    }
    if b[1] != 0 {
        return BindStep::Fail(SocksError::RequestFailed(b[1]));
    }
    let kind = b[3];
    if kind == 1 {
        read_address(b, 4, ReplyPart::Ipv4Address)
    } else if kind == 4 {
        read_address(b, 16, ReplyPart::Ipv6Address)
    } else if kind == 3 {
        if n < 5 {
            BindStep::Receive(1, ReplyPart::DomainLength)
        } else {
            let len = b[4] as usize;
            if n - 5 < len {
                BindStep::Receive(len - (n - 5), ReplyPart::Domain)
            } else {
                BindStep::Fail(SocksError::DomainBindAddress)
            }
        }
    } else {
        BindStep::Fail(SocksError::UnsupportedAddressType(kind))
    }
}

impl ReplyPart {
    /// What it is called when this part does not come in.
    pub fn failure(&self) -> (r: &'static str)
        ensures
            r == (match self {
                ReplyPart::Header => "failed to read SOCKS5 reply header",
                ReplyPart::Ipv4Address => "failed to read SOCKS5 IPv4 bind address",
                ReplyPart::Ipv6Address => "failed to read SOCKS5 IPv6 bind address",
                ReplyPart::DomainLength => "failed to read SOCKS5 domain length",
                ReplyPart::Domain => "failed to read SOCKS5 domain bind address",
                ReplyPart::Port => "failed to read SOCKS5 bind port",
            }),
    {
        match self {
            ReplyPart::Header => "failed to read SOCKS5 reply header",
            ReplyPart::Ipv4Address => "failed to read SOCKS5 IPv4 bind address",
            ReplyPart::Ipv6Address => "failed to read SOCKS5 IPv6 bind address",
            ReplyPart::DomainLength => "failed to read SOCKS5 domain length",
            ReplyPart::Domain => "failed to read SOCKS5 domain bind address",
            ReplyPart::Port => "failed to read SOCKS5 bind port",
        }
    }
}

/// A reply is never read past its end: what is waited for is at most what is
/// missing, and there is always something to wait for.
pub proof fn lemma_waits_are_positive(b: Seq<u8>)
    requires
        bind_step(b) is Receive,
    ensures
        bind_step(b) matches BindStep::Receive(n, _) ==> 1 <= n <= 255,
        b.len() < 260,
{
}

/// The kind and the octets of an address, as replies and datagrams carry it.
pub open spec fn address_bytes(ip: IpAddr) -> Seq<u8> {
    match ip {
        IpAddr::V4(v4) => seq![1u8] + v4.octets(),
        IpAddr::V6(v6) => seq![4u8] + v6.octets(),
    }
}

proof fn lemma_ip_octets(ip: IpAddr)
    ensures
        match ip {
            IpAddr::V4(v4) => v4.octets().len() == 4 && octets_to_ip(v4.octets()) == ip,
            IpAddr::V6(v6) => v6.octets().len() == 16 && octets_to_ip(v6.octets()) == ip,
        },
{
    bytes::lemma_byte_range();
    match ip {
        IpAddr::V4(v4) => {
            bytes::lemma_be_bytes_len(v4.bits as nat, 4);
            bytes::lemma_be_value_of_bytes(v4.bits as nat, 4);
        },
        IpAddr::V6(v6) => {
            bytes::lemma_be_bytes_len(v6.bits as nat, 16);
            bytes::lemma_be_value_of_bytes(v6.bits as nat, 16);
        },
    }
}

proof fn lemma_port_octets(port: u16)
    ensures
        bytes::be_bytes(port as nat, 2).len() == 2,
        bytes::be_value(bytes::be_bytes(port as nat, 2)) == port,
{
    bytes::lemma_byte_range();
    bytes::lemma_be_bytes_len(port as nat, 2);
    bytes::lemma_be_value_of_bytes(port as nat, 2);
}

/// A reply of success that carries an address is read as that address.
pub proof fn lemma_reply_reads_back(ip: IpAddr, port: u16, reserved: u8)
    ensures
        bind_step(
            seq![5u8, 0, reserved] + address_bytes(ip) + bytes::be_bytes(port as nat, 2),
        ) == BindStep::Done(SocketAddr::of(ip, port)),
{
    let b = seq![5u8, 0, reserved] + address_bytes(ip) + bytes::be_bytes(port as nat, 2);
    lemma_ip_octets(ip);
    lemma_port_octets(port);
    match ip {
        IpAddr::V4(v4) => {
            assert(b.subrange(4, 8) =~= v4.octets());
            assert(b.subrange(8, 10) =~= bytes::be_bytes(port as nat, 2));
        },
        IpAddr::V6(v6) => {
            assert(b.subrange(4, 20) =~= v6.octets());
            assert(b.subrange(20, 22) =~= bytes::be_bytes(port as nat, 2));
        },
    }
}

// ---------------------------------------------------------------------------
// The relay for datagrams
// ---------------------------------------------------------------------------
/// The request for a relay, from any address.
pub fn associate_request() -> (r: Vec<u8>)
    ensures
        r@ == seq![5u8, 3, 0, 1, 0, 0, 0, 0, 0, 0],
{
    let mut r: Vec<u8> = Vec::new();
    r.push(5);
    r.push(3);
    r.push(0);
    r.push(1);
    r.push(0);
    r.push(0);
    r.push(0);
    r.push(0);
    r.push(0);
    r.push(0);
    assert(r@ =~= seq![5u8, 3, 0, 1, 0, 0, 0, 0, 0, 0]);
    r
}

pub open spec fn is_unspecified(ip: IpAddr) -> bool {
    match ip {
        IpAddr::V4(v4) => v4.bits == 0,
        IpAddr::V6(v6) => v6.bits == 0,
    }
}

/// The relay that a reply names: where it leaves the address open, the relay
/// is at the address of the proxy.
pub open spec fn relay_of(reply: SocketAddr, proxy: SocketAddr) -> SocketAddr {
    if is_unspecified(reply.spec_ip()) {
        SocketAddr::of(proxy.spec_ip(), reply.spec_port())
    } else {
        reply
    }
}

/// The address of the relay, given what the proxy replied and where the proxy
/// is.
pub fn normalize_relay(reply: SocketAddr, proxy: SocketAddr) -> (r: SocketAddr)
    ensures
        r == relay_of(reply, proxy),
{
    let unspecified = match reply.ip() {
        IpAddr::V4(v4) => v4.is_unspecified(),
        IpAddr::V6(v6) => v6.is_unspecified(),
    };
    if unspecified {
        SocketAddr::new(proxy.ip(), reply.port())
    } else {
        reply
    }
}

/// Whatever address the proxy replies with, the relay keeps its port, and is
/// at a concrete address where the proxy is at one.
pub proof fn lemma_relay_is_concrete(reply: SocketAddr, proxy: SocketAddr)
    ensures
        relay_of(reply, proxy).spec_port() == reply.spec_port(),
        !is_unspecified(proxy.spec_ip()) ==> !is_unspecified(relay_of(reply, proxy).spec_ip()),
{
}

// ---------------------------------------------------------------------------
// Datagrams
// ---------------------------------------------------------------------------
/// A datagram for the relay: a header that names its target, and the payload.
pub open spec fn udp_frame(target: SocketAddr, payload: Seq<u8>) -> Seq<u8> {
    seq![0u8, 0, 0] + address_bytes(target.spec_ip()) + bytes::be_bytes(
        target.spec_port() as nat,
        2,
    ) + payload
}

/// Frames a datagram for the relay, in place of what `out` held.
pub fn encode_udp(target: SocketAddr, payload: &[u8], out: &mut Vec<u8>)
    ensures
        final(out)@ == udp_frame(target, payload@),
{
    out.clear();
    out.push(0);
    out.push(0);
    out.push(0);
    match target.ip() {
        IpAddr::V4(v4) => {
            out.push(1);
            bytes::push_be(out, v4.bits as u128, 4);
        },
        IpAddr::V6(v6) => {
            out.push(4);
            bytes::push_be(out, v6.bits, 16);
        },
    }
    bytes::push_be(out, target.port() as u128, 2);
    text::append_bytes(out, payload);
    assert(out@ =~= udp_frame(target, payload@));
}

/// The target and the payload behind an address of `size` octets.
pub open spec fn udp_body(b: Seq<u8>, size: int) -> Option<(SocketAddr, Seq<u8>)> {
    if b.len() < 6 + size {
        None
    } else {
        Some(
            (
                SocketAddr::of(
                    octets_to_ip(b.subrange(4, 4 + size)),
                    bytes::be_value(b.subrange(4 + size, 6 + size)) as u16,
                ),
                b.skip(6 + size),
            ),
        )
    }
}

/// The address and the payload of a datagram from the relay. Fragments, other
/// kinds of address and datagrams that end too early have none.
pub open spec fn udp_value(b: Seq<u8>) -> Option<(SocketAddr, Seq<u8>)> {
    if b.len() < 4 || b[2] != 0 {
        None
    } else if b[3] == 1 {
        udp_body(b, 4)
    } else if b[3] == 4 {
        udp_body(b, 16)
    } else {
        None
    }
}

fn read_udp_body<'a>(buf: &'a [u8], size: usize) -> (r: Option<(SocketAddr, &'a [u8])>)
    requires
        size == 4 || size == 16,
    ensures
        match r {
            Some((a, data)) => udp_body(buf@, size as int) == Some((a, data@)),
            None => udp_body(buf@, size as int) is None,
        },
{
    if buf.len() < 6 + size {
        return None;
    }
    let ip = read_ip_octets(slice_subrange(buf, 4, 4 + size));
    let port = bytes::read_be_u16(buf[4 + size], buf[5 + size]);
    assert(buf@.subrange(4 + size, 6 + size) =~= seq![buf@[4 + size], buf@[5 + size]]);
    let data = slice_subrange(buf, 6 + size, buf.len());
    assert(data@ =~= buf@.skip(6 + size));
    Some((SocketAddr::new(ip, port), data))
}

/// Reads a datagram from the relay, where it is whole and not a fragment.
pub fn decode_udp<'a>(buf: &'a [u8]) -> (r: Option<(SocketAddr, &'a [u8])>)
    ensures
        match r {
            Some((a, data)) => udp_value(buf@) == Some((a, data@)),
            None => udp_value(buf@) is None,
        },
{
    if buf.len() < 4 {
        return None;
    }
    if buf[2] != 0 {
        return None;
    }
    if buf[3] == 1 {
        read_udp_body(buf, 4)
    } else if buf[3] == 4 {
        read_udp_body(buf, 16)
    } else {
        None
    }
}

/// Taking apart what was framed gives the target, without a scope, and the
/// payload back.
pub proof fn lemma_datagram_round_trip(target: SocketAddr, payload: Seq<u8>)
    ensures
        udp_value(udp_frame(target, payload)) == Some(
            (SocketAddr::of(target.spec_ip(), target.spec_port()), payload),
        ),
{
    let b = udp_frame(target, payload);
    let p = bytes::be_bytes(target.spec_port() as nat, 2);
    lemma_ip_octets(target.spec_ip());
    lemma_port_octets(target.spec_port());
    match target.spec_ip() {
        IpAddr::V4(v4) => {
            assert(b.subrange(4, 8) =~= v4.octets());
            assert(b.subrange(8, 10) =~= p);
            assert(b.skip(10) =~= payload);
        },
        IpAddr::V6(v6) => {
            assert(b.subrange(4, 20) =~= v6.octets());
            assert(b.subrange(20, 22) =~= p);
            assert(b.skip(22) =~= payload);
        },
    }
}

/// Framing again what was taken apart gives the datagram back, but for the
/// two reserved octets, which become zero.
pub proof fn lemma_datagram_frames_again(b: Seq<u8>)
    requires
        udp_value(b) is Some,
    ensures
        udp_value(b) matches Some((a, payload)) ==> udp_frame(a, payload) == b.update(0, 0).update(
            1,
            0,
        ),
{
    let size: int = if b[3] == 1 {
        4
    } else {
        16
    };
    let o = b.subrange(4, 4 + size);
    let p = b.subrange(4 + size, 6 + size);
    let (a, payload) = udp_value(b)->0;
    bytes::lemma_be_value_bound(o);
    bytes::lemma_be_value_bound(p);
    bytes::lemma_byte_range();
    bytes::lemma_be_bytes_of_value(o);
    bytes::lemma_be_bytes_of_value(p);
    assert(udp_frame(a, payload) =~= b.update(0, 0).update(1, 0));
}

/// Reading the credentials the way they are laid out gives both back: a one, the
/// length of the user name in one octet and the user name, the length of the
/// password in one octet and the password, and nothing more.
pub proof fn lemma_credentials_read_back(user: Seq<char>, pass: Seq<char>)
    requires
        vstd::utf8::encode_utf8(user).len() <= 255,
        vstd::utf8::encode_utf8(pass).len() <= 255,
    ensures
        ({
            let b = credential_bytes(user, pass);
            let n = b[1] as int;
            let m = b[2 + n] as int;
            &&& b[0] == 1
            &&& b.len() == 3 + n + m
            &&& b.subrange(2, 2 + n) == vstd::utf8::encode_utf8(user)
            &&& b.subrange(3 + n, 3 + n + m) == vstd::utf8::encode_utf8(pass)
        }),
{
    let u = vstd::utf8::encode_utf8(user);
    let p = vstd::utf8::encode_utf8(pass);
    let b = credential_bytes(user, pass);
    let n = u.len() as int;
    let m = p.len() as int;
    assert(b[1] == n);
    assert(b[2 + n] == m);
    assert(b.subrange(2, 2 + n) =~= u);
    assert(b.subrange(3 + n, 3 + n + m) =~= p);
}

/// The offer tells how many methods follow. To go without a password is always
/// among them, to use one exactly where there is a user name, and nothing else
/// is.
pub proof fn lemma_offer_is_well_formed(with_username: bool)
    ensures
        ({
            let b = offer_bytes(with_username);
            &&& b.len() >= 3
            &&& b[0] == 5
            &&& b[1] == b.len() - 2
            &&& b.skip(2).contains(0)
            &&& b.skip(2).contains(2) <==> with_username
            &&& forall|i: int| 2 <= i < b.len() ==> #[trigger] b[i] == 0 || b[i] == 2
            &&& b.skip(2).no_duplicates()
        }),
{
    let b = offer_bytes(with_username);
    assert(b.skip(2)[0] == 0);
    if with_username {
        assert(b.skip(2)[1] == 2);
    }
}

/// The answer to the offer decides. One of another version, one that takes none
/// of the methods and one that takes a method that was not offered all fail;
/// where no password is asked for, none is sent and the exchange is over.
pub proof fn lemma_answer_to_offer_decides(
    username: Option<Seq<char>>,
    password: Option<Seq<char>>,
    received: Seq<u8>,
    sent: bool,
)
    ensures
        ({
            let plan = auth_plan(username, password, received, sent);
            &&& received.len() == 0 ==> plan == AuthPlan::Receive(2)
            &&& received.len() == 1 ==> plan == AuthPlan::Receive(1)
            &&& received.len() >= 2 ==> {
                &&& received[0] != 5 ==> plan == AuthPlan::Fail(
                    SocksError::MethodVersion(received[0]),
                )
                &&& received[0] == 5 && received[1] == 0 ==> plan is Done
                &&& received[0] == 5 && received[1] == 255 ==> plan == AuthPlan::Fail(
                    SocksError::NoAcceptableMethod,
                )
                &&& received[0] == 5 && received[1] != 0 && received[1] != 2 && received[1] != 255
                    ==> plan == AuthPlan::Fail(SocksError::UnsupportedMethod(received[1]))
                &&& received[0] == 5 && received[1] == 2 && (username is None || password is None)
                    ==> plan == AuthPlan::Fail(SocksError::CredentialsRequired)
            }
        }),
{
}

/// A password that is asked for is sent, and the proxy's answer to it decides:
/// it is accepted exactly where the second octet of that is zero, and the first
/// one has no say.
pub proof fn lemma_answer_to_credentials_decides(
    user: Seq<char>,
    pass: Seq<char>,
    version: u8,
    status: u8,
)
    ensures
        auth_plan(Some(user), Some(pass), seq![5, 2], false) == AuthPlan::Send(
            credential_bytes(user, pass),
        ),
        auth_plan(Some(user), Some(pass), seq![5, 2], true) == AuthPlan::Receive(2),
        auth_plan(Some(user), Some(pass), seq![5, 2, version], true) == AuthPlan::Receive(1),
        auth_plan(Some(user), Some(pass), seq![5, 2, version, status], true) is Done <==> status == 0,
        status != 0 ==> auth_plan(Some(user), Some(pass), seq![5, 2, version, status], true)
            == AuthPlan::Fail(SocksError::AuthenticationRejected),
{
}

/// A reply is taken for a success only where it is of version five and says that
/// the request was granted. Of another version, or with any other code, it fails
/// and tells which.
pub proof fn lemma_refused_request_fails(b: Seq<u8>)
    ensures
        b.len() >= 4 && b[0] != 5 ==> bind_step(b) == BindStep::Fail(SocksError::ReplyVersion(b[0])),
        b.len() >= 4 && b[0] == 5 && b[1] != 0 ==> bind_step(b) == BindStep::Fail(
            SocksError::RequestFailed(b[1]),
        ),
        bind_step(b) is Done ==> b.len() >= 10 && b[0] == 5 && b[1] == 0 && (b[3] == 1 || (b[3] == 4
            && b.len() >= 22)),
        b.len() >= 4 && b[0] == 5 && b[1] == 0 && b[3] != 1 && b[3] != 3 && b[3] != 4 ==> bind_step(b)
            == BindStep::Fail(SocksError::UnsupportedAddressType(b[3])),
        b.len() >= 5 && b[0] == 5 && b[1] == 0 && b[3] == 3 && b.len() >= 5 + b[4] ==> bind_step(b)
            == BindStep::Fail(SocksError::DomainBindAddress),
{
}

/// Nothing that comes in later changes what a reply was found to mean.
pub proof fn lemma_later_octets_change_nothing(b: Seq<u8>, more: Seq<u8>)
    requires
        !(bind_step(b) is Receive),
    ensures
        bind_step(b + more) == bind_step(b),
{
    let c = b + more;
    if bind_step(b) is Done {
        if b[3] == 1 {
            assert(c.subrange(4, 8) =~= b.subrange(4, 8));
            assert(c.subrange(8, 10) =~= b.subrange(8, 10));
        } else {
            assert(c.subrange(4, 20) =~= b.subrange(4, 20));
            assert(c.subrange(20, 22) =~= b.subrange(20, 22));
        }
    }
}

/// A reply of success names an address by its kind, one for IPv4 and four for
/// IPv6, its octets, and the port with the high octet first. Once whole it is
/// read as just that; before that, some of the octets that are missing are
/// waited for, and none beyond them.
pub proof fn lemma_granted_request_is_read(ip: IpAddr, port: u16, reserved: u8, k: int)
    ensures
        ({
            let (kind, octets) = match ip {
                IpAddr::V4(a) => (1u8, a.octets()),
                IpAddr::V6(a) => (4u8, a.octets()),
            };
            let b = seq![5u8, 0, reserved, kind] + octets + seq![
                (port / 256) as u8,
                (port % 256) as u8,
            ];
            &&& bind_step(b) == BindStep::Done(SocketAddr::of(ip, port))
            &&& 0 <= k < b.len() ==> (bind_step(b.take(k)) matches BindStep::Receive(n, _) && 1 <= n
                <= b.len() - k)
        }),
{
    lemma_reply_reads_back(ip, port, reserved);
    bytes::lemma_be_bytes_digits(port as nat);
    let o = match ip {
        IpAddr::V4(a) => a.octets(),
        IpAddr::V6(a) => a.octets(),
    };
    let kind: u8 = match ip {
        IpAddr::V4(_) => 1,
        IpAddr::V6(_) => 4,
    };
    lemma_ip_octets(ip);
    let b = seq![5u8, 0, reserved, kind] + o + seq![(port / 256) as u8, (port % 256) as u8];
    assert(b =~= seq![5u8, 0, reserved] + address_bytes(ip) + bytes::be_bytes(port as nat, 2));
}

/// The relay is where the proxy says, with the port that it says; only where it
/// leaves the address open does the address of the proxy take its place.
pub proof fn lemma_relay_is_as_replied(reply: SocketAddr, proxy: SocketAddr)
    ensures
        reply matches SocketAddr::V4(a) ==> (a.ip.bits != 0 ==> relay_of(reply, proxy) == reply) && (
        a.ip.bits == 0 ==> relay_of(reply, proxy) == SocketAddr::of(proxy.spec_ip(), a.port)),
        reply matches SocketAddr::V6(a) ==> (a.ip.bits != 0 ==> relay_of(reply, proxy) == reply) && (
        a.ip.bits == 0 ==> relay_of(reply, proxy) == SocketAddr::of(proxy.spec_ip(), a.port)),
{
}

/// A datagram for the relay: two reserved octets and the number of the fragment,
/// all zero, the kind of the address, its octets, the port with the high octet
/// first, and the payload to the end.
pub proof fn lemma_datagram_layout(target: SocketAddr, payload: Seq<u8>)
    ensures
        ({
            let b = udp_frame(target, payload);
            let (kind, octets, port) = match target {
                SocketAddr::V4(a) => (1u8, a.ip.octets(), a.port),
                SocketAddr::V6(a) => (4u8, a.ip.octets(), a.port),
            };
            let n = octets.len() as int;
            &&& n == (if target is V4 {
                4int
            } else {
                16int
            })
            &&& b.len() == 6 + n + payload.len()
            &&& b[0] == 0 && b[1] == 0 && b[2] == 0
            &&& b[3] == kind
            &&& b.subrange(4, 4 + n) == octets
            &&& b[4 + n] == port / 256
            &&& b[5 + n] == port % 256
            &&& b.skip(6 + n) == payload
        }),
{
    let b = udp_frame(target, payload);
    let port = target.spec_port();
    lemma_ip_octets(target.spec_ip());
    bytes::lemma_be_bytes_digits(port as nat);
    match target.spec_ip() {
        IpAddr::V4(a) => {
            assert(b.subrange(4, 8) =~= a.octets());
            assert(b.skip(10) =~= payload);
        },
        IpAddr::V6(a) => {
            assert(b.subrange(4, 20) =~= a.octets());
            assert(b.skip(22) =~= payload);
        },
    }
}

/// What stands in the two reserved octets of a datagram has no say in it.
pub proof fn lemma_reserved_octets_are_ignored(b: Seq<u8>, x: u8, y: u8)
    requires
        b.len() >= 2,
    ensures
        udp_value(b.update(0, x).update(1, y)) == udp_value(b),
{
    let c = b.update(0, x).update(1, y);
    if b.len() >= 10 {
        assert(c.subrange(4, 8) =~= b.subrange(4, 8));
        assert(c.subrange(8, 10) =~= b.subrange(8, 10));
        assert(c.skip(10) =~= b.skip(10));
    }
    if b.len() >= 22 {
        assert(c.subrange(4, 20) =~= b.subrange(4, 20));
        assert(c.subrange(20, 22) =~= b.subrange(20, 22));
        assert(c.skip(22) =~= b.skip(22));
    }
}

/// A datagram from the relay is read exactly where it is no fragment, names an
/// IPv4 or an IPv6 address, and has that and the port in full.
pub proof fn lemma_which_datagrams_are_read(b: Seq<u8>)
    ensures
        udp_value(b) is Some <==> {
            ||| b.len() >= 10 && b[2] == 0 && b[3] == 1
            ||| b.len() >= 22 && b[2] == 0 && b[3] == 4
        },
        udp_value(b) matches Some((a, payload)) ==> {
            &&& a is V4 <==> b[3] == 1
            &&& a is V4 ==> payload == b.skip(10) && a.spec_port() == b[8] * 256 + b[9]
            &&& a is V6 ==> payload == b.skip(22) && a.spec_port() == b[20] * 256 + b[21]
        },
{
    if udp_value(b) is Some {
        let n: int = if b[3] == 1 {
            4
        } else {
            16
        };
        let p = b.subrange(4 + n, 6 + n);
        assert(p =~= seq![b[4 + n], b[5 + n]]);
        bytes::lemma_be_value_digits(seq![b[4 + n]], b[5 + n]);
        bytes::lemma_be_value_digits(Seq::empty(), b[4 + n]);
        assert(seq![b[4 + n]].push(b[5 + n]) =~= p);
    }
}

/// Where the proxy names a number in its refusal, the fault in words ends with
/// that number, and begins alike for all of them.
pub proof fn lemma_fault_tells_the_number(n: u8)
    ensures
        SocksError::RequestFailed(n).text() == "SOCKS5 request failed with reply code "@
            + text::dec_text(n as nat),
        SocksError::MethodVersion(n).text() == "invalid SOCKS5 version in method reply: "@
            + text::dec_text(n as nat),
        SocksError::ReplyVersion(n).text() == "invalid SOCKS5 version in reply: "@ + text::dec_text(
            n as nat,
        ),
        SocksError::UnsupportedMethod(n).text() == "SOCKS5 proxy selected unsupported auth method "@
            + text::dec_text(n as nat),
        SocksError::UnsupportedAddressType(n).text()
            == "SOCKS5 reply used unsupported address type "@ + text::dec_text(n as nat),
{
}

} // verus!
