//! Internet addresses: their values, their text and the reading of it.

use vstd::prelude::*;
use vstd::slice::slice_subrange;
use crate::bytes;
use crate::ipv6;
use crate::text;

verus! {

/// An IPv4 address, as the number that its four octets make.
#[derive(Clone, Copy, PartialEq, Eq, Hash, Debug, Structural)]
pub struct Ipv4Addr {
    pub bits: u32,
}

/// An IPv6 address, as the number that its sixteen octets make.
#[derive(Clone, Copy, PartialEq, Eq, Hash, Debug, Structural)]
pub struct Ipv6Addr {
    pub bits: u128,
}

/// An address of either family.
#[derive(Clone, Copy, PartialEq, Eq, Hash, Debug, Structural)]
pub enum IpAddr {
    V4(Ipv4Addr),
    V6(Ipv6Addr),
}

/// An IPv4 address with a port.
#[derive(Clone, Copy, PartialEq, Eq, Hash, Debug, Structural)]
pub struct SocketAddrV4 {
    pub ip: Ipv4Addr,
    pub port: u16,
}

/// An IPv6 address with a port and a scope, which is zero where none is given.
#[derive(Clone, Copy, PartialEq, Eq, Hash, Debug, Structural)]
pub struct SocketAddrV6 {
    pub ip: Ipv6Addr,
    pub port: u16,
    pub scope_id: u32,
}

/// An address of either family with a port.
#[derive(Clone, Copy, PartialEq, Eq, Hash, Debug, Structural)]
pub enum SocketAddr {
    V4(SocketAddrV4),
    V6(SocketAddrV6),
}

// ---------------------------------------------------------------------------
// IPv4 text
// ---------------------------------------------------------------------------
/// Four octets in dotted decimal.
pub open spec fn dotted(o: Seq<u8>) -> Seq<char> {
    text::dec_text(o[0] as nat) + seq!['.'] + text::dec_text(o[1] as nat) + seq!['.'] + text::dec_text(o[2] as nat)
        + seq!['.'] + text::dec_text(o[3] as nat)
}

impl Ipv4Addr {
    /// The four octets, most significant first.
    pub open spec fn octets(self) -> Seq<u8> {
        bytes::be_bytes(self.bits as nat, 4)
    }

    /// The address in dotted decimal.
    pub open spec fn text(self) -> Seq<char> {
        dotted(self.octets())
    }

    /// The address that four octets make.
    pub fn new(a: u8, b: u8, c: u8, d: u8) -> (ip: Ipv4Addr)
        ensures
            ip.octets() == seq![a, b, c, d],
    {
        let bits: u32 = ((a as u32 * 256 + b as u32) * 256 + c as u32) * 256 + d as u32;
        proof {
            reveal_with_fuel(bytes::be_bytes, 5);
            assert(bytes::be_bytes(bits as nat, 4) =~= seq![a, b, c, d]);
        }
        Ipv4Addr { bits }
    }

    /// Appends the address in dotted decimal.
    pub fn write(&self, out: &mut String)
        ensures
            final(out)@ == old(out)@ + self.text(),
    {
        let ghost start = out@;
        proof {
            reveal_with_fuel(bytes::be_bytes, 5);
        }
        text::push_decimal(out, (self.bits / 0x100_0000) as u64);
        out.push('.');
        text::push_decimal(out, (self.bits / 0x1_0000 % 256) as u64);
        out.push('.');
        text::push_decimal(out, (self.bits / 0x100 % 256) as u64);
        out.push('.');
        text::push_decimal(out, (self.bits % 256) as u64);
        assert(out@ =~= start + self.text());
    }

    /// Whether this is the all-zero address.
    pub fn is_unspecified(&self) -> (r: bool)
        ensures
            r == (self.bits == 0),
    {
        self.bits == 0
    }
}

/// The octet that `s` writes: decimal, without leading zeros.
pub open spec fn is_octet_text(s: Seq<char>, v: u8) -> bool {
    s == text::dec_text(v as nat)
}

fn read_octet(s: &[char]) -> (r: Option<u8>)
    ensures
        match r {
            Some(v) => is_octet_text(s@, v),
            None => forall|v: u8| !is_octet_text(s@, v),
        },
{
    let v = text::read_digits(s, 255);
    if s.len() > 1 && s[0] == '0' {
        proof {
            assert forall|v: u8| !is_octet_text(s@, v) by {
                text::lemma_dec_text(v as nat);
                if v < 10 {
                    assert(text::dec_text(v as nat).len() == 1);
                }
            }
        }
        return None;
    }
    match v {
        Some(n) => {
            proof {
                text::lemma_dec_text_unique(s@);
            }
            Some(n as u8)
        },
        None => {
            proof {
                assert forall|v: u8| !is_octet_text(s@, v) by {
                    text::lemma_dec_text(v as nat);
                }
            }
            None
        },
    }
}

/// The address that `s` writes in dotted decimal, if any.
pub open spec fn ipv4_value(s: Seq<char>) -> Option<Ipv4Addr> {
    if exists|ip: Ipv4Addr| #[trigger] ip.text() == s {
        Some(choose|ip: Ipv4Addr| #[trigger] ip.text() == s)
    } else {
        None
    }
}

proof fn lemma_no_dot(v: u8, tail: Seq<char>)
    ensures
        text::find(text::dec_text(v as nat), '.') == text::dec_text(v as nat).len(),
        text::find(text::dec_text(v as nat) + seq!['.'] + tail, '.') == text::dec_text(v as nat).len(),
{
    let d = text::dec_text(v as nat);
    text::lemma_dec_text(v as nat);
    let s = d + seq!['.'] + tail;
    assert forall|j: int| 0 <= j < d.len() implies d[j] != '.' && s[j] != '.' by {
        assert(text::is_digit(d[j]));
    }
    text::lemma_find_is(d, '.', d.len() as int);
    text::lemma_find_is(s, '.', d.len() as int);
}

/// The four parts of `s` between its first three dots.
pub open spec fn four_parts(s: Seq<char>) -> Option<(Seq<char>, Seq<char>, Seq<char>, Seq<char>)> {
    let i = text::find(s, '.');
    let s1 = s.skip(i + 1);
    let j = text::find(s1, '.');
    let s2 = s1.skip(j + 1);
    let k = text::find(s2, '.');
    let s3 = s2.skip(k + 1);
    if i < s.len() && j < s1.len() && k < s2.len() {
        Some((s.take(i), s1.take(j), s2.take(k), s3))
    } else {
        None
    }
}

/// The parts, joined by dots, are the whole.
proof fn lemma_four_parts(s: Seq<char>)
    requires
        four_parts(s) is Some,
    ensures
        ({
            let (a, b, c, d) = four_parts(s)->0;
            s == a + seq!['.'] + b + seq!['.'] + c + seq!['.'] + d
        }),
{
    let i = text::find(s, '.');
    let s1 = s.skip(i + 1);
    let j = text::find(s1, '.');
    let s2 = s1.skip(j + 1);
    let k = text::find(s2, '.');
    let s3 = s2.skip(k + 1);
    text::lemma_find(s, '.');
    text::lemma_find(s1, '.');
    text::lemma_find(s2, '.');
    assert(s =~= s.take(i) + seq!['.'] + s1);
    assert(s1 =~= s1.take(j) + seq!['.'] + s2);
    assert(s2 =~= s2.take(k) + seq!['.'] + s3);
    lemma_joined(s.take(i), s1.take(j), s2.take(k), s3);
}

proof fn lemma_joined(a: Seq<char>, b: Seq<char>, c: Seq<char>, d: Seq<char>)
    ensures
        a + seq!['.'] + b + seq!['.'] + c + seq!['.'] + d == a + seq!['.'] + (b + seq!['.'] + (c
            + seq!['.'] + d)),
{
    assert(a + seq!['.'] + b + seq!['.'] + c + seq!['.'] + d =~= a + seq!['.'] + (b + seq!['.'] + (
    c + seq!['.'] + d)));
}

/// Dotted decimal splits at its dots into the texts of its octets.
proof fn lemma_dotted_split(o: Seq<u8>)
    requires
        o.len() == 4,
    ensures
        four_parts(dotted(o)) == Some(
            (
                text::dec_text(o[0] as nat),
                text::dec_text(o[1] as nat),
                text::dec_text(o[2] as nat),
                text::dec_text(o[3] as nat),
            ),
        ),
{
    let s = dotted(o);
    let d0 = text::dec_text(o[0] as nat);
    let d1 = text::dec_text(o[1] as nat);
    let d2 = text::dec_text(o[2] as nat);
    let d3 = text::dec_text(o[3] as nat);
    let t2 = d2 + seq!['.'] + d3;
    let t1 = d1 + seq!['.'] + t2;
    lemma_joined(d0, d1, d2, d3);
    lemma_no_dot(o[0], t1);
    lemma_no_dot(o[1], t2);
    lemma_no_dot(o[2], d3);
    assert(s.take(d0.len() as int) =~= d0);
    assert(s.skip(d0.len() as int + 1) =~= t1);
    assert(t1.take(d1.len() as int) =~= d1);
    assert(t1.skip(d1.len() as int + 1) =~= t2);
    assert(t2.take(d2.len() as int) =~= d2);
    assert(t2.skip(d2.len() as int + 1) =~= d3);
}

/// Different IPv4 addresses have different texts.
pub proof fn lemma_ipv4_text_injective(a: Ipv4Addr, b: Ipv4Addr)
    requires
        a.text() == b.text(),
    ensures
        a == b,
{
    let x = a.octets();
    let y = b.octets();
    bytes::lemma_be_bytes_len(a.bits as nat, 4);
    bytes::lemma_be_bytes_len(b.bits as nat, 4);
    lemma_dotted_split(x);
    lemma_dotted_split(y);
    text::lemma_dec_text(x[0] as nat);
    text::lemma_dec_text(x[1] as nat);
    text::lemma_dec_text(x[2] as nat);
    text::lemma_dec_text(x[3] as nat);
    text::lemma_dec_text(y[0] as nat);
    text::lemma_dec_text(y[1] as nat);
    text::lemma_dec_text(y[2] as nat);
    text::lemma_dec_text(y[3] as nat);
    assert(x =~= y);
    bytes::lemma_byte_range();
    bytes::lemma_be_value_of_bytes(a.bits as nat, 4);
    bytes::lemma_be_value_of_bytes(b.bits as nat, 4);
}

/// Reading the text of an IPv4 address gives the address back.
pub proof fn lemma_ipv4_round_trip(ip: Ipv4Addr)
    ensures
        ipv4_value(ip.text()) == Some(ip),
{
    let r = ipv4_value(ip.text());
    assert(r is Some);
    lemma_ipv4_text_injective(ip, r->0);
}

fn split_four<'a>(s: &'a [char]) -> (r: Option<(&'a [char], &'a [char], &'a [char], &'a [char])>)
    ensures
        match r {
            Some((a, b, c, d)) => four_parts(s@) == Some((a@, b@, c@, d@)),
            None => four_parts(s@) is None,
        },
{
    let i = text::find_char(s, '.');
    if i >= s.len() {
        return None;
    }
    let s1 = slice_subrange(s, i + 1, s.len());
    assert(s1@ == s@.skip(i + 1));
    let j = text::find_char(s1, '.');
    if j >= s1.len() {
        return None;
    }
    let s2 = slice_subrange(s1, j + 1, s1.len());
    assert(s2@ == s1@.skip(j + 1));
    let k = text::find_char(s2, '.');
    if k >= s2.len() {
        return None;
    }
    let s3 = slice_subrange(s2, k + 1, s2.len());
    assert(s3@ == s2@.skip(k + 1));
    let a = slice_subrange(s, 0, i);
    let b = slice_subrange(s1, 0, j);
    let c = slice_subrange(s2, 0, k);
    assert(a@ == s@.take(i as int));
    assert(b@ == s1@.take(j as int));
    assert(c@ == s2@.take(k as int));
    Some((a, b, c, s3))
}

/// Reads an IPv4 address: four decimal octets between dots, none with a
/// leading zero.
pub fn read_ipv4(s: &[char]) -> (r: Option<Ipv4Addr>)
    ensures
        r == ipv4_value(s@),
{
    proof {
        if ipv4_value(s@) is Some {
            let ip = ipv4_value(s@)->0;
            let o = ip.octets();
            bytes::lemma_be_bytes_len(ip.bits as nat, 4);
            lemma_dotted_split(o);
            assert(is_octet_text(text::dec_text(o[0] as nat), o[0]));
            assert(is_octet_text(text::dec_text(o[1] as nat), o[1]));
            assert(is_octet_text(text::dec_text(o[2] as nat), o[2]));
            assert(is_octet_text(text::dec_text(o[3] as nat), o[3]));
        }
    }
    let (a, b, c, d) = match split_four(s) {
        Some(parts) => parts,
        None => {
            return None;
        },
    };
    match (read_octet(a), read_octet(b), read_octet(c), read_octet(d)) {
        (Some(w), Some(x), Some(y), Some(z)) => {
            let ip = Ipv4Addr::new(w, x, y, z);
            proof {
                lemma_four_parts(s@);
                assert(ip.text() == s@);
                lemma_ipv4_round_trip(ip);
            }
            Some(ip)
        },
        _ => None,
    }
}

// ---------------------------------------------------------------------------
// Addresses of either family
// ---------------------------------------------------------------------------
/// The address of either family that `s` writes, if any.
pub open spec fn ip_value(s: Seq<char>) -> Option<IpAddr> {
    match ipv4_value(s) {
        Some(ip) => Some(IpAddr::V4(ip)),
        None => match ipv6::ipv6_value(s) {
            Some(ip) => Some(IpAddr::V6(ip)),
            None => None,
        },
    }
}

impl IpAddr {
    /// The address in its usual text.
    pub open spec fn text(self) -> Seq<char> {
        match self {
            IpAddr::V4(ip) => ip.text(),
            IpAddr::V6(ip) => ip.text(),
        }
    }

    /// Whether both addresses are of one family.
    pub open spec fn same_family(self, other: IpAddr) -> bool {
        self is V4 == other is V4
    }

    pub fn is_ipv4(&self) -> (r: bool)
        ensures
            r == (self is V4),
    {
        match self {
            IpAddr::V4(_) => true,
            IpAddr::V6(_) => false,
        }
    }

    pub fn is_ipv6(&self) -> (r: bool)
        ensures
            r == (self is V6),
    {
        !self.is_ipv4()
    }

    /// Appends the address in its usual text.
    pub fn write(&self, out: &mut String)
        ensures
            final(out)@ == old(out)@ + self.text(),
    {
        match self {
            IpAddr::V4(ip) => ip.write(out),
            IpAddr::V6(ip) => ip.write(out),
        }
    }

    /// The address in its usual text.
    pub fn to_text(&self) -> (r: String)
        ensures
            r@ == self.text(),
    {
        let mut out = String::new();
        self.write(&mut out);
        assert(out@ =~= self.text());
        out
    }
}

/// Reads an address of either family.
pub fn read_ip(s: &[char]) -> (r: Option<IpAddr>)
    ensures
        r == ip_value(s@),
{
    match read_ipv4(s) {
        Some(ip) => Some(IpAddr::V4(ip)),
        None => match ipv6::read_ipv6(s) {
            Some(ip) => Some(IpAddr::V6(ip)),
            None => None,
        },
    }
}

/// Reads an address of either family.
pub fn parse_ip(s: &str) -> (r: Option<IpAddr>)
    ensures
        r == ip_value(s@),
{
    let chars = text::chars_of(s);
    read_ip(chars.as_slice())
}

/// Reads an IPv4 address.
pub fn parse_ipv4(s: &str) -> (r: Option<Ipv4Addr>)
    ensures
        r == ipv4_value(s@),
{
    let chars = text::chars_of(s);
    read_ipv4(chars.as_slice())
}

/// Reading the text of an address gives the address back.
pub proof fn lemma_ip_round_trip(ip: IpAddr)
    ensures
        ip_value(ip.text()) == Some(ip),
{
    match ip {
        IpAddr::V4(a) => {
            lemma_ipv4_round_trip(a);
        },
        IpAddr::V6(a) => {
            ipv6::lemma_ipv6_round_trip(a);
            ipv6::lemma_ipv6_chars(a);
            if ipv4_value(a.text()) is Some {
                ipv6::lemma_dotted_no_colon(ipv4_value(a.text())->0);
            }
        },
    }
}

// ---------------------------------------------------------------------------
// Addresses with a port
// ---------------------------------------------------------------------------
/// The port that `s` writes after a colon, if any.
pub open spec fn port_value(s: Seq<char>) -> Option<u16> {
    if s.len() > 0 && s[0] == ':' {
        match text::at_most(text::parse_digits(s.skip(1)), 0xffff) {
            Some(n) => Some(n as u16),
            None => None,
        }
    } else {
        None
    }
}

/// The IPv6 address and the scope that `s` writes: the scope, where there is
/// one, follows a percent sign.
pub open spec fn scoped_value(s: Seq<char>) -> Option<(Ipv6Addr, u32)> {
    let i = text::find(s, '%');
    if 0 <= i < s.len() {
        match (ipv6::ipv6_value(s.take(i)), text::at_most(text::parse_digits(s.skip(i + 1)), 0xffff_ffff)) {
            (Some(ip), Some(scope)) => Some((ip, scope as u32)),
            _ => None,
        }
    } else {
        match ipv6::ipv6_value(s) {
            Some(ip) => Some((ip, 0)),
            None => None,
        }
    }
}

/// The address with a port that `s` writes, if any: an IPv4 address, or an
/// IPv6 address in square brackets, then a colon and the port.
pub open spec fn socket_value(s: Seq<char>) -> Option<SocketAddr> {
    if s.len() > 0 && s[0] == '[' {
        let i = text::find(s, ']');
        if 0 <= i < s.len() {
            match (scoped_value(s.subrange(1, i)), port_value(s.skip(i + 1))) {
                (Some((ip, scope_id)), Some(port)) => Some(
                    SocketAddr::V6(SocketAddrV6 { ip, port, scope_id }),
                ),
                _ => None,
            }
        } else {
            None
        }
    } else {
        let i = text::find(s, ':');
        match (ipv4_value(s.take(i)), port_value(s.skip(i))) {
            (Some(ip), Some(port)) => Some(SocketAddr::V4(SocketAddrV4 { ip, port })),
            _ => None,
        }
    }
}

/// An IPv6 address, followed by its scope where that is not zero.
pub open spec fn scoped_text(ip: Ipv6Addr, scope_id: u32) -> Seq<char> {
    if scope_id == 0 {
        ip.text()
    } else {
        ip.text() + seq!['%'] + text::dec_text(scope_id as nat)
    }
}

impl SocketAddr {
    pub open spec fn spec_ip(self) -> IpAddr {
        match self {
            SocketAddr::V4(a) => IpAddr::V4(a.ip),
            SocketAddr::V6(a) => IpAddr::V6(a.ip),
        }
    }

    pub open spec fn spec_port(self) -> u16 {
        match self {
            SocketAddr::V4(a) => a.port,
            SocketAddr::V6(a) => a.port,
        }
    }

    /// An address and a port, without a scope.
    pub open spec fn of(ip: IpAddr, port: u16) -> SocketAddr {
        match ip {
            IpAddr::V4(ip) => SocketAddr::V4(SocketAddrV4 { ip, port }),
            IpAddr::V6(ip) => SocketAddr::V6(SocketAddrV6 { ip, port, scope_id: 0 }),
        }
    }

    /// The address in its usual text.
    pub open spec fn text(self) -> Seq<char> {
        match self {
            SocketAddr::V4(a) => a.ip.text() + seq![':'] + text::dec_text(a.port as nat),
            SocketAddr::V6(a) => seq!['['] + scoped_text(a.ip, a.scope_id) + seq![']', ':']
                + text::dec_text(a.port as nat),
        }
    }

    pub fn new(ip: IpAddr, port: u16) -> (r: SocketAddr)
        ensures
            r == SocketAddr::of(ip, port),
    {
        match ip {
            IpAddr::V4(ip) => SocketAddr::V4(SocketAddrV4 { ip, port }),
            IpAddr::V6(ip) => SocketAddr::V6(SocketAddrV6 { ip, port, scope_id: 0 }),
        }
    }

    pub fn ip(&self) -> (r: IpAddr)
        ensures
            r == self.spec_ip(),
    {
        match self {
            SocketAddr::V4(a) => IpAddr::V4(a.ip),
            SocketAddr::V6(a) => IpAddr::V6(a.ip),
        }
    }

    pub fn port(&self) -> (r: u16)
        ensures
            r == self.spec_port(),
    {
        match self {
            SocketAddr::V4(a) => a.port,
            SocketAddr::V6(a) => a.port,
        }
    }

    pub fn is_ipv4(&self) -> (r: bool)
        ensures
            r == (self is V4),
    {
        match self {
            SocketAddr::V4(_) => true,
            SocketAddr::V6(_) => false,
        }
    }

    pub fn is_ipv6(&self) -> (r: bool)
        ensures
            r == (self is V6),
    {
        !self.is_ipv4()
    }

    /// Appends the address in its usual text.
    pub fn write(&self, out: &mut String)
        ensures
            final(out)@ == old(out)@ + self.text(),
    {
        let ghost before = out@;
        match self {
            SocketAddr::V4(a) => {
                a.ip.write(out);
                out.push(':');
                text::push_decimal(out, a.port as u64);
            },
            SocketAddr::V6(a) => {
                out.push('[');
                a.ip.write(out);
                if a.scope_id != 0 {
                    out.push('%');
                    text::push_decimal(out, a.scope_id as u64);
                }
                out.push(']');
                out.push(':');
                text::push_decimal(out, a.port as u64);
            },
        }
        assert(out@ =~= before + self.text());
    }

    /// The address in its usual text.
    pub fn to_text(&self) -> (r: String)
        ensures
            r@ == self.text(),
    {
        let mut out = String::new();
        self.write(&mut out);
        assert(out@ =~= self.text());
        out
    }
}

fn read_port(s: &[char]) -> (r: Option<u16>)
    ensures
        r == port_value(s@),
{
    if s.len() > 0 && s[0] == ':' {
        let rest = slice_subrange(s, 1, s.len());
        assert(rest@ == s@.skip(1));
        match text::read_digits(rest, 0xffff) {
            Some(n) => Some(n as u16),
            None => None,
        }
    } else {
        None
    }
}

fn read_scoped(s: &[char]) -> (r: Option<(Ipv6Addr, u32)>)
    ensures
        r == scoped_value(s@),
{
    let i = text::find_char(s, '%');
    proof {
        text::lemma_find(s@, '%');
    }
    if i < s.len() {
        let left = slice_subrange(s, 0, i);
        let right = slice_subrange(s, i + 1, s.len());
        assert(left@ == s@.take(i as int));
        assert(right@ == s@.skip(i + 1));
        match (ipv6::read_ipv6(left), text::read_digits(right, 0xffff_ffff)) {
            (Some(ip), Some(scope)) => Some((ip, scope as u32)),
            _ => None,
        }
    } else {
        match ipv6::read_ipv6(s) {
            Some(ip) => Some((ip, 0)),
            None => None,
        }
    }
}

/// Reads an address with a port.
pub fn read_socket(s: &[char]) -> (r: Option<SocketAddr>)
    ensures
        r == socket_value(s@),
{
    if s.len() > 0 && s[0] == '[' {
        let i = text::find_char(s, ']');
        proof {
            text::lemma_find(s@, ']');
        }
        if i < s.len() {
            let inside = slice_subrange(s, 1, i);
            let after = slice_subrange(s, i + 1, s.len());
            assert(after@ == s@.skip(i + 1));
            match (read_scoped(inside), read_port(after)) {
                (Some((ip, scope_id)), Some(port)) => Some(
                    SocketAddr::V6(SocketAddrV6 { ip, port, scope_id }),
                ),
                _ => None,
            }
        } else {
            None
        }
    } else {
        let i = text::find_char(s, ':');
        proof {
            text::lemma_find(s@, ':');
        }
        let left = slice_subrange(s, 0, i);
        let right = slice_subrange(s, i, s.len());
        assert(left@ == s@.take(i as int));
        assert(right@ == s@.skip(i as int));
        match (read_ipv4(left), read_port(right)) {
            (Some(ip), Some(port)) => Some(SocketAddr::V4(SocketAddrV4 { ip, port })),
            _ => None,
        }
    }
}

/// Reads an address with a port.
pub fn parse_socket(s: &str) -> (r: Option<SocketAddr>)
    ensures
        r == socket_value(s@),
{
    let chars = text::chars_of(s);
    read_socket(chars.as_slice())
}

proof fn lemma_port_round_trip(port: u16)
    ensures
        port_value(seq![':'] + text::dec_text(port as nat)) == Some(port),
{
    let s = seq![':'] + text::dec_text(port as nat);
    assert(s.skip(1) =~= text::dec_text(port as nat));
    text::lemma_dec_text(port as nat);
}

proof fn lemma_scoped_round_trip(ip: Ipv6Addr, scope_id: u32)
    ensures
        scoped_value(scoped_text(ip, scope_id)) == Some((ip, scope_id)),
        forall|j: int|
            0 <= j < scoped_text(ip, scope_id).len() ==> #[trigger] scoped_text(ip, scope_id)[j] != ']',
{
    let t = ip.text();
    let d = text::dec_text(scope_id as nat);
    ipv6::lemma_ipv6_round_trip(ip);
    ipv6::lemma_ipv6_chars(ip);
    text::lemma_dec_text(scope_id as nat);
    if scope_id == 0 {
        text::lemma_find_is(t, '%', t.len() as int);
    } else {
        let s = scoped_text(ip, scope_id);
        assert forall|j: int| 0 <= j < s.len() implies #[trigger] s[j] != ']' by {
            if j < t.len() {
                assert(s[j] == t[j]);
            } else if j > t.len() {
                assert(s[j] == d[j - t.len() - 1]);
                assert(text::is_digit(d[j - t.len() - 1]));
            }
        }
        assert forall|j: int| 0 <= j < t.len() implies s[j] != '%' by {
            assert(s[j] == t[j]);
        }
        text::lemma_find_is(s, '%', t.len() as int);
        assert(s.take(t.len() as int) =~= t);
        assert(s.skip(t.len() as int + 1) =~= d);
    }
}

/// Reading the text of an address with a port gives the address back.
pub proof fn lemma_socket_round_trip(a: SocketAddr)
    ensures
        socket_value(a.text()) == Some(a),
{
    let s = a.text();
    match a {
        SocketAddr::V4(v) => {
            let t = v.ip.text();
            let p = seq![':'] + text::dec_text(v.port as nat);
            lemma_ipv4_round_trip(v.ip);
            ipv6::lemma_dotted_no_colon(v.ip);
            ipv6::lemma_dotted_chars(v.ip);
            lemma_port_round_trip(v.port);
            assert(s[0] == t[0]);
            assert forall|j: int| 0 <= j < t.len() implies s[j] != ':' by {
                assert(s[j] == t[j]);
            }
            text::lemma_find_is(s, ':', t.len() as int);
            assert(s.take(t.len() as int) =~= t);
            assert(s.skip(t.len() as int) =~= p);
        },
        SocketAddr::V6(v) => {
            let t = scoped_text(v.ip, v.scope_id);
            let p = seq![':'] + text::dec_text(v.port as nat);
            lemma_scoped_round_trip(v.ip, v.scope_id);
            lemma_port_round_trip(v.port);
            assert(s =~= seq!['['] + t + seq![']'] + p);
            let i = t.len() as int + 1;
            assert forall|j: int| 0 <= j < i implies s[j] != ']' by {
                if j > 0 {
                    assert(s[j] == t[j - 1]);
                }
            }
            text::lemma_find_is(s, ']', i);
            assert(s.subrange(1, i) =~= t);
            assert(s.skip(i + 1) =~= p);
        },
    }
}

/// An address is written without white space.
pub proof fn lemma_text_has_no_white_space(ip: IpAddr)
    ensures
        ip.text().len() > 0,
        forall|i: int|
            0 <= i < ip.text().len() ==> !crate::scan::is_whitespace(#[trigger] ip.text()[i]),
        !crate::scan::is_whitespace(ip.text()[0]),
        !crate::scan::is_whitespace(ip.text().last()),
{
    let t = ip.text();
    match ip {
        IpAddr::V4(a) => {
            ipv6::lemma_dotted_chars(a);
        },
        IpAddr::V6(a) => {
            ipv6::lemma_ipv6_chars(a);
        },
    }
    assert(t.last() == t[t.len() - 1]);
}

/// An IPv4 address is written as its four octets in decimal, the highest first,
/// with dots between them.
pub proof fn lemma_ipv4_text_digits(ip: Ipv4Addr)
    ensures
        ip.text() == text::dec_text((ip.bits / 0x100_0000) as nat) + seq!['.'] + text::dec_text(
            (ip.bits / 0x1_0000 % 0x100) as nat,
        ) + seq!['.'] + text::dec_text((ip.bits / 0x100 % 0x100) as nat) + seq!['.']
            + text::dec_text((ip.bits % 0x100) as nat),
{
    bytes::lemma_be_bytes_digits(ip.bits as nat);
}

/// Only what is the text of an IPv4 address is read as one, so that nothing is
/// read in two ways: no octet above 255, no leading zero, no fifth part.
pub proof fn lemma_only_ipv4_text_is_read(s: Seq<char>)
    ensures
        ipv4_value(s) matches Some(ip) ==> ip.text() == s,
        (forall|ip: Ipv4Addr| #[trigger] ip.text() != s) ==> ipv4_value(s) is None,
{
}

/// The text of an address tells its family: with a colon it is one of IPv6.
pub proof fn lemma_text_tells_the_family(s: Seq<char>, j: int)
    requires
        0 <= j < s.len(),
        s[j] == ':',
    ensures
        ipv4_value(s) is None,
        ip_value(s) is Some <==> ipv6::ipv6_value(s) is Some,
        ip_value(s) matches Some(ip) ==> ip is V6,
{
    if ipv4_value(s) is Some {
        let ip = ipv4_value(s)->0;
        ipv6::lemma_dotted_chars(ip);
        assert(ip.text()[j] == ':');
    }
}

/// A port is read from 0 to 65535 and no further, only in digits, and only
/// behind a colon. Without one there is no address with a port.
pub proof fn lemma_ports_are_read(n: nat, s: Seq<char>, ip: Ipv4Addr)
    ensures
        n <= 65535 ==> port_value(seq![':'] + text::dec_text(n)) == Some(n as u16),
        n > 65535 ==> port_value(seq![':'] + text::dec_text(n)) is None,
        s.len() == 0 || s[0] != ':' ==> port_value(s) is None,
        socket_value(ip.text()) is None,
        n > 65535 ==> socket_value(ip.text() + seq![':'] + text::dec_text(n)) is None,
{
    let p = seq![':'] + text::dec_text(n);
    assert(p.skip(1) =~= text::dec_text(n));
    text::lemma_dec_text(n);
    let t = ip.text();
    ipv6::lemma_dotted_chars(ip);
    if t.len() > 0 {
        assert(t[0] != '[');
    }
    text::lemma_find_is(t, ':', t.len() as int);
    assert(t.skip(t.len() as int).len() == 0);
    let s2 = t + seq![':'] + text::dec_text(n);
    assert(s2[0] == t[0] || s2[0] == ':');
    assert forall|j: int| 0 <= j < t.len() implies s2[j] != ':' by {
        assert(s2[j] == t[j]);
    }
    text::lemma_find_is(s2, ':', t.len() as int);
    assert(s2.skip(t.len() as int) =~= p);
}

/// The parts of an address with a port are what it was made of; made of an
/// address and a port it has no scope.
pub proof fn lemma_parts_of_socket_address(ip: IpAddr, port: u16, a: SocketAddr)
    ensures
        SocketAddr::of(ip, port).spec_ip() == ip,
        SocketAddr::of(ip, port).spec_port() == port,
        a matches SocketAddr::V4(x) ==> a.spec_ip() == IpAddr::V4(x.ip) && a.spec_port() == x.port,
        a matches SocketAddr::V6(x) ==> a.spec_ip() == IpAddr::V6(x.ip) && a.spec_port() == x.port,
        SocketAddr::of(ip, port) matches SocketAddr::V6(x) ==> x.scope_id == 0,
        ip.same_family(a.spec_ip()) <==> (ip is V4 <==> a is V4),
{
}

/// A port is written in digits alone: with no sign, no blank and nothing else
/// before or behind it, and with one digit at least.
pub proof fn lemma_ports_are_digits_alone(s: Seq<char>, i: int)
    requires
        0 <= i < s.len(),
        !text::is_digit(s[i]),
    ensures
        port_value(seq![':'] + s) is None,
        port_value(seq![':']) is None,
        port_value(Seq::empty()) is None,
{
    assert((seq![':'] + s).skip(1) =~= s);
    assert(seq![':'].skip(1) =~= Seq::<char>::empty());
}

} // verus!
