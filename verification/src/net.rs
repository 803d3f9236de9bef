//! Networks and the table that tells which destinations go direct.

use vstd::prelude::*;
use crate::addr::{IpAddr, Ipv4Addr, Ipv6Addr};

verus! {

/// A list of networks: an address in each, and its prefix length.
pub type CidrList = Vec<(IpAddr, u8)>;

// ---------------------------------------------------------------------------
// Prefixes
// ---------------------------------------------------------------------------
impl IpAddr {
    /// The address as a number.
    pub open spec fn number(self) -> nat {
        match self {
            IpAddr::V4(ip) => ip.bits as nat,
            IpAddr::V6(ip) => ip.bits as nat,
        }
    }

    /// How many bits an address of this family has.
    pub open spec fn width(self) -> int {
        match self {
            IpAddr::V4(_) => 32,
            IpAddr::V6(_) => 128,
        }
    }
}

/// How many addresses of `width` bits share a prefix of the given length. A
/// prefix that is longer than the address is the whole address.
pub open spec fn span(width: int, prefix: u8) -> nat {
    vstd::arithmetic::power2::pow2(
        (if prefix >= width {
            0
        } else {
            width - prefix
        }) as nat,
    )
}

/// Whether `other` lies in the network of `prefix` bits that `addr` lies in.
pub open spec fn covers(addr: IpAddr, prefix: u8, other: IpAddr) -> bool {
    addr.same_family(other) && addr.number() / span(addr.width(), prefix) == other.number() / span(
        addr.width(),
        prefix,
    )
}

/// The first address of the network of `prefix` bits that `addr` lies in.
pub open spec fn network(addr: IpAddr, prefix: u8) -> IpAddr {
    let n = addr.number() / span(addr.width(), prefix) * span(addr.width(), prefix);
    match addr {
        IpAddr::V4(_) => IpAddr::V4(Ipv4Addr { bits: n as u32 }),
        IpAddr::V6(_) => IpAddr::V6(Ipv6Addr { bits: n as u128 }),
    }
}

proof fn lemma_span_positive(width: int, prefix: u8)
    ensures
        span(width, prefix) > 0,
{
    let h = (if prefix >= width {
        0
    } else {
        width - prefix
    }) as nat;
    vstd::arithmetic::power2::lemma_pow2_pos(h);
}

/// Shifting left by `h` multiplies, as long as nothing is shifted out.
proof fn lemma_shl_mul(x: u128, h: u128)
    requires
        h < 128,
        x <= u128::MAX >> h,
    ensures
        x << h == x * vstd::arithmetic::power2::pow2(h as nat),
    decreases h,
{
    if h == 0 {
        assert(x << 0u128 == x) by (bit_vector);
        vstd::arithmetic::power2::lemma2_to64();
        let p = vstd::arithmetic::power2::pow2(h as nat) as int;
        assert(x * p == x) by (nonlinear_arith)
            requires
                p == 1,
        ;
    } else {
        let g = (h - 1) as u128;
        assert(x <= u128::MAX >> g && x << h == 2 * (x << g)) by (bit_vector)
            requires
                0 < h < 128,
                g == h - 1,
                x <= u128::MAX >> h,
        ;
        lemma_shl_mul(x, g);
        vstd::arithmetic::power2::lemma_pow2_unfold(h as nat);
        let p = vstd::arithmetic::power2::pow2(g as nat) as int;
        assert(2 * (x * p) == x * (2 * p)) by (nonlinear_arith);
    }
}

/// Masking off the lowest `h` bits of a number.
proof fn lemma_mask_u128(x: u128, h: u128)
    requires
        h < 128,
    ensures
        x & (u128::MAX << h) == x as nat / vstd::arithmetic::power2::pow2(h as nat)
            * vstd::arithmetic::power2::pow2(h as nat),
{
    let y = x >> h;
    assert(x & (u128::MAX << h) == y << h && y <= u128::MAX >> h) by (bit_vector)
        requires
            h < 128,
            y == x >> h,
    ;
    vstd::bits::lemma_u128_shr_is_div(x, h);
    lemma_shl_mul(y, h);
}

proof fn lemma_mask_u32(x: u32, h: u32)
    requires
        h < 32,
    ensures
        x & (u32::MAX << h) == x as nat / vstd::arithmetic::power2::pow2(h as nat)
            * vstd::arithmetic::power2::pow2(h as nat),
{
    let w = x as u128;
    let g = h as u128;
    let m = x & (u32::MAX << h);
    assert(m as u128 == w & (u128::MAX << g)) by (bit_vector)
        requires
            h < 32,
            w == x as u128,
            g == h as u128,
            m == x & (u32::MAX << h),
    ;
    lemma_mask_u128(w, g);
}

/// No IPv4 prefix is as long as an address: one of zero bits covers all.
proof fn lemma_whole_span(v: nat, w: nat)
    requires
        v < vstd::arithmetic::power2::pow2(w),
    ensures
        v / vstd::arithmetic::power2::pow2(w) * vstd::arithmetic::power2::pow2(w) == 0,
{
    vstd::arithmetic::div_mod::lemma_basic_div(v as int, vstd::arithmetic::power2::pow2(w) as int);
    assert(0 * vstd::arithmetic::power2::pow2(w) == 0);
}

proof fn lemma_unit_span(v: nat, p: nat)
    requires
        p == 1,
    ensures
        v / p * p == v,
{
    assert(v / p * p == v) by (nonlinear_arith)
        requires
            p == 1,
    ;
}

proof fn lemma_pow2_widths()
    ensures
        vstd::arithmetic::power2::pow2(0) == 1,
        vstd::arithmetic::power2::pow2(32) == 0x1_0000_0000,
        vstd::arithmetic::power2::pow2(128) == 0x1_0000_0000_0000_0000_0000_0000_0000_0000,
{
    vstd::arithmetic::power2::lemma2_to64();
    vstd::arithmetic::power2::lemma_pow2_adds(64, 64);
    vstd::arithmetic::power2::lemma2_to64_rest();
}

/// A number with the bits of `mask` kept is the start of its network.
spec fn keeps_prefix_v4(mask: u32, prefix: u8) -> bool {
    forall|x: u32| #[trigger] (x & mask) == x as nat / span(32, prefix) * span(32, prefix)
}

spec fn keeps_prefix_v6(mask: u128, prefix: u8) -> bool {
    forall|x: u128| #[trigger] (x & mask) == x as nat / span(128, prefix) * span(128, prefix)
}

fn prefix_mask_v4(prefix: u8) -> (mask: u32)
    ensures
        keeps_prefix_v4(mask, prefix),
{
    proof {
        lemma_pow2_widths();
    }
    if prefix == 0 {
        proof {
            assert forall|x: u32| #[trigger] (x & 0u32) == x as nat / span(32, 0) * span(32, 0) by {
                assert(x & 0u32 == 0) by (bit_vector);
                lemma_whole_span(x as nat, 32);
            }
        }
        0
    } else if prefix >= 32 {
        proof {
            assert forall|x: u32| #[trigger] (x & u32::MAX) == x as nat / span(32, prefix) * span(
                32,
                prefix,
            ) by {
                assert(x & u32::MAX == x) by (bit_vector);
                lemma_unit_span(x as nat, span(32, prefix));
            }
        }
        u32::MAX
    } else {
        let h: u32 = 32 - prefix as u32;
        proof {
            assert forall|x: u32| #[trigger] (x & (u32::MAX << h)) == x as nat / span(32, prefix)
                * span(32, prefix) by {
                lemma_mask_u32(x, h);
            }
        }
        u32::MAX << h
    }
}

fn prefix_mask_v6(prefix: u8) -> (mask: u128)
    ensures
        keeps_prefix_v6(mask, prefix),
{
    proof {
        lemma_pow2_widths();
    }
    if prefix == 0 {
        proof {
            assert forall|x: u128| #[trigger] (x & 0u128) == x as nat / span(128, 0) * span(
                128,
                0,
            ) by {
                assert(x & 0u128 == 0) by (bit_vector);
                lemma_whole_span(x as nat, 128);
            }
        }
        0
    } else if prefix >= 128 {
        proof {
            assert forall|x: u128| #[trigger] (x & u128::MAX) == x as nat / span(128, prefix)
                * span(128, prefix) by {
                assert(x & u128::MAX == x) by (bit_vector);
                lemma_unit_span(x as nat, span(128, prefix));
            }
        }
        u128::MAX
    } else {
        let h: u128 = 128 - prefix as u128;
        proof {
            assert forall|x: u128| #[trigger] (x & (u128::MAX << h)) == x as nat / span(128, prefix)
                * span(128, prefix) by {
                lemma_mask_u128(x, h);
            }
        }
        u128::MAX << h
    }
}

/// Two numbers whose networks start at one place lie in one network.
proof fn lemma_same_start(x: nat, y: nat, p: nat)
    requires
        p > 0,
    ensures
        (x / p * p == y / p * p) == (x / p == y / p),
{
    let a = x / p;
    let b = y / p;
    if a != b {
        if a < b {
            assert(a * p < b * p) by (nonlinear_arith)
                requires
                    a < b,
                    p > 0,
            ;
        } else {
            assert(b * p < a * p) by (nonlinear_arith)
                requires
                    b < a,
                    p > 0,
            ;
        }
    }
}

/// The start of a network is the start of its own network.
proof fn lemma_start_stays(x: nat, p: nat)
    requires
        p > 0,
    ensures
        (x / p * p) / p == x / p,
        x / p * p <= x,
{
    vstd::arithmetic::div_mod::lemma_div_multiples_vanish((x / p) as int, p as int);
    vstd::arithmetic::mul::lemma_mul_is_commutative((x / p) as int, p as int);
    vstd::arithmetic::div_mod::lemma_fundamental_div_mod(x as int, p as int);
}

fn mask_v4(addr: Ipv4Addr, prefix: u8) -> (r: Ipv4Addr)
    ensures
        IpAddr::V4(r) == network(IpAddr::V4(addr), prefix),
        r.bits == addr.bits as nat / span(32, prefix) * span(32, prefix),
{
    let mask = prefix_mask_v4(prefix);
    Ipv4Addr { bits: addr.bits & mask }
}

fn mask_v6(addr: Ipv6Addr, prefix: u8) -> (r: Ipv6Addr)
    ensures
        IpAddr::V6(r) == network(IpAddr::V6(addr), prefix),
        r.bits == addr.bits as nat / span(128, prefix) * span(128, prefix),
{
    let mask = prefix_mask_v6(prefix);
    Ipv6Addr { bits: addr.bits & mask }
}

// ---------------------------------------------------------------------------
// Networks
// ---------------------------------------------------------------------------
/// A network: its first address and its prefix length.
#[derive(Clone, Copy, Debug, PartialEq, Eq, Structural)]
pub struct Cidr {
    base: IpAddr,
    prefix: u8,
}

impl Cidr {
    pub closed spec fn spec_base(self) -> IpAddr {
        self.base
    }

    pub closed spec fn spec_prefix(self) -> u8 {
        self.prefix
    }

    #[verifier::type_invariant]
    spec fn wf(self) -> bool {
        self.base == network(self.base, self.prefix)
    }

    /// The network of `prefix` bits that `addr` lies in.
    pub fn new(addr: IpAddr, prefix: u8) -> (r: Cidr)
        ensures
            r.spec_base() == network(addr, prefix),
            r.spec_prefix() == prefix,
    {
        let base = match addr {
            IpAddr::V4(v4) => IpAddr::V4(mask_v4(v4, prefix)),
            IpAddr::V6(v6) => IpAddr::V6(mask_v6(v6, prefix)),
        };
        proof {
            lemma_span_positive(addr.width(), prefix);
            lemma_start_stays(addr.number(), span(addr.width(), prefix));
        }
        Cidr { base, prefix }
    }

    pub fn base(&self) -> (r: IpAddr)
        ensures
            r == self.spec_base(),
    {
        self.base
    }

    pub fn prefix(&self) -> (r: u8)
        ensures
            r == self.spec_prefix(),
    {
        self.prefix
    }

    pub fn is_ipv6(&self) -> (r: bool)
        ensures
            r == (self.spec_base() is V6),
    {
        self.base.is_ipv6()
    }

    /// Whether an address lies in the network.
    pub fn contains(&self, addr: IpAddr) -> (r: bool)
        ensures
            r == covers(self.spec_base(), self.spec_prefix(), addr),
    {
        proof {
            use_type_invariant(self);
            let p = span(self.base.width(), self.prefix);
            lemma_span_positive(self.base.width(), self.prefix);
            lemma_start_stays(self.base.number(), p);
            lemma_same_start(self.base.number(), addr.number(), p);
        }
        match (self.base, addr) {
            (IpAddr::V4(b), IpAddr::V4(a)) => {
                let m = mask_v4(a, self.prefix);
                m.bits == b.bits
            },
            (IpAddr::V6(b), IpAddr::V6(a)) => {
                let m = mask_v6(a, self.prefix);
                m.bits == b.bits
            },
            _ => false,
        }
    }
}

/// The network that an address lies in holds that address, and holds the
/// same addresses as the prefix around it.
pub proof fn lemma_network_covers(addr: IpAddr, prefix: u8, other: IpAddr)
    ensures
        covers(network(addr, prefix), prefix, other) == covers(addr, prefix, other),
        covers(network(addr, prefix), prefix, addr),
        network(addr, prefix).same_family(addr),
{
    let p = span(addr.width(), prefix);
    lemma_span_positive(addr.width(), prefix);
    lemma_start_stays(addr.number(), p);
}

// ---------------------------------------------------------------------------
// Differences
// ---------------------------------------------------------------------------
/// The entries of `list` that `other` lacks, in order.
pub open spec fn missing_from(list: Seq<(IpAddr, u8)>, other: Seq<(IpAddr, u8)>) -> Seq<(IpAddr, u8)> {
    list.filter(|e: (IpAddr, u8)| !other.contains(e))
}

pub fn list_contains(list: &[(IpAddr, u8)], e: (IpAddr, u8)) -> (r: bool)
    ensures
        r == list@.contains(e),
{
    for i in 0..list.len()
        invariant
            forall|j: int| 0 <= j < i ==> list@[j] != e,
    {
        if list[i].0 == e.0 && list[i].1 == e.1 {
            assert(list@[i as int] == e);
            return true;
        }
    }
    false
}

fn keep_missing(list: &[(IpAddr, u8)], other: &[(IpAddr, u8)]) -> (r: CidrList)
    ensures
        r@ == missing_from(list@, other@),
{
    let mut out: CidrList = Vec::new();
    let ghost keep = |e: (IpAddr, u8)| !other@.contains(e);
    assert(list@.take(0).filter(keep) =~= Seq::<(IpAddr, u8)>::empty()) by {
        reveal(Seq::filter);
    }
    for i in 0..list.len()
        invariant
            keep == (|e: (IpAddr, u8)| !other@.contains(e)),
            out@ == list@.take(i as int).filter(keep),
    {
        proof {
            reveal(Seq::filter);
            assert(list@.take(i + 1).drop_last() =~= list@.take(i as int));
        }
        if !list_contains(other, list[i]) {
            out.push(list[i]);
        }
    }
    assert(list@.take(list@.len() as int) =~= list@);
    out
}

/// What `new` has that `old` lacks, and what `old` has that `new` lacks.
pub fn diff_cidrs(old: &[(IpAddr, u8)], new: &[(IpAddr, u8)]) -> (r: (CidrList, CidrList))
    ensures
        r.0@ == missing_from(new@, old@),
        r.1@ == missing_from(old@, new@),
{
    (keep_missing(new, old), keep_missing(old, new))
}

/// What is missing from a list.
pub proof fn lemma_missing_contains(list: Seq<(IpAddr, u8)>, other: Seq<(IpAddr, u8)>, e: (IpAddr, u8))
    ensures
        missing_from(list, other).contains(e) == (list.contains(e) && !other.contains(e)),
    decreases list.len(),
{
    reveal(Seq::filter);
    if list.len() == 0 {
    } else {
        let init = list.drop_last();
        lemma_missing_contains(init, other, e);
        let m = missing_from(init, other);
        let last = list.last();
        if list.contains(e) {
            let i = choose|i: int| 0 <= i < list.len() && list[i] == e;
            if i < init.len() {
                assert(init[i] == e);
            }
        }
        if init.contains(e) {
            let i = choose|i: int| 0 <= i < init.len() && init[i] == e;
            assert(list[i] == e);
        }
        assert(list[list.len() - 1] == last);
        if !other.contains(last) {
            assert(missing_from(list, other) =~= m.push(last));
            if m.contains(e) {
                let i = choose|i: int| 0 <= i < m.len() && m[i] == e;
                assert(m.push(last)[i] == e);
            }
            if e == last {
                assert(m.push(last)[m.len() as int] == e);
            }
            if m.push(last).contains(e) {
                let i = choose|i: int| 0 <= i < m.push(last).len() && m.push(last)[i] == e;
                if i < m.len() {
                    assert(m[i] == e);
                }
            }
        } else {
            assert(missing_from(list, other) =~= m);
        }
    }
}

/// Taking away what was removed and putting in what was added turns the old
/// set of networks into the new one.
pub proof fn lemma_diff_leads_to_new(old: Seq<(IpAddr, u8)>, new: Seq<(IpAddr, u8)>)
    ensures
        old.to_set().difference(missing_from(old, new).to_set()).union(
            missing_from(new, old).to_set(),
        ) == new.to_set(),
{
    let l = old.to_set().difference(missing_from(old, new).to_set()).union(
        missing_from(new, old).to_set(),
    );
    assert forall|e: (IpAddr, u8)| l.contains(e) == new.to_set().contains(e) by {
        lemma_missing_contains(old, new, e);
        lemma_missing_contains(new, old, e);
    }
    assert(l =~= new.to_set());
}

/// A list differs from itself in nothing.
pub proof fn lemma_diff_of_same(list: Seq<(IpAddr, u8)>)
    ensures
        missing_from(list, list).len() == 0,
{
    let m = missing_from(list, list);
    if m.len() > 0 {
        lemma_missing_contains(list, list, m[0]);
        assert(m.contains(m[0]));
    }
}

/// An empty difference both ways means one set of networks.
pub proof fn lemma_no_diff_means_same(old: Seq<(IpAddr, u8)>, new: Seq<(IpAddr, u8)>)
    requires
        missing_from(old, new).len() == 0,
        missing_from(new, old).len() == 0,
    ensures
        old.to_set() == new.to_set(),
{
    lemma_diff_leads_to_new(old, new);
    assert(missing_from(old, new).to_set() =~= Set::<(IpAddr, u8)>::empty());
    assert(missing_from(new, old).to_set() =~= Set::<(IpAddr, u8)>::empty());
    assert(old.to_set().difference(Set::<(IpAddr, u8)>::empty()).union(
        Set::<(IpAddr, u8)>::empty(),
    ) =~= old.to_set());
}

// ---------------------------------------------------------------------------
// The table of direct destinations
// ---------------------------------------------------------------------------
/// Where a flow goes.
#[derive(Clone, Copy, Debug, PartialEq, Eq, Structural)]
pub enum RouteDecision {
    Direct,
    Proxy,
}

pub open spec fn entry_covers(e: (IpAddr, u8), addr: IpAddr) -> bool {
    covers(e.0, e.1, addr)
}

/// Whether `addr` lies in one of the networks.
pub open spec fn any_covers(list: Seq<(IpAddr, u8)>, addr: IpAddr) -> bool {
    exists|i: int| 0 <= i < list.len() && #[trigger] entry_covers(list[i], addr)
}

/// The networks whose destinations go direct, the longest prefix first: for
/// each the number of its first address and the mask of its prefix.
#[derive(Debug)]
pub struct RouteTable {
    v4: Vec<(u32, u32)>,
    v6: Vec<(u128, u128)>,
    len: usize,
}

spec fn hits_v4(e: (u32, u32), bits: u32) -> bool {
    bits & e.1 == e.0
}

spec fn hits_v6(e: (u128, u128), bits: u128) -> bool {
    bits & e.1 == e.0
}

spec fn any_hits_v4(list: Seq<(u32, u32)>, bits: u32) -> bool {
    exists|i: int| 0 <= i < list.len() && #[trigger] hits_v4(list[i], bits)
}

spec fn any_hits_v6(list: Seq<(u128, u128)>, bits: u128) -> bool {
    exists|i: int| 0 <= i < list.len() && #[trigger] hits_v6(list[i], bits)
}

spec fn network_covers(c: Cidr, addr: IpAddr) -> bool {
    covers(c.base, c.prefix, addr)
}

spec fn any_network_covers(list: Seq<Cidr>, addr: IpAddr) -> bool {
    exists|i: int| 0 <= i < list.len() && #[trigger] network_covers(list[i], addr)
}

spec fn longest_first(list: Seq<Cidr>) -> bool {
    forall|i: int, j: int| 0 <= i <= j < list.len() ==> list[i].prefix >= list[j].prefix
}

/// Puts a network behind all that have a prefix as long or longer.
fn place(list: &mut Vec<Cidr>, c: Cidr)
    requires
        longest_first(old(list)@),
    ensures
        longest_first(final(list)@),
        final(list)@.len() == old(list)@.len() + 1,
        final(list)@.to_multiset() == old(list)@.to_multiset().insert(c),
        forall|a: IpAddr|
            any_network_covers(final(list)@, a) == (any_network_covers(old(list)@, a)
                || network_covers(c, a)),
{
    let ghost before = list@;
    let mut i: usize = list.len();
    while i > 0 && list[i - 1].prefix < c.prefix
        invariant
            i <= list@.len(),
            list@ == before,
            longest_first(before),
            forall|j: int| i <= j < list@.len() ==> list@[j].prefix < c.prefix,
        decreases i,
    {
        i -= 1;
    }
    list.insert(i, c);
    proof {
        let after = list@;
        let k = i as int;
        assert(after == before.insert(k, c));
        vstd::seq_lib::to_multiset_insert(before, k, c);
        assert forall|a: IpAddr|
            any_network_covers(after, a) == (any_network_covers(before, a) || network_covers(c, a)) by {
            if any_network_covers(after, a) {
                let j = choose|j: int| 0 <= j < after.len() && #[trigger] network_covers(after[j], a);
                if j < k {
                    assert(before[j] == after[j]);
                } else if j > k {
                    assert(before[j - 1] == after[j]);
                }
            }
            if any_network_covers(before, a) {
                let j = choose|j: int|
                    0 <= j < before.len() && #[trigger] network_covers(before[j], a);
                if j < k {
                    assert(network_covers(after[j], a));
                } else {
                    assert(network_covers(after[j + 1], a));
                }
            }
            if network_covers(c, a) {
                assert(network_covers(after[k], a));
            }
        }
    }
}

impl RouteTable {
    /// Whether a destination goes direct.
    pub closed spec fn matches(self, addr: IpAddr) -> bool {
        match addr {
            IpAddr::V4(a) => any_hits_v4(self.v4@, a.bits),
            IpAddr::V6(a) => any_hits_v6(self.v6@, a.bits),
        }
    }

    /// How many networks the table was made from.
    pub closed spec fn count(self) -> nat {
        self.len as nat
    }

    fn push(&mut self, c: Cidr)
        requires
            old(self).len < usize::MAX,
        ensures
            final(self).len == old(self).len + 1,
            forall|a: IpAddr|
                #[trigger] final(self).matches(a) == (old(self).matches(a) || network_covers(c, a)),
    {
        let ghost before = *self;
        proof {
            use_type_invariant(&c);
            lemma_span_positive(c.base.width(), c.prefix);
            lemma_start_stays(c.base.number(), span(c.base.width(), c.prefix));
        }
        self.len = self.len + 1;
        match c.base {
            IpAddr::V4(b) => {
                let mask = prefix_mask_v4(c.prefix);
                self.v4.push((b.bits, mask));
                proof {
                    let k = before.v4@.len() as int;
                    assert(self.v4@[k] == (b.bits, mask));
                    assert forall|a: IpAddr| #[trigger]
                        self.matches(a) == (before.matches(a) || network_covers(c, a)) by {
                        lemma_same_start(a.number(), c.base.number(), span(32, c.prefix));
                        if let IpAddr::V4(x) = a {
                            assert(hits_v4(self.v4@[k], x.bits) == network_covers(c, a));
                            if before.matches(a) {
                                let i = choose|i: int|
                                    0 <= i < k && #[trigger] hits_v4(before.v4@[i], x.bits);
                                assert(hits_v4(self.v4@[i], x.bits));
                            }
                            if self.matches(a) {
                                let i = choose|i: int|
                                    0 <= i <= k && #[trigger] hits_v4(self.v4@[i], x.bits);
                                if i < k {
                                    assert(hits_v4(before.v4@[i], x.bits));
                                }
                            }
                        }
                    }
                }
            },
            IpAddr::V6(b) => {
                let mask = prefix_mask_v6(c.prefix);
                self.v6.push((b.bits, mask));
                proof {
                    let k = before.v6@.len() as int;
                    assert(self.v6@[k] == (b.bits, mask));
                    assert forall|a: IpAddr| #[trigger]
                        self.matches(a) == (before.matches(a) || network_covers(c, a)) by {
                        lemma_same_start(a.number(), c.base.number(), span(128, c.prefix));
                        if let IpAddr::V6(x) = a {
                            assert(hits_v6(self.v6@[k], x.bits) == network_covers(c, a));
                            if before.matches(a) {
                                let i = choose|i: int|
                                    0 <= i < k && #[trigger] hits_v6(before.v6@[i], x.bits);
                                assert(hits_v6(self.v6@[i], x.bits));
                            }
                            if self.matches(a) {
                                let i = choose|i: int|
                                    0 <= i <= k && #[trigger] hits_v6(self.v6@[i], x.bits);
                                if i < k {
                                    assert(hits_v6(before.v6@[i], x.bits));
                                }
                            }
                        }
                    }
                }
            },
        }
    }

    /// The table of the given networks.
    pub fn new(direct: &[(IpAddr, u8)]) -> (r: RouteTable)
        ensures
            forall|a: IpAddr| #[trigger] r.matches(a) == any_covers(direct@, a),
            r.count() == direct@.len(),
    {
        let mut cidrs: Vec<Cidr> = Vec::new();
        for i in 0..direct.len()
            invariant
                cidrs@.len() == i,
                longest_first(cidrs@),
                forall|a: IpAddr|
                    any_network_covers(cidrs@, a) == any_covers(direct@.take(i as int), a),
        {
            let (addr, prefix) = direct[i];
            let c = Cidr::new(addr, prefix);
            place(&mut cidrs, c);
            proof {
                let old_list = direct@.take(i as int);
                let new_list = direct@.take(i + 1);
                assert forall|a: IpAddr| any_network_covers(cidrs@, a) == any_covers(new_list, a) by {
                    lemma_network_covers(addr, prefix, a);
                    assert(network_covers(c, a) == entry_covers(new_list[i as int], a));
                    assert forall|j: int| 0 <= j < i implies old_list[j] == new_list[j] by {}
                    if any_covers(old_list, a) {
                        let j = choose|j: int|
                            0 <= j < old_list.len() && #[trigger] entry_covers(old_list[j], a);
                        assert(entry_covers(new_list[j], a));
                    }
                    if any_covers(new_list, a) {
                        let j = choose|j: int|
                            0 <= j < new_list.len() && #[trigger] entry_covers(new_list[j], a);
                        if j < i {
                            assert(entry_covers(old_list[j], a));
                        }
                    }
                }
            }
        }
        assert(direct@.take(direct@.len() as int) =~= direct@);
        let mut table = RouteTable { v4: Vec::new(), v6: Vec::new(), len: 0 };
        for i in 0..cidrs.len()
            invariant
                table.len == i,
                forall|a: IpAddr| #[trigger]
                    table.matches(a) == any_network_covers(cidrs@.take(i as int), a),
        {
            let ghost before = table;
            let c = cidrs[i];
            table.push(c);
            proof {
                let old_list = cidrs@.take(i as int);
                let new_list = cidrs@.take(i + 1);
                assert forall|a: IpAddr| #[trigger] table.matches(a) == any_network_covers(new_list, a) by {
                    assert(table.matches(a) == (before.matches(a) || network_covers(c, a)));
                    assert(new_list[i as int] == c);
                    if any_network_covers(old_list, a) {
                        let j = choose|j: int|
                            0 <= j < old_list.len() && #[trigger] network_covers(old_list[j], a);
                        assert(network_covers(new_list[j], a));
                    }
                    if any_network_covers(new_list, a) {
                        let j = choose|j: int|
                            0 <= j < new_list.len() && #[trigger] network_covers(new_list[j], a);
                        if j < i {
                            assert(network_covers(old_list[j], a));
                        }
                    }
                }
            }
        }
        assert(cidrs@.take(cidrs@.len() as int) =~= cidrs@);
        table
    }

    /// Where a flow to `addr` goes.
    pub open spec fn way_to(self, addr: IpAddr) -> RouteDecision {
        if self.matches(addr) {
            RouteDecision::Direct
        } else {
            RouteDecision::Proxy
        }
    }

    /// Where a flow to `addr` goes.
    pub fn decide(&self, addr: IpAddr) -> (r: RouteDecision)
        ensures
            r == self.way_to(addr),
    {
        match addr {
            IpAddr::V4(a) => {
                for i in 0..self.v4.len()
                    invariant
                        addr == IpAddr::V4(a),
                        forall|j: int| 0 <= j < i ==> !#[trigger] hits_v4(self.v4@[j], a.bits),
                {
                    let (base, mask) = self.v4[i];
                    if a.bits & mask == base {
                        assert(hits_v4(self.v4@[i as int], a.bits));
                        return RouteDecision::Direct;
                    }
                }
            },
            IpAddr::V6(a) => {
                for i in 0..self.v6.len()
                    invariant
                        addr == IpAddr::V6(a),
                        forall|j: int| 0 <= j < i ==> !#[trigger] hits_v6(self.v6@[j], a.bits),
                {
                    let (base, mask) = self.v6[i];
                    if a.bits & mask == base {
                        assert(hits_v6(self.v6@[i as int], a.bits));
                        return RouteDecision::Direct;
                    }
                }
            },
        }
        RouteDecision::Proxy
    }

    pub fn is_empty(&self) -> (r: bool)
        ensures
            r == (self.count() == 0),
    {
        self.len == 0
    }

    pub fn len(&self) -> (r: usize)
        ensures
            r == self.count(),
    {
        self.len
    }
}

fn copy_v4(list: &Vec<(u32, u32)>) -> (r: Vec<(u32, u32)>)
    ensures
        r@ == list@,
{
    let mut r: Vec<(u32, u32)> = Vec::new();
    for i in 0..list.len()
        invariant
            r@ == list@.take(i as int),
    {
        r.push(list[i]);
    }
    r
}

fn copy_v6(list: &Vec<(u128, u128)>) -> (r: Vec<(u128, u128)>)
    ensures
        r@ == list@,
{
    let mut r: Vec<(u128, u128)> = Vec::new();
    for i in 0..list.len()
        invariant
            r@ == list@.take(i as int),
    {
        r.push(list[i]);
    }
    r
}

impl Clone for RouteTable {
    fn clone(&self) -> (r: RouteTable)
        ensures
            r.count() == self.count(),
            forall|a: IpAddr| #[trigger] r.matches(a) == self.matches(a),
    {
        RouteTable { v4: copy_v4(&self.v4), v6: copy_v6(&self.v6), len: self.len }
    }
}

impl Default for RouteTable {
    /// The table without networks.
    fn default() -> (r: RouteTable)
        ensures
            r.count() == 0,
            forall|a: IpAddr| !#[trigger] r.matches(a),
    {
        RouteTable { v4: Vec::new(), v6: Vec::new(), len: 0 }
    }
}

/// Which destinations go direct depends on the set of networks alone, not on
/// their order or on how often one is listed.
pub proof fn lemma_order_does_not_matter(a: Seq<(IpAddr, u8)>, b: Seq<(IpAddr, u8)>, addr: IpAddr)
    requires
        a.to_set() == b.to_set(),
    ensures
        any_covers(a, addr) == any_covers(b, addr),
{
    if any_covers(a, addr) {
        let i = choose|i: int| 0 <= i < a.len() && #[trigger] entry_covers(a[i], addr);
        assert(a.to_set().contains(a[i]));
        let j = choose|j: int| 0 <= j < b.len() && b[j] == a[i];
        assert(entry_covers(b[j], addr));
    }
    if any_covers(b, addr) {
        let i = choose|i: int| 0 <= i < b.len() && #[trigger] entry_covers(b[i], addr);
        assert(b.to_set().contains(b[i]));
        let j = choose|j: int| 0 <= j < a.len() && a[j] == b[i];
        assert(entry_covers(a[j], addr));
    }
}

/// A network never holds an address of the other family.
pub proof fn lemma_families_stay_apart(addr: IpAddr, prefix: u8, other: IpAddr)
    requires
        !addr.same_family(other),
    ensures
        !covers(addr, prefix, other),
{
}

/// A prefix of no bits holds every address of its family.
pub proof fn lemma_zero_prefix_covers_all(addr: IpAddr, other: IpAddr)
    requires
        addr.same_family(other),
    ensures
        covers(addr, 0, other),
{
    lemma_pow2_widths();
    let p = span(addr.width(), 0);
    vstd::arithmetic::div_mod::lemma_basic_div(addr.number() as int, p as int);
    vstd::arithmetic::div_mod::lemma_basic_div(other.number() as int, p as int);
}

/// A prefix of the whole width holds one address.
pub proof fn lemma_full_prefix_covers_one(addr: IpAddr, prefix: u8, other: IpAddr)
    requires
        prefix >= addr.width(),
    ensures
        covers(addr, prefix, other) == (addr == other),
{
    lemma_pow2_widths();
    let p = span(addr.width(), prefix);
    lemma_unit_span(addr.number(), p);
    lemma_unit_span(other.number(), p);
    lemma_same_start(addr.number(), other.number(), p);
}

/// The first bit of an address tells which half of all addresses it lies in.
pub proof fn lemma_first_bit(addr: IpAddr)
    ensures
        match addr {
            IpAddr::V4(_) => covers(IpAddr::V4(Ipv4Addr { bits: 0 }), 1, addr) || covers(
                IpAddr::V4(Ipv4Addr { bits: 0x8000_0000 }),
                1,
                addr,
            ),
            IpAddr::V6(_) => covers(IpAddr::V6(Ipv6Addr { bits: 0 }), 1, addr) || covers(
                IpAddr::V6(Ipv6Addr { bits: 0x8000_0000_0000_0000_0000_0000_0000_0000 }),
                1,
                addr,
            ),
        },
{
    lemma_pow2_widths();
    match addr {
        IpAddr::V4(v4) => {
            vstd::arithmetic::power2::lemma_pow2_unfold(32);
            assert(span(32, 1) == 0x8000_0000);
            lemma_halves(v4.bits as nat, span(32, 1));
            lemma_halves(0, span(32, 1));
            lemma_halves(0x8000_0000, span(32, 1));
        },
        IpAddr::V6(v6) => {
            vstd::arithmetic::power2::lemma_pow2_unfold(128);
            assert(span(128, 1) == 0x8000_0000_0000_0000_0000_0000_0000_0000);
            lemma_halves(v6.bits as nat, span(128, 1));
            lemma_halves(0, span(128, 1));
            lemma_halves(0x8000_0000_0000_0000_0000_0000_0000_0000, span(128, 1));
        },
    }
}

proof fn lemma_halves(n: nat, p: nat)
    by (nonlinear_arith)
    requires
        p > 0,
        n < 2 * p,
    ensures
        n / p == (if n < p {
            0nat
        } else {
            1nat
        }),
{
}

/// An address lies in an IPv4 network exactly where the leading bits of the two,
/// as many as the prefix is long, are the same.
pub proof fn lemma_covers_is_same_leading_bits_v4(a: Ipv4Addr, prefix: u8, b: Ipv4Addr)
    requires
        1 <= prefix <= 32,
    ensures
        covers(IpAddr::V4(a), prefix, IpAddr::V4(b)) <==> a.bits >> ((32 - prefix) as u32) == b.bits
            >> ((32 - prefix) as u32),
{
    let h = (32 - prefix) as u32;
    vstd::bits::lemma_u32_shr_is_div(a.bits, h);
    vstd::bits::lemma_u32_shr_is_div(b.bits, h);
}

/// An address lies in an IPv6 network exactly where the leading bits of the two,
/// as many as the prefix is long, are the same.
pub proof fn lemma_covers_is_same_leading_bits_v6(a: Ipv6Addr, prefix: u8, b: Ipv6Addr)
    requires
        1 <= prefix <= 128,
    ensures
        covers(IpAddr::V6(a), prefix, IpAddr::V6(b)) <==> a.bits >> ((128 - prefix) as u128)
            == b.bits >> ((128 - prefix) as u128),
{
    let h = (128 - prefix) as u128;
    vstd::bits::lemma_u128_shr_is_div(a.bits, h);
    vstd::bits::lemma_u128_shr_is_div(b.bits, h);
}

/// Lying in one network of a given prefix is the same either way round and goes
/// on from one address to the next; and a shorter prefix holds what a longer
/// one does.
pub proof fn lemma_covers_sorts_addresses(a: IpAddr, b: IpAddr, c: IpAddr, short: u8, long: u8)
    requires
        short <= long,
    ensures
        covers(a, short, a),
        covers(a, short, b) == covers(b, short, a),
        covers(a, short, b) && covers(b, short, c) ==> covers(a, short, c),
        covers(a, long, b) ==> covers(a, short, b),
{
    if covers(a, long, b) {
        let w = a.width();
        let p = span(w, long);
        let q = span(w, short);
        let h: nat = if long >= w {
            0
        } else {
            (w - long) as nat
        };
        let k: nat = if short >= w {
            0
        } else {
            (w - short) as nat
        };
        let d = (k - h) as nat;
        let e = vstd::arithmetic::power2::pow2(d);
        vstd::arithmetic::power2::lemma_pow2_adds(h, d);
        vstd::arithmetic::power2::lemma_pow2_pos(h);
        vstd::arithmetic::power2::lemma_pow2_pos(d);
        assert(q == p * e);
        vstd::arithmetic::div_mod::lemma_div_denominator(a.number() as int, p as int, e as int);
        vstd::arithmetic::div_mod::lemma_div_denominator(b.number() as int, p as int, e as int);
    }
}

/// The address that stands for a network is the lowest in it.
pub proof fn lemma_network_is_lowest(addr: IpAddr, prefix: u8, other: IpAddr)
    ensures
        covers(addr, prefix, network(addr, prefix)),
        covers(addr, prefix, other) ==> network(addr, prefix).number() <= other.number(),
        covers(addr, prefix, other) ==> network(addr, prefix) == network(other, prefix),
{
    let p = span(addr.width(), prefix);
    lemma_span_positive(addr.width(), prefix);
    lemma_start_stays(addr.number(), p);
    lemma_start_stays(other.number(), p);
}

/// A destination goes direct exactly where one of the listed networks holds it:
/// with no network none does, one more network adds what lies in it, and takes
/// nothing away.
pub proof fn lemma_each_network_counts(list: Seq<(IpAddr, u8)>, e: (IpAddr, u8), addr: IpAddr)
    ensures
        !any_covers(Seq::empty(), addr),
        any_covers(list.push(e), addr) <==> any_covers(list, addr) || covers(e.0, e.1, addr),
{
    let more = list.push(e);
    assert(more[list.len() as int] == e);
    if any_covers(list, addr) {
        let i = choose|i: int| 0 <= i < list.len() && #[trigger] entry_covers(list[i], addr);
        assert(entry_covers(more[i], addr));
    }
    if covers(e.0, e.1, addr) {
        assert(entry_covers(more[list.len() as int], addr));
    }
    if any_covers(more, addr) {
        let i = choose|i: int| 0 <= i < more.len() && #[trigger] entry_covers(more[i], addr);
        if i < list.len() {
            assert(entry_covers(list[i], addr));
        }
    }
}

/// Of what a list has and another lacks nothing is listed twice for once, and
/// the order is that of the list: dropping what the other has is all that
/// happens, entry by entry.
pub proof fn lemma_missing_keeps_order(
    list: Seq<(IpAddr, u8)>,
    other: Seq<(IpAddr, u8)>,
    e: (IpAddr, u8),
)
    ensures
        missing_from(Seq::empty(), other).len() == 0,
        other.contains(e) ==> missing_from(list.push(e), other) == missing_from(list, other),
        !other.contains(e) ==> missing_from(list.push(e), other) == missing_from(list, other).push(
            e,
        ),
{
    reveal(Seq::filter);
    assert(list.push(e).drop_last() =~= list);
}

/// A flow goes direct exactly where a listed network holds its destination, and
/// to the proxy in any other case: whatever the family, and however many networks
/// there are.
pub proof fn lemma_listed_destinations_go_direct(
    table: RouteTable,
    list: Seq<(IpAddr, u8)>,
    e: (IpAddr, u8),
    addr: IpAddr,
)
    requires
        forall|a: IpAddr| #[trigger] table.matches(a) == any_covers(list, a),
    ensures
        list.contains(e) && covers(e.0, e.1, addr) ==> table.way_to(addr) is Direct,
        (forall|i: int| 0 <= i < list.len() ==> !covers((#[trigger] list[i]).0, list[i].1, addr))
            ==> table.way_to(addr) is Proxy,
{
    if list.contains(e) && covers(e.0, e.1, addr) {
        let i = choose|i: int| 0 <= i < list.len() && list[i] == e;
        assert(entry_covers(list[i], addr));
    }
    if any_covers(list, addr) {
        let i = choose|i: int| 0 <= i < list.len() && #[trigger] entry_covers(list[i], addr);
        assert(covers(list[i].0, list[i].1, addr));
    }
}

} // verus!
