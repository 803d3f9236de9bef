//! The link of the default route, as the kernel reports it.

use vstd::prelude::*;
use crate::addr::IpAddr;
use crate::platform::linux::route::{RouteAttribute, RouteEntry};
use crate::platform::routes::LinkInfo;

verus! {

/// The first link among the attributes from `i` on.
pub open spec fn first_oif(list: Seq<RouteAttribute>, i: int) -> Option<u32>
    decreases list.len() - i,
{
    if !(0 <= i < list.len()) {
        None
    } else {
        match list[i] {
            RouteAttribute::Oif(index) => Some(index),
            _ => first_oif(list, i + 1),
        }
    }
}

/// The link of a default route.
pub open spec fn default_oif(e: RouteEntry) -> Option<u32> {
    if e.destination_prefix_length == 0 {
        first_oif(e.attributes@, 0)
    } else {
        None
    }
}

/// The link of a default route. That of the host is the link of the first
/// reported route which names one.
pub fn default_v4_oif(e: &RouteEntry) -> (r: Option<u32>)
    ensures
        r == default_oif(*e),
{
    if e.destination_prefix_length != 0 {
        return None;
    }
    for i in 0..e.attributes.len()
        invariant
            e.destination_prefix_length == 0,
            first_oif(e.attributes@, 0) == first_oif(e.attributes@, i as int),
    {
        match e.attributes[i] {
            RouteAttribute::Oif(index) => {
                return Some(index);
            },
            _ => {},
        }
    }
    None
}

pub open spec fn is_v6_gateway(a: RouteAttribute) -> bool {
    a matches RouteAttribute::Gateway(IpAddr::V6(_))
}

/// Whether a route is a default route with an IPv6 gateway.
pub open spec fn leads_to_ipv6(e: RouteEntry) -> bool {
    e.destination_prefix_length == 0 && exists|i: int|
        0 <= i < e.attributes@.len() && is_v6_gateway(#[trigger] e.attributes@[i])
}

/// Whether a route is a default route with an IPv6 gateway.
pub fn default_v6_present(e: &RouteEntry) -> (r: bool)
    ensures
        r == leads_to_ipv6(*e),
{
    if e.destination_prefix_length != 0 {
        return false;
    }
    for i in 0..e.attributes.len()
        invariant
            e.destination_prefix_length == 0,
            forall|j: int| 0 <= j < i ==> !is_v6_gateway(#[trigger] e.attributes@[j]),
    {
        match e.attributes[i] {
            RouteAttribute::Gateway(IpAddr::V6(_)) => {
                assert(is_v6_gateway(e.attributes@[i as int]));
                return true;
            },
            _ => {},
        }
    }
    false
}

/// An attribute of a link.
#[derive(Clone, Copy, PartialEq, Eq, Debug, Structural)]
pub enum LinkAttribute {
    Mtu(u32),
    Other,
}

/// The first unit size among the attributes from `i` on.
pub open spec fn first_mtu(list: Seq<LinkAttribute>, i: int) -> Option<u32>
    decreases list.len() - i,
{
    if !(0 <= i < list.len()) {
        None
    } else {
        match list[i] {
            LinkAttribute::Mtu(mtu) => Some(mtu),
            LinkAttribute::Other => first_mtu(list, i + 1),
        }
    }
}

/// The unit size that the attributes of a link tell.
pub fn link_mtu(attributes: &[LinkAttribute]) -> (r: Option<u32>)
    ensures
        r == first_mtu(attributes@, 0),
{
    for i in 0..attributes.len()
        invariant
            first_mtu(attributes@, 0) == first_mtu(attributes@, i as int),
    {
        match attributes[i] {
            LinkAttribute::Mtu(mtu) => {
                return Some(mtu);
            },
            LinkAttribute::Other => {},
        }
    }
    None
}

/// What is known of the link where the kernel could be asked, and where not.
pub fn link_info(found: Option<(Option<u32>, bool)>) -> (r: LinkInfo)
    ensures
        r == (match found {
            Some((mtu, has_ipv6_gateway)) => LinkInfo { mtu, has_ipv6_gateway },
            None => LinkInfo { mtu: None, has_ipv6_gateway: false },
        }),
{
    match found {
        Some((mtu, has_ipv6_gateway)) => LinkInfo { mtu, has_ipv6_gateway },
        None => LinkInfo { mtu: None, has_ipv6_gateway: false },
    }
}

proof fn lemma_first_oif_shift(a: RouteAttribute, rest: Seq<RouteAttribute>, i: int)
    requires
        0 <= i <= rest.len(),
    ensures
        first_oif(seq![a] + rest, i + 1) == first_oif(rest, i),
    decreases rest.len() - i,
{
    if i < rest.len() {
        assert((seq![a] + rest)[i + 1] == rest[i]);
        lemma_first_oif_shift(a, rest, i + 1);
    }
}

proof fn lemma_first_mtu_shift(a: LinkAttribute, rest: Seq<LinkAttribute>, i: int)
    requires
        0 <= i <= rest.len(),
    ensures
        first_mtu(seq![a] + rest, i + 1) == first_mtu(rest, i),
    decreases rest.len() - i,
{
    if i < rest.len() {
        assert((seq![a] + rest)[i + 1] == rest[i]);
        lemma_first_mtu_shift(a, rest, i + 1);
    }
}

/// The first link and the first unit size that are told count, and what comes
/// before them has no say.
pub proof fn lemma_first_attribute_counts(
    a: RouteAttribute,
    rest: Seq<RouteAttribute>,
    l: LinkAttribute,
    others: Seq<LinkAttribute>,
    n: u32,
)
    ensures
        first_oif(Seq::empty(), 0) is None,
        first_oif(seq![RouteAttribute::Oif(n)] + rest, 0) == Some(n),
        !(a is Oif) ==> first_oif(seq![a] + rest, 0) == first_oif(rest, 0),
        first_mtu(Seq::empty(), 0) is None,
        first_mtu(seq![LinkAttribute::Mtu(n)] + others, 0) == Some(n),
        !(l is Mtu) ==> first_mtu(seq![l] + others, 0) == first_mtu(others, 0),
{
    assert((seq![RouteAttribute::Oif(n)] + rest)[0] == RouteAttribute::Oif(n));
    assert((seq![a] + rest)[0] == a);
    assert((seq![LinkAttribute::Mtu(n)] + others)[0] == LinkAttribute::Mtu(n));
    assert((seq![l] + others)[0] == l);
    lemma_first_oif_shift(a, rest, 0);
    lemma_first_mtu_shift(l, others, 0);
}

/// Only a default route tells the link of the host, and only one with a gateway
/// of IPv6 that there is IPv6.
pub proof fn lemma_default_route_tells(e: RouteEntry, ip: crate::addr::Ipv6Addr)
    ensures
        e.destination_prefix_length != 0 ==> default_oif(e) is None && !leads_to_ipv6(e),
        e.destination_prefix_length == 0 ==> default_oif(e) == first_oif(e.attributes@, 0),
        e.destination_prefix_length == 0 && e.attributes@.contains(
            RouteAttribute::Gateway(IpAddr::V6(ip)),
        ) ==> leads_to_ipv6(e),
        leads_to_ipv6(e) ==> exists|g: crate::addr::Ipv6Addr| #[trigger]
            e.attributes@.contains(RouteAttribute::Gateway(IpAddr::V6(g))),
{
    let list = e.attributes@;
    let a = RouteAttribute::Gateway(IpAddr::V6(ip));
    if list.contains(a) {
        let i = choose|i: int| 0 <= i < list.len() && list[i] == a;
        assert(is_v6_gateway(list[i]));
    }
    if leads_to_ipv6(e) {
        let i = choose|i: int| 0 <= i < list.len() && is_v6_gateway(#[trigger] list[i]);
        let g = match list[i] {
            RouteAttribute::Gateway(IpAddr::V6(g)) => g,
            _ => ip,
        };
        assert(list[i] == RouteAttribute::Gateway(IpAddr::V6(g)));
        assert(list.contains(RouteAttribute::Gateway(IpAddr::V6(g))));
    }
}

} // verus!
