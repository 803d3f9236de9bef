//! Changes to the routing table: the steps that put the tunnel into it, move
//! it along with the configuration and take it out again.

use vstd::prelude::*;
use crate::addr::{IpAddr, Ipv4Addr, Ipv6Addr};
use crate::config::Config;
use crate::net;
use crate::reload;
use crate::reload::ReloadPlan;

verus! {

/// What was found out about the link of the default route.
#[derive(Clone, Copy, PartialEq, Eq, Debug, Structural)]
pub struct LinkInfo {
    pub mtu: Option<u32>,
    pub has_ipv6_gateway: bool,
}

/// Where a route leads.
#[derive(Clone, Copy, PartialEq, Eq, Debug, Structural)]
pub enum Hop {
    /// To a gateway, on the link with this index where it is known.
    Gateway(IpAddr, Option<u32>),
    /// Into the tunnel.
    Tun,
}

#[derive(Clone, Copy, PartialEq, Eq, Debug, Structural)]
pub enum RouteAction {
    Add,
    Delete,
}

/// What a route is for.
#[derive(Clone, Copy, PartialEq, Eq, Debug, Structural)]
pub enum Purpose {
    /// It keeps the way to the proxy out of the tunnel.
    Proxy,
    /// It keeps a network out of the tunnel.
    Bypass,
    /// It leads one half of all addresses into the tunnel.
    Split,
}

/// One change to the routing table.
#[derive(Clone, Copy, PartialEq, Eq, Debug, Structural)]
pub struct RouteStep {
    pub action: RouteAction,
    pub dst: IpAddr,
    pub prefix: u8,
    pub hop: Hop,
    pub purpose: Purpose,
    /// Whether nothing further is done where the change fails.
    pub required: bool,
}

/// One item of a plan, in order.
#[derive(Clone, Copy, PartialEq, Eq, Debug, Structural)]
pub enum Item {
    Step(RouteStep),
    /// A network stays in the tunnel, for want of a gateway.
    SkipBypass(IpAddr, u8),
    /// IPv6 is not led into the tunnel, for want of a gateway.
    SkipIpv6,
    /// The way to the proxy is not kept out of the tunnel, for want of a
    /// gateway.
    ProxyUnpinned,
    /// Without a gateway to this address nothing further is done.
    NoGateway(IpAddr),
}

/// Whether a plan goes on after one of its items, given whether the item
/// succeeded: not after a required change that failed, nor where there is no
/// gateway.
pub open spec fn continues(item: Item, succeeded: bool) -> bool {
    match item {
        Item::Step(s) => succeeded || !s.required,
        Item::NoGateway(_) => false,
        _ => true,
    }
}

/// Whether a plan goes on after one of its items, given whether the item
/// succeeded: not after a required change that failed, nor where there is no
/// gateway.
pub fn goes_on(item: &Item, succeeded: bool) -> (r: bool)
    ensures
        r == continues(*item, succeeded),
{
    match item {
        Item::Step(s) => succeeded || !s.required,
        Item::NoGateway(_) => false,
        _ => true,
    }
}

/// The default gateways of the two families.
#[derive(Clone, Copy, PartialEq, Eq, Debug, Structural)]
pub struct Gateways {
    pub v4: Option<Hop>,
    pub v6: Option<Hop>,
}

impl Gateways {
    /// The gateway for destinations of the family of `ip`.
    pub open spec fn spec_hop(self, ip: IpAddr) -> Option<Hop> {
        match ip {
            IpAddr::V4(_) => self.v4,
            IpAddr::V6(_) => self.v6,
        }
    }

    pub fn hop(&self, ip: IpAddr) -> (r: Option<Hop>)
        ensures
            r == self.spec_hop(ip),
    {
        match ip {
            IpAddr::V4(_) => self.v4,
            IpAddr::V6(_) => self.v6,
        }
    }
}

/// The prefix length of a route to one address.
pub open spec fn host_bits(ip: IpAddr) -> u8 {
    match ip {
        IpAddr::V4(_) => 32,
        IpAddr::V6(_) => 128,
    }
}

pub fn host_prefix(addr: IpAddr) -> (r: u8)
    ensures
        r == host_bits(addr),
{
    if addr.is_ipv4() {
        32
    } else {
        128
    }
}

// ---------------------------------------------------------------------------
// Parts of plans
// ---------------------------------------------------------------------------
/// A change to the route to one address.
pub open spec fn host_step(
    action: RouteAction,
    ip: IpAddr,
    hop: Hop,
    required: bool,
) -> RouteStep {
    RouteStep { action, dst: ip, prefix: host_bits(ip), hop, purpose: Purpose::Proxy, required }
}

pub fn make_host_step(action: RouteAction, ip: IpAddr, hop: Hop, required: bool) -> (r: RouteStep)
    ensures
        r == host_step(action, ip, hop, required),
{
    RouteStep { action, dst: ip, prefix: host_prefix(ip), hop, purpose: Purpose::Proxy, required }
}

pub open spec fn bypass_step(
    action: RouteAction,
    e: (IpAddr, u8),
    hop: Hop,
    required: bool,
) -> RouteStep {
    RouteStep { action, dst: e.0, prefix: e.1, hop, purpose: Purpose::Bypass, required }
}

/// What a plan holds for one network that bypasses the tunnel.
pub open spec fn bypass_item(
    action: RouteAction,
    e: (IpAddr, u8),
    gateways: Gateways,
    required: bool,
    tell: bool,
) -> Seq<Item> {
    match gateways.spec_hop(e.0) {
        Some(hop) => seq![Item::Step(bypass_step(action, e, hop, required))],
        None => if tell {
            seq![Item::SkipBypass(e.0, e.1)]
        } else {
            Seq::empty()
        },
    }
}

/// What a plan holds for a list of networks that bypass the tunnel: a change
/// for each that has a gateway, and a word on each of the others where `tell`
/// asks for it.
pub open spec fn bypass_items(
    action: RouteAction,
    list: Seq<(IpAddr, u8)>,
    gateways: Gateways,
    required: bool,
    tell: bool,
) -> Seq<Item>
    decreases list.len(),
{
    if list.len() == 0 {
        Seq::empty()
    } else {
        bypass_items(action, list.drop_last(), gateways, required, tell) + bypass_item(
            action,
            list.last(),
            gateways,
            required,
            tell,
        )
    }
}

pub fn push_bypass(
    items: &mut Vec<Item>,
    action: RouteAction,
    list: &[(IpAddr, u8)],
    gateways: &Gateways,
    required: bool,
    tell: bool,
)
    ensures
        final(items)@ == old(items)@ + bypass_items(action, list@, *gateways, required, tell),
{
    let ghost before = items@;
    assert(before + bypass_items(action, list@.take(0), *gateways, required, tell) =~= before);
    for i in 0..list.len()
        invariant
            items@ == before + bypass_items(
                action,
                list@.take(i as int),
                *gateways,
                required,
                tell,
            ),
    {
        let ghost now = items@;
        let (dst, prefix) = list[i];
        match gateways.hop(dst) {
            Some(hop) => {
                items.push(
                    Item::Step(
                        RouteStep { action, dst, prefix, hop, purpose: Purpose::Bypass, required },
                    ),
                );
            },
            None => {
                if tell {
                    items.push(Item::SkipBypass(dst, prefix));
                }
            },
        }
        proof {
            assert(list@.take(i + 1).drop_last() =~= list@.take(i as int));
            assert(items@ =~= now + bypass_item(action, list@[i as int], *gateways, required, tell));
            assert(items@ =~= before + bypass_items(
                action,
                list@.take(i + 1),
                *gateways,
                required,
                tell,
            ));
        }
    }
    assert(list@.take(list@.len() as int) =~= list@);
}

pub open spec fn split_step(action: RouteAction, dst: IpAddr, required: bool) -> RouteStep {
    RouteStep { action, dst, prefix: 1, hop: Hop::Tun, purpose: Purpose::Split, required }
}

/// The first address of the lower or the upper half of a family.
pub open spec fn half(v6: bool, upper: bool) -> IpAddr {
    if v6 {
        IpAddr::V6(
            Ipv6Addr {
                bits: if upper {
                    0x8000_0000_0000_0000_0000_0000_0000_0000
                } else {
                    0
                },
            },
        )
    } else {
        IpAddr::V4(
            Ipv4Addr {
                bits: if upper {
                    0x8000_0000
                } else {
                    0
                },
            },
        )
    }
}

/// The changes to the routes of both halves of a family.
pub open spec fn split_items(action: RouteAction, v6: bool, required: bool) -> Seq<Item> {
    seq![
        Item::Step(split_step(action, half(v6, false), required)),
        Item::Step(split_step(action, half(v6, true), required)),
    ]
}

pub fn push_split(items: &mut Vec<Item>, action: RouteAction, v6: bool, required: bool)
    ensures
        final(items)@ == old(items)@ + split_items(action, v6, required),
{
    let ghost before = items@;
    let (lower, upper) = if v6 {
        (
            IpAddr::V6(Ipv6Addr { bits: 0 }),
            IpAddr::V6(Ipv6Addr { bits: 0x8000_0000_0000_0000_0000_0000_0000_0000 }),
        )
    } else {
        (IpAddr::V4(Ipv4Addr { bits: 0 }), IpAddr::V4(Ipv4Addr { bits: 0x8000_0000 }))
    };
    items.push(
        Item::Step(
            RouteStep {
                action,
                dst: lower,
                prefix: 1,
                hop: Hop::Tun,
                purpose: Purpose::Split,
                required,
            },
        ),
    );
    items.push(
        Item::Step(
            RouteStep {
                action,
                dst: upper,
                prefix: 1,
                hop: Hop::Tun,
                purpose: Purpose::Split,
                required,
            },
        ),
    );
    assert(items@ =~= before + split_items(action, v6, required));
}

// ---------------------------------------------------------------------------
// Whole plans
// ---------------------------------------------------------------------------
/// The changes that put the tunnel into the routing table, where there is a
/// gateway towards the proxy.
pub open spec fn apply_items(
    proxy: IpAddr,
    hop: Hop,
    bypass: Seq<(IpAddr, u8)>,
    gateways: Gateways,
    capture_v6: bool,
) -> Seq<Item> {
    seq![Item::Step(host_step(RouteAction::Add, proxy, hop, true))] + bypass_items(
        RouteAction::Add,
        bypass,
        gateways,
        true,
        true,
    ) + split_items(RouteAction::Add, false, true) + (if capture_v6 {
        split_items(RouteAction::Add, true, true)
    } else {
        Seq::empty()
    })
}

pub fn push_apply(
    items: &mut Vec<Item>,
    proxy: IpAddr,
    hop: Hop,
    bypass: &[(IpAddr, u8)],
    gateways: &Gateways,
    capture_v6: bool,
)
    ensures
        final(items)@ == old(items)@ + apply_items(proxy, hop, bypass@, *gateways, capture_v6),
{
    let ghost before = items@;
    items.push(Item::Step(make_host_step(RouteAction::Add, proxy, hop, true)));
    push_bypass(items, RouteAction::Add, bypass, gateways, true, true);
    push_split(items, RouteAction::Add, false, true);
    if capture_v6 {
        push_split(items, RouteAction::Add, true, true);
    }
    assert(items@ =~= before + apply_items(proxy, hop, bypass@, *gateways, capture_v6));
}

/// The changes that move the way to the proxy, or what is said where there is
/// no gateway towards its new address.
pub open spec fn move_items(gateways: Gateways, change: Option<(IpAddr, IpAddr)>) -> Seq<Item> {
    match change {
        None => Seq::empty(),
        Some((from, to)) => (match gateways.spec_hop(from) {
            Some(hop) => seq![Item::Step(host_step(RouteAction::Delete, from, hop, false))],
            None => Seq::empty(),
        }) + (match gateways.spec_hop(to) {
            Some(hop) => seq![Item::Step(host_step(RouteAction::Add, to, hop, true))],
            None => seq![Item::NoGateway(to)],
        }),
    }
}

/// Whether there is a gateway towards the new address of the proxy.
pub open spec fn can_move(gateways: Gateways, change: Option<(IpAddr, IpAddr)>) -> bool {
    change matches Some((_, to)) ==> gateways.spec_hop(to) is Some
}

pub fn push_move(
    items: &mut Vec<Item>,
    gateways: &Gateways,
    change: Option<(IpAddr, IpAddr)>,
) -> (ok: bool)
    ensures
        final(items)@ == old(items)@ + move_items(*gateways, change),
        ok == can_move(*gateways, change),
{
    let ghost before = items@;
    match change {
        None => {
            assert(items@ =~= before + move_items(*gateways, change));
            true
        },
        Some((from, to)) => {
            match gateways.hop(from) {
                Some(hop) => {
                    items.push(
                        Item::Step(make_host_step(RouteAction::Delete, from, hop, false)),
                    );
                },
                None => {},
            }
            match gateways.hop(to) {
                Some(hop) => {
                    items.push(Item::Step(make_host_step(RouteAction::Add, to, hop, true)));
                    assert(items@ =~= before + move_items(*gateways, change));
                    true
                },
                None => {
                    items.push(Item::NoGateway(to));
                    assert(items@ =~= before + move_items(*gateways, change));
                    false
                },
            }
        },
    }
}

/// The changes that follow a change of the configuration: first those of the
/// way to the proxy, then the networks that no longer bypass the tunnel, then
/// those that newly do.
pub open spec fn reload_items(
    gateways: Gateways,
    change: Option<(IpAddr, IpAddr)>,
    remove: Seq<(IpAddr, u8)>,
    add: Seq<(IpAddr, u8)>,
    tell: bool,
) -> Seq<Item> {
    if can_move(gateways, change) {
        move_items(gateways, change) + bypass_items(
            RouteAction::Delete,
            remove,
            gateways,
            false,
            false,
        ) + bypass_items(RouteAction::Add, add, gateways, true, tell)
    } else {
        move_items(gateways, change)
    }
}

pub fn push_reload(
    items: &mut Vec<Item>,
    gateways: &Gateways,
    change: Option<(IpAddr, IpAddr)>,
    remove: &[(IpAddr, u8)],
    add: &[(IpAddr, u8)],
    tell: bool,
)
    ensures
        final(items)@ == old(items)@ + reload_items(*gateways, change, remove@, add@, tell),
{
    let ghost before = items@;
    let moved = push_move(items, gateways, change);
    if moved {
        push_bypass(items, RouteAction::Delete, remove, gateways, false, false);
        push_bypass(items, RouteAction::Add, add, gateways, true, tell);
    }
    assert(items@ =~= before + reload_items(*gateways, change, remove@, add@, tell));
}

/// The changes that take the tunnel out of the routing table.
pub open spec fn undo_items(
    proxy: IpAddr,
    bypass: Seq<(IpAddr, u8)>,
    gateways: Gateways,
    capture_v6: bool,
) -> Seq<Item> {
    (match gateways.spec_hop(proxy) {
        Some(hop) => seq![Item::Step(host_step(RouteAction::Delete, proxy, hop, false))],
        None => Seq::empty(),
    }) + bypass_items(RouteAction::Delete, bypass, gateways, false, false) + split_items(
        RouteAction::Delete,
        false,
        false,
    ) + (if capture_v6 {
        split_items(RouteAction::Delete, true, false)
    } else {
        Seq::empty()
    })
}

pub fn push_undo(
    items: &mut Vec<Item>,
    proxy: IpAddr,
    bypass: &[(IpAddr, u8)],
    gateways: &Gateways,
    capture_v6: bool,
)
    ensures
        final(items)@ == old(items)@ + undo_items(proxy, bypass@, *gateways, capture_v6),
{
    let ghost before = items@;
    match gateways.hop(proxy) {
        Some(hop) => {
            items.push(Item::Step(make_host_step(RouteAction::Delete, proxy, hop, false)));
        },
        None => {},
    }
    push_bypass(items, RouteAction::Delete, bypass, gateways, false, false);
    push_split(items, RouteAction::Delete, false, false);
    if capture_v6 {
        push_split(items, RouteAction::Delete, true, false);
    }
    assert(items@ =~= before + undo_items(proxy, bypass@, *gateways, capture_v6));
}

// ---------------------------------------------------------------------------
// The routing table
// ---------------------------------------------------------------------------
/// A routing table: where the route to each network leads.
pub type Table = Map<(IpAddr, u8), Hop>;

/// The table after a change that succeeds, or after one that fails because
/// there is no such route to delete.
pub open spec fn performed(t: Table, s: RouteStep) -> Table {
    let key = (s.dst, s.prefix);
    match s.action {
        RouteAction::Add => t.insert(key, s.hop),
        RouteAction::Delete => if t.dom().contains(key) && t[key] == s.hop {
            t.remove(key)
        } else {
            t
        },
    }
}

pub open spec fn performed_item(t: Table, item: Item) -> Table {
    match item {
        Item::Step(s) => performed(t, s),
        _ => t,
    }
}

/// The table after a whole plan.
pub open spec fn performed_all(t: Table, items: Seq<Item>) -> Table
    decreases items.len(),
{
    if items.len() == 0 {
        t
    } else {
        performed_item(performed_all(t, items.drop_last()), items.last())
    }
}

/// Whether a plan holds a change of this kind to the route of `key` to `hop`.
pub open spec fn has_step(
    items: Seq<Item>,
    action: RouteAction,
    key: (IpAddr, u8),
    hop: Hop,
) -> bool {
    exists|i: int| 0 <= i < items.len() && #[trigger] is_step(items[i], action, key, hop)
}

pub open spec fn is_step(item: Item, action: RouteAction, key: (IpAddr, u8), hop: Hop) -> bool {
    item matches Item::Step(s) && s.action == action && (s.dst, s.prefix) == key && s.hop == hop
}

/// Whether a plan changes no route that is in the table.
pub open spec fn leaves_alone(items: Seq<Item>, t: Table) -> bool {
    forall|i: int| 0 <= i < items.len() ==> item_leaves_alone(#[trigger] items[i], t)
}

pub open spec fn item_leaves_alone(item: Item, t: Table) -> bool {
    item matches Item::Step(s) ==> !t.dom().contains((s.dst, s.prefix))
}

/// Whether `t` is `before` and, beyond it, nothing but routes that the plan
/// `undo` deletes.
pub open spec fn owed(t: Table, before: Table, undo: Seq<Item>) -> bool {
    &&& forall|k: (IpAddr, u8)| #[trigger]
        before.dom().contains(k) ==> t.dom().contains(k) && t[k] == before[k]
    &&& forall|k: (IpAddr, u8)| #[trigger]
        t.dom().contains(k) && !before.dom().contains(k) ==> has_step(
            undo,
            RouteAction::Delete,
            k,
            t[k],
        )
}

/// Where the routes of a table after a plan come from: from the plan, or from
/// before it, and then the plan does not delete them.
pub proof fn lemma_origin(t: Table, items: Seq<Item>, k: (IpAddr, u8))
    ensures
        performed_all(t, items).dom().contains(k) ==> has_step(
            items,
            RouteAction::Add,
            k,
            performed_all(t, items)[k],
        ) || (t.dom().contains(k) && t[k] == performed_all(t, items)[k] && !has_step(
            items,
            RouteAction::Delete,
            k,
            t[k],
        )),
    decreases items.len(),
{
    let r = performed_all(t, items);
    if items.len() > 0 {
        let init = items.drop_last();
        let m = performed_all(t, init);
        lemma_origin(t, init, k);
        if r.dom().contains(k) {
            let last = items.last();
            if is_step(last, RouteAction::Add, k, r[k]) {
                assert(is_step(items[items.len() - 1], RouteAction::Add, k, r[k]));
            } else {
                assert(m.dom().contains(k) && m[k] == r[k]);
                if has_step(init, RouteAction::Add, k, m[k]) {
                    let i = choose|i: int|
                        0 <= i < init.len() && #[trigger] is_step(init[i], RouteAction::Add, k, m[k]);
                    assert(is_step(items[i], RouteAction::Add, k, r[k]));
                } else {
                    if has_step(items, RouteAction::Delete, k, t[k]) {
                        let i = choose|i: int|
                            0 <= i < items.len() && #[trigger] is_step(
                                items[i],
                                RouteAction::Delete,
                                k,
                                t[k],
                            );
                        if i < init.len() {
                            assert(is_step(init[i], RouteAction::Delete, k, t[k]));
                        }
                    }
                }
            }
        }
    }
}

/// Routes that a plan leaves alone stay.
pub proof fn lemma_untouched(t: Table, items: Seq<Item>, before: Table, k: (IpAddr, u8))
    requires
        leaves_alone(items, before),
        before.dom().contains(k),
        t.dom().contains(k),
    ensures
        performed_all(t, items).dom().contains(k),
        performed_all(t, items)[k] == t[k],
    decreases items.len(),
{
    if items.len() > 0 {
        let init = items.drop_last();
        assert forall|i: int| 0 <= i < init.len() implies item_leaves_alone(
            #[trigger] init[i],
            before,
        ) by {
            assert(init[i] == items[i]);
        }
        lemma_untouched(t, init, before, k);
        assert(item_leaves_alone(items[items.len() - 1], before));
    }
}

/// Deleting what is owed gives the table back as it was.
pub proof fn lemma_undo_restores(t: Table, before: Table, undo: Seq<Item>)
    requires
        owed(t, before, undo),
        leaves_alone(undo, before),
        forall|i: int, key: (IpAddr, u8), hop: Hop|
            0 <= i < undo.len() ==> !#[trigger] is_step(undo[i], RouteAction::Add, key, hop),
    ensures
        performed_all(t, undo) == before,
{
    let r = performed_all(t, undo);
    assert forall|k: (IpAddr, u8)| #[trigger] r.dom().contains(k) == before.dom().contains(k) by {
        lemma_origin(t, undo, k);
        if before.dom().contains(k) {
            lemma_untouched(t, undo, before, k);
        } else if r.dom().contains(k) {
            assert(t.dom().contains(k) && !before.dom().contains(k));
        }
    }
    assert forall|k: (IpAddr, u8)| before.dom().contains(k) implies r[k] == before[k] by {
        lemma_untouched(t, undo, before, k);
    }
    assert(r =~= before);
}

/// A plan leaves owed what `undo` deletes, where `undo` deletes each route
/// that the plan adds, and each that was owed before and that the plan does
/// not delete.
pub proof fn lemma_plan_stays_owed(
    t: Table,
    before: Table,
    old_undo: Seq<Item>,
    items: Seq<Item>,
    undo: Seq<Item>,
)
    requires
        owed(t, before, old_undo),
        leaves_alone(items, before),
        forall|k: (IpAddr, u8), hop: Hop|
            has_step(items, RouteAction::Add, k, hop) ==> has_step(
                undo,
                RouteAction::Delete,
                k,
                hop,
            ),
        forall|k: (IpAddr, u8), hop: Hop|
            has_step(old_undo, RouteAction::Delete, k, hop) ==> has_step(
                undo,
                RouteAction::Delete,
                k,
                hop,
            ) || has_step(items, RouteAction::Delete, k, hop),
    ensures
        owed(performed_all(t, items), before, undo),
{
    let r = performed_all(t, items);
    assert forall|k: (IpAddr, u8)| #[trigger] before.dom().contains(k) implies r.dom().contains(k)
        && r[k] == before[k] by {
        lemma_untouched(t, items, before, k);
    }
    assert forall|k: (IpAddr, u8)| #[trigger] r.dom().contains(k) && !before.dom().contains(
        k,
    ) implies has_step(undo, RouteAction::Delete, k, r[k]) by {
        lemma_origin(t, items, k);
    }
}

// ---------------------------------------------------------------------------
// What plans hold
// ---------------------------------------------------------------------------
/// A plan that is made of two.
pub proof fn lemma_has_step_concat(
    a: Seq<Item>,
    b: Seq<Item>,
    action: RouteAction,
    key: (IpAddr, u8),
    hop: Hop,
)
    ensures
        has_step(a + b, action, key, hop) == (has_step(a, action, key, hop) || has_step(
            b,
            action,
            key,
            hop,
        )),
{
    let c = a + b;
    if has_step(a, action, key, hop) {
        let i = choose|i: int| 0 <= i < a.len() && #[trigger] is_step(a[i], action, key, hop);
        assert(is_step(c[i], action, key, hop));
    }
    if has_step(b, action, key, hop) {
        let i = choose|i: int| 0 <= i < b.len() && #[trigger] is_step(b[i], action, key, hop);
        assert(is_step(c[i + a.len()], action, key, hop));
    }
    if has_step(c, action, key, hop) {
        let i = choose|i: int| 0 <= i < c.len() && #[trigger] is_step(c[i], action, key, hop);
        if i < a.len() {
            assert(is_step(a[i], action, key, hop));
        } else {
            assert(is_step(b[i - a.len()], action, key, hop));
        }
    }
}

/// A plan for networks that bypass the tunnel changes the route of each that
/// has a gateway, and no other.
pub proof fn lemma_bypass_steps(
    action: RouteAction,
    list: Seq<(IpAddr, u8)>,
    gateways: Gateways,
    required: bool,
    tell: bool,
    wanted: RouteAction,
    key: (IpAddr, u8),
    hop: Hop,
)
    ensures
        has_step(bypass_items(action, list, gateways, required, tell), wanted, key, hop) == (action
            == wanted && list.contains(key) && gateways.spec_hop(key.0) == Some(hop)),
    decreases list.len(),
{
    let items = bypass_items(action, list, gateways, required, tell);
    if list.len() == 0 {
        assert(items =~= Seq::<Item>::empty());
    } else {
        let init = list.drop_last();
        let last = list.last();
        lemma_bypass_steps(action, init, gateways, required, tell, wanted, key, hop);
        let part = bypass_item(action, last, gateways, required, tell);
        lemma_has_step_concat(
            bypass_items(action, init, gateways, required, tell),
            part,
            wanted,
            key,
            hop,
        );
        assert(has_step(part, wanted, key, hop) == (action == wanted && last == key
            && gateways.spec_hop(key.0) == Some(hop))) by {
            if action == wanted && last == key && gateways.spec_hop(key.0) == Some(hop) {
                assert(is_step(part[0], wanted, key, hop));
            }
        }
        if list.contains(key) {
            let i = choose|i: int| 0 <= i < list.len() && list[i] == key;
            if i < init.len() {
                assert(init[i] == key);
            }
        }
        if init.contains(key) {
            let i = choose|i: int| 0 <= i < init.len() && init[i] == key;
            assert(list[i] == key);
        }
        assert(list[list.len() - 1] == last);
    }
}

/// A plan for both halves of a family.
pub proof fn lemma_split_steps(
    action: RouteAction,
    v6: bool,
    required: bool,
    wanted: RouteAction,
    key: (IpAddr, u8),
    hop: Hop,
)
    ensures
        has_step(split_items(action, v6, required), wanted, key, hop) == (action == wanted && hop
            == Hop::Tun && (key == (half(v6, false), 1u8) || key == (half(v6, true), 1u8))),
{
    let items = split_items(action, v6, required);
    assert(items.len() == 2);
    if action == wanted && hop == Hop::Tun {
        if key == (half(v6, false), 1u8) {
            assert(is_step(items[0], wanted, key, hop));
        }
        if key == (half(v6, true), 1u8) {
            assert(is_step(items[1], wanted, key, hop));
        }
    }
}

/// A plan of one change.
pub proof fn lemma_single_step(
    s: RouteStep,
    wanted: RouteAction,
    key: (IpAddr, u8),
    hop: Hop,
)
    ensures
        has_step(seq![Item::Step(s)], wanted, key, hop) == (s.action == wanted && key == (
            s.dst,
            s.prefix,
        ) && s.hop == hop),
{
    let items = seq![Item::Step(s)];
    if s.action == wanted && key == (s.dst, s.prefix) && s.hop == hop {
        assert(is_step(items[0], wanted, key, hop));
    }
}

/// A plan leaves a table alone exactly where none of its changes, of either
/// kind, is to a route in it.
pub proof fn lemma_leaves_alone(items: Seq<Item>, t: Table)
    requires
        forall|action: RouteAction, k: (IpAddr, u8), hop: Hop|
            has_step(items, action, k, hop) ==> !t.dom().contains(k),
    ensures
        leaves_alone(items, t),
{
    assert forall|i: int| 0 <= i < items.len() implies item_leaves_alone(#[trigger] items[i], t) by {
        if let Item::Step(s) = items[i] {
            assert(is_step(items[i], s.action, (s.dst, s.prefix), s.hop));
            assert(has_step(items, s.action, (s.dst, s.prefix), s.hop));
        }
    }
}

pub proof fn lemma_no_step_in_empty(action: RouteAction, key: (IpAddr, u8), hop: Hop)
    ensures
        !has_step(Seq::<Item>::empty(), action, key, hop),
{
}

// ---------------------------------------------------------------------------
// What the plans come to
// ---------------------------------------------------------------------------
/// Whether the tunnel has a route to `key` that leads to `hop`.
pub open spec fn is_ours(
    proxy: IpAddr,
    bypass: Seq<(IpAddr, u8)>,
    gateways: Gateways,
    capture_v6: bool,
    key: (IpAddr, u8),
    hop: Hop,
) -> bool {
    ||| key == (proxy, host_bits(proxy)) && gateways.spec_hop(proxy) == Some(hop)
    ||| bypass.contains(key) && gateways.spec_hop(key.0) == Some(hop)
    ||| hop == Hop::Tun && (key == (half(false, false), 1u8) || key == (half(false, true), 1u8))
    ||| capture_v6 && hop == Hop::Tun && (key == (half(true, false), 1u8) || key == (
        half(true, true),
        1u8,
    ))
}

/// What the plan that takes the tunnel out deletes.
pub proof fn lemma_undo_steps(
    proxy: IpAddr,
    bypass: Seq<(IpAddr, u8)>,
    gateways: Gateways,
    capture_v6: bool,
    action: RouteAction,
    key: (IpAddr, u8),
    hop: Hop,
)
    ensures
        has_step(undo_items(proxy, bypass, gateways, capture_v6), action, key, hop) == (action
            == RouteAction::Delete && is_ours(proxy, bypass, gateways, capture_v6, key, hop)),
{
    let a = match gateways.spec_hop(proxy) {
        Some(h) => seq![Item::Step(host_step(RouteAction::Delete, proxy, h, false))],
        None => Seq::empty(),
    };
    let b = bypass_items(RouteAction::Delete, bypass, gateways, false, false);
    let c = split_items(RouteAction::Delete, false, false);
    let d = if capture_v6 {
        split_items(RouteAction::Delete, true, false)
    } else {
        Seq::empty()
    };
    lemma_has_step_concat(a + b + c, d, action, key, hop);
    lemma_has_step_concat(a + b, c, action, key, hop);
    lemma_has_step_concat(a, b, action, key, hop);
    match gateways.spec_hop(proxy) {
        Some(h) => {
            lemma_single_step(
                host_step(RouteAction::Delete, proxy, h, false),
                action,
                key,
                hop,
            );
        },
        None => {
            lemma_no_step_in_empty(action, key, hop);
        },
    }
    lemma_bypass_steps(
        RouteAction::Delete,
        bypass,
        gateways,
        false,
        false,
        action,
        key,
        hop,
    );
    lemma_split_steps(RouteAction::Delete, false, false, action, key, hop);
    if capture_v6 {
        lemma_split_steps(RouteAction::Delete, true, false, action, key, hop);
    } else {
        lemma_no_step_in_empty(action, key, hop);
    }
}

/// What the plan that puts the tunnel in adds.
pub proof fn lemma_apply_steps(
    proxy: IpAddr,
    hop: Hop,
    bypass: Seq<(IpAddr, u8)>,
    gateways: Gateways,
    capture_v6: bool,
    action: RouteAction,
    key: (IpAddr, u8),
    to: Hop,
)
    requires
        gateways.spec_hop(proxy) == Some(hop),
    ensures
        has_step(apply_items(proxy, hop, bypass, gateways, capture_v6), action, key, to) == (action
            == RouteAction::Add && is_ours(proxy, bypass, gateways, capture_v6, key, to)),
{
    let a = seq![Item::Step(host_step(RouteAction::Add, proxy, hop, true))];
    let b = bypass_items(RouteAction::Add, bypass, gateways, true, true);
    let c = split_items(RouteAction::Add, false, true);
    let d = if capture_v6 {
        split_items(RouteAction::Add, true, true)
    } else {
        Seq::empty()
    };
    lemma_has_step_concat(a + b + c, d, action, key, to);
    lemma_has_step_concat(a + b, c, action, key, to);
    lemma_has_step_concat(a, b, action, key, to);
    lemma_single_step(host_step(RouteAction::Add, proxy, hop, true), action, key, to);
    lemma_bypass_steps(RouteAction::Add, bypass, gateways, true, true, action, key, to);
    lemma_split_steps(RouteAction::Add, false, true, action, key, to);
    if capture_v6 {
        lemma_split_steps(RouteAction::Add, true, true, action, key, to);
    } else {
        lemma_no_step_in_empty(action, key, to);
    }
}

/// Whether no route of the tunnel stands in the table.
pub open spec fn none_ours(
    proxy: IpAddr,
    bypass: Seq<(IpAddr, u8)>,
    gateways: Gateways,
    capture_v6: bool,
    t: Table,
) -> bool {
    forall|k: (IpAddr, u8), hop: Hop| #[trigger]
        is_ours(proxy, bypass, gateways, capture_v6, k, hop) ==> !t.dom().contains(k)
}

/// Putting the tunnel into a table that has none of its routes leaves owed
/// what taking it out deletes. `led` tells whether IPv6 was led into it, and
/// `capture_v6` whether it was to be.
pub proof fn lemma_apply_is_owed(
    proxy: IpAddr,
    hop: Hop,
    bypass: Seq<(IpAddr, u8)>,
    gateways: Gateways,
    led: bool,
    capture_v6: bool,
    before: Table,
)
    requires
        gateways.spec_hop(proxy) == Some(hop),
        led ==> capture_v6,
        none_ours(proxy, bypass, gateways, capture_v6, before),
    ensures
        owed(
            performed_all(before, apply_items(proxy, hop, bypass, gateways, led)),
            before,
            undo_items(proxy, bypass, gateways, capture_v6),
        ),
{
    let items = apply_items(proxy, hop, bypass, gateways, led);
    let undo = undo_items(proxy, bypass, gateways, capture_v6);
    assert forall|action: RouteAction, k: (IpAddr, u8), h: Hop|
        has_step(items, action, k, h) implies !before.dom().contains(k) by {
        lemma_apply_steps(proxy, hop, bypass, gateways, led, action, k, h);
        assert(is_ours(proxy, bypass, gateways, capture_v6, k, h));
    }
    lemma_leaves_alone(items, before);
    assert forall|k: (IpAddr, u8), h: Hop| has_step(items, RouteAction::Add, k, h) implies has_step(
        undo,
        RouteAction::Delete,
        k,
        h,
    ) by {
        lemma_apply_steps(proxy, hop, bypass, gateways, led, RouteAction::Add, k, h);
        lemma_undo_steps(proxy, bypass, gateways, capture_v6, RouteAction::Delete, k, h);
    }
    assert(owed(before, before, Seq::<Item>::empty()));
    lemma_plan_stays_owed(before, before, Seq::<Item>::empty(), items, undo);
}

/// Taking the tunnel out of a table in which its routes are owed gives the
/// table back as it was.
pub proof fn lemma_teardown_restores(
    proxy: IpAddr,
    bypass: Seq<(IpAddr, u8)>,
    gateways: Gateways,
    capture_v6: bool,
    t: Table,
    before: Table,
)
    requires
        owed(t, before, undo_items(proxy, bypass, gateways, capture_v6)),
        none_ours(proxy, bypass, gateways, capture_v6, before),
    ensures
        performed_all(t, undo_items(proxy, bypass, gateways, capture_v6)) == before,
{
    let undo = undo_items(proxy, bypass, gateways, capture_v6);
    assert forall|action: RouteAction, k: (IpAddr, u8), h: Hop|
        has_step(undo, action, k, h) implies !before.dom().contains(k) by {
        lemma_undo_steps(proxy, bypass, gateways, capture_v6, action, k, h);
        assert(is_ours(proxy, bypass, gateways, capture_v6, k, h));
    }
    lemma_leaves_alone(undo, before);
    assert forall|i: int, key: (IpAddr, u8), hop: Hop| 0 <= i < undo.len() implies !#[trigger] is_step(
        undo[i],
        RouteAction::Add,
        key,
        hop,
    ) by {
        lemma_undo_steps(proxy, bypass, gateways, capture_v6, RouteAction::Add, key, hop);
        if is_step(undo[i], RouteAction::Add, key, hop) {
            assert(has_step(undo, RouteAction::Add, key, hop));
        }
    }
    lemma_undo_restores(t, before, undo);
}

proof fn lemma_move_steps(
    gateways: Gateways,
    change: Option<(IpAddr, IpAddr)>,
    action: RouteAction,
    key: (IpAddr, u8),
    hop: Hop,
)
    ensures
        has_step(move_items(gateways, change), action, key, hop) == (match change {
            Some((from, to)) => {
                ||| action == RouteAction::Delete && key == (from, host_bits(from))
                    && gateways.spec_hop(from) == Some(hop)
                ||| action == RouteAction::Add && key == (to, host_bits(to)) && gateways.spec_hop(
                    to,
                ) == Some(hop)
            },
            None => false,
        }),
{
    match change {
        Some((from, to)) => {
            let a = match gateways.spec_hop(from) {
                Some(h) => seq![Item::Step(host_step(RouteAction::Delete, from, h, false))],
                None => Seq::empty(),
            };
            let b = match gateways.spec_hop(to) {
                Some(h) => seq![Item::Step(host_step(RouteAction::Add, to, h, true))],
                None => seq![Item::NoGateway(to)],
            };
            lemma_has_step_concat(a, b, action, key, hop);
            match gateways.spec_hop(from) {
                Some(h) => {
                    lemma_single_step(
                        host_step(RouteAction::Delete, from, h, false),
                        action,
                        key,
                        hop,
                    );
                },
                None => {
                    lemma_no_step_in_empty(action, key, hop);
                },
            }
            match gateways.spec_hop(to) {
                Some(h) => {
                    lemma_single_step(
                        host_step(RouteAction::Add, to, h, true),
                        action,
                        key,
                        hop,
                    );
                },
                None => {
                    assert(!has_step(b, action, key, hop));
                },
            }
        },
        None => {
            lemma_no_step_in_empty(action, key, hop);
        },
    }
}

proof fn lemma_reload_steps(
    gateways: Gateways,
    change: Option<(IpAddr, IpAddr)>,
    remove: Seq<(IpAddr, u8)>,
    add: Seq<(IpAddr, u8)>,
    tell: bool,
    action: RouteAction,
    key: (IpAddr, u8),
    hop: Hop,
)
    requires
        can_move(gateways, change),
    ensures
        has_step(reload_items(gateways, change, remove, add, tell), action, key, hop) == ({
            ||| has_step(move_items(gateways, change), action, key, hop)
            ||| action == RouteAction::Delete && remove.contains(key) && gateways.spec_hop(key.0)
                == Some(hop)
            ||| action == RouteAction::Add && add.contains(key) && gateways.spec_hop(key.0)
                == Some(hop)
        }),
{
    let a = move_items(gateways, change);
    let b = bypass_items(RouteAction::Delete, remove, gateways, false, false);
    let c = bypass_items(RouteAction::Add, add, gateways, true, tell);
    lemma_has_step_concat(a + b, c, action, key, hop);
    lemma_has_step_concat(a, b, action, key, hop);
    lemma_bypass_steps(
        RouteAction::Delete,
        remove,
        gateways,
        false,
        false,
        action,
        key,
        hop,
    );
    lemma_bypass_steps(RouteAction::Add, add, gateways, true, tell, action, key, hop);
}

/// The address of the proxy after a change.
pub open spec fn moved_proxy(proxy: IpAddr, change: Option<(IpAddr, IpAddr)>) -> IpAddr {
    match change {
        Some((_, to)) => to,
        None => proxy,
    }
}

/// Whether the routes are those of a configuration: the way to its proxy, and
/// its networks, in any order.
pub open spec fn serves(proxy: IpAddr, bypass: Seq<(IpAddr, u8)>, cfg: Config) -> bool {
    &&& proxy == cfg.spec_proxy_addr().spec_ip()
    &&& same_networks(bypass, cfg.spec_bypass())
}

/// Whether two lists hold the same networks.
pub open spec fn same_networks(a: Seq<(IpAddr, u8)>, b: Seq<(IpAddr, u8)>) -> bool {
    forall|k: (IpAddr, u8)| #![trigger a.contains(k)] #![trigger b.contains(k)]
        a.contains(k) == b.contains(k)
}

/// Whether removing and adding networks leads from one list to another.
pub open spec fn leads_over(
    from: Seq<(IpAddr, u8)>,
    to: Seq<(IpAddr, u8)>,
    remove: Seq<(IpAddr, u8)>,
    add: Seq<(IpAddr, u8)>,
) -> bool {
    &&& forall|k: (IpAddr, u8)| #[trigger]
        remove.contains(k) == (from.contains(k) && !to.contains(k))
    &&& forall|k: (IpAddr, u8)| #[trigger] add.contains(k) == (to.contains(k) && !from.contains(k))
}

/// Routes that are those of the old configuration are led to those of the new
/// one by the plan for the change.
pub proof fn lemma_plan_leads_over(
    bypass: Seq<(IpAddr, u8)>,
    plan: ReloadPlan,
    from: Config,
    to: Config,
)
    requires
        same_networks(bypass, from.spec_bypass()),
        plan.leads(from, to),
    ensures
        leads_over(bypass, plan.new_bypass@, plan.bypass_remove@, plan.bypass_add@),
{
    assert forall|k: (IpAddr, u8)| #[trigger] plan.bypass_remove@.contains(k) == (bypass.contains(k)
        && !plan.new_bypass@.contains(k)) by {
        net::lemma_missing_contains(from.spec_bypass(), to.spec_bypass(), k);
    }
    assert forall|k: (IpAddr, u8)| #[trigger] plan.bypass_add@.contains(k) == (
    plan.new_bypass@.contains(k) && !bypass.contains(k)) by {
        net::lemma_missing_contains(to.spec_bypass(), from.spec_bypass(), k);
    }
}

/// Routes that are those of a configuration are those of any other one that
/// asks for no change.
pub proof fn lemma_no_change_serves(
    proxy: IpAddr,
    bypass: Seq<(IpAddr, u8)>,
    from: Config,
    to: Config,
)
    requires
        serves(proxy, bypass, from),
        reload::asks_nothing(from, to),
    ensures
        serves(proxy, bypass, to),
{
    assert forall|k: (IpAddr, u8)| #[trigger] bypass.contains(k) == to.spec_bypass().contains(k) by {
        net::lemma_missing_contains(from.spec_bypass(), to.spec_bypass(), k);
        net::lemma_missing_contains(to.spec_bypass(), from.spec_bypass(), k);
    }
}

/// A change of the configuration that went through leaves owed what taking the
/// tunnel out deletes from then on.
pub proof fn lemma_reload_stays_owed(
    proxy: IpAddr,
    old_bypass: Seq<(IpAddr, u8)>,
    new_bypass: Seq<(IpAddr, u8)>,
    gateways: Gateways,
    capture_v6: bool,
    change: Option<(IpAddr, IpAddr)>,
    remove: Seq<(IpAddr, u8)>,
    add: Seq<(IpAddr, u8)>,
    tell: bool,
    t: Table,
    before: Table,
)
    requires
        can_move(gateways, change),
        change matches Some((from, _)) ==> from == proxy,
        leads_over(old_bypass, new_bypass, remove, add),
        owed(t, before, undo_items(proxy, old_bypass, gateways, capture_v6)),
        none_ours(proxy, old_bypass, gateways, capture_v6, before),
        none_ours(moved_proxy(proxy, change), new_bypass, gateways, capture_v6, before),
    ensures
        owed(
            performed_all(t, reload_items(gateways, change, remove, add, tell)),
            before,
            undo_items(moved_proxy(proxy, change), new_bypass, gateways, capture_v6),
        ),
{
    let items = reload_items(gateways, change, remove, add, tell);
    let new_proxy = moved_proxy(proxy, change);
    let old_undo = undo_items(proxy, old_bypass, gateways, capture_v6);
    let undo = undo_items(new_proxy, new_bypass, gateways, capture_v6);
    assert forall|action: RouteAction, k: (IpAddr, u8), h: Hop|
        has_step(items, action, k, h) implies !before.dom().contains(k) by {
        lemma_reload_steps(gateways, change, remove, add, tell, action, k, h);
        lemma_move_steps(gateways, change, action, k, h);
        assert(is_ours(proxy, old_bypass, gateways, capture_v6, k, h) || is_ours(
            new_proxy,
            new_bypass,
            gateways,
            capture_v6,
            k,
            h,
        ));
    }
    lemma_leaves_alone(items, before);
    assert forall|k: (IpAddr, u8), h: Hop| has_step(items, RouteAction::Add, k, h) implies has_step(
        undo,
        RouteAction::Delete,
        k,
        h,
    ) by {
        lemma_reload_steps(gateways, change, remove, add, tell, RouteAction::Add, k, h);
        lemma_move_steps(gateways, change, RouteAction::Add, k, h);
        lemma_undo_steps(new_proxy, new_bypass, gateways, capture_v6, RouteAction::Delete, k, h);
    }
    assert forall|k: (IpAddr, u8), h: Hop| has_step(
        old_undo,
        RouteAction::Delete,
        k,
        h,
    ) implies has_step(undo, RouteAction::Delete, k, h) || has_step(
        items,
        RouteAction::Delete,
        k,
        h,
    ) by {
        lemma_undo_steps(proxy, old_bypass, gateways, capture_v6, RouteAction::Delete, k, h);
        lemma_undo_steps(new_proxy, new_bypass, gateways, capture_v6, RouteAction::Delete, k, h);
        lemma_reload_steps(gateways, change, remove, add, tell, RouteAction::Delete, k, h);
        lemma_move_steps(gateways, change, RouteAction::Delete, k, h);
    }
    lemma_plan_stays_owed(t, before, old_undo, items, undo);
}

/// A route stands where a plan adds it, does not delete it, and adds no other
/// one to the same network.
pub proof fn lemma_added_route_stands(t: Table, items: Seq<Item>, k: (IpAddr, u8), hop: Hop)
    requires
        has_step(items, RouteAction::Add, k, hop) || (t.dom().contains(k) && t[k] == hop),
        forall|h: Hop| has_step(items, RouteAction::Add, k, h) ==> h == hop,
        forall|h: Hop| !has_step(items, RouteAction::Delete, k, h),
    ensures
        performed_all(t, items).dom().contains(k),
        performed_all(t, items)[k] == hop,
    decreases items.len(),
{
    if items.len() > 0 {
        let init = items.drop_last();
        let last = items.last();
        let n = items.len() - 1;
        assert forall|a: RouteAction, h: Hop| has_step(init, a, k, h) implies has_step(
            items,
            a,
            k,
            h,
        ) by {
            let i = choose|i: int| 0 <= i < init.len() && #[trigger] is_step(init[i], a, k, h);
            assert(is_step(items[i], a, k, h));
        }
        if let Item::Step(s) = last {
            if (s.dst, s.prefix) == k {
                assert(is_step(items[n], s.action, k, s.hop));
                assert(has_step(items, s.action, k, s.hop));
            }
        }
        if !is_step(last, RouteAction::Add, k, hop) {
            if has_step(items, RouteAction::Add, k, hop) {
                let i = choose|i: int|
                    0 <= i < items.len() && #[trigger] is_step(items[i], RouteAction::Add, k, hop);
                assert(i < n);
                assert(is_step(init[i], RouteAction::Add, k, hop));
            }
            lemma_added_route_stands(t, init, k, hop);
        }
    }
}

/// Once the tunnel is in the table, the way to the proxy leads to the gateway,
/// not into the tunnel.
pub proof fn lemma_proxy_stays_outside(
    proxy: IpAddr,
    hop: Hop,
    bypass: Seq<(IpAddr, u8)>,
    gateways: Gateways,
    led: bool,
    before: Table,
)
    requires
        gateways.spec_hop(proxy) == Some(hop),
    ensures
        ({
            let t = performed_all(before, apply_items(proxy, hop, bypass, gateways, led));
            t.dom().contains((proxy, host_bits(proxy))) && t[(proxy, host_bits(proxy))] == hop
        }),
{
    let items = apply_items(proxy, hop, bypass, gateways, led);
    let k = (proxy, host_bits(proxy));
    assert forall|h: Hop| has_step(items, RouteAction::Add, k, h) implies h == hop by {
        lemma_apply_steps(proxy, hop, bypass, gateways, led, RouteAction::Add, k, h);
    }
    assert forall|h: Hop| !has_step(items, RouteAction::Delete, k, h) by {
        lemma_apply_steps(proxy, hop, bypass, gateways, led, RouteAction::Delete, k, h);
    }
    lemma_apply_steps(proxy, hop, bypass, gateways, led, RouteAction::Add, k, hop);
    lemma_added_route_stands(before, items, k, hop);
}

/// A change of the configuration keeps the way to the proxy out of the tunnel,
/// unless it takes the very address of the proxy off the networks that bypass
/// the tunnel.
pub proof fn lemma_reload_keeps_proxy_outside(
    proxy: IpAddr,
    hop: Hop,
    gateways: Gateways,
    change: Option<(IpAddr, IpAddr)>,
    remove: Seq<(IpAddr, u8)>,
    add: Seq<(IpAddr, u8)>,
    tell: bool,
    t: Table,
)
    requires
        can_move(gateways, change),
        change matches Some((from, to)) ==> from == proxy && from != to,
        t.dom().contains((proxy, host_bits(proxy))),
        t[(proxy, host_bits(proxy))] == hop,
        gateways.spec_hop(proxy) == Some(hop),
        !remove.contains((moved_proxy(proxy, change), host_bits(moved_proxy(proxy, change)))),
    ensures
        ({
            let after = performed_all(t, reload_items(gateways, change, remove, add, tell));
            let p = moved_proxy(proxy, change);
            after.dom().contains((p, host_bits(p))) && Some(after[(p, host_bits(p))])
                == gateways.spec_hop(p)
        }),
{
    let items = reload_items(gateways, change, remove, add, tell);
    let p = moved_proxy(proxy, change);
    let k = (p, host_bits(p));
    let target = gateways.spec_hop(p)->0;
    assert forall|h: Hop| has_step(items, RouteAction::Add, k, h) implies h == target by {
        lemma_reload_steps(gateways, change, remove, add, tell, RouteAction::Add, k, h);
        lemma_move_steps(gateways, change, RouteAction::Add, k, h);
    }
    assert forall|h: Hop| !has_step(items, RouteAction::Delete, k, h) by {
        lemma_reload_steps(gateways, change, remove, add, tell, RouteAction::Delete, k, h);
        lemma_move_steps(gateways, change, RouteAction::Delete, k, h);
    }
    lemma_reload_steps(gateways, change, remove, add, tell, RouteAction::Add, k, target);
    lemma_move_steps(gateways, change, RouteAction::Add, k, target);
    lemma_added_route_stands(t, items, k, target);
}

proof fn lemma_performed_concat(t: Table, a: Seq<Item>, b: Seq<Item>)
    ensures
        performed_all(t, a + b) == performed_all(performed_all(t, a), b),
    decreases b.len(),
{
    if b.len() == 0 {
        assert(a + b =~= a);
    } else {
        lemma_performed_concat(t, a, b.drop_last());
        assert((a + b).drop_last() =~= a + b.drop_last());
    }
}

/// Once the tunnel is in the table, both halves of IPv4 lead into it, and so
/// do those of IPv6 where it is led there.
pub proof fn lemma_halves_lead_into_tunnel(
    proxy: IpAddr,
    hop: Hop,
    bypass: Seq<(IpAddr, u8)>,
    gateways: Gateways,
    led: bool,
    before: Table,
    v6: bool,
    upper: bool,
)
    requires
        v6 ==> led,
    ensures
        ({
            let t = performed_all(before, apply_items(proxy, hop, bypass, gateways, led));
            t.dom().contains((half(v6, upper), 1u8)) && t[(half(v6, upper), 1u8)] == Hop::Tun
        }),
{
    let first = seq![Item::Step(host_step(RouteAction::Add, proxy, hop, true))] + bypass_items(
        RouteAction::Add,
        bypass,
        gateways,
        true,
        true,
    );
    let c = split_items(RouteAction::Add, false, true);
    let d = if led {
        split_items(RouteAction::Add, true, true)
    } else {
        Seq::empty()
    };
    let k = (half(v6, upper), 1u8);
    assert(apply_items(proxy, hop, bypass, gateways, led) =~= first + (c + d));
    lemma_performed_concat(before, first, c + d);
    assert forall|a: RouteAction, h: Hop| has_step(c + d, a, k, h) implies a == RouteAction::Add
        && h == Hop::Tun by {
        lemma_has_step_concat(c, d, a, k, h);
        lemma_split_steps(RouteAction::Add, false, true, a, k, h);
        lemma_split_steps(RouteAction::Add, true, true, a, k, h);
        lemma_no_step_in_empty(a, k, h);
    }
    lemma_has_step_concat(c, d, RouteAction::Add, k, Hop::Tun);
    lemma_split_steps(RouteAction::Add, false, true, RouteAction::Add, k, Hop::Tun);
    lemma_split_steps(RouteAction::Add, true, true, RouteAction::Add, k, Hop::Tun);
    lemma_added_route_stands(performed_all(before, first), c + d, k, Hop::Tun);
}

// ---------------------------------------------------------------------------
// Which way traffic goes
// ---------------------------------------------------------------------------
/// Whether traffic to `a` takes the route of `k`: that with the longest prefix
/// among those that `a` lies in.
pub open spec fn takes(t: Table, k: (IpAddr, u8), a: IpAddr) -> bool {
    &&& t.dom().contains(k)
    &&& net::covers(k.0, k.1, a)
    &&& forall|o: (IpAddr, u8)| #[trigger]
        t.dom().contains(o) && net::covers(o.0, o.1, a) ==> o.1 <= k.1
}

/// Whether the table is `before` with the routes of the tunnel in it, all of
/// them. `led` tells whether IPv6 is led into the tunnel.
pub open spec fn in_place(
    t: Table,
    before: Table,
    proxy: IpAddr,
    bypass: Seq<(IpAddr, u8)>,
    gateways: Gateways,
    led: bool,
) -> bool {
    &&& forall|k: (IpAddr, u8)| #[trigger]
        t.dom().contains(k) ==> (before.dom().contains(k) && t[k] == before[k]) || is_ours(
            proxy,
            bypass,
            gateways,
            led,
            k,
            t[k],
        )
    &&& forall|k: (IpAddr, u8), hop: Hop| #[trigger]
        is_ours(proxy, bypass, gateways, led, k, hop) ==> t.dom().contains(k) && t[k] == hop
}

/// Whether no network is as wide as a half of all addresses.
pub open spec fn all_narrow(bypass: Seq<(IpAddr, u8)>) -> bool {
    forall|i: int| 0 <= i < bypass.len() ==> (#[trigger] bypass[i]).1 >= 2
}

/// Whether `a` lies in a network that is to bypass the tunnel, and that there
/// is a gateway to.
pub open spec fn is_bypassed(bypass: Seq<(IpAddr, u8)>, gateways: Gateways, a: IpAddr) -> bool {
    exists|i: int| 0 <= i < bypass.len() && #[trigger] leads_out(bypass[i], gateways, a)
}

pub open spec fn leads_out(e: (IpAddr, u8), gateways: Gateways, a: IpAddr) -> bool {
    gateways.spec_hop(e.0) is Some && net::covers(e.0, e.1, a)
}

/// Whether no gateway is the tunnel itself, and no route leads into it.
pub open spec fn all_outside(gateways: Gateways, before: Table) -> bool {
    &&& gateways.v4 != Some(Hop::Tun)
    &&& gateways.v6 != Some(Hop::Tun)
    &&& forall|k: (IpAddr, u8)| #[trigger] before.dom().contains(k) ==> before[k] != Hop::Tun
}

/// Every address lies in one half of its family.
pub proof fn lemma_halves_cover_all(a: IpAddr)
    ensures
        net::covers(half(a is V6, false), 1, a) || net::covers(half(a is V6, true), 1, a),
{
    net::lemma_first_bit(a);
}

/// With the tunnel in place, traffic to the proxy and to the networks that
/// bypass the tunnel goes past it, and all other traffic goes into it: of
/// IPv4, and of IPv6 where that is led there, as far as there was nothing but a
/// default route to it before.
pub proof fn lemma_traffic_takes_its_way(
    t: Table,
    before: Table,
    proxy: IpAddr,
    bypass: Seq<(IpAddr, u8)>,
    gateways: Gateways,
    led: bool,
    a: IpAddr,
    k: (IpAddr, u8),
)
    requires
        in_place(t, before, proxy, bypass, gateways, led),
        all_narrow(bypass),
        all_outside(gateways, before),
        takes(t, k, a),
    ensures
        is_bypassed(bypass, gateways, a) ==> t[k] != Hop::Tun,
        a == proxy && gateways.spec_hop(proxy) is Some ==> t[k] != Hop::Tun,
        ({
            &&& a is V6 ==> led
            &&& a != proxy
            &&& !is_bypassed(bypass, gateways, a)
            &&& forall|o: (IpAddr, u8)| #[trigger]
                before.dom().contains(o) && net::covers(o.0, o.1, a) ==> o.1 == 0
        }) ==> t[k] == Hop::Tun,
{
    if is_bypassed(bypass, gateways, a) {
        let i = choose|i: int| 0 <= i < bypass.len() && #[trigger] leads_out(bypass[i], gateways, a);
        let e = bypass[i];
        assert(bypass.contains(e));
        assert(is_ours(proxy, bypass, gateways, led, e, gateways.spec_hop(e.0)->0));
        assert(t.dom().contains(e));
    }
    if a == proxy && gateways.spec_hop(proxy) is Some {
        let e = (proxy, host_bits(proxy));
        assert(is_ours(proxy, bypass, gateways, led, e, gateways.spec_hop(proxy)->0));
        assert(t.dom().contains(e));
        assert(net::covers(e.0, e.1, a));
    }
    if (a is V6 ==> led) && a != proxy && !is_bypassed(bypass, gateways, a) && t[k] != Hop::Tun
        && forall|o: (IpAddr, u8)| #[trigger]
        before.dom().contains(o) && net::covers(o.0, o.1, a) ==> o.1 == 0 {
        lemma_halves_cover_all(a);
        let lower = (half(a is V6, false), 1u8);
        let upper = (half(a is V6, true), 1u8);
        assert(is_ours(proxy, bypass, gateways, led, lower, Hop::Tun));
        assert(is_ours(proxy, bypass, gateways, led, upper, Hop::Tun));
        assert(t.dom().contains(lower) && t.dom().contains(upper));
        assert(k.1 >= 1);
        assert(is_ours(proxy, bypass, gateways, led, k, t[k]));
        if k == (proxy, host_bits(proxy)) {
            net::lemma_full_prefix_covers_one(proxy, k.1, a);
        } else {
            let i = choose|i: int| 0 <= i < bypass.len() && bypass[i] == k;
            assert(leads_out(bypass[i], gateways, a));
        }
    }
}

proof fn lemma_ours_is_one_route(
    proxy: IpAddr,
    bypass: Seq<(IpAddr, u8)>,
    gateways: Gateways,
    led: bool,
    k: (IpAddr, u8),
    a: Hop,
    b: Hop,
)
    requires
        all_narrow(bypass),
        is_ours(proxy, bypass, gateways, led, k, a),
        is_ours(proxy, bypass, gateways, led, k, b),
    ensures
        a == b,
{
    if bypass.contains(k) {
        let i = choose|i: int| 0 <= i < bypass.len() && bypass[i] == k;
        assert(bypass[i].1 >= 2);
    }
}

/// A plan that adds the routes of the tunnel, and nothing else, puts it in
/// place.
pub proof fn lemma_apply_puts_in_place(
    items: Seq<Item>,
    before: Table,
    proxy: IpAddr,
    bypass: Seq<(IpAddr, u8)>,
    gateways: Gateways,
    led: bool,
)
    requires
        all_narrow(bypass),
        forall|action: RouteAction, k: (IpAddr, u8), hop: Hop| #[trigger]
            has_step(items, action, k, hop) == (action == RouteAction::Add && is_ours(
                proxy,
                bypass,
                gateways,
                led,
                k,
                hop,
            )),
    ensures
        in_place(performed_all(before, items), before, proxy, bypass, gateways, led),
{
    let t = performed_all(before, items);
    assert forall|k: (IpAddr, u8)| #[trigger] t.dom().contains(k) implies (before.dom().contains(k)
        && t[k] == before[k]) || is_ours(proxy, bypass, gateways, led, k, t[k]) by {
        lemma_origin(before, items, k);
    }
    assert forall|k: (IpAddr, u8), hop: Hop| #[trigger]
        is_ours(proxy, bypass, gateways, led, k, hop) implies t.dom().contains(k) && t[k]
        == hop by {
        assert(has_step(items, RouteAction::Add, k, hop));
        assert forall|h: Hop| has_step(items, RouteAction::Add, k, h) implies h == hop by {
            lemma_ours_is_one_route(proxy, bypass, gateways, led, k, h, hop);
        }
        lemma_added_route_stands(before, items, k, hop);
    }
}

/// The plan of the systems with a gateway for each family puts the tunnel in
/// place.
pub proof fn lemma_apply_items_put_in_place(
    proxy: IpAddr,
    hop: Hop,
    bypass: Seq<(IpAddr, u8)>,
    gateways: Gateways,
    led: bool,
    before: Table,
)
    requires
        gateways.spec_hop(proxy) == Some(hop),
        all_narrow(bypass),
    ensures
        in_place(
            performed_all(before, apply_items(proxy, hop, bypass, gateways, led)),
            before,
            proxy,
            bypass,
            gateways,
            led,
        ),
{
    let items = apply_items(proxy, hop, bypass, gateways, led);
    assert forall|action: RouteAction, k: (IpAddr, u8), to: Hop| #[trigger]
        has_step(items, action, k, to) == (action == RouteAction::Add && is_ours(
            proxy,
            bypass,
            gateways,
            led,
            k,
            to,
        )) by {
        lemma_apply_steps(proxy, hop, bypass, gateways, led, action, k, to);
    }
    lemma_apply_puts_in_place(items, before, proxy, bypass, gateways, led);
}

/// Whether a change leaves the way to the proxy alone once it is moved: the
/// new one is not taken off the networks, and the old one, where it moves, is
/// not a network that stays.
pub open spec fn keeps_apart(
    proxy: IpAddr,
    change: Option<(IpAddr, IpAddr)>,
    old_bypass: Seq<(IpAddr, u8)>,
    new_bypass: Seq<(IpAddr, u8)>,
) -> bool {
    let to = (moved_proxy(proxy, change), host_bits(moved_proxy(proxy, change)));
    let from = (proxy, host_bits(proxy));
    &&& old_bypass.contains(to) ==> new_bypass.contains(to)
    &&& change is Some ==> !(old_bypass.contains(from) && new_bypass.contains(from))
}

/// Whether a plan, which ends in `tail`, moves the way to the proxy, removes
/// networks and adds others, these last.
pub open spec fn is_reload(
    items: Seq<Item>,
    tail: Seq<Item>,
    gateways: Gateways,
    change: Option<(IpAddr, IpAddr)>,
    remove: Seq<(IpAddr, u8)>,
    add: Seq<(IpAddr, u8)>,
) -> bool {
    &&& tail.len() <= items.len()
    &&& items == items.take(items.len() - tail.len()) + tail
    &&& forall|action: RouteAction, k: (IpAddr, u8), hop: Hop| #[trigger]
        has_step(items, action, k, hop) == (gateways.spec_hop(k.0) == Some(hop) && match action {
            RouteAction::Delete => remove.contains(k) || (change matches Some((from, _)) && k == (
                from,
                host_bits(from),
            )),
            RouteAction::Add => add.contains(k) || (change matches Some((_, to)) && k == (
                to,
                host_bits(to),
            )),
        })
    &&& forall|action: RouteAction, k: (IpAddr, u8), hop: Hop| #[trigger]
        has_step(tail, action, k, hop) == (action == RouteAction::Add && add.contains(k)
            && gateways.spec_hop(k.0) == Some(hop))
}

/// A change of the configuration that goes through puts the routes of the new
/// one in place.
pub proof fn lemma_reload_keeps_in_place(
    items: Seq<Item>,
    tail: Seq<Item>,
    proxy: IpAddr,
    old_bypass: Seq<(IpAddr, u8)>,
    new_bypass: Seq<(IpAddr, u8)>,
    gateways: Gateways,
    led: bool,
    change: Option<(IpAddr, IpAddr)>,
    remove: Seq<(IpAddr, u8)>,
    add: Seq<(IpAddr, u8)>,
    t: Table,
    before: Table,
)
    requires
        is_reload(items, tail, gateways, change, remove, add),
        change matches Some((from, to)) ==> from == proxy && from != to,
        leads_over(old_bypass, new_bypass, remove, add),
        all_narrow(old_bypass),
        all_narrow(new_bypass),
        keeps_apart(proxy, change, old_bypass, new_bypass),
        in_place(t, before, proxy, old_bypass, gateways, led),
    ensures
        in_place(
            performed_all(t, items),
            before,
            moved_proxy(proxy, change),
            new_bypass,
            gateways,
            led,
        ),
{
    let to = moved_proxy(proxy, change);
    let r = performed_all(t, items);
    assert forall|k: (IpAddr, u8)| #[trigger] r.dom().contains(k) implies (before.dom().contains(k)
        && r[k] == before[k]) || is_ours(to, new_bypass, gateways, led, k, r[k]) by {
        lemma_origin(t, items, k);
        if !has_step(items, RouteAction::Add, k, r[k]) {
            assert(!has_step(items, RouteAction::Delete, k, t[k]));
        }
    }
    let head = items.take(items.len() - tail.len());
    lemma_performed_concat(t, head, tail);
    assert forall|k: (IpAddr, u8), hop: Hop| #[trigger]
        is_ours(to, new_bypass, gateways, led, k, hop) implies r.dom().contains(k) && r[k]
        == hop by {
        if old_bypass.contains(k) {
            let i = choose|i: int| 0 <= i < old_bypass.len() && old_bypass[i] == k;
            assert(old_bypass[i].1 >= 2);
        }
        if new_bypass.contains(k) {
            let i = choose|i: int| 0 <= i < new_bypass.len() && new_bypass[i] == k;
            assert(new_bypass[i].1 >= 2);
        }
        if add.contains(k) && gateways.spec_hop(k.0) == Some(hop) {
            assert(has_step(tail, RouteAction::Add, k, hop));
            lemma_added_route_stands(performed_all(t, head), tail, k, hop);
        } else {
            if !has_step(items, RouteAction::Add, k, hop) {
                assert(is_ours(proxy, old_bypass, gateways, led, k, hop));
            }
            lemma_added_route_stands(t, items, k, hop);
        }
    }
}

/// The plan of the systems with a gateway for each family is one of a reload.
pub proof fn lemma_reload_items_are_reload(
    gateways: Gateways,
    change: Option<(IpAddr, IpAddr)>,
    remove: Seq<(IpAddr, u8)>,
    add: Seq<(IpAddr, u8)>,
    tell: bool,
)
    requires
        can_move(gateways, change),
    ensures
        is_reload(
            reload_items(gateways, change, remove, add, tell),
            bypass_items(RouteAction::Add, add, gateways, true, tell),
            gateways,
            change,
            remove,
            add,
        ),
{
    let items = reload_items(gateways, change, remove, add, tell);
    let tail = bypass_items(RouteAction::Add, add, gateways, true, tell);
    assert(items =~= items.take(items.len() - tail.len()) + tail);
    assert forall|action: RouteAction, k: (IpAddr, u8), hop: Hop| #[trigger]
        has_step(items, action, k, hop) == (gateways.spec_hop(k.0) == Some(hop) && match action {
            RouteAction::Delete => remove.contains(k) || (change matches Some((from, _)) && k == (
                from,
                host_bits(from),
            )),
            RouteAction::Add => add.contains(k) || (change matches Some((_, to)) && k == (
                to,
                host_bits(to),
            )),
        }) by {
        lemma_reload_steps(gateways, change, remove, add, tell, action, k, hop);
        lemma_move_steps(gateways, change, action, k, hop);
    }
    assert forall|action: RouteAction, k: (IpAddr, u8), hop: Hop| #[trigger]
        has_step(tail, action, k, hop) == (action == RouteAction::Add && add.contains(k)
            && gateways.spec_hop(k.0) == Some(hop)) by {
        lemma_bypass_steps(RouteAction::Add, add, gateways, true, tell, action, k, hop);
    }
}

// ---------------------------------------------------------------------------
// A start that breaks off
// ---------------------------------------------------------------------------
/// The changes that take back what the first `done` items of a plan added.
pub open spec fn back_items(items: Seq<Item>, done: int) -> Seq<Item>
    decreases done,
{
    if done <= 0 {
        Seq::empty()
    } else {
        let rest = back_items(items, done - 1);
        match items[done - 1] {
            Item::Step(s) if s.action == RouteAction::Add => rest.push(Item::Step(deletion(s))),
            _ => rest,
        }
    }
}

/// The change that deletes the route of another one.
pub open spec fn deletion(s: RouteStep) -> RouteStep {
    RouteStep { action: RouteAction::Delete, required: false, ..s }
}

/// Plans the changes that take back what the first `done` items of a plan
/// added.
pub fn take_back(items: &[Item], done: usize) -> (r: Vec<Item>)
    requires
        done <= items@.len(),
    ensures
        r@ == back_items(items@, done as int),
{
    let mut back: Vec<Item> = Vec::new();
    for i in 0..done
        invariant
            done <= items@.len(),
            back@ == back_items(items@, i as int),
    {
        match items[i] {
            Item::Step(s) => match s.action {
                RouteAction::Add => {
                    back.push(
                        Item::Step(
                            RouteStep { action: RouteAction::Delete, required: false, ..s },
                        ),
                    );
                },
                RouteAction::Delete => {},
            },
            _ => {},
        }
    }
    back
}

proof fn lemma_back_steps(
    items: Seq<Item>,
    done: int,
    action: RouteAction,
    key: (IpAddr, u8),
    hop: Hop,
)
    requires
        0 <= done <= items.len(),
    ensures
        has_step(back_items(items, done), action, key, hop) == (action == RouteAction::Delete
            && has_step(items.take(done), RouteAction::Add, key, hop)),
    decreases done,
{
    if done == 0 {
        lemma_no_step_in_empty(action, key, hop);
        assert(items.take(0) =~= Seq::<Item>::empty());
        lemma_no_step_in_empty(RouteAction::Add, key, hop);
    } else {
        let rest = back_items(items, done - 1);
        let last = items[done - 1];
        lemma_back_steps(items, done - 1, action, key, hop);
        assert(items.take(done) =~= items.take(done - 1) + seq![last]);
        lemma_has_step_concat(items.take(done - 1), seq![last], RouteAction::Add, key, hop);
        match last {
            Item::Step(s) if s.action == RouteAction::Add => {
                assert(rest.push(Item::Step(deletion(s))) =~= rest + seq![Item::Step(deletion(s))]);
                lemma_has_step_concat(rest, seq![Item::Step(deletion(s))], action, key, hop);
                lemma_single_step(deletion(s), action, key, hop);
                lemma_single_step(s, RouteAction::Add, key, hop);
            },
            _ => {
                assert(!has_step(seq![last], RouteAction::Add, key, hop));
            },
        }
    }
}

/// A plan that touches no route of a table, and breaks off, is taken back: the
/// table is as it was.
pub proof fn lemma_broken_off_plan_is_taken_back(items: Seq<Item>, done: int, before: Table)
    requires
        0 <= done <= items.len(),
        leaves_alone(items, before),
    ensures
        performed_all(performed_all(before, items.take(done)), back_items(items, done)) == before,
{
    let first = items.take(done);
    let back = back_items(items, done);
    let t = performed_all(before, first);
    assert forall|i: int| 0 <= i < first.len() implies item_leaves_alone(
        #[trigger] first[i],
        before,
    ) by {
        assert(first[i] == items[i]);
    }
    assert forall|k: (IpAddr, u8), hop: Hop| has_step(first, RouteAction::Add, k, hop) implies has_step(
        back,
        RouteAction::Delete,
        k,
        hop,
    ) by {
        lemma_back_steps(items, done, RouteAction::Delete, k, hop);
    }
    assert(owed(before, before, Seq::<Item>::empty()));
    assert forall|k: (IpAddr, u8), hop: Hop| !has_step(
        Seq::<Item>::empty(),
        RouteAction::Delete,
        k,
        hop,
    ) by {
        lemma_no_step_in_empty(RouteAction::Delete, k, hop);
    }
    lemma_plan_stays_owed(before, before, Seq::<Item>::empty(), first, back);
    assert forall|action: RouteAction, k: (IpAddr, u8), h: Hop|
        has_step(back, action, k, h) implies !before.dom().contains(k) by {
        lemma_back_steps(items, done, action, k, h);
        let i = choose|i: int|
            0 <= i < first.len() && #[trigger] is_step(first[i], RouteAction::Add, k, h);
        assert(item_leaves_alone(first[i], before));
    }
    lemma_leaves_alone(back, before);
    assert forall|i: int, key: (IpAddr, u8), hop: Hop| 0 <= i < back.len() implies !#[trigger] is_step(
        back[i],
        RouteAction::Add,
        key,
        hop,
    ) by {
        lemma_back_steps(items, done, RouteAction::Add, key, hop);
        if is_step(back[i], RouteAction::Add, key, hop) {
            assert(has_step(back, RouteAction::Add, key, hop));
        }
    }
    lemma_undo_restores(t, before, back);
}

// ---------------------------------------------------------------------------
// The plans, change by change
// ---------------------------------------------------------------------------
/// A plan breaks off at a required change that fails, and where there is no
/// gateway, and nowhere else.
pub proof fn lemma_where_a_plan_breaks_off(item: Item, s: RouteStep, ip: IpAddr)
    ensures
        continues(Item::Step(s), true),
        continues(Item::Step(s), false) <==> !s.required,
        !continues(Item::NoGateway(ip), true) && !continues(Item::NoGateway(ip), false),
        !(item is Step) && !(item is NoGateway) ==> continues(item, false),
{
}

/// The route to one address holds that address and no other, and the gateway for
/// an address is that of its family.
pub proof fn lemma_host_route_and_gateway(ip: IpAddr, other: IpAddr, g: Gateways)
    ensures
        net::covers(ip, host_bits(ip), other) <==> ip == other,
        ip is V4 ==> g.spec_hop(ip) == g.v4 && host_bits(ip) == 32,
        ip is V6 ==> g.spec_hop(ip) == g.v6 && host_bits(ip) == 128,
{
    net::lemma_full_prefix_covers_one(ip, host_bits(ip), other);
}

/// Whether a route is one of the tunnel's: to the proxy alone and to each network
/// that bypasses the tunnel, by the gateway of its family, and to both halves of
/// IPv4, and of IPv6 where that is captured, into the tunnel.
pub proof fn lemma_which_routes_are_ours(
    proxy: IpAddr,
    bypass: Seq<(IpAddr, u8)>,
    g: Gateways,
    capture_v6: bool,
    key: (IpAddr, u8),
    to: Hop,
)
    ensures
        ({
            let gateway = match key.0 {
                IpAddr::V4(_) => g.v4,
                IpAddr::V6(_) => g.v6,
            };
            let host: u8 = if proxy is V4 {
                32
            } else {
                128
            };
            is_ours(proxy, bypass, g, capture_v6, key, to) <==> {
                ||| key == (proxy, host) && gateway == Some(to)
                ||| bypass.contains(key) && gateway == Some(to)
                ||| to is Tun && key.1 == 1 && (key.0 matches IpAddr::V4(a) && (a.bits == 0 || a.bits
                    == 0x8000_0000))
                ||| to is Tun && key.1 == 1 && capture_v6 && (key.0 matches IpAddr::V6(a) && (a.bits
                    == 0 || a.bits == 0x8000_0000_0000_0000_0000_0000_0000_0000))
            }
        }),
{
}

proof fn lemma_bypass_item_shape(
    action: RouteAction,
    list: Seq<(IpAddr, u8)>,
    g: Gateways,
    required: bool,
    tell: bool,
    i: int,
)
    requires
        0 <= i < bypass_items(action, list, g, required, tell).len(),
    ensures
        match bypass_items(action, list, g, required, tell)[i] {
            Item::Step(s) => {
                &&& s.action == action
                &&& s.required == required
                &&& s.purpose == Purpose::Bypass
                &&& list.contains((s.dst, s.prefix))
                &&& g.spec_hop(s.dst) == Some(s.hop)
            },
            Item::SkipBypass(dst, prefix) => tell && list.contains((dst, prefix)) && g.spec_hop(
                dst,
            ) is None,
            _ => false,
        },
    decreases list.len(),
{
    if list.len() > 0 {
        let init = bypass_items(action, list.drop_last(), g, required, tell);
        let e = list.last();
        assert(list[list.len() - 1] == e);
        assert(list.contains(e));
        if i < init.len() {
            lemma_bypass_item_shape(action, list.drop_last(), g, required, tell, i);
            assert forall|x: (IpAddr, u8)| list.drop_last().contains(x) implies list.contains(x) by {
                let j = choose|j: int| 0 <= j < list.len() - 1 && list.drop_last()[j] == x;
                assert(list[j] == x);
            }
        }
    }
}

/// The tunnel is put in so that nothing goes astray: the way to the proxy comes
/// first, then the networks that bypass the tunnel, and the halves only after
/// them. Each of these changes is an addition that has to succeed, and only
/// networks without a gateway are passed over.
pub proof fn lemma_order_of_putting_in(
    proxy: IpAddr,
    hop: Hop,
    bypass: Seq<(IpAddr, u8)>,
    g: Gateways,
    capture_v6: bool,
    i: int,
    j: int,
)
    requires
        0 <= i < j < apply_items(proxy, hop, bypass, g, capture_v6).len(),
    ensures
        ({
            let items = apply_items(proxy, hop, bypass, g, capture_v6);
            &&& items[0] matches Item::Step(s) && s.dst == proxy && s.hop == hop && s.action is Add
                && s.required && s.purpose is Proxy
            &&& items[j] matches Item::Step(s) ==> s.action is Add && s.required
            &&& items[j] matches Item::Step(s) ==> !(s.purpose is Proxy)
            &&& (items[i] matches Item::Step(s) && s.purpose is Split) ==> (items[j] matches Item::Step(
                s,
            ) && s.purpose is Split && s.hop is Tun)
            &&& !(items[j] is Step) ==> (items[j] matches Item::SkipBypass(d, p) && bypass.contains(
                (d, p),
            ) && g.spec_hop(d) is None)
        }),
{
    let items = apply_items(proxy, hop, bypass, g, capture_v6);
    let b = bypass_items(RouteAction::Add, bypass, g, true, true);
    let n = b.len() as int;
    if 1 <= j < 1 + n {
        assert(items[j] == b[j - 1]);
        lemma_bypass_item_shape(RouteAction::Add, bypass, g, true, true, j - 1);
    }
    if 1 <= i < 1 + n {
        assert(items[i] == b[i - 1]);
        lemma_bypass_item_shape(RouteAction::Add, bypass, g, true, true, i - 1);
    }
}

/// The tunnel is taken out by deletions alone, and none of them has to succeed
/// for the others to be made.
pub proof fn lemma_taking_out_never_breaks_off(
    proxy: IpAddr,
    bypass: Seq<(IpAddr, u8)>,
    g: Gateways,
    capture_v6: bool,
    i: int,
)
    requires
        0 <= i < undo_items(proxy, bypass, g, capture_v6).len(),
    ensures
        undo_items(proxy, bypass, g, capture_v6)[i] matches Item::Step(s) && s.action is Delete
            && !s.required,
        continues(undo_items(proxy, bypass, g, capture_v6)[i], false),
{
    let items = undo_items(proxy, bypass, g, capture_v6);
    let b = bypass_items(RouteAction::Delete, bypass, g, false, false);
    let k: int = if g.spec_hop(proxy) is Some {
        1
    } else {
        0
    };
    if k <= i < k + b.len() {
        assert(items[i] == b[i - k]);
        lemma_bypass_item_shape(RouteAction::Delete, bypass, g, false, false, i - k);
    }
}

/// A change of the configuration deletes the way to the old address of the proxy
/// and the networks that go, adds the way to the new address and the networks
/// that come, and changes no other route. Without a gateway to the new address no
/// network is touched.
pub proof fn lemma_what_a_reload_changes(
    g: Gateways,
    change: Option<(IpAddr, IpAddr)>,
    remove: Seq<(IpAddr, u8)>,
    add: Seq<(IpAddr, u8)>,
    tell: bool,
    key: (IpAddr, u8),
    hop: Hop,
)
    ensures
        can_move(g, change) <==> (change matches Some((_, to)) ==> g.spec_hop(to) is Some),
        has_step(reload_items(g, change, remove, add, tell), RouteAction::Delete, key, hop) <==> {
            &&& g.spec_hop(key.0) == Some(hop)
            &&& {
                ||| change matches Some((from, _)) && key == (from, host_bits(from))
                ||| can_move(g, change) && remove.contains(key)
            }
        },
        has_step(reload_items(g, change, remove, add, tell), RouteAction::Add, key, hop) <==> {
            &&& g.spec_hop(key.0) == Some(hop)
            &&& {
                ||| change matches Some((_, to)) && key == (to, host_bits(to))
                ||| can_move(g, change) && add.contains(key)
            }
        },
{
    let a = move_items(g, change);
    let b = bypass_items(RouteAction::Delete, remove, g, false, false);
    let c = bypass_items(RouteAction::Add, add, g, true, tell);
    lemma_move_steps(g, change, RouteAction::Delete, key, hop);
    lemma_move_steps(g, change, RouteAction::Add, key, hop);
    lemma_has_step_concat(a + b, c, RouteAction::Delete, key, hop);
    lemma_has_step_concat(a, b, RouteAction::Delete, key, hop);
    lemma_has_step_concat(a + b, c, RouteAction::Add, key, hop);
    lemma_has_step_concat(a, b, RouteAction::Add, key, hop);
    lemma_bypass_steps(RouteAction::Delete, remove, g, false, false, RouteAction::Delete, key, hop);
    lemma_bypass_steps(RouteAction::Delete, remove, g, false, false, RouteAction::Add, key, hop);
    lemma_bypass_steps(RouteAction::Add, add, g, true, tell, RouteAction::Delete, key, hop);
    lemma_bypass_steps(RouteAction::Add, add, g, true, tell, RouteAction::Add, key, hop);
}

/// In a change of the configuration the old way to the proxy goes before the new
/// one comes, and what has to succeed is what is added.
pub proof fn lemma_order_of_a_reload(
    g: Gateways,
    change: Option<(IpAddr, IpAddr)>,
    remove: Seq<(IpAddr, u8)>,
    add: Seq<(IpAddr, u8)>,
    tell: bool,
    i: int,
)
    requires
        0 <= i < reload_items(g, change, remove, add, tell).len(),
    ensures
        ({
            let items = reload_items(g, change, remove, add, tell);
            &&& items[i] matches Item::Step(s) ==> s.required == (s.action is Add)
            &&& (items[i] matches Item::Step(s) && s.purpose is Proxy && s.action is Delete) ==> i == 0
            &&& (items[i] matches Item::Step(s) && s.purpose is Proxy) ==> i <= 1
            &&& items[i] is NoGateway ==> i == items.len() - 1 && !can_move(g, change)
            &&& items[i] is SkipBypass ==> tell
        }),
{
    let items = reload_items(g, change, remove, add, tell);
    let a = move_items(g, change).len() as int;
    let b = bypass_items(RouteAction::Delete, remove, g, false, false);
    let c = bypass_items(RouteAction::Add, add, g, true, tell);
    if can_move(g, change) {
        if a <= i < a + b.len() {
            assert(items[i] == b[i - a]);
            lemma_bypass_item_shape(RouteAction::Delete, remove, g, false, false, i - a);
        } else if a + b.len() <= i {
            assert(items[i] == c[i - a - b.len()]);
            lemma_bypass_item_shape(RouteAction::Add, add, g, true, tell, i - a - b.len());
        }
    }
}

/// A network that should bypass the tunnel and has no gateway is told of, where
/// that is asked for.
pub proof fn lemma_networks_without_gateway_are_told(
    action: RouteAction,
    list: Seq<(IpAddr, u8)>,
    g: Gateways,
    required: bool,
    e: (IpAddr, u8),
)
    requires
        list.contains(e),
        g.spec_hop(e.0) is None,
    ensures
        bypass_items(action, list, g, required, true).contains(Item::SkipBypass(e.0, e.1)),
    decreases list.len(),
{
    let init = list.drop_last();
    let a = bypass_items(action, init, g, required, true);
    let b = bypass_item(action, list.last(), g, required, true);
    let all = bypass_items(action, list, g, required, true);
    let k = choose|k: int| 0 <= k < list.len() && list[k] == e;
    if k == list.len() - 1 {
        assert(b[0] == Item::SkipBypass(e.0, e.1));
        assert(all[a.len() as int] == b[0]);
    } else {
        assert(init[k] == e);
        lemma_networks_without_gateway_are_told(action, init, g, required, e);
        let i = choose|i: int| 0 <= i < a.len() && a[i] == Item::SkipBypass(e.0, e.1);
        assert(all[i] == a[i]);
    }
}

/// An addition puts its route into the table, a deletion takes out that route
/// and no other, and neither touches another network. A deletion of a route that
/// leads elsewhere changes nothing.
pub proof fn lemma_one_change(t: Table, s: RouteStep, k: (IpAddr, u8))
    ensures
        s.action is Add ==> performed(t, s).dom().contains((s.dst, s.prefix)) && performed(t, s)[(
            s.dst,
            s.prefix,
        )] == s.hop,
        k != (s.dst, s.prefix) ==> performed(t, s).dom().contains(k) == t.dom().contains(k) && performed(
            t,
            s,
        )[k] == t[k],
        s.action is Delete && t.dom().contains((s.dst, s.prefix)) && t[(s.dst, s.prefix)] == s.hop
            ==> !performed(t, s).dom().contains((s.dst, s.prefix)),
        s.action is Delete && !(t.dom().contains((s.dst, s.prefix)) && t[(s.dst, s.prefix)] == s.hop)
            ==> performed(t, s) == t,
{
}

} // verus!
