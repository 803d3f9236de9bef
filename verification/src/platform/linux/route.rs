//! The routes of the tunnel on Linux.

use vstd::prelude::*;
use crate::addr::{IpAddr, Ipv4Addr, Ipv6Addr};
use crate::config::Config;
use crate::net;
use crate::net::CidrList;
use crate::platform::linux::dns::ResolvConf;
use crate::platform::routes;
use crate::platform::routes::{Gateways, Hop, Item, RouteAction};
use crate::reload::ReloadPlan;

verus! {

// ---------------------------------------------------------------------------
// Routes as the kernel reports them
// ---------------------------------------------------------------------------
/// An attribute of a route.
#[derive(Clone, Copy, PartialEq, Eq, Debug, Structural)]
pub enum RouteAttribute {
    Destination(IpAddr),
    Gateway(IpAddr),
    /// The index of the link that the route leads out of.
    Oif(u32),
    Other,
}

/// A route as the kernel reports it.
pub struct RouteEntry {
    pub destination_prefix_length: u8,
    pub attributes: Vec<RouteAttribute>,
}

/// The last IPv4 gateway among the attributes.
pub open spec fn last_v4_gateway(list: Seq<RouteAttribute>) -> Option<Ipv4Addr>
    decreases list.len(),
{
    if list.len() == 0 {
        None
    } else {
        match list.last() {
            RouteAttribute::Gateway(IpAddr::V4(g)) => Some(g),
            _ => last_v4_gateway(list.drop_last()),
        }
    }
}

/// The last IPv6 gateway among the attributes.
pub open spec fn last_v6_gateway(list: Seq<RouteAttribute>) -> Option<Ipv6Addr>
    decreases list.len(),
{
    if list.len() == 0 {
        None
    } else {
        match list.last() {
            RouteAttribute::Gateway(IpAddr::V6(g)) => Some(g),
            _ => last_v6_gateway(list.drop_last()),
        }
    }
}

/// The last link among the attributes.
pub open spec fn last_oif(list: Seq<RouteAttribute>) -> Option<u32>
    decreases list.len(),
{
    if list.len() == 0 {
        None
    } else {
        match list.last() {
            RouteAttribute::Oif(i) => Some(i),
            _ => last_oif(list.drop_last()),
        }
    }
}

/// The IPv4 gateway of a default route, with its link.
pub open spec fn v4_gateway(e: RouteEntry) -> Option<(Ipv4Addr, u32)> {
    match (last_v4_gateway(e.attributes@), last_oif(e.attributes@)) {
        (Some(g), Some(i)) if e.destination_prefix_length == 0 => Some((g, i)),
        _ => None,
    }
}

/// The IPv6 gateway of a default route, with its link.
pub open spec fn v6_gateway(e: RouteEntry) -> Option<(Ipv6Addr, u32)> {
    match (last_v6_gateway(e.attributes@), last_oif(e.attributes@)) {
        (Some(g), Some(i)) if e.destination_prefix_length == 0 => Some((g, i)),
        _ => None,
    }
}

/// The IPv4 gateway that one reported route names. The gateway of the host is
/// that of the first route which names one.
pub fn read_v4_gateway(e: &RouteEntry) -> (r: Option<(Ipv4Addr, u32)>)
    ensures
        r == v4_gateway(*e),
{
    if e.destination_prefix_length != 0 {
        return None;
    }
    let mut gw: Option<Ipv4Addr> = None;
    let mut oif: Option<u32> = None;
    for i in 0..e.attributes.len()
        invariant
            gw == last_v4_gateway(e.attributes@.take(i as int)),
            oif == last_oif(e.attributes@.take(i as int)),
    {
        assert(e.attributes@.take(i + 1).drop_last() =~= e.attributes@.take(i as int));
        match e.attributes[i] {
            RouteAttribute::Gateway(IpAddr::V4(g)) => {
                gw = Some(g);
            },
            RouteAttribute::Oif(idx) => {
                oif = Some(idx);
            },
            _ => {},
        }
    }
    assert(e.attributes@.take(e.attributes@.len() as int) =~= e.attributes@);
    match (gw, oif) {
        (Some(g), Some(i)) => Some((g, i)),
        _ => None,
    }
}

/// The IPv6 gateway that one reported route names. The gateway of the host is
/// that of the first route which names one.
pub fn read_v6_gateway(e: &RouteEntry) -> (r: Option<(Ipv6Addr, u32)>)
    ensures
        r == v6_gateway(*e),
{
    if e.destination_prefix_length != 0 {
        return None;
    }
    let mut gw: Option<Ipv6Addr> = None;
    let mut oif: Option<u32> = None;
    for i in 0..e.attributes.len()
        invariant
            gw == last_v6_gateway(e.attributes@.take(i as int)),
            oif == last_oif(e.attributes@.take(i as int)),
    {
        assert(e.attributes@.take(i + 1).drop_last() =~= e.attributes@.take(i as int));
        match e.attributes[i] {
            RouteAttribute::Gateway(IpAddr::V6(g)) => {
                gw = Some(g);
            },
            RouteAttribute::Oif(idx) => {
                oif = Some(idx);
            },
            _ => {},
        }
    }
    assert(e.attributes@.take(e.attributes@.len() as int) =~= e.attributes@);
    match (gw, oif) {
        (Some(g), Some(i)) => Some((g, i)),
        _ => None,
    }
}

/// A request to delete a route.
pub struct DelMessage {
    pub ipv6: bool,
    pub destination_prefix_length: u8,
    pub attributes: Vec<RouteAttribute>,
}

/// The attributes of a request to delete a route: its destination, its gateway
/// where it has one, and its link.
pub open spec fn del_attributes(dst: IpAddr, oif: u32, gw: Option<IpAddr>) -> Seq<RouteAttribute> {
    match gw {
        Some(g) => seq![
            RouteAttribute::Destination(dst),
            RouteAttribute::Gateway(g),
            RouteAttribute::Oif(oif),
        ],
        None => seq![RouteAttribute::Destination(dst), RouteAttribute::Oif(oif)],
    }
}

impl DelMessage {
    /// Whether this is the message that deletes a route.
    pub open spec fn deletes(
        self,
        dst: IpAddr,
        prefix: u8,
        oif: u32,
        gw: Option<IpAddr>,
    ) -> bool {
        &&& self.ipv6 == (dst is V6)
        &&& self.destination_prefix_length == prefix
        &&& self.attributes@ == del_attributes(dst, oif, gw)
    }
}

/// The message that deletes a route.
pub fn build_del_message(dst: IpAddr, prefix: u8, oif: u32, gw: Option<IpAddr>) -> (r: DelMessage)
    ensures
        r.deletes(dst, prefix, oif, gw),
{
    let mut attributes: Vec<RouteAttribute> = Vec::new();
    attributes.push(RouteAttribute::Destination(dst));
    match gw {
        Some(g) => {
            attributes.push(RouteAttribute::Gateway(g));
        },
        None => {},
    }
    attributes.push(RouteAttribute::Oif(oif));
    assert(attributes@ =~= del_attributes(dst, oif, gw));
    DelMessage { ipv6: dst.is_ipv6(), destination_prefix_length: prefix, attributes }
}

// ---------------------------------------------------------------------------
// The routes of the tunnel
// ---------------------------------------------------------------------------
pub struct RouteManager {
    pub proxy_ip: IpAddr,
    pub tun_index: u32,
    pub dns: ResolvConf,
    pub dns_server: Option<IpAddr>,
    pub bypass: CidrList,
    pub capture_ipv6: bool,
    pub v4_gateway: Option<(Ipv4Addr, u32)>,
    pub v6_gateway: Option<(Ipv6Addr, u32)>,
    pub applied: bool,
}

impl RouteManager {
    pub open spec fn spec_gateways(self) -> Gateways {
        Gateways {
            v4: match self.v4_gateway {
                Some((g, i)) => Some(Hop::Gateway(IpAddr::V4(g), Some(i))),
                None => None,
            },
            v6: match self.v6_gateway {
                Some((g, i)) => Some(Hop::Gateway(IpAddr::V6(g), Some(i))),
                None => None,
            },
        }
    }

    pub fn new(
        proxy_ip: IpAddr,
        tun_index: u32,
        dns: ResolvConf,
        dns_server: Option<IpAddr>,
        bypass: CidrList,
        capture_ipv6: bool,
    ) -> (r: RouteManager)
        ensures
            r == (RouteManager {
                proxy_ip,
                tun_index,
                dns,
                dns_server,
                bypass,
                capture_ipv6,
                v4_gateway: None,
                v6_gateway: None,
                applied: false,
            }),
    {
        RouteManager {
            proxy_ip,
            tun_index,
            dns,
            dns_server,
            bypass,
            capture_ipv6,
            v4_gateway: None,
            v6_gateway: None,
            applied: false,
        }
    }

    fn gateways(&self) -> (r: Gateways)
        ensures
            r == self.spec_gateways(),
    {
        Gateways {
            v4: match self.v4_gateway {
                Some((g, i)) => Some(Hop::Gateway(IpAddr::V4(g), Some(i))),
                None => None,
            },
            v6: match self.v6_gateway {
                Some((g, i)) => Some(Hop::Gateway(IpAddr::V6(g), Some(i))),
                None => None,
            },
        }
    }

    /// The gateway for destinations of the family of an address, with its
    /// link.
    pub fn gateway_for(&self, family: IpAddr) -> (r: Option<(IpAddr, u32)>)
        ensures
            r == (match self.spec_gateways().spec_hop(family) {
                Some(Hop::Gateway(g, Some(i))) => Some((g, i)),
                _ => None,
            }),
            r is Some == self.spec_gateways().spec_hop(family) is Some,
            r matches Some((g, _)) ==> g.same_family(family),
    {
        match family {
            IpAddr::V4(_) => match self.v4_gateway {
                Some((g, i)) => Some((IpAddr::V4(g), i)),
                None => None,
            },
            IpAddr::V6(_) => match self.v6_gateway {
                Some((g, i)) => Some((IpAddr::V6(g), i)),
                None => None,
            },
        }
    }

    /// Whether IPv6 is led into the tunnel.
    pub open spec fn captures_ipv6(self) -> bool {
        self.capture_ipv6 && (self.v6_gateway is Some || self.proxy_ip is V6)
    }

    /// The changes that put the tunnel into the routing table.
    pub open spec fn apply_plan(self) -> Seq<Item> {
        let g = self.spec_gateways();
        match g.spec_hop(self.proxy_ip) {
            None => seq![Item::NoGateway(self.proxy_ip)],
            Some(hop) => routes::apply_items(
                self.proxy_ip,
                hop,
                self.bypass@,
                g,
                self.captures_ipv6(),
            ) + (if self.capture_ipv6 && !self.captures_ipv6() {
                seq![Item::SkipIpv6]
            } else {
                Seq::empty()
            }),
        }
    }

    /// Takes note of the gateways, and plans the changes that put the tunnel
    /// into the routing table.
    pub fn apply(
        &mut self,
        v4_gateway: Option<(Ipv4Addr, u32)>,
        v6_gateway: Option<(Ipv6Addr, u32)>,
    ) -> (r: Vec<Item>)
        ensures
            *final(self) == (RouteManager { v4_gateway, v6_gateway, ..*old(self) }),
            r@ == final(self).apply_plan(),
    {
        self.v4_gateway = v4_gateway;
        self.v6_gateway = v6_gateway;
        let g = self.gateways();
        let mut items: Vec<Item> = Vec::new();
        match g.hop(self.proxy_ip) {
            None => {
                items.push(Item::NoGateway(self.proxy_ip));
            },
            Some(hop) => {
                let led = self.capture_ipv6 && (self.v6_gateway.is_some()
                    || self.proxy_ip.is_ipv6());
                routes::push_apply(
                    &mut items,
                    self.proxy_ip,
                    hop,
                    self.bypass.as_slice(),
                    &g,
                    led,
                );
                if self.capture_ipv6 && !led {
                    items.push(Item::SkipIpv6);
                }
            },
        }
        assert(items@ =~= self.apply_plan());
        items
    }

    /// The name server that is in place.
    pub fn note_dns(&mut self, server: Option<IpAddr>)
        ensures
            *final(self) == (RouteManager { dns_server: server, ..*old(self) }),
    {
        self.dns_server = server;
    }

    /// The routes and the name server are in place.
    pub fn mark_applied(&mut self)
        ensures
            *final(self) == old(self).when_in(),
    {
        self.applied = true;
    }

    /// The changes that follow a change of the configuration.
    pub open spec fn reload_plan(self, plan: ReloadPlan) -> Seq<Item> {
        if self.applied {
            routes::reload_items(
                self.spec_gateways(),
                plan.proxy_route_change,
                plan.bypass_remove@,
                plan.bypass_add@,
                true,
            )
        } else {
            Seq::empty()
        }
    }

    /// Plans the changes that follow a change of the configuration.
    pub fn reload(&self, plan: &ReloadPlan) -> (r: Vec<Item>)
        ensures
            r@ == self.reload_plan(*plan),
    {
        let mut items: Vec<Item> = Vec::new();
        if self.applied {
            let g = self.gateways();
            routes::push_reload(
                &mut items,
                &g,
                plan.proxy_route_change,
                plan.bypass_remove.as_slice(),
                plan.bypass_add.as_slice(),
                true,
            );
        }
        assert(items@ =~= self.reload_plan(*plan));
        items
    }

    /// The manager once the first `done` items of the plan have gone through:
    /// the way to the proxy has moved with its own changes, and the networks
    /// are the new ones after all of them.
    pub open spec fn after_reload(self, plan: ReloadPlan, done: nat) -> RouteManager {
        let g = self.spec_gateways();
        let change = plan.proxy_route_change;
        let active = self.applied && routes::can_move(g, change);
        RouteManager {
            proxy_ip: if active && done >= routes::move_items(g, change).len() {
                routes::moved_proxy(self.proxy_ip, change)
            } else {
                self.proxy_ip
            },
            bypass: if active && done >= self.reload_plan(plan).len() {
                plan.new_bypass
            } else {
                self.bypass
            },
            ..self
        }
    }

    /// Takes note of how far the plan for a change of the configuration went.
    pub fn finish_reload(&mut self, plan: ReloadPlan, done: usize)
        ensures
            *final(self) == old(self).after_reload(plan, done as nat),
    {
        if !self.applied {
            return;
        }
        let g = self.gateways();
        let mut head: Vec<Item> = Vec::new();
        let movable = routes::push_move(&mut head, &g, plan.proxy_route_change);
        let all = self.reload(&plan);
        assert(head@ =~= routes::move_items(g, plan.proxy_route_change));
        if movable {
            if done >= head.len() {
                match plan.proxy_route_change {
                    Some((_, to)) => {
                        self.proxy_ip = to;
                    },
                    None => {},
                }
            }
            if done >= all.len() {
                self.bypass = plan.new_bypass;
            }
        }
    }

    /// The changes that take the tunnel out of the routing table.
    pub open spec fn undo_plan(self) -> Seq<Item> {
        routes::undo_items(self.proxy_ip, self.bypass@, self.spec_gateways(), self.capture_ipv6)
    }

    /// The routes once they have been put in.
    pub open spec fn when_in(self) -> RouteManager {
        RouteManager { applied: true, ..self }
    }

    /// The routes once they are to be taken out.
    pub open spec fn when_out(self) -> RouteManager {
        RouteManager { applied: false, ..self }
    }

    /// The changes that are left to take the tunnel out of the routing table:
    /// none where it is not in.
    pub open spec fn teardown_plan(self) -> Seq<Item> {
        if self.applied {
            self.undo_plan()
        } else {
            Seq::empty()
        }
    }

    /// Plans the changes that take the tunnel out of the routing table, once.
    pub fn teardown(&mut self) -> (r: Vec<Item>)
        ensures
            *final(self) == old(self).when_out(),
            r@ == old(self).teardown_plan(),
    {
        let mut items: Vec<Item> = Vec::new();
        if !self.applied {
            assert(items@ =~= Seq::<Item>::empty());
            return items;
        }
        self.applied = false;
        let g = self.gateways();
        routes::push_undo(
            &mut items,
            self.proxy_ip,
            self.bypass.as_slice(),
            &g,
            self.capture_ipv6,
        );
        assert(items@ =~= old(self).undo_plan());
        items
    }

    /// Whether the routes are those of a configuration.
    pub open spec fn serves(self, cfg: Config) -> bool {
        routes::serves(self.proxy_ip, self.bypass@, cfg)
    }

    /// Whether the table is `before` with the routes of the tunnel in it, all
    /// of them.
    pub open spec fn in_place(self, t: routes::Table, before: routes::Table) -> bool {
        routes::in_place(
            t,
            before,
            self.proxy_ip,
            self.bypass@,
            self.spec_gateways(),
            self.captures_ipv6(),
        )
    }

    /// Whether no route of the tunnel stands in the table.
    pub open spec fn none_in(self, t: routes::Table) -> bool {
        routes::none_ours(
            self.proxy_ip,
            self.bypass@,
            self.spec_gateways(),
            self.capture_ipv6,
            t,
        )
    }

    /// Whether the table is `before` and, beyond it, nothing but routes that
    /// taking the tunnel out deletes.
    pub open spec fn owes(self, t: routes::Table, before: routes::Table) -> bool {
        routes::owed(t, before, self.undo_plan())
    }
}

proof fn lemma_skip_changes_nothing(t: routes::Table, items: Seq<Item>)
    ensures
        routes::performed_all(t, items + seq![Item::SkipIpv6]) == routes::performed_all(t, items),
{
    assert((items + seq![Item::SkipIpv6]).drop_last() =~= items);
}

/// Putting the tunnel into a table that has none of its routes puts it in
/// place, leaves owed what taking it out deletes, keeps the way to the proxy
/// out of the tunnel, and leads both halves of IPv4 into it.
pub proof fn lemma_apply(m: RouteManager, before: routes::Table)
    requires
        m.spec_gateways().spec_hop(m.proxy_ip) is Some,
        m.none_in(before),
    ensures
        ({
            let t = routes::performed_all(before, m.apply_plan());
            let p = (m.proxy_ip, routes::host_bits(m.proxy_ip));
            &&& m.owes(t, before)
            &&& routes::all_narrow(m.bypass@) ==> m.in_place(t, before)
            &&& t.dom().contains(p) && Some(t[p]) == m.spec_gateways().spec_hop(m.proxy_ip)
            &&& forall|v6: bool, upper: bool|
                (v6 ==> m.captures_ipv6()) ==> t.dom().contains(
                    (#[trigger] routes::half(v6, upper), 1u8),
                ) && t[(routes::half(v6, upper), 1u8)] == Hop::Tun
        }),
{
    let g = m.spec_gateways();
    let hop = g.spec_hop(m.proxy_ip)->0;
    let led = m.captures_ipv6();
    let items = routes::apply_items(m.proxy_ip, hop, m.bypass@, g, led);
    routes::lemma_apply_is_owed(m.proxy_ip, hop, m.bypass@, g, led, m.capture_ipv6, before);
    routes::lemma_proxy_stays_outside(m.proxy_ip, hop, m.bypass@, g, led, before);
    if routes::all_narrow(m.bypass@) {
        routes::lemma_apply_items_put_in_place(m.proxy_ip, hop, m.bypass@, g, led, before);
    }
    if m.capture_ipv6 && !led {
        lemma_skip_changes_nothing(before, items);
    } else {
        assert(m.apply_plan() =~= items);
    }
    assert forall|v6: bool, upper: bool| (v6 ==> led) implies routes::performed_all(
        before,
        items,
    ).dom().contains((#[trigger] routes::half(v6, upper), 1u8)) && routes::performed_all(
        before,
        items,
    )[(routes::half(v6, upper), 1u8)] == Hop::Tun by {
        routes::lemma_halves_lead_into_tunnel(
            m.proxy_ip,
            hop,
            m.bypass@,
            g,
            led,
            before,
            v6,
            upper,
        );
    }
}

/// A change of the configuration that goes through leads to the routes of the
/// new one, and leaves owed what taking the tunnel out deletes from then on.
pub proof fn lemma_reload(
    m: RouteManager,
    from: Config,
    to: Config,
    plan: ReloadPlan,
    t: routes::Table,
    before: routes::Table,
)
    requires
        m.applied,
        m.serves(from),
        plan.leads(from, to),
        routes::can_move(m.spec_gateways(), plan.proxy_route_change),
        m.owes(t, before),
        m.none_in(before),
        m.after_reload(plan, m.reload_plan(plan).len()).none_in(before),
    ensures
        m.after_reload(plan, m.reload_plan(plan).len()).owes(
            routes::performed_all(t, m.reload_plan(plan)),
            before,
        ),
        m.after_reload(plan, m.reload_plan(plan).len()).serves(to),
        m.after_reload(plan, m.reload_plan(plan).len()).applied,
{
    let g = m.spec_gateways();
    let after = m.after_reload(plan, m.reload_plan(plan).len());
    assert(after.spec_gateways() == g);
    assert(m.reload_plan(plan).len() >= routes::move_items(g, plan.proxy_route_change).len());
    routes::lemma_plan_leads_over(m.bypass@, plan, from, to);
    routes::lemma_reload_stays_owed(
        m.proxy_ip,
        m.bypass@,
        plan.new_bypass@,
        g,
        m.capture_ipv6,
        plan.proxy_route_change,
        plan.bypass_remove@,
        plan.bypass_add@,
        true,
        t,
        before,
    );
}

/// A change of the configuration keeps the way to the proxy out of the tunnel,
/// unless it takes the very address of the proxy off the networks that bypass
/// the tunnel.
pub proof fn lemma_reload_keeps_proxy_outside(
    m: RouteManager,
    from: Config,
    to: Config,
    plan: ReloadPlan,
    t: routes::Table,
)
    requires
        m.applied,
        m.serves(from),
        plan.leads(from, to),
        routes::can_move(m.spec_gateways(), plan.proxy_route_change),
        ({
            let p = (m.proxy_ip, routes::host_bits(m.proxy_ip));
            t.dom().contains(p) && Some(t[p]) == m.spec_gateways().spec_hop(m.proxy_ip)
        }),
        ({
            let p = routes::moved_proxy(m.proxy_ip, plan.proxy_route_change);
            !plan.bypass_remove@.contains((p, routes::host_bits(p)))
        }),
    ensures
        ({
            let after = routes::performed_all(t, m.reload_plan(plan));
            let p = routes::moved_proxy(m.proxy_ip, plan.proxy_route_change);
            after.dom().contains((p, routes::host_bits(p))) && Some(
                after[(p, routes::host_bits(p))],
            ) == m.spec_gateways().spec_hop(p)
        }),
{
    routes::lemma_plan_leads_over(m.bypass@, plan, from, to);
    routes::lemma_reload_keeps_proxy_outside(
        m.proxy_ip,
        m.spec_gateways().spec_hop(m.proxy_ip)->0,
        m.spec_gateways(),
        plan.proxy_route_change,
        plan.bypass_remove@,
        plan.bypass_add@,
        true,
        t,
    );
}

/// With the tunnel in place, traffic to the proxy and to the networks that
/// bypass the tunnel goes past it, and all other traffic goes into it: of
/// IPv4, and of IPv6 where that is led there, as far as there was nothing but a
/// default route to it before.
pub proof fn lemma_traffic_takes_its_way(
    m: RouteManager,
    t: routes::Table,
    before: routes::Table,
    a: IpAddr,
    k: (IpAddr, u8),
)
    requires
        m.in_place(t, before),
        routes::all_narrow(m.bypass@),
        routes::all_outside(m.spec_gateways(), before),
        routes::takes(t, k, a),
    ensures
        routes::is_bypassed(m.bypass@, m.spec_gateways(), a) ==> t[k] != Hop::Tun,
        a == m.proxy_ip && m.spec_gateways().spec_hop(m.proxy_ip) is Some ==> t[k] != Hop::Tun,
        ({
            &&& a is V6 ==> m.captures_ipv6()
            &&& a != m.proxy_ip
            &&& !routes::is_bypassed(m.bypass@, m.spec_gateways(), a)
            &&& forall|o: (IpAddr, u8)| #[trigger]
                before.dom().contains(o) && net::covers(o.0, o.1, a) ==> o.1 == 0
        }) ==> t[k] == Hop::Tun,
{
    routes::lemma_traffic_takes_its_way(
        t,
        before,
        m.proxy_ip,
        m.bypass@,
        m.spec_gateways(),
        m.captures_ipv6(),
        a,
        k,
    );
}

/// A change of the configuration that goes through puts the routes of the new
/// one in place.
pub proof fn lemma_reload_keeps_in_place(
    m: RouteManager,
    from: Config,
    to: Config,
    plan: ReloadPlan,
    t: routes::Table,
    before: routes::Table,
)
    requires
        m.applied,
        m.serves(from),
        plan.leads(from, to),
        m.spec_gateways().spec_hop(m.proxy_ip) is Some,
        routes::can_move(m.spec_gateways(), plan.proxy_route_change),
        routes::all_narrow(m.bypass@),
        routes::all_narrow(plan.new_bypass@),
        routes::keeps_apart(m.proxy_ip, plan.proxy_route_change, m.bypass@, plan.new_bypass@),
        m.in_place(t, before),
    ensures
        m.after_reload(plan, m.reload_plan(plan).len()).in_place(
            routes::performed_all(t, m.reload_plan(plan)),
            before,
        ),
{
    let g = m.spec_gateways();
    let after = m.after_reload(plan, m.reload_plan(plan).len());
    assert(after.spec_gateways() == g);
    assert(m.reload_plan(plan).len() >= routes::move_items(g, plan.proxy_route_change).len());
    routes::lemma_plan_leads_over(m.bypass@, plan, from, to);
    routes::lemma_reload_items_are_reload(
        g,
        plan.proxy_route_change,
        plan.bypass_remove@,
        plan.bypass_add@,
        true,
    );
    routes::lemma_reload_keeps_in_place(
        m.reload_plan(plan),
        routes::bypass_items(RouteAction::Add, plan.bypass_add@, g, true, true),
        m.proxy_ip,
        m.bypass@,
        plan.new_bypass@,
        g,
        m.captures_ipv6(),
        plan.proxy_route_change,
        plan.bypass_remove@,
        plan.bypass_add@,
        t,
        before,
    );
}

/// Taking the tunnel out of the table gives it back as it was before the
/// tunnel came, whatever changes of the configuration went through since.
pub proof fn lemma_teardown_restores(m: RouteManager, t: routes::Table, before: routes::Table)
    requires
        m.owes(t, before),
        m.none_in(before),
    ensures
        routes::performed_all(t, m.undo_plan()) == before,
{
    routes::lemma_teardown_restores(
        m.proxy_ip,
        m.bypass@,
        m.spec_gateways(),
        m.capture_ipv6,
        t,
        before,
    );
}

/// The gateways that were found serve each its own family, by its own link. IPv6
/// is led into the tunnel exactly where it is to be captured, and there is a
/// gateway for it or the proxy itself is reached over it.
pub proof fn lemma_gateways_serve_their_family(
    m: RouteManager,
    v4: Ipv4Addr,
    v6: Ipv6Addr,
    i: u32,
    j: u32,
)
    ensures
        m.v4_gateway == Some((v4, i)) ==> m.spec_gateways().v4 == Some(
            Hop::Gateway(IpAddr::V4(v4), Some(i)),
        ),
        m.v6_gateway == Some((v6, j)) ==> m.spec_gateways().v6 == Some(
            Hop::Gateway(IpAddr::V6(v6), Some(j)),
        ),
        m.v4_gateway is None ==> m.spec_gateways().v4 is None,
        m.v6_gateway is None ==> m.spec_gateways().v6 is None,
        !m.capture_ipv6 ==> !m.captures_ipv6(),
        m.capture_ipv6 && m.v6_gateway is Some ==> m.captures_ipv6(),
        m.capture_ipv6 && m.proxy_ip is V6 ==> m.captures_ipv6(),
        m.v6_gateway is None && m.proxy_ip is V4 ==> !m.captures_ipv6(),
{
}

/// Where there is a gateway to the proxy, exactly the routes of the tunnel are
/// added; where there is none, no route is touched and that is said. What is
/// added and what is taken out at the end are the same routes, wherever IPv6 was
/// led into the tunnel as it was to be.
pub proof fn lemma_plans_match(
    m: RouteManager,
    action: RouteAction,
    key: (IpAddr, u8),
    hop: Hop,
)
    ensures
        m.spec_gateways().spec_hop(m.proxy_ip) is Some ==> (routes::has_step(
            m.apply_plan(),
            action,
            key,
            hop,
        ) <==> action is Add && routes::is_ours(
            m.proxy_ip,
            m.bypass@,
            m.spec_gateways(),
            m.captures_ipv6(),
            key,
            hop,
        )),
        m.spec_gateways().spec_hop(m.proxy_ip) is None ==> m.apply_plan() == seq![
            Item::NoGateway(m.proxy_ip),
        ],
        routes::has_step(m.undo_plan(), action, key, hop) <==> action is Delete && routes::is_ours(
            m.proxy_ip,
            m.bypass@,
            m.spec_gateways(),
            m.capture_ipv6,
            key,
            hop,
        ),
        m.spec_gateways().spec_hop(m.proxy_ip) is Some ==> (m.apply_plan().contains(Item::SkipIpv6)
            <==> m.capture_ipv6 && !m.captures_ipv6()),
{
    let g = m.spec_gateways();
    routes::lemma_undo_steps(m.proxy_ip, m.bypass@, g, m.capture_ipv6, action, key, hop);
    if g.spec_hop(m.proxy_ip) is Some {
        let h = g.spec_hop(m.proxy_ip)->0;
        let led = m.captures_ipv6();
        let items = routes::apply_items(m.proxy_ip, h, m.bypass@, g, led);
        routes::lemma_apply_steps(m.proxy_ip, h, m.bypass@, g, led, action, key, hop);
        let tail = if m.capture_ipv6 && !led {
            seq![Item::SkipIpv6]
        } else {
            Seq::empty()
        };
        routes::lemma_has_step_concat(items, tail, action, key, hop);
        assert(!routes::has_step(tail, action, key, hop));
        assert forall|i: int| 0 <= i < items.len() implies items[i] != Item::SkipIpv6 by {
            if i > 0 {
                routes::lemma_order_of_putting_in(m.proxy_ip, h, m.bypass@, g, led, 0, i);
            }
        }
        let all = m.apply_plan();
        if m.capture_ipv6 && !led {
            assert(all[items.len() as int] == Item::SkipIpv6);
        } else {
            assert(all =~= items);
        }
    }
}

/// How far a change of the configuration went is what is noted of it: the proxy
/// is at its new address once the way there is changed, and the networks are the
/// new ones once all is done. Nothing else changes.
pub proof fn lemma_what_is_noted_of_a_reload(m: RouteManager, plan: ReloadPlan, done: nat)
    ensures
        ({
            let g = m.spec_gateways();
            let a = m.after_reload(plan, done);
            let moves = routes::move_items(g, plan.proxy_route_change).len();
            &&& !m.applied ==> a == m
            &&& plan.proxy_route_change is None ==> a.proxy_ip == m.proxy_ip
            &&& plan.proxy_route_change matches Some((_, to)) ==> {
                &&& g.spec_hop(to) is None ==> a == m
                &&& done < moves ==> a.proxy_ip == m.proxy_ip
                &&& m.applied && g.spec_hop(to) is Some && done >= moves ==> a.proxy_ip == to
            }
            &&& done < m.reload_plan(plan).len() ==> a.bypass == m.bypass
            &&& m.applied && routes::can_move(g, plan.proxy_route_change) && done
                >= m.reload_plan(plan).len() ==> a.bypass == plan.new_bypass
            &&& m == (RouteManager { proxy_ip: m.proxy_ip, bypass: m.bypass, ..a })
        }),
{
}

/// The attribute that comes last counts, and others have no say.
pub proof fn lemma_last_attribute_counts(
    list: Seq<RouteAttribute>,
    a: RouteAttribute,
    v4: Ipv4Addr,
    v6: Ipv6Addr,
    oif: u32,
)
    ensures
        last_v4_gateway(Seq::empty()) is None,
        last_v6_gateway(Seq::empty()) is None,
        last_oif(Seq::empty()) is None,
        last_v4_gateway(list.push(RouteAttribute::Gateway(IpAddr::V4(v4)))) == Some(v4),
        last_v6_gateway(list.push(RouteAttribute::Gateway(IpAddr::V6(v6)))) == Some(v6),
        last_oif(list.push(RouteAttribute::Oif(oif))) == Some(oif),
        !(a matches RouteAttribute::Gateway(IpAddr::V4(_))) ==> last_v4_gateway(list.push(a))
            == last_v4_gateway(list),
        !(a matches RouteAttribute::Gateway(IpAddr::V6(_))) ==> last_v6_gateway(list.push(a))
            == last_v6_gateway(list),
        !(a is Oif) ==> last_oif(list.push(a)) == last_oif(list),
{
    assert(list.push(a).drop_last() =~= list);
}

/// Only a default route names the gateway of the host, and only one that tells
/// both the gateway and its link.
pub proof fn lemma_default_route_names_the_gateway(e: RouteEntry)
    ensures
        e.destination_prefix_length != 0 ==> v4_gateway(e) is None && v6_gateway(e) is None,
        last_oif(e.attributes@) is None ==> v4_gateway(e) is None && v6_gateway(e) is None,
        e.destination_prefix_length == 0 && last_oif(e.attributes@) is Some ==> {
            &&& last_v4_gateway(e.attributes@) matches Some(g) ==> v4_gateway(e) == Some(
                (g, last_oif(e.attributes@)->0),
            )
            &&& last_v6_gateway(e.attributes@) matches Some(g) ==> v6_gateway(e) == Some(
                (g, last_oif(e.attributes@)->0),
            )
            &&& last_v4_gateway(e.attributes@) is None ==> v4_gateway(e) is None
            &&& last_v6_gateway(e.attributes@) is None ==> v6_gateway(e) is None
        },
{
}

/// A request to delete a route names its destination and its link, and the
/// gateway exactly where the route has one.
pub proof fn lemma_deletion_names_the_route(dst: IpAddr, oif: u32, gw: Option<IpAddr>, a: RouteAttribute)
    ensures
        del_attributes(dst, oif, gw).contains(a) <==> {
            ||| a == RouteAttribute::Destination(dst)
            ||| a == RouteAttribute::Oif(oif)
            ||| gw matches Some(g) && a == RouteAttribute::Gateway(g)
        },
        del_attributes(dst, oif, gw).no_duplicates(),
{
    let d = del_attributes(dst, oif, gw);
    assert(d[0] == RouteAttribute::Destination(dst));
    assert(d.last() == RouteAttribute::Oif(oif));
    assert(d[d.len() - 1] == RouteAttribute::Oif(oif));
    if gw is Some {
        assert(d[1] == RouteAttribute::Gateway(gw->0));
    }
}

/// The tunnel is taken out once: after it was put in there are changes to be made
/// for that, and after they were asked for there are none until it is put in
/// again. What is known of the routes stays.
pub proof fn lemma_taken_out_once(m: RouteManager)
    ensures
        m.when_in().teardown_plan() == m.undo_plan(),
        m.when_out().teardown_plan().len() == 0,
        m.when_in().when_out().teardown_plan().len() == 0,
        m.when_out().when_in().teardown_plan() == m.undo_plan(),
        m.applied ==> m.when_in() == m && m.when_out().when_in() == m,
        !m.applied ==> m.when_out() == m && m.when_in().when_out() == m,
        m.undo_plan().len() >= 2,
{
}

/// A message deletes one route only: two that differ in the destination, the
/// prefix length, the link or the gateway need two messages; and it is of the
/// family of the destination.
pub proof fn lemma_message_deletes_one_route(
    m: DelMessage,
    dst: IpAddr,
    prefix: u8,
    oif: u32,
    gw: Option<IpAddr>,
    other: IpAddr,
    other_prefix: u8,
    other_oif: u32,
    other_gw: Option<IpAddr>,
)
    requires
        m.deletes(dst, prefix, oif, gw),
        m.deletes(other, other_prefix, other_oif, other_gw),
    ensures
        dst == other && prefix == other_prefix && oif == other_oif && gw == other_gw,
        m.ipv6 <==> dst is V6,
{
    let a = del_attributes(dst, oif, gw);
    let b = del_attributes(other, other_oif, other_gw);
    assert(a[0] == b[0]);
    assert(a[a.len() - 1] == b[b.len() - 1]);
    if gw is Some {
        assert(a[1] == b[1]);
    }
}

} // verus!
