//! The routes of the tunnel on Windows.

use vstd::prelude::*;
use crate::addr;
use crate::addr::IpAddr;
use crate::config::Config;
use crate::net;
use crate::net::CidrList;
use crate::platform::output;
use crate::platform::routes;
use crate::platform::routes::{Gateways, Hop, Item, Purpose, RouteAction, RouteStep};
use crate::platform::windows::dns::NetshDns;
use crate::reload::ReloadPlan;
use crate::scan;
use crate::text;

verus! {

// ---------------------------------------------------------------------------
// Commands
// ---------------------------------------------------------------------------
/// The gateway that a command prints: an address, and white space around it.
pub open spec fn gateway_value(s: Seq<char>) -> Option<IpAddr> {
    addr::ip_value(scan::trim(s))
}

pub fn gateway_in(s: &str) -> (r: Option<IpAddr>)
    ensures
        r == gateway_value(s@),
{
    let chars = text::chars_of(s);
    addr::read_ip(scan::trimmed(chars.as_slice()))
}

/// The default gateway, from what `powershell` prints.
pub fn default_gateway(stdout: &[u8]) -> (r: Option<IpAddr>)
    ensures
        r == gateway_value(output::lossy_text(stdout@)),
{
    let s = output::lossy(stdout);
    gateway_in(s.as_str())
}

/// How many binary ones a number has.
pub open spec fn ones(n: nat) -> nat
    decreases n,
{
    if n == 0 {
        0
    } else {
        n % 2 + ones(n / 2)
    }
}

proof fn lemma_ones_bound(n: nat, bits: nat)
    requires
        n < vstd::arithmetic::power2::pow2(bits),
    ensures
        ones(n) <= bits,
    decreases bits,
{
    if n > 0 {
        if bits == 0 {
            vstd::arithmetic::power2::lemma2_to64();
        } else {
            vstd::arithmetic::power2::lemma_pow2_unfold(bits);
            lemma_ones_bound(n / 2, (bits - 1) as nat);
        }
    }
}

/// The prefix length of a netmask in dotted decimal, or one where it is none.
pub open spec fn mask_value(mask: Seq<char>) -> nat {
    match addr::ipv4_value(mask) {
        Some(m) => ones(m.bits as nat),
        None => 1,
    }
}

/// The prefix length of a netmask in dotted decimal, or one where it is none.
pub fn mask_to_prefix(mask: &str) -> (r: u8)
    ensures
        r as nat == mask_value(mask@),
{
    match addr::parse_ipv4(mask) {
        Some(m) => {
            let mut rest: u32 = m.bits;
            let mut count: u8 = 0;
            proof {
                vstd::arithmetic::power2::lemma2_to64();
                lemma_ones_bound(m.bits as nat, 32);
            }
            while rest > 0
                invariant
                    count + ones(rest as nat) == ones(m.bits as nat),
                    ones(m.bits as nat) <= 32,
                decreases rest,
            {
                if rest % 2 == 1 {
                    count = count + 1;
                }
                rest = rest / 2;
            }
            count
        },
        None => 1,
    }
}

/// The word for the family of a route. The way to the proxy is always changed
/// as an IPv4 route.
pub open spec fn family_word(s: RouteStep) -> Seq<char> {
    if s.purpose == Purpose::Proxy || s.dst is V4 {
        "ipv4"@
    } else {
        "ipv6"@
    }
}

/// The arguments of `netsh` for one change. A route that is added is not kept
/// over a restart.
pub open spec fn route_args(s: RouteStep, interface: Seq<char>) -> Seq<Seq<char>> {
    seq![
        "interface"@,
        family_word(s),
        match s.action {
            RouteAction::Add => "add"@,
            RouteAction::Delete => "delete"@,
        },
        "route"@,
        output::network_text(s.dst, s.prefix),
        match s.hop {
            Hop::Gateway(gw, _) => "nexthop="@ + gw.text(),
            Hop::Tun => "interface="@ + interface,
        },
    ] + (match s.action {
        RouteAction::Add => seq!["store=active"@],
        RouteAction::Delete => Seq::empty(),
    })
}

pub fn render_args(s: &RouteStep, interface: &str) -> (r: Vec<String>)
    ensures
        text::texts(r@) == route_args(*s, interface@),
{
    let mut args: Vec<String> = Vec::new();
    output::push_arg(&mut args, "interface");
    if s.purpose == Purpose::Proxy || s.dst.is_ipv4() {
        output::push_arg(&mut args, "ipv4");
    } else {
        output::push_arg(&mut args, "ipv6");
    }
    match s.action {
        RouteAction::Add => output::push_arg(&mut args, "add"),
        RouteAction::Delete => output::push_arg(&mut args, "delete"),
    }
    output::push_arg(&mut args, "route");
    let network = output::write_network(s.dst, s.prefix);
    output::push_arg(&mut args, network.as_str());
    match s.hop {
        Hop::Gateway(gw, _) => {
            let g = gw.to_text();
            let arg = output::joined("nexthop=", g.as_str());
            output::push_arg(&mut args, arg.as_str());
        },
        Hop::Tun => {
            let arg = output::joined("interface=", interface);
            output::push_arg(&mut args, arg.as_str());
        },
    }
    match s.action {
        RouteAction::Add => output::push_arg(&mut args, "store=active"),
        RouteAction::Delete => {},
    }
    assert(text::texts(args@) =~= route_args(*s, interface@));
    args
}

// ---------------------------------------------------------------------------
// The routes of the tunnel
// ---------------------------------------------------------------------------
pub struct WindowsRoutes {
    pub proxy_ip: IpAddr,
    pub interface: String,
    pub bypass: CidrList,
    pub capture_ipv6: bool,
    pub gateway: Option<IpAddr>,
    pub dns: NetshDns,
    pub dns_server: Option<IpAddr>,
    pub applied: bool,
}

impl WindowsRoutes {
    /// The one gateway serves both families.
    pub open spec fn spec_gateways(self) -> Gateways {
        let hop = match self.gateway {
            Some(g) => Some(Hop::Gateway(g, None)),
            None => None,
        };
        Gateways { v4: hop, v6: hop }
    }

    pub fn new(
        cfg: &Config,
        proxy_ip: IpAddr,
        interface: String,
        capture_ipv6: bool,
    ) -> (r: WindowsRoutes)
        requires
            cfg.has_bypass_routes(),
            cfg.has_dns_addr(),
        ensures
            r.proxy_ip == proxy_ip,
            r.interface == interface,
            r.bypass@ == cfg.spec_bypass(),
            r.capture_ipv6 == capture_ipv6,
            r.gateway is None,
            r.dns == (NetshDns { interface, current: None, configured: false }),
            r.dns_server == cfg.spec_dns_addr(),
            !r.applied,
    {
        let name = interface.clone();
        WindowsRoutes {
            proxy_ip,
            interface,
            bypass: cfg.bypass_routes(),
            capture_ipv6,
            gateway: None,
            dns: NetshDns::new(name),
            dns_server: cfg.dns_addr(),
            applied: false,
        }
    }

    fn gateways(&self) -> (r: Gateways)
        ensures
            r == self.spec_gateways(),
    {
        let hop = match self.gateway {
            Some(g) => Some(Hop::Gateway(g, None)),
            None => None,
        };
        Gateways { v4: hop, v6: hop }
    }

    /// The changes that put the tunnel into the routing table. Only those of
    /// the way to the proxy and of IPv4 have to succeed.
    pub open spec fn apply_plan(self) -> Seq<Item> {
        let g = self.spec_gateways();
        (match g.v4 {
            Some(hop) => seq![
                Item::Step(routes::host_step(RouteAction::Add, self.proxy_ip, hop, true)),
            ],
            None => seq![Item::ProxyUnpinned],
        }) + routes::bypass_items(RouteAction::Add, self.bypass@, g, false, false)
            + routes::split_items(RouteAction::Add, false, true) + (if self.capture_ipv6 {
            routes::split_items(RouteAction::Add, true, false)
        } else {
            Seq::empty()
        })
    }

    /// Takes note of the gateway, and plans the changes that put the tunnel
    /// into the routing table.
    pub fn apply(&mut self, gateway: Option<IpAddr>) -> (r: Vec<Item>)
        ensures
            *final(self) == (WindowsRoutes { gateway, ..*old(self) }),
            r@ == final(self).apply_plan(),
    {
        self.gateway = gateway;
        let g = self.gateways();
        let mut items: Vec<Item> = Vec::new();
        match g.v4 {
            Some(hop) => {
                items.push(
                    Item::Step(routes::make_host_step(RouteAction::Add, self.proxy_ip, hop, true)),
                );
            },
            None => {
                items.push(Item::ProxyUnpinned);
            },
        }
        routes::push_bypass(
            &mut items,
            RouteAction::Add,
            self.bypass.as_slice(),
            &g,
            false,
            false,
        );
        routes::push_split(&mut items, RouteAction::Add, false, true);
        if self.capture_ipv6 {
            routes::push_split(&mut items, RouteAction::Add, true, false);
        }
        assert(items@ =~= self.apply_plan());
        items
    }

    /// The name server that is in place.
    pub fn note_dns(&mut self, server: Option<IpAddr>)
        ensures
            *final(self) == (WindowsRoutes { dns_server: server, ..*old(self) }),
    {
        self.dns_server = server;
    }

    /// The routes and the name server are in place.
    pub fn mark_applied(&mut self)
        ensures
            *final(self) == old(self).when_in(),
    {
        self.applied = true;
    }

    /// The changes that move the way to the proxy: none without a gateway.
    pub open spec fn move_plan(self, change: Option<(IpAddr, IpAddr)>) -> Seq<Item> {
        match (change, self.spec_gateways().v4) {
            (Some((from, to)), Some(hop)) => seq![
                Item::Step(routes::host_step(RouteAction::Delete, from, hop, false)),
                Item::Step(routes::host_step(RouteAction::Add, to, hop, true)),
            ],
            _ => Seq::empty(),
        }
    }

    /// The changes that follow a change of the configuration.
    pub open spec fn reload_plan(self, plan: ReloadPlan) -> Seq<Item> {
        let g = self.spec_gateways();
        if self.applied {
            self.move_plan(plan.proxy_route_change) + routes::bypass_items(
                RouteAction::Delete,
                plan.bypass_remove@,
                g,
                false,
                false,
            ) + routes::bypass_items(RouteAction::Add, plan.bypass_add@, g, false, false)
        } else {
            Seq::empty()
        }
    }

    fn push_move(&self, items: &mut Vec<Item>, change: Option<(IpAddr, IpAddr)>)
        ensures
            final(items)@ == old(items)@ + self.move_plan(change),
    {
        let ghost before = items@;
        let g = self.gateways();
        match (change, g.v4) {
            (Some((from, to)), Some(hop)) => {
                items.push(
                    Item::Step(routes::make_host_step(RouteAction::Delete, from, hop, false)),
                );
                items.push(Item::Step(routes::make_host_step(RouteAction::Add, to, hop, true)));
            },
            _ => {},
        }
        assert(items@ =~= before + self.move_plan(change));
    }

    /// Plans the changes that follow a change of the configuration.
    pub fn reload(&self, plan: &ReloadPlan) -> (r: Vec<Item>)
        ensures
            r@ == self.reload_plan(*plan),
    {
        let mut items: Vec<Item> = Vec::new();
        if self.applied {
            let g = self.gateways();
            self.push_move(&mut items, plan.proxy_route_change);
            routes::push_bypass(
                &mut items,
                RouteAction::Delete,
                plan.bypass_remove.as_slice(),
                &g,
                false,
                false,
            );
            routes::push_bypass(
                &mut items,
                RouteAction::Add,
                plan.bypass_add.as_slice(),
                &g,
                false,
                false,
            );
        }
        assert(items@ =~= self.reload_plan(*plan));
        items
    }

    /// The routes once the first `done` items of the plan have gone through.
    pub open spec fn after_reload(self, plan: ReloadPlan, done: nat) -> WindowsRoutes {
        let change = plan.proxy_route_change;
        WindowsRoutes {
            proxy_ip: if self.applied && done >= self.move_plan(change).len() {
                routes::moved_proxy(self.proxy_ip, change)
            } else {
                self.proxy_ip
            },
            bypass: if self.applied && done >= self.reload_plan(plan).len() {
                plan.new_bypass
            } else {
                self.bypass
            },
            ..self
        }
    }

    /// Takes note of how far the plan for a change of the configuration went.
    pub fn finish_reload(&mut self, plan: ReloadPlan, done: usize)
        ensures
            *final(self) == old(self).after_reload(plan, done as nat),
    {
        if !self.applied {
            return;
        }
        let mut head: Vec<Item> = Vec::new();
        self.push_move(&mut head, plan.proxy_route_change);
        let all = self.reload(&plan);
        assert(head@ =~= self.move_plan(plan.proxy_route_change));
        if done >= head.len() {
            match plan.proxy_route_change {
                Some((_, to)) => {
                    self.proxy_ip = to;
                },
                None => {},
            }
        }
        if done >= all.len() {
            self.bypass = plan.new_bypass;
        }
    }

    /// The changes that take the tunnel out of the routing table.
    pub open spec fn undo_plan(self) -> Seq<Item> {
        routes::undo_items(self.proxy_ip, self.bypass@, self.spec_gateways(), self.capture_ipv6)
    }

    /// The routes once they have been put in.
    pub open spec fn when_in(self) -> WindowsRoutes {
        WindowsRoutes { applied: true, ..self }
    }

    /// The routes once they are to be taken out.
    pub open spec fn when_out(self) -> WindowsRoutes {
        WindowsRoutes { applied: false, ..self }
    }

    /// The changes that are left to take the tunnel out of the routing table:
    /// none where it is not in.
    pub open spec fn teardown_plan(self) -> Seq<Item> {
        if self.applied {
            self.undo_plan()
        } else {
            Seq::empty()
        }
    }

    /// Plans the changes that take the tunnel out of the routing table, once.
    pub fn teardown(&mut self) -> (r: Vec<Item>)
        ensures
            *final(self) == old(self).when_out(),
            r@ == old(self).teardown_plan(),
    {
        let mut items: Vec<Item> = Vec::new();
        if !self.applied {
            assert(items@ =~= Seq::<Item>::empty());
            return items;
        }
        self.applied = false;
        let g = self.gateways();
        routes::push_undo(
            &mut items,
            self.proxy_ip,
            self.bypass.as_slice(),
            &g,
            self.capture_ipv6,
        );
        assert(items@ =~= old(self).undo_plan());
        items
    }

    /// Whether the routes are those of a configuration.
    pub open spec fn serves(self, cfg: Config) -> bool {
        routes::serves(self.proxy_ip, self.bypass@, cfg)
    }

    /// Whether the table is `before` with the routes of the tunnel in it, all
    /// of them.
    pub open spec fn in_place(self, t: routes::Table, before: routes::Table) -> bool {
        routes::in_place(
            t,
            before,
            self.proxy_ip,
            self.bypass@,
            self.spec_gateways(),
            self.capture_ipv6,
        )
    }

    /// Whether no route of the tunnel stands in the table.
    pub open spec fn none_in(self, t: routes::Table) -> bool {
        routes::none_ours(
            self.proxy_ip,
            self.bypass@,
            self.spec_gateways(),
            self.capture_ipv6,
            t,
        )
    }

    /// Whether the table is `before` and, beyond it, nothing but routes that
    /// taking the tunnel out deletes.
    pub open spec fn owes(self, t: routes::Table, before: routes::Table) -> bool {
        routes::owed(t, before, self.undo_plan())
    }
}

proof fn lemma_apply_steps(m: WindowsRoutes, action: RouteAction, key: (IpAddr, u8), to: Hop)
    ensures
        routes::has_step(m.apply_plan(), action, key, to) == (action == RouteAction::Add
            && routes::is_ours(
            m.proxy_ip,
            m.bypass@,
            m.spec_gateways(),
            m.capture_ipv6,
            key,
            to,
        )),
{
    let g = m.spec_gateways();
    let a = match g.v4 {
        Some(hop) => seq![
            Item::Step(routes::host_step(RouteAction::Add, m.proxy_ip, hop, true)),
        ],
        None => seq![Item::ProxyUnpinned],
    };
    let b = routes::bypass_items(RouteAction::Add, m.bypass@, g, false, false);
    let c = routes::split_items(RouteAction::Add, false, true);
    let d = if m.capture_ipv6 {
        routes::split_items(RouteAction::Add, true, false)
    } else {
        Seq::empty()
    };
    routes::lemma_has_step_concat(a + b + c, d, action, key, to);
    routes::lemma_has_step_concat(a + b, c, action, key, to);
    routes::lemma_has_step_concat(a, b, action, key, to);
    match g.v4 {
        Some(hop) => {
            routes::lemma_single_step(
                routes::host_step(RouteAction::Add, m.proxy_ip, hop, true),
                action,
                key,
                to,
            );
        },
        None => {
            assert(!routes::has_step(a, action, key, to));
        },
    }
    routes::lemma_bypass_steps(
        RouteAction::Add,
        m.bypass@,
        g,
        false,
        false,
        action,
        key,
        to,
    );
    routes::lemma_split_steps(RouteAction::Add, false, true, action, key, to);
    if m.capture_ipv6 {
        routes::lemma_split_steps(RouteAction::Add, true, false, action, key, to);
    } else {
        routes::lemma_no_step_in_empty(action, key, to);
    }
}

/// Putting the tunnel into a table that has none of its routes puts it in
/// place, leaves owed what taking it out deletes, and keeps the way to the
/// proxy out of the tunnel where there is a gateway.
pub proof fn lemma_apply(m: WindowsRoutes, before: routes::Table)
    requires
        m.none_in(before),
    ensures
        m.owes(routes::performed_all(before, m.apply_plan()), before),
        routes::all_narrow(m.bypass@) ==> m.in_place(
            routes::performed_all(before, m.apply_plan()),
            before,
        ),
        m.gateway is Some ==> ({
            let t = routes::performed_all(before, m.apply_plan());
            let p = (m.proxy_ip, routes::host_bits(m.proxy_ip));
            t.dom().contains(p) && t[p] == Hop::Gateway(m.gateway->0, None)
        }),
{
    let g = m.spec_gateways();
    let items = m.apply_plan();
    let undo = m.undo_plan();
    assert forall|action: RouteAction, k: (IpAddr, u8), h: Hop|
        routes::has_step(items, action, k, h) implies !before.dom().contains(k) by {
        lemma_apply_steps(m, action, k, h);
        assert(routes::is_ours(m.proxy_ip, m.bypass@, g, m.capture_ipv6, k, h));
    }
    routes::lemma_leaves_alone(items, before);
    assert forall|k: (IpAddr, u8), h: Hop| routes::has_step(
        items,
        RouteAction::Add,
        k,
        h,
    ) implies routes::has_step(undo, RouteAction::Delete, k, h) by {
        lemma_apply_steps(m, RouteAction::Add, k, h);
        routes::lemma_undo_steps(
            m.proxy_ip,
            m.bypass@,
            g,
            m.capture_ipv6,
            RouteAction::Delete,
            k,
            h,
        );
    }
    assert(routes::owed(before, before, Seq::<Item>::empty()));
    routes::lemma_plan_stays_owed(before, before, Seq::<Item>::empty(), items, undo);
    if routes::all_narrow(m.bypass@) {
        assert forall|action: RouteAction, k: (IpAddr, u8), h: Hop| #[trigger]
            routes::has_step(items, action, k, h) == (action == RouteAction::Add
                && routes::is_ours(m.proxy_ip, m.bypass@, g, m.capture_ipv6, k, h)) by {
            lemma_apply_steps(m, action, k, h);
        }
        routes::lemma_apply_puts_in_place(
            items,
            before,
            m.proxy_ip,
            m.bypass@,
            g,
            m.capture_ipv6,
        );
    }
    if m.gateway is Some {
        let hop = Hop::Gateway(m.gateway->0, None);
        let k = (m.proxy_ip, routes::host_bits(m.proxy_ip));
        assert forall|h: Hop| routes::has_step(items, RouteAction::Add, k, h) implies h == hop by {
            lemma_apply_steps(m, RouteAction::Add, k, h);
        }
        assert forall|h: Hop| !routes::has_step(items, RouteAction::Delete, k, h) by {
            lemma_apply_steps(m, RouteAction::Delete, k, h);
        }
        lemma_apply_steps(m, RouteAction::Add, k, hop);
        routes::lemma_added_route_stands(before, items, k, hop);
    }
}

proof fn lemma_reload_steps(
    m: WindowsRoutes,
    plan: ReloadPlan,
    action: RouteAction,
    key: (IpAddr, u8),
    hop: Hop,
)
    requires
        m.applied,
    ensures
        routes::has_step(m.reload_plan(plan), action, key, hop) == ({
            let to_gateway = m.spec_gateways().v4 == Some(hop);
            ||| (plan.proxy_route_change matches Some((from, to)) && to_gateway && ((action
                == RouteAction::Delete && key == (from, routes::host_bits(from))) || (action
                == RouteAction::Add && key == (to, routes::host_bits(to)))))
            ||| action == RouteAction::Delete && plan.bypass_remove@.contains(key) && to_gateway
            ||| action == RouteAction::Add && plan.bypass_add@.contains(key) && to_gateway
        }),
{
    let g = m.spec_gateways();
    let a = m.move_plan(plan.proxy_route_change);
    let b = routes::bypass_items(RouteAction::Delete, plan.bypass_remove@, g, false, false);
    let c = routes::bypass_items(RouteAction::Add, plan.bypass_add@, g, false, false);
    routes::lemma_has_step_concat(a + b, c, action, key, hop);
    routes::lemma_has_step_concat(a, b, action, key, hop);
    routes::lemma_bypass_steps(
        RouteAction::Delete,
        plan.bypass_remove@,
        g,
        false,
        false,
        action,
        key,
        hop,
    );
    routes::lemma_bypass_steps(
        RouteAction::Add,
        plan.bypass_add@,
        g,
        false,
        false,
        action,
        key,
        hop,
    );
    match (plan.proxy_route_change, g.v4) {
        (Some((from, to)), Some(h)) => {
            let d = routes::host_step(RouteAction::Delete, from, h, false);
            let s = routes::host_step(RouteAction::Add, to, h, true);
            assert(a =~= seq![Item::Step(d)] + seq![Item::Step(s)]);
            routes::lemma_has_step_concat(
                seq![Item::Step(d)],
                seq![Item::Step(s)],
                action,
                key,
                hop,
            );
            routes::lemma_single_step(d, action, key, hop);
            routes::lemma_single_step(s, action, key, hop);
        },
        _ => {
            routes::lemma_no_step_in_empty(action, key, hop);
        },
    }
}

/// A change of the configuration that goes through leads to the routes of the
/// new one, and leaves owed what taking the tunnel out deletes from then on.
pub proof fn lemma_reload(
    m: WindowsRoutes,
    from: Config,
    to: Config,
    plan: ReloadPlan,
    t: routes::Table,
    before: routes::Table,
)
    requires
        m.applied,
        m.serves(from),
        plan.leads(from, to),
        m.owes(t, before),
        m.none_in(before),
        m.after_reload(plan, m.reload_plan(plan).len()).none_in(before),
    ensures
        m.after_reload(plan, m.reload_plan(plan).len()).owes(
            routes::performed_all(t, m.reload_plan(plan)),
            before,
        ),
        m.after_reload(plan, m.reload_plan(plan).len()).serves(to),
        m.after_reload(plan, m.reload_plan(plan).len()).applied,
{
    routes::lemma_plan_leads_over(m.bypass@, plan, from, to);
    let g = m.spec_gateways();
    let items = m.reload_plan(plan);
    let after = m.after_reload(plan, items.len());
    assert(after.spec_gateways() == g);
    assert(items.len() >= m.move_plan(plan.proxy_route_change).len());
    assert forall|action: RouteAction, k: (IpAddr, u8), h: Hop|
        routes::has_step(items, action, k, h) implies !before.dom().contains(k) by {
        lemma_reload_steps(m, plan, action, k, h);
        assert(routes::is_ours(m.proxy_ip, m.bypass@, g, m.capture_ipv6, k, h) || routes::is_ours(
            after.proxy_ip,
            after.bypass@,
            g,
            m.capture_ipv6,
            k,
            h,
        ));
    }
    routes::lemma_leaves_alone(items, before);
    assert forall|k: (IpAddr, u8), h: Hop| routes::has_step(
        items,
        RouteAction::Add,
        k,
        h,
    ) implies routes::has_step(after.undo_plan(), RouteAction::Delete, k, h) by {
        lemma_reload_steps(m, plan, RouteAction::Add, k, h);
        routes::lemma_undo_steps(
            after.proxy_ip,
            after.bypass@,
            g,
            m.capture_ipv6,
            RouteAction::Delete,
            k,
            h,
        );
    }
    assert forall|k: (IpAddr, u8), h: Hop| routes::has_step(
        m.undo_plan(),
        RouteAction::Delete,
        k,
        h,
    ) implies routes::has_step(after.undo_plan(), RouteAction::Delete, k, h) || routes::has_step(
        items,
        RouteAction::Delete,
        k,
        h,
    ) by {
        lemma_reload_steps(m, plan, RouteAction::Delete, k, h);
        routes::lemma_undo_steps(
            m.proxy_ip,
            m.bypass@,
            g,
            m.capture_ipv6,
            RouteAction::Delete,
            k,
            h,
        );
        routes::lemma_undo_steps(
            after.proxy_ip,
            after.bypass@,
            g,
            m.capture_ipv6,
            RouteAction::Delete,
            k,
            h,
        );
    }
    routes::lemma_plan_stays_owed(t, before, m.undo_plan(), items, after.undo_plan());
}

/// With the tunnel in place, traffic to the proxy and to the networks that
/// bypass the tunnel goes past it, and all other traffic goes into it: of
/// IPv4, and of IPv6 where that is led there, as far as there was nothing but a
/// default route to it before.
pub proof fn lemma_traffic_takes_its_way(
    m: WindowsRoutes,
    t: routes::Table,
    before: routes::Table,
    a: IpAddr,
    k: (IpAddr, u8),
)
    requires
        m.in_place(t, before),
        routes::all_narrow(m.bypass@),
        routes::all_outside(m.spec_gateways(), before),
        routes::takes(t, k, a),
    ensures
        routes::is_bypassed(m.bypass@, m.spec_gateways(), a) ==> t[k] != Hop::Tun,
        a == m.proxy_ip && m.spec_gateways().spec_hop(m.proxy_ip) is Some ==> t[k] != Hop::Tun,
        ({
            &&& a is V6 ==> m.capture_ipv6
            &&& a != m.proxy_ip
            &&& !routes::is_bypassed(m.bypass@, m.spec_gateways(), a)
            &&& forall|o: (IpAddr, u8)| #[trigger]
                before.dom().contains(o) && net::covers(o.0, o.1, a) ==> o.1 == 0
        }) ==> t[k] == Hop::Tun,
{
    routes::lemma_traffic_takes_its_way(
        t,
        before,
        m.proxy_ip,
        m.bypass@,
        m.spec_gateways(),
        m.capture_ipv6,
        a,
        k,
    );
}

/// A change of the configuration that goes through puts the routes of the new
/// one in place.
pub proof fn lemma_reload_keeps_in_place(
    m: WindowsRoutes,
    from: Config,
    to: Config,
    plan: ReloadPlan,
    t: routes::Table,
    before: routes::Table,
)
    requires
        m.applied,
        m.serves(from),
        plan.leads(from, to),
        routes::all_narrow(m.bypass@),
        routes::all_narrow(plan.new_bypass@),
        routes::keeps_apart(m.proxy_ip, plan.proxy_route_change, m.bypass@, plan.new_bypass@),
        m.in_place(t, before),
    ensures
        m.after_reload(plan, m.reload_plan(plan).len()).in_place(
            routes::performed_all(t, m.reload_plan(plan)),
            before,
        ),
{
    let g = m.spec_gateways();
    let change = plan.proxy_route_change;
    let remove = plan.bypass_remove@;
    let add = plan.bypass_add@;
    let items = m.reload_plan(plan);
    let tail = routes::bypass_items(RouteAction::Add, add, g, false, false);
    let after = m.after_reload(plan, items.len());
    assert(after.spec_gateways() == g);
    assert(items =~= items.take(items.len() - tail.len()) + tail);
    assert forall|action: RouteAction, k: (IpAddr, u8), hop: Hop| #[trigger]
        routes::has_step(items, action, k, hop) == (g.spec_hop(k.0) == Some(hop) && match action {
            RouteAction::Delete => remove.contains(k) || (change matches Some((old_ip, _)) && k == (
                old_ip,
                routes::host_bits(old_ip),
            )),
            RouteAction::Add => add.contains(k) || (change matches Some((_, new_ip)) && k == (
                new_ip,
                routes::host_bits(new_ip),
            )),
        }) by {
        lemma_reload_steps(m, plan, action, k, hop);
    }
    assert forall|action: RouteAction, k: (IpAddr, u8), hop: Hop| #[trigger]
        routes::has_step(tail, action, k, hop) == (action == RouteAction::Add && add.contains(k)
            && g.spec_hop(k.0) == Some(hop)) by {
        routes::lemma_bypass_steps(RouteAction::Add, add, g, false, false, action, k, hop);
    }
    routes::lemma_plan_leads_over(m.bypass@, plan, from, to);
    routes::lemma_reload_keeps_in_place(
        items,
        tail,
        m.proxy_ip,
        m.bypass@,
        plan.new_bypass@,
        g,
        m.capture_ipv6,
        change,
        remove,
        add,
        t,
        before,
    );
}

/// Taking the tunnel out of the table gives it back as it was before the
/// tunnel came, whatever changes of the configuration went through since.
pub proof fn lemma_teardown_restores(m: WindowsRoutes, t: routes::Table, before: routes::Table)
    requires
        m.owes(t, before),
        m.none_in(before),
    ensures
        routes::performed_all(t, m.undo_plan()) == before,
{
    routes::lemma_teardown_restores(
        m.proxy_ip,
        m.bypass@,
        m.spec_gateways(),
        m.capture_ipv6,
        t,
        before,
    );
}

proof fn lemma_ones_of_shifted(n: nat, k: nat)
    ensures
        ones(n * vstd::arithmetic::power2::pow2(k)) == ones(n),
    decreases k,
{
    vstd::arithmetic::power2::lemma2_to64();
    if k == 0 {
        assert(n * vstd::arithmetic::power2::pow2(0) == n) by (nonlinear_arith)
            requires
                vstd::arithmetic::power2::pow2(0) == 1,
        ;
    } else {
        let q = vstd::arithmetic::power2::pow2((k - 1) as nat);
        vstd::arithmetic::power2::lemma_pow2_unfold(k);
        lemma_ones_of_shifted(n, (k - 1) as nat);
        let m = n * q;
        assert(n * (2 * q) == 2 * m) by (nonlinear_arith)
            requires
                m == n * q,
        ;
        if m > 0 {
            assert((2 * m) % 2 == 0 && (2 * m) / 2 == m);
        }
    }
}

proof fn lemma_ones_of_all(k: nat)
    ensures
        ones((vstd::arithmetic::power2::pow2(k) - 1) as nat) == k,
    decreases k,
{
    vstd::arithmetic::power2::lemma2_to64();
    if k > 0 {
        let q = vstd::arithmetic::power2::pow2((k - 1) as nat);
        vstd::arithmetic::power2::lemma_pow2_unfold(k);
        vstd::arithmetic::power2::lemma_pow2_pos((k - 1) as nat);
        lemma_ones_of_all((k - 1) as nat);
        let n = (2 * q - 1) as nat;
        assert(n % 2 == 1 && n / 2 == q - 1);
    }
}

/// The netmask of a prefix, so many ones and then zeros, gives that prefix back;
/// and so does no other text give one but by its ones, or one where it is no
/// netmask at all.
pub proof fn lemma_mask_of_prefix(prefix: u8, mask: addr::Ipv4Addr, s: Seq<char>)
    requires
        prefix <= 32,
        mask.bits == (vstd::arithmetic::power2::pow2(prefix as nat) - 1)
            * vstd::arithmetic::power2::pow2((32 - prefix) as nat),
    ensures
        mask_value(mask.text()) == prefix,
        addr::ipv4_value(s) is None ==> mask_value(s) == 1,
{
    addr::lemma_ipv4_round_trip(mask);
    vstd::arithmetic::power2::lemma_pow2_pos(prefix as nat);
    lemma_ones_of_all(prefix as nat);
    lemma_ones_of_shifted(
        (vstd::arithmetic::power2::pow2(prefix as nat) - 1) as nat,
        (32 - prefix) as nat,
    );
}

/// The command names what is done, the network as it reads back, and where the
/// route leads. The family is that of the network, but for the way to the proxy,
/// which always counts as IPv4. Only a route that is added says that it is not
/// kept.
pub proof fn lemma_command_says_what_is_done(s: RouteStep, interface: Seq<char>)
    ensures
        ({
            let a = route_args(s, interface);
            &&& a.len() >= 6
            &&& a[0] == "interface"@
            &&& s.purpose is Proxy || s.dst is V4 ==> a[1] == "ipv4"@
            &&& !(s.purpose is Proxy) && s.dst is V6 ==> a[1] == "ipv6"@
            &&& s.action is Add ==> a[2] == "add"@ && a.len() == 7 && a[6] == "store=active"@
            &&& s.action is Delete ==> a[2] == "delete"@ && a.len() == 6
            &&& a[3] == "route"@
            &&& s.prefix <= (if s.dst is V4 {
                32u8
            } else {
                128u8
            }) ==> crate::config::cidr_value(a[4]) == Ok::<
                (IpAddr, u8),
                crate::config::CidrError,
            >((s.dst, s.prefix))
            &&& s.hop matches Hop::Gateway(g, _) ==> a[5] == "nexthop="@ + g.text()
            &&& s.hop is Tun ==> a[5] == "interface="@ + interface
        }),
{
    output::lemma_network_text_reads_back(s.dst, s.prefix);
}

/// The one gateway serves both families. Where there is one, the way to the proxy
/// is added by it; where there is none, that is said, and no network bypasses the
/// tunnel. The halves are added in any case, those of IPv6 where it is captured.
pub proof fn lemma_what_is_put_in(
    m: WindowsRoutes,
    g: IpAddr,
    key: (IpAddr, u8),
    hop: Hop,
    action: RouteAction,
)
    ensures
        m.gateway == Some(g) ==> m.spec_gateways().v4 == Some(Hop::Gateway(g, None))
            && m.spec_gateways().v6 == Some(Hop::Gateway(g, None)),
        m.gateway is None ==> m.spec_gateways().v4 is None && m.spec_gateways().v6 is None,
        m.gateway is None ==> m.apply_plan()[0] == Item::ProxyUnpinned,
        m.gateway is Some ==> (m.apply_plan()[0] matches Item::Step(s) && s.dst == m.proxy_ip
            && s.required && s.action is Add),
        routes::has_step(m.apply_plan(), action, key, hop) <==> action is Add && routes::is_ours(
            m.proxy_ip,
            m.bypass@,
            m.spec_gateways(),
            m.capture_ipv6,
            key,
            hop,
        ),
        routes::has_step(m.undo_plan(), action, key, hop) <==> action is Delete && routes::is_ours(
            m.proxy_ip,
            m.bypass@,
            m.spec_gateways(),
            m.capture_ipv6,
            key,
            hop,
        ),
{
    let gw = m.spec_gateways();
    routes::lemma_undo_steps(m.proxy_ip, m.bypass@, gw, m.capture_ipv6, action, key, hop);
    let a = match gw.v4 {
        Some(h) => seq![Item::Step(routes::host_step(RouteAction::Add, m.proxy_ip, h, true))],
        None => seq![Item::ProxyUnpinned],
    };
    let b = routes::bypass_items(RouteAction::Add, m.bypass@, gw, false, false);
    let c = routes::split_items(RouteAction::Add, false, true);
    let d = if m.capture_ipv6 {
        routes::split_items(RouteAction::Add, true, false)
    } else {
        Seq::empty()
    };
    routes::lemma_has_step_concat(a + b + c, d, action, key, hop);
    routes::lemma_has_step_concat(a + b, c, action, key, hop);
    routes::lemma_has_step_concat(a, b, action, key, hop);
    match gw.v4 {
        Some(h) => {
            routes::lemma_single_step(
                routes::host_step(RouteAction::Add, m.proxy_ip, h, true),
                action,
                key,
                hop,
            );
        },
        None => {
            assert(!routes::has_step(seq![Item::ProxyUnpinned], action, key, hop));
        },
    }
    routes::lemma_bypass_steps(
        RouteAction::Add,
        m.bypass@,
        gw,
        false,
        false,
        action,
        key,
        hop,
    );
    routes::lemma_split_steps(RouteAction::Add, false, true, action, key, hop);
    if m.capture_ipv6 {
        routes::lemma_split_steps(RouteAction::Add, true, false, action, key, hop);
    } else {
        routes::lemma_no_step_in_empty(action, key, hop);
    }
}

/// How far a change of the configuration went is what is noted of it: the proxy
/// is at its new address once the way there is changed, and the networks are the
/// new ones once all is done. Nothing else changes.
pub proof fn lemma_what_is_noted_of_a_reload(m: WindowsRoutes, plan: ReloadPlan, done: nat)
    ensures
        ({
            let a = m.after_reload(plan, done);
            let moves = m.move_plan(plan.proxy_route_change).len();
            &&& !m.applied ==> a == m
            &&& plan.proxy_route_change is None ==> a.proxy_ip == m.proxy_ip
            &&& plan.proxy_route_change matches Some((_, to)) ==> {
                &&& done < moves ==> a.proxy_ip == m.proxy_ip
                &&& m.applied && done >= moves ==> a.proxy_ip == to
            }
            &&& done < m.reload_plan(plan).len() ==> a.bypass == m.bypass
            &&& m.applied && done >= m.reload_plan(plan).len() ==> a.bypass == plan.new_bypass
            &&& m == (WindowsRoutes { proxy_ip: m.proxy_ip, bypass: m.bypass, ..a })
        }),
{
}

/// A gateway that is printed is read, with blanks before it and a line end behind
/// or without; where nothing is printed there is none.
pub proof fn lemma_printed_gateway_is_read(gap: Seq<char>, gateway: IpAddr)
    requires
        forall|i: int| 0 <= i < gap.len() ==> gap[i] == ' ',
    ensures
        gateway_value(gap + gateway.text() + seq!['\r', '\n']) == Some(gateway),
        gateway_value(gateway.text()) == Some(gateway),
{
    let none = Seq::<char>::empty();
    let t = gateway.text();
    addr::lemma_ip_round_trip(gateway);
    addr::lemma_text_has_no_white_space(gateway);
    scan::lemma_trim_gives_what_is_between(gap, t, seq!['\r', '\n']);
    assert(none + t + none =~= t);
    scan::lemma_trim_gives_what_is_between(none, t, none);
}

/// The tunnel is taken out once: after it was put in there are changes to be made
/// for that, and after they were asked for there are none until it is put in
/// again. What is known of the routes stays.
pub proof fn lemma_taken_out_once(m: WindowsRoutes)
    ensures
        m.when_in().teardown_plan() == m.undo_plan(),
        m.when_out().teardown_plan().len() == 0,
        m.when_in().when_out().teardown_plan().len() == 0,
        m.when_out().when_in().teardown_plan() == m.undo_plan(),
        m.applied ==> m.when_in() == m && m.when_out().when_in() == m,
        !m.applied ==> m.when_out() == m && m.when_in().when_out() == m,
        m.undo_plan().len() >= 2,
{
}

} // verus!
