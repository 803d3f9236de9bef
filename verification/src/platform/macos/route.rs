//! The routes of the tunnel on macOS.

use vstd::prelude::*;
use crate::addr;
use crate::addr::IpAddr;
use crate::config::Config;
use crate::net;
use crate::net::CidrList;
use crate::platform::macos::dns::NetworkSetupDns;
use crate::platform::output;
use crate::platform::routes;
use crate::platform::routes::{Gateways, Hop, Item, RouteAction, RouteStep};
use crate::reload::ReloadPlan;
use crate::scan;
use crate::text;

verus! {

// ---------------------------------------------------------------------------
// The route command
// ---------------------------------------------------------------------------
/// The first gateway that a line from the `i`-th on names by its address.
pub open spec fn gateway_value(lines: Seq<Seq<char>>, i: int) -> Option<IpAddr>
    decreases lines.len() - i,
{
    if !(0 <= i < lines.len()) {
        None
    } else {
        match scan::after_prefix(scan::trim(lines[i]), "gateway:"@) {
            Some(rest) => match addr::ip_value(scan::trim(rest)) {
                Some(ip) => Some(ip),
                None => gateway_value(lines, i + 1),
            },
            None => gateway_value(lines, i + 1),
        }
    }
}

pub fn gateway_in(s: &str) -> (r: Option<IpAddr>)
    ensures
        r == gateway_value(scan::lines(s@), 0),
{
    let chars = text::chars_of(s);
    let lines = scan::split_lines(chars.as_slice());
    assert(scan::views(lines@).len() == lines@.len());
    for i in 0..lines.len()
        invariant
            scan::views(lines@) == scan::lines(s@),
            scan::views(lines@).len() == lines@.len(),
            gateway_value(scan::lines(s@), 0) == gateway_value(scan::lines(s@), i as int),
    {
        assert(scan::views(lines@)[i as int] == lines@[i as int]@);
        let line = scan::trimmed(lines[i]);
        match scan::strip_prefix(line, "gateway:") {
            Some(rest) => match addr::read_ip(scan::trimmed(rest)) {
                Some(ip) => {
                    return Some(ip);
                },
                None => {},
            },
            None => {},
        }
    }
    None
}

/// The default gateway, from the output of `route get`.
pub fn default_gateway(stdout: &[u8]) -> (r: Option<IpAddr>)
    ensures
        r == gateway_value(scan::lines(output::lossy_text(stdout@)), 0),
{
    let s = output::lossy(stdout);
    gateway_in(s.as_str())
}

/// The word for the family of an address.
pub open spec fn family_word(ip: IpAddr) -> Seq<char> {
    match ip {
        IpAddr::V4(_) => "-inet"@,
        IpAddr::V6(_) => "-inet6"@,
    }
}

/// The arguments of the `route` command for one change.
pub open spec fn route_args(s: RouteStep, tun: Seq<char>) -> Seq<Seq<char>> {
    seq![
        match s.action {
            RouteAction::Add => "add"@,
            RouteAction::Delete => "delete"@,
        },
        family_word(s.dst),
        "-net"@,
        output::network_text(s.dst, s.prefix),
    ] + (match s.hop {
        Hop::Gateway(gw, _) => seq![gw.text()],
        Hop::Tun => seq!["-interface"@, tun],
    })
}

pub fn render_args(s: &RouteStep, tun: &str) -> (r: Vec<String>)
    ensures
        text::texts(r@) == route_args(*s, tun@),
{
    let mut args: Vec<String> = Vec::new();
    match s.action {
        RouteAction::Add => output::push_arg(&mut args, "add"),
        RouteAction::Delete => output::push_arg(&mut args, "delete"),
    }
    if s.dst.is_ipv4() {
        output::push_arg(&mut args, "-inet");
    } else {
        output::push_arg(&mut args, "-inet6");
    }
    output::push_arg(&mut args, "-net");
    let network = output::write_network(s.dst, s.prefix);
    output::push_arg(&mut args, network.as_str());
    match s.hop {
        Hop::Gateway(gw, _) => {
            let g = gw.to_text();
            output::push_arg(&mut args, g.as_str());
        },
        Hop::Tun => {
            output::push_arg(&mut args, "-interface");
            output::push_arg(&mut args, tun);
        },
    }
    assert(text::texts(args@) =~= route_args(*s, tun@));
    args
}

// ---------------------------------------------------------------------------
// The routes of the tunnel
// ---------------------------------------------------------------------------
pub struct MacosRoutes {
    pub proxy_ip: IpAddr,
    pub tun_name: String,
    pub bypass: CidrList,
    pub capture_ipv6: bool,
    pub v4_gateway: Option<IpAddr>,
    pub v6_gateway: Option<IpAddr>,
    pub dns: NetworkSetupDns,
    pub dns_server: Option<IpAddr>,
    pub applied: bool,
}

pub open spec fn gateway_hop(gw: Option<IpAddr>) -> Option<Hop> {
    match gw {
        Some(g) => Some(Hop::Gateway(g, None)),
        None => None,
    }
}

fn make_hop(gw: Option<IpAddr>) -> (r: Option<Hop>)
    ensures
        r == gateway_hop(gw),
{
    match gw {
        Some(g) => Some(Hop::Gateway(g, None)),
        None => None,
    }
}

impl MacosRoutes {
    pub open spec fn spec_gateways(self) -> Gateways {
        Gateways { v4: gateway_hop(self.v4_gateway), v6: gateway_hop(self.v6_gateway) }
    }

    pub fn new(
        cfg: &Config,
        proxy_ip: IpAddr,
        tun_name: String,
        dns: NetworkSetupDns,
        capture_ipv6: bool,
    ) -> (r: MacosRoutes)
        requires
            cfg.has_bypass_routes(),
            cfg.has_dns_addr(),
        ensures
            r.proxy_ip == proxy_ip,
            r.tun_name == tun_name,
            r.bypass@ == cfg.spec_bypass(),
            r.capture_ipv6 == capture_ipv6,
            r.v4_gateway is None,
            r.v6_gateway is None,
            r.dns == dns,
            r.dns_server == cfg.spec_dns_addr(),
            !r.applied,
    {
        MacosRoutes {
            proxy_ip,
            tun_name,
            bypass: cfg.bypass_routes(),
            capture_ipv6,
            v4_gateway: None,
            v6_gateway: None,
            dns,
            dns_server: cfg.dns_addr(),
            applied: false,
        }
    }

    fn gateways(&self) -> (r: Gateways)
        ensures
            r == self.spec_gateways(),
    {
        Gateways { v4: make_hop(self.v4_gateway), v6: make_hop(self.v6_gateway) }
    }

    /// The gateway for destinations of the family of an address.
    pub fn gateway_for(&self, addr: IpAddr) -> (r: Option<IpAddr>)
        ensures
            gateway_hop(r) == self.spec_gateways().spec_hop(addr),
            r == (match addr {
                IpAddr::V4(_) => self.v4_gateway,
                IpAddr::V6(_) => self.v6_gateway,
            }),
    {
        match addr {
            IpAddr::V4(_) => self.v4_gateway,
            IpAddr::V6(_) => self.v6_gateway,
        }
    }

    /// Whether IPv6 is led into the tunnel.
    pub open spec fn captures_ipv6(self) -> bool {
        self.capture_ipv6 && (self.v6_gateway is Some || self.proxy_ip is V6)
    }

    /// The changes that put the tunnel into the routing table.
    pub open spec fn apply_plan(self) -> Seq<Item> {
        let g = self.spec_gateways();
        match g.spec_hop(self.proxy_ip) {
            None => seq![Item::NoGateway(self.proxy_ip)],
            Some(hop) => routes::apply_items(
                self.proxy_ip,
                hop,
                self.bypass@,
                g,
                self.captures_ipv6(),
            ),
        }
    }

    /// Takes note of the gateways, and plans the changes that put the tunnel
    /// into the routing table.
    pub fn apply(&mut self, v4_gateway: Option<IpAddr>, v6_gateway: Option<IpAddr>) -> (r: Vec<Item>)
        ensures
            *final(self) == (MacosRoutes { v4_gateway, v6_gateway, ..*old(self) }),
            r@ == final(self).apply_plan(),
    {
        self.v4_gateway = v4_gateway;
        self.v6_gateway = v6_gateway;
        let g = self.gateways();
        let mut items: Vec<Item> = Vec::new();
        match g.hop(self.proxy_ip) {
            None => {
                items.push(Item::NoGateway(self.proxy_ip));
            },
            Some(hop) => {
                let led = self.capture_ipv6 && (self.v6_gateway.is_some()
                    || self.proxy_ip.is_ipv6());
                routes::push_apply(
                    &mut items,
                    self.proxy_ip,
                    hop,
                    self.bypass.as_slice(),
                    &g,
                    led,
                );
            },
        }
        assert(items@ =~= self.apply_plan());
        items
    }

    /// The name server that is in place.
    pub fn note_dns(&mut self, server: Option<IpAddr>)
        ensures
            *final(self) == (MacosRoutes { dns_server: server, ..*old(self) }),
    {
        self.dns_server = server;
    }

    /// The routes and the name server are in place.
    pub fn mark_applied(&mut self)
        ensures
            *final(self) == old(self).when_in(),
    {
        self.applied = true;
    }

    /// The changes that follow a change of the configuration.
    pub open spec fn reload_plan(self, plan: ReloadPlan) -> Seq<Item> {
        if self.applied {
            routes::reload_items(
                self.spec_gateways(),
                plan.proxy_route_change,
                plan.bypass_remove@,
                plan.bypass_add@,
                false,
            )
        } else {
            Seq::empty()
        }
    }

    /// Plans the changes that follow a change of the configuration.
    pub fn reload(&self, plan: &ReloadPlan) -> (r: Vec<Item>)
        ensures
            r@ == self.reload_plan(*plan),
    {
        let mut items: Vec<Item> = Vec::new();
        if self.applied {
            let g = self.gateways();
            routes::push_reload(
                &mut items,
                &g,
                plan.proxy_route_change,
                plan.bypass_remove.as_slice(),
                plan.bypass_add.as_slice(),
                false,
            );
        }
        assert(items@ =~= self.reload_plan(*plan));
        items
    }

    /// The routes once the first `done` items of the plan have gone through.
    pub open spec fn after_reload(self, plan: ReloadPlan, done: nat) -> MacosRoutes {
        let g = self.spec_gateways();
        let change = plan.proxy_route_change;
        let active = self.applied && routes::can_move(g, change);
        MacosRoutes {
            proxy_ip: if active && done >= routes::move_items(g, change).len() {
                routes::moved_proxy(self.proxy_ip, change)
            } else {
                self.proxy_ip
            },
            bypass: if active && done >= self.reload_plan(plan).len() {
                plan.new_bypass
            } else {
                self.bypass
            },
            ..self
        }
    }

    /// Takes note of how far the plan for a change of the configuration went.
    pub fn finish_reload(&mut self, plan: ReloadPlan, done: usize)
        ensures
            *final(self) == old(self).after_reload(plan, done as nat),
    {
        if !self.applied {
            return;
        }
        let g = self.gateways();
        let mut head: Vec<Item> = Vec::new();
        let movable = routes::push_move(&mut head, &g, plan.proxy_route_change);
        let all = self.reload(&plan);
        assert(head@ =~= routes::move_items(g, plan.proxy_route_change));
        if movable {
            if done >= head.len() {
                match plan.proxy_route_change {
                    Some((_, to)) => {
                        self.proxy_ip = to;
                    },
                    None => {},
                }
            }
            if done >= all.len() {
                self.bypass = plan.new_bypass;
            }
        }
    }

    /// The changes that take the tunnel out of the routing table.
    pub open spec fn undo_plan(self) -> Seq<Item> {
        routes::undo_items(self.proxy_ip, self.bypass@, self.spec_gateways(), self.capture_ipv6)
    }

    /// The routes once they have been put in.
    pub open spec fn when_in(self) -> MacosRoutes {
        MacosRoutes { applied: true, ..self }
    }

    /// The routes once they are to be taken out.
    pub open spec fn when_out(self) -> MacosRoutes {
        MacosRoutes { applied: false, ..self }
    }

    /// The changes that are left to take the tunnel out of the routing table:
    /// none where it is not in.
    pub open spec fn teardown_plan(self) -> Seq<Item> {
        if self.applied {
            self.undo_plan()
        } else {
            Seq::empty()
        }
    }

    /// Plans the changes that take the tunnel out of the routing table, once.
    pub fn teardown(&mut self) -> (r: Vec<Item>)
        ensures
            *final(self) == old(self).when_out(),
            r@ == old(self).teardown_plan(),
    {
        let mut items: Vec<Item> = Vec::new();
        if !self.applied {
            assert(items@ =~= Seq::<Item>::empty());
            return items;
        }
        self.applied = false;
        let g = self.gateways();
        routes::push_undo(
            &mut items,
            self.proxy_ip,
            self.bypass.as_slice(),
            &g,
            self.capture_ipv6,
        );
        assert(items@ =~= old(self).undo_plan());
        items
    }

    /// Whether the routes are those of a configuration.
    pub open spec fn serves(self, cfg: Config) -> bool {
        routes::serves(self.proxy_ip, self.bypass@, cfg)
    }

    /// Whether the table is `before` with the routes of the tunnel in it, all
    /// of them.
    pub open spec fn in_place(self, t: routes::Table, before: routes::Table) -> bool {
        routes::in_place(
            t,
            before,
            self.proxy_ip,
            self.bypass@,
            self.spec_gateways(),
            self.captures_ipv6(),
        )
    }

    /// Whether no route of the tunnel stands in the table.
    pub open spec fn none_in(self, t: routes::Table) -> bool {
        routes::none_ours(
            self.proxy_ip,
            self.bypass@,
            self.spec_gateways(),
            self.capture_ipv6,
            t,
        )
    }

    /// Whether the table is `before` and, beyond it, nothing but routes that
    /// taking the tunnel out deletes.
    pub open spec fn owes(self, t: routes::Table, before: routes::Table) -> bool {
        routes::owed(t, before, self.undo_plan())
    }
}

/// Putting the tunnel into a table that has none of its routes puts it in
/// place, leaves owed what taking it out deletes, and keeps the way to the
/// proxy out of the tunnel.
pub proof fn lemma_apply(m: MacosRoutes, before: routes::Table)
    requires
        m.spec_gateways().spec_hop(m.proxy_ip) is Some,
        m.none_in(before),
    ensures
        ({
            let t = routes::performed_all(before, m.apply_plan());
            let p = (m.proxy_ip, routes::host_bits(m.proxy_ip));
            &&& m.owes(t, before)
            &&& routes::all_narrow(m.bypass@) ==> m.in_place(t, before)
            &&& t.dom().contains(p) && Some(t[p]) == m.spec_gateways().spec_hop(m.proxy_ip)
        }),
{
    let g = m.spec_gateways();
    let hop = g.spec_hop(m.proxy_ip)->0;
    let led = m.captures_ipv6();
    routes::lemma_apply_is_owed(m.proxy_ip, hop, m.bypass@, g, led, m.capture_ipv6, before);
    routes::lemma_proxy_stays_outside(m.proxy_ip, hop, m.bypass@, g, led, before);
    if routes::all_narrow(m.bypass@) {
        routes::lemma_apply_items_put_in_place(m.proxy_ip, hop, m.bypass@, g, led, before);
    }
}

/// A change of the configuration that goes through leads to the routes of the
/// new one, and leaves owed what taking the tunnel out deletes from then on.
pub proof fn lemma_reload(
    m: MacosRoutes,
    from: Config,
    to: Config,
    plan: ReloadPlan,
    t: routes::Table,
    before: routes::Table,
)
    requires
        m.applied,
        m.serves(from),
        plan.leads(from, to),
        routes::can_move(m.spec_gateways(), plan.proxy_route_change),
        m.owes(t, before),
        m.none_in(before),
        m.after_reload(plan, m.reload_plan(plan).len()).none_in(before),
    ensures
        m.after_reload(plan, m.reload_plan(plan).len()).owes(
            routes::performed_all(t, m.reload_plan(plan)),
            before,
        ),
        m.after_reload(plan, m.reload_plan(plan).len()).serves(to),
        m.after_reload(plan, m.reload_plan(plan).len()).applied,
{
    let g = m.spec_gateways();
    let after = m.after_reload(plan, m.reload_plan(plan).len());
    assert(after.spec_gateways() == g);
    assert(m.reload_plan(plan).len() >= routes::move_items(g, plan.proxy_route_change).len());
    routes::lemma_plan_leads_over(m.bypass@, plan, from, to);
    routes::lemma_reload_stays_owed(
        m.proxy_ip,
        m.bypass@,
        plan.new_bypass@,
        g,
        m.capture_ipv6,
        plan.proxy_route_change,
        plan.bypass_remove@,
        plan.bypass_add@,
        false,
        t,
        before,
    );
}

/// With the tunnel in place, traffic to the proxy and to the networks that
/// bypass the tunnel goes past it, and all other traffic goes into it: of
/// IPv4, and of IPv6 where that is led there, as far as there was nothing but a
/// default route to it before.
pub proof fn lemma_traffic_takes_its_way(
    m: MacosRoutes,
    t: routes::Table,
    before: routes::Table,
    a: IpAddr,
    k: (IpAddr, u8),
)
    requires
        m.in_place(t, before),
        routes::all_narrow(m.bypass@),
        routes::all_outside(m.spec_gateways(), before),
        routes::takes(t, k, a),
    ensures
        routes::is_bypassed(m.bypass@, m.spec_gateways(), a) ==> t[k] != Hop::Tun,
        a == m.proxy_ip && m.spec_gateways().spec_hop(m.proxy_ip) is Some ==> t[k] != Hop::Tun,
        ({
            &&& a is V6 ==> m.captures_ipv6()
            &&& a != m.proxy_ip
            &&& !routes::is_bypassed(m.bypass@, m.spec_gateways(), a)
            &&& forall|o: (IpAddr, u8)| #[trigger]
                before.dom().contains(o) && net::covers(o.0, o.1, a) ==> o.1 == 0
        }) ==> t[k] == Hop::Tun,
{
    routes::lemma_traffic_takes_its_way(
        t,
        before,
        m.proxy_ip,
        m.bypass@,
        m.spec_gateways(),
        m.captures_ipv6(),
        a,
        k,
    );
}

/// A change of the configuration that goes through puts the routes of the new
/// one in place.
pub proof fn lemma_reload_keeps_in_place(
    m: MacosRoutes,
    from: Config,
    to: Config,
    plan: ReloadPlan,
    t: routes::Table,
    before: routes::Table,
)
    requires
        m.applied,
        m.serves(from),
        plan.leads(from, to),
        m.spec_gateways().spec_hop(m.proxy_ip) is Some,
        routes::can_move(m.spec_gateways(), plan.proxy_route_change),
        routes::all_narrow(m.bypass@),
        routes::all_narrow(plan.new_bypass@),
        routes::keeps_apart(m.proxy_ip, plan.proxy_route_change, m.bypass@, plan.new_bypass@),
        m.in_place(t, before),
    ensures
        m.after_reload(plan, m.reload_plan(plan).len()).in_place(
            routes::performed_all(t, m.reload_plan(plan)),
            before,
        ),
{
    let g = m.spec_gateways();
    let after = m.after_reload(plan, m.reload_plan(plan).len());
    assert(after.spec_gateways() == g);
    assert(m.reload_plan(plan).len() >= routes::move_items(g, plan.proxy_route_change).len());
    routes::lemma_plan_leads_over(m.bypass@, plan, from, to);
    routes::lemma_reload_items_are_reload(
        g,
        plan.proxy_route_change,
        plan.bypass_remove@,
        plan.bypass_add@,
        false,
    );
    routes::lemma_reload_keeps_in_place(
        m.reload_plan(plan),
        routes::bypass_items(RouteAction::Add, plan.bypass_add@, g, true, false),
        m.proxy_ip,
        m.bypass@,
        plan.new_bypass@,
        g,
        m.captures_ipv6(),
        plan.proxy_route_change,
        plan.bypass_remove@,
        plan.bypass_add@,
        t,
        before,
    );
}

/// Taking the tunnel out of the table gives it back as it was before the
/// tunnel came, whatever changes of the configuration went through since.
pub proof fn lemma_teardown_restores(m: MacosRoutes, t: routes::Table, before: routes::Table)
    requires
        m.owes(t, before),
        m.none_in(before),
    ensures
        routes::performed_all(t, m.undo_plan()) == before,
{
    routes::lemma_teardown_restores(
        m.proxy_ip,
        m.bypass@,
        m.spec_gateways(),
        m.capture_ipv6,
        t,
        before,
    );
}

proof fn lemma_gateway_value_shift(first: Seq<char>, rest: Seq<Seq<char>>, i: int)
    requires
        0 <= i <= rest.len(),
    ensures
        gateway_value(seq![first] + rest, i + 1) == gateway_value(rest, i),
    decreases rest.len() - i,
{
    if i < rest.len() {
        assert((seq![first] + rest)[i + 1] == rest[i]);
        lemma_gateway_value_shift(first, rest, i + 1);
    }
}

/// The gateway is the address on the first line that is labelled so and names
/// one; lines with another label, and those that name no address, have no say.
pub proof fn lemma_gateway_is_read(
    line: Seq<char>,
    gap: Seq<char>,
    gateway: IpAddr,
    rest: Seq<Seq<char>>,
)
    requires
        forall|i: int| 0 <= i < gap.len() ==> gap[i] == ' ',
    ensures
        gateway_value(Seq::empty(), 0) is None,
        scan::trim(line) == "gateway:"@ + gap + gateway.text() ==> gateway_value(
            seq![line] + rest,
            0,
        ) == Some(gateway),
        !text::starts_with(scan::trim(line), "gateway:"@) ==> gateway_value(seq![line] + rest, 0)
            == gateway_value(rest, 0),
{
    let none = Seq::<char>::empty();
    let t = gateway.text();
    assert((seq![line] + rest)[0] == line);
    lemma_gateway_value_shift(line, rest, 0);
    if scan::trim(line) == "gateway:"@ + gap + t {
        assert("gateway:"@ + gap + t =~= "gateway:"@ + (gap + t));
        scan::lemma_after_prefix_is_the_rest("gateway:"@, gap + t, line);
        addr::lemma_ip_round_trip(gateway);
        addr::lemma_text_has_no_white_space(gateway);
        assert(gap + t + none =~= gap + t);
        scan::lemma_trim_gives_what_is_between(gap, t, none);
    }
}

/// The command names what is done, the family of the destination, the network
/// as it reads back, and where the route leads: to the gateway by its address, or
/// into the interface of the tunnel.
pub proof fn lemma_command_says_what_is_done(s: RouteStep, tun: Seq<char>)
    ensures
        ({
            let a = route_args(s, tun);
            &&& a.len() >= 5
            &&& s.action is Add ==> a[0] == "add"@
            &&& s.action is Delete ==> a[0] == "delete"@
            &&& s.dst is V4 ==> a[1] == "-inet"@
            &&& s.dst is V6 ==> a[1] == "-inet6"@
            &&& a[2] == "-net"@
            &&& s.prefix <= (if s.dst is V4 {
                32u8
            } else {
                128u8
            }) ==> crate::config::cidr_value(a[3]) == Ok::<
                (IpAddr, u8),
                crate::config::CidrError,
            >((s.dst, s.prefix))
            &&& s.hop matches Hop::Gateway(g, _) ==> a.len() == 5 && addr::ip_value(a[4]) == Some(g)
            &&& s.hop is Tun ==> a.len() == 6 && a[4] == "-interface"@ && a[5] == tun
        }),
{
    output::lemma_network_text_reads_back(s.dst, s.prefix);
    if let Hop::Gateway(g, _) = s.hop {
        addr::lemma_ip_round_trip(g);
    }
}

/// The gateways that were found serve each its own family. IPv6 is led into the
/// tunnel exactly where it is to be captured, and there is a gateway for it or
/// the proxy itself is reached over it.
pub proof fn lemma_gateways_serve_their_family(m: MacosRoutes, g: IpAddr)
    ensures
        m.v4_gateway == Some(g) ==> m.spec_gateways().v4 == Some(Hop::Gateway(g, None)),
        m.v6_gateway == Some(g) ==> m.spec_gateways().v6 == Some(Hop::Gateway(g, None)),
        m.v4_gateway is None ==> m.spec_gateways().v4 is None,
        m.v6_gateway is None ==> m.spec_gateways().v6 is None,
        !m.capture_ipv6 ==> !m.captures_ipv6(),
        m.capture_ipv6 && m.v6_gateway is Some ==> m.captures_ipv6(),
        m.capture_ipv6 && m.proxy_ip is V6 ==> m.captures_ipv6(),
        m.v6_gateway is None && m.proxy_ip is V4 ==> !m.captures_ipv6(),
{
}

/// Where there is a gateway to the proxy, exactly the routes of the tunnel are
/// added; where there is none, no route is touched and that is said. Taking the
/// tunnel out deletes its routes and no others.
pub proof fn lemma_plans_match(m: MacosRoutes, action: RouteAction, key: (IpAddr, u8), hop: Hop)
    ensures
        m.spec_gateways().spec_hop(m.proxy_ip) is Some ==> (routes::has_step(
            m.apply_plan(),
            action,
            key,
            hop,
        ) <==> action is Add && routes::is_ours(
            m.proxy_ip,
            m.bypass@,
            m.spec_gateways(),
            m.captures_ipv6(),
            key,
            hop,
        )),
        m.spec_gateways().spec_hop(m.proxy_ip) is None ==> m.apply_plan() == seq![
            Item::NoGateway(m.proxy_ip),
        ],
        routes::has_step(m.undo_plan(), action, key, hop) <==> action is Delete && routes::is_ours(
            m.proxy_ip,
            m.bypass@,
            m.spec_gateways(),
            m.capture_ipv6,
            key,
            hop,
        ),
{
    let g = m.spec_gateways();
    routes::lemma_undo_steps(m.proxy_ip, m.bypass@, g, m.capture_ipv6, action, key, hop);
    if g.spec_hop(m.proxy_ip) is Some {
        let h = g.spec_hop(m.proxy_ip)->0;
        let led = m.captures_ipv6();
        routes::lemma_apply_steps(m.proxy_ip, h, m.bypass@, g, led, action, key, hop);
    }
}

/// How far a change of the configuration went is what is noted of it: the proxy
/// is at its new address once the way there is changed, and the networks are the
/// new ones once all is done. Nothing else changes.
pub proof fn lemma_what_is_noted_of_a_reload(m: MacosRoutes, plan: ReloadPlan, done: nat)
    ensures
        ({
            let g = m.spec_gateways();
            let a = m.after_reload(plan, done);
            let moves = routes::move_items(g, plan.proxy_route_change).len();
            &&& !m.applied ==> a == m
            &&& plan.proxy_route_change is None ==> a.proxy_ip == m.proxy_ip
            &&& plan.proxy_route_change matches Some((_, to)) ==> {
                &&& g.spec_hop(to) is None ==> a == m
                &&& done < moves ==> a.proxy_ip == m.proxy_ip
                &&& m.applied && g.spec_hop(to) is Some && done >= moves ==> a.proxy_ip == to
            }
            &&& done < m.reload_plan(plan).len() ==> a.bypass == m.bypass
            &&& m.applied && routes::can_move(g, plan.proxy_route_change) && done
                >= m.reload_plan(plan).len() ==> a.bypass == plan.new_bypass
            &&& m == (MacosRoutes { proxy_ip: m.proxy_ip, bypass: m.bypass, ..a })
        }),
{
}

/// The tunnel is taken out once: after it was put in there are changes to be made
/// for that, and after they were asked for there are none until it is put in
/// again. What is known of the routes stays.
pub proof fn lemma_taken_out_once(m: MacosRoutes)
    ensures
        m.when_in().teardown_plan() == m.undo_plan(),
        m.when_out().teardown_plan().len() == 0,
        m.when_in().when_out().teardown_plan().len() == 0,
        m.when_out().when_in().teardown_plan() == m.undo_plan(),
        m.applied ==> m.when_in() == m && m.when_out().when_in() == m,
        !m.applied ==> m.when_out() == m && m.when_in().when_out() == m,
        m.undo_plan().len() >= 2,
{
}

} // verus!
