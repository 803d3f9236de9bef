//! What a change of the configuration asks for, and the state that the
//! running tasks share.

use std::sync::Arc;
use vstd::prelude::*;
use crate::addr::IpAddr;
use crate::config::{Config, ProxyConfig};
use crate::net;
use crate::net::RouteTable;
use crate::text;

verus! {

// ---------------------------------------------------------------------------
// Cells
// ---------------------------------------------------------------------------
/// A cell of the `arc_swap` crate that holds the proxy in use.
#[verifier::external_body]
pub struct ProxyCell {
    inner: arc_swap::ArcSwap<ProxyConfig>,
}

/// The proxy that a cell holds.
pub uninterp spec fn held_proxy(cell: ProxyCell) -> ProxyConfig;

/// `ArcSwap::from`: the new cell holds the value it was made from.
#[verifier::external_body]
pub(crate) fn proxy_cell(value: Arc<ProxyConfig>) -> (r: ProxyCell)
    ensures
        held_proxy(r) == *value,
{
    ProxyCell { inner: arc_swap::ArcSwap::from(value) }
}

/// `ArcSwap::load_full`: gives out the value that the cell holds.
#[verifier::external_body]
pub(crate) fn load_proxy(cell: &ProxyCell) -> (r: Arc<ProxyConfig>)
    ensures
        *r == held_proxy(*cell),
{
    cell.inner.load_full()
}

/// `ArcSwap::store`: the cell holds the new value from then on. The cell is
/// taken alone, so that no other store comes between.
#[verifier::external_body]
pub(crate) fn store_proxy(cell: &mut ProxyCell, value: Arc<ProxyConfig>)
    ensures
        held_proxy(*final(cell)) == *value,
{
    cell.inner.store(value)
}

/// A cell of the `arc_swap` crate that holds the table in use.
#[verifier::external_body]
pub struct RoutesCell {
    inner: arc_swap::ArcSwap<RouteTable>,
}

/// The table that a cell holds.
pub uninterp spec fn held_routes(cell: RoutesCell) -> RouteTable;

/// `ArcSwap::from`: the new cell holds the value it was made from.
#[verifier::external_body]
fn routes_cell(value: Arc<RouteTable>) -> (r: RoutesCell)
    ensures
        held_routes(r) == *value,
{
    RoutesCell { inner: arc_swap::ArcSwap::from(value) }
}

/// `ArcSwap::load_full`: gives out the value that the cell holds.
#[verifier::external_body]
fn load_routes(cell: &RoutesCell) -> (r: Arc<RouteTable>)
    ensures
        *r == held_routes(*cell),
{
    cell.inner.load_full()
}

/// `ArcSwap::store`: the cell holds the new value from then on. The cell is
/// taken alone, so that no other store comes between.
#[verifier::external_body]
fn store_routes(cell: &mut RoutesCell, value: Arc<RouteTable>)
    ensures
        held_routes(*final(cell)) == *value,
{
    cell.inner.store(value)
}

// ---------------------------------------------------------------------------
// Shared state
// ---------------------------------------------------------------------------
/// The proxy and the table that new flows use.
pub struct Shared {
    proxy: ProxyCell,
    routes: RoutesCell,
}

impl Shared {
    /// The proxy in use.
    pub closed spec fn current_proxy(self) -> ProxyConfig {
        held_proxy(self.proxy)
    }

    /// The table in use.
    pub closed spec fn current_routes(self) -> RouteTable {
        held_routes(self.routes)
    }

    pub fn new(proxy: Arc<ProxyConfig>, routes: Arc<RouteTable>) -> (r: Shared)
        ensures
            r.current_proxy() == *proxy,
            r.current_routes() == *routes,
    {
        Shared { proxy: proxy_cell(proxy), routes: routes_cell(routes) }
    }

    pub fn proxy(&self) -> (r: Arc<ProxyConfig>)
        ensures
            *r == self.current_proxy(),
    {
        load_proxy(&self.proxy)
    }

    pub fn routes(&self) -> (r: Arc<RouteTable>)
        ensures
            *r == self.current_routes(),
    {
        load_routes(&self.routes)
    }

    pub fn store_proxy(&mut self, proxy: Arc<ProxyConfig>)
        ensures
            final(self).current_proxy() == *proxy,
            final(self).current_routes() == old(self).current_routes(),
    {
        store_proxy(&mut self.proxy, proxy);
    }

    pub fn store_routes(&mut self, routes: Arc<RouteTable>)
        ensures
            final(self).current_routes() == *routes,
            final(self).current_proxy() == old(self).current_proxy(),
    {
        store_routes(&mut self.routes, routes);
    }
}

// ---------------------------------------------------------------------------
// Fields that only a restart changes
// ---------------------------------------------------------------------------
/// The fields that a reload leaves as they are.
pub const IMMUTABLE_FIELDS: [&'static str; 3] = ["tun_name", "tun_ip", "metrics_addr"];

/// The names of the fields that differ and that only a restart changes.
pub open spec fn immutable_diff(old: Config, new: Config) -> Seq<&'static str> {
    (if old.tun_name@ != new.tun_name@ {
        seq!["tun_name"]
    } else {
        Seq::empty()
    }) + (if old.tun_ip@ != new.tun_ip@ {
        seq!["tun_ip"]
    } else {
        Seq::empty()
    }) + (if text::optional_text(old.metrics_addr) != text::optional_text(new.metrics_addr) {
        seq!["metrics_addr"]
    } else {
        Seq::empty()
    })
}

/// The fields that differ and that only a new start applies.
pub fn immutable_changes(old: &Config, new: &Config) -> (r: Vec<&'static str>)
    ensures
        r@ == immutable_diff(*old, *new),
{
    let mut changed: Vec<&'static str> = Vec::new();
    if !text::same_text(old.tun_name.as_str(), new.tun_name.as_str()) {
        changed.push("tun_name");
    }
    if !text::same_text(old.tun_ip.as_str(), new.tun_ip.as_str()) {
        changed.push("tun_ip");
    }
    if !text::same_optional_text(&old.metrics_addr, &new.metrics_addr) {
        changed.push("metrics_addr");
    }
    assert(changed@ =~= immutable_diff(*old, *new));
    changed
}

/// What is in use once `new` was read in place of `old`: `new`, but for the
/// fields that only a restart changes.
pub open spec fn taken_over(old: Config, new: Config) -> Config {
    Config {
        tun_name: old.tun_name,
        tun_ip: old.tun_ip,
        metrics_addr: old.metrics_addr,
        ..new
    }
}

/// Takes over a configuration that was read again, but for the fields that
/// only a restart changes.
pub fn take_over(current: &mut Config, new: Config)
    ensures
        *final(current) == taken_over(*old(current), new),
        old(current).fault() is None && new.fault() is None ==> final(current).fault() is None,
{
    let mut next = new;
    std::mem::swap(&mut next.tun_name, &mut current.tun_name);
    std::mem::swap(&mut next.tun_ip, &mut current.tun_ip);
    std::mem::swap(&mut next.metrics_addr, &mut current.metrics_addr);
    *current = next;
}

/// A configuration that was taken over asks for what the new one asks for, so
/// reading that again is of no effect; and the fields that only a restart
/// changes are reported again.
pub proof fn lemma_restart_fields_stay_reported(old: Config, new: Config)
    ensures
        asks_nothing(taken_over(old, new), new),
        immutable_diff(taken_over(old, new), new) == immutable_diff(old, new),
        immutable_diff(old, taken_over(old, new)).len() == 0,
{
    net::lemma_diff_of_same(new.spec_bypass());
}

// ---------------------------------------------------------------------------
// The plan of a reload
// ---------------------------------------------------------------------------
/// What a change from one configuration to another asks for.
pub struct ReloadPlan {
    pub proxy: ProxyConfig,
    pub route_table: RouteTable,
    pub new_bypass: Vec<(IpAddr, u8)>,
    pub bypass_add: Vec<(IpAddr, u8)>,
    pub bypass_remove: Vec<(IpAddr, u8)>,
    pub dns: Option<IpAddr>,
    pub dns_changed: bool,
    pub proxy_route_change: Option<(IpAddr, IpAddr)>,
    pub proxy_changed: bool,
}

/// Whether the two configurations name the proxy and its credentials alike.
pub open spec fn same_proxy(old: Config, new: Config) -> bool {
    &&& old.spec_proxy_addr() == new.spec_proxy_addr()
    &&& text::optional_text(old.username) == text::optional_text(new.username)
    &&& text::optional_text(old.password) == text::optional_text(new.password)
}

/// Whether the change from `old` to `new` is of no effect.
pub open spec fn asks_nothing(old: Config, new: Config) -> bool {
    &&& net::missing_from(new.spec_bypass(), old.spec_bypass()).len() == 0
    &&& net::missing_from(old.spec_bypass(), new.spec_bypass()).len() == 0
    &&& old.spec_dns_addr() == new.spec_dns_addr()
    &&& same_proxy(old, new)
}

impl ReloadPlan {
    /// Whether this is the plan for the change from `old` to `new`.
    pub open spec fn leads(self, old: Config, new: Config) -> bool {
        &&& self.proxy.describes(new)
        &&& forall|a: IpAddr| #[trigger] self.route_table.matches(a) == net::any_covers(
            new.spec_bypass(),
            a,
        )
        &&& self.route_table.count() == new.spec_bypass().len()
        &&& self.new_bypass@ == new.spec_bypass()
        &&& self.bypass_add@ == net::missing_from(new.spec_bypass(), old.spec_bypass())
        &&& self.bypass_remove@ == net::missing_from(old.spec_bypass(), new.spec_bypass())
        &&& self.dns == new.spec_dns_addr()
        &&& self.dns_changed == (old.spec_dns_addr() != new.spec_dns_addr())
        &&& self.proxy_route_change == (if old.spec_proxy_addr().spec_ip()
            != new.spec_proxy_addr().spec_ip() {
            Some((old.spec_proxy_addr().spec_ip(), new.spec_proxy_addr().spec_ip()))
        } else {
            None
        })
        &&& self.proxy_changed == !same_proxy(old, new)
    }

    /// Whether the plan asks for nothing.
    pub open spec fn noop(self) -> bool {
        &&& self.bypass_add@.len() == 0
        &&& self.bypass_remove@.len() == 0
        &&& !self.dns_changed
        &&& self.proxy_route_change is None
        &&& !self.proxy_changed
    }

    pub fn compute(old: &Config, new: &Config) -> (r: ReloadPlan)
        requires
            old.has_proxy_addr(),
            old.has_dns_addr(),
            old.has_bypass_routes(),
            new.has_proxy_addr(),
            new.has_dns_addr(),
            new.has_bypass_routes(),
        ensures
            r.leads(*old, *new),
            r.noop() == asks_nothing(*old, *new),
    {
        let old_bypass = old.bypass_routes();
        let new_bypass = new.bypass_routes();
        let (bypass_add, bypass_remove) = net::diff_cidrs(
            old_bypass.as_slice(),
            new_bypass.as_slice(),
        );
        let old_proxy = old.proxy_socket_addr();
        let new_proxy = new.proxy_socket_addr();
        let proxy_route_change = if old_proxy.ip() != new_proxy.ip() {
            Some((old_proxy.ip(), new_proxy.ip()))
        } else {
            None
        };
        let proxy_changed = old_proxy != new_proxy || !text::same_optional_text(
            &old.username,
            &new.username,
        ) || !text::same_optional_text(&old.password, &new.password);
        let old_dns = old.dns_addr();
        let new_dns = new.dns_addr();
        ReloadPlan {
            proxy: ProxyConfig::from_config(new),
            route_table: RouteTable::new(new_bypass.as_slice()),
            new_bypass,
            bypass_add,
            bypass_remove,
            dns: new_dns,
            dns_changed: !same_server(old_dns, new_dns),
            proxy_route_change,
            proxy_changed,
        }
    }

    pub fn is_noop(&self) -> (r: bool)
        ensures
            r == self.noop(),
    {
        self.bypass_add.len() == 0 && self.bypass_remove.len() == 0 && !self.dns_changed
            && self.proxy_route_change.is_none() && !self.proxy_changed
    }
}

pub fn same_server(a: Option<IpAddr>, b: Option<IpAddr>) -> (r: bool)
    ensures
        r == (a == b),
{
    match (a, b) {
        (Some(x), Some(y)) => x == y,
        (None, None) => true,
        _ => false,
    }
}

/// A configuration that did not change asks for nothing.
pub proof fn lemma_unchanged_config_is_noop(plan: ReloadPlan, cfg: Config)
    requires
        plan.leads(cfg, cfg),
    ensures
        plan.noop(),
        immutable_diff(cfg, cfg).len() == 0,
{
    net::lemma_diff_of_same(cfg.spec_bypass());
}

/// A plan that asks for nothing leads to a configuration with the same proxy,
/// the same name server and the same set of direct networks.
pub proof fn lemma_noop_means_same(plan: ReloadPlan, old: Config, new: Config)
    requires
        plan.leads(old, new),
        plan.noop(),
    ensures
        same_proxy(old, new),
        old.spec_dns_addr() == new.spec_dns_addr(),
        old.spec_bypass().to_set() == new.spec_bypass().to_set(),
        forall|a: IpAddr|
            net::any_covers(old.spec_bypass(), a) == net::any_covers(new.spec_bypass(), a),
{
    net::lemma_no_diff_means_same(old.spec_bypass(), new.spec_bypass());
    assert forall|a: IpAddr|
        net::any_covers(old.spec_bypass(), a) == net::any_covers(new.spec_bypass(), a) by {
        net::lemma_order_does_not_matter(old.spec_bypass(), new.spec_bypass(), a);
    }
}

/// Where the route to the proxy moves, the proxy has changed, and the two
/// ends of the move differ.
pub proof fn lemma_moved_route_means_changed_proxy(plan: ReloadPlan, old: Config, new: Config)
    requires
        plan.leads(old, new),
        plan.proxy_route_change is Some,
    ensures
        plan.proxy_changed,
        plan.proxy_route_change matches Some((from, to)) ==> from != to && to
            == plan.proxy.addr.spec_ip(),
{
}

/// Every field that is reported is one of those that only a restart changes.
pub proof fn lemma_reports_immutable_fields(old: Config, new: Config, name: &'static str)
    requires
        immutable_diff(old, new).contains(name),
    ensures
        IMMUTABLE_FIELDS@.contains(name),
{
    let d = immutable_diff(old, new);
    let i = choose|i: int| 0 <= i < d.len() && d[i] == name;
    assert(d[i] == "tun_name" || d[i] == "tun_ip" || d[i] == "metrics_addr");
    assert(IMMUTABLE_FIELDS@[0] == "tun_name");
    assert(IMMUTABLE_FIELDS@[1] == "tun_ip");
    assert(IMMUTABLE_FIELDS@[2] == "metrics_addr");
}

/// The fields that only a restart changes have no part in the plan.
pub proof fn lemma_plan_ignores_immutable_fields(
    plan: ReloadPlan,
    old: Config,
    new: Config,
    edited: Config,
)
    requires
        plan.leads(old, new),
        edited.proxy_addr@ == new.proxy_addr@,
        edited.username == new.username,
        edited.password == new.password,
        edited.dns_server@ == new.dns_server@,
        edited.override_dns == new.override_dns,
        edited.bypass_cidrs@ == new.bypass_cidrs@,
    ensures
        plan.leads(old, edited),
{
}

/// A change is of no effect exactly where the address of the proxy, the
/// credentials, the name server in force and the set of networks that go direct
/// all stay the same.
pub proof fn lemma_what_asks_for_nothing(old: Config, new: Config)
    ensures
        asks_nothing(old, new) <==> {
            &&& old.spec_proxy_addr() == new.spec_proxy_addr()
            &&& text::optional_text(old.username) == text::optional_text(new.username)
            &&& text::optional_text(old.password) == text::optional_text(new.password)
            &&& old.spec_dns_addr() == new.spec_dns_addr()
            &&& forall|e: (IpAddr, u8)|
                old.spec_bypass().contains(e) <==> new.spec_bypass().contains(e)
        },
        asks_nothing(old, new) == asks_nothing(new, old),
        asks_nothing(old, old),
{
    let a = old.spec_bypass();
    let b = new.spec_bypass();
    let gone = net::missing_from(a, b);
    let come = net::missing_from(b, a);
    net::lemma_diff_of_same(a);
    if gone.len() > 0 {
        net::lemma_missing_contains(a, b, gone[0]);
        assert(gone.contains(gone[0]));
    }
    if come.len() > 0 {
        net::lemma_missing_contains(b, a, come[0]);
        assert(come.contains(come[0]));
    }
    if gone.len() == 0 && come.len() == 0 {
        assert forall|e: (IpAddr, u8)| a.contains(e) <==> b.contains(e) by {
            net::lemma_missing_contains(a, b, e);
            net::lemma_missing_contains(b, a, e);
        }
    }
}

/// A plan leads from what the one configuration has written to what the other
/// has: to its proxy, its credentials and its name server. The route to the
/// proxy moves exactly where the address does, and the proxy counts as changed
/// exactly where its address, its port or a credential does.
pub proof fn lemma_plan_leads_to_what_is_written(
    plan: ReloadPlan,
    old: Config,
    new: Config,
    from: crate::addr::SocketAddr,
    to: crate::addr::SocketAddr,
)
    requires
        plan.leads(old, new),
        old.proxy_addr@ == from.text(),
        new.proxy_addr@ == to.text(),
    ensures
        plan.proxy.addr == to,
        plan.proxy.username == new.username,
        plan.proxy.password == new.password,
        plan.proxy_route_change is Some <==> from.spec_ip() != to.spec_ip(),
        plan.proxy_route_change matches Some((a, b)) ==> a == from.spec_ip() && b == to.spec_ip(),
        plan.proxy_changed <==> from != to || text::optional_text(old.username)
            != text::optional_text(new.username) || text::optional_text(old.password)
            != text::optional_text(new.password),
        plan.dns == new.spec_dns_addr(),
        plan.dns_changed <==> old.spec_dns_addr() != new.spec_dns_addr(),
{
    crate::addr::lemma_socket_round_trip(from);
    crate::addr::lemma_socket_round_trip(to);
}

/// A plan adds the networks that are new and removes those that are gone, and no
/// others; afterwards exactly what lies in one of the new list goes direct.
pub proof fn lemma_plan_changes_what_differs(
    plan: ReloadPlan,
    old: Config,
    new: Config,
    e: (IpAddr, u8),
    dst: IpAddr,
)
    requires
        plan.leads(old, new),
    ensures
        plan.bypass_add@.contains(e) <==> new.spec_bypass().contains(e)
            && !old.spec_bypass().contains(e),
        plan.bypass_remove@.contains(e) <==> old.spec_bypass().contains(e)
            && !new.spec_bypass().contains(e),
        plan.new_bypass@ == new.spec_bypass(),
        new.spec_bypass().contains(e) && net::covers(e.0, e.1, dst) ==> plan.route_table.matches(dst),
        plan.route_table.matches(dst) ==> exists|f: (IpAddr, u8)| #[trigger]
            new.spec_bypass().contains(f) && net::covers(f.0, f.1, dst),
{
    let list = new.spec_bypass();
    net::lemma_missing_contains(list, old.spec_bypass(), e);
    net::lemma_missing_contains(old.spec_bypass(), list, e);
    if list.contains(e) && net::covers(e.0, e.1, dst) {
        let i = choose|i: int| 0 <= i < list.len() && list[i] == e;
        assert(net::entry_covers(list[i], dst));
        assert(net::any_covers(list, dst));
    }
    if plan.route_table.matches(dst) {
        assert(net::any_covers(list, dst));
        let i = choose|i: int| 0 <= i < list.len() && #[trigger] net::entry_covers(list[i], dst);
        assert(list.contains(list[i]));
    }
}

/// Each of the three fields that only a restart changes is reported exactly where
/// it differs, and once; nothing else is.
pub proof fn lemma_restart_fields_are_reported(old: Config, new: Config)
    ensures
        immutable_diff(old, new).contains("tun_name") <==> old.tun_name@ != new.tun_name@,
        immutable_diff(old, new).contains("tun_ip") <==> old.tun_ip@ != new.tun_ip@,
        immutable_diff(old, new).contains("metrics_addr") <==> text::optional_text(old.metrics_addr)
            != text::optional_text(new.metrics_addr),
        immutable_diff(old, new).no_duplicates(),
        immutable_diff(old, new).len() <= 3,
{
    let d = immutable_diff(old, new);
    reveal_strlit("tun_name");
    reveal_strlit("tun_ip");
    reveal_strlit("metrics_addr");
    assert("tun_name"@.len() == 8 && "tun_ip"@.len() == 6 && "metrics_addr"@.len() == 12);
    let a: int = if old.tun_name@ != new.tun_name@ {
        1
    } else {
        0
    };
    let b: int = if old.tun_ip@ != new.tun_ip@ {
        1
    } else {
        0
    };
    if old.tun_name@ != new.tun_name@ {
        assert(d[0] == "tun_name");
    }
    if old.tun_ip@ != new.tun_ip@ {
        assert(d[a] == "tun_ip");
    }
    if text::optional_text(old.metrics_addr) != text::optional_text(new.metrics_addr) {
        assert(d[a + b] == "metrics_addr");
    }
}

/// What is taken over is new in every field but the three.
pub proof fn lemma_all_other_fields_are_taken_over(old: Config, new: Config)
    ensures
        ({
            let c = taken_over(old, new);
            &&& c.tun_name == old.tun_name && c.tun_ip == old.tun_ip && c.metrics_addr
                == old.metrics_addr
            &&& c.proxy_addr == new.proxy_addr && c.username == new.username && c.password
                == new.password
            &&& c.verbose == new.verbose && c.dns_server == new.dns_server && c.override_dns
                == new.override_dns
            &&& c.dns_over_tcp == new.dns_over_tcp && c.bypass_cidrs == new.bypass_cidrs
        }),
{
}

} // verus!
