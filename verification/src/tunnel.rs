//! The tunnel as a whole: what is counted for a relayed connection, what an
//! event asks for, and how a changed configuration takes effect.

use std::sync::Arc;
use vstd::prelude::*;
use crate::addr;
use crate::addr::{IpAddr, SocketAddr};
use crate::config;
use crate::config::{Config, ProxyConfig};
use crate::dns;
use crate::dns::DnsPool;
use crate::net;
use crate::net::{RouteDecision, RouteTable};
use crate::reload;
use crate::reload::{ReloadPlan, Shared};
use crate::socks;
use crate::stats;
use crate::stats::{GaugeGuard, Stats};
use crate::text;
use crate::tune::Tuning;
use crate::udp::UdpOptions;
use crate::LoadError;

verus! {

pub const STATS_INTERVAL_SECS: u64 = 30;

// ---------------------------------------------------------------------------
// Starting
// ---------------------------------------------------------------------------
/// What the parts of a tunnel are started with.
#[derive(Clone, Copy, PartialEq, Eq, Debug, Structural)]
pub struct RunPlan {
    pub mtu: u32,
    pub stack_buf_size: usize,
    pub tcp_buf_size: usize,
    pub udp_buf_size: usize,
    pub relay_copy_buf_size: usize,
    pub max_tcp_connections: usize,
    pub capture_ipv6: bool,
    pub udp: UdpOptions,
    pub metrics: Option<SocketAddr>,
}

/// What the parts of a tunnel are started with, for a configuration and the
/// limits of the host.
pub open spec fn run_plan(cfg: Config, tuning: Tuning) -> RunPlan {
    RunPlan {
        mtu: tuning.mtu,
        stack_buf_size: tuning.stack_buf_size,
        tcp_buf_size: tuning.relay_buf_size,
        udp_buf_size: tuning.relay_buf_size,
        relay_copy_buf_size: tuning.relay_copy_buf_size,
        max_tcp_connections: tuning.max_tcp_connections,
        capture_ipv6: tuning.capture_ipv6,
        udp: UdpOptions {
            idle_timeout: tuning.udp_idle_timeout,
            max_sessions: tuning.max_udp_sessions,
            dns_over_tcp: cfg.dns_over_tcp,
        },
        metrics: match cfg.metrics_addr {
            Some(a) => addr::socket_value(a@),
            None => None,
        },
    }
}

/// Plans the parts of a tunnel from its configuration and the limits of the
/// host.
pub fn plan_run(cfg: &Config, tuning: &Tuning) -> (r: RunPlan)
    requires
        cfg.fault() is None,
    ensures
        r == run_plan(*cfg, *tuning),
{
    proof {
        config::lemma_valid_config_is_readable(*cfg);
    }
    RunPlan {
        mtu: tuning.mtu,
        stack_buf_size: tuning.stack_buf_size,
        tcp_buf_size: tuning.relay_buf_size,
        udp_buf_size: tuning.relay_buf_size,
        relay_copy_buf_size: tuning.relay_copy_buf_size,
        max_tcp_connections: tuning.max_tcp_connections,
        capture_ipv6: tuning.capture_ipv6,
        udp: UdpOptions {
            idle_timeout: tuning.udp_idle_timeout,
            max_sessions: tuning.max_udp_sessions,
            dns_over_tcp: cfg.dns_over_tcp,
        },
        metrics: cfg.metrics_socket_addr(),
    }
}

/// The state that the parts of a tunnel share from its start on.
pub fn start(cfg: &Config, tuning: &Tuning) -> (r: (Shared, DnsPool))
    requires
        cfg.fault() is None,
    ensures
        r.0.current_proxy().describes(*cfg),
        forall|a: IpAddr| #[trigger] r.0.current_routes().matches(a) == net::any_covers(
            cfg.spec_bypass(),
            a,
        ),
        r.0.current_routes().count() == cfg.spec_bypass().len(),
        r.1.wf(),
        r.1.current_proxy().describes(*cfg),
        r.1.list().len() == 0,
        r.1.spec_query_timeout().nanos == config::DEFAULT_CONNECT_TIMEOUT_NANOS,
        r.1.spec_idle_timeout() == tuning.udp_idle_timeout,
{
    proof {
        config::lemma_valid_config_is_readable(*cfg);
    }
    let proxy = Arc::new(ProxyConfig::from_config(cfg));
    let timeout = proxy.connect_timeout;
    let bypass = cfg.bypass_routes();
    let routes = Arc::new(RouteTable::new(bypass.as_slice()));
    let shared = Shared::new(Arc::clone(&proxy), routes);
    let pool = DnsPool::new(proxy, timeout, tuning.udp_idle_timeout);
    (shared, pool)
}

// ---------------------------------------------------------------------------
// Relayed connections
// ---------------------------------------------------------------------------
/// The counters after a connection came in.
pub open spec fn flow_opened(s: Stats, decision: RouteDecision) -> Stats {
    let t = Stats {
        tcp_opened: s.tcp_opened.plus(1),
        tcp_active: s.tcp_active.plus(1),
        ..s
    };
    match decision {
        RouteDecision::Direct => Stats { route_direct: t.route_direct.plus(1), ..t },
        RouteDecision::Proxy => Stats { route_proxy: t.route_proxy.plus(1), ..t },
    }
}

/// A connection came in.
pub fn on_flow_opened(stats: &mut Stats, decision: RouteDecision) -> (guard: GaugeGuard)
    ensures
        *final(stats) == flow_opened(*old(stats), decision),
{
    stats::inc(&mut stats.tcp_opened);
    let guard = GaugeGuard::new(&mut stats.tcp_active);
    match decision {
        RouteDecision::Direct => stats::inc(&mut stats.route_direct),
        RouteDecision::Proxy => stats::inc(&mut stats.route_proxy),
    }
    guard
}

/// The counters after no connection to the proxy came up.
pub open spec fn flow_failed(s: Stats, handshake: bool) -> Stats {
    let t = Stats {
        tcp_closed: s.tcp_closed.plus(1),
        tcp_errors: s.tcp_errors.plus(1),
        conn_failures: s.conn_failures.plus(1),
        ..s
    };
    if handshake {
        Stats { socks_handshake_failures: t.socks_handshake_failures.plus(1), ..t }
    } else {
        t
    }
}

/// No connection to the proxy came up.
pub fn on_connect_failed(stats: &mut Stats, handshake: bool)
    ensures
        *final(stats) == flow_failed(*old(stats), handshake),
{
    stats::inc(&mut stats.tcp_closed);
    stats::inc(&mut stats.tcp_errors);
    stats::inc(&mut stats.conn_failures);
    if handshake {
        stats::inc(&mut stats.socks_handshake_failures);
    }
}

/// The counters after a relay ended: with what it carried to and from the
/// proxy, or with a fault.
pub open spec fn flow_closed(s: Stats, dst: IpAddr, carried: Option<(u64, u64)>) -> Stats {
    let t = Stats { tcp_closed: s.tcp_closed.plus(1), ..s };
    match carried {
        Some((tx, rx)) => (Stats {
            bytes_tx: t.bytes_tx.plus(tx as int),
            bytes_rx: t.bytes_rx.plus(rx as int),
            ..t
        }).with_traffic(dst, (tx + rx) as u64),
        None => Stats { tcp_errors: t.tcp_errors.plus(1), ..t },
    }
}

/// A relay ended.
pub fn on_relay_ended(stats: &mut Stats, dst: IpAddr, carried: Option<(u64, u64)>)
    requires
        carried matches Some((tx, rx)) ==> tx + rx <= u64::MAX,
    ensures
        *final(stats) == flow_closed(*old(stats), dst, carried),
{
    stats::inc(&mut stats.tcp_closed);
    match carried {
        Some((tx, rx)) => {
            stats::add(&mut stats.bytes_tx, tx);
            stats::add(&mut stats.bytes_rx, rx);
            stats::record_traffic(stats, dst, tx + rx);
        },
        None => {
            stats::inc(&mut stats.tcp_errors);
        },
    }
}

/// However a connection ends, it is counted once as opened and once as closed,
/// and is no longer active.
pub proof fn lemma_flows_balance(
    s: Stats,
    decision: RouteDecision,
    handshake: bool,
    dst: IpAddr,
    carried: Option<(u64, u64)>,
)
    ensures
        ({
            let failed = flow_failed(flow_opened(s, decision), handshake);
            let closed = flow_closed(flow_opened(s, decision), dst, carried);
            &&& failed.tcp_opened == s.tcp_opened.plus(1)
            &&& failed.tcp_closed == s.tcp_closed.plus(1)
            &&& failed.tcp_active.plus(-1) == s.tcp_active
            &&& closed.tcp_opened == s.tcp_opened.plus(1)
            &&& closed.tcp_closed == s.tcp_closed.plus(1)
            &&& closed.tcp_active.plus(-1) == s.tcp_active
        }),
{
    stats::lemma_gauge_balances(s.tcp_active, 0);
}

// ---------------------------------------------------------------------------
// Failed handshakes
// ---------------------------------------------------------------------------
/// What `str::to_lowercase` makes of a text.
pub uninterp spec fn lowercase_text(s: Seq<char>) -> Seq<char>;

/// A character of ASCII in lower case.
pub open spec fn ascii_lower(c: char) -> char {
    if 'A' <= c <= 'Z' {
        (c as u32 + 32) as char
    } else {
        c
    }
}

pub open spec fn is_ascii(s: Seq<char>) -> bool {
    forall|i: int| 0 <= i < s.len() ==> (#[trigger] s[i] as u32) < 128
}

/// `str::to_lowercase`: the text in lower case, by the rules of Unicode. In
/// ASCII that is each letter in lower case; what becomes of other letters is
/// not said beyond its being the same each time.
#[verifier::external_body]
fn lowercase(s: &str) -> (r: String)
    ensures
        r@ == lowercase_text(s@),
        is_ascii(s@) ==> r@ == s@.map_values(|c: char| ascii_lower(c)),
{
    s.to_lowercase()
}

/// Whether a fault, in lower case, speaks of the handshake with the proxy.
pub open spec fn speaks_of_handshake(s: Seq<char>) -> bool {
    text::contains(s, "socks"@) || text::contains(s, "authentication"@) || text::contains(
        s,
        "handshake"@,
    )
}

fn has_text(s: &[char], p: &str) -> (r: bool)
    ensures
        r == text::contains(s@, p@),
{
    let chars = text::chars_of(p);
    match text::find_text(s, chars.as_slice()) {
        Some(i) => {
            assert(text::occurs_at(s@, p@, i as int));
            true
        },
        None => false,
    }
}

pub fn mentions_handshake(lower: &str) -> (r: bool)
    ensures
        r == speaks_of_handshake(lower@),
{
    let chars = text::chars_of(lower);
    let s = chars.as_slice();
    has_text(s, "socks") || has_text(s, "authentication") || has_text(s, "handshake")
}

/// Whether a fault, told with all its causes, is one of the handshake with the
/// proxy.
pub fn is_handshake_failure(fault: &str) -> (r: bool)
    ensures
        r == speaks_of_handshake(lowercase_text(fault@)),
        is_ascii(fault@) ==> r == speaks_of_handshake(fault@.map_values(|c: char| ascii_lower(c))),
{
    let lower = lowercase(fault);
    mentions_handshake(lower.as_str())
}

/// Whatever keeps a connection through the proxy from coming up, it counts as
/// a failed handshake, as long as its causes are told in ASCII.
pub proof fn lemma_failed_connect_is_handshake_failure(
    with_password: bool,
    timed_out: bool,
    causes: Seq<char>,
)
    ensures
        speaks_of_handshake(
            (socks::connect_failure_text(with_password, timed_out)@ + causes).map_values(
                |c: char| ascii_lower(c),
            ),
        ),
{
    let s = (socks::connect_failure_text(with_password, timed_out)@ + causes).map_values(
        |c: char| ascii_lower(c),
    );
    reveal_strlit("SOCKS5 authenticated connect timed out");
    reveal_strlit("SOCKS5 authenticated connect failed");
    reveal_strlit("SOCKS5 connect timed out");
    reveal_strlit("SOCKS5 connect failed");
    reveal_strlit("socks");
    assert(s.subrange(0, 5) =~= "socks"@);
    assert(text::occurs_at(s, "socks"@, 0));
}

// ---------------------------------------------------------------------------
// The regular report
// ---------------------------------------------------------------------------
pub open spec fn report_text(s: Stats) -> Seq<char> {
    "stats: tcp_active="@ + text::dec_text(s.tcp_active.value as nat) + " tcp_open="@
        + text::dec_text(s.tcp_opened.value as nat) + " tcp_err="@ + text::dec_text(
        s.tcp_errors.value as nat,
    ) + " udp_active="@ + text::dec_text(s.udp_active.value as nat) + " udp_pkts="@
        + text::dec_text(s.udp_packets.value as nat) + " udp_err="@ + text::dec_text(
        s.udp_errors.value as nat,
    ) + " dns_req="@ + text::dec_text(s.dns_requests.value as nat) + " dns_fail="@
        + text::dec_text(s.dns_failures.value as nat) + " tx="@ + stats::bytes_text(
        s.bytes_tx.value,
    ) + " rx="@ + stats::bytes_text(s.bytes_rx.value)
}

fn push_count(out: &mut String, label: &str, value: u64)
    ensures
        final(out)@ == old(out)@ + label@ + text::dec_text(value as nat),
{
    text::push_text(out, label);
    text::push_decimal(out, value);
}

/// The counters in one line.
pub fn report(s: &Stats) -> (r: String)
    ensures
        r@ == report_text(*s),
{
    let mut out = String::new();
    push_count(&mut out, "stats: tcp_active=", stats::get(&s.tcp_active));
    push_count(&mut out, " tcp_open=", stats::get(&s.tcp_opened));
    push_count(&mut out, " tcp_err=", stats::get(&s.tcp_errors));
    push_count(&mut out, " udp_active=", stats::get(&s.udp_active));
    push_count(&mut out, " udp_pkts=", stats::get(&s.udp_packets));
    push_count(&mut out, " udp_err=", stats::get(&s.udp_errors));
    push_count(&mut out, " dns_req=", stats::get(&s.dns_requests));
    push_count(&mut out, " dns_fail=", stats::get(&s.dns_failures));
    text::push_text(&mut out, " tx=");
    let tx = stats::format_bytes(stats::get(&s.bytes_tx));
    text::push_text(&mut out, tx.as_str());
    text::push_text(&mut out, " rx=");
    let rx = stats::format_bytes(stats::get(&s.bytes_rx));
    text::push_text(&mut out, rx.as_str());
    assert(out@ =~= report_text(*s));
    out
}

// ---------------------------------------------------------------------------
// Events
// ---------------------------------------------------------------------------
/// What happens to a tunnel whose routes are in place.
#[derive(Clone, Copy, PartialEq, Eq, Debug, Structural)]
pub enum RunEvent {
    /// A part could not be started once the routes were in place.
    StartFailed,
    /// Datagrams are no longer relayed.
    UdpEnded,
    /// The tunnel is told to stop.
    Shutdown,
    /// The tunnel is told to read its configuration again.
    Reload,
}

#[derive(Clone, Copy, PartialEq, Eq, Debug, Structural)]
pub enum RunAction {
    Stop,
    Reload,
}

/// What an event asks for: the tunnel is taken down on all but a reload.
pub open spec fn asked_for(event: RunEvent) -> RunAction {
    if event is Reload {
        RunAction::Reload
    } else {
        RunAction::Stop
    }
}

/// What an event asks for: the tunnel is taken down on all but a reload.
pub fn run_step(event: RunEvent) -> (r: RunAction)
    ensures
        r == asked_for(event),
{
    match event {
        RunEvent::Reload => RunAction::Reload,
        _ => RunAction::Stop,
    }
}

// ---------------------------------------------------------------------------
// A changed configuration
// ---------------------------------------------------------------------------
/// What a configuration that was read again asks for.
pub enum ReloadDecision {
    /// It could not be had: all stays as it is.
    Keep(LoadError),
    /// Nothing of effect has changed.
    Nothing,
    /// The plan is to be carried out.
    Apply(ReloadPlan),
}

/// Decides what a configuration that was read again asks for.
pub fn decide_reload(current: &Config, loaded: Result<&Config, LoadError>) -> (r: ReloadDecision)
    requires
        current.fault() is None,
        loaded matches Ok(cfg) ==> cfg.fault() is None,
    ensures
        match loaded {
            Err(e) => r == ReloadDecision::Keep(e),
            Ok(new) => match r {
                ReloadDecision::Keep(_) => false,
                ReloadDecision::Nothing => reload::asks_nothing(*current, *new),
                ReloadDecision::Apply(plan) => plan.leads(*current, *new)
                    && !reload::asks_nothing(*current, *new),
            },
        },
{
    match loaded {
        Err(e) => ReloadDecision::Keep(e),
        Ok(new) => {
            proof {
                config::lemma_valid_config_is_readable(*current);
                config::lemma_valid_config_is_readable(*new);
            }
            let plan = ReloadPlan::compute(current, new);
            if plan.is_noop() {
                ReloadDecision::Nothing
            } else {
                ReloadDecision::Apply(plan)
            }
        },
    }
}

/// The counters after a configuration was taken over.
pub open spec fn reload_counted(s: Stats) -> Stats {
    Stats { config_reloads: s.config_reloads.plus(1), ..s }
}

/// Carries out what is left of a plan once the routes have been changed: new
/// flows use the new proxy and the new table, and so do name queries; the new
/// configuration is taken over, but for the fields that only a restart changes.
pub fn finish_reload(
    plan: ReloadPlan,
    new: Config,
    current: &mut Config,
    shared: &mut Shared,
    pool: &mut DnsPool,
    stats: &mut Stats,
)
    requires
        old(pool).wf(),
    ensures
        final(pool).wf(),
        *final(current) == reload::taken_over(*old(current), new),
        old(current).fault() is None && new.fault() is None ==> final(current).fault() is None,
        final(shared).current_proxy() == plan.proxy,
        final(shared).current_routes() == plan.route_table,
        plan.proxy_changed ==> final(pool).current_proxy() == plan.proxy && final(pool).list()
            == old(pool).list().map_values(|c: dns::ConnView| dns::retired(c)),
        !plan.proxy_changed ==> *final(pool) == *old(pool),
        final(pool).spec_query_timeout() == old(pool).spec_query_timeout(),
        final(pool).spec_idle_timeout() == old(pool).spec_idle_timeout(),
        final(pool).spec_next_key() == old(pool).spec_next_key(),
        *final(stats) == reload_counted(*old(stats)),
{
    let changed = plan.proxy_changed;
    let proxy = Arc::new(plan.proxy);
    shared.store_proxy(Arc::clone(&proxy));
    shared.store_routes(Arc::new(plan.route_table));
    if changed {
        pool.set_proxy(proxy);
    }
    stats::inc(&mut stats.config_reloads);
    reload::take_over(current, new);
}

/// After a reload that goes through, a destination goes direct exactly where
/// the new configuration says so, and a connection to the proxy is made as the
/// new configuration says, for flows and for name queries alike.
pub proof fn lemma_reload_takes_effect(
    old_cfg: Config,
    new_cfg: Config,
    plan: ReloadPlan,
    shared: Shared,
    pool_before: DnsPool,
    pool: DnsPool,
    addr: IpAddr,
)
    requires
        plan.leads(old_cfg, new_cfg),
        shared.current_proxy() == plan.proxy,
        shared.current_routes() == plan.route_table,
        pool_before.current_proxy().describes(old_cfg),
        plan.proxy_changed ==> pool.current_proxy() == plan.proxy,
        !plan.proxy_changed ==> pool == pool_before,
    ensures
        shared.current_proxy().describes(new_cfg),
        shared.current_routes().matches(addr) == net::any_covers(new_cfg.spec_bypass(), addr),
        pool.current_proxy().addr == new_cfg.spec_proxy_addr(),
        text::optional_text(pool.current_proxy().username) == text::optional_text(
            new_cfg.username,
        ),
        text::optional_text(pool.current_proxy().password) == text::optional_text(
            new_cfg.password,
        ),
{
}

/// The tunnel stays up on a reload, and on nothing else: when it is told to
/// stop, when datagrams are no longer relayed and when a part cannot be started
/// it is taken down.
pub proof fn lemma_only_a_reload_keeps_the_tunnel_up(event: RunEvent)
    ensures
        asked_for(event) is Reload <==> event is Reload,
        asked_for(RunEvent::StartFailed) is Stop,
        asked_for(RunEvent::UdpEnded) is Stop,
        asked_for(RunEvent::Shutdown) is Stop,
{
}

/// A tunnel runs with what suits the host: the unit of its link, IPv6 only where
/// there is a gateway for it, and no more connections and sessions than the
/// limits. It takes name queries over connections exactly where the
/// configuration says so, and serves metrics exactly where that gives an
/// address, and there.
pub proof fn lemma_plan_suits_host_and_config(
    cfg: Config,
    tuning: Tuning,
    probe: crate::tune::SystemProbe,
    m: u32,
    at: SocketAddr,
    name_server: IpAddr,
)
    requires
        tuning.fits(probe),
    ensures
        ({
            let plan = run_plan(cfg, tuning);
            &&& probe.link_mtu == Some(m) && 576 <= m <= 65535 ==> plan.mtu == m
            &&& plan.capture_ipv6 <==> probe.has_ipv6_gateway
            &&& plan.max_tcp_connections == tuning.max_tcp_connections
            &&& plan.udp.max_sessions == tuning.max_udp_sessions
            &&& plan.udp.idle_timeout.nanos == 60 * 1_000_000_000
            &&& plan.tcp_buf_size == tuning.relay_buf_size
            &&& plan.udp_buf_size == tuning.relay_buf_size
            &&& plan.relay_copy_buf_size == tuning.relay_copy_buf_size
            &&& plan.stack_buf_size == tuning.stack_buf_size
            &&& crate::udp::is_name_query(plan.udp, SocketAddr::of(name_server, 53))
                <==> cfg.dns_over_tcp
            &&& cfg.metrics_addr is None ==> plan.metrics is None
            &&& cfg.metrics_addr matches Some(a) ==> (a@ == at.text() ==> plan.metrics == Some(at))
        }),
{
    addr::lemma_socket_round_trip(at);
}

/// A connection that comes in counts as opened, as active, and for the way it
/// takes; one that does not reach the proxy as closed, as an error and as a
/// failed connection, and as a failed handshake exactly where it was one. No
/// other counter moves.
pub proof fn lemma_flows_are_counted_by_their_way(s: Stats, handshake: bool)
    ensures
        ({
            let t = flow_opened(s, RouteDecision::Direct);
            &&& t.tcp_opened == s.tcp_opened.plus(1)
            &&& t.tcp_active == s.tcp_active.plus(1)
            &&& t.route_direct == s.route_direct.plus(1)
            &&& s == (Stats {
                tcp_opened: s.tcp_opened,
                tcp_active: s.tcp_active,
                route_direct: s.route_direct,
                ..t
            })
        }),
        ({
            let t = flow_opened(s, RouteDecision::Proxy);
            &&& t.tcp_opened == s.tcp_opened.plus(1)
            &&& t.tcp_active == s.tcp_active.plus(1)
            &&& t.route_proxy == s.route_proxy.plus(1)
            &&& s == (Stats {
                tcp_opened: s.tcp_opened,
                tcp_active: s.tcp_active,
                route_proxy: s.route_proxy,
                ..t
            })
        }),
        ({
            let t = flow_failed(s, handshake);
            &&& t.tcp_closed == s.tcp_closed.plus(1)
            &&& t.tcp_errors == s.tcp_errors.plus(1)
            &&& t.conn_failures == s.conn_failures.plus(1)
            &&& handshake ==> t.socks_handshake_failures == s.socks_handshake_failures.plus(1)
            &&& !handshake ==> t.socks_handshake_failures == s.socks_handshake_failures
            &&& s == (Stats {
                tcp_closed: s.tcp_closed,
                tcp_errors: s.tcp_errors,
                conn_failures: s.conn_failures,
                socks_handshake_failures: s.socks_handshake_failures,
                ..t
            })
        }),
{
}

/// A relay that ends in order counts what it carried each way, and both together
/// for the family of its destination; one that breaks counts as an error and for
/// no octets. Either counts as closed, and no other counter moves.
pub proof fn lemma_relayed_octets_are_counted(s: Stats, dst: IpAddr, tx: u64, rx: u64)
    requires
        tx + rx <= u64::MAX,
    ensures
        ({
            let t = flow_closed(s, dst, Some((tx, rx)));
            &&& t.tcp_closed == s.tcp_closed.plus(1)
            &&& t.bytes_tx == s.bytes_tx.plus(tx as int)
            &&& t.bytes_rx == s.bytes_rx.plus(rx as int)
            &&& dst is V4 ==> t.bytes_v4 == s.bytes_v4.plus(tx + rx) && t.bytes_v6 == s.bytes_v6
            &&& dst is V6 ==> t.bytes_v6 == s.bytes_v6.plus(tx + rx) && t.bytes_v4 == s.bytes_v4
            &&& s == (Stats {
                tcp_closed: s.tcp_closed,
                bytes_tx: s.bytes_tx,
                bytes_rx: s.bytes_rx,
                bytes_v4: s.bytes_v4,
                bytes_v6: s.bytes_v6,
                ..t
            })
        }),
        ({
            let t = flow_closed(s, dst, None);
            &&& t.tcp_closed == s.tcp_closed.plus(1)
            &&& t.tcp_errors == s.tcp_errors.plus(1)
            &&& s == (Stats { tcp_closed: s.tcp_closed, tcp_errors: s.tcp_errors, ..t })
        }),
{
}

/// A fault is one of the handshake exactly where one of three words stands in
/// it, wherever that is.
pub proof fn lemma_three_words_tell_a_handshake(before: Seq<char>, after: Seq<char>, s: Seq<char>)
    ensures
        speaks_of_handshake(before + "socks"@ + after),
        speaks_of_handshake(before + "authentication"@ + after),
        speaks_of_handshake(before + "handshake"@ + after),
        speaks_of_handshake(s) ==> exists|i: int, j: int|
            0 <= i <= j <= s.len() && {
                let word = #[trigger] s.subrange(i, j);
                word == "socks"@ || word == "authentication"@ || word == "handshake"@
            },
{
    let n = before.len() as int;
    let a = before + "socks"@ + after;
    let b = before + "authentication"@ + after;
    let c = before + "handshake"@ + after;
    assert(a.subrange(n, n + "socks"@.len()) =~= "socks"@);
    assert(text::occurs_at(a, "socks"@, n));
    assert(b.subrange(n, n + "authentication"@.len()) =~= "authentication"@);
    assert(text::occurs_at(b, "authentication"@, n));
    assert(c.subrange(n, n + "handshake"@.len()) =~= "handshake"@);
    assert(text::occurs_at(c, "handshake"@, n));
    if speaks_of_handshake(s) {
        let w = if text::contains(s, "socks"@) {
            "socks"@
        } else if text::contains(s, "authentication"@) {
            "authentication"@
        } else {
            "handshake"@
        };
        let i = choose|i: int| text::occurs_at(s, w, i);
        assert(s.subrange(i, i + w.len()) == w);
    }
}

/// In lower case only the 26 capitals of ASCII change, each to its own small
/// letter.
pub proof fn lemma_lower_case_of_ascii(c: char)
    ensures
        65 <= c as u32 <= 90 ==> ascii_lower(c) as u32 == c as u32 + 32,
        !(65 <= c as u32 <= 90) ==> ascii_lower(c) == c,
{
}

proof fn lemma_part(s: Seq<char>, before: Seq<char>, part: Seq<char>, after: Seq<char>)
    requires
        s == before + part + after,
    ensures
        text::contains(s, part),
{
    let n = before.len() as int;
    assert(s.subrange(n, n + part.len()) =~= part);
    assert(text::occurs_at(s, part, n));
}

/// Each count stands in the report behind its own name and up to the next one.
pub proof fn lemma_report_tells_each_count(s: Stats)
    ensures
        text::contains(
            report_text(s),
            "tcp_active="@ + text::dec_text(s.tcp_active.value as nat) + " tcp_open="@
                + text::dec_text(s.tcp_opened.value as nat) + " tcp_err="@ + text::dec_text(
                s.tcp_errors.value as nat,
            ) + " "@,
        ),
        text::contains(
            report_text(s),
            " udp_active="@ + text::dec_text(s.udp_active.value as nat) + " udp_pkts="@
                + text::dec_text(s.udp_packets.value as nat) + " udp_err="@ + text::dec_text(
                s.udp_errors.value as nat,
            ) + " "@,
        ),
        text::contains(
            report_text(s),
            " dns_req="@ + text::dec_text(s.dns_requests.value as nat) + " dns_fail="@
                + text::dec_text(s.dns_failures.value as nat) + " tx="@ + stats::bytes_text(
                s.bytes_tx.value,
            ) + " rx="@ + stats::bytes_text(s.bytes_rx.value),
        ),
{
    reveal_strlit("stats: tcp_active=");
    reveal_strlit("stats: ");
    reveal_strlit("tcp_active=");
    reveal_strlit(" ");
    reveal_strlit(" udp_active=");
    reveal_strlit("udp_active=");
    reveal_strlit(" dns_req=");
    reveal_strlit("dns_req=");
    let a = text::dec_text(s.tcp_active.value as nat) + " tcp_open="@ + text::dec_text(
        s.tcp_opened.value as nat,
    ) + " tcp_err="@ + text::dec_text(s.tcp_errors.value as nat);
    let b = text::dec_text(s.udp_active.value as nat) + " udp_pkts="@ + text::dec_text(
        s.udp_packets.value as nat,
    ) + " udp_err="@ + text::dec_text(s.udp_errors.value as nat);
    let c = text::dec_text(s.dns_requests.value as nat) + " dns_fail="@ + text::dec_text(
        s.dns_failures.value as nat,
    ) + " tx="@ + stats::bytes_text(s.bytes_tx.value) + " rx="@ + stats::bytes_text(
        s.bytes_rx.value,
    );
    let r = report_text(s);
    assert(r =~= "stats: tcp_active="@ + a + " udp_active="@ + b + " dns_req="@ + c);
    let p = "tcp_active="@ + text::dec_text(s.tcp_active.value as nat) + " tcp_open="@
        + text::dec_text(s.tcp_opened.value as nat) + " tcp_err="@ + text::dec_text(
        s.tcp_errors.value as nat,
    ) + " "@;
    assert(p =~= "tcp_active="@ + a + " "@);
    assert("stats: tcp_active="@ =~= "stats: "@ + "tcp_active="@);
    assert(" udp_active="@ =~= " "@ + "udp_active="@);
    assert(" dns_req="@ =~= " "@ + "dns_req="@);
    assert(r =~= "stats: "@ + p + ("udp_active="@ + b + " dns_req="@ + c));
    lemma_part(r, "stats: "@, p, "udp_active="@ + b + " dns_req="@ + c);
    let q = " udp_active="@ + text::dec_text(s.udp_active.value as nat) + " udp_pkts="@
        + text::dec_text(s.udp_packets.value as nat) + " udp_err="@ + text::dec_text(
        s.udp_errors.value as nat,
    ) + " "@;
    assert(q =~= " udp_active="@ + b + " "@);
    assert(r =~= ("stats: tcp_active="@ + a) + q + ("dns_req="@ + c));
    lemma_part(r, "stats: tcp_active="@ + a, q, "dns_req="@ + c);
    let d = " dns_req="@ + text::dec_text(s.dns_requests.value as nat) + " dns_fail="@
        + text::dec_text(s.dns_failures.value as nat) + " tx="@ + stats::bytes_text(
        s.bytes_tx.value,
    ) + " rx="@ + stats::bytes_text(s.bytes_rx.value);
    assert(d =~= " dns_req="@ + c);
    assert(r =~= ("stats: tcp_active="@ + a + " udp_active="@ + b) + d + Seq::<char>::empty());
    lemma_part(r, "stats: tcp_active="@ + a + " udp_active="@ + b, d, Seq::empty());
}

/// A reload that goes through counts as one, and no other counter moves.
pub proof fn lemma_reloads_are_counted(s: Stats)
    ensures
        reload_counted(s).config_reloads == s.config_reloads.plus(1),
        s == (Stats { config_reloads: s.config_reloads, ..reload_counted(s) }),
{
}

} // verus!
