//! Datagrams: which go to a name server and which to a session, and what a
//! session does with what happens to it.

use vstd::prelude::*;
use crate::addr::{IpAddr, Ipv4Addr, Ipv6Addr, SocketAddr};
use crate::socks;
use crate::stats;
use crate::stats::Stats;
use crate::text;
use crate::time::Duration;

verus! {

pub const MAX_DATAGRAM: usize = 65535;
pub const REPLY_CHANNEL_DEPTH: usize = 2048;
pub const SESSION_CHANNEL_DEPTH: usize = 256;
pub const DONE_CHANNEL_DEPTH: usize = 256;
pub const DNS_PORT: u16 = 53;
pub const DNS_PRUNE_INTERVAL_SECS: u64 = 30;

#[derive(Clone, Copy, PartialEq, Eq, Debug, Structural)]
pub struct UdpOptions {
    pub idle_timeout: Duration,
    pub max_sessions: usize,
    pub dns_over_tcp: bool,
}

// ---------------------------------------------------------------------------
// The table of sessions
// ---------------------------------------------------------------------------
/// The sources that have a session, each once.
pub struct Sessions {
    sources: Vec<SocketAddr>,
}

impl Sessions {
    /// The sources that have a session.
    pub closed spec fn set(self) -> Set<SocketAddr> {
        self.sources@.to_set()
    }

    /// How many sessions there are.
    pub closed spec fn count(self) -> nat {
        self.sources@.len()
    }

    pub closed spec fn wf(self) -> bool {
        self.sources@.no_duplicates()
    }

    pub fn new() -> (r: Sessions)
        ensures
            r.wf(),
            r.count() == 0,
            r.set() == Set::<SocketAddr>::empty(),
    {
        let r = Sessions { sources: Vec::new() };
        assert(r.set() =~= Set::<SocketAddr>::empty());
        r
    }

    pub fn len(&self) -> (r: usize)
        ensures
            r == self.count(),
    {
        self.sources.len()
    }

    fn position(&self, src: SocketAddr) -> (r: Option<usize>)
        ensures
            match r {
                Some(i) => i < self.sources@.len() && self.sources@[i as int] == src,
                None => !self.set().contains(src),
            },
    {
        for i in 0..self.sources.len()
            invariant
                forall|j: int| 0 <= j < i ==> self.sources@[j] != src,
        {
            if self.sources[i] == src {
                return Some(i);
            }
        }
        None
    }

    pub fn contains(&self, src: SocketAddr) -> (r: bool)
        ensures
            r == self.set().contains(src),
    {
        match self.position(src) {
            Some(i) => {
                assert(self.sources@.contains(src));
                true
            },
            None => false,
        }
    }

    /// Notes a session of `src`, in place of one that it has.
    fn insert(&mut self, src: SocketAddr)
        requires
            old(self).wf(),
        ensures
            final(self).wf(),
            final(self).set() == old(self).set().insert(src),
            final(self).count() == old(self).count() + (if old(self).set().contains(src) {
                0nat
            } else {
                1
            }),
    {
        let ghost before = self.sources@;
        if !self.contains(src) {
            self.sources.push(src);
            proof {
                assert forall|x: SocketAddr| #[trigger]
                    self.set().contains(x) == before.to_set().insert(src).contains(x) by {
                    if before.contains(x) {
                        let i = choose|i: int| 0 <= i < before.len() && before[i] == x;
                        assert(self.sources@[i] == x);
                    }
                    if x == src {
                        assert(self.sources@[before.len() as int] == x);
                    }
                }
            }
        }
        assert(self.set() =~= before.to_set().insert(src));
    }

    fn remove(&mut self, src: SocketAddr)
        requires
            old(self).wf(),
        ensures
            final(self).wf(),
            final(self).set() == old(self).set().remove(src),
            final(self).count() == old(self).count() - (if old(self).set().contains(src) {
                1int
            } else {
                0
            }),
    {
        let ghost before = self.sources@;
        match self.position(src) {
            Some(i) => {
                assert(before.contains(src));
                self.sources.remove(i);
                proof {
                    let k = i as int;
                    let after = self.sources@;
                    assert(after =~= before.remove(k));
                    assert forall|x: SocketAddr| #[trigger]
                        self.set().contains(x) == before.to_set().remove(src).contains(x) by {
                        if before.contains(x) && x != src {
                            let j = choose|j: int| 0 <= j < before.len() && before[j] == x;
                            if j < k {
                                assert(after[j] == x);
                            } else {
                                assert(after[j - 1] == x);
                            }
                        }
                        if after.contains(x) {
                            let j = choose|j: int| 0 <= j < after.len() && after[j] == x;
                            if j < k {
                                assert(before[j] == x);
                            } else {
                                assert(before[j + 1] == x);
                            }
                        }
                    }
                }
            },
            None => {},
        }
        assert(self.set() =~= before.to_set().remove(src));
    }

    /// A session has ended: it leaves the table, unless another one of the
    /// same source, which still takes datagrams, stands there.
    pub fn session_done(&mut self, src: SocketAddr, closed: bool)
        requires
            old(self).wf(),
        ensures
            final(self).wf(),
            final(self).set() == (if closed {
                old(self).set().remove(src)
            } else {
                old(self).set()
            }),
            final(self).count() == old(self).count() - (if closed && old(self).set().contains(src) {
                1int
            } else {
                0
            }),
    {
        if closed {
            self.remove(src);
        }
    }
}

/// Each source counts once.
pub proof fn lemma_count_is_of_sources(s: Sessions)
    requires
        s.wf(),
    ensures
        s.set().finite(),
        s.count() == s.set().len(),
{
    s.sources@.unique_seq_to_set();
}

// ---------------------------------------------------------------------------
// Datagrams from the tunnel
// ---------------------------------------------------------------------------
/// Whether a datagram to `dst` is a name query that goes over a connection.
pub open spec fn is_name_query(opts: UdpOptions, dst: SocketAddr) -> bool {
    opts.dns_over_tcp && dst.spec_port() == DNS_PORT
}

/// Whether a datagram to `dst` is a name query that goes over a connection.
pub fn goes_to_dns(opts: &UdpOptions, dst: SocketAddr) -> (r: bool)
    ensures
        r == is_name_query(*opts, dst),
{
    opts.dns_over_tcp && dst.port() == DNS_PORT
}

/// What to do with a datagram.
#[derive(Clone, Copy, PartialEq, Eq, Debug, Structural)]
pub enum PacketAction {
    /// Resolve it over a pooled connection.
    Resolve,
    /// Too many queries wait.
    DropQuery,
    /// Hand it to the session of its source.
    Forward,
    /// Open a session for its source, and hand it to that.
    OpenAndForward,
    /// Too many sessions are open.
    DropPacket,
}

/// The counters after a datagram of `len` octets to `dst` was taken in.
pub open spec fn counted_in(s: Stats, dst: IpAddr, len: u64) -> Stats {
    (Stats {
        udp_packets: s.udp_packets.plus(1),
        bytes_tx: s.bytes_tx.plus(len as int),
        ..s
    }).with_traffic(dst, len)
}

pub open spec fn udp_error(s: Stats) -> Stats {
    Stats { udp_errors: s.udp_errors.plus(1), ..s }
}

pub open spec fn dns_error(s: Stats) -> Stats {
    Stats { udp_errors: s.udp_errors.plus(1), dns_failures: s.dns_failures.plus(1), ..s }
}

/// What to do with a datagram, where `live` tells whether the session of its
/// source takes datagrams, and `permitted` whether another query may wait.
pub open spec fn packet_action(
    opts: UdpOptions,
    dst: SocketAddr,
    sessions: nat,
    live: bool,
    permitted: bool,
) -> PacketAction {
    if is_name_query(opts, dst) {
        if permitted {
            PacketAction::Resolve
        } else {
            PacketAction::DropQuery
        }
    } else if live {
        PacketAction::Forward
    } else if sessions >= opts.max_sessions {
        PacketAction::DropPacket
    } else {
        PacketAction::OpenAndForward
    }
}

impl Sessions {
    /// Takes in a datagram from the tunnel.
    pub fn on_packet(
        &mut self,
        stats: &mut Stats,
        opts: &UdpOptions,
        src: SocketAddr,
        dst: SocketAddr,
        len: u64,
        live: bool,
        permitted: bool,
    ) -> (r: PacketAction)
        requires
            old(self).wf(),
        ensures
            final(self).wf(),
            r == packet_action(*opts, dst, old(self).count(), live, permitted),
            final(self).set() == (if r is OpenAndForward {
                old(self).set().insert(src)
            } else {
                old(self).set()
            }),
            final(self).count() == old(self).count() + (if r is OpenAndForward && !old(
                self,
            ).set().contains(src) {
                1nat
            } else {
                0
            }),
            r is OpenAndForward ==> final(self).count() <= opts.max_sessions,
            old(self).count() <= opts.max_sessions ==> final(self).count() <= opts.max_sessions,
            *final(stats) == (match r {
                PacketAction::DropQuery => dns_error(counted_in(*old(stats), dst.spec_ip(), len)),
                PacketAction::DropPacket => udp_error(counted_in(*old(stats), dst.spec_ip(), len)),
                _ => counted_in(*old(stats), dst.spec_ip(), len),
            }),
    {
        stats::inc(&mut stats.udp_packets);
        stats::add(&mut stats.bytes_tx, len);
        stats::record_traffic(stats, dst.ip(), len);
        if goes_to_dns(opts, dst) {
            if permitted {
                return PacketAction::Resolve;
            }
            stats::inc(&mut stats.udp_errors);
            stats::inc(&mut stats.dns_failures);
            return PacketAction::DropQuery;
        }
        if live {
            return PacketAction::Forward;
        }
        if self.sources.len() >= opts.max_sessions {
            stats::inc(&mut stats.udp_errors);
            return PacketAction::DropPacket;
        }
        self.insert(src);
        PacketAction::OpenAndForward
    }
}

/// The session of a source would not take a datagram.
pub fn on_refused(stats: &mut Stats)
    ensures
        *final(stats) == udp_error(*old(stats)),
{
    stats::inc(&mut stats.udp_errors);
}

/// The counters after a datagram of `len` octets from `remote` went into the
/// tunnel.
pub open spec fn counted_out(s: Stats, remote: IpAddr, len: u64) -> Stats {
    (Stats { bytes_rx: s.bytes_rx.plus(len as int), ..s }).with_traffic(remote, len)
}

/// A datagram of `len` octets from `remote` went into the tunnel.
pub fn on_reply_written(stats: &mut Stats, remote: IpAddr, len: u64)
    ensures
        *final(stats) == counted_out(*old(stats), remote, len),
{
    stats::add(&mut stats.bytes_rx, len);
    stats::record_traffic(stats, remote, len);
}

pub open spec fn query_counted(s: Stats) -> Stats {
    Stats { dns_requests: s.dns_requests.plus(1), ..s }
}

/// A name query is about to be resolved.
pub fn on_query(stats: &mut Stats)
    ensures
        *final(stats) == query_counted(*old(stats)),
{
    stats::inc(&mut stats.dns_requests);
}

/// A name query could not be resolved.
pub fn on_query_failed(stats: &mut Stats)
    ensures
        *final(stats) == dns_error(*old(stats)),
{
    stats::inc(&mut stats.udp_errors);
    stats::inc(&mut stats.dns_failures);
}

/// The counters after a session has ended, in order or with a fault.
pub open spec fn session_ended(s: Stats, failed: bool) -> Stats {
    if failed {
        udp_error(s)
    } else {
        s
    }
}

/// A session has ended, in order or with a fault.
pub fn on_session_end(stats: &mut Stats, failed: bool)
    ensures
        *final(stats) == session_ended(*old(stats), failed),
{
    if failed {
        stats::inc(&mut stats.udp_errors);
    }
}

/// A datagram is handed to a session or to a name server, or it counts as an
/// error: none is lost unseen.
pub proof fn lemma_dropped_datagrams_are_counted(s: Stats, dst: IpAddr, len: u64)
    ensures
        udp_error(counted_in(s, dst, len)).udp_errors == s.udp_errors.plus(1),
        dns_error(counted_in(s, dst, len)).udp_errors == s.udp_errors.plus(1),
        dns_error(counted_in(s, dst, len)).dns_failures == s.dns_failures.plus(1),
        counted_in(s, dst, len).udp_packets == s.udp_packets.plus(1),
{
}

// ---------------------------------------------------------------------------
// One session
// ---------------------------------------------------------------------------
/// The local address of a session: any, of the family of the relay.
pub open spec fn any_address(relay: SocketAddr) -> SocketAddr {
    if relay is V4 {
        SocketAddr::of(IpAddr::V4(Ipv4Addr { bits: 0 }), 0)
    } else {
        SocketAddr::of(IpAddr::V6(Ipv6Addr { bits: 0 }), 0)
    }
}

/// The local address of a session: any, of the family of the relay.
pub fn local_address(relay: SocketAddr) -> (r: SocketAddr)
    ensures
        r == any_address(relay),
        r.spec_ip().same_family(relay.spec_ip()),
{
    if relay.is_ipv4() {
        SocketAddr::new(IpAddr::V4(Ipv4Addr { bits: 0 }), 0)
    } else {
        SocketAddr::new(IpAddr::V6(Ipv6Addr { bits: 0 }), 0)
    }
}

/// What happens to a session.
pub enum SessionEvent {
    /// A datagram from the tunnel to this target.
    Outbound(SocketAddr, Vec<u8>),
    /// No more datagrams come from the tunnel.
    OutboundClosed,
    /// The relay did not take a datagram.
    SendFailed,
    /// A datagram from the relay.
    Inbound(Vec<u8>),
    /// The relay cannot be read.
    ReceiveFailed,
    /// The tunnel takes no more datagrams.
    ReplyRefused,
    /// This many octets came in on the connection to the proxy.
    Control(usize),
    /// The connection to the proxy is broken.
    ControlFailed,
    /// Nothing happened for as long as a session may idle.
    Idle,
}

/// What a session does.
pub enum SessionAction {
    /// Send this to the relay.
    SendToRelay(Vec<u8>),
    /// Put a datagram from this address into the tunnel.
    Reply(SocketAddr, Vec<u8>),
    /// Wait for the next event.
    Wait,
    /// End in order.
    End,
    /// End with this fault.
    Fail(&'static str),
}

impl SessionAction {
    /// Whether a session does this when `event` happens.
    pub open spec fn answers(self, event: SessionEvent) -> bool {
        match event {
            SessionEvent::Outbound(dst, payload) => {
                self matches SessionAction::SendToRelay(frame) && frame@ == socks::udp_frame(
                    dst,
                    payload@,
                )
            },
            SessionEvent::OutboundClosed => self is End,
            SessionEvent::SendFailed => self == SessionAction::Fail(
                "failed to send datagram to relay",
            ),
            SessionEvent::Inbound(data) => match socks::udp_value(data@) {
                Some((remote, payload)) => {
                    self matches SessionAction::Reply(from, body) && from == remote && body@
                        == payload
                },
                None => self is Wait,
            },
            SessionEvent::ReceiveFailed => self == SessionAction::Fail(
                "failed to receive datagram from relay",
            ),
            SessionEvent::ReplyRefused => self is End,
            SessionEvent::Control(n) => if n == 0 {
                self is End
            } else {
                self is Wait
            },
            SessionEvent::ControlFailed => self == SessionAction::Fail(
                "SOCKS5 control connection error",
            ),
            SessionEvent::Idle => self is End,
        }
    }
}

/// What a session does when an event happens.
pub fn session_step(event: SessionEvent) -> (r: SessionAction)
    ensures
        r.answers(event),
{
    match event {
        SessionEvent::Outbound(dst, payload) => {
            let mut frame: Vec<u8> = Vec::new();
            socks::encode_udp(dst, payload.as_slice(), &mut frame);
            SessionAction::SendToRelay(frame)
        },
        SessionEvent::OutboundClosed => SessionAction::End,
        SessionEvent::SendFailed => SessionAction::Fail("failed to send datagram to relay"),
        SessionEvent::Inbound(data) => {
            match socks::decode_udp(data.as_slice()) {
                Some((remote, payload)) => SessionAction::Reply(remote, text::copy_bytes(payload)),
                None => SessionAction::Wait,
            }
        },
        SessionEvent::ReceiveFailed => SessionAction::Fail("failed to receive datagram from relay"),
        SessionEvent::ReplyRefused => SessionAction::End,
        SessionEvent::Control(n) => {
            if n == 0 {
                SessionAction::End
            } else {
                SessionAction::Wait
            }
        },
        SessionEvent::ControlFailed => SessionAction::Fail("SOCKS5 control connection error"),
        SessionEvent::Idle => SessionAction::End,
    }
}

/// What a session sends for a datagram tells the relay its target and carries
/// its payload unchanged.
pub proof fn lemma_relayed_datagram_is_intact(
    event: SessionEvent,
    action: SessionAction,
    dst: SocketAddr,
    payload: Vec<u8>,
)
    requires
        event == SessionEvent::Outbound(dst, payload),
        action.answers(event),
    ensures
        action matches SessionAction::SendToRelay(frame) && socks::udp_value(frame@) == Some(
            (SocketAddr::of(dst.spec_ip(), dst.spec_port()), payload@),
        ),
{
    socks::lemma_datagram_round_trip(dst, payload@);
}

/// With `dns_over_tcp` every datagram to port 53, whatever the address and its
/// family, is a name query: it is resolved over a connection, or dropped where
/// too many wait, and never goes out as a datagram. To any other port, or
/// without the option, none is.
pub proof fn lemma_name_queries_go_over_connections(
    opts: UdpOptions,
    ip: IpAddr,
    port: u16,
    sessions: nat,
    live: bool,
    permitted: bool,
)
    ensures
        is_name_query(opts, SocketAddr::of(ip, port)) <==> opts.dns_over_tcp && port == 53,
        ({
            let action = packet_action(opts, SocketAddr::of(ip, port), sessions, live, permitted);
            if opts.dns_over_tcp && port == 53 {
                action == if permitted {
                    PacketAction::Resolve
                } else {
                    PacketAction::DropQuery
                }
            } else {
                !(action is Resolve) && !(action is DropQuery)
            }
        }),
{
}

/// Where a datagram goes depends on the port alone, not on the address it goes
/// to nor on a scope that comes with that.
pub proof fn lemma_only_the_port_tells(
    opts: UdpOptions,
    a: SocketAddr,
    b: SocketAddr,
    sessions: nat,
    live: bool,
    permitted: bool,
)
    requires
        ({
            let p: u16 = match a {
                SocketAddr::V4(x) => x.port,
                SocketAddr::V6(x) => x.port,
            };
            let q: u16 = match b {
                SocketAddr::V4(x) => x.port,
                SocketAddr::V6(x) => x.port,
            };
            p == q
        }),
    ensures
        is_name_query(opts, a) == is_name_query(opts, b),
        packet_action(opts, a, sessions, live, permitted) == packet_action(
            opts,
            b,
            sessions,
            live,
            permitted,
        ),
{
}

/// A datagram that is no name query goes to the session of its source where
/// that takes datagrams, however many sessions there are. Else a session is
/// opened as long as there is room for one, and only then.
pub proof fn lemma_sessions_open_while_there_is_room(
    opts: UdpOptions,
    dst: SocketAddr,
    sessions: nat,
    permitted: bool,
)
    requires
        !opts.dns_over_tcp || dst.spec_port() != 53,
    ensures
        packet_action(opts, dst, sessions, true, permitted) == PacketAction::Forward,
        packet_action(opts, dst, sessions, false, permitted) == PacketAction::OpenAndForward <==>
            sessions < opts.max_sessions,
        packet_action(opts, dst, sessions, false, permitted) == PacketAction::DropPacket <==>
            sessions >= opts.max_sessions,
{
}

/// A datagram from the tunnel counts as one, its octets as sent and for the
/// family of its target; one that goes into it, as received and for the family
/// of where it comes from. A fault counts as one. No other counter moves.
pub proof fn lemma_datagrams_are_counted_once(s: Stats, far: IpAddr, len: u64)
    ensures
        ({
            let t = counted_in(s, far, len);
            &&& t.udp_packets == s.udp_packets.plus(1)
            &&& t.bytes_tx == s.bytes_tx.plus(len as int)
            &&& far is V4 ==> t.bytes_v4 == s.bytes_v4.plus(len as int) && t.bytes_v6 == s.bytes_v6
            &&& far is V6 ==> t.bytes_v6 == s.bytes_v6.plus(len as int) && t.bytes_v4 == s.bytes_v4
            &&& s == (Stats {
                udp_packets: s.udp_packets,
                bytes_tx: s.bytes_tx,
                bytes_v4: s.bytes_v4,
                bytes_v6: s.bytes_v6,
                ..t
            })
        }),
        ({
            let t = counted_out(s, far, len);
            &&& t.bytes_rx == s.bytes_rx.plus(len as int)
            &&& far is V4 ==> t.bytes_v4 == s.bytes_v4.plus(len as int) && t.bytes_v6 == s.bytes_v6
            &&& far is V6 ==> t.bytes_v6 == s.bytes_v6.plus(len as int) && t.bytes_v4 == s.bytes_v4
            &&& s == (Stats {
                bytes_rx: s.bytes_rx,
                bytes_v4: s.bytes_v4,
                bytes_v6: s.bytes_v6,
                ..t
            })
        }),
        udp_error(s).udp_errors == s.udp_errors.plus(1),
        s == (Stats { udp_errors: s.udp_errors, ..udp_error(s) }),
        dns_error(s).udp_errors == s.udp_errors.plus(1),
        dns_error(s).dns_failures == s.dns_failures.plus(1),
        s == (Stats { udp_errors: s.udp_errors, dns_failures: s.dns_failures, ..dns_error(s) }),
{
}

/// The local address of a session is open, and of the family of the relay.
pub proof fn lemma_local_address_is_open(relay: SocketAddr)
    ensures
        any_address(relay) matches SocketAddr::V4(a) ==> a.ip.bits == 0 && a.port == 0,
        any_address(relay) matches SocketAddr::V6(a) ==> a.ip.bits == 0 && a.port == 0
            && a.scope_id == 0,
        any_address(relay) is V4 <==> relay is V4,
{
}

/// A session ends in order when one of its ends closes or it has idled, ends
/// with a fault when one of them breaks, and goes on in any other case. It
/// sends only what comes from the tunnel, and puts only what comes from the
/// relay into it.
pub proof fn lemma_session_goes_on_until_it_is_over(event: SessionEvent, action: SessionAction)
    requires
        action.answers(event),
    ensures
        action is End <==> event is OutboundClosed || event is ReplyRefused || event is Idle || event
            == SessionEvent::Control(0),
        action is Fail <==> event is SendFailed || event is ReceiveFailed || event is ControlFailed,
        action is SendToRelay <==> event is Outbound,
        action is Reply ==> event is Inbound,
        action is Wait ==> event is Inbound || event is Control,
{
}

/// A datagram from the relay that is whole goes into the tunnel with its
/// payload, as from the address that it names. A fragment is passed over.
pub proof fn lemma_reply_is_intact(
    data: Vec<u8>,
    action: SessionAction,
    reserved: (u8, u8),
    from: SocketAddr,
    payload: Seq<u8>,
)
    requires
        action.answers(SessionEvent::Inbound(data)),
    ensures
        data@ == socks::udp_frame(from, payload).update(0, reserved.0).update(1, reserved.1) ==> (
        action matches SessionAction::Reply(a, body) && a == SocketAddr::of(
            from.spec_ip(),
            from.spec_port(),
        ) && body@ == payload),
        data@.len() >= 3 && data@[2] != 0 ==> action is Wait,
{
    let f = socks::udp_frame(from, payload);
    socks::lemma_datagram_layout(from, payload);
    socks::lemma_datagram_round_trip(from, payload);
    if data@ == f.update(0, reserved.0).update(1, reserved.1) {
        socks::lemma_reserved_octets_are_ignored(f, reserved.0, reserved.1);
    }
}

/// A name query counts as one, and a session that ends counts as an error exactly
/// where it ended with a fault. No other counter moves.
pub proof fn lemma_queries_and_ends_are_counted(s: Stats)
    ensures
        query_counted(s).dns_requests == s.dns_requests.plus(1),
        s == (Stats { dns_requests: s.dns_requests, ..query_counted(s) }),
        session_ended(s, false) == s,
        session_ended(s, true).udp_errors == s.udp_errors.plus(1),
        s == (Stats { udp_errors: s.udp_errors, ..session_ended(s, true) }),
{
}

} // verus!
