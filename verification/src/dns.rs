//! Name queries over pooled connections: which connection a query goes out
//! on, under which number, and what becomes of it.

use std::collections::HashSet;
use std::sync::Arc;
use vstd::prelude::*;
use crate::addr::SocketAddr;
use crate::bytes;
use crate::config::ProxyConfig;
use crate::reload;
use crate::reload::ProxyCell;
use crate::stats;
use crate::stats::Stats;
use crate::text;
use crate::time::Duration;

verus! {

broadcast use vstd::std_specs::hash::group_hash_axioms;

pub const MAX_INFLIGHT_PER_CONN: usize = 256;
pub const MAX_CONNS_PER_TARGET: usize = 8;
pub const MAX_DNS_MESSAGE: usize = 65535;
pub const MIN_DNS_MESSAGE: usize = 12;

// ---------------------------------------------------------------------------
// Query numbers
// ---------------------------------------------------------------------------
/// The number `k` places after `start`, past the last one again from zero.
pub open spec fn number_after(start: u16, k: int) -> u16 {
    ((start + k) % 0x1_0000) as u16
}

/// Whether `id` is the first number from `start` on that is not taken.
pub open spec fn is_first_free(taken: Set<u16>, start: u16, id: u16) -> bool {
    exists|k: int| 0 <= k < 0x1_0000 && #[trigger] number_after(start, k) == id && !taken.contains(id)
        && forall|j: int| 0 <= j < k ==> taken.contains(#[trigger] number_after(start, j))
}

proof fn lemma_numbers_differ(start: u16, i: int, j: int)
    requires
        0 <= i < j < 0x1_0000,
    ensures
        number_after(start, i) != number_after(start, j),
{
    assert((start + i) % 0x1_0000 != (start + j) % 0x1_0000);
}

spec fn numbers_from(start: u16, n: int) -> Set<u16>
    decreases n,
{
    if n <= 0 {
        Set::empty()
    } else {
        numbers_from(start, n - 1).insert(number_after(start, n - 1))
    }
}

proof fn lemma_numbers_from(start: u16, n: int)
    requires
        0 <= n <= 0x1_0000,
    ensures
        numbers_from(start, n).finite(),
        numbers_from(start, n).len() == n,
        forall|x: u16|
            numbers_from(start, n).contains(x) ==> exists|j: int|
                0 <= j < n && #[trigger] number_after(start, j) == x,
    decreases n,
{
    if n > 0 {
        lemma_numbers_from(start, n - 1);
        let last = number_after(start, n - 1);
        if numbers_from(start, n - 1).contains(last) {
            let j = choose|j: int| 0 <= j < n - 1 && #[trigger] number_after(start, j) == last;
            lemma_numbers_differ(start, j, n - 1);
        }
        assert forall|x: u16| numbers_from(start, n).contains(x) implies exists|j: int|
            0 <= j < n && #[trigger] number_after(start, j) == x by {
            if numbers_from(start, n - 1).contains(x) {
                let j = choose|j: int| 0 <= j < n - 1 && #[trigger] number_after(start, j) == x;
                assert(number_after(start, j) == x);
            } else {
                assert(number_after(start, n - 1) == x);
            }
        }
    }
}

/// Among as many numbers in a row as are taken, and one more, one is free.
pub proof fn lemma_some_number_is_free(taken: Set<u16>, start: u16, n: int)
    requires
        taken.finite(),
        taken.len() < n <= 0x1_0000,
    ensures
        exists|j: int| 0 <= j < n && !taken.contains(#[trigger] number_after(start, j)),
{
    lemma_numbers_from(start, n);
    if forall|j: int| 0 <= j < n ==> taken.contains(#[trigger] number_after(start, j)) {
        let s = numbers_from(start, n);
        assert forall|x: u16| s.contains(x) implies taken.contains(x) by {
            let j = choose|j: int| 0 <= j < n && #[trigger] number_after(start, j) == x;
            assert(taken.contains(number_after(start, j)));
        }
        vstd::set_lib::lemma_len_subset(s, taken);
    }
}

/// There is one first free number.
pub proof fn lemma_first_free_is_unique(taken: Set<u16>, start: u16, a: u16, b: u16)
    requires
        is_first_free(taken, start, a),
        is_first_free(taken, start, b),
    ensures
        a == b,
{
    let i = choose|k: int|
        0 <= k < 0x1_0000 && #[trigger] number_after(start, k) == a && !taken.contains(a)
            && forall|j: int| 0 <= j < k ==> taken.contains(#[trigger] number_after(start, j));
    let j = choose|k: int|
        0 <= k < 0x1_0000 && #[trigger] number_after(start, k) == b && !taken.contains(b)
            && forall|j: int| 0 <= j < k ==> taken.contains(#[trigger] number_after(start, j));
    if i < j {
        assert(taken.contains(number_after(start, i)));
    } else if j < i {
        assert(taken.contains(number_after(start, j)));
    }
}

// ---------------------------------------------------------------------------
// Connections
// ---------------------------------------------------------------------------
/// A connection to a name server.
pub struct Conn {
    key: u64,
    server: SocketAddr,
    /// Whether new queries may find it.
    pooled: bool,
    /// Whether it may take queries.
    alive: bool,
    /// Whether replies are still read from it.
    open: bool,
    inflight: HashSet<u16>,
    next_id: u16,
    last_used: u64,
}

/// What is known of a connection.
pub struct ConnView {
    pub key: u64,
    pub server: SocketAddr,
    pub pooled: bool,
    pub alive: bool,
    pub open: bool,
    pub inflight: Set<u16>,
    pub next_id: u16,
    pub last_used: u64,
}

impl View for Conn {
    type V = ConnView;

    closed spec fn view(&self) -> ConnView {
        ConnView {
            key: self.key,
            server: self.server,
            pooled: self.pooled,
            alive: self.alive,
            open: self.open,
            inflight: self.inflight@,
            next_id: self.next_id,
            last_used: self.last_used,
        }
    }
}

impl ConnView {
    /// The connection with the query number `id` taken.
    pub open spec fn with_query(self, id: u16) -> ConnView {
        ConnView { inflight: self.inflight.insert(id), next_id: number_after(id, 1), ..self }
    }

    /// The connection with the query number `id` in use, whatever number is next.
    pub open spec fn claimed(self, id: u16) -> ConnView {
        ConnView { inflight: self.inflight.insert(id), ..self }
    }

    /// The connection without the query number `id`.
    pub open spec fn without_query(self, id: u16) -> ConnView {
        ConnView { inflight: self.inflight.remove(id), ..self }
    }

    pub open spec fn is_full(self) -> bool {
        self.inflight.len() >= MAX_INFLIGHT_PER_CONN
    }

    /// Whether something can still come of the connection: new queries find it,
    /// or replies are read from it.
    pub open spec fn is_kept(self) -> bool {
        self.pooled || self.open
    }

    /// The connection after a query was written on it.
    pub open spec fn after_write(self, now: u64) -> ConnView {
        ConnView { last_used: now, ..self }
    }

    /// The connection after the query with this number could not be written.
    pub open spec fn after_failed_write(self, id: u16) -> ConnView {
        ConnView { alive: false, ..self.without_query(id) }
    }
}

impl Conn {
    fn new(key: u64, server: SocketAddr, now: u64) -> (r: Conn)
        ensures
            r@ == (ConnView {
                key,
                server,
                pooled: true,
                alive: true,
                open: true,
                inflight: Set::empty(),
                next_id: 0,
                last_used: now,
            }),
    {
        Conn {
            key,
            server,
            pooled: true,
            alive: true,
            open: true,
            inflight: HashSet::new(),
            next_id: 0,
            last_used: now,
        }
    }

    /// Takes the first free number after those handed out before. There is
    /// none exactly where too many are taken.
    pub fn allocate_id(&mut self) -> (r: Option<u16>)
        requires
            old(self)@.inflight.finite(),
        ensures
            match r {
                Some(id) => {
                    &&& !old(self)@.is_full()
                    &&& is_first_free(old(self)@.inflight, old(self)@.next_id, id)
                    &&& final(self)@ == old(self)@.with_query(id)
                },
                None => old(self)@.is_full() && final(self)@ == old(self)@,
            },
    {
        if self.inflight.len() >= MAX_INFLIGHT_PER_CONN {
            return None;
        }
        let ghost taken = self.inflight@;
        let ghost start = self.next_id;
        let ghost before = self@;
        let mut candidate: u16 = self.next_id;
        let ghost mut k: int = 0;
        proof {
            lemma_some_number_is_free(taken, start, 0x1_0000);
        }
        while self.inflight.contains(&candidate)
            invariant
                self@ == before,
                taken == before.inflight,
                start == before.next_id,
                0 <= k < 0x1_0000,
                candidate == number_after(start, k),
                forall|j: int| 0 <= j < k ==> taken.contains(#[trigger] number_after(start, j)),
                exists|j: int|
                    0 <= j < 0x1_0000 && !taken.contains(#[trigger] number_after(start, j)),
            decreases 0x1_0000 - k,
        {
            proof {
                let j = choose|j: int|
                    0 <= j < 0x1_0000 && !taken.contains(#[trigger] number_after(start, j));
                assert(taken.contains(candidate));
                assert(j > k);
                k = k + 1;
            }
            candidate = candidate.wrapping_add(1);
        }
        let id = candidate;
        self.inflight.insert(id);
        self.next_id = id.wrapping_add(1);
        proof {
            assert(number_after(start, k) == id);
            assert(is_first_free(taken, start, id));
            assert(self@ == before.with_query(id));
        }
        Some(id)
    }
}

// ---------------------------------------------------------------------------
// The pool
// ---------------------------------------------------------------------------
/// The connections to name servers, oldest first.
pub struct DnsPool {
    proxy: ProxyCell,
    query_timeout: Duration,
    idle_timeout: Duration,
    conns: Vec<Conn>,
    next_key: u64,
}

/// The list with the connection of one key changed.
pub open spec fn at_key(
    s: Seq<ConnView>,
    key: u64,
    f: spec_fn(ConnView) -> ConnView,
) -> Seq<ConnView> {
    s.map_values(
        |c: ConnView|
            if c.key == key {
                f(c)
            } else {
                c
            },
    )
}

/// The list after the dead connections to `server` were taken out of the pool.
pub open spec fn swept(s: Seq<ConnView>, server: SocketAddr) -> Seq<ConnView> {
    s.map_values(
        |c: ConnView|
            if c.server == server && !c.alive {
                ConnView { pooled: false, ..c }
            } else {
                c
            },
    )
}

/// Whether a query to `server` can go out on the connection.
pub open spec fn is_usable(c: ConnView, server: SocketAddr) -> bool {
    c.pooled && c.server == server && !c.is_full()
}

/// The position of the first connection from `i` on that can take a query to
/// `server`, or the length where there is none.
pub open spec fn first_usable(s: Seq<ConnView>, server: SocketAddr, i: int) -> int
    decreases s.len() - i,
{
    if 0 <= i < s.len() && !is_usable(s[i], server) {
        first_usable(s, server, i + 1)
    } else {
        i
    }
}

/// How many connections to `server` are in the pool.
pub open spec fn pooled_to(s: Seq<ConnView>, server: SocketAddr) -> nat {
    s.filter(|c: ConnView| c.pooled && c.server == server).len()
}

/// How many connections are in the pool.
pub open spec fn pooled_count(s: Seq<ConnView>) -> nat {
    s.filter(|c: ConnView| c.pooled).len()
}

/// A connection that has just been opened and carries one query, number zero.
pub open spec fn fresh_conn(key: u64, server: SocketAddr, now: u64) -> ConnView {
    ConnView {
        key,
        server,
        pooled: true,
        alive: true,
        open: true,
        inflight: Set::empty().insert(0u16),
        next_id: 1,
        last_used: now,
    }
}

/// What becomes of a connection when the proxy changes.
pub open spec fn retired(c: ConnView) -> ConnView {
    if c.pooled {
        ConnView { pooled: false, alive: false, ..c }
    } else {
        c
    }
}

/// Whether a connection in the pool has had nothing to do for too long.
pub open spec fn is_idle(c: ConnView, now: u64, idle: u64) -> bool {
    c.inflight.len() == 0 && now - c.last_used > idle
}

/// What becomes of a connection when the pool is pruned.
pub open spec fn pruned(c: ConnView, now: u64, idle: u64) -> ConnView {
    if !c.pooled {
        c
    } else if !c.alive {
        ConnView { pooled: false, ..c }
    } else if is_idle(c, now, idle) {
        ConnView { pooled: false, alive: false, ..c }
    } else {
        c
    }
}

/// The counters after a query found a connection.
pub open spec fn hit_counted(s: Stats) -> Stats {
    Stats { dns_pool_hits: s.dns_pool_hits.plus(1), ..s }
}

/// The counters after a query had a connection opened.
pub open spec fn miss_counted(s: Stats) -> Stats {
    Stats { dns_pool_misses: s.dns_pool_misses.plus(1), ..s }
}

impl DnsPool {
    /// The connections, oldest first.
    pub closed spec fn list(self) -> Seq<ConnView> {
        views(self.conns@)
    }

    pub closed spec fn current_proxy(self) -> ProxyConfig {
        reload::held_proxy(self.proxy)
    }

    pub closed spec fn spec_query_timeout(self) -> Duration {
        self.query_timeout
    }

    pub closed spec fn spec_idle_timeout(self) -> Duration {
        self.idle_timeout
    }

    /// The key of the next connection.
    pub closed spec fn spec_next_key(self) -> u64 {
        self.next_key
    }

    /// The keys are those handed out, each once.
    pub open spec fn wf(self) -> bool {
        &&& forall|i: int| 0 <= i < self.list().len() ==> (#[trigger] self.list()[i]).inflight.finite()
        &&& forall|i: int|
            0 <= i < self.list().len() ==> (#[trigger] self.list()[i]).key < self.spec_next_key()
        &&& forall|i: int, j: int|
            0 <= i < j < self.list().len() ==> (#[trigger] self.list()[i]).key != (
            #[trigger] self.list()[j]).key
    }

    /// All but the connections.
    pub open spec fn same_settings(self, other: DnsPool) -> bool {
        &&& self.current_proxy() == other.current_proxy()
        &&& self.spec_query_timeout() == other.spec_query_timeout()
        &&& self.spec_idle_timeout() == other.spec_idle_timeout()
    }

    pub fn new(proxy: Arc<ProxyConfig>, query_timeout: Duration, idle_timeout: Duration) -> (r:
        DnsPool)
        ensures
            r.wf(),
            r.list().len() == 0,
            r.current_proxy() == *proxy,
            r.spec_query_timeout() == query_timeout,
            r.spec_idle_timeout() == idle_timeout,
            r.spec_next_key() == 0,
    {
        DnsPool {
            proxy: reload::proxy_cell(proxy),
            query_timeout,
            idle_timeout,
            conns: Vec::new(),
            next_key: 0,
        }
    }

    /// The proxy that new connections go through.
    pub fn proxy(&self) -> (r: Arc<ProxyConfig>)
        ensures
            *r == self.current_proxy(),
    {
        reload::load_proxy(&self.proxy)
    }

    /// How long a query waits for its reply.
    pub fn query_timeout(&self) -> (r: Duration)
        ensures
            r == self.spec_query_timeout(),
    {
        self.query_timeout
    }

    /// How long a connection may have nothing to do.
    pub fn idle_timeout(&self) -> (r: Duration)
        ensures
            r == self.spec_idle_timeout(),
    {
        self.idle_timeout
    }

    /// Changes the proxy: no connection through the old one takes another
    /// query.
    pub fn set_proxy(&mut self, proxy: Arc<ProxyConfig>)
        requires
            old(self).wf(),
        ensures
            final(self).wf(),
            final(self).current_proxy() == *proxy,
            final(self).list() == old(self).list().map_values(|c: ConnView| retired(c)),
            final(self).spec_query_timeout() == old(self).spec_query_timeout(),
            final(self).spec_idle_timeout() == old(self).spec_idle_timeout(),
            final(self).spec_next_key() == old(self).spec_next_key(),
    {
        reload::store_proxy(&mut self.proxy, proxy);
        retire_all(&mut self.conns);
    }

    /// Finds a connection for a query to `server`, and a number for the query
    /// on it.
    pub fn try_reuse(&mut self, server: SocketAddr, stats: &mut Stats) -> (r: Option<(u64, u16)>)
        requires
            old(self).wf(),
        ensures
            final(self).wf(),
            final(self).same_settings(*old(self)),
            final(self).spec_next_key() == old(self).spec_next_key(),
            ({
                let s = swept(old(self).list(), server);
                let i = first_usable(s, server, 0);
                match r {
                    Some((key, id)) => {
                        &&& i < s.len()
                        &&& key == s[i].key
                        &&& is_first_free(s[i].inflight, s[i].next_id, id)
                        &&& final(self).list() == s.update(i, s[i].with_query(id))
                        &&& *final(stats) == hit_counted(*old(stats))
                    },
                    None => i == s.len() && final(self).list() == s && *final(stats) == *old(stats),
                }
            }),
    {
        sweep(&mut self.conns, server);
        let ghost s = self.list();
        let n = self.conns.len();
        let mut i: usize = 0;
        while i < n
            invariant
                i <= n,
                n == self.conns@.len(),
                self.list() == s,
                s == swept(old(self).list(), server),
                old(self).wf(),
                self.proxy == old(self).proxy,
                self.query_timeout == old(self).query_timeout,
                self.idle_timeout == old(self).idle_timeout,
                self.next_key == old(self).next_key,
                *stats == *old(stats),
                first_usable(s, server, 0) == first_usable(s, server, i as int),
            decreases n - i,
        {
            assert(s[i as int] == self.conns@[i as int]@);
            assert(old(self).list()[i as int].inflight.finite());
            if self.conns[i].pooled && self.conns[i].server == server {
                let key = self.conns[i].key;
                match self.conns[i].allocate_id() {
                    Some(id) => {
                        stats::inc(&mut stats.dns_pool_hits);
                        assert(self.list() =~= s.update(i as int, s[i as int].with_query(id)));
                        return Some((key, id));
                    },
                    None => {
                        assert(self.list() =~= s);
                    },
                }
            }
            i += 1;
        }
        None
    }
}

impl DnsPool {
    /// Whether another connection to `server` may be opened, once the dead
    /// ones are out of the pool.
    pub fn may_open(&mut self, server: SocketAddr) -> (r: bool)
        requires
            old(self).wf(),
        ensures
            final(self).wf(),
            final(self).same_settings(*old(self)),
            final(self).spec_next_key() == old(self).spec_next_key(),
            final(self).list() == swept(old(self).list(), server),
            r == (pooled_to(final(self).list(), server) < MAX_CONNS_PER_TARGET),
    {
        sweep(&mut self.conns, server);
        let ghost s = self.list();
        let ghost keep = |c: ConnView| c.pooled && c.server == server;
        let n = self.conns.len();
        let mut count: usize = 0;
        assert(s.take(0).filter(keep).len() == 0) by {
            reveal(Seq::filter);
        }
        for i in 0..n
            invariant
                n == self.conns@.len(),
                s == self.list(),
                keep == (|c: ConnView| c.pooled && c.server == server),
                count == s.take(i as int).filter(keep).len(),
                count <= i,
        {
            proof {
                reveal(Seq::filter);
                assert(s.take(i + 1).drop_last() =~= s.take(i as int));
                assert(s[i as int] == self.conns@[i as int]@);
            }
            if self.conns[i].pooled && self.conns[i].server == server {
                count = count + 1;
            }
        }
        assert(s.take(n as int) =~= s);
        count < MAX_CONNS_PER_TARGET
    }

    /// Puts a connection that has just been opened into the pool, with one
    /// query on it.
    pub fn register(&mut self, server: SocketAddr, now: u64, stats: &mut Stats) -> (r: (u64, u16))
        requires
            old(self).wf(),
            old(self).spec_next_key() < u64::MAX,
        ensures
            final(self).wf(),
            final(self).same_settings(*old(self)),
            final(self).spec_next_key() == old(self).spec_next_key() + 1,
            r == (old(self).spec_next_key(), 0u16),
            final(self).list() == old(self).list().push(
                fresh_conn(old(self).spec_next_key(), server, now),
            ),
            *final(stats) == miss_counted(*old(stats)),
    {
        let key = self.next_key;
        let ghost before = self.list();
        let mut conn = Conn::new(key, server, now);
        let ghost first = conn@;
        let id = conn.allocate_id();
        proof {
            assert(id is Some);
            let k = choose|k: int|
                0 <= k < 0x1_0000 && #[trigger] number_after(0, k) == id->0
                    && !first.inflight.contains(id->0) && forall|j: int|
                    0 <= j < k ==> first.inflight.contains(#[trigger] number_after(0, j));
            if k > 0 {
                assert(first.inflight.contains(number_after(0, 0)));
            }
            assert(conn@.inflight =~= Set::empty().insert(0u16));
        }
        self.conns.push(conn);
        self.next_key = key + 1;
        stats::inc(&mut stats.dns_pool_misses);
        assert(self.list() =~= before.push(fresh_conn(key, server, now)));
        (key, 0)
    }

    /// Whether there is a key left for another connection.
    pub fn has_key_left(&self) -> (r: bool)
        ensures
            r == (self.spec_next_key() < u64::MAX),
    {
        self.next_key < u64::MAX
    }

    fn position(&self, key: u64) -> (r: Option<usize>)
        requires
            self.wf(),
        ensures
            match r {
                Some(i) => i < self.conns@.len() && self.list()[i as int].key == key && forall|j: int|
                    0 <= j < self.list().len() && j != i ==> (#[trigger] self.list()[j]).key != key,
                None => forall|j: int|
                    0 <= j < self.list().len() ==> (#[trigger] self.list()[j]).key != key,
            },
    {
        let n = self.conns.len();
        for i in 0..n
            invariant
                n == self.conns@.len(),
                self.wf(),
                forall|j: int| 0 <= j < i ==> (#[trigger] self.list()[j]).key != key,
        {
            assert(self.list()[i as int] == self.conns@[i as int]@);
            if self.conns[i].key == key {
                return Some(i);
            }
        }
        None
    }

    /// Takes the number `id` on a connection, so that a reply finds its query.
    pub fn claim(&mut self, key: u64, id: u16)
        requires
            old(self).wf(),
        ensures
            final(self).wf(),
            final(self).same_settings(*old(self)),
            final(self).spec_next_key() == old(self).spec_next_key(),
            final(self).list() == at_key(
                old(self).list(),
                key,
                |c: ConnView| c.claimed(id),
            ),
    {
        let ghost before = self.list();
        let ghost f = |c: ConnView| c.claimed(id);
        match self.position(key) {
            Some(i) => {
                self.conns[i].inflight.insert(id);
                assert(self.list() =~= before.update(i as int, f(before[i as int])));
                assert(self.list() =~= at_key(before, key, f));
            },
            None => {
                assert(self.list() =~= at_key(before, key, f));
            },
        }
    }

    /// A query could not be written: its connection takes no more of them.
    pub fn write_failed(&mut self, key: u64, id: u16)
        requires
            old(self).wf(),
        ensures
            final(self).wf(),
            final(self).same_settings(*old(self)),
            final(self).spec_next_key() == old(self).spec_next_key(),
            final(self).list() == at_key(
                old(self).list(),
                key,
                |c: ConnView| ConnView { alive: false, ..c.without_query(id) },
            ),
    {
        let ghost before = self.list();
        let ghost f = |c: ConnView| ConnView { alive: false, ..c.without_query(id) };
        match self.position(key) {
            Some(i) => {
                self.conns[i].alive = false;
                self.conns[i].inflight.remove(&id);
                assert(self.conns@[i as int]@.inflight =~= before[i as int].inflight.remove(id));
                assert(self.list() =~= before.update(i as int, f(before[i as int])));
                assert(self.list() =~= at_key(before, key, f));
            },
            None => {
                assert(self.list() =~= at_key(before, key, f));
            },
        }
    }

    /// A query was written.
    pub fn mark_used(&mut self, key: u64, now: u64)
        requires
            old(self).wf(),
        ensures
            final(self).wf(),
            final(self).same_settings(*old(self)),
            final(self).spec_next_key() == old(self).spec_next_key(),
            final(self).list() == at_key(
                old(self).list(),
                key,
                |c: ConnView| ConnView { last_used: now, ..c },
            ),
    {
        let ghost before = self.list();
        let ghost f = |c: ConnView| ConnView { last_used: now, ..c };
        match self.position(key) {
            Some(i) => {
                self.conns[i].last_used = now;
                assert(self.list() =~= before.update(i as int, f(before[i as int])));
                assert(self.list() =~= at_key(before, key, f));
            },
            None => {
                assert(self.list() =~= at_key(before, key, f));
            },
        }
    }

    /// A query no longer waits for its reply.
    pub fn abandon(&mut self, key: u64, id: u16)
        requires
            old(self).wf(),
        ensures
            final(self).wf(),
            final(self).same_settings(*old(self)),
            final(self).spec_next_key() == old(self).spec_next_key(),
            final(self).list() == at_key(
                old(self).list(),
                key,
                |c: ConnView| c.without_query(id),
            ),
    {
        let ghost before = self.list();
        let ghost f = |c: ConnView| c.without_query(id);
        match self.position(key) {
            Some(i) => {
                self.conns[i].inflight.remove(&id);
                assert(self.conns@[i as int]@.inflight =~= before[i as int].inflight.remove(id));
                assert(self.list() =~= before.update(i as int, f(before[i as int])));
                assert(self.list() =~= at_key(before, key, f));
            },
            None => {
                assert(self.list() =~= at_key(before, key, f));
            },
        }
    }

    /// A reply came in: its number is free again. Tells whether a query waits
    /// for it.
    pub fn deliver(&mut self, key: u64, id: u16) -> (r: bool)
        requires
            old(self).wf(),
        ensures
            final(self).wf(),
            final(self).same_settings(*old(self)),
            final(self).spec_next_key() == old(self).spec_next_key(),
            final(self).list() == at_key(
                old(self).list(),
                key,
                |c: ConnView| c.without_query(id),
            ),
            r == is_awaited(old(self).list(), key, id),
    {
        let ghost before = self.list();
        let ghost f = |c: ConnView| c.without_query(id);
        match self.position(key) {
            Some(i) => {
                let waited = self.conns[i].inflight.remove(&id);
                assert(self.conns@[i as int]@.inflight =~= before[i as int].inflight.remove(id));
                assert(self.list() =~= before.update(i as int, f(before[i as int])));
                assert(self.list() =~= at_key(before, key, f));
                assert(waited == before[i as int].inflight.contains(id));
                waited
            },
            None => {
                assert(self.list() =~= at_key(before, key, f));
                false
            },
        }
    }

    /// Nothing came in for as long as a connection may idle. Tells whether it
    /// is to be closed: only where no query waits on it.
    pub fn closes_when_idle(&self, key: u64) -> (r: bool)
        requires
            self.wf(),
        ensures
            r == is_quiet(self.list(), key),
    {
        match self.position(key) {
            Some(i) => {
                assert(self.list()[i as int] == self.conns@[i as int]@);
                self.conns[i].inflight.is_empty()
            },
            None => true,
        }
    }

    /// No more replies are read from a connection.
    pub fn reader_ended(&mut self, key: u64)
        requires
            old(self).wf(),
        ensures
            final(self).wf(),
            final(self).same_settings(*old(self)),
            final(self).spec_next_key() == old(self).spec_next_key(),
            final(self).list() == given_up(old(self).list(), key),
    {
        let ghost before = self.list();
        let ghost f = |c: ConnView|
            ConnView { alive: false, open: false, inflight: Set::empty(), ..c };
        match self.position(key) {
            Some(i) => {
                self.conns[i].alive = false;
                self.conns[i].open = false;
                self.conns[i].inflight.clear();
                assert(self.list() =~= before.update(i as int, f(before[i as int])));
                assert(self.list() =~= at_key(before, key, f));
            },
            None => {
                assert(self.list() =~= at_key(before, key, f));
            },
        }
    }

    /// Takes the connections out of the pool that are dead or have had nothing
    /// to do for too long.
    pub fn prune(&mut self, now: u64)
        requires
            old(self).wf(),
        ensures
            final(self).wf(),
            final(self).same_settings(*old(self)),
            final(self).spec_next_key() == old(self).spec_next_key(),
            final(self).list() == old(self).list().map_values(
                |c: ConnView| pruned(c, now, old(self).spec_idle_timeout().nanos),
            ),
    {
        let idle = self.idle_timeout.nanos;
        prune_all(&mut self.conns, now, idle);
    }

    /// Forgets the connections that are out of the pool and are not read from.
    pub fn tidy(&mut self)
        requires
            old(self).wf(),
        ensures
            final(self).wf(),
            final(self).same_settings(*old(self)),
            final(self).spec_next_key() == old(self).spec_next_key(),
            final(self).list() == old(self).list().filter(|c: ConnView| c.is_kept()),
    {
        let ghost before = self.list();
        let ghost keep = |c: ConnView| c.pooled || c.open;
        let mut i: usize = 0;
        let ghost mut done: int = 0;
        assert(before.take(0).filter(keep) =~= Seq::<ConnView>::empty()) by {
            reveal(Seq::filter);
        }
        assert(before =~= before.take(0).filter(keep) + before.skip(0));
        while i < self.conns.len()
            invariant
                i <= self.conns@.len(),
                0 <= done <= before.len(),
                keep == (|c: ConnView| c.pooled || c.open),
                self.list() == before.take(done).filter(keep) + before.skip(done),
                i == before.take(done).filter(keep).len(),
                self.proxy == old(self).proxy,
                self.query_timeout == old(self).query_timeout,
                self.idle_timeout == old(self).idle_timeout,
                self.next_key == old(self).next_key,
            decreases self.conns@.len() - i,
        {
            let ghost now = self.list();
            proof {
                reveal(Seq::filter);
                assert(now.len() == i + (before.len() - done));
                assert(before.take(done + 1).drop_last() =~= before.take(done));
                assert(now[i as int] == before.skip(done)[0]);
                assert(now[i as int] == before[done]);
                assert(now[i as int] == self.conns@[i as int]@);
            }
            if self.conns[i].pooled || self.conns[i].open {
                proof {
                    assert(self.list() =~= before.take(done + 1).filter(keep) + before.skip(
                        done + 1,
                    ));
                }
                i += 1;
            } else {
                self.conns.remove(i);
                proof {
                    assert(self.list() =~= now.remove(i as int));
                    assert(self.list() =~= before.take(done + 1).filter(keep) + before.skip(
                        done + 1,
                    ));
                }
            }
            proof {
                done = done + 1;
            }
        }
        proof {
            assert(before.take(done) =~= before);
            assert(self.list() =~= before.filter(keep));
            assert(keep =~= (|c: ConnView| c.is_kept()));
            lemma_filter_keeps_wf(before, keep, self.next_key);
        }
    }

    /// Whether a connection is in the pool.
    pub fn is_pooled(&self, key: u64) -> (r: bool)
        requires
            self.wf(),
        ensures
            r == exists|i: int|
                0 <= i < self.list().len() && (#[trigger] self.list()[i]).key == key
                    && self.list()[i].pooled,
    {
        match self.position(key) {
            Some(i) => {
                assert(self.list()[i as int] == self.conns@[i as int]@);
                self.conns[i].pooled
            },
            None => false,
        }
    }

    /// How many connections are in the pool.
    pub fn conn_count(&self) -> (r: usize)
        ensures
            r == pooled_count(self.list()),
    {
        let ghost s = self.list();
        let ghost keep = |c: ConnView| c.pooled;
        let n = self.conns.len();
        let mut count: usize = 0;
        assert(s.take(0).filter(keep).len() == 0) by {
            reveal(Seq::filter);
        }
        for i in 0..n
            invariant
                n == self.conns@.len(),
                s == self.list(),
                keep == (|c: ConnView| c.pooled),
                count == s.take(i as int).filter(keep).len(),
                count <= i,
        {
            proof {
                reveal(Seq::filter);
                assert(s.take(i + 1).drop_last() =~= s.take(i as int));
                assert(s[i as int] == self.conns@[i as int]@);
            }
            if self.conns[i].pooled {
                count = count + 1;
            }
        }
        assert(s.take(n as int) =~= s);
        count
    }
}

/// What is left of a list keeps its order, so its keys stay apart.
proof fn lemma_filter_keeps_wf(s: Seq<ConnView>, keep: spec_fn(ConnView) -> bool, next: u64)
    requires
        forall|i: int| 0 <= i < s.len() ==> (#[trigger] s[i]).inflight.finite(),
        forall|i: int| 0 <= i < s.len() ==> (#[trigger] s[i]).key < next,
        forall|i: int, j: int|
            0 <= i < j < s.len() ==> (#[trigger] s[i]).key != (#[trigger] s[j]).key,
    ensures
        forall|i: int| 0 <= i < s.filter(keep).len() ==> (#[trigger] s.filter(keep)[i]).inflight.finite(),
        forall|i: int| 0 <= i < s.filter(keep).len() ==> (#[trigger] s.filter(keep)[i]).key < next,
        forall|i: int, j: int|
            0 <= i < j < s.filter(keep).len() ==> (#[trigger] s.filter(keep)[i]).key != (
            #[trigger] s.filter(keep)[j]).key,
        forall|i: int|
            0 <= i < s.filter(keep).len() ==> s.contains(#[trigger] s.filter(keep)[i]),
    decreases s.len(),
{
    reveal(Seq::filter);
    if s.len() > 0 {
        let t = s.drop_last();
        lemma_filter_keeps_wf(t, keep, next);
        let f = t.filter(keep);
        let g = s.filter(keep);
        assert forall|i: int| 0 <= i < g.len() implies s.contains(#[trigger] g[i]) by {
            if i < f.len() {
                assert(g[i] == f[i]);
                assert(t.contains(f[i]));
                let k = choose|k: int| 0 <= k < t.len() && t[k] == f[i];
                assert(s[k] == g[i]);
            } else {
                assert(s[s.len() - 1] == g[i]);
            }
        }
        assert forall|i: int, j: int| 0 <= i < j < g.len() implies (#[trigger] g[i]).key != (
        #[trigger] g[j]).key by {
            assert(g[i] == f[i]);
            if j < f.len() {
                assert(g[j] == f[j]);
            } else {
                assert(t.contains(f[i]));
                let k = choose|k: int| 0 <= k < t.len() && t[k] == f[i];
                assert(s[k] == f[i]);
                assert(s[s.len() - 1] == g[j]);
            }
        }
    }
}

fn prune_all(conns: &mut Vec<Conn>, now: u64, idle: u64)
    ensures
        views(final(conns)@) == views(old(conns)@).map_values(
            |c: ConnView| pruned(c, now, idle),
        ),
{
    let ghost before = views(conns@);
    let n = conns.len();
    for i in 0..n
        invariant
            n == conns@.len(),
            n == before.len(),
            forall|j: int| 0 <= j < i ==> #[trigger] views(conns@)[j] == pruned(before[j], now, idle),
            forall|j: int| i <= j < n ==> #[trigger] views(conns@)[j] == before[j],
    {
        let ghost list = views(conns@);
        assert(list[i as int] == before[i as int]);
        assert(list[i as int] == conns@[i as int]@);
        if conns[i].pooled {
            if !conns[i].alive {
                conns[i].pooled = false;
            } else {
                let last = conns[i].last_used;
                if conns[i].inflight.len() == 0 && now > last && now - last > idle {
                    conns[i].pooled = false;
                    conns[i].alive = false;
                }
            }
        }
        assert(views(conns@) =~= list.update(i as int, pruned(before[i as int], now, idle)));
    }
    assert(views(conns@) =~= before.map_values(|c: ConnView| pruned(c, now, idle)));
}

spec fn views(conns: Seq<Conn>) -> Seq<ConnView> {
    conns.map_values(|c: Conn| c@)
}

fn retire_all(conns: &mut Vec<Conn>)
    ensures
        views(final(conns)@) == views(old(conns)@).map_values(|c: ConnView| retired(c)),
{
    let ghost before = views(conns@);
    let n = conns.len();
    for i in 0..n
        invariant
            n == conns@.len(),
            n == before.len(),
            forall|j: int| 0 <= j < i ==> #[trigger] views(conns@)[j] == retired(before[j]),
            forall|j: int| i <= j < n ==> #[trigger] views(conns@)[j] == before[j],
    {
        let ghost now = views(conns@);
        assert(now[i as int] == before[i as int]);
        assert(now[i as int] == conns@[i as int]@);
        if conns[i].pooled {
            conns[i].pooled = false;
            conns[i].alive = false;
        }
        assert(views(conns@) =~= now.update(i as int, retired(before[i as int])));
    }
    assert(views(conns@) =~= before.map_values(|c: ConnView| retired(c)));
}

fn sweep(conns: &mut Vec<Conn>, server: SocketAddr)
    ensures
        views(final(conns)@) == swept(views(old(conns)@), server),
{
    let ghost before = views(conns@);
    let n = conns.len();
    for i in 0..n
        invariant
            n == conns@.len(),
            n == before.len(),
            forall|j: int| 0 <= j < i ==> #[trigger] views(conns@)[j] == swept(before, server)[j],
            forall|j: int| i <= j < n ==> #[trigger] views(conns@)[j] == before[j],
    {
        let ghost now = views(conns@);
        assert(now[i as int] == before[i as int]);
        assert(now[i as int] == conns@[i as int]@);
        if conns[i].server == server && !conns[i].alive {
            conns[i].pooled = false;
        }
        assert(views(conns@) =~= now.update(i as int, swept(before, server)[i as int]));
    }
    assert(views(conns@) =~= swept(before, server));
}

// ---------------------------------------------------------------------------
// Messages
// ---------------------------------------------------------------------------
/// Why a query is not sent at all.
#[derive(Clone, Copy, PartialEq, Eq, Debug, Structural)]
pub enum QueryError {
    TooShort,
    TooLarge,
}

impl QueryError {
    pub fn message(&self) -> (r: &'static str)
        ensures
            r == (match self {
                QueryError::TooShort => "DNS query too short",
                QueryError::TooLarge => "DNS query too large",
            }),
    {
        match self {
            QueryError::TooShort => "DNS query too short",
            QueryError::TooLarge => "DNS query too large",
        }
    }
}

/// What is wrong with a query of this length, if anything.
pub open spec fn length_fault(n: nat) -> Option<QueryError> {
    if n < MIN_DNS_MESSAGE {
        Some(QueryError::TooShort)
    } else if n > MAX_DNS_MESSAGE {
        Some(QueryError::TooLarge)
    } else {
        None
    }
}

/// Checks the length of a query.
pub fn check_query(query: &[u8]) -> (r: Result<(), QueryError>)
    ensures
        match r {
            Ok(_) => length_fault(query@.len()) is None,
            Err(e) => length_fault(query@.len()) == Some(e),
        },
{
    if query.len() < MIN_DNS_MESSAGE {
        Err(QueryError::TooShort)
    } else if query.len() > MAX_DNS_MESSAGE {
        Err(QueryError::TooLarge)
    } else {
        Ok(())
    }
}

/// A message with another number in its first two octets.
pub open spec fn renumbered(message: Seq<u8>, id: u16) -> Seq<u8> {
    message.update(0, (id / 256) as u8).update(1, (id % 256) as u8)
}

/// The number in the first two octets of a message.
pub open spec fn message_id(message: Seq<u8>) -> u16 {
    (message[0] * 256 + message[1]) as u16
}

/// A query as it goes out: its length in two octets, and the query under the
/// number it has on the connection.
pub open spec fn query_frame(query: Seq<u8>, id: u16) -> Seq<u8> {
    bytes::be_bytes(query.len(), 2) + renumbered(query, id)
}

/// A query as it goes out on a connection, under the number it has there.
pub fn frame_query(query: &[u8], id: u16) -> (r: Vec<u8>)
    requires
        2 <= query@.len() <= MAX_DNS_MESSAGE,
    ensures
        r@ == query_frame(query@, id),
{
    let mut framed: Vec<u8> = Vec::new();
    bytes::push_be(&mut framed, query.len() as u128, 2);
    text::append_bytes(&mut framed, query);
    proof {
        bytes::lemma_be_bytes_len(query@.len(), 2);
    }
    framed.set(2, (id / 256) as u8);
    framed.set(3, (id % 256) as u8);
    assert(framed@ =~= query_frame(query@, id));
    framed
}

/// How many octets follow a length that came in, or `None` where they are too
/// few for a number.
pub open spec fn length_value(high: u8, low: u8) -> Option<usize> {
    if high * 256 + low < 2 {
        None
    } else {
        Some((high * 256 + low) as usize)
    }
}

/// How many octets follow a length that came in, or `None` where they are too
/// few for a number, and the connection is given up.
pub fn body_length(high: u8, low: u8) -> (r: Option<usize>)
    ensures
        r == length_value(high, low),
{
    let len = bytes::read_be_u16(high, low) as usize;
    if len < 2 {
        None
    } else {
        Some(len)
    }
}

/// The number of the query that a message replies to.
pub fn reply_id(body: &[u8]) -> (r: u16)
    requires
        body@.len() >= 2,
    ensures
        r == message_id(body@),
{
    bytes::read_be_u16(body[0], body[1])
}

fn renumber(message: Vec<u8>, high: u8, low: u8) -> (r: Vec<u8>)
    requires
        message@.len() >= 2,
    ensures
        r@ == message@.update(0, high).update(1, low),
{
    let mut m = message;
    m.set(0, high);
    m.set(1, low);
    m
}

/// What goes out carries the number it has on the connection.
pub proof fn lemma_frame_carries_id(query: Seq<u8>, id: u16)
    requires
        2 <= query.len() <= MAX_DNS_MESSAGE,
    ensures
        query_frame(query, id).len() == query.len() + 2,
        bytes::be_value(query_frame(query, id).take(2)) == query.len(),
        message_id(query_frame(query, id).skip(2)) == id,
        forall|i: int| 2 <= i < query.len() ==> #[trigger] query_frame(query, id)[i + 2] == query[i],
{
    let f = query_frame(query, id);
    bytes::lemma_byte_range();
    bytes::lemma_be_bytes_len(query.len(), 2);
    bytes::lemma_be_value_of_bytes(query.len(), 2);
    assert(f.take(2) =~= bytes::be_bytes(query.len(), 2));
    assert(f.skip(2) =~= renumbered(query, id));
}

/// A server that echoes a query gives the very query back, with the number it
/// came with.
pub proof fn lemma_echo_is_restored(query: Seq<u8>, id: u16)
    requires
        2 <= query.len() <= MAX_DNS_MESSAGE,
    ensures
        query_frame(query, id).skip(2).update(0, query[0]).update(1, query[1]) == query,
{
    bytes::lemma_be_bytes_len(query.len(), 2);
    assert(query_frame(query, id).skip(2) =~= renumbered(query, id));
    assert(renumbered(query, id).update(0, query[0]).update(1, query[1]) =~= query);
}

// ---------------------------------------------------------------------------
// Attempts
// ---------------------------------------------------------------------------
/// What comes of waiting for a reply.
pub enum Awaited {
    Delivered(Vec<u8>),
    Closed,
    TimedOut,
}

/// Why an attempt brought no reply.
#[derive(Clone, Copy, PartialEq, Eq, Debug, Structural)]
pub enum AttemptError {
    NoConnection,
    NotWritten,
    ClosedBeforeReply,
    TimedOut,
}

impl AttemptError {
    pub fn message(&self) -> (r: &'static str)
        ensures
            r == (match self {
                AttemptError::NoConnection => "failed to open pooled DNS connection",
                AttemptError::NotWritten => "failed to write DNS query",
                AttemptError::ClosedBeforeReply => "pooled DNS connection closed before reply",
                AttemptError::TimedOut => "pooled DNS query timed out",
            }),
    {
        match self {
            AttemptError::NoConnection => "failed to open pooled DNS connection",
            AttemptError::NotWritten => "failed to write DNS query",
            AttemptError::ClosedBeforeReply => "pooled DNS connection closed before reply",
            AttemptError::TimedOut => "pooled DNS query timed out",
        }
    }
}

/// What an attempt came to.
pub enum Outcome {
    Answered(Vec<u8>),
    Retry(AttemptError),
    Fatal(AttemptError),
}

/// The reply to a query as it goes back: under the number that the query came
/// with.
pub open spec fn answer_to(query: Seq<u8>, reply: Seq<u8>) -> Seq<u8> {
    reply.update(0, query[0]).update(1, query[1])
}

/// What an attempt that brought no reply came to.
pub open spec fn unanswered(awaited: Awaited) -> Option<Outcome> {
    match awaited {
        Awaited::Delivered(_) => None,
        Awaited::Closed => Some(Outcome::Retry(AttemptError::ClosedBeforeReply)),
        Awaited::TimedOut => Some(Outcome::Fatal(AttemptError::TimedOut)),
    }
}

impl DnsPool {
    /// Settles an attempt: a reply goes back under the number that the query
    /// came with, and a query without a reply waits no longer.
    pub fn settle(&mut self, key: u64, id: u16, query: &[u8], awaited: Awaited) -> (r: Outcome)
        requires
            old(self).wf(),
            query@.len() >= 2,
            awaited matches Awaited::Delivered(body) ==> body@.len() >= 2,
        ensures
            final(self).wf(),
            final(self).same_settings(*old(self)),
            final(self).spec_next_key() == old(self).spec_next_key(),
            match awaited {
                Awaited::Delivered(body) => {
                    &&& r matches Outcome::Answered(reply) && reply@ == answer_to(query@, body@)
                    &&& final(self).list() == old(self).list()
                },
                _ => {
                    &&& Some(r) == unanswered(awaited)
                    &&& final(self).list() == at_key(
                        old(self).list(),
                        key,
                        |c: ConnView| c.without_query(id),
                    )
                },
            },
    {
        match awaited {
            Awaited::Delivered(body) => Outcome::Answered(renumber(body, query[0], query[1])),
            Awaited::Closed => {
                self.abandon(key, id);
                Outcome::Retry(AttemptError::ClosedBeforeReply)
            },
            Awaited::TimedOut => {
                self.abandon(key, id);
                Outcome::Fatal(AttemptError::TimedOut)
            },
        }
    }
}

/// What follows an attempt.
pub enum Next {
    Reply(Vec<u8>),
    TryAgain,
    Fail(AttemptError),
}

/// What follows the attempt with the given number, counted from zero: a
/// failed one is made again, once, unless its query timed out.
pub open spec fn next_after(attempt: usize, outcome: Outcome) -> Next {
    match outcome {
        Outcome::Answered(reply) => Next::Reply(reply),
        Outcome::Retry(e) => if attempt == 0 {
            Next::TryAgain
        } else {
            Next::Fail(e)
        },
        Outcome::Fatal(e) => Next::Fail(e),
    }
}

/// What follows the attempt with the given number, counted from zero: a
/// failed one is made again, once, unless its query timed out.
pub fn after_attempt(attempt: usize, outcome: Outcome) -> (r: Next)
    ensures
        r == next_after(attempt, outcome),
{
    match outcome {
        Outcome::Answered(reply) => Next::Reply(reply),
        Outcome::Retry(e) => {
            if attempt == 0 {
                Next::TryAgain
            } else {
                Next::Fail(e)
            }
        },
        Outcome::Fatal(e) => Next::Fail(e),
    }
}

/// Whether an attempt opens a connection of its own: all but the first do.
pub fn opens_new_connection(attempt: usize) -> (r: bool)
    ensures
        r == (attempt > 0),
{
    attempt > 0
}

/// The pool holds as many connections to a server as it may.
pub fn exhausted_message(server: SocketAddr) -> (r: String)
    ensures
        r@ == "DNS connection pool exhausted for "@ + server.text(),
{
    let mut out = String::new();
    text::push_text(&mut out, "DNS connection pool exhausted for ");
    server.write(&mut out);
    assert(out@ =~= "DNS connection pool exhausted for "@ + server.text());
    out
}

// ---------------------------------------------------------------------------
// Finding a connection, and reading from it
// ---------------------------------------------------------------------------
/// What comes of looking for a connection for a query.
#[derive(Clone, Copy, PartialEq, Eq, Debug, Structural)]
pub enum Acquired {
    /// The query goes out on the connection of this key, under this number.
    Reused(u64, u16),
    /// Look again once no one else opens a connection.
    Wait,
    /// Open a connection.
    Open,
    /// There are as many connections as there may be.
    Exhausted,
}

/// What comes of looking for a connection, in terms of the list.
pub enum Search {
    /// The connection at this place takes the query.
    Reuse(int),
    Wait,
    Open,
    Exhausted,
}

/// What comes of looking for a connection for a query to `server`, once the dead
/// ones are out of the pool.
pub open spec fn search(s: Seq<ConnView>, server: SocketAddr, alone: bool) -> Search {
    let t = swept(s, server);
    let i = first_usable(t, server, 0);
    if i < t.len() {
        Search::Reuse(i)
    } else if !alone {
        Search::Wait
    } else if pooled_to(t, server) < MAX_CONNS_PER_TARGET {
        Search::Open
    } else {
        Search::Exhausted
    }
}

impl DnsPool {
    /// Looks for a connection for a query to `server`. `alone` tells whether no
    /// one else can open one meanwhile: only then may one be opened.
    pub fn acquire(&mut self, server: SocketAddr, alone: bool, stats: &mut Stats) -> (r: Acquired)
        requires
            old(self).wf(),
        ensures
            final(self).wf(),
            final(self).same_settings(*old(self)),
            final(self).spec_next_key() == old(self).spec_next_key(),
            ({
                let s = swept(old(self).list(), server);
                let i = first_usable(s, server, 0);
                match r {
                    Acquired::Reused(key, id) => {
                        &&& i < s.len()
                        &&& key == s[i].key
                        &&& is_first_free(s[i].inflight, s[i].next_id, id)
                        &&& final(self).list() == s.update(i, s[i].with_query(id))
                        &&& *final(stats) == hit_counted(*old(stats))
                    },
                    Acquired::Wait => i == s.len() && !alone,
                    Acquired::Open => i == s.len() && alone && pooled_to(s, server)
                        < MAX_CONNS_PER_TARGET,
                    Acquired::Exhausted => i == s.len() && alone && pooled_to(s, server)
                        >= MAX_CONNS_PER_TARGET,
                }
            }),
            !(r is Reused) ==> final(self).list() == swept(old(self).list(), server)
                && *final(stats) == *old(stats),
            match search(old(self).list(), server, alone) {
                Search::Reuse(_) => r is Reused,
                Search::Wait => r is Wait,
                Search::Open => r is Open,
                Search::Exhausted => r is Exhausted,
            },
    {
        match self.try_reuse(server, stats) {
            Some((key, id)) => Acquired::Reused(key, id),
            None => {
                if !alone {
                    return Acquired::Wait;
                }
                let ghost s = self.list();
                let may = self.may_open(server);
                assert(self.list() =~= s);
                if may {
                    Acquired::Open
                } else {
                    Acquired::Exhausted
                }
            },
        }
    }

    /// A query was written at `now`, or could not be. Tells what the attempt
    /// came to, where it is over.
    pub fn on_written(&mut self, key: u64, id: u16, written: bool, now: u64) -> (r: Option<Outcome>)
        requires
            old(self).wf(),
        ensures
            final(self).wf(),
            final(self).same_settings(*old(self)),
            final(self).spec_next_key() == old(self).spec_next_key(),
            written ==> r is None && final(self).list() == at_key(
                old(self).list(),
                key,
                |c: ConnView| c.after_write(now),
            ),
            !written ==> r == Some(Outcome::Retry(AttemptError::NotWritten)) && final(self).list()
                == at_key(old(self).list(), key, |c: ConnView| c.after_failed_write(id)),
    {
        if written {
            self.mark_used(key, now);
            assert(self.list() =~= at_key(
                old(self).list(),
                key,
                |c: ConnView| c.after_write(now),
            ));
            None
        } else {
            self.write_failed(key, id);
            assert(self.list() =~= at_key(
                old(self).list(),
                key,
                |c: ConnView| c.after_failed_write(id),
            ));
            Some(Outcome::Retry(AttemptError::NotWritten))
        }
    }
}

/// What comes of reading from a connection.
pub enum ReaderEvent {
    /// Nothing came in for as long as a connection may idle.
    Idle,
    /// The connection is closed or broken.
    Failed,
    /// The length of a message came in.
    Length(u8, u8),
    /// A message came in.
    Message(Vec<u8>),
}

/// What to do next with a connection that is read from.
pub enum ReaderAction {
    /// Wait for the length of the next message.
    Wait,
    /// Read a message of this many octets.
    ReadMessage(usize),
    /// Hand the message to the query with this number, and wait for the next.
    Hand(u16, Vec<u8>),
    /// Read no more.
    Close,
}

/// Whether a query with this number waits on the connection of this key.
pub open spec fn is_awaited(s: Seq<ConnView>, key: u64, id: u16) -> bool {
    exists|i: int|
        0 <= i < s.len() && (#[trigger] s[i]).key == key && s[i].inflight.contains(id)
}

/// Whether no query waits on the connection of this key.
pub open spec fn is_quiet(s: Seq<ConnView>, key: u64) -> bool {
    forall|i: int| 0 <= i < s.len() && (#[trigger] s[i]).key == key ==> s[i].inflight.is_empty()
}

/// The list once the connection of this key is read from no more: it takes no
/// queries, and none waits on it.
pub open spec fn given_up(s: Seq<ConnView>, key: u64) -> Seq<ConnView> {
    at_key(
        s,
        key,
        |c: ConnView| ConnView { alive: false, open: false, inflight: Set::empty(), ..c },
    )
}

/// Whether the length of a message leaves room for a number.
pub open spec fn is_length(high: u8, low: u8) -> bool {
    high * 256 + low >= 2
}

/// Whether a connection that is read from is given up.
pub open spec fn is_over(s: Seq<ConnView>, key: u64, event: ReaderEvent) -> bool {
    match event {
        ReaderEvent::Idle => is_quiet(s, key),
        ReaderEvent::Failed => true,
        ReaderEvent::Length(high, low) => !is_length(high, low),
        ReaderEvent::Message(_) => false,
    }
}

impl DnsPool {
    /// Goes on with a connection that is read from. A message goes to the query
    /// with its number, where one waits. The connection is given up where it is
    /// broken, where a message is too short for a number, and where it has
    /// nothing to do.
    pub fn reader_step(&mut self, key: u64, event: ReaderEvent) -> (r: ReaderAction)
        requires
            old(self).wf(),
            event matches ReaderEvent::Message(m) ==> m@.len() >= 2,
        ensures
            final(self).wf(),
            final(self).same_settings(*old(self)),
            final(self).spec_next_key() == old(self).spec_next_key(),
            match event {
                ReaderEvent::Idle => if is_quiet(old(self).list(), key) {
                    r is Close
                } else {
                    r is Wait
                },
                ReaderEvent::Failed => r is Close,
                ReaderEvent::Length(high, low) => if is_length(high, low) {
                    r == ReaderAction::ReadMessage((high * 256 + low) as usize)
                } else {
                    r is Close
                },
                ReaderEvent::Message(m) => if is_awaited(old(self).list(), key, message_id(m@)) {
                    r == ReaderAction::Hand(message_id(m@), m)
                } else {
                    r is Wait
                },
            },
            r is Close <==> is_over(old(self).list(), key, event),
            final(self).list() == (match event {
                ReaderEvent::Message(m) => at_key(
                    old(self).list(),
                    key,
                    |c: ConnView| c.without_query(message_id(m@)),
                ),
                _ => if r is Close {
                    given_up(old(self).list(), key)
                } else {
                    old(self).list()
                },
            }),
    {
        match event {
            ReaderEvent::Idle => {
                if self.closes_when_idle(key) {
                    self.reader_ended(key);
                    ReaderAction::Close
                } else {
                    ReaderAction::Wait
                }
            },
            ReaderEvent::Failed => {
                self.reader_ended(key);
                ReaderAction::Close
            },
            ReaderEvent::Length(high, low) => {
                match body_length(high, low) {
                    Some(n) => ReaderAction::ReadMessage(n),
                    None => {
                        self.reader_ended(key);
                        ReaderAction::Close
                    },
                }
            },
            ReaderEvent::Message(m) => {
                let id = reply_id(m.as_slice());
                if self.deliver(key, id) {
                    ReaderAction::Hand(id, m)
                } else {
                    ReaderAction::Wait
                }
            },
        }
    }
}

// ---------------------------------------------------------------------------
// What the pool keeps
// ---------------------------------------------------------------------------
proof fn lemma_filter_none(s: Seq<ConnView>, keep: spec_fn(ConnView) -> bool)
    requires
        forall|i: int| 0 <= i < s.len() ==> !keep(#[trigger] s[i]),
    ensures
        s.filter(keep).len() == 0,
    decreases s.len(),
{
    reveal(Seq::filter);
    if s.len() > 0 {
        let t = s.drop_last();
        assert forall|i: int| 0 <= i < t.len() implies !keep(#[trigger] t[i]) by {
            assert(t[i] == s[i]);
        }
        lemma_filter_none(t, keep);
        assert(!keep(s[s.len() - 1]));
    }
}

proof fn lemma_first_usable(s: Seq<ConnView>, server: SocketAddr, i: int)
    requires
        0 <= i <= s.len(),
    ensures
        i <= first_usable(s, server, i) <= s.len(),
        first_usable(s, server, i) < s.len() ==> is_usable(s[first_usable(s, server, i)], server),
        forall|j: int| i <= j < first_usable(s, server, i) ==> !is_usable(#[trigger] s[j], server),
    decreases s.len() - i,
{
    if i < s.len() && !is_usable(s[i], server) {
        lemma_first_usable(s, server, i + 1);
    }
}

/// After the proxy has changed the pool is empty, and no query to any server
/// goes out on a connection through the old proxy.
pub proof fn lemma_changed_proxy_empties_pool(s: Seq<ConnView>, server: SocketAddr)
    ensures
        pooled_count(s.map_values(|c: ConnView| retired(c))) == 0,
        first_usable(swept(s.map_values(|c: ConnView| retired(c)), server), server, 0) == s.len(),
{
    let t = s.map_values(|c: ConnView| retired(c));
    lemma_filter_none(t, |c: ConnView| c.pooled);
    let u = swept(t, server);
    lemma_first_usable(u, server, 0);
}

proof fn lemma_filter_push(s: Seq<ConnView>, c: ConnView, keep: spec_fn(ConnView) -> bool)
    ensures
        s.push(c).filter(keep).len() == s.filter(keep).len() + (if keep(c) {
            1nat
        } else {
            0
        }),
{
    reveal(Seq::filter);
    assert(s.push(c).drop_last() =~= s);
}

/// A connection that is opened only where one may be keeps their number
/// within its limit, and leaves other servers alone.
pub proof fn lemma_opened_connection_is_within_limit(
    s: Seq<ConnView>,
    server: SocketAddr,
    other: SocketAddr,
    key: u64,
    now: u64,
)
    requires
        pooled_to(s, server) < MAX_CONNS_PER_TARGET,
    ensures
        pooled_to(s.push(fresh_conn(key, server, now)), server) <= MAX_CONNS_PER_TARGET,
        other != server ==> pooled_to(s.push(fresh_conn(key, server, now)), other) == pooled_to(
            s,
            other,
        ),
{
    lemma_filter_push(
        s,
        fresh_conn(key, server, now),
        |c: ConnView| c.pooled && c.server == server,
    );
    lemma_filter_push(
        s,
        fresh_conn(key, server, now),
        |c: ConnView| c.pooled && c.server == other,
    );
}

/// A query goes out on a live connection to its own server, under a number
/// that no other query on it has.
pub proof fn lemma_reuse_is_sound(s: Seq<ConnView>, server: SocketAddr, id: u16)
    requires
        ({
            let t = swept(s, server);
            let i = first_usable(t, server, 0);
            i < t.len() && is_first_free(t[i].inflight, t[i].next_id, id)
        }),
    ensures
        ({
            let i = first_usable(swept(s, server), server, 0);
            &&& 0 <= i < s.len()
            &&& s[i].server == server
            &&& s[i].alive
            &&& s[i].pooled
            &&& !s[i].inflight.contains(id)
            &&& s[i].inflight.len() < MAX_INFLIGHT_PER_CONN
        }),
{
    lemma_first_usable(swept(s, server), server, 0);
}

/// Whoever is left in the pool after it was pruned is alive and has a query
/// waiting, or had one not too long ago.
pub proof fn lemma_pruned_pool_is_live(c: ConnView, now: u64, idle: u64)
    requires
        pruned(c, now, idle).pooled,
    ensures
        pruned(c, now, idle) == c,
        c.alive,
        c.inflight.len() > 0 || now - c.last_used <= idle,
{
}

/// A number whose query was answered, abandoned or lost with its connection
/// can be handed out again.
pub proof fn lemma_released_number_is_free(c: ConnView, id: u16)
    ensures
        !c.without_query(id).inflight.contains(id),
        c.inflight.finite() && c.inflight.contains(id) ==> c.without_query(id).inflight.len()
            == c.inflight.len() - 1,
{
}

/// A reply to a query that went out on a connection is handed to that query,
/// and under the number that the query came with it is the reply of the server.
pub proof fn lemma_reply_finds_its_query(
    s: Seq<ConnView>,
    key: u64,
    id: u16,
    query: Seq<u8>,
    reply: Seq<u8>,
)
    requires
        is_awaited(s, key, id),
        query.len() >= 2,
        reply.len() >= 2,
        message_id(reply) == id,
    ensures
        is_awaited(s, key, message_id(reply)),
        !is_awaited(
            at_key(s, key, |c: ConnView| c.without_query(message_id(reply))),
            key,
            id,
        ),
        message_id(reply.update(0, query[0]).update(1, query[1])) == message_id(query),
        reply.update(0, query[0]).update(1, query[1]).skip(2) == reply.skip(2),
{
    let t = at_key(s, key, |c: ConnView| c.without_query(message_id(reply)));
    if is_awaited(t, key, id) {
        let i = choose|i: int|
            0 <= i < t.len() && (#[trigger] t[i]).key == key && t[i].inflight.contains(id);
        assert(t[i] == (if s[i].key == key {
            s[i].without_query(message_id(reply))
        } else {
            s[i]
        }));
    }
    assert(reply.update(0, query[0]).update(1, query[1]).skip(2) =~= reply.skip(2));
}

/// On a connection that is read from no more, no query waits, and it takes no
/// other one.
pub proof fn lemma_closed_connection_is_left(
    s: Seq<ConnView>,
    key: u64,
    id: u16,
    i: int,
)
    requires
        0 <= i < s.len(),
        s[i].key == key,
    ensures
        !is_awaited(given_up(s, key), key, id),
        !is_usable(swept(given_up(s, key), s[i].server)[i], s[i].server),
{
    let t = given_up(s, key);
    if is_awaited(t, key, id) {
        let j = choose|j: int|
            0 <= j < t.len() && (#[trigger] t[j]).key == key && t[j].inflight.contains(id);
        assert(s[j].key == key);
    }
}

/// Only queries of 12 to 65535 octets are sent.
pub proof fn lemma_which_queries_are_sent(n: nat)
    ensures
        length_fault(n) is None <==> 12 <= n <= 65535,
        n < 12 ==> length_fault(n) == Some(QueryError::TooShort),
        n > 65535 ==> length_fault(n) == Some(QueryError::TooLarge),
{
}

/// What goes out is the length of the query, high octet first, the number that
/// it has on the connection, high octet first, and the rest of the query as it
/// is. Whoever reads that length reads just the query.
pub proof fn lemma_query_layout(query: Seq<u8>, id: u16)
    requires
        2 <= query.len() <= 65535,
    ensures
        ({
            let f = query_frame(query, id);
            &&& f.len() == query.len() + 2
            &&& f[0] * 256 + f[1] == query.len()
            &&& f[2] * 256 + f[3] == id
            &&& f.skip(4) == query.skip(2)
            &&& length_value(f[0], f[1]) == Some(query.len() as usize)
            &&& is_length(f[0], f[1])
        }),
{
    let f = query_frame(query, id);
    bytes::lemma_be_bytes_digits(query.len());
    assert(f[0] == query.len() / 256);
    assert(f[1] == query.len() % 256);
    assert(f.skip(4) =~= query.skip(2));
}

/// The length of a message is read high octet first, and is one for a message
/// exactly where that has room for a number.
pub proof fn lemma_length_is_read(high: u8, low: u8)
    ensures
        length_value(high, low) is Some <==> high > 0 || low >= 2,
        is_length(high, low) <==> high > 0 || low >= 2,
        length_value(high, low) matches Some(n) ==> n == 256 * high + low,
{
}

/// A reply goes back under the number of its query, and is otherwise as the
/// server sent it. Giving a message another number changes nothing else in it.
pub proof fn lemma_answer_is_the_reply(query: Seq<u8>, reply: Seq<u8>, id: u16)
    requires
        query.len() >= 2,
        reply.len() >= 2,
    ensures
        answer_to(query, reply).len() == reply.len(),
        answer_to(query, reply)[0] == query[0],
        answer_to(query, reply)[1] == query[1],
        answer_to(query, reply).skip(2) == reply.skip(2),
        message_id(reply) == 256 * reply[0] + reply[1],
        message_id(renumbered(reply, id)) == id,
        renumbered(reply, id).skip(2) == reply.skip(2),
        answer_to(query, renumbered(query, id)) == query,
{
    assert(answer_to(query, reply).skip(2) =~= reply.skip(2));
    assert(renumbered(reply, id).skip(2) =~= reply.skip(2));
    assert(answer_to(query, renumbered(query, id)) =~= query);
}

/// A query whose connection is lost is tried once more, and no more often than
/// that; one that timed out is not tried again. A reply is handed on at any
/// attempt.
pub proof fn lemma_one_more_attempt(attempt: usize, outcome: Outcome, reply: Vec<u8>, e: AttemptError)
    ensures
        next_after(attempt, Outcome::Answered(reply)) == Next::Reply(reply),
        next_after(0, Outcome::Retry(e)) is TryAgain,
        next_after(attempt, Outcome::Fatal(e)) == Next::Fail(e),
        attempt > 0 ==> !(next_after(attempt, outcome) is TryAgain),
        attempt > 0 ==> next_after(attempt, Outcome::Retry(e)) == Next::Fail(e),
        unanswered(Awaited::Closed) matches Some(o) ==> next_after(0, o) is TryAgain && next_after(
            1,
            o,
        ) == Next::Fail(AttemptError::ClosedBeforeReply),
        unanswered(Awaited::TimedOut) matches Some(o) ==> next_after(0, o) == Next::Fail(
            AttemptError::TimedOut,
        ),
        unanswered(Awaited::Closed) is Some,
        unanswered(Awaited::TimedOut) is Some,
        unanswered(Awaited::Delivered(reply)) is None,
{
}

/// The numbers go on one by one and start again at zero past the last. The next
/// one is taken where it is free.
pub proof fn lemma_numbers_go_on(taken: Set<u16>, start: u16, id: u16, c: ConnView)
    ensures
        number_after(start, 0) == start,
        start < 0xffff ==> number_after(start, 1) == start + 1,
        number_after(0xffff, 1) == 0,
        is_first_free(taken, start, id) ==> !taken.contains(id),
        is_first_free(taken, start, id) && !taken.contains(start) ==> id == start,
        c.with_query(id).inflight == c.inflight.insert(id),
        id < 0xffff ==> c.with_query(id).next_id == id + 1,
        id == 0xffff ==> c.with_query(id).next_id == 0,
        c.without_query(id).inflight == c.inflight.remove(id),
        c == (ConnView { inflight: c.inflight, next_id: c.next_id, ..c.with_query(id) }),
        c == (ConnView { inflight: c.inflight, ..c.without_query(id) }),
{
    if is_first_free(taken, start, id) && !taken.contains(start) {
        assert(is_first_free(taken, start, start)) by {
            assert(number_after(start, 0) == start);
        }
        lemma_first_free_is_unique(taken, start, id, start);
    }
}

/// A connection takes queries until 256 wait on it.
pub proof fn lemma_full_connection(c: ConnView)
    ensures
        c.is_full() <==> c.inflight.len() >= 256,
{
}

/// Where a live connection to the server is in the pool and has a number left,
/// the query goes out on one, and on the oldest such; no other one is opened.
pub proof fn lemma_live_connection_is_reused(
    s: Seq<ConnView>,
    server: SocketAddr,
    alone: bool,
    i: int,
)
    requires
        0 <= i < s.len(),
        s[i].server == server,
        s[i].pooled,
        s[i].alive,
        s[i].inflight.len() < 256,
    ensures
        search(s, server, alone) matches Search::Reuse(k) && 0 <= k <= i && s[k].server == server
            && s[k].pooled && s[k].alive && s[k].inflight.len() < 256,
{
    let t = swept(s, server);
    assert(is_usable(t[i], server));
    lemma_first_usable(t, server, 0);
}

/// Where no connection can take the query, one is opened, as long as fewer than
/// eight live ones to the server are in the pool, and no one else could be
/// opening one.
pub proof fn lemma_connections_are_opened_up_to_eight(
    s: Seq<ConnView>,
    server: SocketAddr,
    alone: bool,
)
    requires
        forall|i: int|
            0 <= i < s.len() ==> (#[trigger] s[i]).server != server || !s[i].pooled || !s[i].alive
                || s[i].inflight.len() >= 256,
    ensures
        ({
            let live = s.filter(|c: ConnView| c.pooled && c.alive && c.server == server).len();
            &&& !alone ==> search(s, server, alone) is Wait
            &&& alone && live < 8 ==> search(s, server, alone) is Open
            &&& alone && live >= 8 ==> search(s, server, alone) is Exhausted
        }),
{
    let t = swept(s, server);
    lemma_first_usable(t, server, 0);
    let k = first_usable(t, server, 0);
    if k < t.len() {
        assert(s[k].server == server);
    }
    lemma_swept_counts_the_living(s, server);
}

proof fn lemma_swept_counts_the_living(s: Seq<ConnView>, server: SocketAddr)
    ensures
        pooled_to(swept(s, server), server) == s.filter(
            |c: ConnView| c.pooled && c.alive && c.server == server,
        ).len(),
    decreases s.len(),
{
    reveal(Seq::filter);
    if s.len() > 0 {
        lemma_swept_counts_the_living(s.drop_last(), server);
        assert(swept(s, server).drop_last() =~= swept(s.drop_last(), server));
    }
}

/// A dead connection leaves the pool when one to its server is looked for; all
/// others stay just as they are.
pub proof fn lemma_only_the_dead_are_swept(s: Seq<ConnView>, server: SocketAddr, i: int)
    requires
        0 <= i < s.len(),
    ensures
        swept(s, server).len() == s.len(),
        s[i].server == server && !s[i].alive ==> swept(s, server)[i] == (ConnView {
            pooled: false,
            ..s[i]
        }),
        s[i].server != server || s[i].alive ==> swept(s, server)[i] == s[i],
{
}

/// A change to the connection of one key leaves all others alone.
pub proof fn lemma_other_keys_stay(
    s: Seq<ConnView>,
    key: u64,
    f: spec_fn(ConnView) -> ConnView,
    i: int,
)
    requires
        0 <= i < s.len(),
    ensures
        at_key(s, key, f).len() == s.len(),
        s[i].key != key ==> at_key(s, key, f)[i] == s[i],
        s[i].key == key ==> at_key(s, key, f)[i] == f(s[i]),
{
}

/// When the proxy changes, a connection leaves the pool and takes no more
/// queries, but those that wait on it can still be answered.
pub proof fn lemma_retired_connection_still_answers(c: ConnView)
    ensures
        !retired(c).pooled,
        c.pooled ==> !retired(c).alive,
        retired(c).open == c.open,
        retired(c).inflight == c.inflight,
        c == (ConnView { pooled: c.pooled, alive: c.alive, ..retired(c) }),
        !c.pooled ==> retired(c) == c,
{
}

/// Pruning takes a connection out of the pool exactly where it is dead, or has
/// no query waiting and was last used longer ago than a connection may idle. One
/// with a query waiting stays, however long that takes.
pub proof fn lemma_who_is_pruned(c: ConnView, now: u64, idle: u64)
    ensures
        pruned(c, now, idle).pooled <==> c.pooled && c.alive && (c.inflight.len() > 0 || now
            - c.last_used <= idle),
        pruned(c, now, idle).pooled ==> pruned(c, now, idle) == c,
        c.pooled && c.alive && !pruned(c, now, idle).pooled ==> !pruned(c, now, idle).alive,
        pruned(c, now, idle).open == c.open,
        c == (ConnView { pooled: c.pooled, alive: c.alive, ..pruned(c, now, idle) }),
{
}

/// A connection that has just been opened is live, in the pool, and carries one
/// query under the number zero.
pub proof fn lemma_fresh_connection(key: u64, server: SocketAddr, now: u64)
    ensures
        ({
            let c = fresh_conn(key, server, now);
            &&& c.key == key && c.server == server && c.last_used == now
            &&& c.pooled && c.alive && c.open
            &&& c.inflight.contains(0) && c.inflight.len() == 1
            &&& c.next_id == 1
        }),
{
}

/// A query that was written keeps its number and marks the time; one that could
/// not be gives it back, and its connection takes no other one.
pub proof fn lemma_written_or_not(c: ConnView, id: u16, now: u64)
    ensures
        c.after_write(now).last_used == now,
        c == (ConnView { last_used: c.last_used, ..c.after_write(now) }),
        !c.after_failed_write(id).alive,
        c.after_failed_write(id).inflight == c.inflight.remove(id),
        c == (ConnView { alive: c.alive, inflight: c.inflight, ..c.after_failed_write(id) }),
{
}

/// A connection is given up where it is broken, where a length leaves no room for
/// a number, and where nothing comes in and no query waits on it; as long as one
/// waits, silence alone does not end it.
pub proof fn lemma_when_a_connection_is_given_up(
    s: Seq<ConnView>,
    key: u64,
    id: u16,
    high: u8,
    low: u8,
    m: Vec<u8>,
)
    ensures
        is_over(s, key, ReaderEvent::Failed),
        is_awaited(s, key, id) ==> !is_over(s, key, ReaderEvent::Idle),
        (forall|i: int|
            0 <= i < s.len() && (#[trigger] s[i]).key == key ==> s[i].inflight == Set::<
                u16,
            >::empty()) ==> is_over(s, key, ReaderEvent::Idle),
        is_over(s, key, ReaderEvent::Length(high, low)) <==> high == 0 && low < 2,
        !is_over(s, key, ReaderEvent::Message(m)),
{
    if is_awaited(s, key, id) {
        let i = choose|i: int|
            0 <= i < s.len() && (#[trigger] s[i]).key == key && s[i].inflight.contains(id);
        assert(!s[i].inflight.is_empty());
    }
}

/// A connection is forgotten only where no query can find it and no reply is read
/// from it.
pub proof fn lemma_who_is_forgotten(c: ConnView)
    ensures
        c.is_kept() <==> c.pooled || c.open,
{
}

/// Each connection in the pool counts, and only for its own server.
pub proof fn lemma_pool_is_counted(s: Seq<ConnView>, c: ConnView, server: SocketAddr)
    ensures
        pooled_count(Seq::empty()) == 0,
        pooled_to(Seq::empty(), server) == 0,
        pooled_count(s.push(c)) == pooled_count(s) + (if c.pooled {
            1int
        } else {
            0
        }),
        pooled_to(s.push(c), server) == pooled_to(s, server) + (if c.pooled && c.server == server {
            1int
        } else {
            0
        }),
{
    reveal(Seq::filter);
    lemma_filter_push(s, c, |c: ConnView| c.pooled);
    lemma_filter_push(s, c, |c: ConnView| c.pooled && c.server == server);
}

/// A query counts as a hit where it found a connection, and as a miss where one
/// was opened for it. No other counter moves.
pub proof fn lemma_hits_and_misses(s: Stats)
    ensures
        hit_counted(s).dns_pool_hits == s.dns_pool_hits.plus(1),
        s == (Stats { dns_pool_hits: s.dns_pool_hits, ..hit_counted(s) }),
        miss_counted(s).dns_pool_misses == s.dns_pool_misses.plus(1),
        s == (Stats { dns_pool_misses: s.dns_pool_misses, ..miss_counted(s) }),
{
}

/// Once a connection is given up no query waits on it, no reply is read from it
/// and no new query finds it alive. Which queries wait on the other connections
/// stays as it was, and they are read from as before.
pub proof fn lemma_given_up_connection_is_silent(
    s: Seq<ConnView>,
    key: u64,
    other: u64,
    id: u16,
    i: int,
)
    requires
        0 <= i < s.len(),
        other != key,
    ensures
        !is_awaited(given_up(s, key), key, id),
        is_quiet(given_up(s, key), key),
        is_awaited(given_up(s, key), other, id) == is_awaited(s, other, id),
        given_up(s, key).len() == s.len(),
        s[i].key == key ==> !given_up(s, key)[i].alive && !given_up(s, key)[i].open,
        s[i].key == key ==> given_up(s, key)[i].key == key && given_up(s, key)[i].server
            == s[i].server && given_up(s, key)[i].pooled == s[i].pooled,
        s[i].key != key ==> given_up(s, key)[i] == s[i],
{
    let t = given_up(s, key);
    if is_awaited(s, other, id) {
        let j = choose|j: int|
            0 <= j < s.len() && (#[trigger] s[j]).key == other && s[j].inflight.contains(id);
        assert(t[j] == s[j]);
    }
    if is_awaited(t, other, id) {
        let j = choose|j: int|
            0 <= j < t.len() && (#[trigger] t[j]).key == other && t[j].inflight.contains(id);
        assert(s[j].key == other);
    }
}

/// A number that is claimed is in use from then on, and a number that is given
/// back is free. The other numbers stay as they are, and nothing else of the
/// connection changes.
pub proof fn lemma_numbers_are_taken_and_given_back(c: ConnView, id: u16, other: u16)
    requires
        other != id,
    ensures
        c.claimed(id).inflight.contains(id),
        c.claimed(id).inflight.contains(other) == c.inflight.contains(other),
        c == (ConnView { inflight: c.inflight, ..c.claimed(id) }),
        !c.without_query(id).inflight.contains(id),
        c.without_query(id).inflight.contains(other) == c.inflight.contains(other),
        c == (ConnView { inflight: c.inflight, ..c.without_query(id) }),
{
}

} // verus!
