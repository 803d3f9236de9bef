use cortado::addr::{parse_socket, SocketAddr};
use cortado::config::ProxyConfig;
use cortado::dns::{
    after_attempt, body_length, check_query, exhausted_message, frame_query, opens_new_connection,
    reply_id, Acquired, AttemptError, Awaited, DnsPool, Next, Outcome, QueryError, ReaderAction,
    ReaderEvent, MAX_CONNS_PER_TARGET, MAX_INFLIGHT_PER_CONN,
};
use cortado::stats::Stats;
use cortado::time::Duration;
use std::sync::Arc;

fn socket(s: &str) -> SocketAddr {
    parse_socket(s).unwrap()
}

fn proxy_for(addr: &str) -> Arc<ProxyConfig> {
    Arc::new(ProxyConfig {
        addr: socket(addr),
        username: None,
        password: None,
        connect_timeout: Duration::from_secs(5),
        tcp_nodelay: true,
    })
}

fn pool_with_idle(idle: Duration) -> DnsPool {
    DnsPool::new(proxy_for("127.0.0.1:1080"), Duration::from_secs(5), idle)
}

fn pool() -> DnsPool {
    pool_with_idle(Duration::from_secs(30))
}

fn dns_message(id: u16, marker: u8) -> Vec<u8> {
    let mut m = vec![0u8; 12];
    m[0..2].copy_from_slice(&id.to_be_bytes());
    m.push(marker);
    m
}

fn acquire(pool: &mut DnsPool, server: SocketAddr, now: u64, stats: &mut Stats) -> Option<(u64, u16)> {
    match pool.acquire(server, false, stats) {
        Acquired::Reused(key, id) => return Some((key, id)),
        Acquired::Wait => {}
        _ => panic!("a connection, or the wait for one"),
    }
    match pool.acquire(server, true, stats) {
        Acquired::Reused(key, id) => Some((key, id)),
        Acquired::Open => Some(pool.register(server, now, stats)),
        Acquired::Exhausted => None,
        Acquired::Wait => panic!("no one else opens a connection"),
    }
}

/// A query is written to its connection. Gives the octets that were sent.
fn send(pool: &mut DnsPool, key: u64, id: u16, query: &[u8], now: u64) -> Vec<u8> {
    let frame = frame_query(query, id);
    assert!(pool.on_written(key, id, true, now).is_none());
    frame
}

/// A frame comes back on a connection. Gives the number of the query that it
/// is handed to, and what that gets.
fn receive(pool: &mut DnsPool, key: u64, frame: &[u8]) -> (u16, Vec<u8>) {
    let len = match pool.reader_step(key, ReaderEvent::Length(frame[0], frame[1])) {
        ReaderAction::ReadMessage(n) => n,
        _ => panic!("a message follows"),
    };
    let message = frame[2..2 + len].to_vec();
    match pool.reader_step(key, ReaderEvent::Message(message)) {
        ReaderAction::Hand(to, body) => (to, body),
        _ => panic!("a query waits"),
    }
}

fn reply(pool: &mut DnsPool, key: u64, id: u16, query: &[u8], body: Vec<u8>) -> Vec<u8> {
    match after_attempt(0, pool.settle(key, id, query, Awaited::Delivered(body))) {
        Next::Reply(r) => r,
        _ => panic!("a reply"),
    }
}

/// One query to a server that sends back what it gets.
fn resolve(pool: &mut DnsPool, server: SocketAddr, query: &[u8], now: u64, stats: &mut Stats) -> Vec<u8> {
    check_query(query).unwrap();
    let (key, id) = acquire(pool, server, now, stats).unwrap();
    let frame = send(pool, key, id, query, now);
    let (to, body) = receive(pool, key, &frame);
    assert_eq!(to, id);
    reply(pool, key, id, query, body)
}

#[test]
fn resolve_echoes_and_preserves_id() {
    let mut pool = pool();
    let mut stats = Stats::new();
    let query = dns_message(0xABCD, 0x11);
    let resp = resolve(&mut pool, socket("8.8.8.8:53"), &query, 0, &mut stats);
    assert_eq!(&resp[0..2], &0xABCDu16.to_be_bytes());
    assert_eq!(resp[12], 0x11);
    assert_eq!(resp, query);
}

#[test]
fn reuses_single_connection_for_sequential_queries() {
    let mut pool = pool();
    let mut stats = Stats::new();
    let server = socket("1.1.1.1:53");
    for i in 0..10u16 {
        let q = dns_message(i, i as u8);
        let r = resolve(&mut pool, server, &q, 0, &mut stats);
        assert_eq!(&r[0..2], &i.to_be_bytes());
    }
    assert_eq!(pool.conn_count(), 1);
    assert_eq!(stats.dns_pool_misses.value, 1);
    assert_eq!(stats.dns_pool_hits.value, 9);
}

#[test]
fn concurrent_queries_multiplex() {
    let mut pool = pool();
    let mut stats = Stats::new();
    let server = socket("9.9.9.9:53");
    let mut taken = Vec::new();
    let mut sent = Vec::new();
    for i in 0..50u16 {
        let q = dns_message(i, (i % 256) as u8);
        check_query(&q).unwrap();
        let slot = acquire(&mut pool, server, 0, &mut stats).unwrap();
        assert!(!taken.contains(&slot));
        taken.push(slot);
        sent.push((q.clone(), send(&mut pool, slot.0, slot.1, &q, 0)));
    }
    for n in 0..50usize {
        // 17 shares no factor with 50, so each query has its turn.
        let i = (n * 17 + 23) % 50;
        let (key, _) = taken[i];
        let (to, body) = receive(&mut pool, key, &sent[i].1);
        let asker = taken.iter().position(|slot| *slot == (key, to)).unwrap();
        let r = reply(&mut pool, key, to, &sent[asker].0, body);
        assert_eq!(asker, i);
        assert_eq!(&r[0..2], &(i as u16).to_be_bytes());
        assert_eq!(r[12], (i % 256) as u8);
        assert_eq!(r, sent[i].0);
    }
    assert!(pool.conn_count() <= MAX_CONNS_PER_TARGET);
    assert_eq!(pool.conn_count(), 1);
}

#[test]
fn rejects_short_query() {
    assert_eq!(check_query(&[0u8; 4]), Err(QueryError::TooShort));
    assert_eq!(check_query(&[0u8; 11]), Err(QueryError::TooShort));
    assert_eq!(check_query(&[0u8; 12]), Ok(()));
    assert_eq!(check_query(&vec![0u8; 65535]), Ok(()));
    assert_eq!(check_query(&vec![0u8; 65536]), Err(QueryError::TooLarge));
    assert_eq!(QueryError::TooShort.message(), "DNS query too short");
    assert_eq!(QueryError::TooLarge.message(), "DNS query too large");
}

#[test]
fn recovers_after_connection_drop() {
    let mut pool = pool();
    let mut stats = Stats::new();
    let server = socket("8.8.8.8:53");
    let r1 = resolve(&mut pool, server, &dns_message(1, 0xAA), 0, &mut stats);
    assert_eq!(&r1[0..2], &1u16.to_be_bytes());

    pool.reader_ended(0);

    let r2 = resolve(&mut pool, server, &dns_message(2, 0xBB), 50, &mut stats);
    assert_eq!(&r2[0..2], &2u16.to_be_bytes());
    assert_eq!(r2[12], 0xBB);
    assert_eq!(stats.dns_pool_misses.value, 2);
    assert_eq!(pool.conn_count(), 1);
}

#[test]
fn set_proxy_invalidates_and_reroutes() {
    let mut pool = pool();
    let mut stats = Stats::new();
    let server = socket("8.8.8.8:53");
    resolve(&mut pool, server, &dns_message(1, 1), 0, &mut stats);
    assert_eq!(pool.conn_count(), 1);

    pool.set_proxy(proxy_for("127.0.0.1:1081"));
    assert_eq!(pool.conn_count(), 0);
    assert_eq!(pool.proxy().addr, socket("127.0.0.1:1081"));

    let r = resolve(&mut pool, server, &dns_message(2, 2), 0, &mut stats);
    assert_eq!(&r[0..2], &2u16.to_be_bytes());
    assert_eq!(pool.conn_count(), 1);
}

#[test]
fn prune_drops_idle_connections() {
    let mut pool = pool_with_idle(Duration::from_millis(10));
    let mut stats = Stats::new();
    resolve(&mut pool, socket("8.8.8.8:53"), &dns_message(1, 1), 0, &mut stats);
    assert_eq!(pool.conn_count(), 1);
    pool.prune(10_000_000);
    assert_eq!(pool.conn_count(), 1);
    pool.prune(40_000_000);
    assert_eq!(pool.conn_count(), 0);
}

#[test]
fn prune_keeps_connections_with_queries() {
    let mut pool = pool_with_idle(Duration::from_millis(10));
    let mut stats = Stats::new();
    let server = socket("8.8.8.8:53");
    let (key, id) = acquire(&mut pool, server, 0, &mut stats).unwrap();
    assert!(!pool.closes_when_idle(key));
    pool.prune(40_000_000);
    assert_eq!(pool.conn_count(), 1);
    pool.abandon(key, id);
    assert!(pool.closes_when_idle(key));
    pool.prune(40_000_000);
    assert_eq!(pool.conn_count(), 0);
}

#[test]
fn pool_is_limited_per_server() {
    let mut pool = pool();
    let mut stats = Stats::new();
    let server = socket("8.8.8.8:53");
    for i in 0..MAX_CONNS_PER_TARGET * MAX_INFLIGHT_PER_CONN {
        let (key, id) = acquire(&mut pool, server, 0, &mut stats).unwrap();
        assert_eq!(key as usize, i / MAX_INFLIGHT_PER_CONN);
        assert_eq!(id as usize, i % MAX_INFLIGHT_PER_CONN);
    }
    assert_eq!(pool.conn_count(), MAX_CONNS_PER_TARGET);
    assert!(acquire(&mut pool, server, 0, &mut stats).is_none());
    assert!(acquire(&mut pool, socket("1.1.1.1:53"), 0, &mut stats).is_some());
    assert_eq!(
        exhausted_message(server),
        "DNS connection pool exhausted for 8.8.8.8:53"
    );
    assert_eq!(
        exhausted_message(socket("[::1]:53")),
        "DNS connection pool exhausted for [::1]:53"
    );
}

#[test]
fn numbers_go_on_and_are_used_again() {
    let mut pool = pool();
    let mut stats = Stats::new();
    let server = socket("8.8.8.8:53");
    for i in 0..=65535u32 {
        let (key, id) = acquire(&mut pool, server, 0, &mut stats).unwrap();
        assert_eq!((key, id), (0, i as u16));
        pool.abandon(key, id);
    }
    assert_eq!(pool.try_reuse(server, &mut stats), Some((0, 0)));
    assert_eq!(pool.try_reuse(server, &mut stats), Some((0, 1)));
}

#[test]
fn failed_write_takes_connection_out() {
    let mut pool = pool();
    let mut stats = Stats::new();
    let server = socket("8.8.8.8:53");
    let (key, id) = acquire(&mut pool, server, 0, &mut stats).unwrap();
    match pool.on_written(key, id, false, 0) {
        Some(Outcome::Retry(e)) => assert_eq!(e, AttemptError::NotWritten),
        _ => panic!("another attempt"),
    }
    assert_eq!(pool.conn_count(), 1);
    assert!(pool.is_pooled(key));
    assert!(pool.try_reuse(server, &mut stats).is_none());
    assert_eq!(pool.conn_count(), 0);
    assert!(!pool.is_pooled(key));
    pool.tidy();
    pool.reader_ended(key);
    pool.tidy();
    assert!(!pool.deliver(key, id));
    assert!(pool.has_key_left());
}

#[test]
fn stray_replies_find_no_query() {
    let mut pool = pool();
    let mut stats = Stats::new();
    let (key, id) = acquire(&mut pool, socket("8.8.8.8:53"), 0, &mut stats).unwrap();
    assert!(!pool.deliver(key, 7));
    assert!(!pool.deliver(key + 1, id));
    assert!(pool.deliver(key, id));
    assert!(!pool.deliver(key, id));
}

#[test]
fn reader_gives_up_broken_and_idle_connections() {
    let mut pool = pool();
    let mut stats = Stats::new();
    let server = socket("8.8.8.8:53");
    let (key, id) = acquire(&mut pool, server, 0, &mut stats).unwrap();
    assert!(matches!(pool.reader_step(key, ReaderEvent::Idle), ReaderAction::Wait));
    assert!(matches!(
        pool.reader_step(key, ReaderEvent::Message(vec![0, 9, 1])),
        ReaderAction::Wait
    ));
    assert!(matches!(
        pool.reader_step(key, ReaderEvent::Message(vec![0, 0, 1])),
        ReaderAction::Hand(0, _)
    ));
    assert!(matches!(pool.reader_step(key, ReaderEvent::Idle), ReaderAction::Close));
    assert!(pool.try_reuse(server, &mut stats).is_none());

    let (key, id2) = acquire(&mut pool, server, 0, &mut stats).unwrap();
    assert_eq!((key, id2), (1, id));
    assert!(matches!(pool.reader_step(key, ReaderEvent::Failed), ReaderAction::Close));
    assert!(!pool.deliver(key, id2));

    let (key, _) = acquire(&mut pool, server, 0, &mut stats).unwrap();
    assert!(matches!(
        pool.reader_step(key, ReaderEvent::Length(0, 1)),
        ReaderAction::Close
    ));
    assert_eq!(pool.conn_count(), 1);
    assert!(pool.may_open(server));
    assert_eq!(pool.conn_count(), 0);
    pool.mark_used(key, 5);
    pool.write_failed(key, 0);
}

#[test]
fn attempts_end_after_the_second() {
    let mut pool = pool();
    let q = dns_message(1, 1);
    match after_attempt(0, pool.settle(0, 0, &q, Awaited::Closed)) {
        Next::TryAgain => {}
        _ => panic!("another attempt"),
    }
    match after_attempt(1, pool.settle(0, 0, &q, Awaited::Closed)) {
        Next::Fail(e) => assert_eq!(e.message(), "pooled DNS connection closed before reply"),
        _ => panic!("a failure"),
    }
    match after_attempt(0, pool.settle(0, 0, &q, Awaited::TimedOut)) {
        Next::Fail(e) => assert_eq!(e.message(), "pooled DNS query timed out"),
        _ => panic!("a failure"),
    }
    match after_attempt(1, Outcome::Retry(AttemptError::NotWritten)) {
        Next::Fail(e) => assert_eq!(e.message(), "failed to write DNS query"),
        _ => panic!("a failure"),
    }
    assert_eq!(
        AttemptError::NoConnection.message(),
        "failed to open pooled DNS connection"
    );
    assert!(!opens_new_connection(0));
    assert!(opens_new_connection(1));
}

#[test]
fn frames_carry_length_and_number() {
    let frame = frame_query(&dns_message(0xABCD, 9), 0x1234);
    assert_eq!(frame[0..4], [0, 13, 0x12, 0x34]);
    assert_eq!(frame[14], 9);
    assert_eq!(reply_id(&frame[2..]), 0x1234);
    assert_eq!(body_length(0, 0), None);
    assert_eq!(body_length(0, 1), None);
    assert_eq!(body_length(0, 2), Some(2));
    assert_eq!(body_length(255, 255), Some(65535));
}

#[test]
fn pool_keeps_its_timeouts() {
    let pool = pool();
    assert_eq!(pool.query_timeout(), Duration::from_secs(5));
    assert_eq!(pool.idle_timeout(), Duration::from_secs(30));
    assert_eq!(pool.proxy().addr, socket("127.0.0.1:1080"));
}
