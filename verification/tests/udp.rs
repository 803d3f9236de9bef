use cortado::addr::{parse_ip, parse_socket, SocketAddr};
use cortado::socks::{decode_udp, encode_udp};
use cortado::stats::Stats;
use cortado::time::Duration;
use cortado::udp::{
    goes_to_dns, local_address, on_query, on_query_failed, on_refused, on_reply_written,
    on_session_end, session_step, PacketAction, SessionAction, SessionEvent, Sessions, UdpOptions,
};

fn socket(s: &str) -> SocketAddr {
    parse_socket(s).unwrap()
}

fn options(max_sessions: usize, dns_over_tcp: bool) -> UdpOptions {
    UdpOptions {
        idle_timeout: Duration::from_secs(60),
        max_sessions,
        dns_over_tcp,
    }
}

#[test]
fn sessions_open_up_to_their_limit() {
    let mut sessions = Sessions::new();
    let mut stats = Stats::new();
    let opts = options(2, true);
    let dst = socket("93.184.216.34:443");
    let a = socket("10.0.0.1:1000");
    let b = socket("10.0.0.1:1001");
    let c = socket("10.0.0.1:1002");
    let mut packet = |sessions: &mut Sessions, src: SocketAddr, live: bool| {
        sessions.on_packet(&mut stats, &opts, src, dst, 10, live, true)
    };
    assert_eq!(packet(&mut sessions, a, false), PacketAction::OpenAndForward);
    assert_eq!(packet(&mut sessions, b, false), PacketAction::OpenAndForward);
    assert_eq!(packet(&mut sessions, a, true), PacketAction::Forward);
    assert_eq!(packet(&mut sessions, c, false), PacketAction::DropPacket);
    assert_eq!(sessions.len(), 2);
    assert!(sessions.contains(a));
    assert!(!sessions.contains(c));

    sessions.session_done(a, false);
    assert_eq!(sessions.len(), 2);
    sessions.session_done(a, true);
    assert_eq!(sessions.len(), 1);
    assert!(!sessions.contains(a));
    assert!(sessions.contains(b));
    assert_eq!(packet(&mut sessions, c, false), PacketAction::OpenAndForward);
    assert_eq!(stats.udp_packets.value, 5);
    assert_eq!(stats.udp_errors.value, 1);
    assert_eq!(stats.bytes_tx.value, 50);
    assert_eq!(stats.bytes_v4.value, 50);
    assert_eq!(stats.bytes_v6.value, 0);
}

#[test]
fn dead_session_is_dropped_at_the_limit() {
    let mut sessions = Sessions::new();
    let mut stats = Stats::new();
    let opts = options(1, true);
    let dst = socket("93.184.216.34:443");
    let a = socket("10.0.0.1:1000");
    assert_eq!(
        sessions.on_packet(&mut stats, &opts, a, dst, 1, false, true),
        PacketAction::OpenAndForward
    );
    assert_eq!(
        sessions.on_packet(&mut stats, &opts, a, dst, 1, false, true),
        PacketAction::DropPacket
    );
    assert_eq!(sessions.len(), 1);
}

#[test]
fn a_source_has_one_session() {
    let mut sessions = Sessions::new();
    let mut stats = Stats::new();
    let opts = options(8, true);
    let dst = socket("93.184.216.34:443");
    let a = socket("10.0.0.1:1000");
    for _ in 0..3 {
        assert_eq!(
            sessions.on_packet(&mut stats, &opts, a, dst, 1, false, true),
            PacketAction::OpenAndForward
        );
    }
    assert_eq!(sessions.len(), 1);
}

#[test]
fn name_queries_go_over_tcp_where_asked() {
    let mut sessions = Sessions::new();
    let mut stats = Stats::new();
    let src = socket("10.0.0.1:1000");
    let dst = socket("[2606:4700:4700::1111]:53");
    assert!(goes_to_dns(&options(1, true), dst));
    assert!(!goes_to_dns(&options(1, false), dst));
    assert!(!goes_to_dns(&options(1, true), socket("1.1.1.1:54")));
    assert_eq!(
        sessions.on_packet(&mut stats, &options(0, true), src, dst, 30, false, true),
        PacketAction::Resolve
    );
    assert_eq!(
        sessions.on_packet(&mut stats, &options(0, true), src, dst, 30, false, false),
        PacketAction::DropQuery
    );
    assert_eq!(stats.udp_packets.value, 2);
    assert_eq!(stats.udp_errors.value, 1);
    assert_eq!(stats.dns_failures.value, 1);
    assert_eq!(stats.bytes_v6.value, 60);
    assert_eq!(
        sessions.on_packet(&mut stats, &options(1, false), src, dst, 30, false, false),
        PacketAction::OpenAndForward
    );
}

#[test]
fn datagrams_are_counted() {
    let mut stats = Stats::new();
    on_refused(&mut stats);
    on_query(&mut stats);
    on_query_failed(&mut stats);
    on_session_end(&mut stats, false);
    on_session_end(&mut stats, true);
    on_reply_written(&mut stats, parse_ip("::1").unwrap(), 7);
    assert_eq!(stats.udp_errors.value, 3);
    assert_eq!(stats.dns_requests.value, 1);
    assert_eq!(stats.dns_failures.value, 1);
    assert_eq!(stats.bytes_rx.value, 7);
    assert_eq!(stats.bytes_v6.value, 7);
    assert_eq!(stats.bytes_v4.value, 0);
}

#[test]
fn local_address_follows_the_relay() {
    assert_eq!(local_address(socket("127.0.0.1:9")), socket("0.0.0.0:0"));
    assert_eq!(local_address(socket("[::1]:9")), socket("[::]:0"));
}

fn told(action: SessionAction) -> String {
    match action {
        SessionAction::SendToRelay(b) => format!("send {b:?}"),
        SessionAction::Reply(a, b) => format!("reply {} {b:?}", a.to_text()),
        SessionAction::Wait => "wait".to_string(),
        SessionAction::End => "end".to_string(),
        SessionAction::Fail(e) => e.to_string(),
    }
}

#[test]
fn session_relays_datagrams_both_ways() {
    let dst = socket("8.8.8.8:53");
    let framed = match session_step(SessionEvent::Outbound(dst, b"ping".to_vec())) {
        SessionAction::SendToRelay(b) => b,
        _ => panic!("a datagram for the relay"),
    };
    assert_eq!(decode_udp(&framed), Some((dst, &b"ping"[..])));
    let mut back = Vec::new();
    encode_udp(dst, b"pong", &mut back);
    assert_eq!(
        told(session_step(SessionEvent::Inbound(back))),
        format!("reply 8.8.8.8:53 {:?}", b"pong".to_vec())
    );
    assert_eq!(
        told(session_step(SessionEvent::Inbound(vec![0, 0, 1]))),
        "wait"
    );
}

#[test]
fn session_ends_in_order_or_with_a_fault() {
    assert_eq!(told(session_step(SessionEvent::OutboundClosed)), "end");
    assert_eq!(told(session_step(SessionEvent::ReplyRefused)), "end");
    assert_eq!(told(session_step(SessionEvent::Control(0))), "end");
    assert_eq!(told(session_step(SessionEvent::Control(3))), "wait");
    assert_eq!(told(session_step(SessionEvent::Idle)), "end");
    assert_eq!(
        told(session_step(SessionEvent::SendFailed)),
        "failed to send datagram to relay"
    );
    assert_eq!(
        told(session_step(SessionEvent::ReceiveFailed)),
        "failed to receive datagram from relay"
    );
    assert_eq!(
        told(session_step(SessionEvent::ControlFailed)),
        "SOCKS5 control connection error"
    );
}

#[test]
fn closing_an_unknown_source_changes_nothing() {
    let mut sessions = Sessions::new();
    let mut stats = Stats::new();
    let a = socket("10.0.0.1:1000");
    let b = socket("10.0.0.1:1001");
    let dst = socket("93.184.216.34:443");
    sessions.on_packet(&mut stats, &options(8, true), a, dst, 1, false, true);
    sessions.session_done(b, true);
    assert_eq!(sessions.len(), 1);
    sessions.session_done(a, true);
    sessions.session_done(a, true);
    assert_eq!(sessions.len(), 0);
}
