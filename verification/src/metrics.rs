//! The counters in the text format that Prometheus reads.

use vstd::prelude::*;
use crate::stats;
use crate::stats::Stats;
use crate::text;

verus! {

/// One metric: its name, what it means, its kind and its value.
pub struct Metric {
    pub name: &'static str,
    pub help: &'static str,
    pub kind: &'static str,
    pub value: u64,
}

/// The three lines of a metric.
pub open spec fn metric_text(m: Metric) -> Seq<char> {
    "# HELP "@ + m.name@ + seq![' '] + m.help@ + seq!['\n'] + "# TYPE "@ + m.name@ + seq![' ']
        + m.kind@ + seq!['\n'] + m.name@ + seq![' '] + text::dec_text(m.value as nat) + seq!['\n']
}

pub open spec fn metrics_text(list: Seq<Metric>) -> Seq<char>
    decreases list.len(),
{
    if list.len() == 0 {
        Seq::empty()
    } else {
        metrics_text(list.drop_last()) + metric_text(list.last())
    }
}

pub open spec fn counter(name: &'static str, help: &'static str, value: u64) -> Metric {
    Metric { name, help, kind: "counter", value }
}

pub open spec fn gauge(name: &'static str, help: &'static str, value: u64) -> Metric {
    Metric { name, help, kind: "gauge", value }
}

/// All metrics, in the order in which they are written.
pub open spec fn all_metrics(s: Stats) -> Seq<Metric> {
    seq![
        counter("cortado_tcp_opened_total", "TCP connections opened", s.tcp_opened.value),
        counter("cortado_tcp_closed_total", "TCP connections closed", s.tcp_closed.value),
        counter("cortado_tcp_errors_total", "TCP relay errors", s.tcp_errors.value),
        counter("cortado_udp_packets_total", "UDP packets ingested", s.udp_packets.value),
        counter("cortado_udp_errors_total", "UDP relay errors", s.udp_errors.value),
        counter("cortado_bytes_tx_total", "Bytes sent to proxy", s.bytes_tx.value),
        counter("cortado_bytes_rx_total", "Bytes received from proxy", s.bytes_rx.value),
        counter(
            "cortado_bytes_ipv4_total",
            "Bytes relayed for IPv4 destinations",
            s.bytes_v4.value,
        ),
        counter(
            "cortado_bytes_ipv6_total",
            "Bytes relayed for IPv6 destinations",
            s.bytes_v6.value,
        ),
        counter("cortado_dns_requests_total", "DNS requests handled", s.dns_requests.value),
        counter("cortado_dns_failures_total", "DNS requests that failed", s.dns_failures.value),
        counter(
            "cortado_dns_pool_hits_total",
            "DNS queries served by a reused connection",
            s.dns_pool_hits.value,
        ),
        counter(
            "cortado_dns_pool_misses_total",
            "DNS queries that opened a new connection",
            s.dns_pool_misses.value,
        ),
        counter("cortado_route_direct_total", "Flows classified as direct", s.route_direct.value),
        counter("cortado_route_proxy_total", "Flows classified as proxied", s.route_proxy.value),
        counter(
            "cortado_conn_failures_total",
            "Outbound connection failures",
            s.conn_failures.value,
        ),
        counter(
            "cortado_socks_handshake_failures_total",
            "SOCKS5 handshake failures",
            s.socks_handshake_failures.value,
        ),
        counter(
            "cortado_config_reloads_total",
            "Configuration reloads applied",
            s.config_reloads.value,
        ),
        gauge("cortado_tcp_sessions_active", "Active TCP sessions", s.tcp_active.value),
        gauge("cortado_udp_sessions_active", "Active UDP sessions", s.udp_active.value),
    ]
}

fn push_counter(list: &mut Vec<Metric>, name: &'static str, help: &'static str, value: u64)
    ensures
        final(list)@ == old(list)@.push(counter(name, help, value)),
{
    list.push(Metric { name, help, kind: "counter", value });
}

fn push_gauge(list: &mut Vec<Metric>, name: &'static str, help: &'static str, value: u64)
    ensures
        final(list)@ == old(list)@.push(gauge(name, help, value)),
{
    list.push(Metric { name, help, kind: "gauge", value });
}

fn list_metrics(s: &Stats) -> (r: Vec<Metric>)
    ensures
        r@ == all_metrics(*s),
{
    let mut m: Vec<Metric> = Vec::new();
    push_counter(&mut m, "cortado_tcp_opened_total", "TCP connections opened", stats::get(&s.tcp_opened));
    push_counter(&mut m, "cortado_tcp_closed_total", "TCP connections closed", stats::get(&s.tcp_closed));
    push_counter(&mut m, "cortado_tcp_errors_total", "TCP relay errors", stats::get(&s.tcp_errors));
    push_counter(&mut m, "cortado_udp_packets_total", "UDP packets ingested", stats::get(&s.udp_packets));
    push_counter(&mut m, "cortado_udp_errors_total", "UDP relay errors", stats::get(&s.udp_errors));
    push_counter(&mut m, "cortado_bytes_tx_total", "Bytes sent to proxy", stats::get(&s.bytes_tx));
    push_counter(&mut m, "cortado_bytes_rx_total", "Bytes received from proxy", stats::get(&s.bytes_rx));
    push_counter(
        &mut m,
        "cortado_bytes_ipv4_total",
        "Bytes relayed for IPv4 destinations",
        stats::get(&s.bytes_v4),
    );
    push_counter(
        &mut m,
        "cortado_bytes_ipv6_total",
        "Bytes relayed for IPv6 destinations",
        stats::get(&s.bytes_v6),
    );
    push_counter(&mut m, "cortado_dns_requests_total", "DNS requests handled", stats::get(&s.dns_requests));
    push_counter(&mut m, "cortado_dns_failures_total", "DNS requests that failed", stats::get(&s.dns_failures));
    push_counter(
        &mut m,
        "cortado_dns_pool_hits_total",
        "DNS queries served by a reused connection",
        stats::get(&s.dns_pool_hits),
    );
    push_counter(
        &mut m,
        "cortado_dns_pool_misses_total",
        "DNS queries that opened a new connection",
        stats::get(&s.dns_pool_misses),
    );
    push_counter(&mut m, "cortado_route_direct_total", "Flows classified as direct", stats::get(&s.route_direct));
    push_counter(&mut m, "cortado_route_proxy_total", "Flows classified as proxied", stats::get(&s.route_proxy));
    push_counter(
        &mut m,
        "cortado_conn_failures_total",
        "Outbound connection failures",
        stats::get(&s.conn_failures),
    );
    push_counter(
        &mut m,
        "cortado_socks_handshake_failures_total",
        "SOCKS5 handshake failures",
        stats::get(&s.socks_handshake_failures),
    );
    push_counter(
        &mut m,
        "cortado_config_reloads_total",
        "Configuration reloads applied",
        stats::get(&s.config_reloads),
    );
    push_gauge(&mut m, "cortado_tcp_sessions_active", "Active TCP sessions", stats::get(&s.tcp_active));
    push_gauge(&mut m, "cortado_udp_sessions_active", "Active UDP sessions", stats::get(&s.udp_active));
    assert(m@ =~= all_metrics(*s));
    m
}

fn metric(out: &mut String, m: &Metric)
    ensures
        final(out)@ == old(out)@ + metric_text(*m),
{
    let ghost before = out@;
    text::push_text(out, "# HELP ");
    text::push_text(out, m.name);
    out.push(' ');
    text::push_text(out, m.help);
    out.push('\n');
    text::push_text(out, "# TYPE ");
    text::push_text(out, m.name);
    out.push(' ');
    text::push_text(out, m.kind);
    out.push('\n');
    text::push_text(out, m.name);
    out.push(' ');
    text::push_decimal(out, m.value);
    out.push('\n');
    assert(out@ =~= before + metric_text(*m));
}

/// All metrics with their values.
pub fn render(stats: &Stats) -> (r: String)
    ensures
        r@ == metrics_text(all_metrics(*stats)),
{
    let list = list_metrics(stats);
    let mut out = String::new();
    for i in 0..list.len()
        invariant
            out@ == metrics_text(list@.take(i as int)),
    {
        metric(&mut out, &list[i]);
        assert(list@.take(i + 1).drop_last() =~= list@.take(i as int));
    }
    assert(list@.take(list@.len() as int) =~= list@);
    out
}

/// The reply to a scrape: the header fields with the length of the body in
/// octets, and the body.
pub open spec fn response_text(body: Seq<char>) -> Seq<char> {
    "HTTP/1.1 200 OK\r\nContent-Type: text/plain; version=0.0.4\r\nContent-Length: "@
        + text::dec_text(vstd::utf8::encode_utf8(body).len())
        + "\r\nConnection: close\r\n\r\n"@ + body
}

pub fn response(body: &str) -> (r: String)
    ensures
        r@ == response_text(body@),
{
    let mut out = String::new();
    text::push_text(
        &mut out,
        "HTTP/1.1 200 OK\r\nContent-Type: text/plain; version=0.0.4\r\nContent-Length: ",
    );
    text::push_decimal(&mut out, body.as_bytes().len() as u64);
    text::push_text(&mut out, "\r\nConnection: close\r\n\r\n");
    text::push_text(&mut out, body);
    assert(out@ =~= response_text(body@));
    out
}

/// What a client of the endpoint gets.
pub fn reply(stats: &Stats) -> (r: String)
    ensures
        r@ == response_text(metrics_text(all_metrics(*stats))),
{
    let body = render(stats);
    response(body.as_str())
}

proof fn lemma_metrics_text_holds(list: Seq<Metric>, i: int)
    requires
        0 <= i < list.len(),
    ensures
        text::contains(metrics_text(list), metric_text(list[i])),
    decreases list.len(),
{
    let init = metrics_text(list.drop_last());
    let last = metric_text(list.last());
    let whole = metrics_text(list);
    if i == list.len() - 1 {
        assert(whole.subrange(init.len() as int, (init.len() + last.len()) as int) =~= last);
        assert(text::occurs_at(whole, last, init.len() as int));
    } else {
        lemma_metrics_text_holds(list.drop_last(), i);
        let p = metric_text(list[i]);
        let k = choose|k: int| #[trigger] text::occurs_at(init, p, k);
        assert(whole.subrange(k, k + p.len()) =~= init.subrange(k, k + p.len()));
        assert(text::occurs_at(whole, p, k));
    }
}

/// Whatever was counted, each metric stands in the text with its name, its
/// kind and its current value.
pub proof fn lemma_render_holds_every_metric(stats: Stats, i: int)
    requires
        0 <= i < all_metrics(stats).len(),
    ensures
        text::contains(metrics_text(all_metrics(stats)), metric_text(all_metrics(stats)[i])),
{
    lemma_metrics_text_holds(all_metrics(stats), i);
}

/// Whether a metric of this kind stands in a text under its name, with its value.
pub open spec fn shows(s: Seq<char>, name: &'static str, kind: &'static str, value: u64) -> bool {
    text::contains(
        s,
        "# TYPE "@ + name@ + seq![' '] + kind@ + seq!['\n'] + name@ + seq![' '] + text::dec_text(
            value as nat,
        ) + seq!['\n'],
    )
}

proof fn lemma_contains_part(s: Seq<char>, whole: Seq<char>, part: Seq<char>)
    requires
        text::contains(s, whole),
        text::contains(whole, part),
    ensures
        text::contains(s, part),
{
    let i = choose|i: int| text::occurs_at(s, whole, i);
    let j = choose|j: int| text::occurs_at(whole, part, j);
    assert(s.subrange(i + j, i + j + part.len()) =~= s.subrange(i, i + whole.len()).subrange(
        j,
        j + part.len(),
    ));
    assert(text::occurs_at(s, part, i + j));
}

proof fn lemma_shown(s: Stats, i: int)
    requires
        0 <= i < all_metrics(s).len(),
    ensures
        ({
            let m = all_metrics(s)[i];
            shows(metrics_text(all_metrics(s)), m.name, m.kind, m.value)
        }),
{
    let m = all_metrics(s)[i];
    let head = "# HELP "@ + m.name@ + seq![' '] + m.help@ + seq!['\n'];
    let part = "# TYPE "@ + m.name@ + seq![' '] + m.kind@ + seq!['\n'] + m.name@ + seq![' ']
        + text::dec_text(m.value as nat) + seq!['\n'];
    let whole = metric_text(m);
    assert(whole =~= head + part);
    assert(whole.subrange(head.len() as int, (head.len() + part.len()) as int) =~= part);
    assert(text::occurs_at(whole, part, head.len() as int));
    lemma_render_holds_every_metric(s, i);
    lemma_contains_part(metrics_text(all_metrics(s)), whole, part);
}

/// Each of the twenty counts is shown under its own name and with its own value:
/// what only goes up as a counter, and what is open at the moment as a gauge.
pub proof fn lemma_each_count_is_shown_under_its_name(s: Stats)
    ensures
        ({
            let t = metrics_text(all_metrics(s));
            &&& all_metrics(s).len() == 20
            &&& shows(t, "cortado_tcp_opened_total", "counter", s.tcp_opened.value)
            &&& shows(t, "cortado_tcp_closed_total", "counter", s.tcp_closed.value)
            &&& shows(t, "cortado_tcp_errors_total", "counter", s.tcp_errors.value)
            &&& shows(t, "cortado_udp_packets_total", "counter", s.udp_packets.value)
            &&& shows(t, "cortado_udp_errors_total", "counter", s.udp_errors.value)
            &&& shows(t, "cortado_bytes_tx_total", "counter", s.bytes_tx.value)
            &&& shows(t, "cortado_bytes_rx_total", "counter", s.bytes_rx.value)
            &&& shows(t, "cortado_bytes_ipv4_total", "counter", s.bytes_v4.value)
            &&& shows(t, "cortado_bytes_ipv6_total", "counter", s.bytes_v6.value)
            &&& shows(t, "cortado_dns_requests_total", "counter", s.dns_requests.value)
            &&& shows(t, "cortado_dns_failures_total", "counter", s.dns_failures.value)
            &&& shows(t, "cortado_dns_pool_hits_total", "counter", s.dns_pool_hits.value)
            &&& shows(t, "cortado_dns_pool_misses_total", "counter", s.dns_pool_misses.value)
            &&& shows(t, "cortado_route_direct_total", "counter", s.route_direct.value)
            &&& shows(t, "cortado_route_proxy_total", "counter", s.route_proxy.value)
            &&& shows(t, "cortado_conn_failures_total", "counter", s.conn_failures.value)
            &&& shows(
                t,
                "cortado_socks_handshake_failures_total",
                "counter",
                s.socks_handshake_failures.value,
            )
            &&& shows(t, "cortado_config_reloads_total", "counter", s.config_reloads.value)
            &&& shows(t, "cortado_tcp_sessions_active", "gauge", s.tcp_active.value)
            &&& shows(t, "cortado_udp_sessions_active", "gauge", s.udp_active.value)
        }),
{
    lemma_shown(s, 0);
    lemma_shown(s, 1);
    lemma_shown(s, 2);
    lemma_shown(s, 3);
    lemma_shown(s, 4);
    lemma_shown(s, 5);
    lemma_shown(s, 6);
    lemma_shown(s, 7);
    lemma_shown(s, 8);
    lemma_shown(s, 9);
    lemma_shown(s, 10);
    lemma_shown(s, 11);
    lemma_shown(s, 12);
    lemma_shown(s, 13);
    lemma_shown(s, 14);
    lemma_shown(s, 15);
    lemma_shown(s, 16);
    lemma_shown(s, 17);
    lemma_shown(s, 18);
    lemma_shown(s, 19);
}

/// A reply to a scrape says that all is well and how many octets follow, and the
/// body stands behind an empty line, as it is and to the end.
pub proof fn lemma_response_carries_the_body(body: Seq<char>)
    ensures
        exists|head: Seq<char>| {
            &&& response_text(body) == #[trigger] (head + "\r\n\r\n"@) + body
            &&& text::starts_with(head, "HTTP/1.1 200 OK\r\n"@)
            &&& text::contains(
                head,
                "\r\nContent-Length: "@ + text::dec_text(vstd::utf8::encode_utf8(body).len())
                    + "\r\n"@,
            )
        },
{
    let n = text::dec_text(vstd::utf8::encode_utf8(body).len());
    let a = "HTTP/1.1 200 OK\r\nContent-Type: text/plain; version=0.0.4\r\nContent-Length: "@;
    let head = a + n + "\r\nConnection: close"@;
    reveal_strlit(
        "HTTP/1.1 200 OK\r\nContent-Type: text/plain; version=0.0.4\r\nContent-Length: ",
    );
    reveal_strlit("\r\nConnection: close\r\n\r\n");
    reveal_strlit("\r\nConnection: close");
    reveal_strlit("\r\n\r\n");
    reveal_strlit("\r\n");
    reveal_strlit("HTTP/1.1 200 OK\r\n");
    reveal_strlit("\r\nContent-Length: ");
    assert("\r\nConnection: close\r\n\r\n"@ =~= "\r\nConnection: close"@ + "\r\n\r\n"@);
    assert(response_text(body) =~= (head + "\r\n\r\n"@) + body);
    assert(head.take("HTTP/1.1 200 OK\r\n"@.len() as int) =~= "HTTP/1.1 200 OK\r\n"@);
    let part = "\r\nContent-Length: "@ + n + "\r\n"@;
    let k = a.len() - "\r\nContent-Length: "@.len();
    assert(head.subrange(k, k + part.len()) =~= part);
    assert(text::occurs_at(head, part, k));
}

} // verus!
