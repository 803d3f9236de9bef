//! Buffer sizes and limits, from what the host can sustain.

use vstd::prelude::*;
use crate::scan;
use crate::text;
use crate::time::Duration;

verus! {

pub const FALLBACK_MTU: u32 = 1500;
pub const MIN_MTU: u32 = 576;
pub const MAX_MTU: u32 = 65535;

pub const DEFAULT_MEMORY: u64 = 0x8000_0000;
pub const DEFAULT_FD_LIMIT: u64 = 1024;

pub const RELAY_BUF_PER_MTU: usize = 176;
pub const RELAY_BUF_MIN: usize = 131_072;
pub const RELAY_BUF_MAX: usize = 4_194_304;

pub const COPY_BUF_PER_MTU: usize = 16;
pub const COPY_BUF_MIN: usize = 32_768;
pub const COPY_BUF_MAX: usize = 262_144;

pub const STACK_BUF_MIN: usize = 512;
pub const STACK_BUF_MAX: usize = 4096;
pub const STACK_BUF_PER_BYTES: u64 = 2_097_152;

pub const FD_RESERVE: u64 = 64;
pub const FDS_PER_CONN: u64 = 2;
pub const MEM_FRACTION_FOR_RELAY: u64 = 4;

pub const TCP_CONN_MIN: usize = 128;
pub const TCP_CONN_MAX: usize = 65536;
pub const UDP_PER_TCP: usize = 4;
pub const UDP_SESSION_MIN: usize = 64;
pub const UDP_SESSION_MAX: usize = 16384;

pub const UDP_IDLE_TIMEOUT_NANOS: u64 = 60_000_000_000;

/// What was found out about the host.
#[derive(Clone, Copy, PartialEq, Eq, Debug, Structural)]
pub struct SystemProbe {
    pub link_mtu: Option<u32>,
    pub has_ipv6_gateway: bool,
    pub total_memory_bytes: Option<u64>,
    pub fd_limit: Option<u64>,
}

/// The sizes and limits in force.
#[derive(Clone, Copy, PartialEq, Eq, Debug, Structural)]
pub struct Tuning {
    pub mtu: u32,
    pub relay_buf_size: usize,
    pub relay_copy_buf_size: usize,
    pub stack_buf_size: usize,
    pub udp_idle_timeout: Duration,
    pub max_tcp_connections: usize,
    pub max_udp_sessions: usize,
    pub capture_ipv6: bool,
}

/// `x` kept between two bounds.
pub open spec fn clamp(x: int, low: int, high: int) -> int {
    if x < low {
        low
    } else if x > high {
        high
    } else {
        x
    }
}

pub open spec fn at_least_one(x: int) -> int {
    if x < 1 {
        1
    } else {
        x
    }
}

impl SystemProbe {
    pub open spec fn mtu(self) -> int {
        clamp(
            match self.link_mtu {
                Some(m) => m as int,
                None => FALLBACK_MTU as int,
            },
            MIN_MTU as int,
            MAX_MTU as int,
        )
    }

    pub open spec fn memory(self) -> int {
        match self.total_memory_bytes {
            Some(m) => m as int,
            None => DEFAULT_MEMORY as int,
        }
    }

    pub open spec fn fds(self) -> int {
        match self.fd_limit {
            Some(n) => n as int,
            None => DEFAULT_FD_LIMIT as int,
        }
    }

    /// The receive and send buffer of a relayed connection.
    pub open spec fn relay_buf(self) -> int {
        clamp(self.mtu() * RELAY_BUF_PER_MTU, RELAY_BUF_MIN as int, RELAY_BUF_MAX as int)
    }

    /// The buffer that data is copied through.
    pub open spec fn copy_buf(self) -> int {
        clamp(self.mtu() * COPY_BUF_PER_MTU, COPY_BUF_MIN as int, COPY_BUF_MAX as int)
    }

    pub open spec fn stack_buf(self) -> int {
        clamp(self.memory() / STACK_BUF_PER_BYTES as int, STACK_BUF_MIN as int, STACK_BUF_MAX as int)
    }

    /// The memory that one relayed connection takes.
    pub open spec fn per_connection(self) -> int {
        2 * self.relay_buf() + self.copy_buf()
    }

    /// How many connections a quarter of the memory holds.
    pub open spec fn memory_connections(self) -> int {
        at_least_one(self.memory() / MEM_FRACTION_FOR_RELAY as int / self.per_connection())
    }

    /// How many connections the descriptors allow, each with two of them, and
    /// some kept in reserve.
    pub open spec fn fd_connections(self) -> int {
        at_least_one(
            (if self.fds() < FD_RESERVE {
                0
            } else {
                self.fds() - FD_RESERVE
            }) / FDS_PER_CONN as int,
        )
    }

    pub open spec fn tcp_connections(self) -> int {
        clamp(
            if self.memory_connections() < self.fd_connections() {
                self.memory_connections()
            } else {
                self.fd_connections()
            },
            TCP_CONN_MIN as int,
            TCP_CONN_MAX as int,
        )
    }

    pub open spec fn udp_sessions(self) -> int {
        clamp(self.tcp_connections() / UDP_PER_TCP as int, UDP_SESSION_MIN as int, UDP_SESSION_MAX as int)
    }
}

fn clamp_u64(x: u64, low: u64, high: u64) -> (r: u64)
    ensures
        r == clamp(x as int, low as int, high as int),
{
    if x < low {
        low
    } else if x > high {
        high
    } else {
        x
    }
}

impl Tuning {
    /// Whether these are the sizes and limits for what was found out.
    pub open spec fn fits(self, probe: SystemProbe) -> bool {
        &&& self.mtu == probe.mtu()
        &&& self.relay_buf_size == probe.relay_buf()
        &&& self.relay_copy_buf_size == probe.copy_buf()
        &&& self.stack_buf_size == probe.stack_buf()
        &&& self.udp_idle_timeout.nanos == UDP_IDLE_TIMEOUT_NANOS
        &&& self.max_tcp_connections == probe.tcp_connections()
        &&& self.max_udp_sessions == probe.udp_sessions()
        &&& self.capture_ipv6 == probe.has_ipv6_gateway
    }

    pub fn compute(probe: &SystemProbe) -> (r: Tuning)
        ensures
            r.fits(*probe),
    {
        let mtu = clamp_u64(
            match probe.link_mtu {
                Some(m) => m as u64,
                None => FALLBACK_MTU as u64,
            },
            MIN_MTU as u64,
            MAX_MTU as u64,
        );
        let memory: u64 = match probe.total_memory_bytes {
            Some(m) => m,
            None => DEFAULT_MEMORY,
        };
        let fds: u64 = match probe.fd_limit {
            Some(n) => n,
            None => DEFAULT_FD_LIMIT,
        };
        let relay = clamp_u64(
            mtu * RELAY_BUF_PER_MTU as u64,
            RELAY_BUF_MIN as u64,
            RELAY_BUF_MAX as u64,
        );
        let copy = clamp_u64(
            mtu * COPY_BUF_PER_MTU as u64,
            COPY_BUF_MIN as u64,
            COPY_BUF_MAX as u64,
        );
        let stack = clamp_u64(
            memory / STACK_BUF_PER_BYTES,
            STACK_BUF_MIN as u64,
            STACK_BUF_MAX as u64,
        );
        let per_conn: u64 = 2 * relay + copy;
        let by_memory: u64 = memory / MEM_FRACTION_FOR_RELAY / per_conn;
        let mem_conns: u64 = if by_memory < 1 {
            1
        } else {
            by_memory
        };
        let by_fds: u64 = fds.saturating_sub(FD_RESERVE) / FDS_PER_CONN;
        let fd_conns: u64 = if by_fds < 1 {
            1
        } else {
            by_fds
        };
        let least: u64 = if mem_conns < fd_conns {
            mem_conns
        } else {
            fd_conns
        };
        let tcp = clamp_u64(least, TCP_CONN_MIN as u64, TCP_CONN_MAX as u64);
        let udp = clamp_u64(
            tcp / UDP_PER_TCP as u64,
            UDP_SESSION_MIN as u64,
            UDP_SESSION_MAX as u64,
        );
        Tuning {
            mtu: mtu as u32,
            relay_buf_size: relay as usize,
            relay_copy_buf_size: copy as usize,
            stack_buf_size: stack as usize,
            udp_idle_timeout: Duration { nanos: UDP_IDLE_TIMEOUT_NANOS },
            max_tcp_connections: tcp as usize,
            max_udp_sessions: udp as usize,
            capture_ipv6: probe.has_ipv6_gateway,
        }
    }

    pub open spec fn text(self) -> Seq<char> {
        "auto-tuned: mtu="@ + text::dec_text(self.mtu as nat) + " relay_buf="@ + text::dec_text(
            self.relay_buf_size as nat,
        ) + " copy_buf="@ + text::dec_text(self.relay_copy_buf_size as nat) + " stack_depth="@
            + text::dec_text(self.stack_buf_size as nat) + " max_tcp="@ + text::dec_text(
            self.max_tcp_connections as nat,
        ) + " max_udp="@ + text::dec_text(self.max_udp_sessions as nat) + " udp_idle="@
            + text::dec_text((self.udp_idle_timeout.nanos / 1_000_000_000) as nat)
            + "s capture_ipv6="@ + (if self.capture_ipv6 {
            "true"@
        } else {
            "false"@
        })
    }

    /// The sizes and limits in words.
    pub fn summary(&self) -> (r: String)
        ensures
            r@ == self.text(),
    {
        let mut out = String::new();
        text::push_text(&mut out, "auto-tuned: mtu=");
        text::push_decimal(&mut out, self.mtu as u64);
        text::push_text(&mut out, " relay_buf=");
        text::push_decimal(&mut out, self.relay_buf_size as u64);
        text::push_text(&mut out, " copy_buf=");
        text::push_decimal(&mut out, self.relay_copy_buf_size as u64);
        text::push_text(&mut out, " stack_depth=");
        text::push_decimal(&mut out, self.stack_buf_size as u64);
        text::push_text(&mut out, " max_tcp=");
        text::push_decimal(&mut out, self.max_tcp_connections as u64);
        text::push_text(&mut out, " max_udp=");
        text::push_decimal(&mut out, self.max_udp_sessions as u64);
        text::push_text(&mut out, " udp_idle=");
        text::push_decimal(&mut out, self.udp_idle_timeout.as_secs());
        text::push_text(&mut out, "s capture_ipv6=");
        if self.capture_ipv6 {
            text::push_text(&mut out, "true");
        } else {
            text::push_text(&mut out, "false");
        }
        assert(out@ =~= self.text());
        out
    }
}

/// Every size and every limit lies between its bounds, whatever the host is.
pub proof fn lemma_tuning_is_bounded(t: Tuning, probe: SystemProbe)
    requires
        t.fits(probe),
    ensures
        MIN_MTU <= t.mtu <= MAX_MTU,
        RELAY_BUF_MIN <= t.relay_buf_size <= RELAY_BUF_MAX,
        COPY_BUF_MIN <= t.relay_copy_buf_size <= COPY_BUF_MAX,
        STACK_BUF_MIN <= t.stack_buf_size <= STACK_BUF_MAX,
        TCP_CONN_MIN <= t.max_tcp_connections <= TCP_CONN_MAX,
        UDP_SESSION_MIN <= t.max_udp_sessions <= UDP_SESSION_MAX,
{
}

/// Above the least number of connections, the buffers of all of them fit into
/// a quarter of the memory, and their descriptors leave the reserve free.
pub proof fn lemma_connections_are_sustainable(t: Tuning, probe: SystemProbe)
    requires
        t.fits(probe),
        t.max_tcp_connections > TCP_CONN_MIN,
    ensures
        t.max_tcp_connections * (2 * t.relay_buf_size + t.relay_copy_buf_size) <= probe.memory() / 4,
        t.max_tcp_connections * FDS_PER_CONN + FD_RESERVE <= probe.fds(),
{
    let m = probe.memory() / 4;
    let p = probe.per_connection();
    let n = t.max_tcp_connections as int;
    assert(n <= m / p);
    vstd::arithmetic::div_mod::lemma_fundamental_div_mod(m, p);
    vstd::arithmetic::div_mod::lemma_mod_bound(m, p);
    assert(n * p <= m) by (nonlinear_arith)
        requires
            n <= m / p,
            p > 0,
            m == p * (m / p) + m % p,
            m % p >= 0,
    ;
}

/// A larger unit on the link never makes a buffer smaller.
pub proof fn lemma_larger_mtu_keeps_buffers(a: SystemProbe, b: SystemProbe)
    requires
        a.mtu() <= b.mtu(),
    ensures
        a.relay_buf() <= b.relay_buf(),
        a.copy_buf() <= b.copy_buf(),
{
}

/// More memory or more descriptors on the same link never lower a limit.
pub proof fn lemma_more_resources_keep_limits(a: SystemProbe, b: SystemProbe)
    requires
        a.mtu() == b.mtu(),
        a.memory() <= b.memory(),
        a.fds() <= b.fds(),
    ensures
        a.stack_buf() <= b.stack_buf(),
        a.tcp_connections() <= b.tcp_connections(),
        a.udp_sessions() <= b.udp_sessions(),
{
    let p = a.per_connection();
    assert(p == b.per_connection());
    vstd::arithmetic::div_mod::lemma_div_is_ordered(a.memory() / 4, b.memory() / 4, p);
}

// ---------------------------------------------------------------------------
// What the host says
// ---------------------------------------------------------------------------
/// The line that tells how much memory there is, from the `i`-th line on.
pub open spec fn memory_line(lines: Seq<Seq<char>>, i: int) -> Option<Seq<char>>
    decreases lines.len() - i,
{
    if !(0 <= i < lines.len()) {
        None
    } else {
        match scan::after_prefix(lines[i], "MemTotal:"@) {
            Some(rest) => Some(rest),
            None => memory_line(lines, i + 1),
        }
    }
}

/// The total memory in bytes that `content`, in the format of
/// `/proc/meminfo`, tells: the first word of its first `MemTotal` line, in
/// units of 1024 bytes.
pub open spec fn memory_value(content: Seq<char>) -> Option<u64> {
    match memory_line(scan::lines(content), 0) {
        Some(rest) => if scan::words(rest).len() == 0 {
            None
        } else {
            match text::at_most(text::parse_unsigned(scan::words(rest)[0]), u64::MAX as nat) {
                Some(kb) => Some(
                    if kb * 1024 > u64::MAX {
                        u64::MAX
                    } else {
                        (kb * 1024) as u64
                    },
                ),
                None => None,
            }
        },
        None => None,
    }
}

fn first_word_in_kib(rest: &[char]) -> (r: Option<u64>)
    ensures
        r == (if scan::words(rest@).len() == 0 {
            None
        } else {
            match text::at_most(text::parse_unsigned(scan::words(rest@)[0]), u64::MAX as nat) {
                Some(kb) => Some(
                    if kb * 1024 > u64::MAX {
                        u64::MAX
                    } else {
                        (kb * 1024) as u64
                    },
                ),
                None => None,
            }
        }),
{
    let words = scan::split_words(rest);
    assert(scan::views(words@).len() == words@.len());
    if words.len() == 0 {
        return None;
    }
    assert(scan::views(words@)[0] == words@[0]@);
    match text::read_unsigned(words[0], u64::MAX) {
        Some(kb) => {
            if kb > u64::MAX / 1024 {
                Some(u64::MAX)
            } else {
                Some(kb * 1024)
            }
        },
        None => None,
    }
}

/// Reads the total memory out of the content of `/proc/meminfo`.
pub fn read_total_memory(content: &str) -> (r: Option<u64>)
    ensures
        r == memory_value(content@),
{
    let chars = text::chars_of(content);
    let lines = scan::split_lines(chars.as_slice());
    assert(scan::views(lines@).len() == lines@.len());
    for i in 0..lines.len()
        invariant
            scan::views(lines@) == scan::lines(content@),
            scan::views(lines@).len() == lines@.len(),
            memory_line(scan::lines(content@), 0) == memory_line(
                scan::lines(content@),
                i as int,
            ),
    {
        assert(scan::views(lines@)[i as int] == lines@[i as int]@);
        match scan::strip_prefix(lines[i], "MemTotal:") {
            Some(rest) => {
                return first_word_in_kib(rest);
            },
            None => {},
        }
    }
    None
}

/// The limit on open files to ask for: the hard limit, where the soft one is
/// below it.
pub open spec fn wanted_limit(current: Option<u64>, maximum: Option<u64>) -> Option<u64> {
    match (current, maximum) {
        (Some(c), Some(m)) => if c < m {
            Some(m)
        } else {
            None
        },
        _ => None,
    }
}

/// The limit on open files to ask for: the hard limit, where the soft one is
/// below it.
pub fn fd_limit_to_request(current: Option<u64>, maximum: Option<u64>) -> (r: Option<u64>)
    ensures
        r == wanted_limit(current, maximum),
{
    match (current, maximum) {
        (Some(c), Some(m)) => {
            if c < m {
                Some(m)
            } else {
                None
            }
        },
        _ => None,
    }
}

/// The limit on open files after a request for it was granted or not.
pub open spec fn limit_in_force(
    current: Option<u64>,
    requested: Option<u64>,
    granted: bool,
) -> Option<u64> {
    if requested is Some && granted {
        requested
    } else {
        current
    }
}

/// The limit on open files after a request for it was granted or not.
pub fn fd_limit_after_request(current: Option<u64>, requested: Option<u64>, granted: bool) -> (r:
    Option<u64>)
    ensures
        r == limit_in_force(current, requested, granted),
{
    if requested.is_some() && granted {
        requested
    } else {
        current
    }
}

/// The unit of the tunnel is that of the link, wherever the link's lies between
/// 576 and 65535. A smaller one is raised to 576, a larger one lowered to 65535,
/// and where none is known it is 1500.
pub proof fn lemma_unit_is_that_of_the_link(t: Tuning, probe: SystemProbe)
    requires
        t.fits(probe),
    ensures
        probe.link_mtu matches Some(m) ==> {
            &&& 576 <= m <= 65535 ==> t.mtu == m
            &&& m >= 576 ==> t.mtu <= m
            &&& m < 576 ==> t.mtu == 576
            &&& m > 65535 ==> t.mtu == 65535
        },
        probe.link_mtu is None ==> t.mtu == 1500,
{
}

/// A buffer holds 176 units of the tunnel, and the one that data is copied
/// through 16, unless that is below or above what such a buffer may take.
pub proof fn lemma_buffers_follow_the_unit(t: Tuning, probe: SystemProbe)
    requires
        t.fits(probe),
    ensures
        131_072 <= t.relay_buf_size <= 4_194_304,
        t.relay_buf_size > 131_072 ==> t.relay_buf_size <= 176 * t.mtu,
        t.relay_buf_size < 4_194_304 ==> t.relay_buf_size >= 176 * t.mtu,
        32_768 <= t.relay_copy_buf_size <= 262_144,
        t.relay_copy_buf_size > 32_768 ==> t.relay_copy_buf_size <= 16 * t.mtu,
        t.relay_copy_buf_size < 262_144 ==> t.relay_copy_buf_size >= 16 * t.mtu,
{
}

/// The queue of the stack has one place for each two mebibytes of memory, but
/// no fewer than 512 and no more than 4096. Where the memory is not known it
/// counts as two gibibytes.
pub proof fn lemma_stack_follows_memory(t: Tuning, probe: SystemProbe)
    requires
        t.fits(probe),
    ensures
        512 <= t.stack_buf_size <= 4096,
        probe.total_memory_bytes matches Some(m) ==> {
            &&& t.stack_buf_size > 512 ==> t.stack_buf_size * 2_097_152 <= m
            &&& t.stack_buf_size < 4096 ==> (t.stack_buf_size + 1) * 2_097_152 > m
        },
        probe.total_memory_bytes is None ==> t.stack_buf_size == 1024,
{
}

/// There may be as many connections as a quarter of the memory and the
/// descriptors bear, and not one fewer: with one more, the buffers would
/// outgrow the quarter, or two descriptors for each would touch the 64 that are
/// kept. There may be 128 in any case, and no more than 65536. What is not
/// known counts as two gibibytes and 1024 descriptors.
pub proof fn lemma_connections_use_what_there_is(t: Tuning, probe: SystemProbe)
    requires
        t.fits(probe),
    ensures
        128 <= t.max_tcp_connections <= 65536,
        ({
            let memory: int = match probe.total_memory_bytes {
                Some(m) => m as int,
                None => 0x8000_0000,
            };
            let fds: int = match probe.fd_limit {
                Some(n) => n as int,
                None => 1024,
            };
            let each = 2 * t.relay_buf_size + t.relay_copy_buf_size;
            let n = t.max_tcp_connections;
            &&& n > 128 ==> 4 * (n * each) <= memory && 2 * n + 64 <= fds
            &&& n < 65536 ==> 4 * ((n + 1) * each) > memory || 2 * (n + 1) + 64 > fds
        }),
{
    let m = probe.memory() / 4;
    let p = probe.per_connection();
    let n = t.max_tcp_connections as int;
    let q = m / p;
    vstd::arithmetic::div_mod::lemma_fundamental_div_mod(m, p);
    vstd::arithmetic::div_mod::lemma_mod_bound(m, p);
    if n > 128 {
        lemma_connections_are_sustainable(t, probe);
    }
    if n < 65536 {
        if q <= n {
            assert((n + 1) * p > m) by (nonlinear_arith)
                requires
                    q <= n,
                    p > 0,
                    m == p * q + m % p,
                    m % p < p,
            ;
        }
    }
}

/// There may be one session of datagrams for each four connections, but no
/// fewer than 64 and no more than 16384. A session may idle for a minute, and
/// IPv6 is captured exactly where there is a gateway for it.
pub proof fn lemma_sessions_follow_connections(t: Tuning, probe: SystemProbe)
    requires
        t.fits(probe),
    ensures
        64 <= t.max_udp_sessions <= 16384,
        t.max_udp_sessions > 64 ==> 4 * t.max_udp_sessions <= t.max_tcp_connections,
        t.max_udp_sessions < 16384 ==> 4 * (t.max_udp_sessions + 1) > t.max_tcp_connections,
        t.udp_idle_timeout.nanos == 60 * 1_000_000_000,
        t.capture_ipv6 <==> probe.has_ipv6_gateway,
{
}

proof fn lemma_memory_line_shift(first: Seq<char>, rest: Seq<Seq<char>>, i: int)
    requires
        0 <= i <= rest.len(),
    ensures
        memory_line(seq![first] + rest, i + 1) == memory_line(rest, i),
    decreases rest.len() - i,
{
    let all = seq![first] + rest;
    if i < rest.len() {
        assert(all[i + 1] == rest[i]);
        lemma_memory_line_shift(first, rest, i + 1);
    }
}

/// The memory is what the first line that begins with `MemTotal:` tells, whatever
/// follows it: its first word, times 1024, or as much as can be held. A line that
/// begins otherwise has no say.
pub proof fn lemma_memory_is_read(
    gap: Seq<char>,
    kib: u64,
    c: char,
    more: Seq<char>,
    line: Seq<char>,
    rest: Seq<char>,
)
    requires
        forall|i: int| 0 <= i < gap.len() ==> gap[i] == ' ',
        c == ' ',
        forall|i: int| 0 <= i < more.len() ==> more[i] != '\n' && more[i] != '\r',
        forall|i: int| 0 <= i < line.len() ==> line[i] != '\n' && line[i] != '\r',
        !text::starts_with(line, "MemTotal:"@),
    ensures
        ({
            let found = "MemTotal:"@ + gap + text::dec_text(kib as nat) + seq![c] + more + seq!['\n'];
            &&& kib * 1024 <= u64::MAX ==> memory_value(found + rest) == Some((kib * 1024) as u64)
            &&& kib * 1024 > u64::MAX ==> memory_value(found + rest) == Some(u64::MAX)
        }),
        memory_value(line + seq!['\n'] + rest) == memory_value(rest),
{
    let d = text::dec_text(kib as nat);
    let tail = gap + d + seq![c] + more;
    let l = "MemTotal:"@ + tail;
    reveal_strlit("MemTotal:");
    text::lemma_unsigned_round_trip(kib as nat);
    text::lemma_dec_text(kib as nat);
    assert forall|i: int| 0 <= i < d.len() implies !scan::is_whitespace(#[trigger] d[i]) by {
        assert(text::is_digit(d[i]));
    }
    assert forall|i: int| 0 <= i < l.len() implies l[i] != '\n' && l[i] != '\r' by {
        let p = "MemTotal:"@.len() as int;
        if i < p {
        } else if i < p + gap.len() {
            assert(l[i] == gap[i - p]);
        } else if i < p + gap.len() + d.len() {
            assert(l[i] == d[i - p - gap.len()]);
            assert(text::is_digit(d[i - p - gap.len()]));
        } else if i > p + gap.len() + d.len() {
            assert(l[i] == more[i - p - gap.len() - d.len() - 1]);
        }
    }
    scan::lemma_lines_end_at_line_feeds(l, rest);
    scan::lemma_after_prefix_is_the_rest("MemTotal:"@, tail, l);
    scan::lemma_words_stand_between_white_space(gap, d, c, more);
    assert("MemTotal:"@ + gap + d + seq![c] + more + seq!['\n'] + rest =~= l + seq!['\n'] + rest);
    assert(scan::lines(l + seq!['\n'] + rest)[0] == l);
    scan::lemma_lines_end_at_line_feeds(line, rest);
    lemma_memory_line_shift(line, scan::lines(rest), 0);
    assert((seq![line] + scan::lines(rest))[0] == line);
}

/// The limit that holds after a request is the one that was asked for where it
/// was granted, and the old one in any other case; and only a higher one is asked
/// for.
pub proof fn lemma_limit_is_only_raised(current: u64, maximum: u64, granted: bool)
    ensures
        wanted_limit(Some(current), Some(maximum)) is Some <==> current < maximum,
        wanted_limit(Some(current), Some(maximum)) matches Some(n) ==> n == maximum,
        wanted_limit(None, Some(maximum)) is None,
        wanted_limit(Some(current), None) is None,
        limit_in_force(Some(current), Some(maximum), true) == Some(maximum),
        limit_in_force(Some(current), Some(maximum), false) == Some(current),
        limit_in_force(Some(current), None, granted) == Some(current),
        limit_in_force(None, None, granted) is None,
{
}

/// Whether `name`, the decimal text of `n` and `next` stand in `s`, one behind
/// the other.
pub open spec fn told(s: Seq<char>, name: Seq<char>, n: nat, next: Seq<char>) -> bool {
    text::contains(s, name + text::dec_text(n) + next)
}

proof fn lemma_told_at_end(s: Seq<char>, name: Seq<char>, n: nat, next: Seq<char>)
    ensures
        told(s + name + text::dec_text(n) + next, name, n, next),
{
    let part = name + text::dec_text(n) + next;
    let all = s + name + text::dec_text(n) + next;
    let i = s.len() as int;
    assert(all.subrange(i, i + part.len()) =~= part);
    assert(text::occurs_at(all, part, i));
}

proof fn lemma_still_told(s: Seq<char>, more: Seq<char>)
    ensures
        forall|name: Seq<char>, n: nat, next: Seq<char>|
            told(s, name, n, next) ==> #[trigger] told(s + more, name, n, next),
{
    assert forall|name: Seq<char>, n: nat, next: Seq<char>| told(s, name, n, next) implies
        #[trigger] told(s + more, name, n, next) by {
        let part = name + text::dec_text(n) + next;
        let i = choose|i: int| text::occurs_at(s, part, i);
        assert((s + more).subrange(i, i + part.len()) =~= s.subrange(i, i + part.len()));
        assert(text::occurs_at(s + more, part, i));
    }
}

/// Each size and each limit stands in the summary between its own name and the
/// next one, and the summary ends with whether IPv6 is captured.
pub proof fn lemma_summary_tells_each_size(t: Tuning)
    ensures
        told(t.text(), " mtu="@, t.mtu as nat, " relay_buf="@),
        told(t.text(), " relay_buf="@, t.relay_buf_size as nat, " copy_buf="@),
        told(t.text(), " copy_buf="@, t.relay_copy_buf_size as nat, " stack_depth="@),
        told(t.text(), " stack_depth="@, t.stack_buf_size as nat, " max_tcp="@),
        told(t.text(), " max_tcp="@, t.max_tcp_connections as nat, " max_udp="@),
        told(t.text(), " max_udp="@, t.max_udp_sessions as nat, " udp_idle="@),
        told(t.text(), " udp_idle="@, (t.udp_idle_timeout.nanos / 1_000_000_000) as nat, "s capture_ipv6="@),
        t.capture_ipv6 ==> exists|s: Seq<char>| t.text() == #[trigger] (s + "true"@),
        !t.capture_ipv6 ==> exists|s: Seq<char>| t.text() == #[trigger] (s + "false"@),
{
    reveal_strlit("auto-tuned: mtu=");
    reveal_strlit("auto-tuned:");
    reveal_strlit(" mtu=");
    let head = "auto-tuned:"@;
    assert("auto-tuned: mtu="@ =~= head + " mtu="@);
    let w = if t.capture_ipv6 {
        "true"@
    } else {
        "false"@
    };
    let s0 = head + " mtu="@;
    let d1 = s0 + text::dec_text(t.mtu as nat);
    let s1 = d1 + " relay_buf="@;
    let d2 = s1 + text::dec_text(t.relay_buf_size as nat);
    let s2 = d2 + " copy_buf="@;
    let d3 = s2 + text::dec_text(t.relay_copy_buf_size as nat);
    let s3 = d3 + " stack_depth="@;
    let d4 = s3 + text::dec_text(t.stack_buf_size as nat);
    let s4 = d4 + " max_tcp="@;
    let d5 = s4 + text::dec_text(t.max_tcp_connections as nat);
    let s5 = d5 + " max_udp="@;
    let d6 = s5 + text::dec_text(t.max_udp_sessions as nat);
    let s6 = d6 + " udp_idle="@;
    let d7 = s6 + text::dec_text((t.udp_idle_timeout.nanos / 1_000_000_000) as nat);
    let s7 = d7 + "s capture_ipv6="@;
    assert(t.text() == s7 + w);
    lemma_told_at_end(head, " mtu="@, t.mtu as nat, " relay_buf="@);
    lemma_still_told(s1, text::dec_text(t.relay_buf_size as nat));
    lemma_still_told(d2, " copy_buf="@);
    lemma_told_at_end(d1, " relay_buf="@, t.relay_buf_size as nat, " copy_buf="@);
    lemma_still_told(s2, text::dec_text(t.relay_copy_buf_size as nat));
    lemma_still_told(d3, " stack_depth="@);
    lemma_told_at_end(d2, " copy_buf="@, t.relay_copy_buf_size as nat, " stack_depth="@);
    lemma_still_told(s3, text::dec_text(t.stack_buf_size as nat));
    lemma_still_told(d4, " max_tcp="@);
    lemma_told_at_end(d3, " stack_depth="@, t.stack_buf_size as nat, " max_tcp="@);
    lemma_still_told(s4, text::dec_text(t.max_tcp_connections as nat));
    lemma_still_told(d5, " max_udp="@);
    lemma_told_at_end(d4, " max_tcp="@, t.max_tcp_connections as nat, " max_udp="@);
    lemma_still_told(s5, text::dec_text(t.max_udp_sessions as nat));
    lemma_still_told(d6, " udp_idle="@);
    lemma_told_at_end(d5, " max_udp="@, t.max_udp_sessions as nat, " udp_idle="@);
    lemma_still_told(s6, text::dec_text((t.udp_idle_timeout.nanos / 1_000_000_000) as nat));
    lemma_still_told(d7, "s capture_ipv6="@);
    lemma_told_at_end(d6, " udp_idle="@, (t.udp_idle_timeout.nanos / 1_000_000_000) as nat, "s capture_ipv6="@);
    lemma_still_told(s7, w);
}

} // verus!
