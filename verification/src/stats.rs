//! Counters and gauges, and amounts of data in words.

use vstd::prelude::*;
use crate::addr::IpAddr;
use crate::text;

verus! {

/// How many values a counter can take before it starts again at zero.
pub open spec fn round() -> int {
    0x1_0000_0000_0000_0000
}

/// A counter that starts again at zero past the largest number.
#[derive(Clone, Copy, PartialEq, Eq, Debug, Structural)]
pub struct Counter {
    pub value: u64,
}

impl Counter {
    pub fn new(value: u64) -> (r: Counter)
        ensures
            r.value == value,
    {
        Counter { value }
    }
}

pub fn inc(counter: &mut Counter)
    ensures
        final(counter).value == (old(counter).value + 1) % round(),
{
    counter.value = counter.value.wrapping_add(1);
}

pub fn add(counter: &mut Counter, value: u64)
    ensures
        final(counter).value == (old(counter).value + value) % round(),
{
    counter.value = counter.value.wrapping_add(value);
}

pub fn dec(counter: &mut Counter)
    ensures
        final(counter).value == (old(counter).value - 1) % round(),
{
    counter.value = counter.value.wrapping_sub(1);
}

pub fn get(counter: &Counter) -> (r: u64)
    ensures
        r == counter.value,
{
    counter.value
}

/// All that the tunnel counts.
#[derive(Clone, Copy, PartialEq, Eq, Debug, Structural)]
pub struct Stats {
    pub tcp_opened: Counter,
    pub tcp_closed: Counter,
    pub tcp_errors: Counter,
    pub tcp_active: Counter,
    pub udp_packets: Counter,
    pub udp_errors: Counter,
    pub udp_active: Counter,
    pub bytes_tx: Counter,
    pub bytes_rx: Counter,
    pub bytes_v4: Counter,
    pub bytes_v6: Counter,
    pub dns_requests: Counter,
    pub dns_failures: Counter,
    pub dns_pool_hits: Counter,
    pub dns_pool_misses: Counter,
    pub route_direct: Counter,
    pub route_proxy: Counter,
    pub conn_failures: Counter,
    pub socks_handshake_failures: Counter,
    pub config_reloads: Counter,
}

impl Stats {
    pub open spec fn zero() -> Stats {
        let c = Counter { value: 0 };
        Stats {
            tcp_opened: c,
            tcp_closed: c,
            tcp_errors: c,
            tcp_active: c,
            udp_packets: c,
            udp_errors: c,
            udp_active: c,
            bytes_tx: c,
            bytes_rx: c,
            bytes_v4: c,
            bytes_v6: c,
            dns_requests: c,
            dns_failures: c,
            dns_pool_hits: c,
            dns_pool_misses: c,
            route_direct: c,
            route_proxy: c,
            conn_failures: c,
            socks_handshake_failures: c,
            config_reloads: c,
        }
    }

    /// All counters at zero.
    pub fn new() -> (r: Stats)
        ensures
            r == Stats::zero(),
    {
        let c = Counter { value: 0 };
        Stats {
            tcp_opened: c,
            tcp_closed: c,
            tcp_errors: c,
            tcp_active: c,
            udp_packets: c,
            udp_errors: c,
            udp_active: c,
            bytes_tx: c,
            bytes_rx: c,
            bytes_v4: c,
            bytes_v6: c,
            dns_requests: c,
            dns_failures: c,
            dns_pool_hits: c,
            dns_pool_misses: c,
            route_direct: c,
            route_proxy: c,
            conn_failures: c,
            socks_handshake_failures: c,
            config_reloads: c,
        }
    }
}

impl Counter {
    /// The counter after `n` more.
    pub open spec fn plus(self, n: int) -> Counter {
        Counter { value: ((self.value + n) % round()) as u64 }
    }
}

impl Stats {
    /// The counters after `n` bytes to or from an address.
    pub open spec fn with_traffic(self, addr: IpAddr, n: u64) -> Stats {
        match addr {
            IpAddr::V4(_) => Stats { bytes_v4: self.bytes_v4.plus(n as int), ..self },
            IpAddr::V6(_) => Stats { bytes_v6: self.bytes_v6.plus(n as int), ..self },
        }
    }
}

/// Counts bytes by the family of the address at the far end.
pub fn record_traffic(stats: &mut Stats, addr: IpAddr, bytes: u64)
    ensures
        *final(stats) == old(stats).with_traffic(addr, bytes),
{
    match addr {
        IpAddr::V4(_) => self::add(&mut stats.bytes_v4, bytes),
        IpAddr::V6(_) => self::add(&mut stats.bytes_v6, bytes),
    }
}

// ---------------------------------------------------------------------------
// Gauges
// ---------------------------------------------------------------------------
/// What stands for one unit on a gauge, from `new` to `release`.
pub struct GaugeGuard {
    unit: (),
}

impl GaugeGuard {
    pub fn new(gauge: &mut Counter) -> (r: GaugeGuard)
        ensures
            *final(gauge) == old(gauge).plus(1),
    {
        inc(gauge);
        GaugeGuard { unit: () }
    }

    /// Takes the unit off the gauge again.
    pub fn release(self, gauge: &mut Counter)
        ensures
            *final(gauge) == old(gauge).plus(-1),
    {
        dec(gauge);
    }
}

/// What a guard puts on a gauge its release takes off, whatever else was
/// counted in between.
pub proof fn lemma_gauge_balances(gauge: Counter, between: int)
    ensures
        gauge.plus(1).plus(between).plus(-1) == gauge.plus(between),
        gauge.plus(1).plus(-1) == gauge,
{
    let v = gauge.value as int;
    vstd::arithmetic::div_mod::lemma_mod_bound(v + 1, round());
    vstd::arithmetic::div_mod::lemma_mod_bound(v + between, round());
    vstd::arithmetic::div_mod::lemma_mod_bound((v + 1) % round() + between, round());
    vstd::arithmetic::div_mod::lemma_add_mod_noop(v + 1, between, round());
    vstd::arithmetic::div_mod::lemma_add_mod_noop_right(between, v + 1, round());
    vstd::arithmetic::div_mod::lemma_add_mod_noop_right(-1, (v + 1) % round() + between, round());
    vstd::arithmetic::div_mod::lemma_add_mod_noop_right(-1, between + v + 1, round());
    vstd::arithmetic::div_mod::lemma_add_mod_noop_right(-1, v + 1, round());
    vstd::arithmetic::div_mod::lemma_small_mod(v as nat, round() as nat);
}

// ---------------------------------------------------------------------------
// Amounts of data
// ---------------------------------------------------------------------------
/// `n / d` to the nearest whole number; where two are as near, the even one.
pub open spec fn half_even(n: nat, d: nat) -> nat {
    let q = n / d;
    let r = n % d;
    if 2 * r > d || (2 * r == d && q % 2 == 1) {
        q + 1
    } else {
        q
    }
}

/// How many binary digits a number has.
pub open spec fn bit_length(n: nat) -> nat
    decreases n,
{
    if n == 0 {
        0
    } else {
        1 + bit_length(n / 2)
    }
}

/// A number with 53 significant binary digits: `digits * 2^11 / 2^scale`.
pub struct Rounded {
    pub digits: nat,
    pub scale: nat,
}

pub open spec fn two_to(n: nat) -> nat {
    vstd::arithmetic::power2::pow2(n)
}

/// A positive whole number below 2^64, rounded to 53 significant digits.
pub open spec fn rounded(v: nat) -> Rounded {
    let b = bit_length(v);
    Rounded { digits: half_even(v * two_to(64), two_to(b + 11)), scale: (64 - b) as nat }
}

/// A thousandth of a number, rounded to 53 significant digits.
pub open spec fn thousandth(x: Rounded) -> Rounded {
    if x.digits * 1024 / 1000 >= two_to(53) {
        Rounded { digits: half_even(x.digits * 512, 1000), scale: x.scale + 9 }
    } else {
        Rounded { digits: half_even(x.digits * 1024, 1000), scale: x.scale + 10 }
    }
}

pub open spec fn reaches_thousand(x: Rounded) -> bool {
    x.digits * 2048 >= 1000 * two_to(x.scale)
}

/// The number in the largest unit, from `unit` on, of which there is at least
/// one, with the number of that unit. The last unit is the fourth.
pub open spec fn in_unit(x: Rounded, unit: nat) -> (Rounded, nat)
    decreases 4 - unit,
{
    if unit < 4 && reaches_thousand(x) {
        in_unit(thousandth(x), unit + 1)
    } else {
        (x, unit)
    }
}

pub open spec fn unit_name(unit: nat) -> Seq<char> {
    if unit == 0 {
        "B"@
    } else if unit == 1 {
        "KB"@
    } else if unit == 2 {
        "MB"@
    } else if unit == 3 {
        "GB"@
    } else {
        "TB"@
    }
}

/// A number of hundredths with a point before its last two digits.
pub open spec fn hundredths_text(h: nat) -> Seq<char> {
    text::dec_text(h / 100) + seq![
        '.',
        text::digit_char((h / 10 % 10) as int),
        text::digit_char((h % 10) as int),
    ]
}

/// An amount of data in words: whole bytes below a thousand, and two decimals
/// of the largest unit from there on.
pub open spec fn bytes_text(bytes: u64) -> Seq<char> {
    if bytes < 1000 {
        text::dec_text(bytes as nat) + " B"@
    } else {
        let (x, unit) = in_unit(rounded(bytes as nat), 0);
        hundredths_text(half_even(x.digits * 2048 * 100, two_to(x.scale))) + seq![' '] + unit_name(unit)
    }
}

proof fn lemma_two_to_grows(a: nat, b: nat)
    requires
        a <= b,
    ensures
        1 <= two_to(a) <= two_to(b),
    decreases b,
{
    vstd::arithmetic::power2::lemma_pow2_pos(a);
    if a < b {
        lemma_two_to_grows(a, (b - 1) as nat);
        vstd::arithmetic::power2::lemma_pow2_unfold(b);
    }
}

proof fn lemma_two_to_values()
    ensures
        two_to(0) == 1,
        two_to(9) == 512,
        two_to(10) == 1024,
        two_to(11) == 2048,
        two_to(52) == 0x10_0000_0000_0000,
        two_to(53) == 0x20_0000_0000_0000,
        two_to(64) == 0x1_0000_0000_0000_0000,
        two_to(74) == 0x400_0000_0000_0000_0000,
        two_to(75) == 0x800_0000_0000_0000_0000,
{
    vstd::arithmetic::power2::lemma2_to64();
    vstd::arithmetic::power2::lemma2_to64_rest();
    vstd::arithmetic::power2::lemma_pow2_adds(64, 10);
    vstd::arithmetic::power2::lemma_pow2_adds(64, 11);
}

fn exec_two_to(n: u32) -> (r: u128)
    requires
        n <= 75,
    ensures
        r == two_to(n as nat),
{
    let mut r: u128 = 1;
    proof {
        lemma_two_to_values();
    }
    for i in 0..n
        invariant
            n <= 75,
            r == two_to(i as nat),
            r <= two_to(75),
            two_to(75) == 0x800_0000_0000_0000_0000,
    {
        proof {
            lemma_two_to_grows((i + 1) as nat, 75);
            vstd::arithmetic::power2::lemma_pow2_unfold((i + 1) as nat);
        }
        r = r * 2;
    }
    r
}

fn exec_half_even(n: u128, d: u128) -> (r: u128)
    requires
        0 < d < 0x1000_0000_0000_0000_0000_0000_0000,
        n / d < u128::MAX,
    ensures
        r == half_even(n as nat, d as nat),
{
    let q = n / d;
    let r = n % d;
    if 2 * r > d || (2 * r == d && q % 2 == 1) {
        q + 1
    } else {
        q
    }
}

fn exec_bit_length(v: u64) -> (b: u32)
    ensures
        b == bit_length(v as nat),
        b <= 64,
        v > 0 ==> two_to((b - 1) as nat) <= v < two_to(b as nat),
{
    let mut b: u32 = 0;
    let mut x: u64 = v;
    let ghost mut p: nat = 1;
    proof {
        lemma_two_to_values();
        assert(x * p == x) by (nonlinear_arith)
            requires
                p == 1,
        ;
        assert((x + 1) * p == x + 1) by (nonlinear_arith)
            requires
                p == 1,
        ;
    }
    while x > 0
        invariant
            bit_length(v as nat) == b + bit_length(x as nat),
            p == two_to(b as nat),
            x * p <= v < (x + 1) * p,
            v <= u64::MAX,
            b <= 64,
            b == 64 ==> x == 0,
            b > 0 && x == 0 ==> two_to((b - 1) as nat) <= v,
        decreases x,
    {
        let ghost y = x / 2;
        proof {
            vstd::arithmetic::power2::lemma_pow2_unfold((b + 1) as nat);
            lemma_two_to_values();
            let q = 2 * p;
            assert(y * q <= x * p) by (nonlinear_arith)
                requires
                    2 * y <= x,
                    q == 2 * p,
            ;
            assert((x + 1) * p <= (y + 1) * q) by (nonlinear_arith)
                requires
                    x <= 2 * y + 1,
                    q == 2 * p,
            ;
            assert(p <= x * p) by (nonlinear_arith)
                requires
                    x >= 1,
            ;
            if b == 63 {
                assert(y == 0) by {
                    if y > 0 {
                        assert(q <= y * q) by (nonlinear_arith)
                            requires
                                y >= 1,
                        ;
                    }
                }
            }
            p = q;
        }
        x = x / 2;
        b = b + 1;
    }
    proof {
        assert((x + 1) * p == p) by (nonlinear_arith)
            requires
                x == 0,
        ;
    }
    b
}

/// A number with 53 significant binary digits.
struct Scaled {
    digits: u128,
    scale: u32,
}

impl Scaled {
    spec fn number(self) -> Rounded {
        Rounded { digits: self.digits as nat, scale: self.scale as nat }
    }

    spec fn wf(self) -> bool {
        0x10_0000_0000_0000 <= self.digits <= 0x20_0000_0000_0000 && self.scale <= 64
    }

    fn of(v: u64) -> (r: Scaled)
        requires
            v > 0,
        ensures
            r.wf(),
            r.number() == rounded(v as nat),
    {
        let b = exec_bit_length(v);
        proof {
            lemma_two_to_values();
            lemma_two_to_grows((b + 11) as nat, 75);
        }
        let n: u128 = v as u128 * 0x1_0000_0000_0000_0000;
        let d = exec_two_to(b + 11);
        proof {
            let low = two_to((b - 1) as nat);
            let high = two_to(b as nat);
            vstd::arithmetic::power2::lemma_pow2_adds((b - 1) as nat, 64);
            vstd::arithmetic::power2::lemma_pow2_adds(52, (b + 11) as nat);
            vstd::arithmetic::power2::lemma_pow2_adds(b as nat, 64);
            vstd::arithmetic::power2::lemma_pow2_adds(53, (b + 11) as nat);
            assert(n >= 0x10_0000_0000_0000 * d);
            assert(n < 0x20_0000_0000_0000 * d);
            lemma_quotient_between(n as int, d as int, 0x10_0000_0000_0000, 0x20_0000_0000_0000);
        }
        let digits = exec_half_even(n, d);
        Scaled { digits, scale: 64 - b }
    }

    fn thousandth(&self) -> (r: Scaled)
        requires
            self.wf(),
            self.scale <= 54,
        ensures
            r.wf(),
            r.number() == thousandth(self.number()),
            r.scale >= 9,
    {
        proof {
            lemma_two_to_values();
        }
        if self.digits * 1024 / 1000 >= 0x20_0000_0000_0000 {
            Scaled { digits: exec_half_even(self.digits * 512, 1000), scale: self.scale + 9 }
        } else {
            Scaled { digits: exec_half_even(self.digits * 1024, 1000), scale: self.scale + 10 }
        }
    }

    fn reaches_thousand(&self) -> (r: bool)
        requires
            self.wf(),
        ensures
            r == reaches_thousand(self.number()),
            r ==> self.scale <= 54,
    {
        proof {
            lemma_two_to_values();
            lemma_two_to_grows(self.scale as nat, 75);
            if self.scale >= 55 {
                lemma_two_to_grows(55, self.scale as nat);
                vstd::arithmetic::power2::lemma_pow2_adds(53, 2);
                vstd::arithmetic::power2::lemma2_to64();
            }
        }
        self.digits * 2048 >= 1000 * exec_two_to(self.scale)
    }
}

proof fn lemma_quotient_between(n: int, d: int, low: int, high: int)
    requires
        d > 0,
        low * d <= n < high * d,
    ensures
        low <= n / d < high,
{
    let q = n / d;
    vstd::arithmetic::div_mod::lemma_fundamental_div_mod(n, d);
    vstd::arithmetic::div_mod::lemma_mod_bound(n, d);
    assert(low <= q) by (nonlinear_arith)
        requires
            d > 0,
            low * d <= n,
            n == d * q + n % d,
            n % d < d,
    ;
    assert(q < high) by (nonlinear_arith)
        requires
            d > 0,
            n < high * d,
            n == d * q + n % d,
            0 <= n % d,
    ;
}

fn push_unit(out: &mut String, unit: u32)
    ensures
        final(out)@ == old(out)@ + unit_name(unit as nat),
{
    if unit == 0 {
        text::push_text(out, "B");
    } else if unit == 1 {
        text::push_text(out, "KB");
    } else if unit == 2 {
        text::push_text(out, "MB");
    } else if unit == 3 {
        text::push_text(out, "GB");
    } else {
        text::push_text(out, "TB");
    }
}

/// The hundredths of a number that is below a thousand, or at most 2^44.
fn hundredths(x: &Scaled) -> (h: u64)
    requires
        x.wf(),
        !reaches_thousand(x.number()) || x.scale >= 20,
    ensures
        h == half_even((x.digits * 2048 * 100) as nat, two_to(x.scale as nat)),
{
    let n: u128 = x.digits * 204_800;
    proof {
        lemma_two_to_values();
        lemma_two_to_grows(x.scale as nat, 75);
    }
    let d = exec_two_to(x.scale);
    proof {
        if x.scale >= 20 {
            lemma_two_to_grows(20, x.scale as nat);
            vstd::arithmetic::power2::lemma2_to64();
            assert(two_to(20) == 0x10_0000);
            lemma_quotient_between(n as int, d as int, 0, 0x10_0000_0000_0000);
        } else {
            lemma_quotient_between(n as int, d as int, 0, 100_000);
        }
    }
    exec_half_even(n, d) as u64
}

fn push_hundredths(out: &mut String, h: u64)
    ensures
        final(out)@ == old(out)@ + hundredths_text(h as nat),
{
    let ghost before = out@;
    text::push_decimal(out, h / 100);
    out.push('.');
    out.push(text::digit_to_char((h / 10 % 10) as u8));
    out.push(text::digit_to_char((h % 10) as u8));
    assert(out@ =~= before + hundredths_text(h as nat));
}

/// An amount of data in words.
pub fn format_bytes(bytes: u64) -> (r: String)
    ensures
        r@ == bytes_text(bytes),
{
    let mut out = String::new();
    if bytes < 1000 {
        text::push_decimal(&mut out, bytes);
        text::push_text(&mut out, " B");
        assert(out@ =~= bytes_text(bytes));
        return out;
    }
    let mut x = Scaled::of(bytes);
    let mut unit: u32 = 0;
    while unit < 4 && x.reaches_thousand()
        invariant
            unit <= 4,
            x.wf(),
            x.scale >= 9 * unit,
            in_unit(rounded(bytes as nat), 0) == in_unit(x.number(), unit as nat),
        decreases 4 - unit,
    {
        let y = x.thousandth();
        assert(y.scale >= x.scale + 9);
        x = y;
        unit = unit + 1;
    }
    let h = hundredths(&x);
    push_hundredths(&mut out, h);
    out.push(' ');
    push_unit(&mut out, unit);
    proof {
        assert(in_unit(x.number(), unit as nat) == (x.number(), unit as nat));
        assert(out@ =~= bytes_text(bytes));
    }
    out
}

/// A counter goes up by what is counted. Past the largest number it starts
/// again at zero, and nothing is lost in that.
pub proof fn lemma_counter_counts(c: Counter, n: u64)
    ensures
        c.value + n <= u64::MAX ==> c.plus(n as int).value == c.value + n,
        c.value + n > u64::MAX ==> c.plus(n as int).value == c.value + n - u64::MAX - 1,
        c.value >= n ==> c.plus(-(n as int)).value == c.value - n,
        c.value < n ==> c.plus(-(n as int)).value == c.value - n + u64::MAX + 1,
{
}

/// Octets count for the family of the far end, and for nothing else.
pub proof fn lemma_traffic_counts_by_family(s: Stats, addr: IpAddr, n: u64)
    ensures
        ({
            let t = s.with_traffic(addr, n);
            &&& addr is V4 ==> t.bytes_v4 == s.bytes_v4.plus(n as int) && t.bytes_v6 == s.bytes_v6
            &&& addr is V6 ==> t.bytes_v6 == s.bytes_v6.plus(n as int) && t.bytes_v4 == s.bytes_v4
            &&& s == (Stats { bytes_v4: s.bytes_v4, bytes_v6: s.bytes_v6, ..t })
        }),
{
}

// ---------------------------------------------------------------------------
// How near the words come to the amount
// ---------------------------------------------------------------------------
proof fn lemma_half_even(n: nat, d: nat, m: nat)
    requires
        d > 0,
    ensures
        2 * (half_even(n, d) * d) <= 2 * n + d,
        2 * n <= 2 * (half_even(n, d) * d) + d,
        n >= m * d ==> half_even(n, d) >= m,
        n <= m * d ==> half_even(n, d) <= m,
{
    let q = n / d;
    let r = n % d;
    vstd::arithmetic::div_mod::lemma_fundamental_div_mod(n as int, d as int);
    vstd::arithmetic::div_mod::lemma_mod_bound(n as int, d as int);
    assert(q * d == d * q) by (nonlinear_arith);
    assert((q + 1) * d == q * d + d) by (nonlinear_arith);
    if n >= m * d && q < m {
        assert((q + 1) * d <= m * d) by (nonlinear_arith)
            requires
                q + 1 <= m,
        ;
    }
    if n <= m * d && q > m {
        assert((m + 1) * d <= q * d) by (nonlinear_arith)
            requires
                m + 1 <= q,
        ;
        assert((m + 1) * d == m * d + d) by (nonlinear_arith);
    }
}

proof fn lemma_bit_length(v: nat)
    requires
        v > 0,
    ensures
        bit_length(v) >= 1,
        two_to((bit_length(v) - 1) as nat) <= v < two_to(bit_length(v)),
    decreases v,
{
    lemma_two_to_values();
    let h = v / 2;
    if h == 0 {
        assert(bit_length(v / 2) == 0);
        vstd::arithmetic::power2::lemma_pow2_unfold(1);
    } else {
        lemma_bit_length(h);
        let b = bit_length(h);
        vstd::arithmetic::power2::lemma_pow2_unfold(b);
        vstd::arithmetic::power2::lemma_pow2_unfold(b + 1);
    }
}

/// A number is rounded by at most half of its last digit.
proof fn lemma_rounded(v: nat)
    requires
        0 < v < 0x1_0000_0000_0000_0000,
    ensures
        ({
            let x = rounded(v);
            &&& 0x10_0000_0000_0000 <= x.digits <= 0x20_0000_0000_0000
            &&& x.digits * 2048 <= v * two_to(x.scale) + 1024
            &&& v * two_to(x.scale) <= x.digits * 2048 + 1024
            &&& v >= 1000 ==> reaches_thousand(x)
        }),
{
    let b = bit_length(v);
    lemma_bit_length(v);
    lemma_two_to_values();
    if b > 64 {
        lemma_two_to_grows(64, (b - 1) as nat);
    }
    let s = (64 - b) as nat;
    let low = two_to((b - 1) as nat);
    let c = two_to(b);
    let p = two_to(s);
    let d = two_to(b + 11);
    let n = v * two_to(64);
    vstd::arithmetic::power2::lemma_pow2_unfold(b);
    vstd::arithmetic::power2::lemma_pow2_pos(b);
    vstd::arithmetic::power2::lemma_pow2_adds(b, 11);
    vstd::arithmetic::power2::lemma_pow2_adds(s, b);
    assert(d == 2048 * c);
    assert(p * c == 0x1_0000_0000_0000_0000);
    lemma_half_even(n, d, 0x10_0000_0000_0000);
    lemma_half_even(n, d, 0x20_0000_0000_0000);
    let q = half_even(n, d);
    assert(n == v * (p * c));
    assert(n == (v * p) * c) by (nonlinear_arith)
        requires
            n == v * (p * c),
    ;
    assert(q * d == (q * 2048) * c) by (nonlinear_arith)
        requires
            d == 2048 * c,
    ;
    let x = q * 2048;
    let y = v * p;
    assert(x <= y + 1024) by (nonlinear_arith)
        requires
            2 * (x * c) <= 2 * (y * c) + 2048 * c,
            c > 0,
    ;
    assert(y <= x + 1024) by (nonlinear_arith)
        requires
            2 * (y * c) <= 2 * (x * c) + 2048 * c,
            c > 0,
    ;
    if v >= 1000 {
        if s >= 11 {
            let e = two_to((s - 11) as nat);
            vstd::arithmetic::power2::lemma_pow2_adds((s - 11) as nat, 11);
            let m = 1000 * e;
            assert(p == e * 2048);
            assert(m * d == 1000 * (p * c)) by (nonlinear_arith)
                requires
                    m == 1000 * e,
                    p == e * 2048,
                    d == 2048 * c,
            ;
            assert(n >= m * d);
            lemma_half_even(n, d, m);
        } else {
            lemma_two_to_grows(s, 10);
        }
    }
}

/// A thousand to this power.
spec fn thousand_to(unit: nat) -> nat {
    if unit == 0 {
        1
    } else if unit == 1 {
        1_000
    } else if unit == 2 {
        1_000_000
    } else if unit == 3 {
        1_000_000_000
    } else {
        1_000_000_000_000
    }
}

/// By how much a number in this unit may be off, in its smallest parts.
spec fn slip(unit: nat) -> nat {
    if unit == 0 {
        1024
    } else if unit == 1 {
        2_072_576
    } else if unit == 2 {
        3_146_317_824
    } else if unit == 3 {
        4_245_829_451_776
    } else {
        5_371_729_358_618_624
    }
}

/// Whether `x` is what `v` comes to in this unit, as near as can be.
spec fn is_near(x: Rounded, v: nat, unit: nat) -> bool {
    let a = x.digits * 2048 * thousand_to(unit);
    let b = v * two_to(x.scale);
    &&& 0x10_0000_0000_0000 <= x.digits <= 0x20_0000_0000_0000
    &&& x.scale >= 9 * unit
    &&& a <= b + slip(unit)
    &&& b <= a + slip(unit)
    &&& unit > 0 ==> x.digits * 2048 >= two_to(x.scale)
}

/// By which power of two the digits of a thousandth are scaled.
spec fn thousandth_factor(x: Rounded) -> nat {
    if x.digits * 1024 / 1000 >= 0x20_0000_0000_0000 {
        512
    } else {
        1024
    }
}

proof fn lemma_thousandth_digits(x: Rounded)
    requires
        0x10_0000_0000_0000 <= x.digits <= 0x20_0000_0000_0000,
    ensures
        ({
            let y = thousandth(x);
            let f = thousandth_factor(x);
            &&& 0x10_0000_0000_0000 <= y.digits <= 0x20_0000_0000_0000
            &&& x.scale + 9 <= y.scale
            &&& two_to(y.scale) == two_to(x.scale) * f
            &&& -500 <= y.digits * 1000 - x.digits * f <= 500
        }),
{
    lemma_two_to_values();
    let f = thousandth_factor(x);
    vstd::arithmetic::power2::lemma_pow2_adds(x.scale, 9);
    vstd::arithmetic::power2::lemma_pow2_adds(x.scale, 10);
    let n = x.digits * f;
    assert(0x10_0000_0000_0000 * 1000 <= n <= 0x20_0000_0000_0000 * 1000);
    lemma_half_even(n, 1000, 0x10_0000_0000_0000);
    lemma_half_even(n, 1000, 0x20_0000_0000_0000);
}

proof fn lemma_thousandth_is_one_at_least(x: Rounded)
    requires
        0x10_0000_0000_0000 <= x.digits <= 0x20_0000_0000_0000,
        reaches_thousand(x),
    ensures
        thousandth(x).digits * 2048 >= two_to(thousandth(x).scale),
{
    lemma_thousandth_digits(x);
    let p = two_to(x.scale);
    vstd::arithmetic::power2::lemma2_to64();
    if x.scale >= 2 {
        vstd::arithmetic::power2::lemma_pow2_adds((x.scale - 2) as nat, 2);
        let q = two_to((x.scale - 2) as nat);
        assert(p == 4 * q);
    } else {
        lemma_two_to_grows(x.scale, 2);
    }
    let d = thousandth(x).digits;
    let r = two_to(thousandth(x).scale);
    if thousandth_factor(x) == 512 {
        assert(r == p * 512);
        assert(4 * d >= p - 2);
        assert(4 * d >= p);
    } else {
        assert(r == p * 1024);
        assert(2 * d >= p - 1);
        assert(2 * d >= p);
    }
}

proof fn lemma_slip_grows(unit: nat)
    requires
        unit < 4,
    ensures
        1024 * slip(unit) + 1_024_000 * thousand_to(unit) <= slip(unit + 1),
        thousand_to(unit + 1) == 1000 * thousand_to(unit),
{
}

proof fn lemma_step_is_near(
    d: int,
    e: int,
    f: int,
    k: int,
    d2: int,
    v: int,
    p: int,
    s: int,
)
    requires
        d2 * 1000 == d * f + e,
        -500 <= e <= 500,
        0 <= f <= 1024,
        k >= 0,
        s >= 0,
        d * 2048 * k <= v * p + s,
        v * p <= d * 2048 * k + s,
    ensures
        d2 * 2048 * (1000 * k) <= v * (p * f) + (1024 * s + 1_024_000 * k),
        v * (p * f) <= d2 * 2048 * (1000 * k) + (1024 * s + 1_024_000 * k),
{
    let a = d * 2048 * k;
    let b = v * p;
    let a2 = d2 * 2048 * (1000 * k);
    assert(a2 == 2048 * (k * (d2 * 1000))) by (nonlinear_arith)
        requires
            a2 == d2 * 2048 * (1000 * k),
    ;
    assert(k * (d * f + e) == k * d * f + k * e) by (nonlinear_arith);
    assert(2048 * (k * d * f) == f * a) by (nonlinear_arith)
        requires
            a == d * 2048 * k,
    ;
    assert(v * (p * f) == f * b) by (nonlinear_arith)
        requires
            b == v * p,
    ;
    assert(-500 * k <= k * e <= 500 * k) by (nonlinear_arith)
        requires
            -500 <= e <= 500,
            k >= 0,
    ;
    assert(f * a <= f * b + 1024 * s) by (nonlinear_arith)
        requires
            a <= b + s,
            0 <= f <= 1024,
            s >= 0,
    ;
    assert(f * b <= f * a + 1024 * s) by (nonlinear_arith)
        requires
            b <= a + s,
            0 <= f <= 1024,
            s >= 0,
    ;
}

proof fn lemma_thousandth_is_near(x: Rounded, v: nat, unit: nat)
    requires
        unit < 4,
        is_near(x, v, unit),
        reaches_thousand(x),
    ensures
        is_near(thousandth(x), v, unit + 1),
{
    lemma_thousandth_digits(x);
    lemma_thousandth_is_one_at_least(x);
    lemma_slip_grows(unit);
    let y = thousandth(x);
    let f = thousandth_factor(x) as int;
    lemma_step_is_near(
        x.digits as int,
        y.digits * 1000 - x.digits * f,
        f,
        thousand_to(unit) as int,
        y.digits as int,
        v as int,
        two_to(x.scale) as int,
        slip(unit) as int,
    );
}

proof fn lemma_in_unit_is_near(x: Rounded, v: nat, unit: nat)
    requires
        unit <= 4,
        is_near(x, v, unit),
    ensures
        ({
            let (y, u) = in_unit(x, unit);
            &&& unit <= u <= 4
            &&& is_near(y, v, u)
            &&& u < 4 ==> !reaches_thousand(y)
            &&& unit < 4 && reaches_thousand(x) ==> u > unit
        }),
    decreases 4 - unit,
{
    if unit < 4 && reaches_thousand(x) {
        lemma_thousandth_is_near(x, v, unit);
        lemma_in_unit_is_near(thousandth(x), v, unit + 1);
    }
}

/// Whether `h` hundredths of a unit of `k` octets are what an amount comes to:
/// no other number of hundredths is nearer. From a thousand units of the largest
/// kind on, the last digit may be off by sixteen millionths more.
pub open spec fn is_nearest(h: nat, k: nat, bytes: u64) -> bool {
    let more: nat = if k < 1_000_000_000_000 {
        0
    } else {
        16_000_000
    };
    &&& 2 * (h * k) <= 200 * bytes + k + more
    &&& 200 * bytes <= 2 * (h * k) + k + more
}

/// An amount below a thousand is told in whole octets. A larger one is told in
/// the largest of kilo-, mega-, giga- and terabytes of which there is one, by
/// thousands, and with the nearest two decimals.
pub proof fn lemma_amount_is_told_to_the_nearest(bytes: u64)
    ensures
        bytes < 1000 ==> bytes_text(bytes) == text::dec_text(bytes as nat) + " B"@,
        bytes >= 1000 ==> exists|h: nat| {
            let t = #[trigger] hundredths_text(h);
            &&& h >= 100
            &&& {
                ||| bytes_text(bytes) == t + " KB"@ && is_nearest(h, 1_000, bytes) && h <= 100_000
                ||| bytes_text(bytes) == t + " MB"@ && is_nearest(h, 1_000_000, bytes) && h
                    <= 100_000
                ||| bytes_text(bytes) == t + " GB"@ && is_nearest(h, 1_000_000_000, bytes) && h
                    <= 100_000
                ||| bytes_text(bytes) == t + " TB"@ && is_nearest(h, 1_000_000_000_000, bytes)
            }
        },
{
    if bytes >= 1000 {
        let v = bytes as nat;
        let x = rounded(v);
        lemma_rounded(v);
        lemma_in_unit_is_near(x, v, 0);
        let (y, u) = in_unit(x, 0);
        let k = thousand_to(u);
        let p = two_to(y.scale);
        let n = y.digits * 2048 * 100;
        let h = half_even(n, p);
        vstd::arithmetic::power2::lemma_pow2_pos(y.scale);
        lemma_half_even(n, p, 100);
        lemma_half_even(n, p, 100_000);
        let a = y.digits * 2048 * k;
        let b = v * p;
        let up = 2 * (h * k) - 200 * v - k;
        let down = 200 * v - 2 * (h * k) - k;
        assert(n * k == 100 * a) by (nonlinear_arith)
            requires
                n == y.digits * 2048 * 100,
                a == y.digits * 2048 * k,
        ;
        assert(2 * (h * p) * k <= (2 * n + p) * k) by (nonlinear_arith)
            requires
                2 * (h * p) <= 2 * n + p,
                k >= 0,
        ;
        assert(2 * n * k <= (2 * (h * p) + p) * k) by (nonlinear_arith)
            requires
                2 * n <= 2 * (h * p) + p,
                k >= 0,
        ;
        assert(up * p == 2 * (h * p) * k - 200 * b - p * k) by (nonlinear_arith)
            requires
                up == 2 * (h * k) - 200 * v - k,
                b == v * p,
        ;
        assert(down * p == 200 * b - 2 * (h * p) * k - p * k) by (nonlinear_arith)
            requires
                down == 200 * v - 2 * (h * k) - k,
                b == v * p,
        ;
        assert((2 * n + p) * k == 2 * (n * k) + p * k) by (nonlinear_arith);
        assert(2 * n * k == 2 * (n * k)) by (nonlinear_arith);
        assert((2 * (h * p) + p) * k == 2 * (h * p) * k + p * k) by (nonlinear_arith);
        assert(up * p <= 200 * slip(u));
        assert(down * p <= 200 * slip(u));
        let more: int = if u < 4 {
            0
        } else {
            16_000_000
        };
        if u < 4 {
            assert(p > 9_000_000_000_000_000);
        } else {
            lemma_two_to_grows(36, y.scale);
            vstd::arithmetic::power2::lemma2_to64_rest();
            assert(p >= 0x10_0000_0000);
        }
        assert(200 * slip(u) < (more + 1) * p) by (nonlinear_arith)
            requires
                u < 4 ==> p > 9_000_000_000_000_000 && slip(u) <= 4_245_829_451_776 && more == 0,
                u >= 4 ==> p >= 0x10_0000_0000 && slip(u) <= 5_371_729_358_618_624 && more
                    == 16_000_000,
        ;
        assert(up <= more) by (nonlinear_arith)
            requires
                up * p < (more + 1) * p,
                p > 0,
        ;
        assert(down <= more) by (nonlinear_arith)
            requires
                down * p < (more + 1) * p,
                p > 0,
        ;
        reveal_strlit("KB");
        reveal_strlit("MB");
        reveal_strlit("GB");
        reveal_strlit("TB");
        reveal_strlit(" KB");
        reveal_strlit(" MB");
        reveal_strlit(" GB");
        reveal_strlit(" TB");
        let t = hundredths_text(h);
        assert(t + seq![' '] + "KB"@ =~= t + " KB"@);
        assert(t + seq![' '] + "MB"@ =~= t + " MB"@);
        assert(t + seq![' '] + "GB"@ =~= t + " GB"@);
        assert(t + seq![' '] + "TB"@ =~= t + " TB"@);
    }
}

/// Hundredths are written as a whole number, a point and two digits.
pub proof fn lemma_hundredths_are_two_digits(whole: nat, tens: nat, ones: nat)
    requires
        tens < 10,
        ones < 10,
    ensures
        hundredths_text(100 * whole + 10 * tens + ones) == text::dec_text(whole) + seq![
            '.',
            (48 + tens) as char,
            (48 + ones) as char,
        ],
{
    let h = 100 * whole + 10 * tens + ones;
    assert(h / 100 == whole);
    assert(h / 10 % 10 == tens);
    assert(h % 10 == ones);
}

/// What is rounded lies no further than half a step from what it was; and where
/// two numbers lie as near, the even one is taken.
pub proof fn lemma_rounding_is_to_the_nearest_even(n: nat, d: nat)
    requires
        d > 0,
    ensures
        2 * (d * half_even(n, d) - n) <= d,
        2 * (n - d * half_even(n, d)) <= d,
        2 * (d * half_even(n, d) - n) == d || 2 * (n - d * half_even(n, d)) == d
            ==> half_even(n, d) % 2 == 0,
{
    let q = n / d;
    vstd::arithmetic::div_mod::lemma_fundamental_div_mod(n as int, d as int);
    assert(d * (q + 1) == d * q + d) by (nonlinear_arith);
}

} // verus!
