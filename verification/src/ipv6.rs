//! IPv6 addresses in text.

use vstd::prelude::*;
use vstd::slice::slice_subrange;
use crate::addr;
use crate::addr::{Ipv4Addr, Ipv6Addr};
use crate::bytes;
use crate::text;

verus! {

// ---------------------------------------------------------------------------
// Segments
// ---------------------------------------------------------------------------
/// The number that a sequence of 16-bit segments makes, most significant
/// first.
pub open spec fn seg_value(s: Seq<u16>) -> nat
    decreases s.len(),
{
    if s.len() == 0 {
        0
    } else {
        seg_value(s.drop_last()) * 0x1_0000 + s.last() as nat
    }
}

/// The lowest `n` segments of `v`, most significant first.
pub open spec fn seg_list(v: nat, n: nat) -> Seq<u16>
    decreases n,
{
    if n == 0 {
        Seq::empty()
    } else {
        seg_list(v / 0x1_0000, (n - 1) as nat).push((v % 0x1_0000) as u16)
    }
}

/// How many values `n` segments can take.
pub open spec fn seg_range(n: nat) -> nat
    decreases n,
{
    if n == 0 {
        1
    } else {
        0x1_0000 * seg_range((n - 1) as nat)
    }
}

pub proof fn lemma_seg_range()
    ensures
        seg_range(8) == 0x1_0000_0000_0000_0000_0000_0000_0000_0000,
{
    reveal_with_fuel(seg_range, 9);
}

proof fn lemma_seg_range_grows(a: nat, b: nat)
    requires
        a <= b,
    ensures
        1 <= seg_range(a) <= seg_range(b),
    decreases b,
{
    if b > 0 {
        if a < b {
            lemma_seg_range_grows(a, (b - 1) as nat);
        } else {
            lemma_seg_range_grows((a - 1) as nat, (b - 1) as nat);
        }
    }
}

proof fn lemma_seg_value_bound(s: Seq<u16>)
    ensures
        seg_value(s) < seg_range(s.len()),
    decreases s.len(),
{
    if s.len() > 0 {
        lemma_seg_value_bound(s.drop_last());
    }
}

pub proof fn lemma_seg_list_len(v: nat, n: nat)
    ensures
        seg_list(v, n).len() == n,
    decreases n,
{
    if n > 0 {
        lemma_seg_list_len(v / 0x1_0000, (n - 1) as nat);
    }
}

pub proof fn lemma_seg_value_of_list(v: nat, n: nat)
    requires
        v < seg_range(n),
    ensures
        seg_value(seg_list(v, n)) == v,
    decreases n,
{
    if n > 0 {
        lemma_seg_value_of_list(v / 0x1_0000, (n - 1) as nat);
        assert(seg_list(v, n).drop_last() =~= seg_list(v / 0x1_0000, (n - 1) as nat));
    }
}

pub proof fn lemma_seg_list_of_value(s: Seq<u16>)
    ensures
        seg_list(seg_value(s), s.len()) == s,
    decreases s.len(),
{
    if s.len() > 0 {
        lemma_seg_list_of_value(s.drop_last());
        assert(s =~= s.drop_last().push(s.last()));
    }
}

impl Ipv6Addr {
    /// The eight segments, most significant first.
    pub open spec fn segments(self) -> Seq<u16> {
        seg_list(self.bits as nat, 8)
    }

    /// The sixteen octets, most significant first.
    pub open spec fn octets(self) -> Seq<u8> {
        bytes::be_bytes(self.bits as nat, 16)
    }

    /// The address that eight segments make.
    pub fn from_segments(s: &[u16]) -> (ip: Ipv6Addr)
        requires
            s@.len() == 8,
        ensures
            ip.segments() == s@,
    {
        let mut bits: u128 = 0;
        for i in 0..8
            invariant
                s@.len() == 8,
                bits == seg_value(s@.take(i as int)),
        {
            proof {
                lemma_seg_value_bound(s@.take(i + 1));
                lemma_seg_range_grows((i + 1) as nat, 8);
                lemma_seg_range();
                assert(s@.take(i + 1).drop_last() == s@.take(i as int));
            }
            bits = bits * 0x1_0000 + s[i] as u128;
        }
        proof {
            assert(s@.take(8) == s@);
            lemma_seg_list_of_value(s@);
        }
        Ipv6Addr { bits }
    }

    /// The eight segments, most significant first.
    pub fn to_segments(&self) -> (s: Vec<u16>)
        ensures
            s@ == self.segments(),
    {
        let mut s: Vec<u16> = Vec::new();
        push_segments(&mut s, self.bits, 8);
        s
    }

    /// Whether this is the all-zero address.
    pub fn is_unspecified(&self) -> (r: bool)
        ensures
            r == (self.bits == 0),
    {
        self.bits == 0
    }
}

fn push_segments(out: &mut Vec<u16>, v: u128, n: usize)
    ensures
        final(out)@ == old(out)@ + seg_list(v as nat, n as nat),
    decreases n,
{
    if n > 0 {
        push_segments(out, v / 0x1_0000, n - 1);
        out.push((v % 0x1_0000) as u16);
    }
}

// ---------------------------------------------------------------------------
// Reading
// ---------------------------------------------------------------------------
pub open spec fn is_hex(c: char) -> bool {
    '0' <= c <= '9' || 'a' <= c <= 'f' || 'A' <= c <= 'F'
}

pub open spec fn hex_digit(c: char) -> int {
    if '0' <= c <= '9' {
        c as u32 - '0' as u32
    } else if 'a' <= c <= 'f' {
        c as u32 - 'a' as u32 + 10
    } else {
        c as u32 - 'A' as u32 + 10
    }
}

/// The number that a run of hexadecimal digits stands for.
pub open spec fn hex_value(s: Seq<char>) -> int
    decreases s.len(),
{
    if s.len() == 0 {
        0
    } else {
        hex_value(s.drop_last()) * 16 + hex_digit(s.last())
    }
}

pub open spec fn all_hex(s: Seq<char>) -> bool {
    forall|i: int| 0 <= i < s.len() ==> is_hex(#[trigger] s[i])
}

/// A group: one to four hexadecimal digits.
pub open spec fn group_value(s: Seq<char>) -> Option<u16> {
    if 1 <= s.len() <= 4 && all_hex(s) {
        Some(hex_value(s) as u16)
    } else {
        None
    }
}

/// A list of groups between colons. The last of them may be an IPv4 address
/// in dotted decimal, which stands for two groups, where `dotted` allows it.
pub open spec fn groups_value(s: Seq<char>, dotted: bool) -> Option<Seq<u16>>
    decreases s.len(),
{
    let i = text::find(s, ':');
    if 0 <= i < s.len() {
        match (group_value(s.take(i)), groups_value(s.skip(i + 1), dotted)) {
            (Some(g), Some(rest)) => Some(seq![g] + rest),
            _ => None,
        }
    } else {
        match group_value(s) {
            Some(g) => Some(seq![g]),
            None => match addr::ipv4_value(s) {
                Some(ip) if dotted => Some(seg_list(ip.bits as nat, 2)),
                _ => None,
            },
        }
    }
}

/// The groups on one side of a double colon: none, or a list.
pub open spec fn side_value(s: Seq<char>, dotted: bool) -> Option<Seq<u16>> {
    if s.len() == 0 {
        Some(Seq::empty())
    } else {
        groups_value(s, dotted)
    }
}

/// Whether a double colon stands at `j`.
pub open spec fn gap_at(s: Seq<char>, j: int) -> bool {
    0 <= j && j + 1 < s.len() && s[j] == ':' && s[j + 1] == ':'
}

/// The position of the first double colon, or the length where there is none.
pub open spec fn find_gap(s: Seq<char>) -> int
    decreases s.len(),
{
    if s.len() < 2 {
        s.len() as int
    } else if s[0] == ':' && s[1] == ':' {
        0
    } else {
        1 + find_gap(s.drop_first())
    }
}

pub open spec fn zeros(n: int) -> Seq<u16> {
    Seq::new(n as nat, |i: int| 0u16)
}

/// The eight segments that `s` writes: eight groups, or fewer around a double
/// colon that stands for at least one group of zeros.
pub open spec fn segments_value(s: Seq<char>) -> Option<Seq<u16>> {
    let gap = find_gap(s);
    if gap < s.len() {
        match (side_value(s.take(gap), false), side_value(s.skip(gap + 2), true)) {
            (Some(head), Some(tail)) if head.len() + tail.len() <= 7 => Some(
                head + zeros(8 - head.len() - tail.len()) + tail,
            ),
            _ => None,
        }
    } else {
        match groups_value(s, true) {
            Some(g) if g.len() == 8 => Some(g),
            _ => None,
        }
    }
}

/// The IPv6 address that `s` writes, if any.
pub open spec fn ipv6_value(s: Seq<char>) -> Option<Ipv6Addr> {
    match segments_value(s) {
        Some(g) => Some(Ipv6Addr { bits: seg_value(g) as u128 }),
        None => None,
    }
}

pub proof fn lemma_find_gap(s: Seq<char>)
    ensures
        0 <= find_gap(s) <= s.len(),
        find_gap(s) < s.len() ==> gap_at(s, find_gap(s)),
        forall|j: int| 0 <= j < find_gap(s) ==> !#[trigger] gap_at(s, j),
    decreases s.len(),
{
    if s.len() >= 2 && !gap_at(s, 0) {
        let t = s.drop_first();
        lemma_find_gap(t);
        assert forall|j: int| 0 <= j < find_gap(s) implies !#[trigger] gap_at(s, j) by {
            if j > 0 {
                assert(gap_at(s, j) == gap_at(t, j - 1));
            }
        }
        if find_gap(t) < t.len() {
            assert(gap_at(t, find_gap(t)));
        }
    }
}

proof fn lemma_find_gap_is(s: Seq<char>, i: int)
    requires
        0 <= i <= s.len(),
        i < s.len() ==> gap_at(s, i),
        forall|j: int| 0 <= j < i ==> !#[trigger] gap_at(s, j),
    ensures
        find_gap(s) == i,
{
    lemma_find_gap(s);
}

fn find_double_colon(s: &[char]) -> (r: usize)
    ensures
        r == find_gap(s@),
        r <= s@.len(),
        r < s@.len() ==> r + 2 <= s@.len(),
{
    let n = s.len();
    let mut i: usize = 0;
    while i < n && n - i >= 2
        invariant
            n == s@.len(),
            i <= n,
            forall|j: int| 0 <= j < i ==> !#[trigger] gap_at(s@, j),
        decreases n - i,
    {
        if s[i] == ':' && s[i + 1] == ':' {
            proof {
                lemma_find_gap_is(s@, i as int);
            }
            return i;
        }
        i += 1;
    }
    proof {
        lemma_find_gap_is(s@, n as int);
    }
    n
}

fn read_hex_digit(c: char) -> (r: Option<u16>)
    ensures
        r is Some == is_hex(c),
        r is Some ==> r->0 == hex_digit(c) && r->0 < 16,
{
    if c >= '0' && c <= '9' {
        Some((c as u32 - '0' as u32) as u16)
    } else if c >= 'a' && c <= 'f' {
        Some((c as u32 - 'a' as u32 + 10) as u16)
    } else if c >= 'A' && c <= 'F' {
        Some((c as u32 - 'A' as u32 + 10) as u16)
    } else {
        None
    }
}

fn read_group(s: &[char]) -> (r: Option<u16>)
    ensures
        r == group_value(s@),
{
    let n = s.len();
    if n < 1 || n > 4 {
        return None;
    }
    let mut v: u32 = 0;
    let mut limit: Ghost<int> = Ghost(1);
    for i in 0..n
        invariant
            n == s@.len(),
            n <= 4,
            limit@ == (if i == 0 {
                1int
            } else if i == 1 {
                16
            } else if i == 2 {
                256
            } else if i == 3 {
                4096
            } else {
                65536
            }),
            v < limit@,
            v == hex_value(s@.take(i as int)),
            forall|j: int| 0 <= j < i ==> is_hex(#[trigger] s@[j]),
    {
        match read_hex_digit(s[i]) {
            Some(d) => {
                proof {
                    assert(s@.take(i + 1).drop_last() == s@.take(i as int));
                    limit@ = limit@ * 16;
                }
                v = v * 16 + d as u32;
            },
            None => {
                assert(!is_hex(s@[i as int]));
                return None;
            },
        }
    }
    assert(s@.take(n as int) == s@);
    Some(v as u16)
}

fn read_groups(s: &[char], dotted: bool) -> (r: Option<Vec<u16>>)
    ensures
        match r {
            Some(g) => groups_value(s@, dotted) == Some(g@),
            None => groups_value(s@, dotted) is None,
        },
{
    let n = s.len();
    let mut out: Vec<u16> = Vec::new();
    let mut pos: usize = 0;
    assert(s@.skip(0) == s@);
    loop
        invariant
            n == s@.len(),
            pos <= n,
            groups_value(s@, dotted) is Some == groups_value(s@.skip(pos as int), dotted) is Some,
            groups_value(s@, dotted) is Some ==> groups_value(s@, dotted)->0 == out@
                + groups_value(s@.skip(pos as int), dotted)->0,
        decreases n - pos,
    {
        let rest = slice_subrange(s, pos, n);
        assert(rest@ == s@.skip(pos as int));
        let i = text::find_char(rest, ':');
        proof {
            text::lemma_find(rest@, ':');
        }
        if i >= rest.len() {
            match read_group(rest) {
                Some(g) => {
                    out.push(g);
                    return Some(out);
                },
                None => {
                    let ip = addr::read_ipv4(rest);
                    match ip {
                        Some(v4) => {
                            if !dotted {
                                return None;
                            }
                            push_segments(&mut out, v4.bits as u128, 2);
                            return Some(out);
                        },
                        None => {
                            return None;
                        },
                    }
                },
            }
        }
        let part = slice_subrange(rest, 0, i);
        assert(part@ == rest@.take(i as int));
        assert(s@.skip(pos + i + 1) == rest@.skip(i + 1));
        match read_group(part) {
            Some(g) => {
                let ghost before = out@;
                out.push(g);
                proof {
                    let tail = groups_value(s@.skip(pos + i + 1), dotted);
                    if tail is Some {
                        assert(before + (seq![g] + tail->0) =~= out@ + tail->0);
                    }
                }
                pos = pos + i + 1;
            },
            None => {
                return None;
            },
        }
    }
}

fn read_side(s: &[char], dotted: bool) -> (r: Option<Vec<u16>>)
    ensures
        match r {
            Some(g) => side_value(s@, dotted) == Some(g@),
            None => side_value(s@, dotted) is None,
        },
{
    if s.len() == 0 {
        let v: Vec<u16> = Vec::new();
        assert(v@ =~= Seq::<u16>::empty());
        Some(v)
    } else {
        read_groups(s, dotted)
    }
}

fn read_segments(s: &[char]) -> (r: Option<Vec<u16>>)
    ensures
        match r {
            Some(g) => segments_value(s@) == Some(g@),
            None => segments_value(s@) is None,
        },
{
    let gap = find_double_colon(s);
    if gap < s.len() {
        let left = slice_subrange(s, 0, gap);
        let right = slice_subrange(s, gap + 2, s.len());
        assert(left@ == s@.take(gap as int));
        assert(right@ == s@.skip(gap + 2));
        let head = read_side(left, false);
        let tail = read_side(right, true);
        match (head, tail) {
            (Some(h), Some(t)) => {
                if h.len() > 7 || t.len() > 7 - h.len() {
                    return None;
                }
                let mut out = h;
                let n: usize = 8 - out.len() - t.len();
                let ghost hv = out@;
                for i in 0..n
                    invariant
                        out@ == hv + zeros(i as int),
                {
                    out.push(0);
                    assert(out@ =~= hv + zeros(i + 1));
                }
                for i in 0..t.len()
                    invariant
                        out@ == hv + zeros(n as int) + t@.take(i as int),
                {
                    out.push(t[i]);
                    assert(out@ =~= hv + zeros(n as int) + t@.take(i + 1));
                }
                assert(t@.take(t@.len() as int) == t@);
                Some(out)
            },
            _ => None,
        }
    } else {
        match read_groups(s, true) {
            Some(g) => {
                if g.len() == 8 {
                    Some(g)
                } else {
                    None
                }
            },
            None => None,
        }
    }
}

proof fn lemma_segments_len(s: Seq<char>)
    requires
        segments_value(s) is Some,
    ensures
        segments_value(s)->0.len() == 8,
{
}

/// Reads an IPv6 address.
pub fn read_ipv6(s: &[char]) -> (r: Option<Ipv6Addr>)
    ensures
        r == ipv6_value(s@),
        r is Some ==> Some(r->0.segments()) == segments_value(s@),
{
    match read_segments(s) {
        Some(g) => {
            proof {
                lemma_segments_len(s@);
            }
            let ip = Ipv6Addr::from_segments(g.as_slice());
            proof {
                lemma_seg_range();
                lemma_seg_value_of_list(ip.bits as nat, 8);
            }
            Some(ip)
        },
        None => None,
    }
}

// ---------------------------------------------------------------------------
// Writing
// ---------------------------------------------------------------------------
/// Groups in lower-case hexadecimal between colons.
pub open spec fn groups_text(s: Seq<u16>) -> Seq<char>
    decreases s.len(),
{
    if s.len() == 0 {
        Seq::empty()
    } else if s.len() == 1 {
        text::hex_text(s[0] as nat)
    } else {
        text::hex_text(s[0] as nat) + seq![':'] + groups_text(s.skip(1))
    }
}

/// How many zeros stand in a row from `i` on.
pub open spec fn run_len(s: Seq<u16>, i: int) -> int
    decreases s.len() - i,
{
    if 0 <= i < s.len() && s[i] == 0 {
        1 + run_len(s, i + 1)
    } else {
        0
    }
}

/// The start and the length of the longest run of zeros that begins before
/// `k`: the first of them, where several are as long.
pub open spec fn longest_run(s: Seq<u16>, k: int) -> (int, int)
    decreases k,
{
    if k <= 0 {
        (0, 0)
    } else {
        let best = longest_run(s, k - 1);
        if run_len(s, k - 1) > best.1 {
            (k - 1, run_len(s, k - 1))
        } else {
            best
        }
    }
}

impl Ipv6Addr {
    /// Whether the address stands for an IPv4 address.
    pub open spec fn is_mapped(self) -> bool {
        self.bits as nat / 0x1_0000_0000 == 0xffff
    }

    /// The address in its usual text: the longest run of at least two zero
    /// groups is a double colon, and a mapped IPv4 address is dotted.
    pub open spec fn text(self) -> Seq<char> {
        let s = self.segments();
        let (start, len) = longest_run(s, 8);
        if self.is_mapped() {
            seq![':', ':', 'f', 'f', 'f', 'f', ':'] + (Ipv4Addr {
                bits: (self.bits % 0x1_0000_0000) as u32,
            }).text()
        } else if len > 1 {
            groups_text(s.take(start)) + seq![':', ':'] + groups_text(s.skip(start + len))
        } else {
            groups_text(s)
        }
    }

    /// Appends the address in its usual text.
    pub fn write(&self, out: &mut String)
        ensures
            final(out)@ == old(out)@ + self.text(),
    {
        if self.bits / 0x1_0000_0000 == 0xffff {
            let ghost before = out@;
            out.push(':');
            out.push(':');
            out.push('f');
            out.push('f');
            out.push('f');
            out.push('f');
            out.push(':');
            assert(out@ =~= before + seq![':', ':', 'f', 'f', 'f', 'f', ':']);
            let v4 = Ipv4Addr { bits: (self.bits % 0x1_0000_0000) as u32 };
            v4.write(out);
            assert(out@ =~= before + (seq![':', ':', 'f', 'f', 'f', 'f', ':'] + v4.text()));
            return;
        }
        let s = self.to_segments();
        proof {
            lemma_seg_list_len(self.bits as nat, 8);
            lemma_longest_run(s@, 8);
        }
        let (start, len) = find_longest_run(&s);
        let ghost before = out@;
        if len > 1 {
            write_groups(out, &s, 0, start);
            out.push(':');
            out.push(':');
            write_groups(out, &s, start + len, 8);
            proof {
                assert(s@.subrange(0, start as int) =~= s@.take(start as int));
                assert(s@.subrange(start + len, 8) =~= s@.skip(start + len));
                assert(out@ =~= before + (groups_text(s@.take(start as int)) + seq![':', ':']
                    + groups_text(s@.skip(start + len))));
            }
        } else {
            write_groups(out, &s, 0, 8);
            assert(s@.subrange(0, 8) =~= s@);
        }
    }
}

proof fn lemma_run_len(s: Seq<u16>, i: int)
    requires
        0 <= i <= s.len(),
    ensures
        0 <= run_len(s, i) <= s.len() - i,
        forall|j: int| i <= j < i + run_len(s, i) ==> s[j] == 0,
    decreases s.len() - i,
{
    if i < s.len() && s[i] == 0 {
        lemma_run_len(s, i + 1);
    }
}

proof fn lemma_longest_run(s: Seq<u16>, k: int)
    requires
        0 <= k <= s.len(),
    ensures
        ({
            let (start, len) = longest_run(s, k);
            &&& 0 <= start
            &&& 0 <= len
            &&& start + len <= s.len()
            &&& forall|j: int| start <= j < start + len ==> s[j] == 0
        }),
    decreases k,
{
    if k > 0 {
        lemma_longest_run(s, k - 1);
        lemma_run_len(s, k - 1);
    }
}

fn count_zeros(s: &Vec<u16>, i: usize) -> (n: usize)
    requires
        i <= s@.len(),
    ensures
        n == run_len(s@, i as int),
        n <= s@.len() - i,
    decreases s@.len() - i,
{
    if i < s.len() && s[i] == 0 {
        1 + count_zeros(s, i + 1)
    } else {
        0
    }
}

fn find_longest_run(s: &Vec<u16>) -> (r: (usize, usize))
    requires
        s@.len() == 8,
    ensures
        (r.0 as int, r.1 as int) == longest_run(s@, 8),
        r.0 + r.1 <= 8,
{
    let mut best: (usize, usize) = (0, 0);
    for k in 0..8
        invariant
            s@.len() == 8,
            (best.0 as int, best.1 as int) == longest_run(s@, k as int),
            best.0 + best.1 <= 8,
    {
        let n = count_zeros(s, k);
        if n > best.1 {
            best = (k, n);
        }
    }
    best
}

fn write_groups(out: &mut String, s: &Vec<u16>, from: usize, to: usize)
    requires
        from <= to <= s@.len(),
    ensures
        final(out)@ == old(out)@ + groups_text(s@.subrange(from as int, to as int)),
    decreases to - from,
{
    let ghost part = s@.subrange(from as int, to as int);
    if from < to {
        let ghost before = out@;
        text::push_hex(out, s[from] as u64);
        if from + 1 < to {
            out.push(':');
            write_groups(out, s, from + 1, to);
            proof {
                assert(part.skip(1) =~= s@.subrange(from + 1, to as int));
                assert(out@ =~= before + (text::hex_text(part[0] as nat) + seq![':'] + groups_text(
                    part.skip(1),
                )));
            }
        }
    } else {
        assert(out@ =~= out@ + groups_text(part));
    }
}

// ---------------------------------------------------------------------------
// Reading what was written
// ---------------------------------------------------------------------------
proof fn lemma_hex_text(n: nat)
    ensures
        text::hex_text(n).len() > 0,
        all_hex(text::hex_text(n)),
        hex_value(text::hex_text(n)) == n,
    decreases n,
{
    let t = text::hex_text(n);
    if n < 16 {
        assert(t.drop_last() =~= Seq::<char>::empty());
        assert(hex_value(t.drop_last()) == 0);
    } else {
        lemma_hex_text(n / 16);
        let p = text::hex_text(n / 16);
        assert(t.drop_last() =~= p);
        assert forall|i: int| 0 <= i < t.len() implies is_hex(#[trigger] t[i]) by {
            if i < p.len() {
                assert(is_hex(p[i]));
            }
        }
    }
}

proof fn lemma_group_text(g: u16)
    ensures
        group_value(text::hex_text(g as nat)) == Some(g),
        text::hex_text(g as nat).len() > 0,
        forall|i: int| 0 <= i < text::hex_text(g as nat).len() ==> #[trigger] text::hex_text(g as nat)[i] != ':',
{
    let n = g as nat;
    let t = text::hex_text(n);
    lemma_hex_text(n);
    reveal_with_fuel(text::hex_text, 5);
    assert(t.len() <= 4);
    assert forall|i: int| 0 <= i < t.len() implies #[trigger] t[i] != ':' by {
        assert(is_hex(t[i]));
    }
}

/// What the text of a list of groups looks like, and that it reads back.
proof fn lemma_groups_text(s: Seq<u16>, dotted: bool)
    requires
        s.len() > 0,
    ensures
        groups_value(groups_text(s), dotted) == Some(s),
        groups_text(s).len() > 0,
        groups_text(s)[0] != ':',
        groups_text(s).last() != ':',
        forall|j: int| !#[trigger] gap_at(groups_text(s), j),
    decreases s.len(),
{
    let h = text::hex_text(s[0] as nat);
    let t = groups_text(s);
    lemma_group_text(s[0]);
    if s.len() == 1 {
        text::lemma_find_is(t, ':', t.len() as int);
        assert(seq![s[0]] =~= s);
    } else {
        let r = groups_text(s.skip(1));
        lemma_groups_text(s.skip(1), dotted);
        let i = h.len() as int;
        assert(t[i] == ':');
        assert forall|j: int| 0 <= j < i implies t[j] != ':' by {
            assert(t[j] == h[j]);
        }
        text::lemma_find_is(t, ':', i);
        assert(t.take(i) =~= h);
        assert(t.skip(i + 1) =~= r);
        assert(seq![s[0]] + s.skip(1) =~= s);
        assert(t.last() == r.last());
        assert forall|j: int| !#[trigger] gap_at(t, j) by {
            if gap_at(t, j) {
                if j < i {
                    assert(t[j] == h[j]);
                } else if j == i {
                    assert(t[j + 1] == r[0]);
                } else {
                    assert(t[j] == r[j - i - 1]);
                    assert(t[j + 1] == r[j - i]);
                    assert(gap_at(r, j - i - 1));
                }
            }
        }
    }
}

/// A double colon after a list of groups is the first one.
proof fn lemma_gap_after(a: Seq<u16>, b: Seq<char>)
    ensures
        ({
            let s = groups_text(a) + seq![':', ':'] + b;
            let i = groups_text(a).len() as int;
            &&& find_gap(s) == i
            &&& s.take(i) == groups_text(a)
            &&& s.skip(i + 2) == b
            &&& side_value(groups_text(a), false) == Some(a)
        }),
{
    let g = groups_text(a);
    let s = g + seq![':', ':'] + b;
    let i = g.len() as int;
    if a.len() > 0 {
        lemma_groups_text(a, false);
    } else {
        assert(a =~= Seq::<u16>::empty());
    }
    assert(gap_at(s, i));
    assert forall|j: int| 0 <= j < i implies !#[trigger] gap_at(s, j) by {
        if gap_at(s, j) {
            assert(s[j] == g[j]);
            if j + 1 < i {
                assert(s[j + 1] == g[j + 1]);
                assert(gap_at(g, j));
            }
        }
    }
    lemma_find_gap_is(s, i);
    assert(s.take(i) =~= g);
    assert(s.skip(i + 2) =~= b);
}

/// Dotted decimal has no colon.
pub proof fn lemma_dotted_no_colon(ip: Ipv4Addr)
    ensures
        ip.text().len() > 0,
        forall|j: int| 0 <= j < ip.text().len() ==> #[trigger] ip.text()[j] != ':',
        group_value(ip.text()) is None,
{
    let o = ip.octets();
    let t = ip.text();
    let d0 = text::dec_text(o[0] as nat);
    let d1 = text::dec_text(o[1] as nat);
    let d2 = text::dec_text(o[2] as nat);
    let d3 = text::dec_text(o[3] as nat);
    text::lemma_dec_text(o[0] as nat);
    text::lemma_dec_text(o[1] as nat);
    text::lemma_dec_text(o[2] as nat);
    text::lemma_dec_text(o[3] as nat);
    let a = d0.len() as int;
    let b = a + 1 + d1.len();
    let c = b + 1 + d2.len();
    assert(t.len() == c + 1 + d3.len());
    assert forall|j: int| 0 <= j < t.len() implies #[trigger] t[j] != ':' by {
        if j < a {
            assert(t[j] == d0[j]);
            assert(text::is_digit(d0[j]));
        } else if j == a || j == b || j == c {
        } else if j < b {
            assert(t[j] == d1[j - a - 1]);
            assert(text::is_digit(d1[j - a - 1]));
        } else if j < c {
            assert(t[j] == d2[j - b - 1]);
            assert(text::is_digit(d2[j - b - 1]));
        } else {
            assert(t[j] == d3[j - c - 1]);
            assert(text::is_digit(d3[j - c - 1]));
        }
    }
}

proof fn lemma_mapped_round_trip(ip: Ipv6Addr)
    requires
        ip.is_mapped(),
    ensures
        segments_value(ip.text()) == Some(ip.segments()),
{
    let v4 = Ipv4Addr { bits: (ip.bits % 0x1_0000_0000) as u32 };
    let d = v4.text();
    let f = seq!['f', 'f', 'f', 'f'];
    let b = f + seq![':'] + d;
    let s = ip.text();
    assert(s =~= groups_text(Seq::<u16>::empty()) + seq![':', ':'] + b);
    lemma_gap_after(Seq::<u16>::empty(), b);
    lemma_dotted_no_colon(v4);
    addr::lemma_ipv4_round_trip(v4);
    text::lemma_find_is(d, ':', d.len() as int);
    assert(groups_value(d, true) == Some(seg_list(v4.bits as nat, 2)));
    text::lemma_find_is(b, ':', 4);
    assert(b.take(4) =~= f);
    assert(b.skip(5) =~= d);
    assert(group_value(f) == Some(0xffffu16)) by {
        reveal_with_fuel(hex_value, 6);
        assert(all_hex(f));
        assert(f.drop_last() =~= seq!['f', 'f', 'f']);
        assert(f.drop_last().drop_last() =~= seq!['f', 'f']);
        assert(f.drop_last().drop_last().drop_last() =~= seq!['f']);
        assert(f.drop_last().drop_last().drop_last().drop_last() =~= Seq::<char>::empty());
    }
    let tail = seq![0xffffu16] + seg_list(v4.bits as nat, 2);
    assert(side_value(b, true) == Some(tail));
    lemma_seg_list_len(v4.bits as nat, 2);
    assert(Seq::<u16>::empty() + zeros(5) + tail =~= ip.segments()) by {
        let v = ip.bits as nat;
        reveal_with_fuel(seg_list, 9);
        assert(v / 0x1_0000_0000 == 0xffff);
        assert(v / 0x1_0000 / 0x1_0000 == 0xffff);
        assert(v4.bits as nat == v % 0x1_0000_0000);
        assert(v % 0x1_0000_0000 % 0x1_0000 == v % 0x1_0000);
        assert(v % 0x1_0000_0000 / 0x1_0000 % 0x1_0000 == v / 0x1_0000 % 0x1_0000);
    }
}

/// Reading the text of an IPv6 address gives the address back.
pub proof fn lemma_ipv6_round_trip(ip: Ipv6Addr)
    ensures
        ipv6_value(ip.text()) == Some(ip),
{
    let s = ip.segments();
    lemma_seg_list_len(ip.bits as nat, 8);
    lemma_seg_range();
    lemma_seg_value_of_list(ip.bits as nat, 8);
    if ip.is_mapped() {
        lemma_mapped_round_trip(ip);
    } else {
        lemma_longest_run(s, 8);
        let (start, len) = longest_run(s, 8);
        if len > 1 {
            let b = s.skip(start + len);
            lemma_gap_after(s.take(start), groups_text(b));
            if b.len() > 0 {
                lemma_groups_text(b, true);
            } else {
                assert(b =~= Seq::<u16>::empty());
            }
            assert(side_value(groups_text(b), true) == Some(b));
            assert(s.take(start) + zeros(8 - start - b.len()) + b =~= s);
        } else {
            lemma_groups_text(s, true);
            let t = groups_text(s);
            lemma_find_gap(t);
        }
        assert(segments_value(ip.text()) == Some(s));
    }
}

/// The characters of an address.
pub open spec fn is_address_char(c: char) -> bool {
    is_hex(c) || c == ':' || c == '.'
}

proof fn lemma_groups_chars(s: Seq<u16>)
    ensures
        forall|j: int| 0 <= j < groups_text(s).len() ==> is_address_char(#[trigger] groups_text(s)[j]),
    decreases s.len(),
{
    if s.len() > 0 {
        let h = text::hex_text(s[0] as nat);
        let t = groups_text(s);
        lemma_hex_text(s[0] as nat);
        if s.len() > 1 {
            lemma_groups_chars(s.skip(1));
        }
        assert forall|j: int| 0 <= j < t.len() implies is_address_char(#[trigger] t[j]) by {
            if j < h.len() {
                assert(t[j] == h[j]);
                assert(is_hex(h[j]));
            } else if j > h.len() {
                assert(t[j] == groups_text(s.skip(1))[j - h.len() - 1]);
            }
        }
    }
}

/// Dotted decimal is made of digits and dots.
pub proof fn lemma_dotted_chars(ip: Ipv4Addr)
    ensures
        forall|j: int|
            0 <= j < ip.text().len() ==> text::is_digit(#[trigger] ip.text()[j]) || ip.text()[j] == '.',
{
    let o = ip.octets();
    let t = ip.text();
    let d0 = text::dec_text(o[0] as nat);
    let d1 = text::dec_text(o[1] as nat);
    let d2 = text::dec_text(o[2] as nat);
    let d3 = text::dec_text(o[3] as nat);
    text::lemma_dec_text(o[0] as nat);
    text::lemma_dec_text(o[1] as nat);
    text::lemma_dec_text(o[2] as nat);
    text::lemma_dec_text(o[3] as nat);
    let a = d0.len() as int;
    let b = a + 1 + d1.len();
    let c = b + 1 + d2.len();
    assert forall|j: int| 0 <= j < t.len() implies text::is_digit(#[trigger] t[j]) || t[j] == '.' by {
        if j < a {
            assert(t[j] == d0[j]);
        } else if j == a || j == b || j == c {
        } else if j < b {
            assert(t[j] == d1[j - a - 1]);
        } else if j < c {
            assert(t[j] == d2[j - b - 1]);
        } else {
            assert(t[j] == d3[j - c - 1]);
        }
    }
}

/// The text of an IPv6 address is made of hexadecimal digits, colons and
/// dots, with at least one colon.
pub proof fn lemma_ipv6_chars(ip: Ipv6Addr)
    ensures
        forall|j: int| 0 <= j < ip.text().len() ==> is_address_char(#[trigger] ip.text()[j]),
        exists|j: int| 0 <= j < ip.text().len() && #[trigger] ip.text()[j] == ':',
{
    let s = ip.segments();
    let t = ip.text();
    lemma_seg_list_len(ip.bits as nat, 8);
    lemma_longest_run(s, 8);
    let (start, len) = longest_run(s, 8);
    if ip.is_mapped() {
        let v4 = Ipv4Addr { bits: (ip.bits % 0x1_0000_0000) as u32 };
        lemma_dotted_chars(v4);
        assert(t[0] == ':');
        assert forall|j: int| 0 <= j < t.len() implies is_address_char(#[trigger] t[j]) by {
            if j >= 7 {
                assert(t[j] == v4.text()[j - 7]);
            }
        }
    } else if len > 1 {
        let a = groups_text(s.take(start));
        let b = groups_text(s.skip(start + len));
        lemma_groups_chars(s.take(start));
        lemma_groups_chars(s.skip(start + len));
        assert(t[a.len() as int] == ':');
        assert forall|j: int| 0 <= j < t.len() implies is_address_char(#[trigger] t[j]) by {
            if j < a.len() {
                assert(t[j] == a[j]);
            } else if j >= a.len() + 2 {
                assert(t[j] == b[j - a.len() - 2]);
            }
        }
    } else {
        lemma_groups_chars(s);
        let h = text::hex_text(s[0] as nat);
        assert(t[h.len() as int] == ':');
    }
}

/// A segment holds two octets, the higher first, and each further segment the
/// next ones.
pub proof fn lemma_segments_grow(v: nat, n: nat)
    ensures
        seg_list(v, 0).len() == 0,
        seg_list(v, n + 1) == seg_list(v / 0x1_0000, n).push((v % 0x1_0000) as u16),
        seg_value(Seq::empty()) == 0,
        seg_list(v, n + 1).last() == v % 0x1_0000,
{
}

/// The digits of a group are those of base sixteen, capital or small alike.
pub proof fn lemma_hex_digits(c: char)
    ensures
        is_hex(c) <==> 48 <= c as u32 <= 57 || 65 <= c as u32 <= 70 || 97 <= c as u32 <= 102,
        48 <= c as u32 <= 57 ==> hex_digit(c) == c as u32 - 48,
        65 <= c as u32 <= 70 ==> hex_digit(c) == c as u32 - 55,
        97 <= c as u32 <= 102 ==> hex_digit(c) == c as u32 - 87,
{
}

/// A group is read from one to four digits, and each digit further to the left
/// counts for sixteen times as much.
pub proof fn lemma_groups_are_read(s: Seq<char>, c: char, g: u16)
    ensures
        s.len() == 0 || s.len() > 4 ==> group_value(s) is None,
        group_value(s) is Some && is_hex(c) && s.len() < 4 ==> group_value(s.push(c)) == Some(
            (16 * group_value(s)->0 + hex_digit(c)) as u16,
        ),
        is_hex(c) ==> group_value(seq![c]) == Some(hex_digit(c) as u16),
        !is_hex(c) ==> group_value(s.push(c)) is None,
        group_value(text::hex_text(g as nat)) == Some(g),
{
    let t = s.push(c);
    assert(t.drop_last() =~= s);
    assert(seq![c].drop_last() =~= Seq::<char>::empty());
    reveal_with_fuel(hex_value, 2);
    lemma_group_text(g);
    if !is_hex(c) {
        assert(!is_hex(t[s.len() as int]));
    }
    if group_value(s) is Some && is_hex(c) && s.len() < 4 {
        assert forall|i: int| 0 <= i < t.len() implies is_hex(#[trigger] t[i]) by {
            if i < s.len() {
                assert(is_hex(s[i]));
            }
        }
        lemma_hex_value_bound(s);
    }
}

proof fn lemma_hex_value_bound(s: Seq<char>)
    requires
        all_hex(s),
        s.len() <= 3,
    ensures
        0 <= hex_value(s) <= 0xfff,
{
    reveal_with_fuel(hex_value, 4);
    if s.len() > 0 {
        assert(is_hex(s.last())) by {
            assert(is_hex(s[s.len() - 1]));
        }
        let t = s.drop_last();
        if t.len() > 0 {
            assert(is_hex(t.last())) by {
                assert(is_hex(s[s.len() - 2]));
            }
            let u = t.drop_last();
            if u.len() > 0 {
                assert(is_hex(u.last())) by {
                    assert(is_hex(s[s.len() - 3]));
                }
            }
        }
    }
}

/// Eight groups are read as they stand, and fewer, around a double colon, with
/// zeros for those that are left out; the groups of an address are those that it
/// is read from.
pub proof fn lemma_groups_make_the_address(
    s: Seq<u16>,
    head: Seq<u16>,
    tail: Seq<u16>,
)
    requires
        s.len() == 8,
        head.len() + tail.len() <= 7,
    ensures
        ipv6_value(groups_text(s)) matches Some(ip) && ip.segments() == s,
        ipv6_value(groups_text(head) + seq![':', ':'] + groups_text(tail)) matches Some(ip)
            && ip.segments() == head + zeros(8 - head.len() - tail.len()) + tail,
{
    lemma_groups_text(s, true);
    lemma_find_gap(groups_text(s));
    lemma_seg_value_bound(s);
    lemma_seg_range();
    lemma_seg_list_of_value(s);
    lemma_gap_after(head, groups_text(tail));
    if tail.len() > 0 {
        lemma_groups_text(tail, true);
    } else {
        assert(tail =~= Seq::<u16>::empty());
    }
    let all = head + zeros(8 - head.len() - tail.len()) + tail;
    lemma_seg_value_bound(all);
    lemma_seg_list_of_value(all);
}

proof fn lemma_run_len_is(s: Seq<u16>, i: int, n: int)
    requires
        0 <= i,
        0 <= n,
        i + n <= s.len(),
        forall|j: int| i <= j < i + n ==> s[j] == 0,
        i + n == s.len() || s[i + n] != 0,
    ensures
        run_len(s, i) == n,
    decreases n,
{
    if n > 0 {
        lemma_run_len_is(s, i + 1, n - 1);
    }
}

proof fn lemma_longest_run_is(s: Seq<u16>, k: int, start: int, len: int)
    requires
        0 <= start,
        len > 0,
        start < k <= s.len(),
        run_len(s, start) == len,
        forall|i: int| 0 <= i < start ==> run_len(s, i) < len,
        forall|i: int| start <= i < k ==> run_len(s, i) <= len,
    ensures
        longest_run(s, k) == (start, len),
    decreases k,
{
    if k - 1 > start {
        lemma_longest_run_is(s, k - 1, start, len);
    } else {
        lemma_longest_run_below(s, start, len);
    }
}

proof fn lemma_longest_run_below(s: Seq<u16>, k: int, len: int)
    requires
        0 <= k <= s.len(),
        len > 0,
        forall|i: int| 0 <= i < k ==> run_len(s, i) < len,
    ensures
        longest_run(s, k).1 < len,
    decreases k,
{
    if k > 0 {
        lemma_longest_run_below(s, k - 1, len);
    }
}

/// In the text of an address the longest row of at least two zero groups is a
/// double colon, the first of them where several are as long; all other groups
/// are written out. Where no two zero groups stand side by side there is none. A
/// mapped IPv4 address keeps its dots.
pub proof fn lemma_text_shortens_the_longest_row(ip: Ipv6Addr, start: int, len: int)
    requires
        !ip.is_mapped(),
        0 <= start,
        len >= 2,
        start + len <= 8,
        forall|j: int| start <= j < start + len ==> ip.segments()[j] == 0,
        start + len == 8 || ip.segments()[start + len] != 0,
        forall|i: int| 0 <= i < start ==> #[trigger] run_len(ip.segments(), i) < len,
        forall|i: int| start <= i < 8 ==> #[trigger] run_len(ip.segments(), i) <= len,
    ensures
        ip.text() == groups_text(ip.segments().take(start)) + seq![':', ':'] + groups_text(
            ip.segments().skip(start + len),
        ),
{
    let s = ip.segments();
    lemma_seg_list_len(ip.bits as nat, 8);
    lemma_run_len_is(s, start, len);
    lemma_longest_run_is(s, 8, start, len);
}

/// An address without two zero groups side by side is written out in full, and
/// one that stands for an IPv4 address with that in dots behind `::ffff:`.
pub proof fn lemma_text_in_full_or_mapped(ip: Ipv6Addr, v4: Ipv4Addr)
    ensures
        !ip.is_mapped() && (forall|i: int|
            0 <= i < 7 ==> #[trigger] ip.segments()[i] != 0 || ip.segments()[i + 1] != 0) ==> ip.text()
            == groups_text(ip.segments()),
        ip.bits == 0xffff_0000_0000 + v4.bits ==> ip.text() == "::ffff:"@ + v4.text(),
        ip.is_mapped() <==> 0xffff_0000_0000 <= ip.bits <= 0xffff_ffff_ffff,
{
    let s = ip.segments();
    lemma_seg_list_len(ip.bits as nat, 8);
    lemma_longest_run(s, 8);
    let (start, len) = longest_run(s, 8);
    if !ip.is_mapped() && len > 1 {
        assert(s[start] == 0 && s[start + 1] == 0);
    }
    reveal_strlit("::ffff:");
    assert("::ffff:"@ =~= seq![':', ':', 'f', 'f', 'f', 'f', ':']);
}

} // verus!
