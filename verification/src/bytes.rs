//! Big-endian numbers.

use vstd::prelude::*;

verus! {

/// The number that a big-endian byte sequence stands for.
pub open spec fn be_value(s: Seq<u8>) -> nat
    decreases s.len(),
{
    if s.len() == 0 {
        0
    } else {
        be_value(s.drop_last()) * 256 + s.last() as nat
    }
}

/// The lowest `n` bytes of `v`, most significant first.
pub open spec fn be_bytes(v: nat, n: nat) -> Seq<u8>
    decreases n,
{
    if n == 0 {
        Seq::empty()
    } else {
        be_bytes(v / 256, (n - 1) as nat).push((v % 256) as u8)
    }
}

/// How many values `n` bytes can take.
pub open spec fn byte_range(n: nat) -> nat
    decreases n,
{
    if n == 0 {
        1
    } else {
        256 * byte_range((n - 1) as nat)
    }
}

pub proof fn lemma_byte_range()
    ensures
        byte_range(1) == 0x100,
        byte_range(2) == 0x1_0000,
        byte_range(4) == 0x1_0000_0000,
        byte_range(16) == 0x1_0000_0000_0000_0000_0000_0000_0000_0000,
{
    reveal_with_fuel(byte_range, 17);
}

pub proof fn lemma_byte_range_grows(a: nat, b: nat)
    requires
        a <= b,
    ensures
        1 <= byte_range(a) <= byte_range(b),
    decreases b,
{
    if b > 0 {
        if a < b {
            lemma_byte_range_grows(a, (b - 1) as nat);
        } else {
            lemma_byte_range_grows((a - 1) as nat, (b - 1) as nat);
        }
    }
}

pub proof fn lemma_be_value_bound(s: Seq<u8>)
    ensures
        be_value(s) < byte_range(s.len()),
    decreases s.len(),
{
    if s.len() > 0 {
        lemma_be_value_bound(s.drop_last());
    }
}

pub proof fn lemma_be_bytes_len(v: nat, n: nat)
    ensures
        be_bytes(v, n).len() == n,
    decreases n,
{
    if n > 0 {
        lemma_be_bytes_len(v / 256, (n - 1) as nat);
    }
}

/// Writing a byte sequence's number gives the sequence back.
pub proof fn lemma_be_bytes_of_value(s: Seq<u8>)
    ensures
        be_bytes(be_value(s), s.len()) == s,
    decreases s.len(),
{
    if s.len() > 0 {
        lemma_be_bytes_of_value(s.drop_last());
        assert(s =~= s.drop_last().push(s.last()));
    }
}

/// Reading the bytes of a number that fits gives the number back.
pub proof fn lemma_be_value_of_bytes(v: nat, n: nat)
    requires
        v < byte_range(n),
    ensures
        be_value(be_bytes(v, n)) == v,
    decreases n,
{
    if n > 0 {
        lemma_be_value_of_bytes(v / 256, (n - 1) as nat);
        let p = be_bytes(v / 256, (n - 1) as nat);
        assert(be_bytes(v, n).drop_last() =~= p);
    }
}

/// Appends the lowest `n` bytes of `v`, most significant first.
pub fn push_be(out: &mut Vec<u8>, v: u128, n: usize)
    ensures
        final(out)@ == old(out)@ + be_bytes(v as nat, n as nat),
    decreases n,
{
    if n > 0 {
        push_be(out, v / 256, n - 1);
        out.push((v % 256) as u8);
    }
}

/// Reads a big-endian number of at most sixteen bytes.
pub fn read_be(s: &[u8]) -> (v: u128)
    requires
        s@.len() <= 16,
    ensures
        v == be_value(s@),
        v < byte_range(s@.len()),
{
    let mut v: u128 = 0;
    for i in 0..s.len()
        invariant
            s@.len() <= 16,
            v == be_value(s@.take(i as int)),
    {
        proof {
            lemma_be_value_bound(s@.take(i + 1));
            lemma_byte_range_grows((i + 1) as nat, 16);
            lemma_byte_range();
            assert(s@.take(i + 1).drop_last() == s@.take(i as int));
        }
        v = v * 256 + s[i] as u128;
    }
    proof {
        assert(s@.take(s@.len() as int) == s@);
        lemma_be_value_bound(s@);
    }
    v
}

/// Reads a big-endian number of two bytes.
pub fn read_be_u16(hi: u8, lo: u8) -> (v: u16)
    ensures
        v == be_value(seq![hi, lo]),
        v == hi * 256 + lo,
{
    proof {
        let s = seq![hi, lo];
        assert(s.drop_last() =~= seq![hi]);
        assert(seq![hi].drop_last() =~= Seq::<u8>::empty());
        reveal_with_fuel(be_value, 3);
        assert(be_value(seq![hi]) == hi);
    }
    hi as u16 * 256 + lo as u16
}

/// Two octets are the high and the low one, and four are the four digits to the
/// base 256, the highest first.
pub proof fn lemma_be_bytes_digits(v: nat)
    ensures
        v < 0x1_0000 ==> be_bytes(v, 2) == seq![(v / 0x100) as u8, (v % 0x100) as u8],
        v < 0x1_0000_0000 ==> be_bytes(v, 4) == seq![
            (v / 0x100_0000) as u8,
            (v / 0x1_0000 % 0x100) as u8,
            (v / 0x100 % 0x100) as u8,
            (v % 0x100) as u8,
        ],
{
    reveal_with_fuel(be_bytes, 5);
}

/// Each octet further to the left counts for 256 times as much, in a number of
/// any length.
pub proof fn lemma_be_value_digits(s: Seq<u8>, last: u8)
    ensures
        be_value(Seq::empty()) == 0,
        be_value(seq![last]) == last,
        be_value(s.push(last)) == 256 * be_value(s) + last,
        be_value(seq![last] + s) == last * byte_range(s.len()) + be_value(s),
    decreases s.len(),
{
    reveal_with_fuel(be_value, 2);
    reveal_with_fuel(byte_range, 2);
    assert(s.push(last).drop_last() =~= s);
    assert(seq![last].drop_last() =~= Seq::<u8>::empty());
    if s.len() == 0 {
        assert(seq![last] + s =~= seq![last]);
        let one = byte_range(s.len()) as int;
        assert(last * one == last) by (nonlinear_arith)
            requires
                one == 1,
        ;
    } else {
        let t = s.drop_last();
        lemma_be_value_digits(t, last);
        assert((seq![last] + s).drop_last() =~= seq![last] + t);
        assert((seq![last] + s).last() == s.last());
        let r = byte_range(t.len()) as int;
        assert(last * (256 * r) == 256 * (last * r)) by (nonlinear_arith);
        assert(be_value(seq![last] + s) == 256 * be_value(seq![last] + t) + s.last());
        assert(be_value(s) == 256 * be_value(t) + s.last());
    }
}

/// One octet more in front of the last one holds the rest of the number.
pub proof fn lemma_be_bytes_grow(v: nat, n: nat)
    ensures
        be_bytes(v, 0).len() == 0,
        be_bytes(v, n + 1) == be_bytes(v / 256, n).push((v % 256) as u8),
{
}

} // verus!
