//! The output of system commands, and their arguments.

use vstd::prelude::*;
use crate::addr::IpAddr;
use crate::scan;
use crate::text;

verus! {

/// What `String::from_utf8_lossy` makes of octets that need not be text.
pub uninterp spec fn lossy_text(bytes: Seq<u8>) -> Seq<char>;

/// `String::from_utf8_lossy`: the text of octets, with a replacement for what
/// is not text. Octets that are text are decoded as they are; what the others
/// become is not said.
#[verifier::external_body]
pub(crate) fn lossy(bytes: &[u8]) -> (r: String)
    ensures
        r@ == lossy_text(bytes@),
        vstd::utf8::valid_utf8(bytes@) ==> r@ == vstd::utf8::decode_utf8(bytes@),
{
    String::from_utf8_lossy(bytes).into_owned()
}

/// A network in prefix notation.
pub open spec fn network_text(dst: IpAddr, prefix: u8) -> Seq<char> {
    dst.text() + seq!['/'] + text::dec_text(prefix as nat)
}

pub fn write_network(dst: IpAddr, prefix: u8) -> (r: String)
    ensures
        r@ == network_text(dst, prefix),
{
    let mut out = String::new();
    dst.write(&mut out);
    out.push('/');
    text::push_decimal(&mut out, prefix as u64);
    assert(out@ =~= network_text(dst, prefix));
    out
}

/// Two texts, one after the other.
pub fn joined(a: &str, b: &str) -> (r: String)
    ensures
        r@ == a@ + b@,
{
    let mut out = String::new();
    text::push_text(&mut out, a);
    text::push_text(&mut out, b);
    assert(out@ =~= a@ + b@);
    out
}

/// Appends an argument.
pub fn push_arg(args: &mut Vec<String>, arg: &str)
    ensures
        text::texts(final(args)@) == text::texts(old(args)@).push(arg@),
{
    let ghost before = args@;
    let owned = arg.to_owned();
    args.push(owned);
    assert(text::texts(args@) =~= text::texts(before).push(arg@));
}

/// What follows a label on the first line that begins with it, from the
/// `i`-th line on. White space around the line does not count.
pub open spec fn labelled(lines: Seq<Seq<char>>, label: Seq<char>, i: int) -> Option<Seq<char>>
    decreases lines.len() - i,
{
    if !(0 <= i < lines.len()) {
        None
    } else {
        match scan::after_prefix(scan::trim(lines[i]), label) {
            Some(rest) => Some(rest),
            None => labelled(lines, label, i + 1),
        }
    }
}

/// What follows a label on the first line of `s` that begins with it.
pub fn find_labelled(s: &str, label: &str) -> (r: Option<Vec<char>>)
    ensures
        match r {
            Some(rest) => labelled(scan::lines(s@), label@, 0) == Some(rest@),
            None => labelled(scan::lines(s@), label@, 0) is None,
        },
{
    let chars = text::chars_of(s);
    let lines = scan::split_lines(chars.as_slice());
    assert(scan::views(lines@).len() == lines@.len());
    for i in 0..lines.len()
        invariant
            scan::views(lines@) == scan::lines(s@),
            scan::views(lines@).len() == lines@.len(),
            labelled(scan::lines(s@), label@, 0) == labelled(scan::lines(s@), label@, i as int),
    {
        assert(scan::views(lines@)[i as int] == lines@[i as int]@);
        let line = scan::trimmed(lines[i]);
        match scan::strip_prefix(line, label) {
            Some(rest) => {
                return Some(text::copy_chars(rest));
            },
            None => {},
        }
    }
    None
}

/// The number on the first line of `s`.
pub open spec fn first_number(s: Seq<char>, max: nat) -> Option<nat> {
    match scan::first_line(s) {
        Some(line) => text::at_most(text::parse_unsigned(scan::trim(line)), max),
        None => None,
    }
}

pub fn read_first_number(s: &[char], max: u64) -> (r: Option<u64>)
    ensures
        match r {
            Some(n) => first_number(s@, max as nat) == Some(n as nat),
            None => first_number(s@, max as nat) is None,
        },
{
    let lines = scan::split_lines(s);
    assert(scan::views(lines@).len() == lines@.len());
    if lines.len() == 0 {
        return None;
    }
    assert(scan::views(lines@)[0] == lines@[0]@);
    text::read_unsigned(scan::trimmed(lines[0]), max)
}

proof fn lemma_labelled_shift(first: Seq<char>, rest: Seq<Seq<char>>, label: Seq<char>, i: int)
    requires
        0 <= i <= rest.len(),
    ensures
        labelled(seq![first] + rest, label, i + 1) == labelled(rest, label, i),
    decreases rest.len() - i,
{
    if i < rest.len() {
        assert((seq![first] + rest)[i + 1] == rest[i]);
        lemma_labelled_shift(first, rest, label, i + 1);
    }
}

/// The first line that begins with the label counts, whatever white space stands
/// around it, and gives what follows the label. A line that begins otherwise has
/// no say, and without a line there is nothing.
pub proof fn lemma_first_labelled_line_counts(
    line: Seq<char>,
    rest: Seq<Seq<char>>,
    label: Seq<char>,
    value: Seq<char>,
)
    ensures
        labelled(Seq::empty(), label, 0) is None,
        scan::trim(line) == label + value ==> labelled(seq![line] + rest, label, 0) == Some(value),
        !text::starts_with(scan::trim(line), label) ==> labelled(seq![line] + rest, label, 0)
            == labelled(rest, label, 0),
{
    assert((seq![line] + rest)[0] == line);
    scan::lemma_after_prefix_is_the_rest(label, value, line);
    lemma_labelled_shift(line, rest, label, 0);
}

/// A network in prefix notation reads back as that network.
pub proof fn lemma_network_text_reads_back(dst: IpAddr, prefix: u8)
    ensures
        prefix <= (if dst is V4 {
            32u8
        } else {
            128u8
        }) ==> crate::config::cidr_value(network_text(dst, prefix)) == Ok::<
            (IpAddr, u8),
            crate::config::CidrError,
        >((dst, prefix)),
{
    crate::config::lemma_cidr_round_trip(dst, prefix);
}

/// The number on the first line is read, with white space around it or without,
/// and whatever lines follow; where it is above the limit there is none.
pub proof fn lemma_first_number_is_read(
    before: Seq<char>,
    n: nat,
    after: Seq<char>,
    rest: Seq<char>,
    max: nat,
)
    requires
        forall|i: int| 0 <= i < before.len() ==> before[i] == ' ',
        forall|i: int| 0 <= i < after.len() ==> after[i] == ' ',
    ensures
        n <= max ==> first_number(before + text::dec_text(n) + after + seq!['\n'] + rest, max)
            == Some(n),
        n > max ==> first_number(
            before + text::dec_text(n) + after + seq!['\n'] + rest,
            max,
        ) is None,
        first_number(Seq::empty(), max) is None,
{
    let d = text::dec_text(n);
    let line = before + d + after;
    text::lemma_unsigned_round_trip(n);
    text::lemma_dec_text(n);
    assert(text::is_digit(d[0]));
    assert(text::is_digit(d[d.len() - 1]));
    assert(d.last() == d[d.len() - 1]);
    assert forall|i: int| 0 <= i < line.len() implies line[i] != '\n' && line[i] != '\r' by {
        if i < before.len() {
            assert(line[i] == before[i]);
        } else if i < before.len() + d.len() {
            assert(line[i] == d[i - before.len()]);
            assert(text::is_digit(d[i - before.len()]));
        } else {
            assert(line[i] == after[i - before.len() - d.len()]);
        }
    }
    scan::lemma_lines_end_at_line_feeds(line, rest);
    scan::lemma_trim_gives_what_is_between(before, d, after);
    assert(scan::lines(line + seq!['\n'] + rest)[0] == line);
    scan::lemma_lines_end_at_line_feeds(Seq::empty(), rest);
}

} // verus!
