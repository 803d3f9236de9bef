//! The link of the default route, as commands report it.

use vstd::prelude::*;
use crate::platform::output;
use crate::platform::routes::LinkInfo;
use crate::scan;
use crate::text;

verus! {

/// The number on the first line of a command's output, without the white
/// space around the output.
pub open spec fn number_value(s: Seq<char>) -> Option<u32> {
    match output::first_number(scan::trim(s), u32::MAX as nat) {
        Some(n) => Some(n as u32),
        None => None,
    }
}

pub fn number_in(s: &str) -> (r: Option<u32>)
    ensures
        r == number_value(s@),
{
    let chars = text::chars_of(s);
    match output::read_first_number(scan::trimmed(chars.as_slice()), u32::MAX as u64) {
        Some(n) => Some(n as u32),
        None => None,
    }
}

/// The unit size of the default interface, from what `powershell` prints.
pub fn default_interface_mtu(stdout: &[u8]) -> (r: Option<u32>)
    ensures
        r == number_value(output::lossy_text(stdout@)),
{
    let s = output::lossy(stdout);
    number_in(s.as_str())
}

/// Whether a count of default routes stands in a text and is not zero.
pub open spec fn counts_some(s: Seq<char>) -> bool {
    number_value(s) matches Some(n) && n > 0
}

/// Whether a count of default routes stands in a text and is not zero.
pub fn some_counted_in(s: &str) -> (r: bool)
    ensures
        r == counts_some(s@),
{
    match number_in(s) {
        Some(n) => n > 0,
        None => false,
    }
}

/// Whether there is an IPv6 default route, from the count that `powershell`
/// prints.
pub fn has_ipv6_default_route(stdout: &[u8]) -> (r: bool)
    ensures
        r == counts_some(output::lossy_text(stdout@)),
{
    let s = output::lossy(stdout);
    some_counted_in(s.as_str())
}

/// What is known of the link.
pub fn link_info(mtu: Option<u32>, has_ipv6_gateway: bool) -> (r: LinkInfo)
    ensures
        r == (LinkInfo { mtu, has_ipv6_gateway }),
{
    LinkInfo { mtu, has_ipv6_gateway }
}

/// A number that a command prints is read as it stands there, with blanks before
/// it and line ends behind, up to the largest that can be.
pub proof fn lemma_printed_number_is_read(gap: Seq<char>, n: nat)
    requires
        forall|i: int| 0 <= i < gap.len() ==> gap[i] == ' ',
    ensures
        n <= u32::MAX ==> number_value(gap + text::dec_text(n) + seq!['\r', '\n']) == Some(n as u32),
        n > u32::MAX ==> number_value(gap + text::dec_text(n) + seq!['\r', '\n']) is None,
        number_value(gap) is None,
{
    let none = Seq::<char>::empty();
    let d = text::dec_text(n);
    text::lemma_unsigned_round_trip(n);
    text::lemma_dec_text(n);
    assert(text::is_digit(d[0]));
    assert(text::is_digit(d[d.len() - 1]));
    assert(d.last() == d[d.len() - 1]);
    scan::lemma_trim_gives_what_is_between(gap, d, seq!['\r', '\n']);
    assert forall|i: int| 0 <= i < d.len() implies d[i] != '\n' by {
        assert(text::is_digit(d[i]));
    }
    scan::lemma_lines_end_at_line_feeds(d, none);
    assert(none + d + none =~= d);
    scan::lemma_trim_gives_what_is_between(none, d, none);
    scan::lemma_trim_of_blanks(gap);
    scan::lemma_lines_end_at_line_feeds(none, none);
}

/// There is a default route of IPv6 exactly where one at least is counted.
pub proof fn lemma_one_route_is_enough(gap: Seq<char>, n: nat)
    requires
        forall|i: int| 0 <= i < gap.len() ==> gap[i] == ' ',
        n <= u32::MAX,
    ensures
        counts_some(gap + text::dec_text(n) + seq!['\r', '\n']) <==> n >= 1,
        !counts_some(gap),
{
    lemma_printed_number_is_read(gap, n);
}

} // verus!
