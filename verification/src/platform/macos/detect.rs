//! The link of the default route, as commands report it.

use vstd::prelude::*;
use crate::platform::output;
use crate::platform::routes::LinkInfo;
use crate::scan;
use crate::text;

verus! {

/// The interface that the output of `route get` names.
pub open spec fn interface_value(s: Seq<char>) -> Option<Seq<char>> {
    match output::labelled(scan::lines(s), "interface:"@, 0) {
        Some(rest) => Some(scan::trim(rest)),
        None => None,
    }
}

pub fn interface_in(s: &str) -> (r: Option<String>)
    ensures
        text::optional_text(r) == interface_value(s@),
{
    match output::find_labelled(s, "interface:") {
        Some(rest) => Some(text::string_of(scan::trimmed(rest.as_slice()))),
        None => None,
    }
}

/// The interface of the default route, from the output of `route get`.
pub fn default_interface(stdout: &[u8]) -> (r: Option<String>)
    ensures
        text::optional_text(r) == interface_value(output::lossy_text(stdout@)),
{
    let s = output::lossy(stdout);
    interface_in(s.as_str())
}

/// The word after the first `mtu`, from the `i`-th word on.
pub open spec fn word_after_mtu(words: Seq<Seq<char>>, i: int) -> Option<Seq<char>>
    decreases words.len() - i,
{
    if !(0 <= i < words.len()) {
        None
    } else if words[i] == "mtu"@ {
        if i + 1 < words.len() {
            Some(words[i + 1])
        } else {
            None
        }
    } else {
        word_after_mtu(words, i + 1)
    }
}

/// The unit size that the output of `ifconfig` tells.
pub open spec fn mtu_value(s: Seq<char>) -> Option<u32> {
    match word_after_mtu(scan::words(s), 0) {
        Some(word) => match text::at_most(text::parse_unsigned(word), u32::MAX as nat) {
            Some(n) => Some(n as u32),
            None => None,
        },
        None => None,
    }
}

pub fn mtu_in(s: &str) -> (r: Option<u32>)
    ensures
        r == mtu_value(s@),
{
    let chars = text::chars_of(s);
    let words = scan::split_words(chars.as_slice());
    let label = text::chars_of("mtu");
    assert(scan::views(words@).len() == words@.len());
    for i in 0..words.len()
        invariant
            scan::views(words@) == scan::words(s@),
            scan::views(words@).len() == words@.len(),
            label@ == "mtu"@,
            word_after_mtu(scan::words(s@), 0) == word_after_mtu(scan::words(s@), i as int),
    {
        assert(scan::views(words@)[i as int] == words@[i as int]@);
        if text::same_chars(words[i], label.as_slice()) {
            if i + 1 < words.len() {
                assert(scan::views(words@)[i + 1] == words@[i + 1]@);
                return match text::read_unsigned(words[i + 1], u32::MAX as u64) {
                    Some(n) => Some(n as u32),
                    None => None,
                };
            }
            return None;
        }
    }
    None
}

/// The unit size of an interface, from the output of `ifconfig`.
pub fn interface_mtu(stdout: &[u8]) -> (r: Option<u32>)
    ensures
        r == mtu_value(output::lossy_text(stdout@)),
{
    let s = output::lossy(stdout);
    mtu_in(s.as_str())
}

pub fn gateway_named_in(s: &str) -> (r: bool)
    ensures
        r == (output::labelled(scan::lines(s@), "gateway:"@, 0) is Some),
{
    output::find_labelled(s, "gateway:").is_some()
}

/// Whether there is a default gateway, from the output of `route get`.
pub fn has_default_gateway(stdout: &[u8]) -> (r: bool)
    ensures
        r == (output::labelled(scan::lines(output::lossy_text(stdout@)), "gateway:"@, 0) is Some),
{
    let s = output::lossy(stdout);
    gateway_named_in(s.as_str())
}

/// What is known of the link.
pub fn link_info(mtu: Option<u32>, has_ipv6_gateway: bool) -> (r: LinkInfo)
    ensures
        r == (LinkInfo { mtu, has_ipv6_gateway }),
{
    LinkInfo { mtu, has_ipv6_gateway }
}

proof fn lemma_word_after_mtu_shift(first: Seq<char>, rest: Seq<Seq<char>>, i: int)
    requires
        0 <= i <= rest.len(),
    ensures
        word_after_mtu(seq![first] + rest, i + 1) == word_after_mtu(rest, i),
    decreases rest.len() - i,
{
    let all = seq![first] + rest;
    if i < rest.len() {
        assert(all[i + 1] == rest[i]);
        if i + 1 < rest.len() {
            assert(all[i + 2] == rest[i + 1]);
        }
        lemma_word_after_mtu_shift(first, rest, i + 1);
    }
}

/// The unit size is the word right behind the first `mtu`; other words have no
/// say, and without one behind it there is none.
pub proof fn lemma_word_behind_mtu_counts(
    first: Seq<char>,
    word: Seq<char>,
    rest: Seq<Seq<char>>,
)
    ensures
        word_after_mtu(Seq::empty(), 0) is None,
        word_after_mtu(seq!["mtu"@], 0) is None,
        word_after_mtu(seq!["mtu"@, word] + rest, 0) == Some(word),
        first != "mtu"@ ==> word_after_mtu(seq![first] + rest, 0) == word_after_mtu(rest, 0),
{
    assert((seq![first] + rest)[0] == first);
    assert((seq!["mtu"@, word] + rest)[0] == "mtu"@);
    assert((seq!["mtu"@, word] + rest)[1] == word);
    lemma_word_after_mtu_shift(first, rest, 0);
}

/// The unit size that `ifconfig` tells is read as it stands there, up to the
/// largest that can be.
pub proof fn lemma_unit_size_is_read(before: Seq<char>, n: nat, rest: Seq<char>)
    requires
        forall|i: int| 0 <= i < before.len() ==> scan::is_whitespace(#[trigger] before[i]),
    ensures
        ({
            let s = before + "mtu"@ + seq![' '] + (text::dec_text(n) + seq!['\n'] + rest);
            &&& n <= u32::MAX ==> mtu_value(s) == Some(n as u32)
            &&& n > u32::MAX ==> mtu_value(s) is None
        }),
{
    let d = text::dec_text(n);
    let none = Seq::<char>::empty();
    let tail = d + seq!['\n'] + rest;
    reveal_strlit("mtu");
    text::lemma_unsigned_round_trip(n);
    text::lemma_dec_text(n);
    assert forall|i: int| 0 <= i < d.len() implies !scan::is_whitespace(#[trigger] d[i]) by {
        assert(text::is_digit(d[i]));
    }
    scan::lemma_words_stand_between_white_space(before, "mtu"@, ' ', tail);
    assert(none + d + seq!['\n'] + rest =~= tail);
    scan::lemma_words_stand_between_white_space(none, d, '\n', rest);
    let w = scan::words(rest);
    assert(seq!["mtu"@] + (seq![d] + w) =~= seq!["mtu"@, d] + w);
    lemma_word_behind_mtu_counts(d, d, w);
}

/// The interface is what the first line with that label names, without white
/// space around it.
pub proof fn lemma_interface_is_read(
    before: Seq<char>,
    gap: Seq<char>,
    name: Seq<char>,
    rest: Seq<char>,
)
    requires
        forall|i: int| 0 <= i < before.len() ==> before[i] == ' ',
        forall|i: int| 0 <= i < gap.len() ==> gap[i] == ' ',
        name.len() > 0,
        forall|i: int| 0 <= i < name.len() ==> !scan::is_whitespace(#[trigger] name[i]),
    ensures
        interface_value(before + "interface:"@ + gap + name + seq!['\n'] + rest) == Some(name),
{
    let none = Seq::<char>::empty();
    let core = "interface:"@ + gap + name;
    let line = before + core;
    reveal_strlit("interface:");
    assert(core[0] == 'i');
    assert(core.last() == name.last());
    assert(!scan::is_whitespace(name[name.len() - 1]));
    assert forall|i: int| 0 <= i < line.len() implies line[i] != '\n' && line[i] != '\r' by {
        let p = before.len() as int;
        if i < p {
            assert(line[i] == before[i]);
        } else if i < p + 10 {
            assert(line[i] == "interface:"@[i - p]);
        } else if i < p + 10 + gap.len() {
            assert(line[i] == gap[i - p - 10]);
        } else {
            assert(line[i] == name[i - p - 10 - gap.len()]);
            assert(!scan::is_whitespace(name[i - p - 10 - gap.len()]));
        }
    }
    assert(before + "interface:"@ + gap + name + seq!['\n'] + rest =~= line + seq!['\n'] + rest);
    scan::lemma_lines_end_at_line_feeds(line, rest);
    assert(before + core + none =~= line);
    scan::lemma_trim_gives_what_is_between(before, core, none);
    assert(core =~= "interface:"@ + (gap + name));
    output::lemma_first_labelled_line_counts(line, scan::lines(rest), "interface:"@, gap + name);
    assert(gap + name + none =~= gap + name);
    assert(!scan::is_whitespace(name[0]));
    scan::lemma_trim_gives_what_is_between(gap, name, none);
}

} // verus!
