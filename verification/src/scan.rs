//! Taking text apart: lines, words and the white space around them.

use vstd::prelude::*;
use vstd::slice::slice_subrange;
use crate::text;

verus! {

/// Whether `c` is white space, as Unicode lists it.
pub open spec fn is_whitespace(c: char) -> bool {
    let n = c as u32;
    9 <= n <= 13 || n == 0x20 || n == 0x85 || n == 0xa0 || n == 0x1680 || 0x2000 <= n <= 0x200a || n
        == 0x2028 || n == 0x2029 || n == 0x202f || n == 0x205f || n == 0x3000
}

pub fn is_white(c: char) -> (r: bool)
    ensures
        r == is_whitespace(c),
{
    let n: u32 = c as u32;
    (9 <= n && n <= 13) || n == 0x20 || n == 0x85 || n == 0xa0 || n == 0x1680 || (0x2000 <= n && n
        <= 0x200a) || n == 0x2028 || n == 0x2029 || n == 0x202f || n == 0x205f || n == 0x3000
}

/// The texts of a list of slices.
pub open spec fn views(v: Seq<&[char]>) -> Seq<Seq<char>> {
    v.map_values(|s: &[char]| s@)
}

/// `s` without the white space that it begins with.
pub open spec fn trim_start(s: Seq<char>) -> Seq<char>
    decreases s.len(),
{
    if s.len() > 0 && is_whitespace(s[0]) {
        trim_start(s.skip(1))
    } else {
        s
    }
}

/// `s` without the white space that it ends with.
pub open spec fn trim_end(s: Seq<char>) -> Seq<char>
    decreases s.len(),
{
    if s.len() > 0 && is_whitespace(s.last()) {
        trim_end(s.drop_last())
    } else {
        s
    }
}

/// `s` without the white space around it.
pub open spec fn trim(s: Seq<char>) -> Seq<char> {
    trim_end(trim_start(s))
}

pub fn trim_left<'a>(s: &'a [char]) -> (r: &'a [char])
    ensures
        r@ == trim_start(s@),
        r@.len() <= s@.len(),
{
    let n = s.len();
    let mut i: usize = 0;
    assert(s@.skip(0) =~= s@);
    while i < n && is_white(s[i])
        invariant
            n == s@.len(),
            i <= n,
            trim_start(s@) == trim_start(s@.skip(i as int)),
        decreases n - i,
    {
        assert(s@.skip(i as int).skip(1) =~= s@.skip(i + 1));
        i += 1;
    }
    let r = slice_subrange(s, i, n);
    assert(r@ =~= s@.skip(i as int));
    r
}

pub fn trimmed<'a>(s: &'a [char]) -> (r: &'a [char])
    ensures
        r@ == trim(s@),
        r@.len() <= s@.len(),
{
    let t = trim_left(s);
    let mut n: usize = t.len();
    assert(t@.take(n as int) =~= t@);
    while n > 0 && is_white(t[n - 1])
        invariant
            n <= t@.len(),
            trim_end(t@) == trim_end(t@.take(n as int)),
        decreases n,
    {
        assert(t@.take(n as int).drop_last() =~= t@.take(n - 1));
        n -= 1;
    }
    let r = slice_subrange(t, 0, n);
    assert(r@ =~= t@.take(n as int));
    r
}

/// A line without the carriage return before its end.
pub open spec fn strip_return(s: Seq<char>) -> Seq<char> {
    if s.len() > 0 && s.last() == '\r' {
        s.drop_last()
    } else {
        s
    }
}

/// The lines of `s`: what stands before each line feed, without a carriage
/// return right before it, and what follows the last one, where that is not
/// empty.
pub open spec fn lines(s: Seq<char>) -> Seq<Seq<char>>
    decreases s.len(),
{
    let i = text::find(s, '\n');
    if 0 <= i < s.len() {
        seq![strip_return(s.take(i))] + lines(s.skip(i + 1))
    } else if s.len() == 0 {
        Seq::empty()
    } else {
        seq![s]
    }
}

pub fn split_lines<'a>(s: &'a [char]) -> (r: Vec<&'a [char]>)
    ensures
        views(r@) == lines(s@),
{
    let n = s.len();
    let mut out: Vec<&'a [char]> = Vec::new();
    let mut pos: usize = 0;
    assert(s@.skip(0) =~= s@);
    assert(views(out@) + lines(s@) =~= lines(s@));
    loop
        invariant
            n == s@.len(),
            pos <= n,
            lines(s@) == views(out@) + lines(s@.skip(pos as int)),
        decreases n - pos,
    {
        let rest = slice_subrange(s, pos, n);
        assert(rest@ =~= s@.skip(pos as int));
        let i = text::find_char(rest, '\n');
        proof {
            text::lemma_find(rest@, '\n');
        }
        let ghost before = out@;
        if i < rest.len() {
            let mut end: usize = i;
            if i > 0 && rest[i - 1] == '\r' {
                end = i - 1;
            }
            let line = slice_subrange(rest, 0, end);
            assert(line@ =~= strip_return(rest@.take(i as int)));
            out.push(line);
            assert(s@.skip(pos + i + 1) =~= rest@.skip(i + 1));
            assert(views(out@) =~= views(before) + seq![line@]);
            assert(views(before) + (seq![line@] + lines(s@.skip(pos + i + 1))) =~= views(out@)
                + lines(s@.skip(pos + i + 1)));
            pos = pos + i + 1;
        } else {
            if rest.len() > 0 {
                out.push(rest);
                assert(views(out@) =~= views(before) + seq![rest@]);
            } else {
                assert(views(out@) =~= views(out@) + lines(rest@));
            }
            return out;
        }
    }
}

/// The position of the first white space in `s`, or the length where there
/// is none.
pub open spec fn word_end(s: Seq<char>) -> int
    decreases s.len(),
{
    if s.len() == 0 || is_whitespace(s[0]) {
        0
    } else {
        1 + word_end(s.skip(1))
    }
}

pub proof fn lemma_word_end(s: Seq<char>)
    ensures
        0 <= word_end(s) <= s.len(),
        s.len() > 0 && !is_whitespace(s[0]) ==> word_end(s) > 0,
    decreases s.len(),
{
    if s.len() > 0 {
        lemma_word_end(s.skip(1));
    }
}

pub proof fn lemma_trim_start(s: Seq<char>)
    ensures
        trim_start(s).len() <= s.len(),
        trim_start(s).len() > 0 ==> !is_whitespace(trim_start(s)[0]),
    decreases s.len(),
{
    if s.len() > 0 {
        lemma_trim_start(s.skip(1));
    }
}

/// The words of `s`: the runs between white space.
pub open spec fn words(s: Seq<char>) -> Seq<Seq<char>>
    decreases s.len(),
    via words_decreases
{
    let t = trim_start(s);
    if t.len() == 0 {
        Seq::empty()
    } else {
        seq![t.take(word_end(t))] + words(t.skip(word_end(t)))
    }
}

#[via_fn]
proof fn words_decreases(s: Seq<char>) {
    lemma_trim_start(s);
    lemma_word_end(trim_start(s));
}

fn find_word_end(s: &[char]) -> (r: usize)
    ensures
        r == word_end(s@),
        r <= s@.len(),
{
    let n = s.len();
    let mut i: usize = 0;
    assert(s@.skip(0) =~= s@);
    while i < n && !is_white(s[i])
        invariant
            n == s@.len(),
            i <= n,
            word_end(s@) == i + word_end(s@.skip(i as int)),
        decreases n - i,
    {
        assert(s@.skip(i as int).skip(1) =~= s@.skip(i + 1));
        i += 1;
    }
    i
}

pub fn split_words<'a>(s: &'a [char]) -> (r: Vec<&'a [char]>)
    ensures
        views(r@) == words(s@),
{
    let mut out: Vec<&'a [char]> = Vec::new();
    let mut rest = s;
    assert(views(out@) + words(s@) =~= words(s@));
    loop
        invariant
            words(s@) == views(out@) + words(rest@),
        decreases rest@.len(),
    {
        let t = trim_left(rest);
        proof {
            lemma_trim_start(rest@);
            lemma_word_end(t@);
        }
        if t.len() == 0 {
            assert(views(out@) =~= views(out@) + words(rest@));
            return out;
        }
        let i = find_word_end(t);
        let word = slice_subrange(t, 0, i);
        let after = slice_subrange(t, i, t.len());
        assert(word@ =~= t@.take(i as int));
        assert(after@ =~= t@.skip(i as int));
        let ghost before = out@;
        out.push(word);
        assert(views(out@) =~= views(before) + seq![word@]);
        assert(views(before) + (seq![word@] + words(after@)) =~= views(out@) + words(after@));
        rest = after;
    }
}

/// What follows the prefix `p`, where `s` begins with it.
pub open spec fn after_prefix(s: Seq<char>, p: Seq<char>) -> Option<Seq<char>> {
    if text::starts_with(s, p) {
        Some(s.skip(p.len() as int))
    } else {
        None
    }
}

pub fn strip_prefix<'a>(s: &'a [char], p: &str) -> (r: Option<&'a [char]>)
    ensures
        match r {
            Some(rest) => after_prefix(s@, p@) == Some(rest@),
            None => after_prefix(s@, p@) is None,
        },
{
    let chars = text::chars_of(p);
    if text::has_prefix(s, chars.as_slice()) {
        let rest = slice_subrange(s, chars.len(), s.len());
        assert(rest@ =~= s@.skip(p@.len() as int));
        Some(rest)
    } else {
        None
    }
}

/// The first line of `s`, if any.
pub open spec fn first_line(s: Seq<char>) -> Option<Seq<char>> {
    if lines(s).len() > 0 {
        Some(lines(s)[0])
    } else {
        None
    }
}

/// In ASCII the blank and what moves to another column or line are white space,
/// and nothing else is.
pub proof fn lemma_ascii_white_space(c: char)
    requires
        (c as u32) < 128,
    ensures
        is_whitespace(c) <==> c == ' ' || c == '\t' || c == '\n' || c == '\r' || c as u32 == 11
            || c as u32 == 12,
{
}

proof fn lemma_trim_start_is(before: Seq<char>, rest: Seq<char>)
    requires
        forall|i: int| 0 <= i < before.len() ==> is_whitespace(#[trigger] before[i]),
        rest.len() > 0 ==> !is_whitespace(rest[0]),
    ensures
        trim_start(before + rest) == rest,
    decreases before.len(),
{
    let s = before + rest;
    if before.len() == 0 {
        assert(s =~= rest);
    } else {
        assert(s[0] == before[0]);
        let b = before.skip(1);
        assert forall|i: int| 0 <= i < b.len() implies is_whitespace(#[trigger] b[i]) by {
            assert(b[i] == before[i + 1]);
        }
        assert(s.skip(1) =~= b + rest);
        lemma_trim_start_is(b, rest);
    }
}

proof fn lemma_trim_end_is(rest: Seq<char>, after: Seq<char>)
    requires
        forall|i: int| 0 <= i < after.len() ==> is_whitespace(#[trigger] after[i]),
        rest.len() > 0 ==> !is_whitespace(rest.last()),
    ensures
        trim_end(rest + after) == rest,
    decreases after.len(),
{
    let s = rest + after;
    if after.len() == 0 {
        assert(s =~= rest);
    } else {
        assert(s.last() == after.last());
        assert(is_whitespace(after[after.len() - 1]));
        let b = after.drop_last();
        assert forall|i: int| 0 <= i < b.len() implies is_whitespace(#[trigger] b[i]) by {
            assert(b[i] == after[i]);
        }
        assert(s.drop_last() =~= rest + b);
        lemma_trim_end_is(rest, b);
    }
}

/// What stands between white space is what is left without it, and nothing of
/// that is lost.
pub proof fn lemma_trim_gives_what_is_between(
    before: Seq<char>,
    core: Seq<char>,
    after: Seq<char>,
)
    requires
        forall|i: int| 0 <= i < before.len() ==> is_whitespace(#[trigger] before[i]),
        forall|i: int| 0 <= i < after.len() ==> is_whitespace(#[trigger] after[i]),
        core.len() > 0,
        !is_whitespace(core[0]),
        !is_whitespace(core.last()),
    ensures
        trim(before + core + after) == core,
{
    assert(before + core + after =~= before + (core + after));
    lemma_trim_start_is(before, core + after);
    lemma_trim_end_is(core, after);
}

/// A line ends at the line feed, and a carriage return right before that is not
/// part of it. What follows is taken for itself; the last line needs no line
/// feed.
pub proof fn lemma_lines_end_at_line_feeds(line: Seq<char>, rest: Seq<char>)
    requires
        forall|i: int| 0 <= i < line.len() ==> line[i] != '\n',
    ensures
        lines(Seq::empty()).len() == 0,
        line.len() > 0 ==> lines(line) == seq![line],
        lines(line + seq!['\r', '\n'] + rest) == seq![line] + lines(rest),
        line.len() == 0 || line.last() != '\r' ==> lines(line + seq!['\n'] + rest) == seq![line]
            + lines(rest),
{
    let n = line.len() as int;
    assert(text::find(Seq::<char>::empty(), '\n') == 0);
    text::lemma_find_is(line, '\n', n);
    let s = line + seq!['\n'] + rest;
    assert forall|j: int| 0 <= j < n implies s[j] != '\n' by {
        assert(s[j] == line[j]);
    }
    text::lemma_find_is(s, '\n', n);
    assert(s.take(n) =~= line);
    assert(s.skip(n + 1) =~= rest);
    let t = line + seq!['\r', '\n'] + rest;
    assert forall|j: int| 0 <= j < n + 1 implies t[j] != '\n' by {
        if j < n {
            assert(t[j] == line[j]);
        }
    }
    text::lemma_find_is(t, '\n', n + 1);
    assert(t.take(n + 1) =~= line.push('\r'));
    assert(line.push('\r').drop_last() =~= line);
    assert(t.skip(n + 2) =~= rest);
}

proof fn lemma_word_end_is(word: Seq<char>, rest: Seq<char>)
    requires
        forall|i: int| 0 <= i < word.len() ==> !is_whitespace(#[trigger] word[i]),
        rest.len() > 0 ==> is_whitespace(rest[0]),
    ensures
        word_end(word + rest) == word.len(),
    decreases word.len(),
{
    let s = word + rest;
    if word.len() == 0 {
        assert(s =~= rest);
    } else {
        let w = word.skip(1);
        assert(s[0] == word[0]);
        assert forall|i: int| 0 <= i < w.len() implies !is_whitespace(#[trigger] w[i]) by {
            assert(w[i] == word[i + 1]);
        }
        assert(s.skip(1) =~= w + rest);
        lemma_word_end_is(w, rest);
    }
}

/// A word is a run without white space, as long as it goes: whatever gap comes
/// before it, and whatever follows behind white space.
pub proof fn lemma_words_stand_between_white_space(
    gap: Seq<char>,
    word: Seq<char>,
    c: char,
    rest: Seq<char>,
)
    requires
        forall|i: int| 0 <= i < gap.len() ==> is_whitespace(#[trigger] gap[i]),
        forall|i: int| 0 <= i < word.len() ==> !is_whitespace(#[trigger] word[i]),
        word.len() > 0,
        is_whitespace(c),
    ensures
        words(gap).len() == 0,
        words(gap + word) == seq![word],
        words(gap + word + seq![c] + rest) == seq![word] + words(rest),
{
    let none = Seq::<char>::empty();
    assert(gap + none =~= gap);
    lemma_trim_start_is(gap, none);
    assert(!is_whitespace(word[0]));
    lemma_trim_start_is(gap, word);
    assert(word + none =~= word);
    lemma_word_end_is(word, none);
    assert(word.take(word.len() as int) =~= word);
    assert(word.skip(word.len() as int) =~= none);
    assert(trim_start(none) == none);
    assert(words(none).len() == 0);
    assert(words(gap + word) =~= seq![word]);
    let tail = seq![c] + rest;
    let t = word + tail;
    assert(gap + word + seq![c] + rest =~= gap + t);
    assert(t[0] == word[0]);
    lemma_trim_start_is(gap, t);
    lemma_word_end_is(word, tail);
    assert(t.take(word.len() as int) =~= word);
    assert(t.skip(word.len() as int) =~= tail);
    assert(tail.skip(1) =~= rest);
    assert(trim_start(tail) == trim_start(rest));
    assert(words(tail) == words(rest));
}

/// What follows a prefix is the rest of the text, and only a text that begins
/// with the prefix has one.
pub proof fn lemma_after_prefix_is_the_rest(p: Seq<char>, rest: Seq<char>, s: Seq<char>)
    ensures
        after_prefix(p + rest, p) == Some(rest),
        after_prefix(s, p) matches Some(r) ==> s == p + r,
{
    assert((p + rest).take(p.len() as int) =~= p);
    assert((p + rest).skip(p.len() as int) =~= rest);
    if text::starts_with(s, p) {
        assert(s =~= s.take(p.len() as int) + s.skip(p.len() as int));
    }
}

/// Of white space alone nothing is left.
pub proof fn lemma_trim_of_blanks(s: Seq<char>)
    requires
        forall|i: int| 0 <= i < s.len() ==> is_whitespace(#[trigger] s[i]),
    ensures
        trim(s) == Seq::<char>::empty(),
{
    let none = Seq::<char>::empty();
    assert(s + none =~= s);
    lemma_trim_start_is(s, none);
    assert(none + none =~= none);
    lemma_trim_end_is(none, none);
}

} // verus!
