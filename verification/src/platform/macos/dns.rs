//! The name servers of the primary network service.

use vstd::prelude::*;
use vstd::slice::slice_subrange;
use crate::addr::IpAddr;
use crate::platform::output;
use crate::reload;
use crate::scan;
use crate::text;

verus! {

// ---------------------------------------------------------------------------
// What networksetup tells
// ---------------------------------------------------------------------------
/// The position of the first occurrence of `p` in `s` from `i` on, or the
/// length of `s` where there is none.
pub open spec fn find_from(s: Seq<char>, p: Seq<char>, i: int) -> int
    decreases s.len() - i,
{
    if 0 <= i < s.len() && !text::occurs_at(s, p, i) {
        find_from(s, p, i + 1)
    } else {
        i
    }
}

pub proof fn lemma_find_from(s: Seq<char>, p: Seq<char>, i: int)
    requires
        0 <= i <= s.len(),
    ensures
        i <= find_from(s, p, i) <= s.len(),
        find_from(s, p, i) < s.len() ==> text::occurs_at(s, p, find_from(s, p, i)),
    decreases s.len() - i,
{
    if i < s.len() && !text::occurs_at(s, p, i) {
        lemma_find_from(s, p, i + 1);
    }
}

/// The blocks of `s` between empty lines.
pub open spec fn blocks(s: Seq<char>) -> Seq<Seq<char>>
    decreases s.len(),
{
    let i = find_from(s, "\n\n"@, 0);
    if 0 <= i && i + 2 <= s.len() {
        seq![s.take(i)] + blocks(s.skip(i + 2))
    } else {
        seq![s]
    }
}

fn find_break(s: &[char]) -> (r: usize)
    ensures
        r == find_from(s@, "\n\n"@, 0),
        r <= s@.len(),
{
    let p = text::chars_of("\n\n");
    let mut i: usize = 0;
    while i < s.len()
        invariant
            i <= s@.len(),
            p@ == "\n\n"@,
            find_from(s@, "\n\n"@, 0) == find_from(s@, "\n\n"@, i as int),
        decreases s@.len() - i,
    {
        if text::has_at(s, p.as_slice(), i) {
            return i;
        }
        i += 1;
    }
    i
}

fn split_blocks<'a>(s: &'a [char]) -> (r: Vec<&'a [char]>)
    ensures
        scan::views(r@) == blocks(s@),
{
    let mut out: Vec<&'a [char]> = Vec::new();
    let mut rest = s;
    assert(scan::views(out@) + blocks(s@) =~= blocks(s@));
    loop
        invariant
            blocks(s@) == scan::views(out@) + blocks(rest@),
        decreases rest@.len(),
    {
        let i = find_break(rest);
        proof {
            reveal_strlit("\n\n");
            lemma_find_from(rest@, "\n\n"@, 0);
        }
        let ghost before = out@;
        if i < rest.len() {
            let block = slice_subrange(rest, 0, i);
            let after = slice_subrange(rest, i + 2, rest.len());
            assert(block@ =~= rest@.take(i as int));
            assert(after@ =~= rest@.skip(i + 2));
            out.push(block);
            assert(scan::views(out@) =~= scan::views(before) + seq![block@]);
            assert(scan::views(before) + (seq![block@] + blocks(after@)) =~= scan::views(out@)
                + blocks(after@));
            rest = after;
        } else {
            out.push(rest);
            assert(scan::views(out@) =~= scan::views(before) + seq![rest@]);
            return out;
        }
    }
}

/// The name on a line such as `(1) Name`: what stands between the first
/// closing bracket and the next one or the end, without the white space around
/// it.
pub open spec fn service_on_line(line: Seq<char>) -> Option<Seq<char>> {
    match scan::after_prefix(scan::trim(line), "("@) {
        None => None,
        Some(rest) => {
            let i = text::find(rest, ')');
            if i >= rest.len() {
                None
            } else {
                let after = rest.skip(i + 1);
                let name = scan::trim(after.take(text::find(after, ')')));
                if name.len() == 0 {
                    None
                } else {
                    Some(name)
                }
            }
        },
    }
}

fn read_service_line(line: &[char]) -> (r: Option<Vec<char>>)
    ensures
        match r {
            Some(name) => service_on_line(line@) == Some(name@),
            None => service_on_line(line@) is None,
        },
{
    let rest = match scan::strip_prefix(scan::trimmed(line), "(") {
        Some(rest) => rest,
        None => {
            return None;
        },
    };
    let i = text::find_char(rest, ')');
    if i >= rest.len() {
        return None;
    }
    let after = slice_subrange(rest, i + 1, rest.len());
    assert(after@ =~= rest@.skip(i + 1));
    let j = text::find_char(after, ')');
    proof {
        text::lemma_find(after@, ')');
    }
    let part = slice_subrange(after, 0, j);
    assert(part@ =~= after@.take(j as int));
    let name = scan::trimmed(part);
    if name.len() == 0 {
        None
    } else {
        Some(text::copy_chars(name))
    }
}

/// The name on the first line, from the `i`-th on, that has one.
pub open spec fn service_in_lines(lines: Seq<Seq<char>>, i: int) -> Option<Seq<char>>
    decreases lines.len() - i,
{
    if !(0 <= i < lines.len()) {
        None
    } else {
        match service_on_line(lines[i]) {
            Some(name) => Some(name),
            None => service_in_lines(lines, i + 1),
        }
    }
}

/// The name in the first block, from the `i`-th on, that names a device and
/// has one.
pub open spec fn service_in_blocks(list: Seq<Seq<char>>, i: int) -> Option<Seq<char>>
    decreases list.len() - i,
{
    if !(0 <= i < list.len()) {
        None
    } else if text::contains(list[i], "Device:"@) && service_in_lines(scan::lines(list[i]), 0) is Some {
        service_in_lines(scan::lines(list[i]), 0)
    } else {
        service_in_blocks(list, i + 1)
    }
}

fn read_service_block(block: &[char]) -> (r: Option<Vec<char>>)
    ensures
        match r {
            Some(name) => service_in_lines(scan::lines(block@), 0) == Some(name@),
            None => service_in_lines(scan::lines(block@), 0) is None,
        },
{
    let lines = scan::split_lines(block);
    assert(scan::views(lines@).len() == lines@.len());
    for i in 0..lines.len()
        invariant
            scan::views(lines@) == scan::lines(block@),
            scan::views(lines@).len() == lines@.len(),
            service_in_lines(scan::lines(block@), 0) == service_in_lines(
                scan::lines(block@),
                i as int,
            ),
    {
        assert(scan::views(lines@)[i as int] == lines@[i as int]@);
        match read_service_line(lines[i]) {
            Some(name) => {
                return Some(name);
            },
            None => {},
        }
    }
    None
}

pub fn service_in(s: &str) -> (r: Option<String>)
    ensures
        text::optional_text(r) == service_in_blocks(blocks(s@), 0),
{
    let chars = text::chars_of(s);
    let list = split_blocks(chars.as_slice());
    let label = text::chars_of("Device:");
    assert(scan::views(list@).len() == list@.len());
    for i in 0..list.len()
        invariant
            scan::views(list@) == blocks(s@),
            scan::views(list@).len() == list@.len(),
            label@ == "Device:"@,
            service_in_blocks(blocks(s@), 0) == service_in_blocks(blocks(s@), i as int),
    {
        assert(scan::views(list@)[i as int] == list@[i as int]@);
        match text::find_text(list[i], label.as_slice()) {
            Some(k) => {
                assert(text::contains(list@[i as int]@, "Device:"@));
                match read_service_block(list[i]) {
                    Some(name) => {
                        return Some(text::string_of(name.as_slice()));
                    },
                    None => {},
                }
            },
            None => {},
        }
    }
    None
}

/// The primary network service, from the output of
/// `networksetup -listnetworkserviceorder`.
pub fn primary_service(stdout: &[u8]) -> (r: Option<String>)
    ensures
        text::optional_text(r) == service_in_blocks(blocks(output::lossy_text(stdout@)), 0),
{
    let s = output::lossy(stdout);
    service_in(s.as_str())
}

/// The lines of a list from the `i`-th on that are not blank, without the
/// white space around them.
pub open spec fn filled_lines(lines: Seq<Seq<char>>, i: int) -> Seq<Seq<char>>
    decreases lines.len() - i,
{
    if !(0 <= i < lines.len()) {
        Seq::empty()
    } else if scan::trim(lines[i]).len() == 0 {
        filled_lines(lines, i + 1)
    } else {
        seq![scan::trim(lines[i])] + filled_lines(lines, i + 1)
    }
}

/// The name servers that the output of `networksetup -getdnsservers` lists.
pub open spec fn servers_value(s: Seq<char>) -> Seq<Seq<char>> {
    if text::contains(s, "There aren't any"@) {
        Seq::empty()
    } else {
        filled_lines(scan::lines(s), 0)
    }
}

pub fn servers_in(s: &str) -> (r: Vec<String>)
    ensures
        text::texts(r@) == servers_value(s@),
{
    let chars = text::chars_of(s);
    let none = text::chars_of("There aren't any");
    let mut out: Vec<String> = Vec::new();
    match text::find_text(chars.as_slice(), none.as_slice()) {
        Some(k) => {
            assert(text::contains(s@, "There aren't any"@));
            assert(text::texts(out@) =~= Seq::<Seq<char>>::empty());
            return out;
        },
        None => {},
    }
    let lines = scan::split_lines(chars.as_slice());
    assert(scan::views(lines@).len() == lines@.len());
    assert(text::texts(out@) + filled_lines(scan::lines(s@), 0) =~= filled_lines(
        scan::lines(s@),
        0,
    ));
    for i in 0..lines.len()
        invariant
            scan::views(lines@) == scan::lines(s@),
            scan::views(lines@).len() == lines@.len(),
            filled_lines(scan::lines(s@), 0) == text::texts(out@) + filled_lines(
                scan::lines(s@),
                i as int,
            ),
    {
        assert(scan::views(lines@)[i as int] == lines@[i as int]@);
        let line = scan::trimmed(lines[i]);
        let ghost before = out@;
        if line.len() > 0 {
            let word = text::string_of(line);
            out.push(word);
            assert(text::texts(out@) =~= text::texts(before) + seq![line@]);
            assert(text::texts(before) + (seq![line@] + filled_lines(scan::lines(s@), i + 1))
                =~= text::texts(out@) + filled_lines(scan::lines(s@), i + 1));
        }
    }
    assert(text::texts(out@) + filled_lines(scan::lines(s@), lines@.len() as int) =~= text::texts(
        out@,
    ));
    out
}

/// The name servers of a service, from the output of
/// `networksetup -getdnsservers`.
pub fn get_servers(stdout: &[u8]) -> (r: Vec<String>)
    ensures
        text::texts(r@) == servers_value(output::lossy_text(stdout@)),
{
    let s = output::lossy(stdout);
    servers_in(s.as_str())
}

/// The arguments of `networksetup` that set the name servers of a service.
pub open spec fn set_args(service: Seq<char>, servers: Seq<Seq<char>>) -> Seq<Seq<char>> {
    seq!["-setdnsservers"@, service] + (if servers.len() == 0 {
        seq!["Empty"@]
    } else {
        servers
    })
}

pub fn set_servers(service: &str, servers: &Vec<String>) -> (r: Vec<String>)
    ensures
        text::texts(r@) == set_args(service@, text::texts(servers@)),
{
    let mut args: Vec<String> = Vec::new();
    output::push_arg(&mut args, "-setdnsservers");
    output::push_arg(&mut args, service);
    if servers.len() == 0 {
        output::push_arg(&mut args, "Empty");
    } else {
        let ghost before = text::texts(args@);
        for i in 0..servers.len()
            invariant
                text::texts(args@) == before + text::texts(servers@).take(i as int),
        {
            output::push_arg(&mut args, servers[i].as_str());
            assert(text::texts(args@) =~= before + text::texts(servers@).take(i + 1));
        }
        assert(text::texts(servers@).take(servers@.len() as int) =~= text::texts(servers@));
    }
    assert(text::texts(args@) =~= set_args(service@, text::texts(servers@)));
    args
}

// ---------------------------------------------------------------------------
// The name server of the tunnel
// ---------------------------------------------------------------------------
pub struct NetworkSetupDns {
    pub service: String,
    pub current: Option<IpAddr>,
    pub original: Option<Vec<String>>,
}

pub open spec fn optional_texts(list: Option<Vec<String>>) -> Option<Seq<Seq<char>>> {
    match list {
        Some(v) => Some(text::texts(v@)),
        None => None,
    }
}

impl NetworkSetupDns {
    /// The servers that were set at first.
    pub open spec fn spec_original(self) -> Option<Seq<Seq<char>>> {
        optional_texts(self.original)
    }

    pub fn new(service: String) -> (r: NetworkSetupDns)
        ensures
            r.service == service,
            r.current is None,
            r.original is None,
    {
        NetworkSetupDns { service, current: None, original: None }
    }

    pub fn current(&self) -> (r: Option<IpAddr>)
        ensures
            r == self.current,
    {
        self.current
    }

    /// Whether the servers that are set have to be asked for before others
    /// are.
    pub fn needs_backup(&self) -> (r: bool)
        ensures
            r == (self.original is None),
    {
        self.original.is_none()
    }

    /// Notes the servers that are set at first.
    pub fn note_original(&mut self, found: Vec<String>)
        ensures
            final(self).service == old(self).service,
            final(self).current == old(self).current,
            final(self).spec_original() == (match old(self).spec_original() {
                Some(s) => Some(s),
                None => Some(text::texts(found@)),
            }),
    {
        if self.original.is_none() {
            self.original = Some(found);
        }
    }

    /// What to set for a first server: nothing where there is none.
    pub open spec fn apply_plan(self, server: Option<IpAddr>) -> Option<Seq<Seq<char>>> {
        match server {
            Some(dns) => Some(set_args(self.service@, seq![dns.text()])),
            None => None,
        }
    }

    /// What to set for a first server: nothing where there is none.
    pub fn apply(&self, server: Option<IpAddr>) -> (r: Option<Vec<String>>)
        ensures
            optional_texts(r) == self.apply_plan(server),
    {
        match server {
            Some(dns) => Some(self.args_for(dns)),
            None => None,
        }
    }

    fn args_for(&self, dns: IpAddr) -> (r: Vec<String>)
        ensures
            text::texts(r@) == set_args(self.service@, seq![dns.text()]),
    {
        let mut one: Vec<String> = Vec::new();
        one.push(dns.to_text());
        assert(text::texts(one@) =~= seq![dns.text()]);
        set_servers(self.service.as_str(), &one)
    }

    /// What to set when the configuration asks for `server`: nothing where it
    /// is the one that is set, or where none is asked for and the first ones
    /// are not known.
    pub open spec fn reload_plan(self, server: Option<IpAddr>) -> Option<Seq<Seq<char>>> {
        if server == self.current {
            None
        } else {
            match server {
                Some(dns) => Some(set_args(self.service@, seq![dns.text()])),
                None => match self.spec_original() {
                    Some(servers) => Some(set_args(self.service@, servers)),
                    None => None,
                },
            }
        }
    }

    /// What to set when the configuration asks for `server`: nothing where it
    /// is the one that is set, or where none is asked for and the first ones
    /// are not known.
    pub fn reload(&self, server: Option<IpAddr>) -> (r: Option<Vec<String>>)
        ensures
            optional_texts(r) == self.reload_plan(server),
    {
        if reload::same_server(server, self.current) {
            return None;
        }
        match server {
            Some(dns) => Some(self.args_for(dns)),
            None => match &self.original {
                Some(servers) => Some(set_servers(self.service.as_str(), servers)),
                None => None,
            },
        }
    }

    /// Notes the server that is set.
    pub fn finish(&mut self, server: Option<IpAddr>)
        ensures
            *final(self) == (NetworkSetupDns { current: server, ..*old(self) }),
    {
        self.current = server;
    }

    /// What is set at the end: the first servers, where one was set.
    pub open spec fn restore_plan(self) -> Option<Seq<Seq<char>>> {
        match (self.current, self.spec_original()) {
            (Some(_), Some(servers)) => Some(set_args(self.service@, servers)),
            _ => None,
        }
    }

    /// Plans what is set at the end. The first servers are forgotten, whether
    /// that succeeds or not.
    pub fn restore(&mut self) -> (r: Option<Vec<String>>)
        ensures
            final(self).service == old(self).service,
            final(self).current is None,
            final(self).original == (if old(self).current is Some {
                None
            } else {
                old(self).original
            }),
            optional_texts(r) == old(self).restore_plan(),
    {
        if self.current.is_none() {
            return None;
        }
        self.current = None;
        match self.original.take() {
            Some(servers) => Some(set_servers(self.service.as_str(), &servers)),
            None => None,
        }
    }
}

/// The servers that were set when the first one was to be replaced are set
/// again at the end, whatever was set in between.
pub proof fn lemma_first_servers_come_back(
    fresh: NetworkSetupDns,
    found: Seq<Seq<char>>,
    noted: NetworkSetupDns,
    last: NetworkSetupDns,
)
    requires
        fresh.original is None,
        noted.service == fresh.service,
        noted.spec_original() == (match fresh.spec_original() {
            Some(s) => Some(s),
            None => Some(found),
        }),
        last == (NetworkSetupDns { current: last.current, ..noted }),
        last.current is Some,
    ensures
        last.restore_plan() == Some(set_args(fresh.service@, found)),
{
}

/// The command names the service and then its servers, all of them in order, or
/// the word for none where there is none.
pub proof fn lemma_command_names_the_servers(service: Seq<char>, servers: Seq<Seq<char>>)
    ensures
        ({
            let a = set_args(service, servers);
            &&& a[0] == "-setdnsservers"@
            &&& a[1] == service
            &&& servers.len() > 0 ==> a.skip(2) == servers
            &&& servers.len() == 0 ==> a.skip(2) == seq!["Empty"@]
        }),
{
    let a = set_args(service, servers);
    if servers.len() > 0 {
        assert(a.skip(2) =~= servers);
    } else {
        assert(a.skip(2) =~= seq!["Empty"@]);
    }
}

/// A server that is asked for is set, and reads back as that server; one that is
/// set already is not set again. Where none is asked for any more, and at the
/// end, the first servers are set again. Where none was asked for, nothing is.
pub proof fn lemma_servers_follow_the_configuration(d: NetworkSetupDns, dns: IpAddr)
    ensures
        crate::addr::ip_value(dns.text()) == Some(dns),
        d.apply_plan(Some(dns)) == Some(set_args(d.service@, seq![dns.text()])),
        d.apply_plan(None) is None,
        d.current == Some(dns) ==> d.reload_plan(Some(dns)) is None,
        d.current != Some(dns) ==> d.reload_plan(Some(dns)) == d.apply_plan(Some(dns)),
        d.current is None ==> d.reload_plan(None) is None && d.restore_plan() is None,
        d.current is Some ==> d.reload_plan(None) == d.restore_plan(),
        d.current is Some ==> (d.spec_original() matches Some(first) ==> d.restore_plan() == Some(
            set_args(d.service@, first),
        )),
        d.spec_original() is None ==> d.restore_plan() is None,
{
    crate::addr::lemma_ip_round_trip(dns);
}

proof fn lemma_filled_lines_shift(first: Seq<char>, rest: Seq<Seq<char>>, i: int)
    requires
        0 <= i <= rest.len(),
    ensures
        filled_lines(seq![first] + rest, i + 1) == filled_lines(rest, i),
    decreases rest.len() - i,
{
    if i < rest.len() {
        assert((seq![first] + rest)[i + 1] == rest[i]);
        lemma_filled_lines_shift(first, rest, i + 1);
    }
}

/// Each line that is not blank is one server, in order and without the white
/// space around it; where the command says that there are none, there are none.
pub proof fn lemma_each_line_is_a_server(
    line: Seq<char>,
    rest: Seq<Seq<char>>,
    before: Seq<char>,
    after: Seq<char>,
)
    ensures
        filled_lines(Seq::empty(), 0).len() == 0,
        scan::trim(line).len() == 0 ==> filled_lines(seq![line] + rest, 0) == filled_lines(rest, 0),
        scan::trim(line).len() > 0 ==> filled_lines(seq![line] + rest, 0) == seq![scan::trim(line)]
            + filled_lines(rest, 0),
        servers_value(before + "There aren't any"@ + after).len() == 0,
{
    assert((seq![line] + rest)[0] == line);
    lemma_filled_lines_shift(line, rest, 0);
    let p = "There aren't any"@;
    let s = before + p + after;
    let n = before.len() as int;
    assert(s.subrange(n, n + p.len()) =~= p);
    assert(text::occurs_at(s, p, n));
}

/// A list of servers, one to a line, reads back as that list, unless it is said
/// in it that there are none.
pub proof fn lemma_listed_server_is_read(server: IpAddr, rest: Seq<char>)
    requires
        !text::contains(server.text() + seq!['\n'] + rest, "There aren't any"@),
        !text::contains(rest, "There aren't any"@),
    ensures
        servers_value(server.text() + seq!['\n'] + rest) == seq![server.text()] + servers_value(rest),
{
    let none = Seq::<char>::empty();
    let t = server.text();
    crate::addr::lemma_text_has_no_white_space(server);
    assert forall|i: int| 0 <= i < t.len() implies t[i] != '\n' && t[i] != '\r' by {
        assert(!scan::is_whitespace(t[i]));
    }
    scan::lemma_lines_end_at_line_feeds(t, rest);
    assert(none + t + none =~= t);
    scan::lemma_trim_gives_what_is_between(none, t, none);
    lemma_each_line_is_a_server(t, scan::lines(rest), none, none);
}

/// A line such as `(1) Name` names that service: whatever stands in the brackets,
/// and without the white space around the name. A line without an opening bracket
/// in front, or without a closing one, names none.
pub proof fn lemma_service_is_read(
    order: Seq<char>,
    gap: Seq<char>,
    name: Seq<char>,
    line: Seq<char>,
)
    requires
        forall|i: int| 0 <= i < order.len() ==> order[i] != ')',
        forall|i: int| 0 <= i < gap.len() ==> gap[i] == ' ',
        name.len() > 0,
        !scan::is_whitespace(name[0]),
        !scan::is_whitespace(name.last()),
        forall|i: int| 0 <= i < name.len() ==> name[i] != ')',
    ensures
        service_on_line("("@ + order + seq![')'] + gap + name) == Some(name),
        !text::starts_with(scan::trim(line), "("@) ==> service_on_line(line) is None,
        (forall|i: int| 0 <= i < line.len() ==> line[i] != ')') && scan::trim(line) == line
            ==> service_on_line(line) is None,
{
    let none = Seq::<char>::empty();
    reveal_strlit("(");
    let rest = order + seq![')'] + gap + name;
    let s = "("@ + rest;
    assert("("@ + order + seq![')'] + gap + name =~= s);
    assert(s[0] == '(');
    assert(s.last() == name.last());
    assert(none + s + none =~= s);
    scan::lemma_trim_gives_what_is_between(none, s, none);
    scan::lemma_after_prefix_is_the_rest("("@, rest, s);
    let k = order.len() as int;
    assert forall|j: int| 0 <= j < k implies rest[j] != ')' by {
        assert(rest[j] == order[j]);
    }
    text::lemma_find_is(rest, ')', k);
    let after = gap + name;
    assert(rest.skip(k + 1) =~= after);
    assert forall|j: int| 0 <= j < after.len() implies after[j] != ')' by {
        if j < gap.len() {
            assert(after[j] == gap[j]);
        } else {
            assert(after[j] == name[j - gap.len()]);
        }
    }
    text::lemma_find_is(after, ')', after.len() as int);
    assert(after.take(after.len() as int) =~= after);
    assert(gap + name + none =~= after);
    scan::lemma_trim_gives_what_is_between(gap, name, none);
    if scan::trim(line) == line && text::starts_with(line, "("@) && (forall|i: int|
        0 <= i < line.len() ==> line[i] != ')') {
        let r = line.skip(1);
        assert forall|j: int| 0 <= j < r.len() implies r[j] != ')' by {
            assert(r[j] == line[j + 1]);
        }
        text::lemma_find_is(r, ')', r.len() as int);
    }
}

proof fn lemma_service_in_lines_shift(first: Seq<char>, rest: Seq<Seq<char>>, i: int)
    requires
        0 <= i <= rest.len(),
    ensures
        service_in_lines(seq![first] + rest, i + 1) == service_in_lines(rest, i),
    decreases rest.len() - i,
{
    if i < rest.len() {
        assert((seq![first] + rest)[i + 1] == rest[i]);
        lemma_service_in_lines_shift(first, rest, i + 1);
    }
}

proof fn lemma_service_in_blocks_shift(first: Seq<char>, rest: Seq<Seq<char>>, i: int)
    requires
        0 <= i <= rest.len(),
    ensures
        service_in_blocks(seq![first] + rest, i + 1) == service_in_blocks(rest, i),
    decreases rest.len() - i,
{
    if i < rest.len() {
        assert((seq![first] + rest)[i + 1] == rest[i]);
        lemma_service_in_blocks_shift(first, rest, i + 1);
    }
}

/// The first service with a device is the primary one: a line that names none and
/// a block that names no device have no say.
pub proof fn lemma_first_service_counts(line: Seq<char>, rest: Seq<Seq<char>>)
    ensures
        service_in_lines(Seq::empty(), 0) is None,
        service_on_line(line) is Some ==> service_in_lines(seq![line] + rest, 0) == service_on_line(
            line,
        ),
        service_on_line(line) is None ==> service_in_lines(seq![line] + rest, 0) == service_in_lines(
            rest,
            0,
        ),
        service_in_blocks(Seq::empty(), 0) is None,
        !text::contains(line, "Device:"@) ==> service_in_blocks(seq![line] + rest, 0)
            == service_in_blocks(rest, 0),
        text::contains(line, "Device:"@) && service_in_lines(scan::lines(line), 0) is Some
            ==> service_in_blocks(seq![line] + rest, 0) == service_in_lines(scan::lines(line), 0),
        service_in_lines(scan::lines(line), 0) is None ==> service_in_blocks(seq![line] + rest, 0)
            == service_in_blocks(rest, 0),
{
    assert((seq![line] + rest)[0] == line);
    lemma_service_in_lines_shift(line, rest, 0);
    lemma_service_in_blocks_shift(line, rest, 0);
}

proof fn lemma_find_from_is(s: Seq<char>, p: Seq<char>, i: int, n: int)
    requires
        0 <= i <= n <= s.len(),
        forall|j: int| i <= j < n ==> !text::occurs_at(s, p, j),
        n < s.len() ==> text::occurs_at(s, p, n),
    ensures
        find_from(s, p, i) == n,
    decreases n - i,
{
    if i < n {
        lemma_find_from_is(s, p, i + 1, n);
    }
}

/// A block ends at the first empty line, and what follows is taken for itself.
pub proof fn lemma_blocks_end_at_empty_lines(block: Seq<char>, rest: Seq<char>)
    requires
        forall|j: int| 0 <= j < block.len() ==> !text::occurs_at(block.push('\n'), "\n\n"@, j),
    ensures
        blocks(block + seq!['\n', '\n'] + rest) == seq![block] + blocks(rest),
        blocks(block) == seq![block],
{
    reveal_strlit("\n\n");
    let p = "\n\n"@;
    let s = block + seq!['\n', '\n'] + rest;
    let n = block.len() as int;
    let e = block.push('\n');
    assert forall|j: int| 0 <= j < n implies !text::occurs_at(s, p, j) by {
        if text::occurs_at(s, p, j) {
            assert(e.subrange(j, j + 2) =~= s.subrange(j, j + 2));
            assert(text::occurs_at(e, p, j));
        }
    }
    assert(s.subrange(n, n + 2) =~= p);
    lemma_find_from_is(s, p, 0, n);
    assert(s.take(n) =~= block);
    assert(s.skip(n + 2) =~= rest);
    assert forall|j: int| 0 <= j < n implies !text::occurs_at(block, p, j) by {
        if text::occurs_at(block, p, j) {
            assert(e.subrange(j, j + 2) =~= block.subrange(j, j + 2));
            assert(text::occurs_at(e, p, j));
        }
    }
    lemma_find_from_is(block, p, 0, n);
}

} // verus!
