//! The name server in `/etc/resolv.conf`.

use vstd::prelude::*;
use crate::addr::IpAddr;
use crate::reload;
use crate::text;

verus! {

pub const RESOLV_CONF_PATH: &'static str = "/etc/resolv.conf";
pub const RESOLV_CONF_BACKUP_PATH: &'static str = "/etc/resolv.conf.cortado.bak";

/// The file that names the servers, where its backup goes, the server that
/// was set, and what the file held before.
pub struct ResolvConf {
    pub path: String,
    pub backup_path: String,
    pub current: Option<IpAddr>,
    pub original: Option<Vec<u8>>,
}

/// One of the two files.
#[derive(Clone, Copy, PartialEq, Eq, Debug, Structural)]
pub enum Place {
    Main,
    Backup,
}

/// One change to a file.
pub enum FileOp {
    Write(Place, Vec<u8>),
    Remove(Place),
}

/// One change to a file, in terms of its content.
pub enum FileChange {
    Write(Place, Seq<u8>),
    Remove(Place),
}

impl FileOp {
    pub open spec fn change(self) -> FileChange {
        match self {
            FileOp::Write(p, b) => FileChange::Write(p, b@),
            FileOp::Remove(p) => FileChange::Remove(p),
        }
    }
}

/// Whether the changes go on after one of them, given whether it succeeded:
/// not after a file that could not be written.
pub open spec fn continues(change: FileChange, succeeded: bool) -> bool {
    succeeded || change is Remove
}

/// Whether the changes go on after one of them, given whether it succeeded:
/// not after a file that could not be written.
pub fn goes_on(op: &FileOp, succeeded: bool) -> (r: bool)
    ensures
        r == continues(op.change(), succeeded),
{
    match op {
        FileOp::Write(_, _) => succeeded,
        FileOp::Remove(_) => true,
    }
}

pub open spec fn changes(ops: Seq<FileOp>) -> Seq<FileChange> {
    ops.map_values(|op: FileOp| op.change())
}

/// What the file holds that names one server.
pub open spec fn nameserver_bytes(server: IpAddr) -> Seq<u8> {
    vstd::utf8::encode_utf8("nameserver "@ + server.text() + seq!['\n'])
}

fn nameserver_line(server: IpAddr) -> (r: Vec<u8>)
    ensures
        r@ == nameserver_bytes(server),
{
    let mut out = String::new();
    text::push_text(&mut out, "nameserver ");
    server.write(&mut out);
    out.push('\n');
    assert(out@ =~= "nameserver "@ + server.text() + seq!['\n']);
    text::copy_bytes(out.as_str().as_bytes())
}

pub open spec fn content(c: Option<Vec<u8>>) -> Option<Seq<u8>> {
    match c {
        Some(b) => Some(b@),
        None => None,
    }
}

impl ResolvConf {
    /// What the file held before it was first changed.
    pub open spec fn spec_original(self) -> Option<Seq<u8>> {
        content(self.original)
    }

    pub fn new(path: String, backup_path: String) -> (r: ResolvConf)
        ensures
            r.path == path,
            r.backup_path == backup_path,
            r.current is None,
            r.original is None,
    {
        ResolvConf { path, backup_path, current: None, original: None }
    }

    pub fn system() -> (r: ResolvConf)
        ensures
            r.path@ == RESOLV_CONF_PATH@,
            r.backup_path@ == RESOLV_CONF_BACKUP_PATH@,
            r.current is None,
            r.original is None,
    {
        ResolvConf::new(RESOLV_CONF_PATH.to_owned(), RESOLV_CONF_BACKUP_PATH.to_owned())
    }

    pub fn current(&self) -> (r: Option<IpAddr>)
        ensures
            r == self.current,
    {
        self.current
    }

    /// The content that a backup holds: the first one, or what is found where
    /// none is known yet.
    pub open spec fn backup_content(self, found: Option<Seq<u8>>) -> Option<Seq<u8>> {
        if self.original is Some {
            self.spec_original()
        } else {
            found
        }
    }

    /// Whether setting a server begins with a backup: where none is set, since
    /// there is no backup then, and where the first content is not known. There
    /// has to be some content.
    pub open spec fn backs_up(self, found: Option<Seq<u8>>) -> bool {
        (self.current is None || self.original is None) && self.backup_content(found) is Some
    }

    /// The changes that set a server, where the file holds `found`: a backup,
    /// and the new content.
    pub open spec fn set_plan(self, server: IpAddr, found: Option<Seq<u8>>) -> Seq<FileChange> {
        (if self.backs_up(found) {
            seq![FileChange::Write(Place::Backup, self.backup_content(found)->0)]
        } else {
            Seq::empty()
        }) + seq![FileChange::Write(Place::Main, nameserver_bytes(server))]
    }

    fn plan_set(&self, server: IpAddr, found: &Option<Vec<u8>>) -> (r: Vec<FileOp>)
        ensures
            changes(r@) == self.set_plan(server, content(*found)),
    {
        let mut ops: Vec<FileOp> = Vec::new();
        match &self.original {
            Some(b) => {
                if self.current.is_none() {
                    ops.push(FileOp::Write(Place::Backup, text::copy_bytes(b.as_slice())));
                }
            },
            None => match found {
                Some(b) => {
                    ops.push(FileOp::Write(Place::Backup, text::copy_bytes(b.as_slice())));
                },
                None => {},
            },
        }
        ops.push(FileOp::Write(Place::Main, nameserver_line(server)));
        assert(changes(ops@) =~= self.set_plan(server, content(*found)));
        ops
    }

    /// The changes that a first server asks for.
    pub open spec fn apply_plan(
        self,
        server: Option<IpAddr>,
        found: Option<Seq<u8>>,
    ) -> Seq<FileChange> {
        match server {
            Some(dns) => self.set_plan(dns, found),
            None => Seq::empty(),
        }
    }

    /// Plans the changes that a first server asks for, where the file holds
    /// `found`.
    pub fn apply(&self, server: Option<IpAddr>, found: &Option<Vec<u8>>) -> (r: Vec<FileOp>)
        ensures
            changes(r@) == self.apply_plan(server, content(*found)),
    {
        match server {
            Some(dns) => self.plan_set(dns, found),
            None => {
                let ops: Vec<FileOp> = Vec::new();
                assert(changes(ops@) =~= Seq::<FileChange>::empty());
                ops
            },
        }
    }

    /// The changes that another server asks for, or none any more.
    pub open spec fn reload_plan(
        self,
        server: Option<IpAddr>,
        found: Option<Seq<u8>>,
    ) -> Seq<FileChange> {
        if server == self.current {
            Seq::empty()
        } else {
            match server {
                Some(dns) => self.set_plan(dns, found),
                None => self.put_back_plan(),
            }
        }
    }

    /// The changes that put the first content back and drop its backup.
    pub open spec fn put_back_plan(self) -> Seq<FileChange> {
        match self.spec_original() {
            Some(b) => seq![
                FileChange::Write(Place::Main, b),
                FileChange::Remove(Place::Backup),
            ],
            None => Seq::empty(),
        }
    }

    fn plan_put_back(&self) -> (r: Vec<FileOp>)
        ensures
            changes(r@) == self.put_back_plan(),
    {
        let mut ops: Vec<FileOp> = Vec::new();
        match &self.original {
            Some(b) => {
                ops.push(FileOp::Write(Place::Main, text::copy_bytes(b.as_slice())));
                ops.push(FileOp::Remove(Place::Backup));
            },
            None => {},
        }
        assert(changes(ops@) =~= self.put_back_plan());
        ops
    }

    /// Plans the changes that another server asks for, where the file holds
    /// `found`.
    pub fn reload(&self, server: Option<IpAddr>, found: &Option<Vec<u8>>) -> (r: Vec<FileOp>)
        ensures
            changes(r@) == self.reload_plan(server, content(*found)),
    {
        if reload::same_server(server, self.current) {
            let ops: Vec<FileOp> = Vec::new();
            assert(changes(ops@) =~= Seq::<FileChange>::empty());
            return ops;
        }
        match server {
            Some(dns) => self.plan_set(dns, found),
            None => self.plan_put_back(),
        }
    }

    /// The first content as it is known after the first `done` changes for a
    /// server.
    pub open spec fn original_after(
        self,
        server: IpAddr,
        found: Option<Seq<u8>>,
        done: nat,
    ) -> Option<Seq<u8>> {
        if self.original is None && done + 1 >= self.set_plan(server, found).len() {
            found
        } else {
            self.spec_original()
        }
    }

    /// The server that is set after the first `done` changes for one.
    pub open spec fn current_after(
        self,
        server: IpAddr,
        found: Option<Seq<u8>>,
        done: nat,
    ) -> Option<IpAddr> {
        if done >= self.set_plan(server, found).len() {
            Some(server)
        } else {
            self.current
        }
    }

    /// Takes note of how far the changes for a server went: the first content
    /// is known once it is backed up, and the server is set after all of them.
    pub fn finish_set(&mut self, server: IpAddr, found: Option<Vec<u8>>, done: usize)
        ensures
            final(self).path == old(self).path,
            final(self).backup_path == old(self).backup_path,
            final(self).spec_original() == old(self).original_after(
                server,
                content(found),
                done as nat,
            ),
            final(self).current == old(self).current_after(server, content(found), done as nat),
    {
        let backup: usize = if (self.original.is_none() && found.is_some()) || (
        self.original.is_some() && self.current.is_none()) {
            1
        } else {
            0
        };
        if self.original.is_none() && done >= backup {
            self.original = found;
        }
        if done >= backup + 1 {
            self.current = Some(server);
        }
    }

    /// The first content has been put back, as the configuration asked for.
    pub fn finish_put_back(&mut self)
        ensures
            *final(self) == (ResolvConf { current: None, ..*old(self) }),
    {
        self.current = None;
    }

    /// Plans the changes that put the first content back, where a server was
    /// set. Whether they succeed or not, none is set from then on.
    pub fn restore(&mut self) -> (r: Vec<FileOp>)
        ensures
            *final(self) == (ResolvConf { current: None, ..*old(self) }),
            changes(r@) == (if old(self).current is Some {
                old(self).put_back_plan()
            } else {
                Seq::empty()
            }),
    {
        if self.current.is_none() {
            let ops: Vec<FileOp> = Vec::new();
            assert(changes(ops@) =~= Seq::<FileChange>::empty());
            return ops;
        }
        let ops = self.plan_put_back();
        self.current = None;
        ops
    }

    /// Whether there is nothing to put back although a server was set.
    pub fn lacks_backup(&self) -> (r: bool)
        ensures
            r == (self.current is Some && self.original is None),
    {
        self.current.is_some() && self.original.is_none()
    }
}

// ---------------------------------------------------------------------------
// What becomes of the files
// ---------------------------------------------------------------------------
/// What the two files hold, where they exist.
pub struct Files {
    pub main: Option<Seq<u8>>,
    pub backup: Option<Seq<u8>>,
}

pub open spec fn changed(f: Files, c: FileChange) -> Files {
    match c {
        FileChange::Write(Place::Main, b) => Files { main: Some(b), ..f },
        FileChange::Write(Place::Backup, b) => Files { backup: Some(b), ..f },
        FileChange::Remove(Place::Main) => Files { main: None, ..f },
        FileChange::Remove(Place::Backup) => Files { backup: None, ..f },
    }
}

pub open spec fn changed_all(f: Files, list: Seq<FileChange>) -> Files
    decreases list.len(),
{
    if list.len() == 0 {
        f
    } else {
        changed(changed_all(f, list.drop_last()), list.last())
    }
}

/// Whether the files are as they are while `rc` looks after them, and the main
/// one held `before` at first: a server that is set is in the file, and where
/// none is set the file holds what it did. The first content is kept, and while
/// a server is set it is in the backup.
pub open spec fn in_care(rc: ResolvConf, f: Files, before: Option<Seq<u8>>) -> bool {
    &&& rc.current matches Some(server) ==> f.main == Some(nameserver_bytes(server))
        && rc.spec_original() == before
    &&& rc.current is None ==> f.main == before
    &&& rc.original is Some ==> rc.spec_original() == before
    &&& rc.current is Some && before is Some ==> f.backup == before
}

proof fn lemma_two_changes(f: Files, a: FileChange, b: FileChange)
    ensures
        changed_all(f, seq![a, b]) == changed(changed(f, a), b),
        changed_all(f, seq![a]) == changed(f, a),
        changed_all(f, Seq::empty()) == f,
{
    reveal_with_fuel(changed_all, 3);
    assert(seq![a, b].drop_last() =~= seq![a]);
    assert(seq![a].drop_last() =~= Seq::<FileChange>::empty());
}

/// Setting a server keeps the first content, and leaves it in the backup.
pub proof fn lemma_set_keeps_care(
    rc: ResolvConf,
    after: ResolvConf,
    server: IpAddr,
    f: Files,
    before: Option<Seq<u8>>,
)
    requires
        in_care(rc, f, before),
        rc.current is None || rc.original is Some,
        after.current == Some(server),
        after.spec_original() == (if rc.original is None {
            f.main
        } else {
            rc.spec_original()
        }),
    ensures
        in_care(after, changed_all(f, rc.set_plan(server, f.main)), before),
        before is Some ==> changed_all(f, rc.set_plan(server, f.main)).backup == before,
{
    let w = FileChange::Write(Place::Main, nameserver_bytes(server));
    if rc.backs_up(f.main) {
        let a = FileChange::Write(Place::Backup, rc.backup_content(f.main)->0);
        assert(rc.set_plan(server, f.main) =~= seq![a, w]);
        lemma_two_changes(f, a, w);
    } else {
        assert(rc.set_plan(server, f.main) =~= seq![w]);
        lemma_two_changes(f, w, w);
    }
}

/// Whether the first content can be had back by hand: the file still holds it,
/// or its backup does.
pub open spec fn is_recoverable(f: Files, before: Option<Seq<u8>>) -> bool {
    f.main == before || f.backup == before
}

/// Wherever the changes break off, be it in setting a server or in putting the
/// first content back, that content can be had back by hand.
pub proof fn lemma_break_off_is_recoverable(
    rc: ResolvConf,
    server: IpAddr,
    f: Files,
    before: Option<Seq<u8>>,
    n: nat,
)
    requires
        in_care(rc, f, before),
        before is Some,
    ensures
        n <= rc.set_plan(server, f.main).len() ==> is_recoverable(
            changed_all(f, rc.set_plan(server, f.main).take(n as int)),
            before,
        ),
        n <= rc.put_back_plan().len() ==> is_recoverable(
            changed_all(f, rc.put_back_plan().take(n as int)),
            before,
        ),
{
    let set = rc.set_plan(server, f.main);
    let back = rc.put_back_plan();
    let w = FileChange::Write(Place::Main, nameserver_bytes(server));
    let a = FileChange::Write(Place::Backup, rc.backup_content(f.main)->0);
    let m = FileChange::Write(Place::Main, rc.spec_original()->0);
    let d = FileChange::Remove(Place::Backup);
    lemma_two_changes(f, a, w);
    lemma_two_changes(f, w, w);
    lemma_two_changes(f, m, d);
    if n == 0 {
        assert(set.take(0) =~= Seq::<FileChange>::empty());
        assert(back.take(0) =~= Seq::<FileChange>::empty());
    } else if n == 1 {
        if rc.backs_up(f.main) {
            assert(set.take(1) =~= seq![a]);
        } else {
            assert(set.take(1) =~= seq![w]);
        }
        if rc.original is Some {
            assert(back.take(1) =~= seq![m]);
        }
    } else if n == 2 {
        if rc.backs_up(f.main) {
            assert(set.take(2) =~= seq![a, w]);
        }
        if rc.original is Some {
            assert(back.take(2) =~= seq![m, d]);
        }
    }
}

/// However often the server was changed in between, putting the first content
/// back leaves the file as it was, and no backup. This asks that there was a
/// file at first.
pub proof fn lemma_restore_gives_first_content_back(
    rc: ResolvConf,
    f: Files,
    before: Option<Seq<u8>>,
)
    requires
        in_care(rc, f, before),
        before is Some,
    ensures
        rc.current is Some ==> changed_all(f, rc.put_back_plan()).main == before,
        rc.current is Some ==> changed_all(f, rc.put_back_plan()).backup is None,
        rc.current is None ==> f.main == before,
        rc.original is Some ==> in_care(
            ResolvConf { current: None, ..rc },
            changed_all(f, rc.put_back_plan()),
            before,
        ),
{
    if rc.original is Some {
        let a = FileChange::Write(Place::Main, rc.spec_original()->0);
        let b = FileChange::Remove(Place::Backup);
        assert(rc.put_back_plan() =~= seq![a, b]);
        lemma_two_changes(f, a, b);
    }
}

/// A file that nobody has taken into care yet is in care.
pub proof fn lemma_fresh_file_is_in_care(rc: ResolvConf, f: Files)
    requires
        rc.current is None,
        rc.original is None,
    ensures
        in_care(rc, f, f.main),
{
}

/// The file that names a server is one line: the word, a blank and the text of
/// the address, which reads back as that address.
pub proof fn lemma_file_names_the_server(server: IpAddr)
    ensures
        exists|t: Seq<char>| {
            &&& nameserver_bytes(server) == #[trigger] vstd::utf8::encode_utf8(t)
            &&& t.len() >= 12
            &&& t.take(11) == "nameserver "@
            &&& t.last() == '\n'
            &&& crate::addr::ip_value(t.subrange(11, t.len() - 1)) == Some(server)
        },
{
    let a = server.text();
    let t = "nameserver "@ + a + seq!['\n'];
    reveal_strlit("nameserver ");
    assert(t.take(11) =~= "nameserver "@);
    assert(t.subrange(11, t.len() - 1) =~= a);
    crate::addr::lemma_ip_round_trip(server);
    assert(nameserver_bytes(server) == vstd::utf8::encode_utf8(t));
}

/// Setting a server ends with the file naming it. The backup comes before, and
/// where that cannot be written the file is not touched. What is asked for is
/// what is done: no server, and one that is set already, change nothing.
pub proof fn lemma_setting_a_server(rc: ResolvConf, server: IpAddr, found: Option<Seq<u8>>)
    ensures
        ({
            let plan = rc.set_plan(server, found);
            &&& 1 <= plan.len() <= 2
            &&& plan.last() == FileChange::Write(Place::Main, nameserver_bytes(server))
            &&& plan.len() == 2 ==> plan[0] == FileChange::Write(
                Place::Backup,
                rc.backup_content(found)->0,
            ) && !continues(plan[0], false)
            &&& plan.len() == 2 <==> rc.backup_content(found) is Some && (rc.current is None
                || rc.original is None)
            &&& rc.original is Some ==> rc.backup_content(found) == rc.spec_original()
            &&& rc.original is None ==> rc.backup_content(found) == found
            &&& rc.apply_plan(Some(server), found) == plan
            &&& rc.apply_plan(None, found).len() == 0
            &&& rc.current == Some(server) ==> rc.reload_plan(Some(server), found).len() == 0
            &&& rc.current != Some(server) ==> rc.reload_plan(Some(server), found) == plan
            &&& rc.current is None ==> rc.reload_plan(None, found).len() == 0
            &&& rc.current is Some ==> rc.reload_plan(None, found) == rc.put_back_plan()
        }),
{
}

/// Putting back writes the first content and then removes the backup, in this
/// order; a backup that cannot be removed is no fault, a file that cannot be
/// written is.
pub proof fn lemma_putting_back(rc: ResolvConf, place: Place, b: Seq<u8>)
    ensures
        rc.original is None ==> rc.put_back_plan().len() == 0,
        rc.spec_original() matches Some(first) ==> rc.put_back_plan() == seq![
            FileChange::Write(Place::Main, first),
            FileChange::Remove(Place::Backup),
        ],
        continues(FileChange::Remove(place), false),
        !continues(FileChange::Write(place, b), false),
        continues(FileChange::Write(place, b), true),
{
}

/// A server counts as set once all changes for it went through, and not before.
/// The first content is noted once, as soon as its backup is written, and never
/// again.
pub proof fn lemma_what_is_noted_of_setting(
    rc: ResolvConf,
    server: IpAddr,
    found: Option<Seq<u8>>,
    done: nat,
)
    ensures
        ({
            let all = rc.set_plan(server, found).len();
            &&& done >= all ==> rc.current_after(server, found, done) == Some(server)
            &&& done < all ==> rc.current_after(server, found, done) == rc.current
            &&& rc.original is Some ==> rc.original_after(server, found, done) == rc.spec_original()
            &&& rc.original is None && done >= 1 ==> rc.original_after(server, found, done) == found
            &&& rc.original is None && found is Some && done == 0 ==> rc.original_after(
                server,
                found,
                done,
            ) is None
        }),
{
}

} // verus!
