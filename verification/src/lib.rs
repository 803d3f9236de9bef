//! The logic of a tunnel that takes all traffic of a host to a SOCKS5 proxy.

use vstd::prelude::*;

pub mod addr;
pub mod bytes;
pub mod config;
pub mod dns;
pub mod ipv6;
pub mod logging;
pub mod metrics;
pub mod net;
pub mod platform;
pub mod reload;
pub mod scan;
pub mod socks;
pub mod stats;
pub mod text;
pub mod time;
pub mod tune;
pub mod tunnel;
pub mod udp;

use config::{Config, ConfigError};

verus! {

pub const CONFIG_FILE_NAME: &'static str = "cortado.conf";
pub const SYSTEM_CONFIG_DIR: &'static str = "/etc/cortado";

// ---------------------------------------------------------------------------
// Where the configuration is
// ---------------------------------------------------------------------------
/// Where a file is: in a directory, under the names that lead on from there.
/// How a system writes that as one path is its own affair.
#[derive(Clone, PartialEq, Eq, Debug)]
pub struct FilePlace {
    pub dir: Vec<u8>,
    pub names: Vec<&'static str>,
}

#[verifier::ext_equal]
pub struct FilePlaceView {
    pub dir: Seq<u8>,
    pub names: Seq<Seq<char>>,
}

impl View for FilePlace {
    type V = FilePlaceView;

    open spec fn view(&self) -> FilePlaceView {
        FilePlaceView { dir: self.dir@, names: self.names@.map_values(|n: &'static str| n@) }
    }
}

impl FilePlace {
    /// The path of the file on Unix.
    pub fn unix_path(&self) -> (r: Vec<u8>)
        ensures
            r@ == unix_text(self@),
    {
        let mut path = text::copy_bytes(self.dir.as_slice());
        let n = self.names.len();
        assert(self@.names.take(0) =~= Seq::<Seq<char>>::empty());
        for i in 0..n
            invariant
                n == self.names@.len(),
                path@ == unix_text(FilePlaceView { dir: self.dir@, names: self@.names.take(i as int) }),
        {
            let ghost before = self@.names.take(i as int);
            let ghost after = self@.names.take(i + 1);
            path = join(path, self.names[i]);
            assert(after.drop_last() =~= before);
            assert(after.last() == self.names@[i as int]@);
        }
        assert(self@.names.take(n as int) =~= self@.names);
        path
    }
}

/// A path on Unix with another name behind it.
pub open spec fn joined(base: Seq<u8>, part: Seq<char>) -> Seq<u8> {
    let p = vstd::utf8::encode_utf8(part);
    if base.len() == 0 || base.last() == 47 {
        base + p
    } else {
        base + seq![47u8] + p
    }
}

/// The path of a file on Unix: that of the directory, with one name after the
/// other behind it.
pub open spec fn unix_text(place: FilePlaceView) -> Seq<u8>
    decreases place.names.len(),
{
    if place.names.len() == 0 {
        place.dir
    } else {
        joined(
            unix_text(FilePlaceView { dir: place.dir, names: place.names.drop_last() }),
            place.names.last(),
        )
    }
}

fn join(base: Vec<u8>, part: &str) -> (r: Vec<u8>)
    ensures
        r@ == joined(base@, part@),
{
    let mut path = base;
    let n = path.len();
    if n > 0 && path[n - 1] != 47 {
        path.push(47);
    }
    text::append_bytes(&mut path, part.as_bytes());
    assert(path@ =~= joined(base@, part@));
    path
}

/// Where the configuration for the whole system is.
pub open spec fn system_place() -> FilePlaceView {
    FilePlaceView { dir: vstd::utf8::encode_utf8("/etc/cortado"@), names: seq!["cortado.conf"@] }
}

/// Where the configuration for the whole system is.
pub fn system_config_path() -> (r: FilePlace)
    ensures
        r@ == system_place(),
{
    let r = FilePlace {
        dir: text::copy_bytes("/etc/cortado".as_bytes()),
        names: vec!["cortado.conf"],
    };
    assert(r@ =~= system_place());
    r
}

/// Where the configuration of a user is: in the directory that
/// `XDG_CONFIG_HOME` names, where the system holds that for an absolute path,
/// or else in `.config` in the home directory.
pub open spec fn user_place(
    xdg: Option<Seq<u8>>,
    xdg_is_absolute: bool,
    home: Option<Seq<u8>>,
) -> Option<FilePlaceView> {
    match xdg {
        Some(dir) if xdg_is_absolute => Some(
            FilePlaceView { dir, names: seq!["cortado"@, "cortado.conf"@] },
        ),
        _ => match home {
            Some(dir) => Some(
                FilePlaceView { dir, names: seq![".config"@, "cortado"@, "cortado.conf"@] },
            ),
            None => None,
        },
    }
}

pub open spec fn optional_bytes(b: Option<Vec<u8>>) -> Option<Seq<u8>> {
    match b {
        Some(v) => Some(v@),
        None => None,
    }
}

pub open spec fn optional_place(p: Option<FilePlace>) -> Option<FilePlaceView> {
    match p {
        Some(v) => Some(v@),
        None => None,
    }
}

/// Where the configuration of a user is, from what the environment says.
pub fn user_config_path(
    xdg: Option<Vec<u8>>,
    xdg_is_absolute: bool,
    home: Option<Vec<u8>>,
) -> (r: Option<FilePlace>)
    ensures
        optional_place(r) == user_place(
            optional_bytes(xdg),
            xdg_is_absolute,
            optional_bytes(home),
        ),
{
    if xdg_is_absolute {
        match xdg {
            Some(dir) => {
                let r = FilePlace { dir, names: vec!["cortado", "cortado.conf"] };
                assert(r@.names =~= seq!["cortado"@, "cortado.conf"@]);
                return Some(r);
            },
            None => {},
        }
    }
    match home {
        Some(dir) => {
            let r = FilePlace { dir, names: vec![".config", "cortado", "cortado.conf"] };
            assert(r@.names =~= seq![".config"@, "cortado"@, "cortado.conf"@]);
            Some(r)
        },
        None => None,
    }
}

/// On Unix the configuration for the whole system is `cortado.conf` in
/// `/etc/cortado`. That of a user is `cortado/cortado.conf` in the directory
/// that is given, where that is absolute, and else `.config/cortado/cortado.conf`
/// in the home directory.
pub proof fn lemma_unix_paths(xdg: Seq<u8>, home: Seq<u8>, other: Option<Seq<u8>>)
    ensures
        unix_text(system_place()) == joined(
            vstd::utf8::encode_utf8("/etc/cortado"@),
            "cortado.conf"@,
        ),
        user_place(Some(xdg), true, other) matches Some(p) && unix_text(p) == joined(
            joined(xdg, "cortado"@),
            "cortado.conf"@,
        ),
        user_place(Some(xdg), false, Some(home)) matches Some(p) && unix_text(p) == joined(
            joined(joined(home, ".config"@), "cortado"@),
            "cortado.conf"@,
        ),
        user_place(None, false, Some(home)) == user_place(Some(xdg), false, Some(home)),
{
    reveal_with_fuel(unix_text, 4);
    let none = Seq::<Seq<char>>::empty();
    assert(seq!["cortado.conf"@].drop_last() =~= none);
    assert(seq!["cortado"@].drop_last() =~= none);
    assert(seq!["cortado"@, "cortado.conf"@].drop_last() =~= seq!["cortado"@]);
    assert(seq![".config"@].drop_last() =~= none);
    assert(seq![".config"@, "cortado"@].drop_last() =~= seq![".config"@]);
    assert(seq![".config"@, "cortado"@, "cortado.conf"@].drop_last() =~= seq![
        ".config"@,
        "cortado"@,
    ]);
}

/// The configuration that is read: that for the whole system where it is a
/// file, or else that of the user where it is one.
pub open spec fn place_to_read(
    system_is_file: bool,
    user: Option<FilePlaceView>,
    user_is_file: bool,
) -> Option<FilePlaceView> {
    if system_is_file {
        Some(system_place())
    } else if user_is_file {
        user
    } else {
        None
    }
}

/// The configuration that is read: that for the whole system where it is a
/// file, or else that of the user where it is one.
pub fn existing_config_path(
    system_is_file: bool,
    user: Option<FilePlace>,
    user_is_file: bool,
) -> (r: Option<FilePlace>)
    ensures
        optional_place(r) == place_to_read(system_is_file, optional_place(user), user_is_file),
{
    if system_is_file {
        return Some(system_config_path());
    }
    if user_is_file {
        user
    } else {
        None
    }
}

/// The configuration that is written: for root that for the whole system,
/// where its directory can be had, and else that of the user. Where there is no
/// place for that, only the former is left.
pub open spec fn place_to_write(
    is_root: bool,
    system_dir_ready: bool,
    user: Option<FilePlaceView>,
) -> FilePlaceView {
    if is_root && system_dir_ready {
        system_place()
    } else {
        match user {
            Some(place) => place,
            None => system_place(),
        }
    }
}

/// The configuration that is written: for root that for the whole system,
/// where its directory can be had, and else that of the user. Where there is no
/// place for that, only the former is left.
pub fn writable_config_path(is_root: bool, system_dir_ready: bool, user: Option<FilePlace>) -> (r:
    FilePlace)
    ensures
        r@ == place_to_write(is_root, system_dir_ready, optional_place(user)),
{
    if is_root && system_dir_ready {
        return system_config_path();
    }
    match user {
        Some(place) => place,
        None => system_config_path(),
    }
}

// ---------------------------------------------------------------------------
// Reading it
// ---------------------------------------------------------------------------
/// What came of reading a file.
pub enum FileRead {
    Unreadable,
    Unparsable,
    Parsed(Config),
}

/// Why there is no configuration.
#[derive(Clone, Copy, PartialEq, Eq, Debug, Structural)]
pub enum LoadError {
    NotFound,
    Disappeared,
    Unreadable,
    Unparsable,
    Invalid(ConfigError),
}

/// What comes of reading a file: the configuration in it, where it is valid.
pub open spec fn read_result(file: FileRead) -> Result<Config, LoadError> {
    match file {
        FileRead::Unreadable => Err(LoadError::Unreadable),
        FileRead::Unparsable => Err(LoadError::Unparsable),
        FileRead::Parsed(cfg) => match cfg.fault() {
            Some(e) => Err(LoadError::Invalid(e)),
            None => Ok(cfg),
        },
    }
}

pub fn read_config(file: FileRead) -> (r: Result<Config, LoadError>)
    ensures
        r == read_result(file),
        r matches Ok(cfg) ==> cfg.fault() is None,
{
    match file {
        FileRead::Unreadable => Err(LoadError::Unreadable),
        FileRead::Unparsable => Err(LoadError::Unparsable),
        FileRead::Parsed(cfg) => match cfg.validate() {
            Ok(_) => Ok(cfg),
            Err(e) => Err(LoadError::Invalid(e)),
        },
    }
}

/// What comes of a file that was looked for, where `missing` is what it is called
/// that there is none.
pub open spec fn found_result(found: Option<FileRead>, missing: LoadError) -> Result<
    Config,
    LoadError,
> {
    match found {
        Some(file) => read_result(file),
        None => Err(missing),
    }
}

/// The configuration to start with, from the file that was found, if any.
pub fn load_config(found: Option<FileRead>) -> (r: Result<Config, LoadError>)
    ensures
        r == found_result(found, LoadError::NotFound),
        r matches Ok(cfg) ==> cfg.fault() is None,
{
    match found {
        Some(file) => read_config(file),
        None => Err(LoadError::NotFound),
    }
}

/// The configuration to go on with, from the file that was found, if any.
pub fn reload_config(found: Option<FileRead>) -> (r: Result<Config, LoadError>)
    ensures
        r == found_result(found, LoadError::Disappeared),
        r matches Ok(cfg) ==> cfg.fault() is None,
{
    match found {
        Some(file) => read_config(file),
        None => Err(LoadError::Disappeared),
    }
}

/// A configuration is taken exactly where a file was found, could be read and
/// parsed, and holds a valid one; and it is taken as it stands there. A fault is
/// told as what it is.
pub proof fn lemma_only_valid_configurations_are_taken(
    found: Option<FileRead>,
    missing: LoadError,
    cfg: Config,
)
    ensures
        found_result(found, missing) == Ok::<Config, LoadError>(cfg) <==> found == Some(
            FileRead::Parsed(cfg),
        ) && cfg.fault() is None,
        found is None ==> found_result(found, missing) == Err::<Config, LoadError>(missing),
        found == Some(FileRead::Unreadable) ==> found_result(found, missing) == Err::<
            Config,
            LoadError,
        >(LoadError::Unreadable),
        found == Some(FileRead::Unparsable) ==> found_result(found, missing) == Err::<
            Config,
            LoadError,
        >(LoadError::Unparsable),
        found == Some(FileRead::Parsed(cfg)) ==> (cfg.fault() matches Some(e) ==> found_result(
            found,
            missing,
        ) == Err::<Config, LoadError>(LoadError::Invalid(e))),
{
}

/// The configuration for the whole system goes before that of the user in
/// reading, and only one that is there is read. Only root writes it, unless there
/// is no other place.
pub proof fn lemma_which_configuration_is_meant(
    system: bool,
    user: FilePlaceView,
    is_file: bool,
    is_root: bool,
    ready: bool,
)
    ensures
        place_to_read(true, Some(user), is_file) == Some(system_place()),
        place_to_read(true, None, is_file) == Some(system_place()),
        place_to_read(false, Some(user), true) == Some(user),
        place_to_read(false, Some(user), false) is None,
        place_to_read(false, None, is_file) is None,
        place_to_write(true, true, Some(user)) == system_place(),
        place_to_write(false, ready, Some(user)) == user,
        place_to_write(is_root, false, Some(user)) == user,
        place_to_write(is_root, ready, None) == system_place(),
{
}

/// A name goes behind a path with one slash between the two: one is put there
/// where the path does not end with one, and none where it does or is empty.
pub proof fn lemma_one_slash_between_names(base: Seq<u8>, part: Seq<char>)
    ensures
        ({
            let p = vstd::utf8::encode_utf8(part);
            let r = joined(base, part);
            &&& base.len() == 0 ==> r == p
            &&& base.len() > 0 && base.last() == 47 ==> r == base + p
            &&& base.len() > 0 && base.last() != 47 ==> r == base.push(47u8) + p
        }),
{
    let p = vstd::utf8::encode_utf8(part);
    if base.len() == 0 {
        assert(base + p =~= p);
    }
    assert(base + seq![47u8] =~= base.push(47u8));
}

} // verus!
