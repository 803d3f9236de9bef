use cortado::config::{Config, ConfigError};
use cortado::{
    existing_config_path, load_config, read_config, reload_config, system_config_path,
    user_config_path, writable_config_path, FilePlace, FileRead, LoadError, CONFIG_FILE_NAME,
    SYSTEM_CONFIG_DIR,
};

fn bytes(s: &str) -> Option<Vec<u8>> {
    Some(s.as_bytes().to_vec())
}

fn text(place: &FilePlace) -> String {
    String::from_utf8(place.unix_path()).unwrap()
}

/// The path of a user's configuration on Unix.
fn user_text(xdg: Option<&str>, home: Option<&str>) -> Option<String> {
    let absolute = xdg.map_or(false, |dir| dir.starts_with('/'));
    user_config_path(xdg.and_then(bytes), absolute, home.and_then(bytes)).map(|p| text(&p))
}

fn user() -> Option<FilePlace> {
    user_config_path(None, false, bytes("/home/u"))
}

const USER: &str = "/home/u/.config/cortado/cortado.conf";
const SYSTEM: &str = "/etc/cortado/cortado.conf";

#[test]
fn system_path_is_fixed() {
    let place = system_config_path();
    assert_eq!(text(&place), SYSTEM);
    assert_eq!(place.dir, SYSTEM_CONFIG_DIR.as_bytes());
    assert_eq!(place.names, vec![CONFIG_FILE_NAME]);
    assert_eq!(SYSTEM_CONFIG_DIR, "/etc/cortado");
    assert_eq!(CONFIG_FILE_NAME, "cortado.conf");
}

#[test]
fn user_path_prefers_absolute_xdg() {
    let some = |s: &str| Some(s.to_string());
    assert_eq!(user_text(Some("/x"), Some("/home/u")), some("/x/cortado/cortado.conf"));
    assert_eq!(user_text(Some("/x/"), None), some("/x/cortado/cortado.conf"));
    assert_eq!(user_text(Some("x"), Some("/home/u")), some(USER));
    assert_eq!(user_text(Some(""), Some("/home/u")), some(USER));
    assert_eq!(user_text(None, Some("")), some(".config/cortado/cortado.conf"));
    assert_eq!(user_text(None, Some("/")), some("/.config/cortado/cortado.conf"));
    assert_eq!(user_text(Some("x"), None), None);
    assert_eq!(user_text(None, None), None);
}

#[test]
fn system_says_what_is_absolute() {
    let place = user_config_path(bytes("C:\\x"), true, bytes("C:\\Users\\u")).unwrap();
    assert_eq!(place.dir, b"C:\\x");
    assert_eq!(place.names, vec!["cortado", "cortado.conf"]);

    let place = user_config_path(bytes("x"), false, bytes("C:\\Users\\u")).unwrap();
    assert_eq!(place.dir, b"C:\\Users\\u");
    assert_eq!(place.names, vec![".config", "cortado", "cortado.conf"]);

    assert_eq!(user_config_path(None, true, None), None);
    assert_eq!(user_config_path(None, true, bytes("/home/u")), user());
}

#[test]
fn first_existing_path_is_read() {
    assert_eq!(existing_config_path(true, user(), true), Some(system_config_path()));
    assert_eq!(existing_config_path(true, None, false), Some(system_config_path()));
    assert_eq!(existing_config_path(false, user(), true), user());
    assert_eq!(existing_config_path(false, user(), false), None);
    assert_eq!(existing_config_path(false, None, false), None);
}

#[test]
fn writable_path_falls_back() {
    assert_eq!(text(&writable_config_path(true, true, user())), SYSTEM);
    assert_eq!(text(&writable_config_path(true, false, user())), USER);
    assert_eq!(text(&writable_config_path(true, false, None)), SYSTEM);
}

#[test]
fn only_root_writes_for_the_whole_system() {
    assert_eq!(text(&writable_config_path(false, true, user())), USER);
    let own = user_config_path(bytes("/x"), true, None);
    assert_eq!(
        text(&writable_config_path(false, false, own)),
        "/x/cortado/cortado.conf"
    );
}

#[test]
fn only_valid_configurations_are_loaded() {
    assert!(load_config(Some(FileRead::Parsed(Config::default()))).is_ok());
    assert!(read_config(FileRead::Parsed(Config::default())).is_ok());
    assert_eq!(load_config(None).err(), Some(LoadError::NotFound));
    assert_eq!(reload_config(None).err(), Some(LoadError::Disappeared));
    assert_eq!(
        load_config(Some(FileRead::Unreadable)).err(),
        Some(LoadError::Unreadable)
    );
    assert_eq!(
        reload_config(Some(FileRead::Unparsable)).err(),
        Some(LoadError::Unparsable)
    );
    let mut cfg = Config::default();
    cfg.proxy_addr = "nowhere".to_string();
    match reload_config(Some(FileRead::Parsed(cfg))) {
        Err(LoadError::Invalid(e)) => assert!(matches!(e, ConfigError::ProxyAddr)),
        _ => panic!("an invalid configuration"),
    }
}
