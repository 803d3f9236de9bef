use cortado::addr::{parse_ip, IpAddr};
use cortado::platform::linux::dns::{
    goes_on, FileOp, Place, ResolvConf, RESOLV_CONF_BACKUP_PATH, RESOLV_CONF_PATH,
};

fn ip(s: &str) -> IpAddr {
    parse_ip(s).unwrap()
}

/// The two files, and whether the main one can be written.
struct Disk {
    main: Option<Vec<u8>>,
    backup: Option<Vec<u8>>,
    writable: bool,
}

fn disk(main: Option<&str>) -> Disk {
    Disk {
        main: main.map(|s| s.as_bytes().to_vec()),
        backup: None,
        writable: true,
    }
}

fn text(file: &Option<Vec<u8>>) -> String {
    String::from_utf8(file.clone().unwrap()).unwrap()
}

fn perform(disk: &mut Disk, ops: &[FileOp]) -> usize {
    let mut done = 0;
    for op in ops {
        let succeeded = match op {
            FileOp::Write(Place::Main, content) => {
                if disk.writable {
                    disk.main = Some(content.clone());
                }
                disk.writable
            }
            FileOp::Write(Place::Backup, content) => {
                disk.backup = Some(content.clone());
                true
            }
            FileOp::Remove(Place::Main) => disk.main.take().is_some(),
            FileOp::Remove(Place::Backup) => disk.backup.take().is_some(),
        };
        if !goes_on(op, succeeded) {
            break;
        }
        done += 1;
    }
    done
}

fn apply(rc: &mut ResolvConf, disk: &mut Disk, server: Option<IpAddr>) -> bool {
    let found = disk.main.clone();
    let ops = rc.apply(server, &found);
    let done = perform(disk, &ops);
    if let Some(server) = server {
        rc.finish_set(server, found, done);
    }
    done == ops.len()
}

fn reload(rc: &mut ResolvConf, disk: &mut Disk, server: Option<IpAddr>) -> bool {
    if server == rc.current() {
        return true;
    }
    let found = disk.main.clone();
    let ops = rc.reload(server, &found);
    let done = perform(disk, &ops);
    match server {
        Some(server) => rc.finish_set(server, found, done),
        None => {
            if done == ops.len() {
                rc.finish_put_back();
            }
        }
    }
    done == ops.len()
}

fn resolv_conf() -> ResolvConf {
    ResolvConf::new("main".to_string(), "main.bak".to_string())
}

#[test]
fn apply_writes_nameserver_and_backs_up() {
    let mut disk = disk(Some("nameserver 192.168.1.1\n"));
    let mut rc = resolv_conf();
    assert!(apply(&mut rc, &mut disk, Some(ip("1.1.1.1"))));
    assert_eq!(text(&disk.main), "nameserver 1.1.1.1\n");
    assert_eq!(text(&disk.backup), "nameserver 192.168.1.1\n");
}

#[test]
fn restore_returns_original() {
    let mut disk = disk(Some("nameserver 8.8.8.8\n"));
    let mut rc = resolv_conf();
    assert!(apply(&mut rc, &mut disk, Some(ip("1.1.1.1"))));
    let ops = rc.restore();
    perform(&mut disk, &ops);
    assert_eq!(text(&disk.main), "nameserver 8.8.8.8\n");
    assert!(disk.backup.is_none());
}

#[test]
fn reload_switches_nameserver() {
    let mut disk = disk(Some("nameserver 8.8.8.8\n"));
    let mut rc = resolv_conf();
    assert!(apply(&mut rc, &mut disk, Some(ip("1.1.1.1"))));
    assert!(reload(&mut rc, &mut disk, Some(ip("9.9.9.9"))));
    assert_eq!(text(&disk.main), "nameserver 9.9.9.9\n");
    assert_eq!(rc.current(), Some(ip("9.9.9.9")));

    assert!(reload(&mut rc, &mut disk, None));
    assert_eq!(text(&disk.main), "nameserver 8.8.8.8\n");
    assert_eq!(rc.current(), None);
}

#[test]
fn apply_none_is_noop() {
    let mut disk = disk(None);
    let mut rc = resolv_conf();
    assert!(apply(&mut rc, &mut disk, None));
    assert!(disk.main.is_none());
    assert_eq!(rc.current(), None);
}

#[test]
fn backup_keeps_the_first_content() {
    let mut disk = disk(Some("search home\n"));
    let mut rc = resolv_conf();
    assert!(apply(&mut rc, &mut disk, Some(ip("1.1.1.1"))));
    assert!(reload(&mut rc, &mut disk, None));
    assert!(reload(&mut rc, &mut disk, Some(ip("fd00::1"))));
    assert_eq!(text(&disk.main), "nameserver fd00::1\n");
    assert_eq!(text(&disk.backup), "search home\n");
    let ops = rc.restore();
    perform(&mut disk, &ops);
    assert_eq!(text(&disk.main), "search home\n");
    assert_eq!(rc.current(), None);
    assert!(rc.restore().is_empty());
}

#[test]
fn override_that_returns_is_backed_up() {
    let mut disk = disk(Some("nameserver 8.8.8.8\n"));
    let mut rc = resolv_conf();
    assert!(apply(&mut rc, &mut disk, Some(ip("1.1.1.1"))));
    assert!(reload(&mut rc, &mut disk, None));
    assert!(disk.backup.is_none());
    assert!(reload(&mut rc, &mut disk, Some(ip("9.9.9.9"))));
    assert_eq!(text(&disk.main), "nameserver 9.9.9.9\n");
    assert_eq!(rc.current(), Some(ip("9.9.9.9")));
    assert_eq!(text(&disk.backup), "nameserver 8.8.8.8\n");
}

#[test]
fn failed_return_of_an_override_is_recoverable() {
    let mut disk = disk(Some("search home\n"));
    let mut rc = resolv_conf();
    assert!(apply(&mut rc, &mut disk, Some(ip("1.1.1.1"))));
    assert!(reload(&mut rc, &mut disk, None));
    disk.writable = false;
    assert!(!reload(&mut rc, &mut disk, Some(ip("9.9.9.9"))));
    assert_eq!(rc.current(), None);
    assert_eq!(text(&disk.main), "search home\n");
    assert_eq!(text(&disk.backup), "search home\n");
    disk.writable = true;
    assert!(reload(&mut rc, &mut disk, Some(ip("9.9.9.9"))));
    let ops = rc.restore();
    perform(&mut disk, &ops);
    assert_eq!(text(&disk.main), "search home\n");
}

#[test]
fn failed_write_leaves_no_override() {
    let mut disk = disk(Some("search home\n"));
    disk.writable = false;
    let mut rc = resolv_conf();
    assert!(!apply(&mut rc, &mut disk, Some(ip("1.1.1.1"))));
    assert_eq!(rc.current(), None);
    assert_eq!(text(&disk.main), "search home\n");
    assert_eq!(text(&disk.backup), "search home\n");
    assert!(rc.restore().is_empty());
}

#[test]
fn missing_file_has_no_backup() {
    let mut disk = disk(None);
    let mut rc = resolv_conf();
    assert!(apply(&mut rc, &mut disk, Some(ip("1.1.1.1"))));
    assert!(disk.backup.is_none());
    assert!(rc.lacks_backup());
    assert!(rc.restore().is_empty());
    assert_eq!(text(&disk.main), "nameserver 1.1.1.1\n");
}

#[test]
fn system_paths() {
    let rc = ResolvConf::system();
    assert_eq!(rc.path, RESOLV_CONF_PATH);
    assert_eq!(rc.backup_path, RESOLV_CONF_BACKUP_PATH);
    assert_eq!(rc.path, "/etc/resolv.conf");
    assert_eq!(rc.backup_path, "/etc/resolv.conf.cortado.bak");
}
