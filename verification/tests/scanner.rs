use bulk::config::{Config, VersionHolder};
use bulk::repo::disk::Disk;
use bulk::ver::scanner::{Lines, PatternError, ScanError, Scanner};
use bulk::ver::{get, GetError};
use bulk::version::Version;

fn holder(start: Option<&str>, end: Option<&str>, regex: &str, files: &[&str]) -> VersionHolder {
    VersionHolder {
        block_start: start.map(|s| s.to_string()),
        block_end: end.map(|s| s.to_string()),
        multiple_blocks: false,
        file: None,
        files: files.iter().map(|f| f.as_bytes().to_vec()).collect(),
        regex: regex.to_string(),
        partial_version: None,
    }
}

fn config(versions: Vec<VersionHolder>) -> Config {
    Config {
        minimum_bulk: Version(b"0.4.0".to_vec()),
        metadata: None,
        repositories: Vec::new(),
        versions,
    }
}

#[test]
fn lines_are_numbered_and_keep_their_line_feeds() {
    let mut lines = Lines::iter(b"one\ntwo\r\n\nlast".to_vec());
    assert_eq!(lines.next(), Some((1, b"one\n".to_vec())));
    assert_eq!(lines.next(), Some((2, b"two\r\n".to_vec())));
    assert_eq!(lines.next(), Some((3, b"\n".to_vec())));
    assert_eq!(lines.next(), Some((4, b"last".to_vec())));
    assert_eq!(lines.next(), None);
    assert_eq!(lines.next(), None);
    let mut none = Lines::iter(Vec::new());
    assert_eq!(none.next(), None);
}

#[test]
fn a_scan_finds_the_first_group() {
    let scanner = Scanner::new(&holder(None, None, "^version = \"(\\S+)\"", &[])).unwrap();
    let mut it = scanner.start();
    assert_eq!(it.line(1, b"[package]\n"), None);
    assert_eq!(it.line(2, b"version = \"1.2.3\"\n"), Some((11, 16)));
    assert_eq!(it.line(3, b"version = \"4\"\n"), Some((11, 12)));
    assert!(it.error().is_ok());
}

#[test]
fn a_scan_looks_within_its_block_only() {
    let scanner =
        Scanner::new(&holder(Some("^\\[package\\]"), Some("^\\["), "version = \"(.*)\"", &[]))
            .unwrap();
    let mut it = scanner.start();
    assert_eq!(it.line(1, b"version = \"0.1\"\n"), None);
    assert_eq!(it.line(2, b"[package]\n"), None);
    assert_eq!(it.line(3, b"name = \"x\"\n"), None);
    assert_eq!(it.line(4, b"version = \"0.2\"\n"), Some((11, 14)));
    assert_eq!(it.line(5, b"[dependencies]\n"), None);
    assert_eq!(it.line(6, b"version = \"0.3\"\n"), None);
    assert!(it.error().is_ok());
}

#[test]
fn an_empty_version_stops_the_scan() {
    let scanner = Scanner::new(&holder(None, None, "version=(\\d*)", &[])).unwrap();
    let mut it = scanner.start();
    assert_eq!(it.line(7, b"version=\n"), None);
    assert_eq!(it.line(8, b"version=12\n"), None);
    assert_eq!(it.error(), Err(ScanError::EmptyVersion(7)));
}

#[test]
fn a_pattern_without_group_stops_the_scan() {
    let scanner = Scanner::new(&holder(None, None, "version=\\d+", &[])).unwrap();
    let mut it = scanner.start();
    assert_eq!(it.line(1, b"nothing\n"), None);
    assert_eq!(it.line(2, b"version=12\n"), None);
    assert_eq!(it.error(), Err(ScanError::NoCapture(2)));
}

#[test]
fn patterns_must_be_regular_expressions() {
    assert!(matches!(
        Scanner::new(&holder(Some("("), Some("("), "(", &[])),
        Err(PatternError::BlockStart)
    ));
    assert!(matches!(
        Scanner::new(&holder(Some("a"), Some("("), "(", &[])),
        Err(PatternError::BlockEnd)
    ));
    assert!(matches!(Scanner::new(&holder(None, None, "(", &[])), Err(PatternError::Regex)));
}

#[test]
fn the_version_of_a_project_is_the_first_found() {
    let mut disk = Disk::new();
    disk.add(b"README".to_vec(), b"no version here\n".to_vec());
    disk.add(b"Cargo.toml".to_vec(), b"[package]\nname = \"x\"\nversion = \"0.4.12\"\n".to_vec());
    disk.add(b"other".to_vec(), b"version = \"9.9\"\n".to_vec());
    let mut partial = holder(None, None, "version = \"(\\S+)\"", &["other"]);
    partial.partial_version = Some("^\\d+".to_string());
    let mut first = holder(None, None, "version = \"(\\S+)\"", &["README", "Cargo.toml"]);
    first.file = Some(b"missing.txt".to_vec());
    let cfg = config(vec![partial, first, holder(None, None, "version = \"(\\S+)\"", &["other"])]);
    assert_eq!(get(&cfg, &disk).unwrap().0, b"0.4.12".to_vec());
}

#[test]
fn no_version_is_an_error() {
    let mut disk = Disk::new();
    disk.add(b"a".to_vec(), b"nothing\n".to_vec());
    let cfg = config(vec![holder(None, None, "v(\\d+)", &["a", "b"])]);
    assert_eq!(get(&cfg, &disk).err(), Some(GetError::NotFound));
    assert_eq!(get(&config(Vec::new()), &disk).err(), Some(GetError::NotFound));
    let cfg = config(vec![holder(None, None, "v(", &["a"])]);
    assert_eq!(get(&cfg, &disk).err(), Some(GetError::Pattern(PatternError::Regex)));
    let mut disk = Disk::new();
    disk.add(b"a".to_vec(), b"x\nv\n".to_vec());
    let cfg = config(vec![holder(None, None, "v(\\d*)", &["a"])]);
    assert_eq!(get(&cfg, &disk).err(), Some(GetError::Scan(ScanError::EmptyVersion(2))));
}
