use bulk::action::Action;
use bulk::config::{Config, VersionHolder};
use bulk::repo::disk::Disk;
use bulk::ver::check::{check, git_pair, CheckError};
use bulk::ver::commit::{message_template, tag_message};
use bulk::ver::parse::{get_all, get_first, scan_versions, ParseError};
use bulk::ver::rewrite::{rewrite, SetError};
use bulk::ver::scanner::PatternError;
use bulk::version::Version;

fn holder(start: Option<&str>, end: Option<&str>, regex: &str, files: &[&str]) -> VersionHolder {
    VersionHolder {
        block_start: start.map(|s| s.to_string()),
        block_end: end.map(|s| s.to_string()),
        multiple_blocks: false,
        file: None,
        files: files.iter().map(|f| f.as_bytes().to_vec()).collect(),
        regex: regex.to_string(),
        partial_version: None,
    }
}

fn partial(regex: &str, part: &str, files: &[&str]) -> VersionHolder {
    let mut h = holder(None, None, regex, files);
    h.partial_version = Some(part.to_string());
    h
}

fn config(versions: Vec<VersionHolder>) -> Config {
    Config {
        minimum_bulk: Version(b"0.4.0".to_vec()),
        metadata: None,
        repositories: Vec::new(),
        versions,
    }
}

fn project() -> (Config, Disk) {
    let mut disk = Disk::new();
    disk.add(
        b"Cargo.toml".to_vec(),
        b"[package]\nname = \"x\"\nversion = \"1.2.3\"\n\n[dependencies]\nversion = \"9\"\n".to_vec(),
    );
    disk.add(b"setup.py".to_vec(), b"setup(\n  version='1.2.3',\n)\n".to_vec());
    disk.add(b"docs/conf.py".to_vec(), b"release = '1.2'\nother = 1\n".to_vec());
    let cfg = config(vec![
        holder(Some("^\\[package\\]"), Some("^\\["), "^version\\s*=\\s*\"(\\S+)\"", &["Cargo.toml"]),
        holder(None, None, "version='([^']+)'", &["setup.py", "missing.py"]),
        partial("release = '([^']+)'", "^\\d+\\.\\d+", &["docs/conf.py"]),
    ]);
    (cfg, disk)
}

fn contents<'a>(files: &'a [bulk::repo::disk::DiskFile], path: &str) -> &'a [u8] {
    &files.iter().find(|f| f.path == path.as_bytes()).unwrap().contents
}

#[test]
fn a_version_is_written_where_it_stands() {
    let (cfg, disk) = project();
    let done = rewrite(&cfg, &disk, b"2.0.1", false).unwrap();
    assert_eq!(done.previous, b"1.2.3".to_vec());
    assert_eq!(done.files.len(), 3);
    assert_eq!(
        contents(&done.files, "Cargo.toml"),
        &b"[package]\nname = \"x\"\nversion = \"2.0.1\"\n\n[dependencies]\nversion = \"9\"\n"[..]
    );
    assert_eq!(contents(&done.files, "setup.py"), &b"setup(\n  version='2.0.1',\n)\n"[..]);
    assert_eq!(contents(&done.files, "docs/conf.py"), &b"release = '2.0'\nother = 1\n"[..]);
    assert_eq!(done.conflicts.len(), 0);
    assert_eq!(done.replaced.len(), 3);
    assert_eq!(done.replaced[0].file, b"Cargo.toml".to_vec());
    assert_eq!(done.replaced[0].line_no, 3);
    assert_eq!(done.replaced[0].old, b"1.2.3".to_vec());
    assert_eq!(done.replaced[0].new, b"2.0.1".to_vec());
    assert_eq!(done.replaced[0].line, b"version = \"2.0.1\"\n".to_vec());
    assert_eq!(done.replaced[2].old, b"1.2".to_vec());
    assert_eq!(done.replaced[2].new, b"2.0".to_vec());
}

#[test]
fn files_that_disagree_are_a_conflict_unless_forced() {
    let (cfg, _) = project();
    let mut disk = Disk::new();
    disk.add(b"Cargo.toml".to_vec(), b"[package]\nversion = \"1.2.3\"\n".to_vec());
    disk.add(b"setup.py".to_vec(), b"version='1.2.4'\n".to_vec());
    disk.add(b"docs/conf.py".to_vec(), b"release = '1.3'\n".to_vec());
    match rewrite(&cfg, &disk, b"2.0.0", false) {
        Err(SetError::Conflict(c)) => {
            // the last conflict is the one that is told
            assert_eq!(c.file, b"docs/conf.py".to_vec());
            assert_eq!(c.line_no, 1);
            assert_eq!(c.found, b"1.3".to_vec());
            assert_eq!(c.expected, b"1.2".to_vec());
        }
        _ => panic!("a conflict was passed over"),
    }
    let forced = rewrite(&cfg, &disk, b"2.0.0", true).unwrap();
    assert_eq!(forced.previous, b"1.2.3".to_vec());
    assert_eq!(forced.conflicts.len(), 2);
    assert_eq!(forced.conflicts[0].found, b"1.2.4".to_vec());
    assert_eq!(forced.conflicts[0].expected, b"1.2.3".to_vec());
    assert_eq!(contents(&forced.files, "setup.py"), &b"version='2.0.0'\n"[..]);
}

#[test]
fn a_file_named_twice_is_written_once_with_all_its_places() {
    let mut disk = Disk::new();
    disk.add(b"both".to_vec(), b"a=1.0\nb=1.0\n".to_vec());
    let cfg = config(vec![
        holder(None, None, "^a=(\\S+)", &["both"]),
        holder(None, None, "^b=(\\S+)", &["other", "both"]),
    ]);
    let done = rewrite(&cfg, &disk, b"1.1", false).unwrap();
    assert_eq!(done.files.len(), 1);
    assert_eq!(contents(&done.files, "both"), &b"a=1.1\nb=1.1\n"[..]);
    assert_eq!(done.previous, b"1.0".to_vec());
}

#[test]
fn what_cannot_be_rewritten() {
    let (_, disk) = project();
    assert!(matches!(
        rewrite(&config(vec![holder(None, None, "(", &[])]), &disk, b"1", false),
        Err(SetError::Pattern(PatternError::Regex))
    ));
    assert!(matches!(
        rewrite(&config(vec![partial("a", "(", &[])]), &disk, b"1", false),
        Err(SetError::Pattern(PatternError::PartialVersion))
    ));
    assert!(matches!(
        rewrite(&config(vec![holder(None, None, "nothing=(\\d+)", &["setup.py"])]), &disk, b"1", false),
        Err(SetError::NoVersion)
    ));
    assert!(matches!(rewrite(&config(Vec::new()), &disk, b"1", false), Err(SetError::NoVersion)));
    assert!(matches!(
        rewrite(&config(vec![holder(None, None, "version=", &["setup.py"])]), &disk, b"1", false),
        Err(SetError::Scan(_))
    ));
    // only a part of the version stands there: no version is known
    assert!(matches!(
        rewrite(&config(vec![partial("release = '([^']+)'", "^\\d+", &["docs/conf.py"])]), &disk, b"3.1", false),
        Err(SetError::NoVersion)
    ));
    assert!(matches!(
        rewrite(&config(vec![partial("release = '([^']+)'", "^\\d+", &["docs/conf.py"])]), &disk, b"x", false),
        Err(SetError::PartialMismatch)
    ));
}

#[test]
fn files_that_agree_pass_the_check() {
    let (cfg, disk) = project();
    let report = check(&cfg, &disk, &None).unwrap();
    assert!(report.consistent);
    assert_eq!(report.conflicts.len(), 0);
    assert_eq!(report.found.len(), 3);
    assert_eq!(report.found[0].file, b"Cargo.toml".to_vec());
    assert_eq!(report.found[0].line_no, 3);
    assert_eq!(report.found[0].version, b"1.2.3".to_vec());
    assert_eq!(report.found[0].line, b"version = \"1.2.3\"\n".to_vec());
    assert_eq!(report.found[2].version, b"1.2".to_vec());
    let git = Some(git_pair(b"v1.2.3-4-gabcdef", false));
    assert!(check(&cfg, &disk, &git).unwrap().consistent);
    let git = Some(git_pair(b"v1.2.3", true));
    assert!(check(&cfg, &disk, &git).unwrap().consistent);
}

#[test]
fn the_check_holds_the_files_against_git() {
    let (cfg, disk) = project();
    let git = Some(git_pair(b"v1.2.4-1-gabc", false));
    let report = check(&cfg, &disk, &git).unwrap();
    assert!(!report.consistent);
    // the files that hold the whole version disagree with what git says;
    // the part of it in the third file agrees
    assert_eq!(report.conflicts.len(), 2);
    assert_eq!(report.conflicts[0].found, b"1.2.3".to_vec());
    assert_eq!(report.conflicts[0].expected, b"1.2.4".to_vec());
    assert_eq!(report.conflicts[1].file, b"setup.py".to_vec());
    assert_eq!(report.conflicts[1].expected, b"1.2.4".to_vec());
    let exact = Some(git_pair(b"v1.2.3-4-gabcdef", true));
    assert!(!check(&cfg, &disk, &exact).unwrap().consistent);
}

#[test]
fn git_versions() {
    assert_eq!(git_pair(b"v1.2.3-4-gabc", false), (b"1.2.3-4-gabc".to_vec(), b"1.2.3".to_vec()));
    assert_eq!(git_pair(b"v1.2.3-4-gabc", true), (b"1.2.3-4-gabc".to_vec(), b"1.2.3-4-gabc".to_vec()));
    assert_eq!(git_pair(b"vv2", false), (b"2".to_vec(), b"2".to_vec()));
    assert_eq!(git_pair(b"", false), (Vec::new(), Vec::new()));
}

#[test]
fn what_cannot_be_checked() {
    let (_, disk) = project();
    assert_eq!(check(&config(Vec::new()), &disk, &None).err(), Some(CheckError::NoVersion));
    assert_eq!(
        check(&config(vec![holder(Some("("), None, "a", &[])]), &disk, &None).err(),
        Some(CheckError::Pattern(PatternError::BlockStart))
    );
    assert!(matches!(
        check(&config(vec![holder(None, None, "version=", &["setup.py"])]), &disk, &None),
        Err(CheckError::Scan(_))
    ));
    let cfg = config(vec![
        holder(None, None, "version='([^']+)'", &["setup.py"]),
        partial("release = '([^']+)'", "^x", &["docs/conf.py"]),
    ]);
    assert_eq!(check(&cfg, &disk, &None).err(), Some(CheckError::PartialMismatch));
}

#[test]
fn all_versions_of_a_file() {
    let text = b"intro v=0\nBEGIN\nv=1.0\nnothing\nv=1.1\r\nEND v=1.2\nv=2\n";
    let cfg = holder(Some("^BEGIN"), Some("^END"), "v=(\\S+)", &[]);
    let list = get_all(Some(text), &cfg).unwrap();
    let got: Vec<(usize, Vec<u8>)> = list.into_iter().map(|(n, v)| (n, v.0)).collect();
    assert_eq!(got, vec![(2, b"1.0".to_vec()), (4, b"1.1".to_vec()), (5, b"1.2".to_vec())]);
    assert_eq!(get_first(Some(text), &cfg).unwrap().unwrap().0, b"1.2".to_vec());
    assert_eq!(get_all(None, &cfg).unwrap().len(), 0);
    assert!(get_first(None, &cfg).unwrap().is_none());
    let no_block = holder(Some("^NEVER"), None, "v=(\\S+)", &[]);
    assert_eq!(get_all(Some(text), &no_block).unwrap().len(), 0);
    let whole = holder(None, None, "v=(\\S+)", &[]);
    assert_eq!(get_all(Some(text), &whole).unwrap().len(), 5);
    let mut res = Vec::new();
    assert!(scan_versions(b"v=7", &whole, &mut res).is_ok());
    assert_eq!(res.len(), 1);
    assert_eq!(res[0].0, 0);
    // what is found is added to what is held
    assert!(scan_versions(b"x\nv=8\nv=9", &whole, &mut res).is_ok());
    let got: Vec<(usize, Vec<u8>)> = res.iter().map(|(n, v)| (*n, v.0.clone())).collect();
    assert_eq!(got, vec![(0, b"7".to_vec()), (1, b"8".to_vec()), (2, b"9".to_vec())]);
    assert!(scan_versions(b"v=10\nv=\n", &holder(None, None, "v=(\\d*)", &[]), &mut res).is_err());
    assert_eq!(res.len(), 4);
}

#[test]
fn versions_that_cannot_be_listed() {
    assert!(matches!(
        get_all(Some(b"x"), &holder(Some("("), None, "(", &[])),
        Err(ParseError::Regex(p)) if p == "("
    ));
    assert!(matches!(
        get_all(Some(b"x"), &holder(None, Some("["), "x", &[])),
        Err(ParseError::Regex(p)) if p == "["
    ));
    assert!(matches!(
        get_all(Some(b"a\nv=\n"), &holder(None, None, "v=(\\d*)", &[])),
        Err(ParseError::CapturedEmptyVersion(1))
    ));
    assert!(matches!(
        get_all(Some(b"v=1\n"), &holder(None, None, "v=\\d", &[])),
        Err(ParseError::NoCapture)
    ));
}

#[test]
fn commands_by_their_names() {
    assert_eq!(Action::from_str("help"), Some(Action::Help));
    assert_eq!(Action::from_str("pack"), Some(Action::Pack));
    for n in ["repo-add", "repo_add", "repoadd", "radd", "add-to-repo", "add_to_repo", "addtorepo"] {
        assert_eq!(Action::from_str(n), Some(Action::RepoAdd));
    }
    for n in ["getversion", "get-version", "getver", "get-ver", "ver-get", "version-get", "verget", "versionget"] {
        assert_eq!(Action::from_str(n), Some(Action::GetVersion));
    }
    for n in ["set-version", "set-ver", "setversion", "setver", "ver-set", "version-set", "verset", "versionset"] {
        assert_eq!(Action::from_str(n), Some(Action::SetVersion));
    }
    for n in [
        "incr-version", "inc-version", "version-incr", "version-inc", "incr", "bump-version",
        "version-bump", "bumpver", "bump-ver", "bump",
    ] {
        assert_eq!(Action::from_str(n), Some(Action::IncrVersion));
    }
    assert_eq!(Action::from_str("check-version"), Some(Action::CheckVersion));
    assert_eq!(Action::from_str("version-check"), Some(Action::CheckVersion));
    assert_eq!(Action::from_str("with-version"), Some(Action::WithVersion));
    assert_eq!(Action::from_str("with-git-version"), Some(Action::WithGitVersion));
    assert_eq!(Action::from_str("Help"), None);
    assert_eq!(Action::from_str(""), None);
    assert_eq!(Action::from_str("git-version"), None);
}

#[test]
fn the_message_of_a_tag() {
    assert_eq!(
        String::from_utf8(message_template(b"1.2.3")).unwrap(),
        "Version v1.2.3: \n#\n# Write a message for tag:\n#   v1.2.3\n\
         # Lines starting with '#' will be ignored.\n#\n# Log:\n"
    );
    let edited = b"Version v1.2.3: fixes  \n#\n# Log:\n\n  - one\t\n#   abc first\n  - two\n\n";
    assert_eq!(
        tag_message(edited),
        Some(b"Version v1.2.3: fixes\n\n  - one\n  - two".to_vec())
    );
    assert_eq!(tag_message(b"# nothing\n   \n#\n"), None);
    assert_eq!(tag_message(b""), None);
    assert_eq!(tag_message(&message_template(b"1.0")), Some(b"Version v1.0:".to_vec()));
}
