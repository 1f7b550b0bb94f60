use bulk::config::{Config, Metadata};
use bulk::pack::deb::format_deb_control;
use bulk::pack::metadata::populate;
use bulk::repo::deb::parse_control;
use bulk::version::Version;

fn meta(depends: Option<&str>) -> Metadata {
    Metadata {
        name: b"demo".to_vec(),
        short_description: b"A demo".to_vec(),
        long_description: b"It shows\n\nwhat there is.".to_vec(),
        depends: depends.map(|d| d.as_bytes().to_vec()),
    }
}

#[test]
fn control_data_of_a_package() {
    let mut out = Vec::new();
    format_deb_control(&mut out, &meta(Some("libc6")), b"1.2.3", b"amd64");
    assert_eq!(
        String::from_utf8(out.clone()).unwrap(),
        "Package: demo\nVersion: 1.2.3\nMaintainer: bulk\nArchitecture: amd64\n\
         Depends: libc6\nDescription: A demo\n It shows\n .\n what there is.\n"
    );
    let records = parse_control(&out).unwrap();
    assert_eq!(records.len(), 1);
    assert_eq!(
        records[0].get(b"Description").unwrap(),
        &b"A demo\nIt shows\n\nwhat there is.".to_vec()
    );
}

#[test]
fn control_data_without_dependencies() {
    let mut out = b"# ".to_vec();
    format_deb_control(&mut out, &meta(None), b"0.1", b"all");
    assert_eq!(
        String::from_utf8(out).unwrap(),
        "# Package: demo\nVersion: 0.1\nMaintainer: bulk\nArchitecture: all\n\
         Description: A demo\n It shows\n .\n what there is.\n"
    );
}

#[test]
fn metadata_comes_from_the_configuration() {
    let mut cfg = Config {
        minimum_bulk: Version(b"0.4.0".to_vec()),
        metadata: Some(meta(Some("x"))),
        repositories: Vec::new(),
        versions: Vec::new(),
    };
    let m = populate(&cfg).unwrap();
    assert_eq!(m.name, b"demo".to_vec());
    assert_eq!(m.depends, Some(b"x".to_vec()));
    assert_eq!(m.long_description, b"It shows\n\nwhat there is.".to_vec());
    cfg.metadata = None;
    assert!(populate(&cfg).is_none());
}
