use bulk::repo::deb::ControlRecord;
use bulk::repo::debian::{Index, Package, PackageField, PackagesRead};
use bulk::repo::ConflictResolution;
use bulk::version::Version;

fn pkg(name: &str, version: &str, arch: &str, note: &str) -> Package {
    let mut metadata = ControlRecord::new();
    metadata.insert(b"Package".to_vec(), name.as_bytes().to_vec());
    metadata.insert(b"Note".to_vec(), note.as_bytes().to_vec());
    Package {
        name: name.as_bytes().to_vec(),
        version: Version(version.as_bytes().to_vec()),
        architecture: arch.as_bytes().to_vec(),
        filename: format!("pool/{}/{}_{}.deb", name, name, version).into_bytes(),
        size: 10,
        sha256: b"00ff".to_vec(),
        metadata,
    }
}

fn listing(index: &Index) -> Vec<(String, String, Vec<(String, String)>)> {
    index
        .packages
        .iter()
        .map(|b| {
            (
                String::from_utf8(b.name.clone()).unwrap(),
                String::from_utf8(b.architecture.clone()).unwrap(),
                b.versions
                    .iter()
                    .map(|p| {
                        (
                            String::from_utf8(p.version.0.clone()).unwrap(),
                            String::from_utf8(p.metadata.get(b"Note").unwrap().clone()).unwrap(),
                        )
                    })
                    .collect(),
            )
        })
        .collect()
}

fn s(x: &str) -> String {
    x.to_string()
}

#[test]
fn packages_are_kept_by_name_architecture_and_version() {
    let mut index = Index::new();
    for (n, v, a) in [
        ("zeta", "1.0", "amd64"),
        ("alpha", "1.10", "amd64"),
        ("alpha", "1.2", "amd64"),
        ("alpha", "1.2", "i386"),
        ("alpha", "1.9", "amd64"),
    ] {
        assert!(index.store(pkg(n, v, a, "n"), ConflictResolution::Error).is_ok());
    }
    assert_eq!(
        listing(&index),
        vec![
            (
                s("alpha"),
                s("amd64"),
                vec![(s("1.2"), s("n")), (s("1.9"), s("n")), (s("1.10"), s("n"))]
            ),
            (s("alpha"), s("i386"), vec![(s("1.2"), s("n"))]),
            (s("zeta"), s("amd64"), vec![(s("1.0"), s("n"))]),
        ]
    );
}

#[test]
fn error_policy_refuses_the_second_and_leaves_the_index() {
    let mut index = Index::new();
    assert!(index.store(pkg("demo", "1.0", "amd64", "first"), ConflictResolution::Error).is_ok());
    let before = listing(&index);
    let refused = index.store(pkg("demo", "1.0", "amd64", "second"), ConflictResolution::Error);
    match refused {
        Err(p) => {
            assert_eq!(p.name, b"demo".to_vec());
            assert_eq!(p.metadata.get(b"Note").unwrap(), &b"second".to_vec());
        }
        Ok(()) => panic!("the second package was taken"),
    }
    assert_eq!(listing(&index), before);
    assert_eq!(listing(&index)[0].2, vec![(s("1.0"), s("first"))]);
}

#[test]
fn keep_policy_leaves_the_first() {
    let mut index = Index::new();
    assert!(index.store(pkg("demo", "1.0", "amd64", "first"), ConflictResolution::Keep).is_ok());
    assert!(index.store(pkg("demo", "1.0", "amd64", "second"), ConflictResolution::Keep).is_ok());
    assert_eq!(listing(&index), vec![(s("demo"), s("amd64"), vec![(s("1.0"), s("first"))])]);
}

#[test]
fn replace_policy_puts_the_second_in_place() {
    let mut index = Index::new();
    assert!(index.store(pkg("demo", "1.0", "amd64", "first"), ConflictResolution::Replace).is_ok());
    assert!(index.store(pkg("demo", "0.9", "amd64", "old"), ConflictResolution::Replace).is_ok());
    assert!(index.store(pkg("demo", "1.0", "amd64", "second"), ConflictResolution::Replace).is_ok());
    assert_eq!(
        listing(&index),
        vec![(s("demo"), s("amd64"), vec![(s("0.9"), s("old")), (s("1.0"), s("second"))])]
    );
}

#[test]
fn versions_with_the_same_components_conflict() {
    let mut index = Index::new();
    assert!(index.store(pkg("demo", "1.0", "amd64", "first"), ConflictResolution::Error).is_ok());
    assert!(index.store(pkg("demo", "v1.00", "amd64", "second"), ConflictResolution::Error).is_err());
    assert!(index.store(pkg("demo", "1.0", "arm64", "third"), ConflictResolution::Error).is_ok());
}

#[test]
fn trim_keeps_the_greatest_versions() {
    let mut index = Index::new();
    for v in ["1.0", "1.10", "1.2", "1.9", "0.5"] {
        assert!(index.store(pkg("demo", v, "amd64", "n"), ConflictResolution::Error).is_ok());
    }
    assert!(index.store(pkg("other", "3", "amd64", "n"), ConflictResolution::Error).is_ok());
    index.limit = Some(2);
    index.trim();
    assert_eq!(
        listing(&index),
        vec![
            (s("demo"), s("amd64"), vec![(s("1.9"), s("n")), (s("1.10"), s("n"))]),
            (s("other"), s("amd64"), vec![(s("3"), s("n"))]),
        ]
    );
}

#[test]
fn trim_twice_is_trim_once() {
    let mut index = Index::new();
    for v in ["1", "2", "3", "4"] {
        assert!(index.store(pkg("demo", v, "amd64", "n"), ConflictResolution::Error).is_ok());
    }
    index.limit = Some(3);
    index.trim();
    let once = listing(&index);
    index.trim();
    assert_eq!(listing(&index), once);
    assert_eq!(once[0].2.len(), 3);
}

#[test]
fn trim_does_not_depend_on_the_order_of_adding() {
    let versions = ["1.0", "2.0", "1.5", "0.1", "10.0"];
    let mut a = Index::new();
    for v in versions.iter() {
        assert!(a.store(pkg("demo", v, "amd64", "n"), ConflictResolution::Error).is_ok());
    }
    let mut b = Index::new();
    for v in versions.iter().rev() {
        assert!(b.store(pkg("demo", v, "amd64", "n"), ConflictResolution::Error).is_ok());
    }
    a.limit = Some(2);
    b.limit = Some(2);
    a.trim();
    b.trim();
    assert_eq!(listing(&a), listing(&b));
    assert_eq!(listing(&a)[0].2, vec![(s("2.0"), s("n")), (s("10.0"), s("n"))]);
}

#[test]
fn trim_without_limit_and_with_limit_zero() {
    let mut index = Index::new();
    assert!(index.store(pkg("demo", "1", "amd64", "n"), ConflictResolution::Error).is_ok());
    index.trim();
    assert_eq!(listing(&index)[0].2.len(), 1);
    index.limit = Some(0);
    index.trim();
    assert_eq!(listing(&index), vec![(s("demo"), s("amd64"), vec![])]);
}

#[test]
fn output_writes_a_stanza_for_each_package() {
    let mut index = Index::new();
    let mut p = pkg("demo", "1.0.0", "amd64", "hello");
    p.metadata.insert(b"Version".to_vec(), b"1.0.0".to_vec());
    p.metadata.insert(b"ARCHITECTURE".to_vec(), b"amd64".to_vec());
    p.metadata.insert(b"Depends".to_vec(), b"libc".to_vec());
    p.size = 1234;
    assert!(index.store(p, ConflictResolution::Error).is_ok());
    let mut out = Vec::new();
    index.output(&mut out);
    assert_eq!(
        String::from_utf8(out).unwrap(),
        "Package: demo\nVersion: 1.0.0\nArchitecture: amd64\n\
         Filename: pool/demo/demo_1.0.0.deb\nSHA256: 00ff\nSize: 1234\n\
         Depends: libc\nNote: hello\n\n"
    );
}

#[test]
fn an_index_file_reads_back() {
    let mut index = Index::new();
    for (n, v) in [("demo", "1.0"), ("demo", "1.1"), ("other", "2")] {
        assert!(index.store(pkg(n, v, "amd64", "note"), ConflictResolution::Error).is_ok());
    }
    let mut out = Vec::new();
    index.output(&mut out);
    let back = Index::read(&out).unwrap();
    assert!(back.limit.is_none());
    assert_eq!(listing(&back), listing(&index));
    let mut again = Vec::new();
    back.output(&mut again);
    assert_eq!(again, out);
    assert_eq!(back.packages[0].versions[0].size, 10);
    assert_eq!(back.packages[0].versions[0].sha256, b"00ff".to_vec());
    assert_eq!(back.packages[0].versions[0].filename, b"pool/demo/demo_1.0.deb".to_vec());
}

#[test]
fn an_index_file_must_have_its_fields() {
    let full = "Package: a\nVersion: 1\nArchitecture: x\nFilename: f\nSize: 1\nSHA256: h\n";
    assert!(Index::read(full.as_bytes()).is_ok());
    let cases = [
        ("Package", PackageField::Package),
        ("Version", PackageField::Version),
        ("Architecture", PackageField::Architecture),
        ("Filename", PackageField::Filename),
        ("Size", PackageField::Size),
        ("SHA256", PackageField::Sha256),
    ];
    for (key, field) in cases.iter() {
        let text: String = full
            .lines()
            .filter(|l| !l.starts_with(&format!("{}:", key)))
            .map(|l| format!("{}\n", l))
            .collect();
        match Index::read(text.as_bytes()) {
            Err(PackagesRead::AbsentField(f)) => assert_eq!(f, *field),
            _ => panic!("field {} was not missed", key),
        }
    }
    let bad = full.replace("Size: 1", "Size: many");
    assert!(matches!(Index::read(bad.as_bytes()), Err(PackagesRead::FileSize)));
    assert!(matches!(Index::read(b"nonsense"), Err(PackagesRead::Control(_))));
    assert_eq!(Index::read(b"").unwrap().packages.len(), 0);
}

#[test]
fn an_index_of_one_package_reads_back_whole() {
    let mut metadata = ControlRecord::new();
    metadata.insert(b"Depends".to_vec(), b"libc (>= 2)".to_vec());
    metadata.insert(b"Description".to_vec(), b"short\n\nlonger text".to_vec());
    let p = Package {
        name: b"demo".to_vec(),
        version: Version(b"1.0.0".to_vec()),
        architecture: b"amd64".to_vec(),
        filename: b"pool/d/demo/demo_1.0.0_amd64.deb".to_vec(),
        size: 18446744073709551615,
        sha256: b"e3b0c442".to_vec(),
        metadata,
    };
    let mut index = Index::new();
    assert!(index.store(p, ConflictResolution::Error).is_ok());
    let mut out = Vec::new();
    index.output(&mut out);
    let back = Index::read(&out).unwrap();
    assert_eq!(back.packages.len(), 1);
    assert_eq!(back.packages[0].name, b"demo".to_vec());
    assert_eq!(back.packages[0].architecture, b"amd64".to_vec());
    assert_eq!(back.packages[0].versions.len(), 1);
    let q = &back.packages[0].versions[0];
    assert_eq!(q.name, b"demo".to_vec());
    assert_eq!(q.version.0, b"1.0.0".to_vec());
    assert_eq!(q.architecture, b"amd64".to_vec());
    assert_eq!(q.filename, b"pool/d/demo/demo_1.0.0_amd64.deb".to_vec());
    assert_eq!(q.size, 18446744073709551615);
    assert_eq!(q.sha256, b"e3b0c442".to_vec());
    assert_eq!(q.metadata.len(), 2);
    assert_eq!(q.metadata.get(b"depends").unwrap(), &b"libc (>= 2)".to_vec());
    assert_eq!(q.metadata.get(b"Description").unwrap(), &b"short\n\nlonger text".to_vec());
}
