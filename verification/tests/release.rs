use bulk::repo::release::{
    insert_checksum, insert_name, Checksum, Release, ReleaseField, ReleaseFileRead,
};

fn names(v: &Vec<Vec<u8>>) -> Vec<String> {
    v.iter().map(|x| String::from_utf8(x.clone()).unwrap()).collect()
}

#[test]
fn a_manifest_is_read() {
    let text = "Codename: stable\nDate: Thu, 01 Jan 2015 00:00:00 +0000\n\
                Architectures: i386 amd64 amd64\nComponents: main\n\
                SHA256:\n abc 12 main/binary-i386/Packages\n def 7 main/binary-amd64/Packages\n";
    let r = Release::read(text.as_bytes()).unwrap();
    assert_eq!(r.codename, b"stable".to_vec());
    assert_eq!(names(&r.architectures), vec!["amd64", "i386"]);
    assert_eq!(names(&r.components), vec!["main"]);
    assert_eq!(r.sha256.len(), 2);
    assert_eq!(r.sha256[0].path, b"main/binary-amd64/Packages".to_vec());
    assert_eq!(r.sha256[0].size, 7);
    assert_eq!(r.sha256[0].hash, b"def".to_vec());
    assert_eq!(r.sha256[1].path, b"main/binary-i386/Packages".to_vec());
    assert_eq!(r.sha256[1].size, 12);
}

#[test]
fn a_manifest_without_checksums_is_read() {
    let r = Release::read(b"Codename: x\nArchitectures:\nComponents: a b\n").unwrap();
    assert_eq!(r.architectures.len(), 0);
    assert_eq!(names(&r.components), vec!["a", "b"]);
    assert_eq!(r.sha256.len(), 0);
}

#[test]
fn a_manifest_must_have_its_fields() {
    assert!(matches!(
        Release::read(b"Architectures: a\nComponents: b\n"),
        Err(ReleaseFileRead::AbsentField(ReleaseField::Codename))
    ));
    assert!(matches!(
        Release::read(b"Codename: x\nComponents: b\n"),
        Err(ReleaseFileRead::AbsentField(ReleaseField::Architectures))
    ));
    assert!(matches!(
        Release::read(b"Codename: x\nArchitectures: a\n"),
        Err(ReleaseFileRead::AbsentField(ReleaseField::Components))
    ));
}

#[test]
fn a_manifest_is_one_record() {
    assert!(matches!(Release::read(b""), Err(ReleaseFileRead::ExcessiveControlData)));
    assert!(matches!(
        Release::read(b"Codename: x\n\nCodename: y\n"),
        Err(ReleaseFileRead::ExcessiveControlData)
    ));
    assert!(matches!(Release::read(b"no colon"), Err(ReleaseFileRead::Control(_))));
}

#[test]
fn checksum_lines_hold_three_words() {
    let head = "Codename: x\nArchitectures: a\nComponents: b\nSHA256:\n";
    let text = format!("{} abc 1\n", head);
    assert!(matches!(Release::read(text.as_bytes()), Err(ReleaseFileRead::InvalidHashLine)));
    let text = format!("{} abc 1 path more\n", head);
    assert!(matches!(Release::read(text.as_bytes()), Err(ReleaseFileRead::InvalidHashLine)));
    let text = format!("{} abc one path\n", head);
    assert!(matches!(Release::read(text.as_bytes()), Err(ReleaseFileRead::FileSize)));
    let text = format!("{} abc 1 path\n .\n def 2 path\n", head);
    let r = Release::read(text.as_bytes()).unwrap();
    assert_eq!(r.sha256.len(), 1);
    assert_eq!(r.sha256[0].hash, b"def".to_vec());
    assert_eq!(r.sha256[0].size, 2);
}

#[test]
fn a_manifest_is_written() {
    let text = "Codename: stable\nArchitectures: i386 amd64\nComponents: main extra\n\
                SHA256:\n abc 12 main/binary-i386/Packages\n";
    let r = Release::read(text.as_bytes()).unwrap();
    let mut out = Vec::new();
    r.output(&mut out, b"Thu, 01 Jan 2015 00:00:00 +0000");
    assert_eq!(
        String::from_utf8(out.clone()).unwrap(),
        "Codename: stable\nDate: Thu, 01 Jan 2015 00:00:00 +0000\n\
         Architectures: amd64 i386\nComponents: extra main\n\
         SHA256:\n abc 12 main/binary-i386/Packages\n"
    );
    let back = Release::read(&out).unwrap();
    assert_eq!(back.codename, r.codename);
    assert_eq!(back.architectures, r.architectures);
    assert_eq!(back.components, r.components);
    assert_eq!(back.sha256.len(), 1);
}

#[test]
fn a_blank_manifest() {
    let r = Release::new(b"testing".to_vec());
    let mut out = Vec::new();
    r.output(&mut out, b"now");
    assert_eq!(
        String::from_utf8(out).unwrap(),
        "Codename: testing\nDate: now\nArchitectures: \nComponents: \nSHA256:\n"
    );
}

#[test]
fn a_manifest_with_checksums_reads_back_whole() {
    let mut r = Release::new(b"stable".to_vec());
    insert_name(&mut r.architectures, b"i386".to_vec());
    insert_name(&mut r.architectures, b"amd64".to_vec());
    insert_name(&mut r.components, b"main".to_vec());
    for (path, size, hash) in [
        ("main/binary-i386/Packages", 0u64, "e3b0"),
        ("main/binary-amd64/Packages", 18446744073709551615u64, "00ff"),
    ] {
        insert_checksum(
            &mut r.sha256,
            Checksum {
                path: path.as_bytes().to_vec(),
                size,
                hash: hash.as_bytes().to_vec(),
            },
        );
    }
    let mut out = Vec::new();
    r.output(&mut out, b"Thu, 01 Jan 2015 00:00:00 +0000");
    let back = Release::read(&out).unwrap();
    assert_eq!(back.codename, b"stable".to_vec());
    assert_eq!(names(&back.architectures), vec!["amd64", "i386"]);
    assert_eq!(names(&back.components), vec!["main"]);
    assert_eq!(back.sha256.len(), 2);
    assert_eq!(back.sha256[0].path, b"main/binary-amd64/Packages".to_vec());
    assert_eq!(back.sha256[0].size, 18446744073709551615);
    assert_eq!(back.sha256[0].hash, b"00ff".to_vec());
    assert_eq!(back.sha256[1].path, b"main/binary-i386/Packages".to_vec());
    assert_eq!(back.sha256[1].size, 0);
    assert_eq!(back.sha256[1].hash, b"e3b0".to_vec());
}
