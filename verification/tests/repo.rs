use std::io::Write;

use bulk::config::{Config, Repository as RepoConfig, RepositoryType};
use bulk::pack::ar::{ArArchive, Size, SIZE_AUTO};
use bulk::repo::ar::ArError;
use bulk::repo::commit::Step;
use bulk::repo::disk::Disk;
use bulk::repo::metadata::{gather_metadata, read_control, read_deb, MetaError};
use bulk::repo::repository::{ConfigFault, Repository, RepositoryError};
use bulk::repo::{AddError, ConflictResolution, _repo_add};
use bulk::version::Version;
use sha2::Digest;

fn tar_of(entries: &[(&str, &[u8])]) -> Vec<u8> {
    let mut builder = tar::Builder::new(Vec::new());
    for (name, data) in entries {
        let mut header = tar::Header::new_gnu();
        header.set_size(data.len() as u64);
        header.set_mode(0o644);
        header.set_mtime(1);
        header.set_cksum();
        builder.append_data(&mut header, name, *data).unwrap();
    }
    builder.into_inner().unwrap()
}

fn gzip_of(data: &[u8]) -> Vec<u8> {
    let mut encoder = libflate::gzip::Encoder::new(Vec::new()).unwrap();
    encoder.write_all(data).unwrap();
    encoder.finish().into_result().unwrap()
}

fn deb_of(control: &[u8]) -> Vec<u8> {
    let gz = gzip_of(&tar_of(&[("other", b"x"), ("control", control), ("md5sums", b"")]));
    let mut ar = ArArchive::new();
    ar.add(b"debian-binary", 1, 0, 0, 0o100644, Size::Known(4));
    ar.write(b"2.0\n");
    ar.add(b"control.tar.gz", 1, 0, 0, 0o100644, SIZE_AUTO);
    ar.write(&gz);
    ar.add(b"data.tar.gz", 1, 0, 0, 0o100644, SIZE_AUTO);
    ar.write(&gzip_of(&tar_of(&[])));
    ar.finish()
}

fn demo(version: &str, arch: &str) -> Vec<u8> {
    deb_of(
        format!(
            "Package: demo\nVersion: {}\nArchitecture: {}\nMaintainer: bulk\nDescription: a demo\n of things\n",
            version, arch
        )
        .as_bytes(),
    )
}

fn debian(suite: Option<&str>, component: Option<&str>, keep: Option<usize>) -> RepoConfig {
    RepoConfig {
        kind: RepositoryType::Debian,
        keep_releases: keep,
        match_version: None,
        match_filename: None,
        skip_version: None,
        suite: suite.map(|s| s.as_bytes().to_vec()),
        component: component.map(|s| s.as_bytes().to_vec()),
        add_empty_i386_repo: false,
        files: None,
        index: None,
    }
}

fn links(pattern: Option<&str>) -> RepoConfig {
    RepoConfig {
        kind: RepositoryType::HtmlLinks,
        keep_releases: None,
        match_version: None,
        match_filename: pattern.map(|s| s.to_string()),
        skip_version: None,
        suite: None,
        component: None,
        add_empty_i386_repo: false,
        files: None,
        index: None,
    }
}

fn config(repositories: Vec<RepoConfig>) -> Config {
    Config {
        minimum_bulk: Version(b"0.4.0".to_vec()),
        metadata: None,
        repositories,
        versions: Vec::new(),
    }
}

fn written<'a>(plan: &'a [Step], path: &str) -> Option<&'a Vec<u8>> {
    plan.iter().find_map(|a| match a {
        Step::WriteFile(p, data) if p == path.as_bytes() => Some(data),
        _ => None,
    })
}

fn text(data: &[u8]) -> String {
    String::from_utf8(data.to_vec()).unwrap()
}

fn kinds(plan: &[Step]) -> String {
    plan.iter()
        .map(|a| match a {
            Step::CreateDir(_) => 'd',
            Step::WriteFile(_, _) => 'w',
            Step::CopyFile(_, _) => 'c',
            Step::Rename(_, _) => 'r',
        })
        .collect()
}

#[test]
fn one_package_goes_into_a_fresh_repository() {
    let deb = demo("1.0.0", "amd64");
    let mut sources = Disk::new();
    sources.add(b"dist/demo-1.0.0_amd64.deb".to_vec(), deb.clone());
    let published = Disk::new();
    let cfg = config(vec![debian(Some("stable"), Some("main"), None)]);
    let plan = _repo_add(
        &cfg,
        &vec![b"dist/demo-1.0.0_amd64.deb".to_vec()],
        &sources,
        &published,
        ConflictResolution::Error,
        b"Wed, 28 Oct 2026 12:00:00 +0000",
    )
    .unwrap();

    let digest = format!("{:x}", sha2::Sha256::digest(&deb));
    let packages = written(&plan, "dists/stable/main/binary-amd64/Packages.tmp").unwrap();
    assert_eq!(
        text(packages),
        format!(
            "Package: demo\nVersion: 1.0.0\nArchitecture: amd64\n\
             Filename: pool/d/demo/demo-1.0.0_amd64.deb\nSHA256: {}\nSize: {}\n\
             Description: a demo\n of things\nMaintainer: bulk\n\n",
            digest,
            deb.len()
        )
    );
    let packages_digest = format!("{:x}", sha2::Sha256::digest(packages));
    let release = written(&plan, "dists/stable/Release.tmp").unwrap();
    assert_eq!(
        text(release),
        format!(
            "Codename: stable\nDate: Wed, 28 Oct 2026 12:00:00 +0000\n\
             Architectures: amd64\nComponents: main\n\
             SHA256:\n {} {} main/binary-amd64/Packages\n",
            packages_digest,
            packages.len()
        )
    );
    assert_eq!(kinds(&plan), "dwwdcrrr");
    assert!(matches!(&plan[0], Step::CreateDir(d) if d == b"dists/stable/main/binary-amd64"));
    assert!(matches!(&plan[3], Step::CreateDir(d) if d == b"pool/d/demo"));
    assert!(matches!(&plan[4], Step::CopyFile(a, b)
        if a == b"dist/demo-1.0.0_amd64.deb" && b == b"pool/d/demo/demo-1.0.0_amd64.deb.tmp"));
    assert!(matches!(&plan[5], Step::Rename(a, b)
        if a == b"dists/stable/main/binary-amd64/Packages.tmp"
            && b == b"dists/stable/main/binary-amd64/Packages"));
    assert!(matches!(&plan[6], Step::Rename(a, b)
        if a == b"dists/stable/Release.tmp" && b == b"dists/stable/Release"));
    assert!(matches!(&plan[7], Step::Rename(a, b)
        if a == b"pool/d/demo/demo-1.0.0_amd64.deb.tmp" && b == b"pool/d/demo/demo-1.0.0_amd64.deb"));
}

#[test]
fn nothing_to_add_plans_nothing() {
    let cfg = config(vec![debian(Some("stable"), Some("main"), None)]);
    let plan = _repo_add(
        &cfg,
        &Vec::new(),
        &Disk::new(),
        &Disk::new(),
        ConflictResolution::Error,
        b"now",
    )
    .unwrap();
    assert_eq!(plan.len(), 0);
    assert_eq!(Repository::new().commit(b"now").len(), 0);
    assert_eq!(Repository::new().write().len(), 0);
}

#[test]
fn what_is_published_is_taken_up_and_trimmed() {
    // publish 1.0 and 1.1, then add 1.2 with a limit of two
    let cfg = config(vec![debian(Some("stable"), Some("main"), Some(2))]);
    let mut sources = Disk::new();
    for v in ["1.0", "1.1", "1.2"] {
        sources.add(format!("demo-{}.deb", v).into_bytes(), demo(v, "amd64"));
    }
    let first = _repo_add(
        &cfg,
        &vec![b"demo-1.1.deb".to_vec(), b"demo-1.0.deb".to_vec()],
        &sources,
        &Disk::new(),
        ConflictResolution::Error,
        b"day one",
    )
    .unwrap();
    let mut published = Disk::new();
    published.add(
        b"dists/stable/main/binary-amd64/Packages".to_vec(),
        written(&first, "dists/stable/main/binary-amd64/Packages.tmp").unwrap().clone(),
    );
    published.add(
        b"dists/stable/Release".to_vec(),
        written(&first, "dists/stable/Release.tmp").unwrap().clone(),
    );
    let second = _repo_add(
        &cfg,
        &vec![b"demo-1.2.deb".to_vec()],
        &sources,
        &published,
        ConflictResolution::Error,
        b"day two",
    )
    .unwrap();
    let packages = text(written(&second, "dists/stable/main/binary-amd64/Packages.tmp").unwrap());
    assert!(!packages.contains("Version: 1.0\n"));
    assert!(packages.contains("Version: 1.1\n"));
    assert!(packages.contains("Version: 1.2\n"));
    assert!(packages.find("Version: 1.1\n").unwrap() < packages.find("Version: 1.2\n").unwrap());
    let release = text(written(&second, "dists/stable/Release.tmp").unwrap());
    assert!(release.contains("Date: day two\n"));
    assert!(release.contains("Architectures: amd64\n"));
    // only the new file goes into the pool
    assert_eq!(kinds(&second), "dwwdcrrr");

    // the same package once more: the policy decides
    let again = _repo_add(
        &cfg,
        &vec![b"demo-1.1.deb".to_vec()],
        &sources,
        &published,
        ConflictResolution::Error,
        b"day three",
    );
    match again {
        Err(AddError::Repository(RepositoryError::PackageConflict(p))) => {
            assert_eq!(p.name, b"demo".to_vec());
            assert_eq!(p.version.0, b"1.1".to_vec());
            assert_eq!(p.architecture, b"amd64".to_vec());
        }
        _ => panic!("a package was added twice"),
    }
    for policy in [ConflictResolution::Keep, ConflictResolution::Replace] {
        assert!(_repo_add(
            &cfg,
            &vec![b"demo-1.1.deb".to_vec()],
            &sources,
            &published,
            policy,
            b"day three",
        )
        .is_ok());
    }
}

#[test]
fn versions_are_chosen_by_pattern() {
    let mut stable = debian(Some("stable"), Some("main"), None);
    stable.match_version = Some("^\\d+\\.\\d+$".to_string());
    let mut testing = debian(Some("testing"), Some("main"), None);
    testing.skip_version = Some("^0\\.".to_string());
    testing.add_empty_i386_repo = true;
    let cfg = config(vec![stable, testing]);
    let mut sources = Disk::new();
    sources.add(b"a.deb".to_vec(), demo("1.0", "amd64"));
    sources.add(b"b.deb".to_vec(), demo("1.1-rc1", "amd64"));
    sources.add(b"c.deb".to_vec(), demo("0.9", "amd64"));
    let plan = _repo_add(
        &cfg,
        &vec![b"a.deb".to_vec(), b"b.deb".to_vec(), b"c.deb".to_vec()],
        &sources,
        &Disk::new(),
        ConflictResolution::Error,
        b"now",
    )
    .unwrap();
    let stable = text(written(&plan, "dists/stable/main/binary-amd64/Packages.tmp").unwrap());
    assert!(stable.contains("Version: 1.0\n"));
    assert!(stable.contains("Version: 0.9\n"));
    assert!(!stable.contains("Version: 1.1-rc1\n"));
    let testing = text(written(&plan, "dists/testing/main/binary-amd64/Packages.tmp").unwrap());
    assert!(testing.contains("Version: 1.0\n"));
    assert!(testing.contains("Version: 1.1-rc1\n"));
    assert!(!testing.contains("Version: 0.9\n"));
    assert_eq!(written(&plan, "dists/testing/main/binary-i386/Packages.tmp").unwrap().len(), 0);
    assert!(written(&plan, "dists/stable/main/binary-i386/Packages.tmp").is_none());
    let release = text(written(&plan, "dists/testing/Release.tmp").unwrap());
    assert!(release.contains("Architectures: amd64 i386\n"));
}

#[test]
fn what_cannot_be_added() {
    let mut sources = Disk::new();
    sources.add(b"a.deb".to_vec(), demo("1.0", "amd64"));
    sources.add(b"b.txt".to_vec(), b"text".to_vec());
    sources.add(b"c.deb".to_vec(), b"no archive".to_vec());
    sources.add(b"demo-1.0.tar.gz".to_vec(), b"anything".to_vec());
    let none = Disk::new();
    let add = |cfg: &Config, path: &str, published: &Disk| {
        _repo_add(
            cfg,
            &vec![path.as_bytes().to_vec()],
            &sources,
            published,
            ConflictResolution::Error,
            b"now",
        )
    };
    let cfg = config(vec![debian(Some("stable"), Some("main"), None)]);
    assert!(matches!(add(&cfg, "missing.deb", &none), Err(AddError::MissingFile(p)) if p == b"missing.deb"));
    assert!(matches!(add(&cfg, "b.txt", &none), Err(AddError::Meta(_, MetaError::UnknownType))));
    assert!(matches!(
        add(&cfg, "c.deb", &none),
        Err(AddError::Meta(_, MetaError::Archive(ArError::WrongSignature)))
    ));
    let cfg = config(vec![debian(Some("stable"), None, None)]);
    assert!(matches!(add(&cfg, "a.deb", &none), Err(AddError::MissingSuite)));
    let mut bad = debian(Some("stable"), Some("main"), None);
    bad.match_version = Some("(".to_string());
    assert!(matches!(add(&config(vec![bad]), "a.deb", &none), Err(AddError::BadPattern)));
    let mut bad = debian(Some("stable"), Some("main"), None);
    bad.skip_version = Some("[".to_string());
    assert!(matches!(add(&config(vec![bad]), "a.deb", &none), Err(AddError::BadPattern)));
    let cfg = config(vec![links(None)]);
    assert!(matches!(add(&cfg, "demo-1.0.tar.gz", &none), Err(AddError::Unsupported)));
    let cfg = config(vec![debian(Some("stable"), Some("main"), None)]);
    let mut published = Disk::new();
    published.add(b"dists/stable/Release".to_vec(), b"Codename: stable\n".to_vec());
    assert!(matches!(
        add(&cfg, "a.deb", &published),
        Err(AddError::Repository(RepositoryError::Release(p, _))) if p == b"dists/stable/Release"
    ));
    let mut published = Disk::new();
    published.add(b"dists/stable/main/binary-amd64/Packages".to_vec(), b"Package: x\n".to_vec());
    assert!(matches!(
        add(&cfg, "a.deb", &published),
        Err(AddError::Repository(RepositoryError::Packages(p, _)))
            if p == b"dists/stable/main/binary-amd64/Packages"
    ));
}

#[test]
fn a_repository_is_opened_step_by_step() {
    let mut repo = Repository::new();
    let none = Disk::new();
    assert!(matches!(
        repo.open(&debian(None, Some("main"), None), b"amd64", &none),
        Err(RepositoryError::Config(ConfigFault::SuiteMissing))
    ));
    assert!(matches!(
        repo.open(&debian(Some("stable"), None, None), b"amd64", &none),
        Err(RepositoryError::Config(ConfigFault::ComponentMissing))
    ));
    assert_eq!(ConfigFault::SuiteMissing.message(), "suite must be specified");
    assert_eq!(ConfigFault::ComponentMissing.message(), "component must be specified");
    assert!(!repo.has_suite(b"stable"));
    let c = repo.open(&debian(Some("stable"), Some("main"), Some(3)), b"amd64", &none).unwrap();
    assert_eq!(c.suite, b"stable".to_vec());
    assert_eq!(c.component, b"main".to_vec());
    assert_eq!(c.arch, b"amd64".to_vec());
    assert!(repo.has_suite(b"stable"));
    assert!(repo.has_index(b"stable", b"main", b"amd64"));
    assert!(!repo.has_index(b"stable", b"main", b"i386"));
    assert_eq!(repo.components[0].index.limit, Some(3));
    // every opening applies the configured limit
    repo.open(&debian(Some("stable"), Some("main"), Some(9)), b"amd64", &none).unwrap();
    repo.open(&debian(Some("stable"), Some("extra"), None), b"i386", &none).unwrap();
    assert_eq!(repo.components.len(), 2);
    assert_eq!(repo.components[0].index.limit, None);
    assert_eq!(repo.components[1].index.limit, Some(9));
    repo.open(&debian(Some("stable"), Some("main"), None), b"amd64", &none).unwrap();
    assert_eq!(repo.components[1].index.limit, None);
    assert_eq!(repo.suites.len(), 1);
    assert_eq!(repo.suites[0].release.architectures, vec![b"amd64".to_vec(), b"i386".to_vec()]);
    assert_eq!(repo.suites[0].release.components, vec![b"extra".to_vec(), b"main".to_vec()]);
}

#[test]
fn a_file_is_hashed_once() {
    let mut repo = Repository::new();
    let none = Disk::new();
    let mut sources = Disk::new();
    sources.add(b"a.deb".to_vec(), demo("1.0", "amd64"));
    let meta = read_deb(b"a.deb", &demo("1.0", "amd64")).unwrap();
    let one = repo.open(&debian(Some("stable"), Some("main"), None), b"amd64", &none).unwrap();
    let two = repo.open(&debian(Some("testing"), Some("main"), None), b"amd64", &none).unwrap();
    assert!(!repo.has_file(b"a.deb"));
    assert!(one.add_package(&mut repo, &meta, &sources, ConflictResolution::Error).is_ok());
    assert!(repo.has_file(b"a.deb"));
    // the file is known now: the second index takes it without the sources
    assert!(two.add_package(&mut repo, &meta, &none, ConflictResolution::Error).is_ok());
    assert_eq!(repo.files.len(), 1);
    assert_eq!(repo.files[0].path, b"pool/d/demo/a.deb".to_vec());
    assert_eq!(repo.files[0].size, demo("1.0", "amd64").len() as u64);
    let plan = repo.write();
    assert_eq!(kinds(&plan), "dwdwwwdcrrrrr");
    let release = text(written(&plan, "dists/stable/Release.tmp").unwrap());
    assert!(release.starts_with("Codename: stable\nDate: "));
    assert!(!release.contains("Date: \n"));
}

#[test]
fn metadata_is_read_from_a_package() {
    let meta = read_deb(b"x/demo.deb", &demo("1.0.0", "amd64")).unwrap();
    assert_eq!(meta.kind, RepositoryType::Debian);
    assert_eq!(meta.filename, b"x/demo.deb".to_vec());
    assert_eq!(meta.name, b"demo".to_vec());
    assert_eq!(meta.version, b"1.0.0".to_vec());
    assert_eq!(meta.arch, b"amd64".to_vec());
    // name, version and architecture are attributes of their own
    assert_eq!(meta.info.len(), 2);
    assert!(meta.info.get(b"Package").is_none());
    assert!(meta.info.get(b"version").is_none());
    assert!(meta.info.get(b"ARCHITECTURE").is_none());
    assert_eq!(meta.info.get(b"Maintainer").unwrap(), &b"bulk".to_vec());
    assert_eq!(meta.info.get(b"Description").unwrap(), &b"a demo\nof things".to_vec());
}

#[test]
fn packages_that_give_no_metadata() {
    let read = |control: &[u8]| read_deb(b"p.deb", &deb_of(control)).err();
    assert_eq!(read(b"Version: 1\nArchitecture: all\n"), Some(MetaError::NoPackage));
    assert_eq!(read(b"Package:\nVersion: 1\nArchitecture: all\n"), Some(MetaError::NoPackage));
    assert_eq!(read(b"Package: x\nVersion: 1\n"), Some(MetaError::NoArchitecture));
    assert_eq!(read(b"Package: x\nArchitecture: all\n"), Some(MetaError::NoVersion));
    assert_eq!(read(b"Package: x\n\nPackage: y\n"), Some(MetaError::WrongControl));
    assert_eq!(read(b""), Some(MetaError::WrongControl));
    assert!(matches!(read(b"nonsense"), Some(MetaError::Control(_))));
    assert_eq!(
        read_control(b"p", b"Package: x\nVersion: 1\nArchitecture: all\n").unwrap().name,
        b"x".to_vec()
    );

    let with_members = |members: &[(&[u8], &[u8])]| {
        let mut ar = ArArchive::new();
        for (name, data) in members {
            ar.add(name, 1, 0, 0, 0o100644, SIZE_AUTO);
            ar.write(data);
        }
        read_deb(b"p.deb", &ar.finish()).err()
    };
    assert_eq!(with_members(&[(b"debian-binary", b"3.0\n")]), Some(MetaError::UnsupportedFormat));
    assert_eq!(
        with_members(&[(b"control.tar.gz", b"")]),
        Some(MetaError::Archive(ArError::UnexpectedMember))
    );
    assert_eq!(
        with_members(&[(b"debian-binary", b" 2.0 \n")]),
        Some(MetaError::Archive(ArError::PrematureEnd))
    );
    assert_eq!(
        with_members(&[(b"debian-binary", b"2.0\n"), (b"control.tar.gz", b"not gzip")]),
        Some(MetaError::Gzip)
    );
    let no_control = gzip_of(&tar_of(&[("other", b"x")]));
    assert_eq!(
        with_members(&[(b"debian-binary", b"2.0\n"), (b"control.tar.gz", &no_control)]),
        Some(MetaError::NoMetadata)
    );
    let broken = gzip_of(&[7u8; 600]);
    assert_eq!(
        with_members(&[(b"debian-binary", b"2.0\n"), (b"control.tar.gz", &broken)]),
        Some(MetaError::Tar)
    );
    assert_eq!(MetaError::NoMetadata.message(), "No metadata found");
    assert_eq!(MetaError::UnsupportedFormat.message(), "Unsupported deb format");
}

#[test]
fn metadata_is_gathered_by_the_kind_of_file() {
    let cfg = config(vec![debian(Some("s"), Some("c"), None), links(None)]);
    let deb = gather_metadata(b"out/demo.deb", &demo("2.0", "all"), &cfg).unwrap().unwrap();
    assert_eq!(deb.kind, RepositoryType::Debian);
    assert_eq!(deb.version, b"2.0".to_vec());
    let tgz = gather_metadata(b"out/my-tool-v1.2.3.tar.gz", b"", &cfg).unwrap().unwrap();
    assert_eq!(tgz.kind, RepositoryType::HtmlLinks);
    assert_eq!(tgz.name, b"my-tool".to_vec());
    assert_eq!(tgz.version, b"v1.2.3".to_vec());
    assert_eq!(tgz.arch, Vec::<u8>::new());
    assert_eq!(tgz.filename, b"out/my-tool-v1.2.3.tar.gz".to_vec());
    assert_eq!(tgz.info.len(), 0);
    assert!(gather_metadata(b"noversion.tar.gz", b"", &cfg).unwrap().is_none());
    let only_debian = config(vec![debian(Some("s"), Some("c"), None)]);
    assert!(gather_metadata(b"tool-1.0.tar.gz", b"", &only_debian).unwrap().is_none());
    assert_eq!(gather_metadata(b"tool.zip", b"", &cfg).err(), Some(MetaError::UnknownType));
    assert_eq!(gather_metadata(b"dir/..", b"", &cfg).err(), Some(MetaError::UnknownType));

    let own = config(vec![links(Some("^(?P<name>[a-z]+)_(?P<version>[0-9.]+)\\.tar")) ]);
    let m = gather_metadata(b"tool_3.4.tar.gz", b"", &own).unwrap().unwrap();
    assert_eq!(m.name, b"tool".to_vec());
    assert_eq!(m.version, b"3.4".to_vec());
    let bad = config(vec![links(Some("("))]);
    assert_eq!(gather_metadata(b"tool_3.4.tar.gz", b"", &bad).err(), Some(MetaError::BadPattern));
    let no_name = config(vec![links(Some("^(?P<version>[a-z]+)"))]);
    assert_eq!(gather_metadata(b"tool.tar.gz", b"", &no_name).err(), Some(MetaError::NoNameGroup));
    let no_version = config(vec![links(Some("^(?P<name>[a-z]+)"))]);
    assert_eq!(
        gather_metadata(b"tool.tar.gz", b"", &no_version).err(),
        Some(MetaError::NoVersionGroup)
    );
}

fn apply(files: &mut std::collections::BTreeMap<Vec<u8>, Vec<u8>>, steps: &[Step]) {
    for step in steps {
        match step {
            Step::CreateDir(_) => {}
            Step::WriteFile(path, data) => {
                files.insert(path.clone(), data.clone());
            }
            Step::CopyFile(from, to) => {
                if let Some(data) = files.get(from).cloned() {
                    files.insert(to.clone(), data);
                }
            }
            Step::Rename(from, to) => {
                if let Some(data) = files.remove(from) {
                    files.insert(to.clone(), data);
                }
            }
        }
    }
}

#[test]
fn a_fault_before_anything_is_put_in_place_does_no_harm() {
    let cfg = config(vec![debian(Some("stable"), Some("main"), None)]);
    let mut sources = Disk::new();
    sources.add(b"a.deb".to_vec(), demo("1.0", "amd64"));
    sources.add(b"b.deb".to_vec(), demo("1.1", "i386"));
    let plan = _repo_add(
        &cfg,
        &vec![b"a.deb".to_vec(), b"b.deb".to_vec()],
        &sources,
        &Disk::new(),
        ConflictResolution::Error,
        b"now",
    )
    .unwrap();
    let staged = plan.iter().position(|s| matches!(s, Step::Rename(_, _))).unwrap();
    assert!(plan[staged..].iter().all(|s| matches!(s, Step::Rename(_, _))));
    assert!(plan[..staged].iter().all(|s| match s {
        Step::WriteFile(path, _) => path.ends_with(b".tmp"),
        Step::CopyFile(_, to) => to.ends_with(b".tmp"),
        Step::CreateDir(_) => true,
        Step::Rename(_, _) => false,
    }));

    let mut before = std::collections::BTreeMap::new();
    before.insert(b"a.deb".to_vec(), demo("1.0", "amd64"));
    before.insert(b"b.deb".to_vec(), demo("1.1", "i386"));
    before.insert(b"dists/stable/Release".to_vec(), b"old".to_vec());
    before.insert(b"dists/stable/Release.tmp".to_vec(), b"stale".to_vec());
    let mut undisturbed = before.clone();
    apply(&mut undisturbed, &plan);
    assert_ne!(undisturbed.get(&b"dists/stable/Release".to_vec()), Some(&b"old".to_vec()));
    assert!(undisturbed.contains_key(&b"pool/d/demo/a.deb".to_vec()));
    for fault in 0..=staged {
        let mut files = before.clone();
        apply(&mut files, &plan[..fault]);
        // what is published is as it was
        assert_eq!(files.get(&b"dists/stable/Release".to_vec()), Some(&b"old".to_vec()));
        assert!(!files.contains_key(&b"dists/stable/main/binary-amd64/Packages".to_vec()));
        assert!(!files.contains_key(&b"pool/d/demo/a.deb".to_vec()));
        // and publishing once more gives what it would have given
        apply(&mut files, &plan);
        assert_eq!(files, undisturbed);
    }
}

#[test]
fn a_later_opening_changes_the_limit_and_keeps_the_packages() {
    let mut repo = Repository::new();
    let none = Disk::new();
    let mut sources = Disk::new();
    for v in ["1.0", "1.1", "1.2"] {
        sources.add(format!("demo-{}.deb", v).into_bytes(), demo(v, "amd64"));
    }
    let c = repo.open(&debian(Some("stable"), Some("main"), Some(1)), b"amd64", &none).unwrap();
    for v in ["1.0", "1.1", "1.2"] {
        let path = format!("demo-{}.deb", v).into_bytes();
        let meta = read_deb(&path, &demo(v, "amd64")).unwrap();
        assert!(c.add_package(&mut repo, &meta, &sources, ConflictResolution::Error).is_ok());
    }
    repo.open(&debian(Some("stable"), Some("main"), Some(2)), b"amd64", &none).unwrap();
    assert_eq!(repo.components[0].index.limit, Some(2));
    assert_eq!(repo.components[0].index.packages[0].versions.len(), 3);
    repo.trim();
    let kept: Vec<Vec<u8>> =
        repo.components[0].index.packages[0].versions.iter().map(|p| p.version.0.clone()).collect();
    assert_eq!(kept, vec![b"1.1".to_vec(), b"1.2".to_vec()]);
}

#[test]
fn the_manifest_lies_in_the_directory_of_its_suite() {
    let cfg = config(vec![debian(Some("stable"), Some("main"), None)]);
    let mut sources = Disk::new();
    sources.add(b"a.deb".to_vec(), demo("1.0", "amd64"));
    let mut published = Disk::new();
    published.add(
        b"dists/stable/Release".to_vec(),
        b"Codename: buster\nArchitectures: i386\nComponents: main\n".to_vec(),
    );
    let plan = _repo_add(
        &cfg,
        &vec![b"a.deb".to_vec()],
        &sources,
        &published,
        ConflictResolution::Error,
        b"now",
    )
    .unwrap();
    let release = text(written(&plan, "dists/stable/Release.tmp").unwrap());
    assert!(release.starts_with("Codename: buster\n"));
    assert!(release.contains("Architectures: amd64 i386\n"));
    assert!(written(&plan, "dists/buster/Release.tmp").is_none());
    assert!(plan.iter().any(|s| matches!(s, Step::Rename(a, b)
        if a == b"dists/stable/Release.tmp" && b == b"dists/stable/Release")));
}

#[test]
fn leftover_temporary_files_do_not_change_the_plan() {
    let cfg = config(vec![debian(Some("stable"), Some("main"), Some(2))]);
    let mut sources = Disk::new();
    sources.add(b"a.deb".to_vec(), demo("1.0", "amd64"));
    let manifest = b"Codename: stable\nArchitectures: i386\nComponents: extra\n".to_vec();
    let mut clean = Disk::new();
    clean.add(b"dists/stable/Release".to_vec(), manifest.clone());
    let mut littered = Disk::new();
    littered.add(b"dists/stable/Release.tmp".to_vec(), b"no manifest at all".to_vec());
    littered.add(b"dists/stable/Release".to_vec(), manifest);
    littered.add(b"dists/stable/main/binary-amd64/Packages.tmp".to_vec(), b"nonsense".to_vec());
    let paths = vec![b"a.deb".to_vec()];
    let one = _repo_add(&cfg, &paths, &sources, &clean, ConflictResolution::Error, b"now").unwrap();
    let two =
        _repo_add(&cfg, &paths, &sources, &littered, ConflictResolution::Error, b"now").unwrap();
    assert_eq!(one.len(), two.len());
    assert_eq!(kinds(&one), kinds(&two));
    for (a, b) in one.iter().zip(two.iter()) {
        match (a, b) {
            (Step::CreateDir(x), Step::CreateDir(y)) => assert_eq!(x, y),
            (Step::WriteFile(x, d), Step::WriteFile(y, e)) => {
                assert_eq!(x, y);
                assert_eq!(d, e);
            }
            (Step::CopyFile(x, p), Step::CopyFile(y, q)) => {
                assert_eq!(x, y);
                assert_eq!(p, q);
            }
            (Step::Rename(x, p), Step::Rename(y, q)) => {
                assert_eq!(x, y);
                assert_eq!(p, q);
            }
            _ => panic!("the plans differ"),
        }
    }
    let release = written(&one, "dists/stable/Release.tmp").unwrap();
    assert!(text(release).contains("Architectures: amd64 i386\n"));
    assert!(text(release).contains("Components: extra main\n"));
}
