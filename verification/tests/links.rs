use bulk::config::RepositoryType;
use bulk::repo::deb::ControlRecord;
use bulk::repo::disk::Disk;
use bulk::repo::html_links::{Repository, Unsupported};
use bulk::repo::metadata::PackageMeta;
use bulk::repo::ConflictResolution;

fn meta(file: &str, name: &str, version: &str) -> PackageMeta {
    PackageMeta {
        kind: RepositoryType::HtmlLinks,
        filename: file.as_bytes().to_vec(),
        name: name.as_bytes().to_vec(),
        arch: Vec::new(),
        version: version.as_bytes().to_vec(),
        info: ControlRecord::new(),
    }
}

#[test]
fn links_are_kept_by_page_and_version() {
    let mut disk = Disk::new();
    disk.add(b"out/tool-1.0.tar.gz".to_vec(), b"one".to_vec());
    disk.add(b"out/tool-1.1.tar.gz".to_vec(), b"two!".to_vec());
    let mut repo = Repository::new();
    assert_eq!(Repository::new().write(), Ok(()));
    let page = repo.open(b"index.html", b"files");
    assert_eq!(page.index, b"index.html".to_vec());
    assert_eq!(page.files, b"files".to_vec());
    let other = repo.open(b"beta.html", b"files");
    let one = meta("out/tool-1.0.tar.gz", "tool", "1.0");
    let two = meta("out/tool-1.1.tar.gz", "tool", "1.1");
    assert!(page.add_package(&mut repo, &two, &disk, ConflictResolution::Error).is_ok());
    assert!(page.add_package(&mut repo, &one, &disk, ConflictResolution::Error).is_ok());
    assert!(other.add_package(&mut repo, &one, &disk, ConflictResolution::Error).is_ok());
    assert_eq!(repo.repos.len(), 2);
    assert_eq!(repo.repos[0].index, b"beta.html".to_vec());
    assert_eq!(repo.repos[1].versions.len(), 2);
    assert_eq!(repo.repos[1].versions[0].version.0, b"1.0".to_vec());
    assert_eq!(repo.repos[1].versions[1].version.0, b"1.1".to_vec());
    assert_eq!(repo.repos[1].versions[1].size, 4);
    assert_eq!(repo.repos[1].versions[1].filename, b"pool/t/tool/tool-1.1.tar.gz".to_vec());
    assert_eq!(repo.file_info.len(), 2);

    // the same version once more
    let refused = page.add_package(&mut repo, &one, &disk, ConflictResolution::Error);
    assert_eq!(refused.err().unwrap().version.0, b"1.0".to_vec());
    assert!(page.add_package(&mut repo, &one, &disk, ConflictResolution::Keep).is_ok());
    assert!(page.add_package(&mut repo, &one, &disk, ConflictResolution::Replace).is_ok());
    assert_eq!(repo.repos[1].versions.len(), 2);
    assert_eq!(repo.write(), Err(Unsupported));
}
