//! Repositories that are pages of links to package files.

use vstd::prelude::*;
use crate::hash_file::hash_file;
use crate::order::{
    ascending, holds, lemma_deep_insert, lemma_insert_ascending, lemma_slot_bounds,
    lemma_slot_unique, lemma_update_ascending, locate, slot, Order, Ranked,
};
use crate::repo::deb::ControlRecord;
use crate::repo::debian::{versions_with, Package, PackageView};
use crate::repo::disk::{found_on, Disk, DiskFileView};
use crate::repo::metadata::{PackageMeta, PackageMetaView};
use crate::repo::paths::{has_file_name, pool_file};
use crate::repo::repository::{
    file_of, file_probe, lemma_slot_of_file, with_file, FileInfo, FileInfoView,
};
use crate::repo::ConflictResolution;
use crate::text::{compare_bytes, copy_bytes, lemma_lex_equal, lemma_lex_flip, lemma_lex_transitive, lex_rank};
use crate::version::Version;

verus! {

/// The packages that one page links to, ascending by version.
#[derive(Debug)]
pub struct Page {
    /// The path of the page.
    pub index: Vec<u8>,
    pub versions: Vec<Package>,
}

/// What a page holds.
pub struct PageView {
    pub index: Seq<u8>,
    pub versions: Seq<PackageView>,
}

impl View for Page {
    type V = PageView;

    open spec fn view(&self) -> PageView {
        PageView { index: self.index@, versions: self.versions.deep_view() }
    }
}

impl DeepView for Page {
    type V = PageView;

    open spec fn deep_view(&self) -> PageView {
        self@
    }
}

impl Ranked for Page {
    /// Pages are ranked by their paths.
    open spec fn rank(x: PageView, y: PageView) -> Order {
        lex_rank(x.index, y.index)
    }

    proof fn rank_reflexive(x: PageView) {
        lemma_lex_equal(x.index, x.index);
    }

    proof fn rank_antisymmetric(x: PageView, y: PageView) {
        lemma_lex_flip(x.index, y.index);
    }

    proof fn rank_transitive(x: PageView, y: PageView, z: PageView) {
        lemma_lex_transitive(x.index, y.index, z.index);
    }

    fn compare(&self, other: &Self) -> (o: Order) {
        compare_bytes(self.index.as_slice(), other.index.as_slice())
    }
}

/// The pages of links of one run, and the files they link to.
#[derive(Debug)]
pub struct Repository {
    /// The pages, ascending by path.
    pub repos: Vec<Page>,
    /// The files, ascending by the path they come from.
    pub file_info: Vec<FileInfo>,
}

/// What a repository of links holds.
pub struct LinksView {
    pub repos: Seq<PageView>,
    pub file_info: Seq<FileInfoView>,
}

impl View for Repository {
    type V = LinksView;

    open spec fn view(&self) -> LinksView {
        LinksView { repos: self.repos.deep_view(), file_info: self.file_info.deep_view() }
    }
}

/// A handle on one page of a repository of links.
#[derive(Debug)]
pub struct Subrepository {
    /// The path of the page.
    pub index: Vec<u8>,
    /// The directory of the files that the page links to.
    pub files: Vec<u8>,
}

/// Pages of links cannot be written yet.
#[derive(Clone, Copy, Debug, PartialEq, Eq, Structural)]
pub struct Unsupported;

/// The page that a page is looked up by.
pub open spec fn page_probe(index: Seq<u8>) -> PageView {
    PageView { index, versions: Seq::empty() }
}

/// A repository of links as it may be held: pages and files ascend, and
/// so do the versions of each page.
pub open spec fn links_wf(r: LinksView) -> bool {
    &&& ascending::<Page>(r.repos)
    &&& ascending::<FileInfo>(r.file_info)
    &&& forall|i: int| 0 <= i < r.repos.len() ==> ascending::<Package>((#[trigger] r.repos[i]).versions)
}

/// The package that a page takes from a package's metadata and what is
/// known of its file.
pub open spec fn linked_package(meta: PackageMetaView, file: FileInfoView) -> PackageView {
    PackageView {
        name: meta.name,
        version: meta.version,
        architecture: meta.arch,
        filename: file.path,
        size: file.size,
        sha256: file.sha256,
        metadata: Seq::empty(),
    }
}

/// Whether the page of the given path holds the package's version
/// already.
pub open spec fn page_conflicts(pages: Seq<PageView>, index: Seq<u8>, pkg: PackageView) -> bool {
    holds::<Page>(pages, page_probe(index)) && holds::<Package>(
        pages[slot::<Page>(pages, page_probe(index))].versions,
        pkg,
    )
}

/// The pages after a package is put on the page of the given path, which
/// is made where it is missing.
pub open spec fn with_link(pages: Seq<PageView>, index: Seq<u8>, pkg: PackageView, replace: bool)
    -> Seq<PageView> {
    let p = slot::<Page>(pages, page_probe(index));
    if holds::<Page>(pages, page_probe(index)) {
        pages.update(
            p,
            PageView { versions: versions_with(pages[p].versions, pkg, replace), ..pages[p] },
        )
    } else {
        pages.insert(p, PageView { index, versions: seq![pkg] })
    }
}

/// The slot of a page depends on its path alone.
proof fn lemma_slot_of_page(s: Seq<PageView>, x: PageView, y: PageView)
    requires
        x.index == y.index,
    ensures
        slot::<Page>(s, x) == slot::<Page>(s, y),
        holds::<Page>(s, x) == holds::<Page>(s, y),
    decreases s.len(),
{
    if s.len() == 0 || Page::rank(s[0], x) != Order::Less {
    } else {
        lemma_slot_of_page(s.drop_first(), x, y);
    }
    lemma_slot_bounds::<Page>(s, x);
}

impl Repository {
    /// The repository is well formed.
    pub open spec fn wf(&self) -> bool {
        links_wf(self@)
    }

    /// A repository of links without pages.
    pub fn new() -> (r: Repository)
        ensures
            r.wf(),
            r@.repos.len() == 0,
            r@.file_info.len() == 0,
    {
        Repository { repos: Vec::new(), file_info: Vec::new() }
    }

    /// A handle on the page of the given path, whose files lie in the
    /// given directory.
    pub fn open(&self, index: &[u8], files: &[u8]) -> (r: Subrepository)
        ensures
            r.index@ == index@,
            r.files@ == files@,
    {
        Subrepository { index: copy_bytes(index), files: copy_bytes(files) }
    }

    /// Writes the pages: there is nothing to do where there are none, and
    /// no way to do it where there are some.
    pub fn write(self) -> (r: Result<(), Unsupported>)
        ensures
            r.is_ok() == (self@.repos.len() == 0),
    {
        if self.repos.len() == 0 {
            Ok(())
        } else {
            Err(Unsupported)
        }
    }
}

impl Subrepository {
    /// Adds a package to the handle's page.
    ///
    /// What is known of the package's file is recorded first, once for
    /// each path.  Then the package is put on the page, and the policy
    /// decides where its version is there already: `Error` hands the
    /// package back.
    pub fn add_package(
        &self,
        repo: &mut Repository,
        pack: &PackageMeta,
        disk: &Disk,
        on_conflict: ConflictResolution,
    ) -> (r: Result<(), Package>)
        requires
            old(repo).wf(),
            has_file_name(pack@.filename),
            holds::<FileInfo>(old(repo)@.file_info, file_probe(pack@.filename)) || found_on(
                disk@,
                pack@.filename,
            ).is_some(),
        ensures
            final(repo).wf(),
            final(repo)@.file_info == with_file(
                old(repo)@.file_info,
                pack@.name,
                pack@.filename,
                disk@,
            ),
            final(repo)@.repos == with_link(
                old(repo)@.repos,
                self.index@,
                linked_package(pack@, file_of(old(repo)@.file_info, pack@, disk@)),
                on_conflict == ConflictResolution::Replace,
            ),
            match r {
                Ok(()) => !(page_conflicts(
                    old(repo)@.repos,
                    self.index@,
                    linked_package(pack@, file_of(old(repo)@.file_info, pack@, disk@)),
                ) && on_conflict == ConflictResolution::Error),
                Err(p) => page_conflicts(
                    old(repo)@.repos,
                    self.index@,
                    linked_package(pack@, file_of(old(repo)@.file_info, pack@, disk@)),
                ) && on_conflict == ConflictResolution::Error && p@ == linked_package(
                    pack@,
                    file_of(old(repo)@.file_info, pack@, disk@),
                ),
            },
    {
        let ghost files0 = repo@.file_info;
        let ghost files_vec = repo.file_info;
        let ghost pages0 = repo@.repos;
        let ghost pages_vec = repo.repos;
        let ghost replace = on_conflict == ConflictResolution::Replace;
        let probe_file = FileInfo {
            source: copy_bytes(pack.filename.as_slice()),
            path: Vec::new(),
            sha256: Vec::new(),
            size: 0,
        };
        proof {
            assert(probe_file@ == file_probe(pack@.filename));
            lemma_slot_bounds::<FileInfo>(files0, probe_file@);
            lemma_lex_equal(pack@.filename, pack@.filename);
        }
        let (fp, known) = locate(&repo.file_info, &probe_file);
        if !known {
            let contents = disk.get(pack.filename.as_slice()).unwrap();
            let info = FileInfo {
                source: probe_file.source,
                path: pool_file(pack.name.as_slice(), pack.filename.as_slice()),
                sha256: hash_file(contents.as_slice()),
                size: contents.len() as u64,
            };
            repo.file_info.insert(fp, info);
            proof {
                lemma_deep_insert(files_vec, repo.file_info, fp as int, info);
                lemma_slot_of_file(files0, info@, file_probe(pack@.filename));
                lemma_insert_ascending::<FileInfo>(files0, info@);
                let after = repo@.file_info;
                assert forall|i: int| 0 <= i < fp implies #[trigger] FileInfo::rank(
                    after[i],
                    file_probe(pack@.filename),
                ) == Order::Less by {
                    assert(after[i] == files0[i]);
                }
                lemma_slot_unique::<FileInfo>(after, file_probe(pack@.filename), fp as int);
            }
        }
        let info = &repo.file_info[fp];
        let pkg = Package {
            name: copy_bytes(pack.name.as_slice()),
            version: Version(copy_bytes(pack.version.as_slice())),
            architecture: copy_bytes(pack.arch.as_slice()),
            filename: copy_bytes(info.path.as_slice()),
            size: info.size,
            sha256: copy_bytes(info.sha256.as_slice()),
            metadata: ControlRecord::new(),
        };
        let ghost pv = pkg@;
        proof {
            assert(pv == linked_package(pack@, file_of(files0, pack@, disk@)));
        }
        let mut fresh = Page { index: copy_bytes(self.index.as_slice()), versions: Vec::new() };
        proof {
            assert(fresh@.versions =~= Seq::<PackageView>::empty());
            assert(fresh@ == page_probe(self.index@));
            lemma_slot_bounds::<Page>(pages0, fresh@);
        }
        let (p, found) = locate(&repo.repos, &fresh);
        if found {
            let ghost vs = pages0[p as int].versions;
            proof {
                assert(ascending::<Package>(vs));
                lemma_slot_bounds::<Package>(vs, pv);
            }
            let (q, present) = locate(&repo.repos[p].versions, &pkg);
            let ghost ws = versions_with(vs, pv, replace);
            proof {
                if !holds::<Package>(vs, pv) {
                    lemma_insert_ascending::<Package>(vs, pv);
                } else if replace {
                    lemma_update_ascending::<Package>(vs, pv);
                }
                let after = pages0.update(p as int, PageView { versions: ws, ..pages0[p as int] });
                assert forall|i: int, j: int| 0 <= i < j < after.len() implies Page::rank(
                    #[trigger] after[i],
                    #[trigger] after[j],
                ) == Order::Less by {
                    assert(Page::rank(pages0[i], pages0[j]) == Order::Less);
                }
                assert forall|i: int| 0 <= i < after.len() implies ascending::<Package>(
                    (#[trigger] after[i]).versions,
                ) by {
                    if i != p {
                        assert(after[i] == pages0[i]);
                    }
                }
            }
            if !present {
                repo.repos[p].versions.insert(q, pkg);
                proof {
                    assert(repo.repos@[p as int].versions.deep_view() =~= vs.insert(q as int, pv));
                    assert(repo@.repos =~= with_link(pages0, self.index@, pv, replace));
                }
                Ok(())
            } else {
                match on_conflict {
                    ConflictResolution::Error => {
                        proof {
                            assert(repo@.repos =~= with_link(pages0, self.index@, pv, replace));
                        }
                        Err(pkg)
                    },
                    ConflictResolution::Keep => {
                        proof {
                            assert(repo@.repos =~= with_link(pages0, self.index@, pv, replace));
                        }
                        Ok(())
                    },
                    ConflictResolution::Replace => {
                        repo.repos[p].versions.set(q, pkg);
                        proof {
                            assert(repo.repos@[p as int].versions.deep_view() =~= vs.update(
                                q as int,
                                pv,
                            ));
                            assert(repo@.repos =~= with_link(pages0, self.index@, pv, replace));
                        }
                        Ok(())
                    },
                }
            }
        } else {
            fresh.versions.push(pkg);
            proof {
                assert(fresh@.versions =~= seq![pv]);
                lemma_slot_of_page(pages0, fresh@, page_probe(self.index@));
                lemma_insert_ascending::<Page>(pages0, fresh@);
                Package::rank_reflexive(pv);
            }
            repo.repos.insert(p, fresh);
            proof {
                lemma_deep_insert(pages_vec, repo.repos, p as int, fresh);
                let after = repo@.repos;
                assert(after =~= with_link(pages0, self.index@, pv, replace));
                assert forall|i: int| 0 <= i < after.len() implies ascending::<Package>(
                    (#[trigger] after[i]).versions,
                ) by {
                    if i < p {
                        assert(after[i] == pages0[i]);
                    } else if i > p {
                        assert(after[i] == pages0[i - 1]);
                    }
                }
            }
            Ok(())
        }
    }
}

} // verus!
