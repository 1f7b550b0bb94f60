//! Building the repository again after publishing was cut short.

use vstd::prelude::*;
use vstd::string::*;
use crate::config;
use crate::repo::atomicity::is_temporary;
use crate::repo::disk::{found_on, DiskFileView};
use crate::repo::metadata::PackageMetaView;
use crate::repo::paths::{packages_path, release_path, temporary};
use crate::repo::repository::{opened, optional_text, RepositoryView};
use crate::repo::{
    gathered_all, repository_added, version_selected, with_matching, with_one, with_repositories,
    with_repository, ConflictResolution,
};

verus! {

/// Whether what was found of the published files is the same in both but
/// for the files with temporary names.
pub open spec fn same_published(a: Seq<DiskFileView>, b: Seq<DiskFileView>) -> bool {
    forall|path: Seq<u8>| !is_temporary(path) ==> found_on(a, path) == found_on(b, path)
}

/// Neither a manifest nor an index file has a temporary name.
pub proof fn lemma_published_paths(suite: Seq<u8>, component: Seq<u8>, arch: Seq<u8>)
    ensures
        !is_temporary(release_path(suite)),
        !is_temporary(packages_path(suite, component, arch)),
{
    reveal_strlit(".tmp");
    reveal_strlit("/Release");
    reveal_strlit("/Packages");
    let a = ".tmp";
    let b = "/Release";
    let c = "/Packages";
    assert(is_ascii(a)) by {
        assert forall|i: int| 0 <= i < a@.len() implies (a@[i] as nat) < 128 by {}
    }
    assert(is_ascii(b)) by {
        assert forall|i: int| 0 <= i < b@.len() implies (b@[i] as nat) < 128 by {}
    }
    assert(is_ascii(c)) by {
        assert forall|i: int| 0 <= i < c@.len() implies (c@[i] as nat) < 128 by {}
    }
    is_ascii_spec_bytes(a);
    is_ascii_spec_bytes(b);
    is_ascii_spec_bytes(c);
    let r = release_path(suite);
    let p = packages_path(suite, component, arch);
    assert(r.last() == b.spec_bytes()[7]);
    assert(p.last() == c.spec_bytes()[8]);
    assert forall|place: Seq<u8>| r != temporary(place) && p != temporary(place) by {
        assert(temporary(place).last() == a.spec_bytes()[3]);
    }
}

/// Opening an index does not depend on published files with temporary
/// names.
proof fn lemma_opened_same(
    before: RepositoryView,
    suite: Option<Seq<u8>>,
    component: Option<Seq<u8>>,
    limit: Option<usize>,
    arch: Seq<u8>,
    a: Seq<DiskFileView>,
    b: Seq<DiskFileView>,
)
    requires
        same_published(a, b),
    ensures
        opened(before, suite, component, limit, arch, a) == opened(
            before,
            suite,
            component,
            limit,
            arch,
            b,
        ),
{
    if suite.is_some() && component.is_some() {
        lemma_published_paths(suite.unwrap(), component.unwrap(), arch);
    }
}

/// Adding one package does not depend on published files with temporary
/// names.
proof fn lemma_with_one_same(
    view: RepositoryView,
    repo: config::Repository,
    meta: PackageMetaView,
    sources: Seq<DiskFileView>,
    a: Seq<DiskFileView>,
    b: Seq<DiskFileView>,
    on_conflict: ConflictResolution,
)
    requires
        same_published(a, b),
    ensures
        with_one(view, repo, meta, sources, a, on_conflict) == with_one(
            view,
            repo,
            meta,
            sources,
            b,
            on_conflict,
        ),
{
    reveal(with_one);
    let suite = optional_text(repo.suite);
    let component = optional_text(repo.component);
    lemma_opened_same(view, suite, component, repo.keep_releases, meta.arch, a, b);
    assert forall|second: RepositoryView|
        opened(second, suite, component, repo.keep_releases, "i386".spec_bytes(), a)
            == #[trigger] opened(
            second,
            suite,
            component,
            repo.keep_releases,
            "i386".spec_bytes(),
            b,
        ) by {
        lemma_opened_same(
            second,
            suite,
            component,
            repo.keep_releases,
            "i386".spec_bytes(),
            a,
            b,
        );
    }
}

/// Adding the packages that a repository takes does not depend on
/// published files with temporary names.
proof fn lemma_with_matching_same(
    view: RepositoryView,
    repo: config::Repository,
    metas: Seq<PackageMetaView>,
    at: int,
    sources: Seq<DiskFileView>,
    a: Seq<DiskFileView>,
    b: Seq<DiskFileView>,
    on_conflict: ConflictResolution,
)
    requires
        same_published(a, b),
    ensures
        with_matching(view, repo, metas, at, sources, a, on_conflict) == with_matching(
            view,
            repo,
            metas,
            at,
            sources,
            b,
            on_conflict,
        ),
    decreases metas.len() - at,
{
    if 0 <= at < metas.len() {
        if !version_selected(repo, metas[at].version) {
            lemma_with_matching_same(view, repo, metas, at + 1, sources, a, b, on_conflict);
        } else {
            lemma_with_one_same(view, repo, metas[at], sources, a, b, on_conflict);
            match with_one(view, repo, metas[at], sources, a, on_conflict) {
                Err(_) => {},
                Ok(next) => {
                    lemma_with_matching_same(next, repo, metas, at + 1, sources, a, b, on_conflict);
                },
            }
        }
    }
}

/// Adding the packages for the configured repositories does not depend on
/// published files with temporary names.
proof fn lemma_with_repositories_same(
    view: RepositoryView,
    repos: Seq<config::Repository>,
    at: int,
    metas: Seq<PackageMetaView>,
    sources: Seq<DiskFileView>,
    a: Seq<DiskFileView>,
    b: Seq<DiskFileView>,
    on_conflict: ConflictResolution,
)
    requires
        same_published(a, b),
    ensures
        with_repositories(view, repos, at, metas, sources, a, on_conflict) == with_repositories(
            view,
            repos,
            at,
            metas,
            sources,
            b,
            on_conflict,
        ),
    decreases repos.len() - at,
{
    if 0 <= at < repos.len() {
        reveal(with_repository);
        lemma_with_matching_same(view, repos[at], metas, 0, sources, a, b, on_conflict);
        match with_repository(view, repos[at], metas, sources, a, on_conflict) {
            Err(_) => {},
            Ok(next) => {
                lemma_with_repositories_same(next, repos, at + 1, metas, sources, a, b, on_conflict);
            },
        }
    }
}

/// Building the repository again after publishing was cut short: where
/// what is found of the published files differs only in files with
/// temporary names, as it does after a fault before anything was put in
/// place, the same package files and the same configuration give the same
/// repository or the same error.
pub proof fn lemma_rebuilt_same(
    repos: Seq<config::Repository>,
    paths: Seq<Seq<u8>>,
    sources: Seq<DiskFileView>,
    a: Seq<DiskFileView>,
    b: Seq<DiskFileView>,
    on_conflict: ConflictResolution,
)
    requires
        same_published(a, b),
    ensures
        repository_added(repos, paths, sources, a, on_conflict) == repository_added(
            repos,
            paths,
            sources,
            b,
            on_conflict,
        ),
{
    match gathered_all(paths, sources, repos, 0, Seq::empty()) {
        Err(_) => {},
        Ok(metas) => {
            lemma_with_repositories_same(
                RepositoryView {
                    suites: Seq::empty(),
                    components: Seq::empty(),
                    files: Seq::empty(),
                },
                repos,
                0,
                metas,
                sources,
                a,
                b,
                on_conflict,
            );
        },
    }
}

} // verus!
