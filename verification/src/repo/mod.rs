//! The package repository: reading packages and keeping the index.

use vstd::prelude::*;
use vstd::string::*;
use crate::config::{self, Config, RepositoryType};
use crate::order::holds;
use crate::re::{regex_check, regex_is_match, regex_matches, regex_valid};
use crate::repo::commit::{planned, Step, StepView};
use crate::repo::disk::{found_on, Disk, DiskFileView};
use crate::repo::metadata::{
    gather_metadata, gathered, MetaError, PackageMeta, PackageMetaView,
};
use crate::repo::paths::{has_file_name, names_a_file};
use crate::repo::repository::{
    admitted, file_probe, index_conflicts, index_probe, opened, optional_text, with_file,
    with_package, FileInfo, Repository, RepositoryError, RepositoryErrorView, RepositoryView,
};
use crate::text::{copy_bytes, same_bytes};

pub mod ar;
pub mod atomicity;
pub mod commit;
pub mod deb;
pub mod debian;
pub mod disk;
pub mod html_links;
pub mod index_read_back;
pub mod index_rules;
pub mod manifest_read_back;
pub mod metadata;
pub mod metadata_rules;
pub mod open_rules;
pub mod paths;
pub mod rebuild;
pub mod release;
pub mod repository;
pub mod round_trip;

verus! {

/// What to do with a package whose name, version and architecture the
/// index holds already.
#[derive(Clone, Copy, Debug, PartialEq, Eq, Structural)]
pub enum ConflictResolution {
    /// Refuse the package.
    Error,
    /// Keep the package that the index holds.
    Keep,
    /// Put the new package in the place of the one that the index holds.
    Replace,
}

/// Why packages could not be added to the repositories.
#[derive(Debug)]
pub enum AddError {
    /// The file at the path was not found.
    MissingFile(Vec<u8>),
    /// No metadata could be had from the file at the path.
    Meta(Vec<u8>, MetaError),
    /// A pattern for versions is no regular expression.
    BadPattern,
    /// The repository refused.
    Repository(RepositoryError),
    /// A Debian repository is configured without suite or component.
    MissingSuite,
    /// Packages match a repository of links, which cannot be written.
    Unsupported,
}

/// What an error holds.
pub enum AddErrorView {
    MissingFile(Seq<u8>),
    Meta(Seq<u8>, MetaError),
    BadPattern,
    Repository(RepositoryErrorView),
    MissingSuite,
    Unsupported,
}

impl View for AddError {
    type V = AddErrorView;

    open spec fn view(&self) -> AddErrorView {
        match self {
            AddError::MissingFile(p) => AddErrorView::MissingFile(p@),
            AddError::Meta(p, e) => AddErrorView::Meta(p@, *e),
            AddError::BadPattern => AddErrorView::BadPattern,
            AddError::Repository(e) => AddErrorView::Repository(e@),
            AddError::MissingSuite => AddErrorView::MissingSuite,
            AddError::Unsupported => AddErrorView::Unsupported,
        }
    }
}

/// The metadata of the files at the paths from number `at` on, after
/// `acc`: each file must be among `sources`; those without metadata are
/// passed over.
pub open spec fn gathered_all(
    paths: Seq<Seq<u8>>,
    sources: Seq<DiskFileView>,
    repos: Seq<config::Repository>,
    at: int,
    acc: Seq<PackageMetaView>,
) -> Result<Seq<PackageMetaView>, AddErrorView>
    decreases paths.len() - at,
{
    if at < 0 || at >= paths.len() {
        Ok(acc)
    } else {
        match found_on(sources, paths[at]) {
            None => Err(AddErrorView::MissingFile(paths[at])),
            Some(data) => match gathered(paths[at], data, repos) {
                Err(e) => Err(AddErrorView::Meta(paths[at], e)),
                Ok(None) => gathered_all(paths, sources, repos, at + 1, acc),
                Ok(Some(m)) => gathered_all(paths, sources, repos, at + 1, acc.push(m)),
            },
        }
    }
}

/// Whether an optional pattern is one that `regex` accepts.
pub open spec fn pattern_valid(p: Option<String>) -> bool {
    match p {
        Some(p) => regex_valid(p@),
        None => true,
    }
}

/// Whether a repository takes a version: it matches the pattern for
/// versions, where there is one, and not the pattern of versions to pass
/// over.
pub open spec fn version_selected(repo: config::Repository, version: Seq<u8>) -> bool {
    (match repo.match_version {
        Some(p) => regex_matches(p@, version),
        None => true,
    }) && !(match repo.skip_version {
        Some(p) => regex_matches(p@, version),
        None => false,
    })
}

/// Whether a repository takes any of the packages from number `at` on.
pub open spec fn any_selected(repo: config::Repository, metas: Seq<PackageMetaView>, at: int)
    -> bool
    decreases metas.len() - at,
{
    if at < 0 || at >= metas.len() {
        false
    } else {
        version_selected(repo, metas[at].version) || any_selected(repo, metas, at + 1)
    }
}

/// The repository after one package is added for a configured
/// repository.
///
/// The index of the package's architecture is opened, and the package is
/// added to it; then, where the configuration asks for it and the
/// architecture is another, the index for `i386` is opened too.  The
/// package's file must have a name, and must be known or among `sources`.
#[verifier::opaque]
pub open spec fn with_one(
    view: RepositoryView,
    repo: config::Repository,
    meta: PackageMetaView,
    sources: Seq<DiskFileView>,
    published: Seq<DiskFileView>,
    on_conflict: ConflictResolution,
) -> Result<RepositoryView, AddErrorView> {
    let suite = optional_text(repo.suite);
    let component = optional_text(repo.component);
    let first = opened(view, suite, component, repo.keep_releases, meta.arch, published);
    if first.1.is_some() {
        Err(AddErrorView::Repository(first.1.unwrap()))
    } else if !has_file_name(meta.filename) || !(holds::<FileInfo>(
        first.0.files,
        file_probe(meta.filename),
    ) || found_on(sources, meta.filename).is_some()) {
        Err(AddErrorView::MissingFile(meta.filename))
    } else {
        let probe = index_probe(suite.unwrap(), component.unwrap(), meta.arch);
        let pkg = admitted(first.0.files, meta, sources);
        if index_conflicts(first.0.components, probe, pkg) && on_conflict
            == ConflictResolution::Error {
            Err(AddErrorView::Repository(RepositoryErrorView::PackageConflict(pkg)))
        } else {
            let second = RepositoryView {
                suites: first.0.suites,
                components: with_package(
                    first.0.components,
                    probe,
                    pkg,
                    on_conflict == ConflictResolution::Replace,
                ),
                files: with_file(first.0.files, meta.name, meta.filename, sources),
            };
            if repo.add_empty_i386_repo && meta.arch != "i386".spec_bytes() {
                let third = opened(
                    second,
                    suite,
                    component,
                    repo.keep_releases,
                    "i386".spec_bytes(),
                    published,
                );
                if third.1.is_some() {
                    Err(AddErrorView::Repository(third.1.unwrap()))
                } else {
                    Ok(third.0)
                }
            } else {
                Ok(second)
            }
        }
    }
}

/// The repository after the packages from number `at` on that a
/// configured repository takes are added for it, one after the other.
pub open spec fn with_matching(
    view: RepositoryView,
    repo: config::Repository,
    metas: Seq<PackageMetaView>,
    at: int,
    sources: Seq<DiskFileView>,
    published: Seq<DiskFileView>,
    on_conflict: ConflictResolution,
) -> Result<RepositoryView, AddErrorView>
    decreases metas.len() - at,
{
    if at < 0 || at >= metas.len() {
        Ok(view)
    } else if !version_selected(repo, metas[at].version) {
        with_matching(view, repo, metas, at + 1, sources, published, on_conflict)
    } else {
        match with_one(view, repo, metas[at], sources, published, on_conflict) {
            Err(e) => Err(e),
            Ok(next) => with_matching(next, repo, metas, at + 1, sources, published, on_conflict),
        }
    }
}

/// The repository after the packages are added for one configured
/// repository.
///
/// Its patterns for versions must be regular expressions.  Where it takes
/// none of the packages, nothing is done.  Else it must be a Debian
/// repository with suite and component.
#[verifier::opaque]
pub open spec fn with_repository(
    view: RepositoryView,
    repo: config::Repository,
    metas: Seq<PackageMetaView>,
    sources: Seq<DiskFileView>,
    published: Seq<DiskFileView>,
    on_conflict: ConflictResolution,
) -> Result<RepositoryView, AddErrorView> {
    if !pattern_valid(repo.match_version) || !pattern_valid(repo.skip_version) {
        Err(AddErrorView::BadPattern)
    } else if !any_selected(repo, metas, 0) {
        Ok(view)
    } else if repo.kind == RepositoryType::HtmlLinks {
        Err(AddErrorView::Unsupported)
    } else if repo.suite.is_none() || repo.component.is_none() {
        Err(AddErrorView::MissingSuite)
    } else {
        with_matching(view, repo, metas, 0, sources, published, on_conflict)
    }
}

/// The repository after the packages are added for the configured
/// repositories from number `at` on, one after the other.
pub open spec fn with_repositories(
    view: RepositoryView,
    repos: Seq<config::Repository>,
    at: int,
    metas: Seq<PackageMetaView>,
    sources: Seq<DiskFileView>,
    published: Seq<DiskFileView>,
    on_conflict: ConflictResolution,
) -> Result<RepositoryView, AddErrorView>
    decreases repos.len() - at,
{
    if at < 0 || at >= repos.len() {
        Ok(view)
    } else {
        match with_repository(view, repos[at], metas, sources, published, on_conflict) {
            Err(e) => Err(e),
            Ok(next) => with_repositories(
                next,
                repos,
                at + 1,
                metas,
                sources,
                published,
                on_conflict,
            ),
        }
    }
}

/// The repository that adding the files at the paths makes, from nothing
/// loaded: the metadata of all files is gathered first, then the packages
/// are added for each configured repository.
pub open spec fn repository_added(
    repos: Seq<config::Repository>,
    paths: Seq<Seq<u8>>,
    sources: Seq<DiskFileView>,
    published: Seq<DiskFileView>,
    on_conflict: ConflictResolution,
) -> Result<RepositoryView, AddErrorView> {
    match gathered_all(paths, sources, repos, 0, Seq::empty()) {
        Err(e) => Err(e),
        Ok(metas) => with_repositories(
            RepositoryView { suites: Seq::empty(), components: Seq::empty(), files: Seq::empty() },
            repos,
            0,
            metas,
            sources,
            published,
            on_conflict,
        ),
    }
}

/// Gathers the metadata of the files at the paths.
fn gather_all(cfg: &Config, packages: &Vec<Vec<u8>>, sources: &Disk) -> (r: Result<
    Vec<PackageMeta>,
    AddError,
>)
    ensures
        match r {
            Ok(metas) => gathered_all(
                packages.deep_view(),
                sources@,
                cfg.repositories@,
                0,
                Seq::empty(),
            ) == Ok::<Seq<PackageMetaView>, AddErrorView>(metas.deep_view()) && forall|i: int|
                0 <= i < metas.len() ==> (#[trigger] metas[i]).wf(),
            Err(e) => gathered_all(
                packages.deep_view(),
                sources@,
                cfg.repositories@,
                0,
                Seq::empty(),
            ) == Err::<Seq<PackageMetaView>, AddErrorView>(e@),
        },
{
    let mut metas: Vec<PackageMeta> = Vec::new();
    let ghost paths = packages.deep_view();
    let mut i: usize = 0;
    proof {
        assert(metas.deep_view() =~= Seq::<PackageMetaView>::empty());
    }
    while i < packages.len()
        invariant
            0 <= i <= packages.len(),
            paths == packages.deep_view(),
            forall|k: int| 0 <= k < metas.len() ==> (#[trigger] metas[k]).wf(),
            gathered_all(paths, sources@, cfg.repositories@, i as int, metas.deep_view())
                == gathered_all(paths, sources@, cfg.repositories@, 0, Seq::empty()),
        decreases packages.len() - i,
    {
        let path = &packages[i];
        proof {
            assert(path.deep_view() =~= path@);
            assert(paths[i as int] == path@);
        }
        let data = match sources.get(path.as_slice()) {
            Some(d) => d,
            None => {
                return Err(AddError::MissingFile(copy_bytes(path.as_slice())));
            },
        };
        match gather_metadata(path.as_slice(), data.as_slice(), cfg) {
            Err(e) => {
                return Err(AddError::Meta(copy_bytes(path.as_slice()), e));
            },
            Ok(None) => {},
            Ok(Some(m)) => {
                let ghost before = metas.deep_view();
                metas.push(m);
                proof {
                    assert(metas.deep_view() =~= before.push(m@));
                }
            },
        }
        i += 1;
    }
    Ok(metas)
}

/// Checks an optional pattern.
fn check_pattern(p: &Option<String>) -> (r: bool)
    ensures
        r == pattern_valid(*p),
{
    match p {
        Some(p) => regex_check(p.as_str()).is_ok(),
        None => true,
    }
}

/// Whether a repository takes a version.
fn is_selected(repo: &config::Repository, version: &[u8]) -> (r: bool)
    requires
        pattern_valid(repo.match_version),
        pattern_valid(repo.skip_version),
    ensures
        r == version_selected(*repo, version@),
{
    let wanted = match &repo.match_version {
        Some(p) => match regex_is_match(p.as_str(), version) {
            Ok(b) => b,
            Err(_) => false,
        },
        None => true,
    };
    let skipped = match &repo.skip_version {
        Some(p) => match regex_is_match(p.as_str(), version) {
            Ok(b) => b,
            Err(_) => false,
        },
        None => false,
    };
    wanted && !skipped
}

/// Adds one package for a configured repository.
fn add_one(
    debian: &mut Repository,
    repo: &config::Repository,
    meta: &PackageMeta,
    sources: &Disk,
    published: &Disk,
    on_conflict: ConflictResolution,
) -> (r: Result<(), AddError>)
    requires
        old(debian).wf(),
        meta.wf(),
    ensures
        final(debian).wf(),
        match r {
            Ok(()) => with_one(old(debian)@, *repo, meta@, sources@, published@, on_conflict)
                == Ok::<RepositoryView, AddErrorView>(final(debian)@),
            Err(e) => with_one(old(debian)@, *repo, meta@, sources@, published@, on_conflict)
                == Err::<RepositoryView, AddErrorView>(e@),
        },
{
    proof {
        reveal(with_one);
    }
    let component = match debian.open(repo, meta.arch.as_slice(), published) {
        Ok(c) => c,
        Err(e) => {
            return Err(AddError::Repository(e));
        },
    };
    let known = debian.has_file(meta.filename.as_slice()) || sources.get(
        meta.filename.as_slice(),
    ).is_some();
    if !names_a_file(meta.filename.as_slice()) || !known {
        return Err(AddError::MissingFile(copy_bytes(meta.filename.as_slice())));
    }
    match component.add_package(debian, meta, sources, on_conflict) {
        Ok(()) => {},
        Err(e) => {
            return Err(AddError::Repository(e));
        },
    }
    if repo.add_empty_i386_repo && !same_bytes(meta.arch.as_slice(), "i386".as_bytes()) {
        match debian.open(repo, "i386".as_bytes(), published) {
            Ok(_) => {},
            Err(e) => {
                return Err(AddError::Repository(e));
            },
        }
    }
    Ok(())
}

/// Adds the packages for one configured repository.
fn add_for(
    debian: &mut Repository,
    repo: &config::Repository,
    metas: &Vec<PackageMeta>,
    sources: &Disk,
    published: &Disk,
    on_conflict: ConflictResolution,
) -> (r: Result<(), AddError>)
    requires
        old(debian).wf(),
        forall|i: int| 0 <= i < metas.len() ==> (#[trigger] metas[i]).wf(),
    ensures
        final(debian).wf(),
        match r {
            Ok(()) => with_repository(
                old(debian)@,
                *repo,
                metas.deep_view(),
                sources@,
                published@,
                on_conflict,
            ) == Ok::<RepositoryView, AddErrorView>(final(debian)@),
            Err(e) => with_repository(
                old(debian)@,
                *repo,
                metas.deep_view(),
                sources@,
                published@,
                on_conflict,
            ) == Err::<RepositoryView, AddErrorView>(e@),
        },
{
    proof {
        reveal(with_repository);
    }
    if !check_pattern(&repo.match_version) || !check_pattern(&repo.skip_version) {
        return Err(AddError::BadPattern);
    }
    let ghost all = metas.deep_view();
    let mut any = false;
    let mut i: usize = 0;
    while i < metas.len()
        invariant
            0 <= i <= metas.len(),
            all == metas.deep_view(),
            pattern_valid(repo.match_version),
            pattern_valid(repo.skip_version),
            any_selected(*repo, all, 0) == (any || any_selected(*repo, all, i as int)),
        decreases metas.len() - i,
    {
        if is_selected(repo, metas[i].version.as_slice()) {
            any = true;
        }
        i += 1;
    }
    if !any {
        return Ok(());
    }
    match repo.kind {
        RepositoryType::HtmlLinks => {
            return Err(AddError::Unsupported);
        },
        RepositoryType::Debian => {},
    }
    if repo.suite.is_none() || repo.component.is_none() {
        return Err(AddError::MissingSuite);
    }
    let mut j: usize = 0;
    while j < metas.len()
        invariant
            0 <= j <= metas.len(),
            all == metas.deep_view(),
            debian.wf(),
            forall|i: int| 0 <= i < metas.len() ==> (#[trigger] metas[i]).wf(),
            pattern_valid(repo.match_version),
            pattern_valid(repo.skip_version),
            with_repository(old(debian)@, *repo, all, sources@, published@, on_conflict)
                == with_matching(
                debian@,
                *repo,
                all,
                j as int,
                sources@,
                published@,
                on_conflict,
            ),
        decreases metas.len() - j,
    {
        if is_selected(repo, metas[j].version.as_slice()) {
            match add_one(debian, repo, &metas[j], sources, published, on_conflict) {
                Ok(()) => {},
                Err(e) => {
                    return Err(e);
                },
            }
        }
        j += 1;
    }
    Ok(())
}

/// Adds the files at the paths to the configured repositories, and plans
/// the publishing of what results.
///
/// `sources` holds the files to add, `published` the manifests and index
/// files of the repository as they were found.  The manifests that the
/// plan writes bear the given date.
pub fn _repo_add(
    cfg: &Config,
    packages: &Vec<Vec<u8>>,
    sources: &Disk,
    published: &Disk,
    on_conflict: ConflictResolution,
    date: &[u8],
) -> (r: Result<Vec<Step>, AddError>)
    ensures
        match r {
            Ok(plan) => match repository_added(
                cfg.repositories@,
                packages.deep_view(),
                sources@,
                published@,
                on_conflict,
            ) {
                Ok(view) => plan.deep_view() == planned(view, date@),
                Err(_) => false,
            },
            Err(e) => repository_added(
                cfg.repositories@,
                packages.deep_view(),
                sources@,
                published@,
                on_conflict,
            ) == Err::<RepositoryView, AddErrorView>(e@),
        },
{
    let metas = match gather_all(cfg, packages, sources) {
        Ok(m) => m,
        Err(e) => {
            return Err(e);
        },
    };
    let mut debian = Repository::new();
    let ghost start = debian@;
    proof {
        assert(start.suites =~= Seq::empty());
        assert(start.components =~= Seq::empty());
        assert(start.files =~= Seq::empty());
    }
    let mut i: usize = 0;
    while i < cfg.repositories.len()
        invariant
            0 <= i <= cfg.repositories.len(),
            debian.wf(),
            forall|k: int| 0 <= k < metas.len() ==> (#[trigger] metas[k]).wf(),
            repository_added(
                cfg.repositories@,
                packages.deep_view(),
                sources@,
                published@,
                on_conflict,
            ) == with_repositories(
                start,
                cfg.repositories@,
                0,
                metas.deep_view(),
                sources@,
                published@,
                on_conflict,
            ),
            with_repositories(
                start,
                cfg.repositories@,
                0,
                metas.deep_view(),
                sources@,
                published@,
                on_conflict,
            ) == with_repositories(
                debian@,
                cfg.repositories@,
                i as int,
                metas.deep_view(),
                sources@,
                published@,
                on_conflict,
            ),
        decreases cfg.repositories.len() - i,
    {
        match add_for(&mut debian, &cfg.repositories[i], &metas, sources, published, on_conflict) {
            Ok(()) => {},
            Err(e) => {
                return Err(e);
            },
        }
        i += 1;
    }
    Ok(debian.commit(date))
}

} // verus!
