//! The repository: the manifests of its suites, the indices of its
//! components, and the files that go into its pool.

use vstd::prelude::*;
use crate::config;
use crate::hash_file::{hash_file, sha256_hex};
use crate::order::{
    ascending, holds, lemma_deep_insert, lemma_deep_update, lemma_insert_ascending,
    lemma_slot_bounds, lemma_slot_unique, lemma_update_ascending, locate, slot, Order, Ranked,
};
use crate::repo::deb::{ControlRecord, Field, FieldView};
use crate::repo::debian::{
    buckets_wf, conflicts, index_of_text, package_wf, stored, trimmed_buckets, BucketView, Index,
    IndexView, Package, PackageView, PackagesRead,
};
use crate::repo::disk::{found_on, Disk, DiskFileView};
use crate::repo::metadata::{PackageMeta, PackageMetaView};
use crate::repo::paths::{
    has_file_name, packages_file, packages_path, pool_file, pool_path, release_file, release_path,
};
use crate::repo::release::{
    insert_name, release_of_text, release_wf, with_name, Release, ReleaseFileRead, ReleaseView,
};
use crate::repo::ConflictResolution;
use crate::text::{
    compare_bytes, copy_bytes, lemma_lex_equal, lemma_lex_flip, lemma_lex_transitive, lex_rank,
};
use crate::version::Version;

verus! {

/// A suite of the repository and its manifest.
#[derive(Debug)]
pub struct SuiteEntry {
    pub name: Vec<u8>,
    pub release: Release,
}

/// What a suite's entry holds.
pub struct SuiteView {
    pub name: Seq<u8>,
    pub release: ReleaseView,
}

impl View for SuiteEntry {
    type V = SuiteView;

    open spec fn view(&self) -> SuiteView {
        SuiteView { name: self.name@, release: self.release@ }
    }
}

impl DeepView for SuiteEntry {
    type V = SuiteView;

    open spec fn deep_view(&self) -> SuiteView {
        self@
    }
}

impl Ranked for SuiteEntry {
    /// Suites are ranked by their names.
    open spec fn rank(x: SuiteView, y: SuiteView) -> Order {
        lex_rank(x.name, y.name)
    }

    proof fn rank_reflexive(x: SuiteView) {
        lemma_lex_equal(x.name, x.name);
    }

    proof fn rank_antisymmetric(x: SuiteView, y: SuiteView) {
        lemma_lex_flip(x.name, y.name);
    }

    proof fn rank_transitive(x: SuiteView, y: SuiteView, z: SuiteView) {
        lemma_lex_transitive(x.name, y.name, z.name);
    }

    fn compare(&self, other: &Self) -> (o: Order) {
        compare_bytes(self.name.as_slice(), other.name.as_slice())
    }
}

/// The index of one suite, component and architecture.
#[derive(Debug)]
pub struct IndexEntry {
    pub suite: Vec<u8>,
    pub component: Vec<u8>,
    pub arch: Vec<u8>,
    pub index: Index,
}

/// What an index's entry holds.
pub struct IndexEntryView {
    pub suite: Seq<u8>,
    pub component: Seq<u8>,
    pub arch: Seq<u8>,
    pub index: IndexView,
}

impl View for IndexEntry {
    type V = IndexEntryView;

    open spec fn view(&self) -> IndexEntryView {
        IndexEntryView {
            suite: self.suite@,
            component: self.component@,
            arch: self.arch@,
            index: self.index@,
        }
    }
}

impl DeepView for IndexEntry {
    type V = IndexEntryView;

    open spec fn deep_view(&self) -> IndexEntryView {
        self@
    }
}

impl Ranked for IndexEntry {
    /// Indices are ranked by suite, then component, then architecture.
    open spec fn rank(x: IndexEntryView, y: IndexEntryView) -> Order {
        if lex_rank(x.suite, y.suite) != Order::Equal {
            lex_rank(x.suite, y.suite)
        } else if lex_rank(x.component, y.component) != Order::Equal {
            lex_rank(x.component, y.component)
        } else {
            lex_rank(x.arch, y.arch)
        }
    }

    proof fn rank_reflexive(x: IndexEntryView) {
        lemma_lex_equal(x.suite, x.suite);
        lemma_lex_equal(x.component, x.component);
        lemma_lex_equal(x.arch, x.arch);
    }

    proof fn rank_antisymmetric(x: IndexEntryView, y: IndexEntryView) {
        lemma_lex_flip(x.suite, y.suite);
        lemma_lex_flip(x.component, y.component);
        lemma_lex_flip(x.arch, y.arch);
    }

    proof fn rank_transitive(x: IndexEntryView, y: IndexEntryView, z: IndexEntryView) {
        lemma_lex_flip(x.suite, y.suite);
        lemma_lex_flip(y.suite, z.suite);
        lemma_lex_equal(x.suite, y.suite);
        lemma_lex_equal(y.suite, z.suite);
        lemma_lex_equal(x.suite, z.suite);
        lemma_lex_flip(x.component, y.component);
        lemma_lex_flip(y.component, z.component);
        lemma_lex_equal(x.component, y.component);
        lemma_lex_equal(y.component, z.component);
        lemma_lex_equal(x.component, z.component);
        if lex_rank(x.suite, y.suite) == Order::Equal && lex_rank(y.suite, z.suite)
            == Order::Equal {
            if lex_rank(x.component, y.component) == Order::Equal && lex_rank(
                y.component,
                z.component,
            ) == Order::Equal {
                lemma_lex_transitive(x.arch, y.arch, z.arch);
            } else {
                lemma_lex_transitive(x.component, y.component, z.component);
            }
        } else {
            lemma_lex_transitive(x.suite, y.suite, z.suite);
        }
    }

    fn compare(&self, other: &Self) -> (o: Order) {
        match compare_bytes(self.suite.as_slice(), other.suite.as_slice()) {
            Order::Equal => match compare_bytes(
                self.component.as_slice(),
                other.component.as_slice(),
            ) {
                Order::Equal => compare_bytes(self.arch.as_slice(), other.arch.as_slice()),
                o => o,
            },
            o => o,
        }
    }
}

/// What is known of a package's file: where it comes from, where it goes
/// in the pool, its digest and its size.
#[derive(Debug)]
pub struct FileInfo {
    pub source: Vec<u8>,
    pub path: Vec<u8>,
    pub sha256: Vec<u8>,
    pub size: u64,
}

/// What a file's entry holds.
pub struct FileInfoView {
    pub source: Seq<u8>,
    pub path: Seq<u8>,
    pub sha256: Seq<u8>,
    pub size: u64,
}

impl View for FileInfo {
    type V = FileInfoView;

    open spec fn view(&self) -> FileInfoView {
        FileInfoView {
            source: self.source@,
            path: self.path@,
            sha256: self.sha256@,
            size: self.size,
        }
    }
}

impl DeepView for FileInfo {
    type V = FileInfoView;

    open spec fn deep_view(&self) -> FileInfoView {
        self@
    }
}

impl Ranked for FileInfo {
    /// Files are ranked by the paths they come from.
    open spec fn rank(x: FileInfoView, y: FileInfoView) -> Order {
        lex_rank(x.source, y.source)
    }

    proof fn rank_reflexive(x: FileInfoView) {
        lemma_lex_equal(x.source, x.source);
    }

    proof fn rank_antisymmetric(x: FileInfoView, y: FileInfoView) {
        lemma_lex_flip(x.source, y.source);
    }

    proof fn rank_transitive(x: FileInfoView, y: FileInfoView, z: FileInfoView) {
        lemma_lex_transitive(x.source, y.source, z.source);
    }

    fn compare(&self, other: &Self) -> (o: Order) {
        compare_bytes(self.source.as_slice(), other.source.as_slice())
    }
}

/// What the configuration of a repository lacks.
#[derive(Clone, Copy, Debug, PartialEq, Eq, Structural)]
pub enum ConfigFault {
    SuiteMissing,
    ComponentMissing,
}

impl ConfigFault {
    /// The fault in words.
    pub fn message(&self) -> (r: &'static str)
        ensures
            r@ == match *self {
                ConfigFault::SuiteMissing => "suite must be specified"@,
                ConfigFault::ComponentMissing => "component must be specified"@,
            },
    {
        match self {
            ConfigFault::SuiteMissing => "suite must be specified",
            ConfigFault::ComponentMissing => "component must be specified",
        }
    }
}

/// Why the repository could not take something in.
#[derive(Debug)]
pub enum RepositoryError {
    /// The repository is not configured as it must be.
    Config(ConfigFault),
    /// The package is in the repository already.
    PackageConflict(Package),
    /// The manifest at the given path could not be read.
    Release(Vec<u8>, ReleaseFileRead),
    /// The index file at the given path could not be read.
    Packages(Vec<u8>, PackagesRead),
}

/// What an error holds.
pub enum RepositoryErrorView {
    Config(ConfigFault),
    PackageConflict(PackageView),
    Release(Seq<u8>, ReleaseFileRead),
    Packages(Seq<u8>, PackagesRead),
}

impl View for RepositoryError {
    type V = RepositoryErrorView;

    open spec fn view(&self) -> RepositoryErrorView {
        match self {
            RepositoryError::Config(f) => RepositoryErrorView::Config(*f),
            RepositoryError::PackageConflict(p) => RepositoryErrorView::PackageConflict(p@),
            RepositoryError::Release(path, e) => RepositoryErrorView::Release(path@, *e),
            RepositoryError::Packages(path, e) => RepositoryErrorView::Packages(path@, *e),
        }
    }
}

/// The repository, as it is held in memory from its opening to its
/// writing.
#[derive(Debug)]
pub struct Repository {
    /// The suites, ascending by name.
    pub suites: Vec<SuiteEntry>,
    /// The indices, ascending by suite, component and architecture.
    pub components: Vec<IndexEntry>,
    /// The files for the pool, ascending by the path they come from.
    pub files: Vec<FileInfo>,
}

/// What a repository holds.
pub struct RepositoryView {
    pub suites: Seq<SuiteView>,
    pub components: Seq<IndexEntryView>,
    pub files: Seq<FileInfoView>,
}

impl View for Repository {
    type V = RepositoryView;

    open spec fn view(&self) -> RepositoryView {
        RepositoryView {
            suites: self.suites.deep_view(),
            components: self.components.deep_view(),
            files: self.files.deep_view(),
        }
    }
}

/// The entry that a suite is looked up by.
pub open spec fn suite_probe(name: Seq<u8>) -> SuiteView {
    SuiteView {
        name,
        release: ReleaseView {
            codename: Seq::empty(),
            architectures: Seq::empty(),
            components: Seq::empty(),
            sha256: Seq::empty(),
        },
    }
}

/// The entry that an index is looked up by.
pub open spec fn index_probe(suite: Seq<u8>, component: Seq<u8>, arch: Seq<u8>) -> IndexEntryView {
    IndexEntryView {
        suite,
        component,
        arch,
        index: IndexView { packages: Seq::empty(), limit: None },
    }
}

/// The entry that a file is looked up by.
pub open spec fn file_probe(source: Seq<u8>) -> FileInfoView {
    FileInfoView { source, path: Seq::empty(), sha256: Seq::empty(), size: 0 }
}

/// A repository as it may be held: suites, indices and files ascend; the
/// manifests and indices are well formed; and every index belongs to a
/// suite that is there.
pub open spec fn repository_wf(r: RepositoryView) -> bool {
    &&& ascending::<SuiteEntry>(r.suites)
    &&& ascending::<IndexEntry>(r.components)
    &&& ascending::<FileInfo>(r.files)
    &&& forall|i: int| 0 <= i < r.suites.len() ==> release_wf((#[trigger] r.suites[i]).release)
    &&& forall|i: int|
        0 <= i < r.components.len() ==> buckets_wf((#[trigger] r.components[i]).index.packages)
    &&& forall|i: int|
        0 <= i < r.components.len() ==> holds::<SuiteEntry>(
            r.suites,
            suite_probe((#[trigger] r.components[i]).suite),
        )
}

/// A manifest with an architecture and a component registered.
pub open spec fn registered(r: ReleaseView, arch: Seq<u8>, component: Seq<u8>) -> ReleaseView {
    ReleaseView {
        architectures: with_name(r.architectures, arch),
        components: with_name(r.components, component),
        ..r
    }
}

/// The manifest of a suite of which nothing is known but its name.
pub open spec fn blank_release(suite: Seq<u8>) -> ReleaseView {
    ReleaseView {
        codename: suite,
        architectures: Seq::empty(),
        components: Seq::empty(),
        sha256: Seq::empty(),
    }
}

/// The manifest that a suite starts from when it is opened for the first
/// time: the one found on disk, or a blank one where none was found.
pub open spec fn loaded_release(suite: Seq<u8>, disk: Seq<DiskFileView>) -> Result<
    ReleaseView,
    ReleaseFileRead,
> {
    match found_on(disk, release_path(suite)) {
        Some(text) => release_of_text(text),
        None => Ok(blank_release(suite)),
    }
}

/// The suites after one is opened for an architecture and a component:
/// its manifest is loaded where the suite is new, and both are registered
/// in it.
pub open spec fn with_suite(
    suites: Seq<SuiteView>,
    suite: Seq<u8>,
    component: Seq<u8>,
    arch: Seq<u8>,
    disk: Seq<DiskFileView>,
) -> Result<Seq<SuiteView>, ReleaseFileRead> {
    let p = slot::<SuiteEntry>(suites, suite_probe(suite));
    if holds::<SuiteEntry>(suites, suite_probe(suite)) {
        Ok(
            suites.update(
                p,
                SuiteView { release: registered(suites[p].release, arch, component), ..suites[p] },
            ),
        )
    } else {
        match loaded_release(suite, disk) {
            Err(e) => Err(e),
            Ok(r) => Ok(
                suites.insert(p, SuiteView { name: suite, release: registered(r, arch, component) }),
            ),
        }
    }
}

/// The buckets that an index starts from when it is opened for the first
/// time: those found on disk, or none where no index file was found.
pub open spec fn loaded_index(
    suite: Seq<u8>,
    component: Seq<u8>,
    arch: Seq<u8>,
    disk: Seq<DiskFileView>,
) -> Result<Seq<BucketView>, PackagesRead> {
    match found_on(disk, packages_path(suite, component, arch)) {
        Some(text) => index_of_text(text),
        None => Ok(Seq::empty()),
    }
}

/// The indices after one is opened: it is loaded where it is new, and it
/// is given the limit in either case.
pub open spec fn with_index(
    entries: Seq<IndexEntryView>,
    suite: Seq<u8>,
    component: Seq<u8>,
    arch: Seq<u8>,
    limit: Option<usize>,
    disk: Seq<DiskFileView>,
) -> Result<Seq<IndexEntryView>, PackagesRead> {
    let probe = index_probe(suite, component, arch);
    if holds::<IndexEntry>(entries, probe) {
        let p = slot::<IndexEntry>(entries, probe);
        Ok(
            entries.update(
                p,
                IndexEntryView { index: IndexView { limit, ..entries[p].index }, ..entries[p] },
            ),
        )
    } else {
        match loaded_index(suite, component, arch, disk) {
            Err(e) => Err(e),
            Ok(packages) => Ok(
                entries.insert(
                    slot::<IndexEntry>(entries, probe),
                    IndexEntryView { suite, component, arch, index: IndexView { packages, limit } },
                ),
            ),
        }
    }
}

/// The files after the file of a package is recorded: as they are where
/// the file is known; else with the file's place in the pool, its digest
/// and its size.
pub open spec fn with_file(
    files: Seq<FileInfoView>,
    name: Seq<u8>,
    source: Seq<u8>,
    disk: Seq<DiskFileView>,
) -> Seq<FileInfoView> {
    if holds::<FileInfo>(files, file_probe(source)) {
        files
    } else {
        match found_on(disk, source) {
            Some(contents) => files.insert(
                slot::<FileInfo>(files, file_probe(source)),
                FileInfoView {
                    source,
                    path: pool_path(name, source),
                    sha256: sha256_hex(contents),
                    size: contents.len() as u64,
                },
            ),
            None => files,
        }
    }
}

/// The package that the index takes from a package's metadata and what is
/// known of its file.
pub open spec fn package_of_meta(meta: PackageMetaView, file: FileInfoView) -> PackageView {
    PackageView {
        name: meta.name,
        version: meta.version,
        architecture: meta.arch,
        filename: file.path,
        size: file.size,
        sha256: file.sha256,
        metadata: meta.info,
    }
}

/// A handle on one index of a repository, as `open` gives it.
#[derive(Debug)]
pub struct Component {
    pub suite: Vec<u8>,
    pub component: Vec<u8>,
    pub arch: Vec<u8>,
}

impl Component {
    /// The entry that the handle's index is looked up by.
    pub open spec fn probe(&self) -> IndexEntryView {
        index_probe(self.suite@, self.component@, self.arch@)
    }
}

/// The slot of a suite depends on its name alone.
pub proof fn lemma_slot_of_suite(s: Seq<SuiteView>, x: SuiteView, y: SuiteView)
    requires
        x.name == y.name,
    ensures
        slot::<SuiteEntry>(s, x) == slot::<SuiteEntry>(s, y),
        holds::<SuiteEntry>(s, x) == holds::<SuiteEntry>(s, y),
    decreases s.len(),
{
    if s.len() == 0 || SuiteEntry::rank(s[0], x) != Order::Less {
    } else {
        lemma_slot_of_suite(s.drop_first(), x, y);
    }
    lemma_slot_bounds::<SuiteEntry>(s, x);
}

/// The slot of an index depends on its suite, component and architecture
/// alone.
pub proof fn lemma_slot_of_index(s: Seq<IndexEntryView>, x: IndexEntryView, y: IndexEntryView)
    requires
        x.suite == y.suite,
        x.component == y.component,
        x.arch == y.arch,
    ensures
        slot::<IndexEntry>(s, x) == slot::<IndexEntry>(s, y),
        holds::<IndexEntry>(s, x) == holds::<IndexEntry>(s, y),
    decreases s.len(),
{
    if s.len() == 0 || IndexEntry::rank(s[0], x) != Order::Less {
    } else {
        lemma_slot_of_index(s.drop_first(), x, y);
    }
    lemma_slot_bounds::<IndexEntry>(s, x);
}

/// The slot of a file depends on the path it comes from alone.
pub proof fn lemma_slot_of_file(s: Seq<FileInfoView>, x: FileInfoView, y: FileInfoView)
    requires
        x.source == y.source,
    ensures
        slot::<FileInfo>(s, x) == slot::<FileInfo>(s, y),
        holds::<FileInfo>(s, x) == holds::<FileInfo>(s, y),
    decreases s.len(),
{
    if s.len() == 0 || FileInfo::rank(s[0], x) != Order::Less {
    } else {
        lemma_slot_of_file(s.drop_first(), x, y);
    }
    lemma_slot_bounds::<FileInfo>(s, x);
}

/// A suite that is held stays held when a suite is put in or a manifest
/// changes.
pub proof fn lemma_suite_stays(before: Seq<SuiteView>, after: Seq<SuiteView>, name: Seq<u8>)
    requires
        ascending::<SuiteEntry>(before),
        ascending::<SuiteEntry>(after),
        holds::<SuiteEntry>(before, suite_probe(name)),
        forall|i: int|
            0 <= i < before.len() ==> exists|j: int|
                0 <= j < after.len() && (#[trigger] after[j]).name == (#[trigger] before[i]).name,
    ensures
        holds::<SuiteEntry>(after, suite_probe(name)),
{
    let probe = suite_probe(name);
    let p = slot::<SuiteEntry>(before, probe);
    lemma_slot_bounds::<SuiteEntry>(before, probe);
    lemma_lex_equal(before[p].name, name);
    let j = choose|j: int| 0 <= j < after.len() && (#[trigger] after[j]).name == before[p].name;
    lemma_lex_equal(after[j].name, name);
    assert forall|i: int| 0 <= i < j implies #[trigger] SuiteEntry::rank(after[i], probe)
        == Order::Less by {
        assert(SuiteEntry::rank(after[i], after[j]) == Order::Less);
    }
    lemma_slot_unique::<SuiteEntry>(after, probe, j);
}

/// What opening an index makes of a repository, and the error that
/// ends it, if any.
///
/// The suite and the component must be configured.  The suite's manifest
/// is loaded where the suite is new, and the architecture and component
/// are registered in it; then the index is loaded where it is new, and is
/// given the configured limit.  An error leaves what was done before it.
pub open spec fn opened(
    before: RepositoryView,
    suite: Option<Seq<u8>>,
    component: Option<Seq<u8>>,
    limit: Option<usize>,
    arch: Seq<u8>,
    disk: Seq<DiskFileView>,
) -> (RepositoryView, Option<RepositoryErrorView>) {
    if suite.is_none() {
        (before, Some(RepositoryErrorView::Config(ConfigFault::SuiteMissing)))
    } else if component.is_none() {
        (before, Some(RepositoryErrorView::Config(ConfigFault::ComponentMissing)))
    } else {
        let s = suite.unwrap();
        let c = component.unwrap();
        match with_suite(before.suites, s, c, arch, disk) {
            Err(e) => (before, Some(RepositoryErrorView::Release(release_path(s), e))),
            Ok(suites) => match with_index(before.components, s, c, arch, limit, disk) {
                Err(e) => (
                    RepositoryView { suites, ..before },
                    Some(RepositoryErrorView::Packages(packages_path(s, c, arch), e)),
                ),
                Ok(components) => (RepositoryView { suites, components, files: before.files }, None),
            },
        }
    }
}

/// The view of an optional text.
pub open spec fn optional_text(t: Option<Vec<u8>>) -> Option<Seq<u8>> {
    match t {
        Some(v) => Some(v@),
        None => None,
    }
}

impl Repository {
    /// The repository is well formed.
    pub open spec fn wf(&self) -> bool {
        repository_wf(self@)
    }

    /// A repository of which nothing is loaded yet.
    pub fn new() -> (r: Repository)
        ensures
            r.wf(),
            r@.suites.len() == 0,
            r@.components.len() == 0,
            r@.files.len() == 0,
    {
        Repository { suites: Vec::new(), components: Vec::new(), files: Vec::new() }
    }

    /// Whether the suite is loaded.
    pub fn has_suite(&self, suite: &[u8]) -> (r: bool)
        requires
            self.wf(),
        ensures
            r == holds::<SuiteEntry>(self@.suites, suite_probe(suite@)),
    {
        let probe = SuiteEntry { name: copy_bytes(suite), release: Release::new(Vec::new()) };
        let (_, found) = locate(&self.suites, &probe);
        found
    }

    /// Whether the index of the suite, component and architecture is
    /// loaded.
    pub fn has_index(&self, suite: &[u8], component: &[u8], arch: &[u8]) -> (r: bool)
        requires
            self.wf(),
        ensures
            r == holds::<IndexEntry>(self@.components, index_probe(suite@, component@, arch@)),
    {
        let probe = IndexEntry {
            suite: copy_bytes(suite),
            component: copy_bytes(component),
            arch: copy_bytes(arch),
            index: Index::new(),
        };
        let (_, found) = locate(&self.components, &probe);
        found
    }

    /// Whether the file that comes from the given path is known.
    pub fn has_file(&self, source: &[u8]) -> (r: bool)
        requires
            self.wf(),
        ensures
            r == holds::<FileInfo>(self@.files, file_probe(source@)),
    {
        let probe = FileInfo {
            source: copy_bytes(source),
            path: Vec::new(),
            sha256: Vec::new(),
            size: 0,
        };
        let (_, found) = locate(&self.files, &probe);
        found
    }

    /// Opens the suite for the architecture and component, as `with_suite`
    /// says.
    #[verifier::rlimit(60)]
    #[verifier::spinoff_prover]
    fn open_suite(&mut self, suite: &[u8], component: &[u8], arch: &[u8], disk: &Disk) -> (r:
        Result<(), ReleaseFileRead>)
        requires
            old(self).wf(),
        ensures
            final(self).wf(),
            final(self)@.components == old(self)@.components,
            final(self)@.files == old(self)@.files,
            match r {
                Ok(()) => with_suite(old(self)@.suites, suite@, component@, arch@, disk@) == Ok::<
                    Seq<SuiteView>,
                    ReleaseFileRead,
                >(final(self)@.suites) && holds::<SuiteEntry>(
                    final(self)@.suites,
                    suite_probe(suite@),
                ),
                Err(e) => with_suite(old(self)@.suites, suite@, component@, arch@, disk@) == Err::<
                    Seq<SuiteView>,
                    ReleaseFileRead,
                >(e) && final(self)@ == old(self)@,
            },
    {
        let ghost before = self@.suites;
        let ghost before_vec = self.suites;
        let probe = SuiteEntry { name: copy_bytes(suite), release: Release::new(Vec::new()) };
        proof {
            assert(probe@ == suite_probe(suite@));
            lemma_slot_bounds::<SuiteEntry>(before, probe@);
            lemma_lex_equal(suite@, suite@);
        }
        let (p, found) = locate(&self.suites, &probe);
        if found {
            insert_name(&mut self.suites[p].release.architectures, copy_bytes(arch));
            insert_name(&mut self.suites[p].release.components, copy_bytes(component));
            proof {
                let after = self@.suites;
                let entry = SuiteView {
                    release: registered(before[p as int].release, arch@, component@),
                    ..before[p as int]
                };
                assert(self.suites@[p as int]@ == entry);
                assert(after =~= before.update(p as int, entry));
                assert forall|i: int, j: int| 0 <= i < j < after.len() implies SuiteEntry::rank(
                    #[trigger] after[i],
                    #[trigger] after[j],
                ) == Order::Less by {
                    assert(SuiteEntry::rank(before[i], before[j]) == Order::Less);
                }
                assert forall|i: int| 0 <= i < after.len() implies release_wf(
                    (#[trigger] after[i]).release,
                ) by {
                    assert(release_wf(before[i].release));
                }
                assert forall|i: int| 0 <= i < before.len() implies exists|j: int|
                    0 <= j < after.len() && (#[trigger] after[j]).name == (
                    #[trigger] before[i]).name by {
                    assert(after[i].name == before[i].name);
                }
                assert forall|i: int| 0 <= i < self@.components.len() implies holds::<SuiteEntry>(
                    after,
                    suite_probe((#[trigger] self@.components[i]).suite),
                ) by {
                    lemma_suite_stays(before, after, self@.components[i].suite);
                }
                lemma_suite_stays(before, after, suite@);
            }
            Ok(())
        } else {
            let path = release_file(suite);
            let mut release = match disk.get(path.as_slice()) {
                Some(text) => match Release::read(text.as_slice()) {
                    Ok(r) => r,
                    Err(e) => {
                        return Err(e);
                    },
                },
                None => Release::new(copy_bytes(suite)),
            };
            insert_name(&mut release.architectures, copy_bytes(arch));
            insert_name(&mut release.components, copy_bytes(component));
            let entry = SuiteEntry { name: probe.name, release };
            self.suites.insert(p, entry);
            proof {
                let after = self@.suites;
                lemma_deep_insert(before_vec, self.suites, p as int, entry);
                lemma_slot_of_suite(before, entry@, suite_probe(suite@));
                lemma_insert_ascending::<SuiteEntry>(before, entry@);
                assert forall|i: int| 0 <= i < after.len() implies release_wf(
                    (#[trigger] after[i]).release,
                ) by {
                    if i < p {
                        assert(after[i] == before[i]);
                    } else if i > p {
                        assert(after[i] == before[i - 1]);
                    }
                }
                assert forall|i: int| 0 <= i < before.len() implies exists|j: int|
                    0 <= j < after.len() && (#[trigger] after[j]).name == (
                    #[trigger] before[i]).name by {
                    if i < p {
                        assert(after[i].name == before[i].name);
                    } else {
                        assert(after[i + 1].name == before[i].name);
                    }
                }
                assert forall|i: int| 0 <= i < self@.components.len() implies holds::<SuiteEntry>(
                    after,
                    suite_probe((#[trigger] self@.components[i]).suite),
                ) by {
                    lemma_suite_stays(before, after, self@.components[i].suite);
                }
                assert forall|i: int| 0 <= i < p implies #[trigger] SuiteEntry::rank(
                    after[i],
                    suite_probe(suite@),
                ) == Order::Less by {
                    assert(after[i] == before[i]);
                }
                lemma_slot_unique::<SuiteEntry>(after, suite_probe(suite@), p as int);
            }
            Ok(())
        }
    }

    /// Opens the index of the suite, component and architecture, as
    /// `with_index` says.
    fn open_index(
        &mut self,
        suite: &[u8],
        component: &[u8],
        arch: &[u8],
        limit: Option<usize>,
        disk: &Disk,
    ) -> (r: Result<(), PackagesRead>)
        requires
            old(self).wf(),
            holds::<SuiteEntry>(old(self)@.suites, suite_probe(suite@)),
        ensures
            final(self).wf(),
            final(self)@.suites == old(self)@.suites,
            final(self)@.files == old(self)@.files,
            match r {
                Ok(()) => with_index(
                    old(self)@.components,
                    suite@,
                    component@,
                    arch@,
                    limit,
                    disk@,
                ) == Ok::<Seq<IndexEntryView>, PackagesRead>(final(self)@.components),
                Err(e) => with_index(
                    old(self)@.components,
                    suite@,
                    component@,
                    arch@,
                    limit,
                    disk@,
                ) == Err::<Seq<IndexEntryView>, PackagesRead>(e) && final(self)@ == old(self)@,
            },
    {
        let ghost before = self@.components;
        let ghost before_vec = self.components;
        let mut probe = IndexEntry {
            suite: copy_bytes(suite),
            component: copy_bytes(component),
            arch: copy_bytes(arch),
            index: Index::new(),
        };
        proof {
            assert(probe@ == index_probe(suite@, component@, arch@));
            lemma_slot_bounds::<IndexEntry>(before, probe@);
        }
        let (p, found) = locate(&self.components, &probe);
        if found {
            self.components[p].index.limit = limit;
            proof {
                let after = self@.components;
                let entry = IndexEntryView {
                    index: IndexView { limit, ..before[p as int].index },
                    ..before[p as int]
                };
                assert(before_vec@[p as int]@ == before[p as int]);
                assert(self.components@[p as int]@ == entry);
                assert forall|i: int| 0 <= i < after.len() && i != p implies #[trigger] after[i]
                    == before[i] by {
                    assert(self.components@[i] == before_vec@[i]);
                }
                assert(after =~= before.update(p as int, entry));
                assert forall|i: int, j: int| 0 <= i < j < after.len() implies IndexEntry::rank(
                    #[trigger] after[i],
                    #[trigger] after[j],
                ) == Order::Less by {
                    assert(IndexEntry::rank(before[i], before[j]) == Order::Less);
                }
                assert forall|i: int| 0 <= i < after.len() implies buckets_wf(
                    (#[trigger] after[i]).index.packages,
                ) && holds::<SuiteEntry>(self@.suites, suite_probe(after[i].suite)) by {
                    assert(buckets_wf(before[i].index.packages));
                    assert(after[i].suite == before[i].suite);
                }
            }
            return Ok(());
        }
        let path = packages_file(suite, component, arch);
        let mut index = match disk.get(path.as_slice()) {
            Some(text) => match Index::read(text.as_slice()) {
                Ok(index) => index,
                Err(e) => {
                    return Err(e);
                },
            },
            None => Index::new(),
        };
        index.limit = limit;
        probe.index = index;
        self.components.insert(p, probe);
        proof {
            let after = self@.components;
            lemma_deep_insert(before_vec, self.components, p as int, probe);
            lemma_slot_of_index(before, probe@, index_probe(suite@, component@, arch@));
            lemma_insert_ascending::<IndexEntry>(before, probe@);
            assert forall|i: int| 0 <= i < after.len() implies buckets_wf(
                (#[trigger] after[i]).index.packages,
            ) && holds::<SuiteEntry>(self@.suites, suite_probe(after[i].suite)) by {
                if i < p {
                    assert(after[i] == before[i]);
                } else if i > p {
                    assert(after[i] == before[i - 1]);
                }
            }
        }
        Ok(())
    }

    /// Opens the index of a configured repository for an architecture.
    ///
    /// `disk` holds the manifest and the index file as they were found,
    /// where they exist; they are consulted where the suite or the index
    /// is opened for the first time.
    pub fn open(&mut self, repo: &config::Repository, arch: &[u8], disk: &Disk) -> (r: Result<
        Component,
        RepositoryError,
    >)
        requires
            old(self).wf(),
        ensures
            final(self).wf(),
            final(self)@ == opened(
                old(self)@,
                optional_text(repo.suite),
                optional_text(repo.component),
                repo.keep_releases,
                arch@,
                disk@,
            ).0,
            match r {
                Ok(c) => opened(
                    old(self)@,
                    optional_text(repo.suite),
                    optional_text(repo.component),
                    repo.keep_releases,
                    arch@,
                    disk@,
                ).1.is_none() && optional_text(repo.suite) == Some(c.suite@) && optional_text(
                    repo.component,
                ) == Some(c.component@) && c.arch@ == arch@ && holds::<IndexEntry>(
                    final(self)@.components,
                    c.probe(),
                ),
                Err(e) => opened(
                    old(self)@,
                    optional_text(repo.suite),
                    optional_text(repo.component),
                    repo.keep_releases,
                    arch@,
                    disk@,
                ).1 == Some(e@),
            },
    {
        let suite = match &repo.suite {
            Some(s) => s,
            None => {
                return Err(RepositoryError::Config(ConfigFault::SuiteMissing));
            },
        };
        let component = match &repo.component {
            Some(c) => c,
            None => {
                return Err(RepositoryError::Config(ConfigFault::ComponentMissing));
            },
        };
        match self.open_suite(suite.as_slice(), component.as_slice(), arch, disk) {
            Ok(()) => {},
            Err(e) => {
                return Err(RepositoryError::Release(release_file(suite.as_slice()), e));
            },
        }
        let ghost mid = self@.components;
        match self.open_index(
            suite.as_slice(),
            component.as_slice(),
            arch,
            repo.keep_releases,
            disk,
        ) {
            Ok(()) => {},
            Err(e) => {
                return Err(
                    RepositoryError::Packages(
                        packages_file(suite.as_slice(), component.as_slice(), arch),
                        e,
                    ),
                );
            },
        }
        let c = Component {
            suite: copy_bytes(suite.as_slice()),
            component: copy_bytes(component.as_slice()),
            arch: copy_bytes(arch),
        };
        proof {
            let probe = index_probe(suite@, component@, arch@);
            let after = self@.components;
            lemma_slot_bounds::<IndexEntry>(mid, probe);
            if !holds::<IndexEntry>(mid, probe) {
                let p = slot::<IndexEntry>(mid, probe);
                lemma_lex_equal(suite@, suite@);
                lemma_lex_equal(component@, component@);
                lemma_lex_equal(arch@, arch@);
                assert forall|i: int| 0 <= i < p implies #[trigger] IndexEntry::rank(
                    after[i],
                    probe,
                ) == Order::Less by {
                    assert(after[i] == mid[i]);
                }
                lemma_slot_unique::<IndexEntry>(after, probe, p);
            } else {
                let p = slot::<IndexEntry>(mid, probe);
                crate::order::lemma_slot_after_update::<IndexEntry>(mid, p, after[p], probe);
            }
        }
        Ok(c)
    }
}

/// What is known of the file of a package once the package is added.
pub open spec fn file_of(
    files: Seq<FileInfoView>,
    meta: PackageMetaView,
    disk: Seq<DiskFileView>,
) -> FileInfoView {
    let after = with_file(files, meta.name, meta.filename, disk);
    after[slot::<FileInfo>(after, file_probe(meta.filename))]
}

/// The package that adding a package's metadata puts into the index.
pub open spec fn admitted(
    files: Seq<FileInfoView>,
    meta: PackageMetaView,
    disk: Seq<DiskFileView>,
) -> PackageView {
    package_of_meta(meta, file_of(files, meta, disk))
}

/// The indices with the package stored in the one that `probe` names.
pub open spec fn with_package(
    entries: Seq<IndexEntryView>,
    probe: IndexEntryView,
    pkg: PackageView,
    replace: bool,
) -> Seq<IndexEntryView> {
    let q = slot::<IndexEntry>(entries, probe);
    entries.update(
        q,
        IndexEntryView {
            index: IndexView {
                packages: stored(entries[q].index.packages, pkg, replace),
                ..entries[q].index
            },
            ..entries[q]
        },
    )
}

/// Whether the index that `probe` names holds the package already.
pub open spec fn index_conflicts(
    entries: Seq<IndexEntryView>,
    probe: IndexEntryView,
    pkg: PackageView,
) -> bool {
    conflicts(entries[slot::<IndexEntry>(entries, probe)].index.packages, pkg)
}

/// The indices with each cut down to the greatest versions that its limit
/// allows.
pub open spec fn trimmed_indices(entries: Seq<IndexEntryView>) -> Seq<IndexEntryView> {
    Seq::new(
        entries.len(),
        |i: int|
            IndexEntryView {
                index: IndexView {
                    packages: match entries[i].index.limit {
                        Some(limit) => trimmed_buckets(entries[i].index.packages, limit as nat),
                        None => entries[i].index.packages,
                    },
                    ..entries[i].index
                },
                ..entries[i]
            },
    )
}

impl Component {
    /// Adds a package to the handle's index.
    ///
    /// What is known of the package's file is recorded first, once for
    /// each path: its place in the pool, its digest and its size, from what
    /// `disk` holds under the path.  Then the package is stored in the
    /// index, and the policy decides where its version is there already.
    pub fn add_package(
        &self,
        repo: &mut Repository,
        pack: &PackageMeta,
        disk: &Disk,
        on_conflict: ConflictResolution,
    ) -> (r: Result<(), RepositoryError>)
        requires
            old(repo).wf(),
            pack.wf(),
            holds::<IndexEntry>(old(repo)@.components, self.probe()),
            has_file_name(pack@.filename),
            holds::<FileInfo>(old(repo)@.files, file_probe(pack@.filename)) || found_on(
                disk@,
                pack@.filename,
            ).is_some(),
        ensures
            final(repo).wf(),
            final(repo)@.suites == old(repo)@.suites,
            final(repo)@.files == with_file(
                old(repo)@.files,
                pack@.name,
                pack@.filename,
                disk@,
            ),
            final(repo)@.components == with_package(
                old(repo)@.components,
                self.probe(),
                admitted(old(repo)@.files, pack@, disk@),
                on_conflict == ConflictResolution::Replace,
            ),
            match r {
                Ok(()) => !(index_conflicts(
                    old(repo)@.components,
                    self.probe(),
                    admitted(old(repo)@.files, pack@, disk@),
                ) && on_conflict == ConflictResolution::Error),
                Err(e) => index_conflicts(
                    old(repo)@.components,
                    self.probe(),
                    admitted(old(repo)@.files, pack@, disk@),
                ) && on_conflict == ConflictResolution::Error && e@
                    == RepositoryErrorView::PackageConflict(
                    admitted(old(repo)@.files, pack@, disk@),
                ),
            },
    {
        let ghost files0 = repo@.files;
        let ghost files_vec = repo.files;
        let ghost entries0 = repo@.components;
        let probe_file = FileInfo {
            source: copy_bytes(pack.filename.as_slice()),
            path: Vec::new(),
            sha256: Vec::new(),
            size: 0,
        };
        proof {
            assert(probe_file@ == file_probe(pack@.filename));
            lemma_slot_bounds::<FileInfo>(files0, probe_file@);
            lemma_lex_equal(pack@.filename, pack@.filename);
        }
        let (fp, known) = locate(&repo.files, &probe_file);
        if !known {
            let contents = disk.get(pack.filename.as_slice()).unwrap();
            let info = FileInfo {
                source: probe_file.source,
                path: pool_file(pack.name.as_slice(), pack.filename.as_slice()),
                sha256: hash_file(contents.as_slice()),
                size: contents.len() as u64,
            };
            repo.files.insert(fp, info);
            proof {
                lemma_deep_insert(files_vec, repo.files, fp as int, info);
                lemma_slot_of_file(files0, info@, file_probe(pack@.filename));
                lemma_insert_ascending::<FileInfo>(files0, info@);
                let after = repo@.files;
                assert forall|i: int| 0 <= i < fp implies #[trigger] FileInfo::rank(
                    after[i],
                    file_probe(pack@.filename),
                ) == Order::Less by {
                    assert(after[i] == files0[i]);
                }
                lemma_slot_unique::<FileInfo>(after, file_probe(pack@.filename), fp as int);
            }
        }
        let info = &repo.files[fp];
        let pkg = Package {
            name: copy_bytes(pack.name.as_slice()),
            version: Version(copy_bytes(pack.version.as_slice())),
            architecture: copy_bytes(pack.arch.as_slice()),
            filename: copy_bytes(info.path.as_slice()),
            size: info.size,
            sha256: copy_bytes(info.sha256.as_slice()),
            metadata: pack.info.duplicate(),
        };
        proof {
            assert(pkg@ == admitted(files0, pack@, disk@));
        }
        let probe = IndexEntry {
            suite: copy_bytes(self.suite.as_slice()),
            component: copy_bytes(self.component.as_slice()),
            arch: copy_bytes(self.arch.as_slice()),
            index: Index::new(),
        };
        proof {
            assert(probe@ == self.probe());
            lemma_slot_bounds::<IndexEntry>(entries0, probe@);
        }
        let (q, _) = locate(&repo.components, &probe);
        let ghost pv = pkg@;
        let stored = repo.components[q].index.store(pkg, on_conflict);
        proof {
            let after = repo@.components;
            assert(after =~= with_package(
                entries0,
                self.probe(),
                pv,
                on_conflict == ConflictResolution::Replace,
            ));
            assert forall|i: int, j: int| 0 <= i < j < after.len() implies IndexEntry::rank(
                #[trigger] after[i],
                #[trigger] after[j],
            ) == Order::Less by {
                assert(IndexEntry::rank(entries0[i], entries0[j]) == Order::Less);
            }
            assert forall|i: int| 0 <= i < after.len() implies buckets_wf(
                (#[trigger] after[i]).index.packages,
            ) && holds::<SuiteEntry>(repo@.suites, suite_probe(after[i].suite)) by {
                if i != q {
                    assert(after[i] == entries0[i]);
                } else {
                    assert(after[i].suite == entries0[i].suite);
                }
            }
        }
        match stored {
            Ok(()) => Ok(()),
            Err(p) => Err(RepositoryError::PackageConflict(p)),
        }
    }
}

impl Repository {
    /// Cuts every index down to the greatest versions that its limit
    /// allows.
    pub fn trim(&mut self)
        requires
            old(self).wf(),
        ensures
            final(self).wf(),
            final(self)@.suites == old(self)@.suites,
            final(self)@.files == old(self)@.files,
            final(self)@.components == trimmed_indices(old(self)@.components),
    {
        let ghost entries = self@.components;
        let mut i: usize = 0;
        while i < self.components.len()
            invariant
                0 <= i <= self.components.len(),
                entries == old(self)@.components,
                self@.suites == old(self)@.suites,
                self@.files == old(self)@.files,
                self@.components.len() == entries.len(),
                forall|k: int|
                    0 <= k < entries.len() ==> buckets_wf(
                        (#[trigger] self@.components[k]).index.packages,
                    ),
                forall|k: int|
                    0 <= k < i ==> #[trigger] self@.components[k] == trimmed_indices(entries)[k],
                forall|k: int| i <= k < entries.len() ==> #[trigger] self@.components[k] == entries[k],
            decreases self.components.len() - i,
        {
            let ghost prev = self.components;
            proof {
                assert(self@.components[i as int] == self.components@[i as int]@);
                assert(buckets_wf(self@.components[i as int].index.packages));
            }
            self.components[i].index.trim();
            proof {
                assert(self.components@.len() == prev@.len());
                assert forall|k: int| 0 <= k < prev@.len() && k != i implies 
                    #[trigger] self@.components[k] == prev.deep_view()[k] by {
                    assert(self.components@[k] == prev@[k]);
                }
                assert(self.components@[i as int].suite == prev@[i as int].suite);
                assert(self.components@[i as int].component == prev@[i as int].component);
                assert(self.components@[i as int].arch == prev@[i as int].arch);
                assert(prev.deep_view()[i as int] == entries[i as int]);
                assert(self@.components[i as int] == trimmed_indices(entries)[i as int]);
            }
            i += 1;
        }
        proof {
            let after = self@.components;
            assert(after =~= trimmed_indices(entries));
            assert forall|a: int, b: int| 0 <= a < b < after.len() implies IndexEntry::rank(
                #[trigger] after[a],
                #[trigger] after[b],
            ) == Order::Less by {
                assert(IndexEntry::rank(entries[a], entries[b]) == Order::Less);
            }
            assert forall|k: int| 0 <= k < after.len() implies holds::<SuiteEntry>(
                self@.suites,
                suite_probe((#[trigger] after[k]).suite),
            ) by {
                assert(after[k].suite == entries[k].suite);
            }
        }
    }
}

} // verus!
