//! Publishing a repository: every file is first written beside its place,
//! under a temporary name, and only then is each put in place.

use vstd::prelude::*;
use crate::hash_file::{hash_file, sha256_hex};
use crate::order::{
    ascending, holds, lemma_insert_ascending, lemma_slot_after_insert, lemma_slot_after_update,
    lemma_slot_bounds, lemma_slot_unique, lemma_update_ascending, locate, slot, Order, Ranked,
};
use crate::repo::debian::{index_text, Index};
use crate::repo::paths::{
    listed_file, listed_path, packages_dir, packages_directory, packages_file, packages_path,
    parent, parent_dir, release_file, release_path, temporary, temporary_file,
};
use crate::repo::release::{
    insert_checksum, release_text, release_wf, with_checksum, Checksum, ChecksumView, Release,
    ReleaseView,
};
use crate::repo::repository::{
    repository_wf, suite_probe, trimmed_indices, FileInfo, FileInfoView,
    IndexEntry, IndexEntryView, Repository, RepositoryView, SuiteEntry, SuiteView,
};
use crate::text::{copy_bytes, lemma_lex_equal};

verus! {

/// One step of publishing, on paths from the repository's root.
#[derive(Debug)]
pub enum Step {
    /// Make the directory, and those above it, where they are missing.
    CreateDir(Vec<u8>),
    /// Write the bytes to the file.
    WriteFile(Vec<u8>, Vec<u8>),
    /// Copy the first file, whose path is as it was given, to the second.
    CopyFile(Vec<u8>, Vec<u8>),
    /// Put the first file in the place of the second.
    Rename(Vec<u8>, Vec<u8>),
}

/// What a step holds.
pub enum StepView {
    CreateDir(Seq<u8>),
    WriteFile(Seq<u8>, Seq<u8>),
    CopyFile(Seq<u8>, Seq<u8>),
    Rename(Seq<u8>, Seq<u8>),
}

impl View for Step {
    type V = StepView;

    open spec fn view(&self) -> StepView {
        match self {
            Step::CreateDir(p) => StepView::CreateDir(p@),
            Step::WriteFile(p, d) => StepView::WriteFile(p@, d@),
            Step::CopyFile(a, b) => StepView::CopyFile(a@, b@),
            Step::Rename(a, b) => StepView::Rename(a@, b@),
        }
    }
}

impl DeepView for Step {
    type V = StepView;

    open spec fn deep_view(&self) -> StepView {
        self@
    }
}

/// The checksum that a suite's manifest lists for an index.
pub open spec fn index_checksum(e: IndexEntryView) -> ChecksumView {
    ChecksumView {
        path: listed_path(e.component, e.arch),
        size: index_text(e.index.packages).len() as u64,
        hash: sha256_hex(index_text(e.index.packages)),
    }
}

/// The suites with the checksum of an index recorded in the manifest of
/// its suite.
pub open spec fn with_sum(suites: Seq<SuiteView>, e: IndexEntryView) -> Seq<SuiteView> {
    let p = slot::<SuiteEntry>(suites, suite_probe(e.suite));
    suites.update(
        p,
        SuiteView {
            release: ReleaseView {
                sha256: with_checksum(suites[p].release.sha256, index_checksum(e)),
                ..suites[p].release
            },
            ..suites[p]
        },
    )
}

/// The suites with the checksums of all the indices recorded.
pub open spec fn with_sums(suites: Seq<SuiteView>, entries: Seq<IndexEntryView>) -> Seq<SuiteView>
    decreases entries.len(),
{
    if entries.len() == 0 {
        suites
    } else {
        with_sum(with_sums(suites, entries.drop_last()), entries.last())
    }
}

/// Staging the indices: for each its directory, and its file under a
/// temporary name.
pub open spec fn index_stage(entries: Seq<IndexEntryView>) -> Seq<StepView>
    decreases entries.len(),
{
    if entries.len() == 0 {
        Seq::empty()
    } else {
        let e = entries.last();
        index_stage(entries.drop_last()) + seq![
            StepView::CreateDir(packages_dir(e.suite, e.component, e.arch)),
            StepView::WriteFile(
                temporary(packages_path(e.suite, e.component, e.arch)),
                index_text(e.index.packages),
            ),
        ]
    }
}

/// Putting the indices in place.
pub open spec fn index_renames(entries: Seq<IndexEntryView>) -> Seq<StepView>
    decreases entries.len(),
{
    if entries.len() == 0 {
        Seq::empty()
    } else {
        let e = entries.last();
        index_renames(entries.drop_last()).push(
            StepView::Rename(
                temporary(packages_path(e.suite, e.component, e.arch)),
                packages_path(e.suite, e.component, e.arch),
            ),
        )
    }
}

/// Staging the manifests, each in the directory of its suite and under a
/// temporary name.
pub open spec fn release_stage(suites: Seq<SuiteView>, date: Seq<u8>) -> Seq<StepView>
    decreases suites.len(),
{
    if suites.len() == 0 {
        Seq::empty()
    } else {
        let s = suites.last();
        release_stage(suites.drop_last(), date).push(
            StepView::WriteFile(
                temporary(release_path(s.name)),
                release_text(s.release, date),
            ),
        )
    }
}

/// Putting the manifests in place.
pub open spec fn release_renames(suites: Seq<SuiteView>) -> Seq<StepView>
    decreases suites.len(),
{
    if suites.len() == 0 {
        Seq::empty()
    } else {
        let s = suites.last();
        release_renames(suites.drop_last()).push(
            StepView::Rename(
                temporary(release_path(s.name)),
                release_path(s.name),
            ),
        )
    }
}

/// Staging the pool: for each file its directory, and a copy under a
/// temporary name.
pub open spec fn pool_stage(files: Seq<FileInfoView>) -> Seq<StepView>
    decreases files.len(),
{
    if files.len() == 0 {
        Seq::empty()
    } else {
        let f = files.last();
        pool_stage(files.drop_last()) + seq![
            StepView::CreateDir(parent(f.path)),
            StepView::CopyFile(f.source, temporary(f.path)),
        ]
    }
}

/// Putting the files of the pool in place.
pub open spec fn pool_renames(files: Seq<FileInfoView>) -> Seq<StepView>
    decreases files.len(),
{
    if files.len() == 0 {
        Seq::empty()
    } else {
        let f = files.last();
        pool_renames(files.drop_last()).push(StepView::Rename(temporary(f.path), f.path))
    }
}

/// The first part of publishing: everything is written under temporary
/// names.  The indices are trimmed first, and their checksums go into the
/// manifests.
pub open spec fn staging(r: RepositoryView, date: Seq<u8>) -> Seq<StepView> {
    let entries = trimmed_indices(r.components);
    index_stage(entries) + release_stage(with_sums(r.suites, entries), date) + pool_stage(r.files)
}

/// The second part of publishing: everything is put in place.
pub open spec fn placing(r: RepositoryView) -> Seq<StepView> {
    let entries = trimmed_indices(r.components);
    index_renames(entries) + release_renames(with_sums(r.suites, entries)) + pool_renames(r.files)
}

/// The steps that publish a repository; none where nothing was opened.
pub open spec fn planned(r: RepositoryView, date: Seq<u8>) -> Seq<StepView> {
    if r.suites.len() == 0 && r.components.len() == 0 {
        Seq::empty()
    } else {
        staging(r, date) + placing(r)
    }
}

/// Calls `time::now_utc` and formats what it returns with `Tm::rfc822z`.
/// Nothing is claimed of the result: it is the time of the call.
#[verifier::external_body]
fn now_rfc822z() -> (r: Vec<u8>) {
    format!("{}", time::now_utc().rfc822z()).into_bytes()
}

/// The suites as publishing may change them: ascending, with well-formed
/// manifests, and with the names they had.
spec fn suites_kept(before: Seq<SuiteView>, after: Seq<SuiteView>) -> bool {
    &&& after.len() == before.len()
    &&& ascending::<SuiteEntry>(after)
    &&& forall|i: int| 0 <= i < after.len() ==> (#[trigger] after[i]).name == before[i].name
    &&& forall|i: int| 0 <= i < after.len() ==> release_wf((#[trigger] after[i]).release)
}

/// The slot of a suite among suites depends on the names of the suites
/// alone.
proof fn lemma_slot_by_names(a: Seq<SuiteView>, b: Seq<SuiteView>, probe: SuiteView)
    requires
        a.len() == b.len(),
        forall|i: int| 0 <= i < a.len() ==> (#[trigger] a[i]).name == b[i].name,
    ensures
        slot::<SuiteEntry>(a, probe) == slot::<SuiteEntry>(b, probe),
        holds::<SuiteEntry>(a, probe) == holds::<SuiteEntry>(b, probe),
    decreases a.len(),
{
    if a.len() > 0 {
        assert(a[0].name == b[0].name);
        let ta = a.drop_first();
        let tb = b.drop_first();
        assert forall|i: int| 0 <= i < ta.len() implies (#[trigger] ta[i]).name == tb[i].name by {
            assert(a[i + 1].name == b[i + 1].name);
        }
        lemma_slot_by_names(ta, tb, probe);
        lemma_slot_bounds::<SuiteEntry>(a, probe);
        lemma_slot_bounds::<SuiteEntry>(b, probe);
        let p = slot::<SuiteEntry>(a, probe);
        if p < a.len() {
            assert(a[p].name == b[p].name);
        }
    }
}

/// Recording a checksum keeps the suites as publishing may change them.
proof fn lemma_with_sum_kept(before: Seq<SuiteView>, suites: Seq<SuiteView>, e: IndexEntryView)
    requires
        suites_kept(before, suites),
        holds::<SuiteEntry>(before, suite_probe(e.suite)),
    ensures
        suites_kept(before, with_sum(suites, e)),
        holds::<SuiteEntry>(suites, suite_probe(e.suite)),
{
    let probe = suite_probe(e.suite);
    lemma_slot_by_names(suites, before, probe);
    let p = slot::<SuiteEntry>(suites, probe);
    lemma_slot_bounds::<SuiteEntry>(suites, probe);
    let after = with_sum(suites, e);
    assert(ascending::<SuiteEntry>(after)) by {
        assert forall|i: int, j: int| 0 <= i < j < after.len() implies SuiteEntry::rank(
            #[trigger] after[i],
            #[trigger] after[j],
        ) == Order::Less by {
            assert(SuiteEntry::rank(suites[i], suites[j]) == Order::Less);
        }
    }
    let sums = suites[p].release.sha256;
    let c = index_checksum(e);
    assert(ascending::<Checksum>(with_checksum(sums, c))) by {
        assert(release_wf(suites[p].release));
        if holds::<Checksum>(sums, c) {
            lemma_update_ascending::<Checksum>(sums, c);
        } else {
            lemma_insert_ascending::<Checksum>(sums, c);
        }
    }
    assert forall|i: int| 0 <= i < after.len() implies release_wf((#[trigger] after[i]).release) by {
        assert(release_wf(suites[i].release));
        if i != p {
            assert(after[i] == suites[i]);
        }
    }
    assert forall|i: int| 0 <= i < after.len() implies (#[trigger] after[i]).name
        == before[i].name by {
        assert(suites[i].name == before[i].name);
    }
}

impl Repository {
    /// Stages the indices and records their checksums in the manifests.
    fn stage_indices(&mut self, writes: &mut Vec<Step>, renames: &mut Vec<Step>)
        requires
            old(self).wf(),
            old(writes)@.len() == 0,
            old(renames)@.len() == 0,
        ensures
            final(self)@.components == old(self)@.components,
            final(self)@.files == old(self)@.files,
            final(self)@.suites == with_sums(old(self)@.suites, old(self)@.components),
            final(writes).deep_view() == index_stage(old(self)@.components),
            final(renames).deep_view() == index_renames(old(self)@.components),
    {
        let ghost entries = self@.components;
        let ghost suites0 = self@.suites;
        let mut i: usize = 0;
        proof {
            assert(entries.subrange(0, 0) =~= Seq::<IndexEntryView>::empty());
            assert(writes.deep_view() =~= index_stage(entries.subrange(0, 0)));
            assert(renames.deep_view() =~= index_renames(entries.subrange(0, 0)));
        }
        while i < self.components.len()
            invariant
                0 <= i <= self.components.len(),
                entries == old(self)@.components,
                suites0 == old(self)@.suites,
                repository_wf(old(self)@),
                self@.components == entries,
                self@.files == old(self)@.files,
                suites_kept(suites0, self@.suites),
                self@.suites == with_sums(suites0, entries.subrange(0, i as int)),
                writes.deep_view() == index_stage(entries.subrange(0, i as int)),
                renames.deep_view() == index_renames(entries.subrange(0, i as int)),
            decreases self.components.len() - i,
        {
            let ghost e = entries[i as int];
            let ghost w0 = writes.deep_view();
            let ghost r0 = renames.deep_view();
            let ghost s0 = self@.suites;
            let ghost suites_vec = self.suites;
            proof {
                assert(self.components@[i as int]@ == e);
                lemma_with_sum_kept(suites0, s0, e);
            }
            let entry = &self.components[i];
            let dir = packages_directory(
                entry.suite.as_slice(),
                entry.component.as_slice(),
                entry.arch.as_slice(),
            );
            let place = packages_file(
                entry.suite.as_slice(),
                entry.component.as_slice(),
                entry.arch.as_slice(),
            );
            let tmp = temporary_file(place.as_slice());
            let tmp2 = temporary_file(place.as_slice());
            let mut buf: Vec<u8> = Vec::new();
            entry.index.output(&mut buf);
            proof {
                assert(buf@ =~= index_text(e.index.packages));
            }
            let sum = Checksum {
                path: listed_file(entry.component.as_slice(), entry.arch.as_slice()),
                size: buf.len() as u64,
                hash: hash_file(buf.as_slice()),
            };
            let probe = SuiteEntry {
                name: copy_bytes(entry.suite.as_slice()),
                release: Release::new(Vec::new()),
            };
            proof {
                assert(probe@ == suite_probe(e.suite));
                assert(sum@ == index_checksum(e));
            }
            let (p, _) = locate(&self.suites, &probe);
            proof {
                assert(release_wf(s0[p as int].release));
                assert(suites_vec@[p as int]@ == s0[p as int]);
            }
            insert_checksum(&mut self.suites[p].release.sha256, sum);
            writes.push(Step::CreateDir(dir));
            writes.push(Step::WriteFile(tmp, buf));
            renames.push(Step::Rename(tmp2, place));
            proof {
                let next = entries.subrange(0, i + 1);
                assert(next.drop_last() =~= entries.subrange(0, i as int));
                assert(next.last() == e);
                assert(self.suites@[p as int]@ == with_sum(s0, e)[p as int]);
                assert forall|k: int| 0 <= k < s0.len() && k != p implies 
                    #[trigger] self@.suites[k] == s0[k] by {
                    assert(self.suites@[k] == suites_vec@[k]);
                }
                assert(self@.suites =~= with_sum(s0, e));
                assert(writes.deep_view() =~= w0 + seq![
                    StepView::CreateDir(packages_dir(e.suite, e.component, e.arch)),
                    StepView::WriteFile(
                        temporary(packages_path(e.suite, e.component, e.arch)),
                        index_text(e.index.packages),
                    ),
                ]);
                assert(renames.deep_view() =~= r0.push(
                    StepView::Rename(
                        temporary(packages_path(e.suite, e.component, e.arch)),
                        packages_path(e.suite, e.component, e.arch),
                    ),
                ));
            }
            i += 1;
        }
        proof {
            assert(entries.subrange(0, entries.len() as int) =~= entries);
        }
    }

    /// Stages the manifests.
    fn stage_releases(&self, date: &[u8], writes: &mut Vec<Step>, renames: &mut Vec<Step>)
        ensures
            final(writes).deep_view() == old(writes).deep_view() + release_stage(
                self@.suites,
                date@,
            ),
            final(renames).deep_view() == old(renames).deep_view() + release_renames(self@.suites),
    {
        let ghost suites = self@.suites;
        let ghost w0 = writes.deep_view();
        let ghost r0 = renames.deep_view();
        let mut i: usize = 0;
        proof {
            assert(suites.subrange(0, 0) =~= Seq::<SuiteView>::empty());
            assert(writes.deep_view() =~= w0 + release_stage(suites.subrange(0, 0), date@));
            assert(renames.deep_view() =~= r0 + release_renames(suites.subrange(0, 0)));
        }
        while i < self.suites.len()
            invariant
                0 <= i <= self.suites.len(),
                suites == self@.suites,
                writes.deep_view() == w0 + release_stage(suites.subrange(0, i as int), date@),
                renames.deep_view() == r0 + release_renames(suites.subrange(0, i as int)),
            decreases self.suites.len() - i,
        {
            let ghost w1 = writes.deep_view();
            let ghost r1 = renames.deep_view();
            let suite = &self.suites[i];
            let place = release_file(suite.name.as_slice());
            let tmp = temporary_file(place.as_slice());
            let tmp2 = temporary_file(place.as_slice());
            let mut buf: Vec<u8> = Vec::new();
            suite.release.output(&mut buf, date);
            proof {
                assert(buf@ =~= release_text(suites[i as int].release, date@));
            }
            writes.push(Step::WriteFile(tmp, buf));
            renames.push(Step::Rename(tmp2, place));
            proof {
                let next = suites.subrange(0, i + 1);
                assert(next.drop_last() =~= suites.subrange(0, i as int));
                assert(next.last() == suites[i as int]);
                let s = suites[i as int];
                assert(writes.deep_view() =~= w1.push(
                    StepView::WriteFile(
                        temporary(release_path(s.name)),
                        release_text(s.release, date@),
                    ),
                ));
                assert(renames.deep_view() =~= r1.push(
                    StepView::Rename(
                        temporary(release_path(s.name)),
                        release_path(s.name),
                    ),
                ));
                assert(writes.deep_view() =~= w0 + release_stage(next, date@));
                assert(renames.deep_view() =~= r0 + release_renames(next));
            }
            i += 1;
        }
        proof {
            assert(suites.subrange(0, suites.len() as int) =~= suites);
        }
    }

    /// Stages the files of the pool.
    fn stage_pool(&self, writes: &mut Vec<Step>, renames: &mut Vec<Step>)
        ensures
            final(writes).deep_view() == old(writes).deep_view() + pool_stage(self@.files),
            final(renames).deep_view() == old(renames).deep_view() + pool_renames(self@.files),
    {
        let ghost files = self@.files;
        let ghost w0 = writes.deep_view();
        let ghost r0 = renames.deep_view();
        let mut i: usize = 0;
        proof {
            assert(files.subrange(0, 0) =~= Seq::<FileInfoView>::empty());
            assert(writes.deep_view() =~= w0 + pool_stage(files.subrange(0, 0)));
            assert(renames.deep_view() =~= r0 + pool_renames(files.subrange(0, 0)));
        }
        while i < self.files.len()
            invariant
                0 <= i <= self.files.len(),
                files == self@.files,
                writes.deep_view() == w0 + pool_stage(files.subrange(0, i as int)),
                renames.deep_view() == r0 + pool_renames(files.subrange(0, i as int)),
            decreases self.files.len() - i,
        {
            let ghost w1 = writes.deep_view();
            let ghost r1 = renames.deep_view();
            let info = &self.files[i];
            let dir = copy_bytes(parent_dir(info.path.as_slice()));
            let tmp = temporary_file(info.path.as_slice());
            let tmp2 = temporary_file(info.path.as_slice());
            writes.push(Step::CreateDir(dir));
            writes.push(Step::CopyFile(copy_bytes(info.source.as_slice()), tmp));
            renames.push(Step::Rename(tmp2, copy_bytes(info.path.as_slice())));
            proof {
                let next = files.subrange(0, i + 1);
                assert(next.drop_last() =~= files.subrange(0, i as int));
                assert(next.last() == files[i as int]);
                let f = files[i as int];
                assert(writes.deep_view() =~= w1 + seq![
                    StepView::CreateDir(parent(f.path)),
                    StepView::CopyFile(f.source, temporary(f.path)),
                ]);
                assert(renames.deep_view() =~= r1.push(
                    StepView::Rename(temporary(f.path), f.path),
                ));
                assert(writes.deep_view() =~= w0 + pool_stage(next));
                assert(renames.deep_view() =~= r0 + pool_renames(next));
            }
            i += 1;
        }
        proof {
            assert(files.subrange(0, files.len() as int) =~= files);
        }
    }

    /// The steps that publish the repository, with manifests that bear the
    /// given date.
    pub fn commit(self, date: &[u8]) -> (plan: Vec<Step>)
        requires
            self.wf(),
        ensures
            plan.deep_view() == planned(self@, date@),
    {
        let mut repo = self;
        let mut writes: Vec<Step> = Vec::new();
        if repo.suites.len() == 0 && repo.components.len() == 0 {
            proof {
                assert(writes.deep_view() =~= Seq::<StepView>::empty());
            }
            return writes;
        }
        repo.trim();
        let mut renames: Vec<Step> = Vec::new();
        repo.stage_indices(&mut writes, &mut renames);
        repo.stage_releases(date, &mut writes, &mut renames);
        repo.stage_pool(&mut writes, &mut renames);
        let ghost w = writes.deep_view();
        let ghost r = renames.deep_view();
        writes.append(&mut renames);
        proof {
            assert(writes.deep_view() =~= w + r);
            assert(w =~= staging(self@, date@));
            assert(r =~= placing(self@));
        }
        writes
    }

    /// The steps that publish the repository now.
    ///
    /// The manifests bear the time of the call; all else is as `commit`
    /// says.
    pub fn write(self) -> (plan: Vec<Step>)
        requires
            self.wf(),
        ensures
            exists|date: Seq<u8>| plan.deep_view() == planned(self@, date),
    {
        let date = now_rfc822z();
        self.commit(date.as_slice())
    }
}

/// The checksum that is looked up by the path of a file.
pub open spec fn checksum_probe(path: Seq<u8>) -> ChecksumView {
    ChecksumView { path, size: 0, hash: Seq::empty() }
}

/// The checksum that the checksums hold for the file of the given path.
pub open spec fn recorded(sums: Seq<ChecksumView>, path: Seq<u8>) -> Option<ChecksumView> {
    if holds::<Checksum>(sums, checksum_probe(path)) {
        Some(sums[slot::<Checksum>(sums, checksum_probe(path))])
    } else {
        None
    }
}

/// The slot of a checksum depends on the path of its file alone.
proof fn lemma_slot_of_checksum(s: Seq<ChecksumView>, x: ChecksumView, y: ChecksumView)
    requires
        x.path == y.path,
    ensures
        slot::<Checksum>(s, x) == slot::<Checksum>(s, y),
        holds::<Checksum>(s, x) == holds::<Checksum>(s, y),
    decreases s.len(),
{
    if s.len() == 0 || Checksum::rank(s[0], x) != Order::Less {
    } else {
        lemma_slot_of_checksum(s.drop_first(), x, y);
    }
    lemma_slot_bounds::<Checksum>(s, x);
}

/// A checksum that was recorded is held for the path of its file.
pub proof fn lemma_checksum_recorded(sums: Seq<ChecksumView>, c: ChecksumView)
    requires
        ascending::<Checksum>(sums),
    ensures
        recorded(with_checksum(sums, c), c.path) == Some(c),
{
    let probe = checksum_probe(c.path);
    let p = slot::<Checksum>(sums, c);
    lemma_slot_bounds::<Checksum>(sums, c);
    lemma_lex_equal(c.path, c.path);
    let after = with_checksum(sums, c);
    assert forall|i: int| 0 <= i < p implies #[trigger] Checksum::rank(after[i], probe)
        == Order::Less by {
        assert(after[i] == sums[i]);
        assert(Checksum::rank(sums[i], c) == Order::Less);
    }
    assert(after[p] == c);
    lemma_slot_unique::<Checksum>(after, probe, p);
}

/// Recording a checksum leaves what is held for the files of other paths.
pub proof fn lemma_checksum_kept(sums: Seq<ChecksumView>, c: ChecksumView, path: Seq<u8>)
    requires
        ascending::<Checksum>(sums),
        c.path != path,
    ensures
        recorded(with_checksum(sums, c), path) == recorded(sums, path),
{
    let probe = checksum_probe(path);
    let p = slot::<Checksum>(sums, c);
    let q = slot::<Checksum>(sums, probe);
    lemma_slot_bounds::<Checksum>(sums, c);
    lemma_slot_bounds::<Checksum>(sums, probe);
    lemma_lex_equal(c.path, path);
    if holds::<Checksum>(sums, c) {
        lemma_lex_equal(sums[p].path, c.path);
        lemma_slot_after_update::<Checksum>(sums, p, c, probe);
        if q < sums.len() && q != p {
            assert(sums.update(p, c)[q] == sums[q]);
        }
    } else {
        lemma_slot_after_insert::<Checksum>(sums, c, probe);
        let after = sums.insert(p, c);
        if Checksum::rank(c, probe) == Order::Less {
            if q < sums.len() {
                assert(after[q + 1] == sums[q]);
            }
        } else {
            if q < p {
                assert(after[q] == sums[q]);
            } else {
                assert(after[q] == c);
            }
        }
    }
}

/// Recording the checksums of indices keeps the suites as publishing may
/// change them.
proof fn lemma_with_sums_kept(suites: Seq<SuiteView>, entries: Seq<IndexEntryView>)
    requires
        ascending::<SuiteEntry>(suites),
        forall|i: int| 0 <= i < suites.len() ==> release_wf((#[trigger] suites[i]).release),
        forall|i: int|
            0 <= i < entries.len() ==> holds::<SuiteEntry>(
                suites,
                suite_probe((#[trigger] entries[i]).suite),
            ),
    ensures
        suites_kept(suites, with_sums(suites, entries)),
    decreases entries.len(),
{
    if entries.len() > 0 {
        let init = entries.drop_last();
        assert forall|i: int| 0 <= i < init.len() implies holds::<SuiteEntry>(
            suites,
            suite_probe((#[trigger] init[i]).suite),
        ) by {
            assert(init[i] == entries[i]);
        }
        lemma_with_sums_kept(suites, init);
        assert(holds::<SuiteEntry>(suites, suite_probe(entries[entries.len() - 1].suite)));
        lemma_with_sum_kept(suites, with_sums(suites, init), entries.last());
    }
}

/// The manifest of the suite of an index, once the checksums of all the
/// indices are recorded.
pub open spec fn manifest_of(
    suites: Seq<SuiteView>,
    entries: Seq<IndexEntryView>,
    e: IndexEntryView,
) -> ReleaseView {
    let all = with_sums(suites, entries);
    all[slot::<SuiteEntry>(all, suite_probe(e.suite))].release
}

/// Whether no index after the one of number `i` is listed in the same
/// suite under the same path.
pub open spec fn listed_once(entries: Seq<IndexEntryView>, i: int) -> bool {
    forall|j: int|
        i < j < entries.len() && (#[trigger] entries[j]).suite == entries[i].suite
            ==> listed_path(entries[j].component, entries[j].arch) != listed_path(
            entries[i].component,
            entries[i].arch,
        )
}

/// The manifest of a suite lists each of its indices with the size and
/// the digest of the very text that is written as the index file.
pub proof fn lemma_sums_recorded(suites: Seq<SuiteView>, entries: Seq<IndexEntryView>, i: int)
    requires
        ascending::<SuiteEntry>(suites),
        forall|k: int| 0 <= k < suites.len() ==> release_wf((#[trigger] suites[k]).release),
        forall|k: int|
            0 <= k < entries.len() ==> holds::<SuiteEntry>(
                suites,
                suite_probe((#[trigger] entries[k]).suite),
            ),
        0 <= i < entries.len(),
        listed_once(entries, i),
    ensures
        holds::<SuiteEntry>(with_sums(suites, entries), suite_probe(entries[i].suite)),
        recorded(
            manifest_of(suites, entries, entries[i]).sha256,
            listed_path(entries[i].component, entries[i].arch),
        ) == Some(index_checksum(entries[i])),
    decreases entries.len(),
{
    let e = entries[i];
    let init = entries.drop_last();
    let last = entries.last();
    let s0 = with_sums(suites, init);
    let s = with_sums(suites, entries);
    assert forall|k: int| 0 <= k < init.len() implies holds::<SuiteEntry>(
        suites,
        suite_probe((#[trigger] init[k]).suite),
    ) by {
        assert(init[k] == entries[k]);
    }
    lemma_with_sums_kept(suites, init);
    assert(holds::<SuiteEntry>(suites, suite_probe(entries[entries.len() - 1].suite)));
    lemma_with_sum_kept(suites, s0, last);
    let pl = slot::<SuiteEntry>(s0, suite_probe(last.suite));
    lemma_slot_bounds::<SuiteEntry>(s0, suite_probe(last.suite));
    lemma_lex_equal(s0[pl].name, last.suite);
    // the names of the suites stay, and so do their places
    assert forall|k: int| 0 <= k < s.len() implies (#[trigger] s[k]).name == s0[k].name by {}
    lemma_slot_by_names(s, s0, suite_probe(e.suite));
    let p = slot::<SuiteEntry>(s0, suite_probe(e.suite));
    assert(release_wf(s0[pl].release));
    if i == entries.len() - 1 {
        lemma_checksum_recorded(s0[pl].release.sha256, index_checksum(last));
    } else {
        assert(init[i] == e);
        assert forall|j: int|
            i < j < init.len() && (#[trigger] init[j]).suite == init[i].suite implies listed_path(
            init[j].component,
            init[j].arch,
        ) != listed_path(init[i].component, init[i].arch) by {
            assert(init[j] == entries[j]);
        }
        lemma_sums_recorded(suites, init, i);
        lemma_slot_bounds::<SuiteEntry>(s0, suite_probe(e.suite));
        if p == pl {
            lemma_lex_equal(s0[p].name, e.suite);
            assert(last.suite == e.suite);
            assert(entries[entries.len() - 1] == last);
            lemma_checksum_kept(
                s0[pl].release.sha256,
                index_checksum(last),
                listed_path(e.component, e.arch),
            );
        } else {
            assert(s[p] == s0[p]);
        }
    }
}

/// The index file of the index of number `i` as the plan writes it: the
/// step of number `2 * i + 1` of the staging of indices.
pub proof fn lemma_index_stage_at(entries: Seq<IndexEntryView>, i: int)
    requires
        0 <= i < entries.len(),
    ensures
        index_stage(entries).len() == 2 * entries.len(),
        index_stage(entries)[2 * i + 1] == StepView::WriteFile(
            temporary(packages_path(entries[i].suite, entries[i].component, entries[i].arch)),
            index_text(entries[i].index.packages),
        ),
    decreases entries.len(),
{
    lemma_index_stage_len(entries);
    let init = entries.drop_last();
    lemma_index_stage_len(init);
    if i < entries.len() - 1 {
        lemma_index_stage_at(init, i);
        assert(init[i] == entries[i]);
        assert(index_stage(entries)[2 * i + 1] == index_stage(init)[2 * i + 1]);
    }
}

/// The staging of indices has two steps for each index.
proof fn lemma_index_stage_len(entries: Seq<IndexEntryView>)
    ensures
        index_stage(entries).len() == 2 * entries.len(),
    decreases entries.len(),
{
    if entries.len() > 0 {
        lemma_index_stage_len(entries.drop_last());
    }
}

/// The staging of manifests has one step for each suite.
proof fn lemma_release_stage_len(suites: Seq<SuiteView>, date: Seq<u8>)
    ensures
        release_stage(suites, date).len() == suites.len(),
    decreases suites.len(),
{
    if suites.len() > 0 {
        lemma_release_stage_len(suites.drop_last(), date);
    }
}

/// The manifest of the suite of number `k` as the plan writes it: the step
/// of number `k` of the staging of manifests.
pub proof fn lemma_release_stage_at(suites: Seq<SuiteView>, date: Seq<u8>, k: int)
    requires
        0 <= k < suites.len(),
    ensures
        release_stage(suites, date).len() == suites.len(),
        release_stage(suites, date)[k] == StepView::WriteFile(
            temporary(release_path(suites[k].name)),
            release_text(suites[k].release, date),
        ),
    decreases suites.len(),
{
    lemma_release_stage_len(suites, date);
    let init = suites.drop_last();
    lemma_release_stage_len(init, date);
    if k < suites.len() - 1 {
        lemma_release_stage_at(init, date, k);
        assert(init[k] == suites[k]);
        assert(release_stage(suites, date)[k] == release_stage(init, date)[k]);
    }
}

/// What is published hangs together: for every index, the plan writes
/// the index file, and it writes the manifest of the index's suite into
/// the directory of the suite, where the manifest lists the index file
/// under its path from that directory with the size and the digest of the
/// very text that is written as the index file.
///
/// This holds where no later index of the same suite is listed under the
/// same path.
pub proof fn lemma_manifest_lists_index(r: RepositoryView, date: Seq<u8>, i: int)
    requires
        repository_wf(r),
        0 <= i < r.components.len(),
        listed_once(trimmed_indices(r.components), i),
    ensures
        ({
            let entries = trimmed_indices(r.components);
            let e = entries[i];
            let suites = with_sums(r.suites, entries);
            let k = slot::<SuiteEntry>(suites, suite_probe(e.suite));
            let text = index_text(e.index.packages);
            &&& planned(r, date) == staging(r, date) + placing(r)
            &&& 0 <= k < suites.len()
            &&& suites[k].name == e.suite
            &&& e.suite == r.components[i].suite
            &&& e.component == r.components[i].component
            &&& e.arch == r.components[i].arch
            &&& staging(r, date)[2 * i + 1] == StepView::WriteFile(
                temporary(packages_path(e.suite, e.component, e.arch)),
                text,
            )
            &&& staging(r, date)[2 * entries.len() + k] == StepView::WriteFile(
                temporary(release_path(e.suite)),
                release_text(suites[k].release, date),
            )
            &&& recorded(suites[k].release.sha256, listed_path(e.component, e.arch)) == Some(
                ChecksumView {
                    path: listed_path(e.component, e.arch),
                    size: text.len() as u64,
                    hash: sha256_hex(text),
                },
            )
        }),
{
    let entries = trimmed_indices(r.components);
    let e = entries[i];
    let suites = with_sums(r.suites, entries);
    let probe = suite_probe(e.suite);
    assert forall|j: int| 0 <= j < entries.len() implies holds::<SuiteEntry>(
        r.suites,
        suite_probe((#[trigger] entries[j]).suite),
    ) by {
        assert(entries[j].suite == r.components[j].suite);
    }
    lemma_sums_recorded(r.suites, entries, i);
    lemma_slot_bounds::<SuiteEntry>(suites, probe);
    let k = slot::<SuiteEntry>(suites, probe);
    lemma_lex_equal(suites[k].name, e.suite);
    lemma_index_stage_at(entries, i);
    lemma_release_stage_at(suites, date, k);
    let s1 = index_stage(entries);
    let s2 = release_stage(suites, date);
    assert(staging(r, date)[2 * i + 1] == s1[2 * i + 1]);
    assert(staging(r, date)[2 * entries.len() + k] == s2[k]);
}

} // verus!
