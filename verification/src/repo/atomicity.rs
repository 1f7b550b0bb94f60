//! What a fault during publishing leaves behind, on a model of the files
//! under the repository's root.

use vstd::prelude::*;
use crate::repo::commit::{
    index_renames, index_stage, placing, planned, pool_renames, pool_stage, release_renames,
    release_stage, staging, StepView,
};
use crate::repo::paths::temporary;
use crate::repo::repository::{FileInfoView, IndexEntryView, RepositoryView, SuiteView};

verus! {

/// The files: what each path holds.
pub type Files = Map<Seq<u8>, Seq<u8>>;

/// Whether a path is a temporary name.
pub open spec fn is_temporary(path: Seq<u8>) -> bool {
    exists|place: Seq<u8>| path == temporary(place)
}

/// The files after one step.  A directory holds nothing of its own; a
/// copy or a move of a file that is not there does nothing.
pub open spec fn applied(fs: Files, a: StepView) -> Files {
    match a {
        StepView::CreateDir(_) => fs,
        StepView::WriteFile(path, data) => fs.insert(path, data),
        StepView::CopyFile(from, to) => if fs.dom().contains(from) {
            fs.insert(to, fs[from])
        } else {
            fs
        },
        StepView::Rename(from, to) => if fs.dom().contains(from) {
            fs.insert(to, fs[from]).remove(from)
        } else {
            fs
        },
    }
}

/// The files after the steps, one after the other.
pub open spec fn applied_all(fs: Files, actions: Seq<StepView>) -> Files
    decreases actions.len(),
{
    if actions.len() == 0 {
        fs
    } else {
        applied_all(applied(fs, actions[0]), actions.drop_first())
    }
}

/// A step of staging: it makes a directory, or writes or copies to a
/// temporary name from a path that is none.
pub open spec fn is_staging(a: StepView) -> bool {
    match a {
        StepView::CreateDir(_) => true,
        StepView::WriteFile(path, _) => is_temporary(path),
        StepView::CopyFile(from, to) => is_temporary(to) && !is_temporary(from),
        StepView::Rename(_, _) => false,
    }
}

/// Whether all the steps are steps of staging.
pub open spec fn all_staging(actions: Seq<StepView>) -> bool {
    forall|i: int| 0 <= i < actions.len() ==> is_staging(#[trigger] actions[i])
}

/// Whether one of the steps writes or copies to the path.
pub open spec fn writes_to(actions: Seq<StepView>, path: Seq<u8>) -> bool {
    exists|i: int|
        0 <= i < actions.len() && match #[trigger] actions[i] {
            StepView::WriteFile(p, _) => p == path,
            StepView::CopyFile(_, p) => p == path,
            _ => false,
        }
}

/// Whether every file that the steps copy is there.
pub open spec fn sources_present(fs: Files, actions: Seq<StepView>) -> bool {
    forall|i: int|
        0 <= i < actions.len() ==> match #[trigger] actions[i] {
            StepView::CopyFile(from, _) => fs.dom().contains(from),
            _ => true,
        }
}

/// Whether two states of the files agree on a path.
pub open spec fn agree(a: Files, b: Files, path: Seq<u8>) -> bool {
    a.dom().contains(path) == b.dom().contains(path) && (a.dom().contains(path) ==> a[path]
        == b[path])
}

/// The steps of one after the other are applied one after the other.
pub proof fn lemma_applied_concat(fs: Files, a: Seq<StepView>, b: Seq<StepView>)
    ensures
        applied_all(fs, a + b) == applied_all(applied_all(fs, a), b),
    decreases a.len(),
{
    if a.len() == 0 {
        assert(a + b =~= b);
    } else {
        assert((a + b)[0] == a[0]);
        assert((a + b).drop_first() =~= a.drop_first() + b);
        lemma_applied_concat(applied(fs, a[0]), a.drop_first(), b);
    }
}

/// Staging leaves every path alone that is no temporary name.
pub proof fn lemma_staging_spares(fs: Files, actions: Seq<StepView>, path: Seq<u8>)
    requires
        all_staging(actions),
        !is_temporary(path),
    ensures
        agree(applied_all(fs, actions), fs, path),
    decreases actions.len(),
{
    if actions.len() > 0 {
        let rest = actions.drop_first();
        assert(is_staging(actions[0]));
        assert forall|i: int| 0 <= i < rest.len() implies is_staging(#[trigger] rest[i]) by {
            assert(rest[i] == actions[i + 1]);
        }
        lemma_staging_spares(applied(fs, actions[0]), rest, path);
    }
}

/// Staging gives the same, on every path that it writes to and on every
/// path on which the files agreed before, whatever the other temporary
/// names held.
pub proof fn lemma_staging_settles(a: Files, b: Files, actions: Seq<StepView>, path: Seq<u8>)
    requires
        all_staging(actions),
        sources_present(a, actions),
        forall|p: Seq<u8>| !is_temporary(p) ==> agree(a, b, p),
        agree(a, b, path) || writes_to(actions, path),
    ensures
        agree(applied_all(a, actions), applied_all(b, actions), path),
    decreases actions.len(),
{
    if actions.len() > 0 {
        let first = actions[0];
        let rest = actions.drop_first();
        let a1 = applied(a, first);
        let b1 = applied(b, first);
        assert(is_staging(first));
        assert forall|i: int| 0 <= i < rest.len() implies is_staging(#[trigger] rest[i]) by {
            assert(rest[i] == actions[i + 1]);
        }
        match first {
            StepView::CopyFile(from, to) => {
                assert(agree(a, b, from));
                assert(a.dom().contains(from));
            },
            _ => {},
        }
        assert forall|p: Seq<u8>| !is_temporary(p) implies agree(a1, b1, p) by {
            assert(agree(a, b, p));
        }
        assert(sources_present(a1, rest)) by {
            assert forall|i: int| 0 <= i < rest.len() implies match #[trigger] rest[i] {
                StepView::CopyFile(from, _) => a1.dom().contains(from),
                _ => true,
            } by {
                assert(rest[i] == actions[i + 1]);
                assert(is_staging(actions[i + 1]));
            }
        }
        if !agree(a1, b1, path) {
            // the first step did not write to the path, so a later one does
            let i = choose|i: int|
                0 <= i < actions.len() && match #[trigger] actions[i] {
                    StepView::WriteFile(p, _) => p == path,
                    StepView::CopyFile(_, p) => p == path,
                    _ => false,
                };
            assert(i > 0);
            assert(rest[i - 1] == actions[i]);
            assert(writes_to(rest, path));
        }
        lemma_staging_settles(a1, b1, rest, path);
    }
}

/// Staging changes no path but those it writes to.
pub proof fn lemma_staging_changes(fs: Files, actions: Seq<StepView>, path: Seq<u8>)
    requires
        all_staging(actions),
        !writes_to(actions, path),
    ensures
        agree(applied_all(fs, actions), fs, path),
    decreases actions.len(),
{
    if actions.len() > 0 {
        let first = actions[0];
        let rest = actions.drop_first();
        assert(is_staging(first));
        assert forall|i: int| 0 <= i < rest.len() implies is_staging(#[trigger] rest[i]) by {
            assert(rest[i] == actions[i + 1]);
        }
        if writes_to(rest, path) {
            let i = choose|i: int|
                0 <= i < rest.len() && match #[trigger] rest[i] {
                    StepView::WriteFile(p, _) => p == path,
                    StepView::CopyFile(_, p) => p == path,
                    _ => false,
                };
            assert(actions[i + 1] == rest[i]);
            assert(false);
        }
        match first {
            StepView::WriteFile(p, _) => {
                assert(actions[0] == first);
                assert(p != path);
            },
            StepView::CopyFile(_, p) => {
                assert(actions[0] == first);
                assert(p != path);
            },
            _ => {},
        }
        lemma_staging_changes(applied(fs, first), rest, path);
    }
}

/// Running the whole plan again after a fault during staging gives what
/// an undisturbed run gives.
///
/// `done` is what of the staging was done before the fault, `stage` the
/// whole staging, `place` the steps that put the files in place.
pub proof fn lemma_rerun_after_fault(
    fs: Files,
    done: Seq<StepView>,
    stage: Seq<StepView>,
    place: Seq<StepView>,
)
    requires
        all_staging(stage),
        sources_present(fs, stage),
        done.len() <= stage.len(),
        done == stage.subrange(0, done.len() as int),
    ensures
        applied_all(applied_all(fs, done), stage + place) == applied_all(fs, stage + place),
{
    let fs1 = applied_all(fs, done);
    assert forall|i: int| 0 <= i < done.len() implies is_staging(#[trigger] done[i]) by {
        assert(done[i] == stage[i]);
    }
    assert forall|p: Seq<u8>| !is_temporary(p) implies agree(fs, fs1, p) by {
        lemma_staging_spares(fs, done, p);
    }
    let x = applied_all(fs1, stage);
    let y = applied_all(fs, stage);
    assert forall|p: Seq<u8>| agree(x, y, p) by {
        if !writes_to(stage, p) {
            if writes_to(done, p) {
                let i = choose|i: int|
                    0 <= i < done.len() && match #[trigger] done[i] {
                        StepView::WriteFile(q, _) => q == p,
                        StepView::CopyFile(_, q) => q == p,
                        _ => false,
                    };
                assert(stage[i] == done[i]);
                assert(false);
            }
            lemma_staging_changes(fs, done, p);
        }
        lemma_staging_settles(fs, fs1, stage, p);
    }
    assert forall|p: Seq<u8>| x.dom().contains(p) == y.dom().contains(p) by {
        assert(agree(x, y, p));
    }
    assert forall|p: Seq<u8>| x.dom().contains(p) implies #[trigger] x[p] == y[p] by {
        assert(agree(x, y, p));
    }
    assert(x =~= y);
    lemma_applied_concat(fs1, stage, place);
    lemma_applied_concat(fs, stage, place);
}

/// The staging of indices is staging.
pub proof fn lemma_index_stage(entries: Seq<IndexEntryView>)
    ensures
        all_staging(index_stage(entries)),
    decreases entries.len(),
{
    if entries.len() > 0 {
        lemma_index_stage(entries.drop_last());
        let e = entries.last();
        let head = index_stage(entries.drop_last());
        let all = index_stage(entries);
        assert forall|i: int| 0 <= i < all.len() implies is_staging(#[trigger] all[i]) by {
            if i < head.len() {
                assert(all[i] == head[i]);
            } else {
                assert(is_temporary(
                    temporary(crate::repo::paths::packages_path(e.suite, e.component, e.arch)),
                ));
            }
        }
    }
}

/// The staging of manifests is staging.
pub proof fn lemma_release_stage(suites: Seq<SuiteView>, date: Seq<u8>)
    ensures
        all_staging(release_stage(suites, date)),
    decreases suites.len(),
{
    if suites.len() > 0 {
        lemma_release_stage(suites.drop_last(), date);
        let s = suites.last();
        let head = release_stage(suites.drop_last(), date);
        let all = release_stage(suites, date);
        assert forall|i: int| 0 <= i < all.len() implies is_staging(#[trigger] all[i]) by {
            if i < head.len() {
                assert(all[i] == head[i]);
            } else {
                assert(is_temporary(
                    temporary(crate::repo::paths::release_path(s.name)),
                ));
            }
        }
    }
}

/// The staging of the pool is staging, where no file comes from a path
/// that is a temporary name.
pub proof fn lemma_pool_stage(files: Seq<FileInfoView>)
    requires
        forall|i: int| 0 <= i < files.len() ==> !is_temporary((#[trigger] files[i]).source),
    ensures
        all_staging(pool_stage(files)),
    decreases files.len(),
{
    if files.len() > 0 {
        let init = files.drop_last();
        assert forall|i: int| 0 <= i < init.len() implies !is_temporary(
            (#[trigger] init[i]).source,
        ) by {
            assert(init[i] == files[i]);
        }
        lemma_pool_stage(init);
        let f = files.last();
        assert(!is_temporary(files[files.len() - 1].source));
        let head = pool_stage(init);
        let all = pool_stage(files);
        assert forall|i: int| 0 <= i < all.len() implies is_staging(#[trigger] all[i]) by {
            if i < head.len() {
                assert(all[i] == head[i]);
            } else {
                assert(is_temporary(temporary(f.path)));
            }
        }
    }
}

/// The staging of indices copies nothing.
pub proof fn lemma_index_stage_writes(entries: Seq<IndexEntryView>, i: int)
    requires
        0 <= i < index_stage(entries).len(),
    ensures
        !(index_stage(entries)[i] is CopyFile),
    decreases entries.len(),
{
    if entries.len() > 0 {
        let head = index_stage(entries.drop_last());
        if i < head.len() {
            lemma_index_stage_writes(entries.drop_last(), i);
            assert(index_stage(entries)[i] == head[i]);
        }
    }
}

/// The staging of manifests copies nothing.
pub proof fn lemma_release_stage_writes(suites: Seq<SuiteView>, date: Seq<u8>, i: int)
    requires
        0 <= i < release_stage(suites, date).len(),
    ensures
        !(release_stage(suites, date)[i] is CopyFile),
    decreases suites.len(),
{
    if suites.len() > 0 {
        let head = release_stage(suites.drop_last(), date);
        if i < head.len() {
            lemma_release_stage_writes(suites.drop_last(), date, i);
            assert(release_stage(suites, date)[i] == head[i]);
        }
    }
}

/// The staging of the pool copies the files from where they come.
pub proof fn lemma_pool_sources(fs: Files, files: Seq<FileInfoView>)
    requires
        forall|i: int| 0 <= i < files.len() ==> fs.dom().contains((#[trigger] files[i]).source),
    ensures
        sources_present(fs, pool_stage(files)),
    decreases files.len(),
{
    if files.len() > 0 {
        let init = files.drop_last();
        assert forall|i: int| 0 <= i < init.len() implies fs.dom().contains(
            (#[trigger] init[i]).source,
        ) by {
            assert(init[i] == files[i]);
        }
        lemma_pool_sources(fs, init);
        assert(fs.dom().contains(files[files.len() - 1].source));
        let head = pool_stage(init);
        let all = pool_stage(files);
        assert forall|i: int| 0 <= i < all.len() implies match #[trigger] all[i] {
            StepView::CopyFile(from, _) => fs.dom().contains(from),
            _ => true,
        } by {
            if i < head.len() {
                assert(all[i] == head[i]);
            }
        }
    }
}

/// Commit atomicity.  Let publishing be cut short by a fault before
/// anything is put in place: after some of the staging, or after all of it.
/// Then every file that has no temporary name is as it was; and publishing
/// once more, from the same repository and with the same date, leaves the
/// files as publishing undisturbed would have left them.
///
/// This holds where every package file is there, and none comes from a
/// path that is itself a temporary name.
pub proof fn lemma_commit_atomic(fs: Files, r: RepositoryView, date: Seq<u8>, done: int)
    requires
        r.suites.len() > 0 || r.components.len() > 0,
        forall|i: int| 0 <= i < r.files.len() ==> !is_temporary((#[trigger] r.files[i]).source),
        forall|i: int| 0 <= i < r.files.len() ==> fs.dom().contains((#[trigger] r.files[i]).source),
        0 <= done <= staging(r, date).len(),
    ensures
        planned(r, date) == staging(r, date) + placing(r),
        forall|path: Seq<u8>|
            !is_temporary(path) ==> agree(
                applied_all(fs, staging(r, date).subrange(0, done)),
                fs,
                path,
            ),
        applied_all(applied_all(fs, staging(r, date).subrange(0, done)), planned(r, date))
            == applied_all(fs, planned(r, date)),
{
    let stage = staging(r, date);
    let part = stage.subrange(0, done);
    let entries = crate::repo::repository::trimmed_indices(r.components);
    let suites = crate::repo::commit::with_sums(r.suites, entries);
    lemma_index_stage(entries);
    lemma_release_stage(suites, date);
    lemma_pool_stage(r.files);
    let s1 = index_stage(entries);
    let s2 = release_stage(suites, date);
    let s3 = pool_stage(r.files);
    assert forall|i: int| 0 <= i < stage.len() implies is_staging(#[trigger] stage[i]) by {
        if i < s1.len() {
            assert(stage[i] == s1[i]);
        } else if i < s1.len() + s2.len() {
            assert(stage[i] == s2[i - s1.len()]);
        } else {
            assert(stage[i] == s3[i - s1.len() - s2.len()]);
        }
    }
    assert forall|i: int| 0 <= i < part.len() implies is_staging(#[trigger] part[i]) by {
        assert(part[i] == stage[i]);
    }
    assert forall|path: Seq<u8>| !is_temporary(path) implies agree(
        applied_all(fs, part),
        fs,
        path,
    ) by {
        lemma_staging_spares(fs, part, path);
    }
    lemma_pool_sources(fs, r.files);
    assert(sources_present(fs, stage)) by {
        assert forall|i: int| 0 <= i < stage.len() implies match #[trigger] stage[i] {
            StepView::CopyFile(from, _) => fs.dom().contains(from),
            _ => true,
        } by {
            if i < s1.len() {
                assert(stage[i] == s1[i]);
                lemma_index_stage_writes(entries, i);
            } else if i < s1.len() + s2.len() {
                assert(stage[i] == s2[i - s1.len()]);
                lemma_release_stage_writes(suites, date, i - s1.len());
            } else {
                assert(stage[i] == s3[i - s1.len() - s2.len()]);
                assert(sources_present(fs, s3));
            }
        }
    }
    lemma_rerun_after_fault(fs, part, stage, placing(r));
}

} // verus!
