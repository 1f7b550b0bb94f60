//! What holds of an index once it is opened.

use vstd::prelude::*;
use crate::order::{
    holds, lemma_slot_after_update, lemma_slot_bounds, lemma_slot_unique, slot, Order, Ranked,
};
use crate::repo::disk::DiskFileView;
use crate::repo::repository::{
    index_probe, opened, repository_wf, with_index, IndexEntry, RepositoryView,
};
use crate::text::lemma_lex_equal;

verus! {

/// Opening an index gives it the limit, whether it is opened for the
/// first time or was opened before; an index that was opened before keeps
/// its packages.  Where opening succeeds, the index of the suite, the
/// component and the architecture is held, its limit is the one given,
/// and the files are as they were.
pub proof fn lemma_opened_limit(
    before: RepositoryView,
    suite: Seq<u8>,
    component: Seq<u8>,
    limit: Option<usize>,
    arch: Seq<u8>,
    disk: Seq<DiskFileView>,
)
    requires
        repository_wf(before),
        opened(before, Some(suite), Some(component), limit, arch, disk).1 is None,
    ensures
        ({
            let after = opened(before, Some(suite), Some(component), limit, arch, disk).0;
            let probe = index_probe(suite, component, arch);
            let p = slot::<IndexEntry>(after.components, probe);
            let q = slot::<IndexEntry>(before.components, probe);
            &&& holds::<IndexEntry>(after.components, probe)
            &&& after.components[p].suite == suite
            &&& after.components[p].component == component
            &&& after.components[p].arch == arch
            &&& after.components[p].index.limit == limit
            &&& holds::<IndexEntry>(before.components, probe) ==> after.components[p].index.packages
                == before.components[q].index.packages
            &&& after.files == before.files
        }),
{
    let entries = before.components;
    let probe = index_probe(suite, component, arch);
    let q = slot::<IndexEntry>(entries, probe);
    let after = opened(before, Some(suite), Some(component), limit, arch, disk).0;
    let result = with_index(entries, suite, component, arch, limit, disk);
    assert(result is Ok);
    assert(after.components == result->Ok_0);
    lemma_slot_bounds::<IndexEntry>(entries, probe);
    lemma_lex_equal(suite, suite);
    lemma_lex_equal(component, component);
    lemma_lex_equal(arch, arch);
    if holds::<IndexEntry>(entries, probe) {
        let e = entries[q];
        lemma_lex_equal(e.suite, suite);
        lemma_lex_equal(e.component, component);
        lemma_lex_equal(e.arch, arch);
        let v = after.components[q];
        assert(IndexEntry::rank(v, probe) == IndexEntry::rank(e, probe));
        lemma_slot_after_update::<IndexEntry>(entries, q, v, probe);
    } else {
        let v = after.components[q];
        assert(IndexEntry::rank(v, probe) == Order::Equal);
        assert forall|i: int| 0 <= i < q implies #[trigger] IndexEntry::rank(
            after.components[i],
            probe,
        ) == Order::Less by {
            assert(after.components[i] == entries[i]);
        }
        lemma_slot_unique::<IndexEntry>(after.components, probe, q);
    }
}

} // verus!
