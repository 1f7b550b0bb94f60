//! What holds of the index under its rules for admitting and dropping
//! packages.

use vstd::prelude::*;
use crate::order::{
    ascending, holds, lemma_insert_commutes, lemma_slot_after_insert, lemma_slot_after_update,
    lemma_slot_bounds, lemma_slot_unique, slot, Order, Ranked,
};
use crate::repo::debian::{
    bucket_probe, bucket_wf, buckets_wf, conflicts, kept, lemma_slot_of_bucket, package_wf,
    stored, trimmed_buckets, versions_with, Bucket, BucketView, Package, PackageView,
};
use crate::repo::repository::{trimmed_indices, IndexEntryView};
use crate::text::lemma_lex_equal;
use crate::version::version_rank;

verus! {

/// The package that the buckets hold for the name, architecture and
/// version of `key`.
pub open spec fn held(buckets: Seq<BucketView>, key: PackageView) -> Option<PackageView> {
    if conflicts(buckets, key) {
        let p = slot::<Bucket>(buckets, bucket_probe(key.name, key.architecture));
        let vs = buckets[p].versions;
        Some(vs[slot::<Package>(vs, key)])
    } else {
        None
    }
}

/// Two packages that the index takes for one: same name, same
/// architecture, and versions that rank equal.
pub open spec fn same_key(a: PackageView, b: PackageView) -> bool {
    &&& a.name == b.name
    &&& a.architecture == b.architecture
    &&& version_rank(a.version, b.version) == Order::Equal
}

/// Cutting down twice gives what cutting down once gives.
pub proof fn lemma_kept_idempotent(vs: Seq<PackageView>, limit: nat)
    ensures
        kept(kept(vs, limit), limit) == kept(vs, limit),
{
}

/// Idempotent trim: trimming what was trimmed changes nothing.
pub proof fn lemma_trim_idempotent(buckets: Seq<BucketView>, limit: nat)
    ensures
        trimmed_buckets(trimmed_buckets(buckets, limit), limit) == trimmed_buckets(buckets, limit),
{
    let once = trimmed_buckets(buckets, limit);
    let twice = trimmed_buckets(once, limit);
    assert forall|i: int| 0 <= i < once.len() implies twice[i] == once[i] by {
        lemma_kept_idempotent(buckets[i].versions, limit);
    }
    assert(twice =~= once);
}

/// Retention: what is kept of ascending versions is no more than the
/// limit, it is the end of the versions, and whatever was dropped ranks
/// below whatever was kept.  So the kept are the greatest.
pub proof fn lemma_kept_greatest(vs: Seq<PackageView>, limit: nat)
    requires
        ascending::<Package>(vs),
    ensures
        kept(vs, limit).len() <= limit,
        kept(vs, limit).len() == if vs.len() > limit {
            limit
        } else {
            vs.len()
        },
        forall|i: int|
            0 <= i < kept(vs, limit).len() ==> #[trigger] kept(vs, limit)[i] == vs[vs.len() - kept(
                vs,
                limit,
            ).len() + i],
        forall|d: int, k: int|
            0 <= d < vs.len() - kept(vs, limit).len() && 0 <= k < kept(vs, limit).len()
                ==> Package::rank(#[trigger] vs[d], #[trigger] kept(vs, limit)[k]) == Order::Less,
{
    let ks = kept(vs, limit);
    let off = vs.len() - ks.len();
    assert forall|d: int, k: int| 0 <= d < off && 0 <= k < ks.len() implies Package::rank(
        #[trigger] vs[d],
        #[trigger] ks[k],
    ) == Order::Less by {
        assert(ks[k] == vs[off + k]);
        assert(Package::rank(vs[d], vs[off + k]) == Order::Less);
    }
}

/// Retention in every bucket: after trimming, each bucket has the name and
/// architecture it had and holds the greatest of its versions, no more
/// than the limit.
pub proof fn lemma_trim_retains(buckets: Seq<BucketView>, limit: nat, i: int)
    requires
        buckets_wf(buckets),
        0 <= i < buckets.len(),
    ensures
        trimmed_buckets(buckets, limit).len() == buckets.len(),
        trimmed_buckets(buckets, limit)[i].name == buckets[i].name,
        trimmed_buckets(buckets, limit)[i].architecture == buckets[i].architecture,
        trimmed_buckets(buckets, limit)[i].versions == kept(buckets[i].versions, limit),
        trimmed_buckets(buckets, limit)[i].versions.len() <= limit,
{
    assert(bucket_wf(buckets[i]));
    lemma_kept_greatest(buckets[i].versions, limit);
}

/// Idempotent trim, for all indices of a repository: trimming what was
/// trimmed changes nothing.
pub proof fn lemma_trim_all_idempotent(entries: Seq<IndexEntryView>)
    ensures
        trimmed_indices(trimmed_indices(entries)) == trimmed_indices(entries),
{
    let once = trimmed_indices(entries);
    let twice = trimmed_indices(once);
    assert forall|i: int| 0 <= i < once.len() implies twice[i] == once[i] by {
        match entries[i].index.limit {
            Some(limit) => {
                lemma_trim_idempotent(entries[i].index.packages, limit as nat);
            },
            None => {},
        }
    }
    assert(twice =~= once);
}

/// Retention, for all indices of a repository: after trimming, every
/// bucket of an index with a limit holds the greatest of its versions, no
/// more than the limit; an index without limit is as it was.
pub proof fn lemma_trim_all_retains(entries: Seq<IndexEntryView>, i: int, j: int)
    requires
        0 <= i < entries.len(),
        buckets_wf(entries[i].index.packages),
        0 <= j < entries[i].index.packages.len(),
    ensures
        trimmed_indices(entries).len() == entries.len(),
        trimmed_indices(entries)[i].index.limit == entries[i].index.limit,
        trimmed_indices(entries)[i].index.packages.len() == entries[i].index.packages.len(),
        match entries[i].index.limit {
            Some(limit) => trimmed_indices(entries)[i].index.packages[j].versions == kept(
                entries[i].index.packages[j].versions,
                limit as nat,
            ) && trimmed_indices(entries)[i].index.packages[j].versions.len() <= limit,
            None => trimmed_indices(entries)[i].index.packages[j]
                == entries[i].index.packages[j],
        },
{
    match entries[i].index.limit {
        Some(limit) => {
            lemma_trim_retains(entries[i].index.packages, limit as nat, j);
        },
        None => {},
    }
}

/// A package that was stored is held, unless one with its key was there
/// and was not to be replaced.
pub proof fn lemma_stored_is_held(buckets: Seq<BucketView>, pkg: PackageView, replace: bool)
    requires
        buckets_wf(buckets),
        replace || !conflicts(buckets, pkg),
    ensures
        held(stored(buckets, pkg, replace), pkg) == Some(pkg),
{
    let b = bucket_probe(pkg.name, pkg.architecture);
    let p = slot::<Bucket>(buckets, b);
    lemma_slot_bounds::<Bucket>(buckets, b);
    let after = stored(buckets, pkg, replace);
    lemma_lex_equal(pkg.name, pkg.name);
    lemma_lex_equal(pkg.architecture, pkg.architecture);
    if holds::<Bucket>(buckets, b) {
        let vs = buckets[p].versions;
        assert(bucket_wf(buckets[p]));
        let q = slot::<Package>(vs, pkg);
        lemma_slot_bounds::<Package>(vs, pkg);
        let ws = versions_with(vs, pkg, replace);
        Package::rank_reflexive(pkg);
        assert(ws[q] == pkg);
        assert forall|i: int| 0 <= i < q implies #[trigger] Package::rank(ws[i], pkg)
            == Order::Less by {
            assert(ws[i] == vs[i]);
        }
        lemma_slot_unique::<Package>(ws, pkg, q);
        assert forall|i: int| 0 <= i < p implies #[trigger] Bucket::rank(after[i], b)
            == Order::Less by {
            assert(after[i] == buckets[i]);
        }
        assert(Bucket::rank(after[p], b) == Bucket::rank(buckets[p], b));
        lemma_slot_unique::<Bucket>(after, b, p);
    } else {
        assert forall|i: int| 0 <= i < p implies #[trigger] Bucket::rank(after[i], b)
            == Order::Less by {
            assert(after[i] == buckets[i]);
        }
        assert(Bucket::rank(after[p], b) == Order::Equal);
        lemma_slot_unique::<Bucket>(after, b, p);
        let ws = seq![pkg];
        Package::rank_reflexive(pkg);
        lemma_slot_unique::<Package>(ws, pkg, 0);
    }
}

/// Conflict: what the index takes for one package conflicts alike, and is
/// held alike.
pub proof fn lemma_same_key_conflicts(buckets: Seq<BucketView>, a: PackageView, b: PackageView)
    requires
        same_key(a, b),
    ensures
        conflicts(buckets, a) == conflicts(buckets, b),
        held(buckets, a) == held(buckets, b),
{
    let probe = bucket_probe(a.name, a.architecture);
    let p = slot::<Bucket>(buckets, probe);
    if holds::<Bucket>(buckets, probe) {
        lemma_slot_of_version(buckets[p].versions, a, b);
    }
}

/// The slot of a package among versions depends on how its version ranks
/// alone.
pub proof fn lemma_slot_of_version(vs: Seq<PackageView>, a: PackageView, b: PackageView)
    requires
        version_rank(a.version, b.version) == Order::Equal,
    ensures
        slot::<Package>(vs, a) == slot::<Package>(vs, b),
        holds::<Package>(vs, a) == holds::<Package>(vs, b),
    decreases vs.len(),
{
    lemma_rank_against_equal(a, b);
    if vs.len() == 0 || Package::rank(vs[0], a) != Order::Less {
    } else {
        lemma_slot_of_version(vs.drop_first(), a, b);
    }
    lemma_slot_bounds::<Package>(vs, a);
}

/// Packages whose versions rank equal rank alike against every package.
pub proof fn lemma_rank_against_equal(a: PackageView, b: PackageView)
    requires
        version_rank(a.version, b.version) == Order::Equal,
    ensures
        forall|x: PackageView| #[trigger] Package::rank(x, a) == Package::rank(x, b),
{
    assert forall|x: PackageView| #[trigger] Package::rank(x, a) == Package::rank(x, b) by {
        Package::rank_antisymmetric(a, b);
        Package::rank_antisymmetric(x, a);
        Package::rank_antisymmetric(x, b);
        if Package::rank(x, a) != Order::Greater {
            Package::rank_transitive(x, a, b);
        }
        if Package::rank(x, b) != Order::Greater {
            Package::rank_transitive(x, b, a);
        }
        if Package::rank(x, a) != Order::Less {
            Package::rank_transitive(b, a, x);
        }
        if Package::rank(x, b) != Order::Less {
            Package::rank_transitive(a, b, x);
        }
    }
}

/// Conflict policies.  Let a package be stored, and then one that the
/// index takes for the same.  The second conflicts.  Stored without
/// replacing, as under `Error` and `Keep`, it leaves the index as it was
/// after the first, which is still held.  Stored with replacing, it is
/// held in place of the first.
pub proof fn lemma_conflict_policies(
    buckets: Seq<BucketView>,
    first: PackageView,
    second: PackageView,
)
    requires
        buckets_wf(buckets),
        package_wf(first),
        !conflicts(buckets, first),
        same_key(first, second),
    ensures
        conflicts(stored(buckets, first, false), second),
        stored(stored(buckets, first, false), second, false) == stored(buckets, first, false),
        held(stored(stored(buckets, first, false), second, false), second) == Some(first),
        held(stored(stored(buckets, first, false), second, true), second) == Some(second),
{
    let once = stored(buckets, first, false);
    lemma_stored_is_held(buckets, first, false);
    lemma_same_key_conflicts(once, first, second);
    crate::repo::debian::lemma_stored_wf(buckets, first, false);
    lemma_stored_is_held(once, second, true);
    // without replacing, a package that conflicts changes nothing
    let b = bucket_probe(second.name, second.architecture);
    let p = slot::<Bucket>(once, b);
    lemma_slot_bounds::<Bucket>(once, b);
    assert(holds::<Bucket>(once, b));
    assert(once.update(p, once[p]) =~= once);
}

/// The bucket that a package makes where none is there for its name and
/// architecture.
pub open spec fn bucket_of(pkg: PackageView) -> BucketView {
    BucketView { name: pkg.name, architecture: pkg.architecture, versions: seq![pkg] }
}

/// A bucket with other versions.
pub open spec fn bucket_with(b: BucketView, versions: Seq<PackageView>) -> BucketView {
    BucketView { versions, ..b }
}

/// Two new packages for one bucket that is there go in alike, whichever
/// goes first.
proof fn lemma_commutes_in_bucket(
    buckets: Seq<BucketView>,
    a: PackageView,
    b: PackageView,
    replace: bool,
)
    requires
        buckets_wf(buckets),
        a.name == b.name,
        a.architecture == b.architecture,
        version_rank(a.version, b.version) != Order::Equal,
        holds::<Bucket>(buckets, bucket_probe(a.name, a.architecture)),
        !conflicts(buckets, a),
        !conflicts(buckets, b),
    ensures
        stored(stored(buckets, a, replace), b, replace) == stored(
            stored(buckets, b, replace),
            a,
            replace,
        ),
{
    let probe = bucket_probe(a.name, a.architecture);
    let p = slot::<Bucket>(buckets, probe);
    lemma_slot_bounds::<Bucket>(buckets, probe);
    let vs = buckets[p].versions;
    assert(bucket_wf(buckets[p]));
    lemma_insert_commutes::<Package>(vs, a, b);
    let va = vs.insert(slot::<Package>(vs, a), a);
    let vb = vs.insert(slot::<Package>(vs, b), b);
    let s1 = stored(buckets, a, replace);
    let s2 = stored(buckets, b, replace);
    assert(s1 == buckets.update(p, bucket_with(buckets[p], va)));
    assert(s2 == buckets.update(p, bucket_with(buckets[p], vb)));
    lemma_slot_after_update::<Bucket>(buckets, p, bucket_with(buckets[p], va), probe);
    lemma_slot_after_update::<Bucket>(buckets, p, bucket_with(buckets[p], vb), probe);
    assert(stored(s1, b, replace) =~= stored(s2, a, replace));
}

/// Two new packages for one bucket that is not there make it alike,
/// whichever goes first.
proof fn lemma_commutes_new_bucket(
    buckets: Seq<BucketView>,
    a: PackageView,
    b: PackageView,
    replace: bool,
)
    requires
        buckets_wf(buckets),
        a.name == b.name,
        a.architecture == b.architecture,
        version_rank(a.version, b.version) != Order::Equal,
        !holds::<Bucket>(buckets, bucket_probe(a.name, a.architecture)),
    ensures
        stored(stored(buckets, a, replace), b, replace) == stored(
            stored(buckets, b, replace),
            a,
            replace,
        ),
{
    let probe = bucket_probe(a.name, a.architecture);
    let p = slot::<Bucket>(buckets, probe);
    lemma_slot_bounds::<Bucket>(buckets, probe);
    let none = Seq::<PackageView>::empty();
    lemma_insert_commutes::<Package>(none, a, b);
    assert(none.insert(0, a) =~= seq![a]);
    assert(none.insert(0, b) =~= seq![b]);
    let s1 = buckets.insert(p, bucket_of(a));
    let s2 = buckets.insert(p, bucket_of(b));
    assert(stored(buckets, a, replace) == s1);
    assert(stored(buckets, b, replace) == s2);
    lemma_lex_equal(a.name, a.name);
    lemma_lex_equal(a.architecture, a.architecture);
    assert forall|i: int| 0 <= i < p implies #[trigger] Bucket::rank(s1[i], probe)
        == Order::Less by {
        assert(s1[i] == buckets[i]);
    }
    assert forall|i: int| 0 <= i < p implies #[trigger] Bucket::rank(s2[i], probe)
        == Order::Less by {
        assert(s2[i] == buckets[i]);
    }
    lemma_slot_unique::<Bucket>(s1, probe, p);
    lemma_slot_unique::<Bucket>(s2, probe, p);
    assert(stored(s1, b, replace) =~= stored(s2, a, replace));
}

/// A package for a bucket that is there and one for a bucket that is not
/// go in alike, whichever goes first.
proof fn lemma_commutes_held_and_new(
    buckets: Seq<BucketView>,
    a: PackageView,
    b: PackageView,
    replace: bool,
)
    requires
        buckets_wf(buckets),
        a.name != b.name || a.architecture != b.architecture,
        holds::<Bucket>(buckets, bucket_probe(a.name, a.architecture)),
        !holds::<Bucket>(buckets, bucket_probe(b.name, b.architecture)),
    ensures
        stored(stored(buckets, a, replace), b, replace) == stored(
            stored(buckets, b, replace),
            a,
            replace,
        ),
{
    let pa = bucket_probe(a.name, a.architecture);
    let pb = bucket_probe(b.name, b.architecture);
    let i = slot::<Bucket>(buckets, pa);
    let j = slot::<Bucket>(buckets, pb);
    lemma_slot_bounds::<Bucket>(buckets, pa);
    lemma_slot_bounds::<Bucket>(buckets, pb);
    lemma_lex_equal(a.name, b.name);
    lemma_lex_equal(a.architecture, b.architecture);
    lemma_lex_equal(b.name, a.name);
    lemma_lex_equal(b.architecture, a.architecture);
    let ua = bucket_with(buckets[i], versions_with(buckets[i].versions, a, replace));
    let nb = bucket_of(b);
    let s1 = buckets.update(i, ua);
    let s2 = buckets.insert(j, nb);
    assert(stored(buckets, a, replace) == s1);
    assert(stored(buckets, b, replace) == s2);
    // b after a
    lemma_slot_after_update::<Bucket>(buckets, i, ua, pb);
    assert(stored(s1, b, replace) == s1.insert(j, nb));
    // a after b
    lemma_slot_of_bucket(buckets, nb, pb);
    lemma_slot_after_insert::<Bucket>(buckets, nb, pa);
    let k = slot::<Bucket>(s2, pa);
    if Bucket::rank(nb, pa) == Order::Less {
        assert(k == i + 1);
        assert(s2[k] == buckets[i]);
    } else {
        assert(k == i);
        if i == j {
            assert(s2[k] == nb);
            assert(false);
        }
        assert(s2[k] == buckets[i]);
    }
    assert(stored(s2, a, replace) == s2.update(k, ua));
    assert(s1.insert(j, nb) =~= s2.update(k, ua));
}

/// Two packages for different buckets that are there go in alike,
/// whichever goes first.
proof fn lemma_commutes_two_held(
    buckets: Seq<BucketView>,
    a: PackageView,
    b: PackageView,
    replace: bool,
)
    requires
        buckets_wf(buckets),
        a.name != b.name || a.architecture != b.architecture,
        holds::<Bucket>(buckets, bucket_probe(a.name, a.architecture)),
        holds::<Bucket>(buckets, bucket_probe(b.name, b.architecture)),
    ensures
        stored(stored(buckets, a, replace), b, replace) == stored(
            stored(buckets, b, replace),
            a,
            replace,
        ),
{
    let pa = bucket_probe(a.name, a.architecture);
    let pb = bucket_probe(b.name, b.architecture);
    let i = slot::<Bucket>(buckets, pa);
    let j = slot::<Bucket>(buckets, pb);
    lemma_slot_bounds::<Bucket>(buckets, pa);
    lemma_slot_bounds::<Bucket>(buckets, pb);
    lemma_lex_equal(buckets[i].name, a.name);
    lemma_lex_equal(buckets[i].architecture, a.architecture);
    lemma_lex_equal(buckets[j].name, b.name);
    lemma_lex_equal(buckets[j].architecture, b.architecture);
    assert(i != j);
    let ua = bucket_with(buckets[i], versions_with(buckets[i].versions, a, replace));
    let ub = bucket_with(buckets[j], versions_with(buckets[j].versions, b, replace));
    let s1 = buckets.update(i, ua);
    let s2 = buckets.update(j, ub);
    assert(stored(buckets, a, replace) == s1);
    assert(stored(buckets, b, replace) == s2);
    lemma_slot_after_update::<Bucket>(buckets, i, ua, pb);
    lemma_slot_after_update::<Bucket>(buckets, j, ub, pa);
    assert(s1[j] == buckets[j]);
    assert(s2[i] == buckets[i]);
    assert(stored(s1, b, replace) == s1.update(j, ub));
    assert(stored(s2, a, replace) == s2.update(i, ua));
    assert(s1.update(j, ub) =~= s2.update(i, ua));
}

/// Two packages for different buckets that are not there make them alike,
/// whichever goes first.
proof fn lemma_commutes_two_new(
    buckets: Seq<BucketView>,
    a: PackageView,
    b: PackageView,
    replace: bool,
)
    requires
        buckets_wf(buckets),
        a.name != b.name || a.architecture != b.architecture,
        !holds::<Bucket>(buckets, bucket_probe(a.name, a.architecture)),
        !holds::<Bucket>(buckets, bucket_probe(b.name, b.architecture)),
    ensures
        stored(stored(buckets, a, replace), b, replace) == stored(
            stored(buckets, b, replace),
            a,
            replace,
        ),
{
    let pa = bucket_probe(a.name, a.architecture);
    let pb = bucket_probe(b.name, b.architecture);
    let na = bucket_of(a);
    let nb = bucket_of(b);
    lemma_lex_equal(a.name, b.name);
    lemma_lex_equal(a.architecture, b.architecture);
    lemma_slot_of_bucket(buckets, na, pa);
    lemma_slot_of_bucket(buckets, nb, pb);
    lemma_insert_commutes::<Bucket>(buckets, na, nb);
    let s1 = buckets.insert(slot::<Bucket>(buckets, na), na);
    let s2 = buckets.insert(slot::<Bucket>(buckets, nb), nb);
    assert(stored(buckets, a, replace) == s1);
    assert(stored(buckets, b, replace) == s2);
    lemma_slot_of_bucket(s1, nb, pb);
    lemma_slot_of_bucket(s2, na, pa);
}

/// The order of adding does not matter: two packages that the index does
/// not take for one, and neither of which it holds, go in alike whichever
/// goes first.
pub proof fn lemma_store_commutes(
    buckets: Seq<BucketView>,
    a: PackageView,
    b: PackageView,
    replace: bool,
)
    requires
        buckets_wf(buckets),
        !same_key(a, b),
        !conflicts(buckets, a),
        !conflicts(buckets, b),
    ensures
        stored(stored(buckets, a, replace), b, replace) == stored(
            stored(buckets, b, replace),
            a,
            replace,
        ),
{
    let pa = bucket_probe(a.name, a.architecture);
    let pb = bucket_probe(b.name, b.architecture);
    if a.name == b.name && a.architecture == b.architecture {
        if holds::<Bucket>(buckets, pa) {
            lemma_commutes_in_bucket(buckets, a, b, replace);
        } else {
            lemma_commutes_new_bucket(buckets, a, b, replace);
        }
    } else if holds::<Bucket>(buckets, pa) {
        if holds::<Bucket>(buckets, pb) {
            lemma_commutes_two_held(buckets, a, b, replace);
        } else {
            lemma_commutes_held_and_new(buckets, a, b, replace);
        }
    } else if holds::<Bucket>(buckets, pb) {
        lemma_commutes_held_and_new(buckets, b, a, replace);
    } else {
        lemma_commutes_two_new(buckets, a, b, replace);
    }
}

} // verus!
