//! The index of a Debian-style repository: packages by name, architecture
//! and version, with the rules for admitting and for dropping them.

use vstd::prelude::*;
use vstd::string::*;
use crate::deb_ext::{kv_text, WriteDebExt, LF};
use crate::order::{
    ascending, holds, lemma_deep_insert, lemma_deep_update, lemma_insert_ascending,
    lemma_slot_bounds, lemma_update_ascending, locate, slot, Order, Ranked,
};
use crate::repo::deb::{
    lookup, parse_control, parsed, without, ControlError, ControlRecord, Field, FieldView,
};
use crate::repo::ConflictResolution;
use crate::text::{
    compare_bytes, copy_bytes, decimal, digits_of, folded, parse_unsigned, same_folded,
    unsigned_value, lemma_lex_equal, lemma_lex_flip, lemma_lex_transitive, lex_rank,
};
use crate::version::{
    components, lemma_components_equal, lemma_components_flip, lemma_components_transitive,
    version_rank, Version,
};

verus! {

/// A package in the index.
#[derive(Debug)]
pub struct Package {
    pub name: Vec<u8>,
    pub version: Version,
    pub architecture: Vec<u8>,
    pub filename: Vec<u8>,
    pub size: u64,
    pub sha256: Vec<u8>,
    pub metadata: ControlRecord,
}

/// What a package holds.
pub struct PackageView {
    pub name: Seq<u8>,
    pub version: Seq<u8>,
    pub architecture: Seq<u8>,
    pub filename: Seq<u8>,
    pub size: u64,
    pub sha256: Seq<u8>,
    pub metadata: Seq<FieldView>,
}

impl View for Package {
    type V = PackageView;

    open spec fn view(&self) -> PackageView {
        PackageView {
            name: self.name@,
            version: self.version@,
            architecture: self.architecture@,
            filename: self.filename@,
            size: self.size,
            sha256: self.sha256@,
            metadata: self.metadata@,
        }
    }
}

impl DeepView for Package {
    type V = PackageView;

    open spec fn deep_view(&self) -> PackageView {
        self@
    }
}

impl Ranked for Package {
    /// Packages of one name and architecture are ranked by their versions.
    open spec fn rank(x: PackageView, y: PackageView) -> Order {
        version_rank(x.version, y.version)
    }

    proof fn rank_reflexive(x: PackageView) {
        lemma_components_equal(components(x.version), components(x.version));
    }

    proof fn rank_antisymmetric(x: PackageView, y: PackageView) {
        lemma_components_flip(components(x.version), components(y.version));
    }

    proof fn rank_transitive(x: PackageView, y: PackageView, z: PackageView) {
        lemma_components_transitive(
            components(x.version),
            components(y.version),
            components(z.version),
        );
    }

    fn compare(&self, other: &Self) -> (o: Order) {
        self.version.compare(&other.version)
    }
}

/// The versions of one package for one architecture, ascending.
#[derive(Debug)]
pub struct Bucket {
    pub name: Vec<u8>,
    pub architecture: Vec<u8>,
    pub versions: Vec<Package>,
}

/// What a bucket holds.
pub struct BucketView {
    pub name: Seq<u8>,
    pub architecture: Seq<u8>,
    pub versions: Seq<PackageView>,
}

impl View for Bucket {
    type V = BucketView;

    open spec fn view(&self) -> BucketView {
        BucketView {
            name: self.name@,
            architecture: self.architecture@,
            versions: self.versions.deep_view(),
        }
    }
}

impl DeepView for Bucket {
    type V = BucketView;

    open spec fn deep_view(&self) -> BucketView {
        self@
    }
}

/// The order of two pairs of byte strings: by the first, then by the
/// second.
pub open spec fn pair_rank(a1: Seq<u8>, a2: Seq<u8>, b1: Seq<u8>, b2: Seq<u8>) -> Order {
    if lex_rank(a1, b1) != Order::Equal {
        lex_rank(a1, b1)
    } else {
        lex_rank(a2, b2)
    }
}

impl Ranked for Bucket {
    /// Buckets are ranked by name, then by architecture.
    open spec fn rank(x: BucketView, y: BucketView) -> Order {
        pair_rank(x.name, x.architecture, y.name, y.architecture)
    }

    proof fn rank_reflexive(x: BucketView) {
        lemma_lex_equal(x.name, x.name);
        lemma_lex_equal(x.architecture, x.architecture);
    }

    proof fn rank_antisymmetric(x: BucketView, y: BucketView) {
        lemma_lex_flip(x.name, y.name);
        lemma_lex_flip(x.architecture, y.architecture);
    }

    proof fn rank_transitive(x: BucketView, y: BucketView, z: BucketView) {
        lemma_lex_flip(x.name, y.name);
        lemma_lex_flip(y.name, z.name);
        lemma_lex_equal(x.name, y.name);
        lemma_lex_equal(y.name, z.name);
        lemma_lex_equal(x.name, z.name);
        if lex_rank(x.name, y.name) == Order::Equal && lex_rank(y.name, z.name) == Order::Equal {
            lemma_lex_transitive(x.architecture, y.architecture, z.architecture);
        } else {
            lemma_lex_transitive(x.name, y.name, z.name);
        }
    }

    fn compare(&self, other: &Self) -> (o: Order) {
        match compare_bytes(self.name.as_slice(), other.name.as_slice()) {
            Order::Equal => compare_bytes(
                self.architecture.as_slice(),
                other.architecture.as_slice(),
            ),
            o => o,
        }
    }
}

/// The bucket of a name and an architecture, without versions: what a
/// bucket is looked up by.
pub open spec fn bucket_probe(name: Seq<u8>, architecture: Seq<u8>) -> BucketView {
    BucketView { name, architecture, versions: Seq::empty() }
}

/// A package as the index may hold it: the fields of its metadata stand in
/// the order of their keys.
pub open spec fn package_wf(p: PackageView) -> bool {
    ascending::<Field>(p.metadata)
}

/// A bucket as the index may hold it: its versions ascend, and each is a
/// well-formed package of the bucket's name and architecture.
pub open spec fn bucket_wf(b: BucketView) -> bool {
    &&& ascending::<Package>(b.versions)
    &&& forall|i: int|
        0 <= i < b.versions.len() ==> {
            &&& package_wf(#[trigger] b.versions[i])
            &&& b.versions[i].name == b.name
            &&& b.versions[i].architecture == b.architecture
        }
}

/// Buckets as the index may hold them: ascending by name and architecture,
/// each well formed.
pub open spec fn buckets_wf(buckets: Seq<BucketView>) -> bool {
    &&& ascending::<Bucket>(buckets)
    &&& forall|i: int| 0 <= i < buckets.len() ==> bucket_wf(#[trigger] buckets[i])
}

/// Whether the buckets hold the package's version for its name and
/// architecture already.
pub open spec fn conflicts(buckets: Seq<BucketView>, pkg: PackageView) -> bool {
    let b = bucket_probe(pkg.name, pkg.architecture);
    holds::<Bucket>(buckets, b) && holds::<Package>(
        buckets[slot::<Bucket>(buckets, b)].versions,
        pkg,
    )
}

/// The versions `vs` after `pkg` is put among them: in its place in the
/// order where its version is new; in the place of the package with its
/// version where `replace` is set; else `vs` as it is.
pub open spec fn versions_with(vs: Seq<PackageView>, pkg: PackageView, replace: bool) -> Seq<
    PackageView,
> {
    let q = slot::<Package>(vs, pkg);
    if !holds::<Package>(vs, pkg) {
        vs.insert(q, pkg)
    } else if replace {
        vs.update(q, pkg)
    } else {
        vs
    }
}

/// The buckets after `pkg` is put into the bucket of its name and
/// architecture, which is made where it is missing.
pub open spec fn stored(buckets: Seq<BucketView>, pkg: PackageView, replace: bool) -> Seq<
    BucketView,
> {
    let b = bucket_probe(pkg.name, pkg.architecture);
    let p = slot::<Bucket>(buckets, b);
    if holds::<Bucket>(buckets, b) {
        buckets.update(
            p,
            BucketView { versions: versions_with(buckets[p].versions, pkg, replace), ..buckets[p] },
        )
    } else {
        buckets.insert(
            p,
            BucketView { name: pkg.name, architecture: pkg.architecture, versions: seq![pkg] },
        )
    }
}

/// The greatest `limit` of the ascending versions `vs`: all of them where
/// they are no more.
pub open spec fn kept(vs: Seq<PackageView>, limit: nat) -> Seq<PackageView> {
    if vs.len() > limit {
        vs.subrange(vs.len() - limit, vs.len() as int)
    } else {
        vs
    }
}

/// The buckets with each cut down to its greatest `limit` versions.
pub open spec fn trimmed_buckets(buckets: Seq<BucketView>, limit: nat) -> Seq<BucketView> {
    Seq::new(
        buckets.len(),
        |i: int| BucketView { versions: kept(buckets[i].versions, limit), ..buckets[i] },
    )
}

/// The index of one suite, component and architecture.
#[derive(Debug)]
pub struct Index {
    pub packages: Vec<Bucket>,
    pub limit: Option<usize>,
}

/// What an index holds.
pub struct IndexView {
    pub packages: Seq<BucketView>,
    pub limit: Option<usize>,
}

impl View for Index {
    type V = IndexView;

    open spec fn view(&self) -> IndexView {
        IndexView { packages: self.packages.deep_view(), limit: self.limit }
    }
}

impl DeepView for Index {
    type V = IndexView;

    open spec fn deep_view(&self) -> IndexView {
        self@
    }
}

/// Putting a well-formed package among well-formed versions of its name
/// and architecture leaves them well formed.
pub proof fn lemma_versions_with_wf(b: BucketView, pkg: PackageView, replace: bool)
    requires
        bucket_wf(b),
        package_wf(pkg),
        pkg.name == b.name,
        pkg.architecture == b.architecture,
    ensures
        bucket_wf(BucketView { versions: versions_with(b.versions, pkg, replace), ..b }),
{
    let vs = b.versions;
    let q = slot::<Package>(vs, pkg);
    lemma_slot_bounds::<Package>(vs, pkg);
    let ws = versions_with(vs, pkg, replace);
    if !holds::<Package>(vs, pkg) {
        lemma_insert_ascending::<Package>(vs, pkg);
        assert forall|i: int| 0 <= i < ws.len() implies {
            &&& package_wf(#[trigger] ws[i])
            &&& ws[i].name == b.name
            &&& ws[i].architecture == b.architecture
        } by {
            if i < q {
                assert(ws[i] == vs[i]);
            } else if i > q {
                assert(ws[i] == vs[i - 1]);
            }
        }
    } else if replace {
        lemma_update_ascending::<Package>(vs, pkg);
        assert forall|i: int| 0 <= i < ws.len() implies {
            &&& package_wf(#[trigger] ws[i])
            &&& ws[i].name == b.name
            &&& ws[i].architecture == b.architecture
        } by {
            if i != q {
                assert(ws[i] == vs[i]);
            }
        }
    }
}

/// Storing a well-formed package leaves well-formed buckets well formed.
pub proof fn lemma_stored_wf(buckets: Seq<BucketView>, pkg: PackageView, replace: bool)
    requires
        buckets_wf(buckets),
        package_wf(pkg),
    ensures
        buckets_wf(stored(buckets, pkg, replace)),
{
    let b = bucket_probe(pkg.name, pkg.architecture);
    let p = slot::<Bucket>(buckets, b);
    lemma_slot_bounds::<Bucket>(buckets, b);
    let after = stored(buckets, pkg, replace);
    if holds::<Bucket>(buckets, b) {
        let old_b = buckets[p];
        lemma_lex_equal(old_b.name, pkg.name);
        lemma_lex_equal(old_b.architecture, pkg.architecture);
        lemma_versions_with_wf(old_b, pkg, replace);
        let new_b = BucketView { versions: versions_with(old_b.versions, pkg, replace), ..old_b };
        assert forall|i: int, j: int| 0 <= i < j < after.len() implies Bucket::rank(
            #[trigger] after[i],
            #[trigger] after[j],
        ) == Order::Less by {
            assert(Bucket::rank(buckets[i], buckets[j]) == Order::Less);
        }
        assert forall|i: int| 0 <= i < after.len() implies bucket_wf(#[trigger] after[i]) by {
            if i != p {
                assert(after[i] == buckets[i]);
            }
        }
    } else {
        let new_b = BucketView {
            name: pkg.name,
            architecture: pkg.architecture,
            versions: seq![pkg],
        };
        assert(slot::<Bucket>(buckets, new_b) == p && !holds::<Bucket>(buckets, new_b)) by {
            lemma_slot_of_bucket(buckets, new_b, b);
        }
        lemma_insert_ascending::<Bucket>(buckets, new_b);
        assert(bucket_wf(new_b));
        assert forall|i: int| 0 <= i < after.len() implies bucket_wf(#[trigger] after[i]) by {
            if i < p {
                assert(after[i] == buckets[i]);
            } else if i > p {
                assert(after[i] == buckets[i - 1]);
            }
        }
    }
}

/// The slot of a bucket depends on its name and architecture alone.
pub proof fn lemma_slot_of_bucket(s: Seq<BucketView>, x: BucketView, y: BucketView)
    requires
        x.name == y.name,
        x.architecture == y.architecture,
    ensures
        slot::<Bucket>(s, x) == slot::<Bucket>(s, y),
        holds::<Bucket>(s, x) == holds::<Bucket>(s, y),
    decreases s.len(),
{
    if s.len() == 0 || Bucket::rank(s[0], x) != Order::Less {
    } else {
        lemma_slot_of_bucket(s.drop_first(), x, y);
    }
    lemma_slot_bounds::<Bucket>(s, x);
}

impl Index {
    /// The buckets are well formed.
    pub open spec fn wf(&self) -> bool {
        buckets_wf(self@.packages)
    }

    /// An index without packages and without a limit.
    pub fn new() -> (r: Index)
        ensures
            r.wf(),
            r@.packages == Seq::<BucketView>::empty(),
            r@.limit.is_none(),
    {
        let r = Index { packages: Vec::new(), limit: None };
        proof {
            assert(r@.packages =~= Seq::<BucketView>::empty());
        }
        r
    }

    /// Puts a package into the index.
    ///
    /// Where the index holds its version for its name and architecture
    /// already, the policy decides: `Error` hands the package back and
    /// leaves the index as it is, `Keep` leaves the index as it is, `Replace`
    /// puts the package in the place of the one held.
    pub fn store(&mut self, pkg: Package, on_conflict: ConflictResolution) -> (r: Result<
        (),
        Package,
    >)
        requires
            old(self).wf(),
            package_wf(pkg@),
        ensures
            final(self).wf(),
            final(self)@.limit == old(self)@.limit,
            final(self)@.packages == stored(
                old(self)@.packages,
                pkg@,
                on_conflict == ConflictResolution::Replace,
            ),
            match r {
                Ok(()) => !(conflicts(old(self)@.packages, pkg@) && on_conflict
                    == ConflictResolution::Error),
                Err(p) => conflicts(old(self)@.packages, pkg@) && on_conflict
                    == ConflictResolution::Error && p == pkg,
            },
    {
        let ghost before = self.packages;
        let ghost buckets = self@.packages;
        let ghost replace = on_conflict == ConflictResolution::Replace;
        proof {
            lemma_stored_wf(buckets, pkg@, replace);
        }
        let mut fresh = Bucket {
            name: copy_bytes(pkg.name.as_slice()),
            architecture: copy_bytes(pkg.architecture.as_slice()),
            versions: Vec::new(),
        };
        proof {
            assert(fresh@.versions =~= Seq::<PackageView>::empty());
            assert(fresh@ == bucket_probe(pkg@.name, pkg@.architecture));
        }
        let (p, found) = locate(&self.packages, &fresh);
        if found {
            let ghost vs = buckets[p as int].versions;
            let (q, present) = locate(&self.packages[p].versions, &pkg);
            if !present {
                self.packages[p].versions.insert(q, pkg);
                proof {
                    assert(self.packages@[p as int].versions.deep_view() =~= vs.insert(
                        q as int,
                        pkg@,
                    ));
                    assert(self@.packages =~= stored(buckets, pkg@, replace));
                }
                Ok(())
            } else {
                match on_conflict {
                    ConflictResolution::Error => {
                        proof {
                            assert(self@.packages =~= stored(buckets, pkg@, replace));
                        }
                        Err(pkg)
                    },
                    ConflictResolution::Keep => {
                        proof {
                            assert(self@.packages =~= stored(buckets, pkg@, replace));
                        }
                        Ok(())
                    },
                    ConflictResolution::Replace => {
                        self.packages[p].versions.set(q, pkg);
                        proof {
                            assert(self.packages@[p as int].versions.deep_view() =~= vs.update(
                                q as int,
                                pkg@,
                            ));
                            assert(self@.packages =~= stored(buckets, pkg@, replace));
                        }
                        Ok(())
                    },
                }
            }
        } else {
            let ghost pv = pkg@;
            fresh.versions.push(pkg);
            proof {
                assert(fresh@.versions =~= seq![pv]);
            }
            self.packages.insert(p, fresh);
            proof {
                lemma_deep_insert(before, self.packages, p as int, fresh);
                assert(self@.packages =~= stored(buckets, pv, replace));
            }
            Ok(())
        }
    }

    /// Cuts every bucket down to its greatest versions, as many as the
    /// limit allows; does nothing where the index has no limit.
    pub fn trim(&mut self)
        requires
            old(self).wf(),
        ensures
            final(self).wf(),
            final(self)@.limit == old(self)@.limit,
            final(self)@.packages == match old(self)@.limit {
                Some(limit) => trimmed_buckets(old(self)@.packages, limit as nat),
                None => old(self)@.packages,
            },
    {
        let limit = match self.limit {
            Some(limit) => limit,
            None => {
                return ;
            },
        };
        let ghost buckets = self@.packages;
        proof {
            lemma_trimmed_wf(buckets, limit as nat);
        }
        let mut i: usize = 0;
        while i < self.packages.len()
            invariant
                0 <= i <= self.packages.len(),
                self.limit == old(self).limit,
                buckets == old(self)@.packages,
                self@.packages.len() == buckets.len(),
                forall|k: int|
                    0 <= k < i ==> #[trigger] self@.packages[k] == (BucketView {
                        versions: kept(buckets[k].versions, limit as nat),
                        ..buckets[k]
                    }),
                forall|k: int| i <= k < buckets.len() ==> #[trigger] self@.packages[k] == buckets[k],
            decreases self.packages.len() - i,
        {
            let n = self.packages[i].versions.len();
            let ghost prev = self.packages;
            if n > limit {
                let tail = self.packages[i].versions.split_off(n - limit);
                self.packages[i].versions = tail;
                proof {
                    let d = n - limit;
                    let vs = prev@[i as int].versions;
                    assert(self.packages@.len() == prev@.len());
                    assert(self.packages@[i as int].name == prev@[i as int].name);
                    assert(self.packages@[i as int].architecture == prev@[i as int].architecture);
                    assert(tail@ == vs@.subrange(d as int, n as int));
                    assert(tail.deep_view() =~= vs.deep_view().subrange(d as int, n as int));
                    assert(prev.deep_view()[i as int] == buckets[i as int]);
                    assert(self@.packages[i as int].versions == kept(
                        buckets[i as int].versions,
                        limit as nat,
                    ));
                    assert forall|k: int| 0 <= k < prev@.len() && k != i implies 
                        #[trigger] self@.packages[k] == prev.deep_view()[k] by {
                        assert(self.packages@[k] == prev@[k]);
                    }
                }
            }
            i += 1;
        }
        proof {
            assert(self@.packages =~= trimmed_buckets(buckets, limit as nat));
        }
    }
}

/// Cutting buckets down leaves them well formed.
pub proof fn lemma_trimmed_wf(buckets: Seq<BucketView>, limit: nat)
    requires
        buckets_wf(buckets),
    ensures
        buckets_wf(trimmed_buckets(buckets, limit)),
{
    let t = trimmed_buckets(buckets, limit);
    assert forall|i: int, j: int| 0 <= i < j < t.len() implies Bucket::rank(
        #[trigger] t[i],
        #[trigger] t[j],
    ) == Order::Less by {
        assert(Bucket::rank(buckets[i], buckets[j]) == Order::Less);
    }
    assert forall|i: int| 0 <= i < t.len() implies bucket_wf(#[trigger] t[i]) by {
        let b = buckets[i];
        assert(bucket_wf(b));
        let vs = b.versions;
        let ks = kept(vs, limit);
        if vs.len() > limit {
            let d = vs.len() - limit;
            assert forall|x: int, y: int| 0 <= x < y < ks.len() implies Package::rank(
                #[trigger] ks[x],
                #[trigger] ks[y],
            ) == Order::Less by {
                assert(Package::rank(vs[x + d], vs[y + d]) == Order::Less);
            }
            assert forall|x: int| 0 <= x < ks.len() implies {
                &&& package_wf(#[trigger] ks[x])
                &&& ks[x].name == b.name
                &&& ks[x].architecture == b.architecture
            } by {
                assert(ks[x] == vs[x + d]);
            }
        }
    }
}

/// The fields that a package in an index file must have.
#[derive(Clone, Copy, Debug, PartialEq, Eq, Structural)]
pub enum PackageField {
    Package,
    Version,
    Architecture,
    Filename,
    Size,
    Sha256,
}

impl PackageField {
    /// The field's key.
    pub open spec fn key(self) -> Seq<u8> {
        match self {
            PackageField::Package => "Package".spec_bytes(),
            PackageField::Version => "Version".spec_bytes(),
            PackageField::Architecture => "Architecture".spec_bytes(),
            PackageField::Filename => "Filename".spec_bytes(),
            PackageField::Size => "Size".spec_bytes(),
            PackageField::Sha256 => "SHA256".spec_bytes(),
        }
    }

    /// The field's key.
    pub fn name(&self) -> (r: &'static [u8])
        ensures
            r@ == self.key(),
    {
        match self {
            PackageField::Package => "Package".as_bytes(),
            PackageField::Version => "Version".as_bytes(),
            PackageField::Architecture => "Architecture".as_bytes(),
            PackageField::Filename => "Filename".as_bytes(),
            PackageField::Size => "Size".as_bytes(),
            PackageField::Sha256 => "SHA256".as_bytes(),
        }
    }
}

/// Why an index file could not be read.
#[derive(Clone, Copy, Debug, PartialEq, Eq, Structural)]
pub enum PackagesRead {
    /// The text is no control file.
    Control(ControlError),
    /// A field that a package must have is absent.
    AbsentField(PackageField),
    /// The size of a package is no unsigned decimal number.
    FileSize,
}

/// Whether a key is one of those that a package's own attributes are
/// written under, whatever the case of its ASCII letters: name, version
/// and architecture.
pub open spec fn is_promoted(key: Seq<u8>) -> bool {
    ||| folded(key) == folded(PackageField::Package.key())
    ||| folded(key) == folded(PackageField::Version.key())
    ||| folded(key) == folded(PackageField::Architecture.key())
}

/// The text of the fields of a package's metadata that are written after
/// its own attributes: all but the promoted ones.
pub open spec fn extra_text(fields: Seq<FieldView>) -> Seq<u8>
    decreases fields.len(),
{
    if fields.len() == 0 {
        Seq::empty()
    } else if is_promoted(fields.last().key) {
        extra_text(fields.drop_last())
    } else {
        extra_text(fields.drop_last()) + kv_text(fields.last().key, fields.last().value)
    }
}

/// The stanza of a package in an index file: its name, version,
/// architecture, file name, digest and size, then the rest of its
/// metadata, and an empty line.
pub open spec fn package_text(p: PackageView) -> Seq<u8> {
    kv_text(PackageField::Package.key(), p.name) + kv_text(PackageField::Version.key(), p.version)
        + kv_text(PackageField::Architecture.key(), p.architecture) + kv_text(
        PackageField::Filename.key(),
        p.filename,
    ) + kv_text(PackageField::Sha256.key(), p.sha256) + kv_text(
        PackageField::Size.key(),
        digits_of(10, p.size as nat),
    ) + extra_text(p.metadata) + seq![LF]
}

/// The stanzas of the packages, one after the other.
pub open spec fn versions_text(vs: Seq<PackageView>) -> Seq<u8>
    decreases vs.len(),
{
    if vs.len() == 0 {
        Seq::empty()
    } else {
        versions_text(vs.drop_last()) + package_text(vs.last())
    }
}

/// The text of an index file: the stanzas of all packages, bucket after
/// bucket.
pub open spec fn index_text(buckets: Seq<BucketView>) -> Seq<u8>
    decreases buckets.len(),
{
    if buckets.len() == 0 {
        Seq::empty()
    } else {
        index_text(buckets.drop_last()) + versions_text(buckets.last().versions)
    }
}

/// The package that a record of an index file is, or why it is none.
pub open spec fn package_of_record(record: Seq<FieldView>) -> Result<PackageView, PackagesRead> {
    let k1 = PackageField::Package.key();
    let k2 = PackageField::Version.key();
    let k3 = PackageField::Architecture.key();
    let k4 = PackageField::Filename.key();
    let k5 = PackageField::Size.key();
    let k6 = PackageField::Sha256.key();
    let r1 = without(record, k1);
    let r2 = without(r1, k2);
    let r3 = without(r2, k3);
    let r4 = without(r3, k4);
    let r5 = without(r4, k5);
    let r6 = without(r5, k6);
    if lookup(record, k1).is_none() {
        Err(PackagesRead::AbsentField(PackageField::Package))
    } else if lookup(r1, k2).is_none() {
        Err(PackagesRead::AbsentField(PackageField::Version))
    } else if lookup(r2, k3).is_none() {
        Err(PackagesRead::AbsentField(PackageField::Architecture))
    } else if lookup(r3, k4).is_none() {
        Err(PackagesRead::AbsentField(PackageField::Filename))
    } else if lookup(r4, k5).is_none() {
        Err(PackagesRead::AbsentField(PackageField::Size))
    } else if unsigned_value(lookup(r4, k5).unwrap()).is_none() {
        Err(PackagesRead::FileSize)
    } else if lookup(r5, k6).is_none() {
        Err(PackagesRead::AbsentField(PackageField::Sha256))
    } else {
        Ok(
            PackageView {
                name: lookup(record, k1).unwrap(),
                version: lookup(r1, k2).unwrap(),
                architecture: lookup(r2, k3).unwrap(),
                filename: lookup(r3, k4).unwrap(),
                size: unsigned_value(lookup(r4, k5).unwrap()).unwrap(),
                sha256: lookup(r5, k6).unwrap(),
                metadata: r6,
            },
        )
    }
}

/// The buckets after the packages of the records from `at` on are stored,
/// each in the place of one with its version; or why a record is no
/// package.
pub open spec fn with_records(buckets: Seq<BucketView>, records: Seq<Seq<FieldView>>, at: int)
    -> Result<Seq<BucketView>, PackagesRead>
    decreases records.len() - at,
{
    if at < 0 || at >= records.len() {
        Ok(buckets)
    } else {
        match package_of_record(records[at]) {
            Err(e) => Err(e),
            Ok(p) => with_records(stored(buckets, p, true), records, at + 1),
        }
    }
}

/// The buckets that the text of an index file holds, or why it is none.
pub open spec fn index_of_text(text: Seq<u8>) -> Result<Seq<BucketView>, PackagesRead> {
    match parsed(text) {
        Err(e) => Err(PackagesRead::Control(e)),
        Ok(records) => with_records(Seq::empty(), records, 0),
    }
}

/// The package that a record of an index file is.
fn package_from(record: ControlRecord) -> (r: Result<Package, PackagesRead>)
    requires
        record.wf(),
    ensures
        match r {
            Ok(p) => package_wf(p@) && package_of_record(record@) == Ok::<
                PackageView,
                PackagesRead,
            >(p@),
            Err(e) => package_of_record(record@) == Err::<PackageView, PackagesRead>(e),
        },
{
    let mut control = record;
    let name = match control.remove(PackageField::Package.name()) {
        Some(v) => v,
        None => {
            return Err(PackagesRead::AbsentField(PackageField::Package));
        },
    };
    let version = match control.remove(PackageField::Version.name()) {
        Some(v) => v,
        None => {
            return Err(PackagesRead::AbsentField(PackageField::Version));
        },
    };
    let architecture = match control.remove(PackageField::Architecture.name()) {
        Some(v) => v,
        None => {
            return Err(PackagesRead::AbsentField(PackageField::Architecture));
        },
    };
    let filename = match control.remove(PackageField::Filename.name()) {
        Some(v) => v,
        None => {
            return Err(PackagesRead::AbsentField(PackageField::Filename));
        },
    };
    let size_text = match control.remove(PackageField::Size.name()) {
        Some(v) => v,
        None => {
            return Err(PackagesRead::AbsentField(PackageField::Size));
        },
    };
    let size = match parse_unsigned(size_text.as_slice()) {
        Some(v) => v,
        None => {
            return Err(PackagesRead::FileSize);
        },
    };
    let sha256 = match control.remove(PackageField::Sha256.name()) {
        Some(v) => v,
        None => {
            return Err(PackagesRead::AbsentField(PackageField::Sha256));
        },
    };
    Ok(
        Package {
            name,
            version: Version(version),
            architecture,
            filename,
            size,
            sha256,
            metadata: control,
        },
    )
}

/// Writes the stanza of a package.
fn output_package(p: &Package, out: &mut Vec<u8>)
    ensures
        final(out)@ == old(out)@ + package_text(p@),
{
    out.write_kv(PackageField::Package.name(), p.name.as_slice());
    out.write_kv(PackageField::Version.name(), p.version.0.as_slice());
    out.write_kv(PackageField::Architecture.name(), p.architecture.as_slice());
    out.write_kv(PackageField::Filename.name(), p.filename.as_slice());
    out.write_kv(PackageField::Sha256.name(), p.sha256.as_slice());
    let size = decimal(p.size);
    out.write_kv(PackageField::Size.name(), size.as_slice());
    let ghost head = out@;
    let ghost fields = p@.metadata;
    let mut i: usize = 0;
    proof {
        assert(fields.subrange(0, 0) =~= Seq::<FieldView>::empty());
        assert(out@ =~= head + extra_text(fields.subrange(0, 0)));
    }
    while i < p.metadata.fields.len()
        invariant
            0 <= i <= p.metadata.fields.len(),
            fields == p@.metadata,
            out@ == head + extra_text(fields.subrange(0, i as int)),
        decreases p.metadata.fields.len() - i,
    {
        let f = &p.metadata.fields[i];
        let promoted = same_folded(f.key.as_slice(), PackageField::Package.name()) || same_folded(
            f.key.as_slice(),
            PackageField::Version.name(),
        ) || same_folded(f.key.as_slice(), PackageField::Architecture.name());
        if !promoted {
            out.write_kv(f.key.as_slice(), f.value.as_slice());
        }
        proof {
            let next = fields.subrange(0, i + 1);
            assert(next.drop_last() =~= fields.subrange(0, i as int));
            assert(next.last() == p.metadata.fields@[i as int]@);
            assert(out@ =~= head + extra_text(next));
        }
        i += 1;
    }
    out.push(LF);
    proof {
        assert(fields.subrange(0, fields.len() as int) =~= fields);
        assert(out@ =~= old(out)@ + package_text(p@));
    }
}

impl Index {
    /// Reads an index file.  The index has no limit.
    pub fn read(text: &[u8]) -> (r: Result<Index, PackagesRead>)
        ensures
            match r {
                Ok(index) => index.wf() && index@.limit.is_none() && index_of_text(text@) == Ok::<
                    Seq<BucketView>,
                    PackagesRead,
                >(index@.packages),
                Err(e) => index_of_text(text@) == Err::<Seq<BucketView>, PackagesRead>(e),
            },
    {
        let mut items = match parse_control(text) {
            Ok(items) => items,
            Err(e) => {
                return Err(PackagesRead::Control(e));
            },
        };
        let ghost records = items.deep_view();
        let mut index = Index::new();
        let mut i: usize = 0;
        while i < items.len()
            invariant
                0 <= i <= items.len(),
                items.len() == records.len(),
                forall|k: int| i <= k < items.len() ==> (#[trigger] items[k])@ == records[k],
                forall|k: int| i <= k < items.len() ==> (#[trigger] items[k]).wf(),
                index.wf(),
                index@.limit.is_none(),
                index_of_text(text@) == with_records(Seq::empty(), records, 0),
                with_records(index@.packages, records, i as int) == with_records(
                    Seq::empty(),
                    records,
                    0,
                ),
            decreases items.len() - i,
        {
            let mut record = ControlRecord::new();
            core::mem::swap(&mut record, &mut items[i]);
            let pkg = match package_from(record) {
                Ok(pkg) => pkg,
                Err(e) => {
                    return Err(e);
                },
            };
            let _ = index.store(pkg, ConflictResolution::Replace);
            i += 1;
        }
        Ok(index)
    }

    /// Writes the index file.
    pub fn output(&self, out: &mut Vec<u8>)
        ensures
            final(out)@ == old(out)@ + index_text(self@.packages),
    {
        let ghost buckets = self@.packages;
        let mut i: usize = 0;
        proof {
            assert(buckets.subrange(0, 0) =~= Seq::<BucketView>::empty());
            assert(out@ =~= old(out)@ + index_text(buckets.subrange(0, 0)));
        }
        while i < self.packages.len()
            invariant
                0 <= i <= self.packages.len(),
                buckets == self@.packages,
                out@ == old(out)@ + index_text(buckets.subrange(0, i as int)),
            decreases self.packages.len() - i,
        {
            let ghost start = out@;
            let ghost vs = buckets[i as int].versions;
            let bucket = &self.packages[i];
            let mut j: usize = 0;
            proof {
                assert(vs.subrange(0, 0) =~= Seq::<PackageView>::empty());
                assert(out@ =~= start + versions_text(vs.subrange(0, 0)));
            }
            while j < bucket.versions.len()
                invariant
                    0 <= j <= bucket.versions.len(),
                    vs == bucket@.versions,
                    out@ == start + versions_text(vs.subrange(0, j as int)),
                decreases bucket.versions.len() - j,
            {
                output_package(&bucket.versions[j], out);
                proof {
                    let next = vs.subrange(0, j + 1);
                    assert(next.drop_last() =~= vs.subrange(0, j as int));
                    assert(next.last() == bucket.versions@[j as int]@);
                    assert(out@ =~= start + versions_text(next));
                }
                j += 1;
            }
            proof {
                assert(vs.subrange(0, vs.len() as int) =~= vs);
                let next = buckets.subrange(0, i + 1);
                assert(next.drop_last() =~= buckets.subrange(0, i as int));
                assert(next.last() == buckets[i as int]);
                assert(out@ =~= old(out)@ + index_text(next));
            }
            i += 1;
        }
        proof {
            assert(buckets.subrange(0, buckets.len() as int) =~= buckets);
        }
    }
}

} // verus!
