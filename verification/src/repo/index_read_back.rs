//! What an index file gives when it is read back.

use vstd::prelude::*;
use vstd::string::*;
use crate::deb_ext::{kv_text, LF};
use crate::order::{
    ascending, holds, lemma_ascending_unique, lemma_slot_bounds, slot, Order, Ranked,
};
use crate::repo::commit::{lemma_manifest_lists_index, listed_once, staging, StepView};
use crate::repo::deb::{
    lemma_remove_ascending, parsed, probe, record_text, without, ControlError, Field, FieldView,
};
use crate::repo::debian::{
    extra_text, index_of_text, index_text, is_promoted, package_of_record, package_text,
    package_wf, stored, versions_text, with_records, BucketView, PackageField, PackageView,
    PackagesRead,
};
use crate::repo::index_rules::bucket_of;
use crate::repo::metadata_rules::lemma_lookup_contained;
use crate::repo::paths::{packages_path, temporary};
use crate::repo::repository::{repository_wf, trimmed_indices, RepositoryView};
use crate::repo::round_trip::{
    distinct_keys, field_reads_back, key_reads_back, lemma_parse_render_any_order, put_all,
    value_reads_back,
};
use crate::text::{
    all_digits, digits_of, fold_rank, folded, is_digit, lemma_digits_round_trip, lemma_index_of_is,
    lemma_lex_equal, lemma_lex_flip, lemma_lex_transitive, unsigned_value,
};

verus! {

/// Where a record holds a field of the key, taking it out leaves the
/// fields of all other keys and no others.
proof fn lemma_without_held(s: Seq<FieldView>, key: Seq<u8>)
    requires
        ascending::<Field>(s),
        holds::<Field>(s, probe(key)),
    ensures
        forall|f: FieldView|
            without(s, key).contains(f) ==> s.contains(f) && fold_rank(f.key, key)
                != Order::Equal,
        forall|f: FieldView|
            s.contains(f) && fold_rank(f.key, key) != Order::Equal ==> without(s, key).contains(f),
{
    let pr = probe(key);
    let p = slot::<Field>(s, pr);
    let t = s.remove(p);
    lemma_slot_bounds::<Field>(s, pr);
    lemma_lex_equal(folded(s[p].key), folded(key));
    assert(folded(s[p].key) == folded(key));
    assert(without(s, key) == t);
    assert forall|f: FieldView| t.contains(f) implies s.contains(f) && fold_rank(f.key, key)
        != Order::Equal by {
        let i = choose|i: int| 0 <= i < t.len() && t[i] == f;
        let a = if i < p {
            i
        } else {
            i + 1
        };
        assert(s[a] == f);
        assert(fold_rank(f.key, key) == Field::rank(s[a], s[p]));
        if a < p {
            assert(Field::rank(s[a], s[p]) == Order::Less);
        } else {
            assert(Field::rank(s[p], s[a]) == Order::Less);
            lemma_lex_flip(folded(s[p].key), folded(s[a].key));
        }
    }
    assert forall|f: FieldView|
        s.contains(f) && fold_rank(f.key, key) != Order::Equal implies t.contains(f) by {
        let a = choose|a: int| 0 <= a < s.len() && s[a] == f;
        if a < p {
            assert(t[a] == f);
        } else if a > p {
            assert(t[a - 1] == f);
        } else {
            assert(fold_rank(f.key, key) == Field::rank(s[p], pr));
        }
    }
}

/// Where a record holds no field of the key, none of its fields has that
/// key.
proof fn lemma_without_absent(s: Seq<FieldView>, key: Seq<u8>)
    requires
        ascending::<Field>(s),
        !holds::<Field>(s, probe(key)),
    ensures
        forall|f: FieldView| s.contains(f) ==> fold_rank(f.key, key) != Order::Equal,
{
    let pr = probe(key);
    let p = slot::<Field>(s, pr);
    lemma_slot_bounds::<Field>(s, pr);
    assert forall|f: FieldView| s.contains(f) implies fold_rank(f.key, key)
        != Order::Equal by {
        let a = choose|a: int| 0 <= a < s.len() && s[a] == f;
        assert(fold_rank(f.key, key) == Field::rank(s[a], pr));
        if a < p {
            assert(Field::rank(s[a], pr) == Order::Less);
        } else if a > p {
            assert(Field::rank(s[p], s[a]) == Order::Less);
            assert(Field::rank(s[p], pr) == Order::Greater);
            lemma_lex_flip(folded(key), folded(s[p].key));
            lemma_lex_transitive(folded(key), folded(s[p].key), folded(s[a].key));
            lemma_lex_flip(folded(key), folded(s[a].key));
        }
    }
}

/// Taking the field of a key out of a record leaves a record, which holds
/// the fields of all other keys and no others.
pub proof fn lemma_without_holds(s: Seq<FieldView>, key: Seq<u8>)
    requires
        ascending::<Field>(s),
    ensures
        ascending::<Field>(without(s, key)),
        forall|f: FieldView|
            without(s, key).contains(f) <==> s.contains(f) && fold_rank(f.key, key)
                != Order::Equal,
{
    let pr = probe(key);
    lemma_slot_bounds::<Field>(s, pr);
    if holds::<Field>(s, pr) {
        lemma_remove_ascending::<Field>(s, slot::<Field>(s, pr));
        lemma_without_held(s, key);
    } else {
        lemma_without_absent(s, key);
    }
}

/// Whether a key is one of those under which an index file holds a
/// package's own attributes, whatever the case of its ASCII letters.
pub open spec fn is_attribute(key: Seq<u8>) -> bool {
    ||| folded(key) == folded(PackageField::Package.key())
    ||| folded(key) == folded(PackageField::Version.key())
    ||| folded(key) == folded(PackageField::Architecture.key())
    ||| folded(key) == folded(PackageField::Filename.key())
    ||| folded(key) == folded(PackageField::Sha256.key())
    ||| folded(key) == folded(PackageField::Size.key())
}

/// The fields under which an index file holds a package's own attributes,
/// in the order in which they are written.
pub open spec fn attribute_fields(p: PackageView) -> Seq<FieldView> {
    seq![
        FieldView { key: PackageField::Package.key(), value: p.name },
        FieldView { key: PackageField::Version.key(), value: p.version },
        FieldView { key: PackageField::Architecture.key(), value: p.architecture },
        FieldView { key: PackageField::Filename.key(), value: p.filename },
        FieldView { key: PackageField::Sha256.key(), value: p.sha256 },
        FieldView { key: PackageField::Size.key(), value: digits_of(10, p.size as nat) },
    ]
}

/// The keys of a package's own attributes read back, and no two of them
/// are the same.
proof fn lemma_attribute_keys()
    ensures
        key_reads_back(PackageField::Package.key()),
        key_reads_back(PackageField::Version.key()),
        key_reads_back(PackageField::Architecture.key()),
        key_reads_back(PackageField::Filename.key()),
        key_reads_back(PackageField::Sha256.key()),
        key_reads_back(PackageField::Size.key()),
        PackageField::Package.key().len() == 7,
        PackageField::Version.key().len() == 7,
        PackageField::Architecture.key().len() == 12,
        PackageField::Filename.key().len() == 8,
        PackageField::Sha256.key().len() == 6,
        PackageField::Size.key().len() == 4,
        PackageField::Package.key()[0] == 0x50,
        PackageField::Version.key()[0] == 0x56,
{
    reveal_strlit("Package");
    reveal_strlit("Version");
    reveal_strlit("Architecture");
    reveal_strlit("Filename");
    reveal_strlit("SHA256");
    reveal_strlit("Size");
    let a = "Package";
    let b = "Version";
    let c = "Architecture";
    let d = "Filename";
    let e = "SHA256";
    let f = "Size";
    assert(is_ascii(a)) by {
        assert forall|i: int| 0 <= i < a@.len() implies (a@[i] as nat) < 128 by {}
    }
    assert(is_ascii(b)) by {
        assert forall|i: int| 0 <= i < b@.len() implies (b@[i] as nat) < 128 by {}
    }
    assert(is_ascii(c)) by {
        assert forall|i: int| 0 <= i < c@.len() implies (c@[i] as nat) < 128 by {}
    }
    assert(is_ascii(d)) by {
        assert forall|i: int| 0 <= i < d@.len() implies (d@[i] as nat) < 128 by {}
    }
    assert(is_ascii(e)) by {
        assert forall|i: int| 0 <= i < e@.len() implies (e@[i] as nat) < 128 by {}
    }
    assert(is_ascii(f)) by {
        assert forall|i: int| 0 <= i < f@.len() implies (f@[i] as nat) < 128 by {}
    }
    is_ascii_spec_bytes(a);
    is_ascii_spec_bytes(b);
    is_ascii_spec_bytes(c);
    is_ascii_spec_bytes(d);
    is_ascii_spec_bytes(e);
    is_ascii_spec_bytes(f);
}

/// No two of the keys of a package's own attributes differ only in the
/// case of ASCII letters.
proof fn lemma_attribute_keys_differ(p: PackageView)
    ensures
        distinct_keys(attribute_fields(p)),
        forall|i: int| 0 <= i < 6 ==> is_attribute(#[trigger] attribute_fields(p)[i].key),
{
    lemma_attribute_keys();
    let s = attribute_fields(p);
    assert(folded(s[0].key)[0] != folded(s[1].key)[0]);
    assert forall|i: int, j: int| 0 <= i < j < s.len() implies fold_rank(
        (#[trigger] s[i]).key,
        (#[trigger] s[j]).key,
    ) != Order::Equal by {
        lemma_lex_equal(folded(s[i].key), folded(s[j].key));
        assert(folded(s[i].key).len() == s[i].key.len());
        assert(folded(s[j].key).len() == s[j].key.len());
    }
}

/// The text of fields that stand one run after another is the text of
/// the one run and then that of the other.
proof fn lemma_record_text_concat(a: Seq<FieldView>, b: Seq<FieldView>)
    ensures
        record_text(a + b) == record_text(a) + record_text(b),
    decreases b.len(),
{
    if b.len() == 0 {
        assert(a + b =~= a);
        assert(record_text(a) + record_text(b) =~= record_text(a));
    } else {
        lemma_record_text_concat(a, b.drop_last());
        assert((a + b).drop_last() =~= a + b.drop_last());
        assert((a + b).last() == b.last());
        assert(record_text(a + b) =~= record_text(a) + record_text(b));
    }
}

/// Of fields none of which is kept back, all are written.
proof fn lemma_extra_text(fields: Seq<FieldView>)
    requires
        forall|i: int| 0 <= i < fields.len() ==> !is_promoted((#[trigger] fields[i]).key),
    ensures
        extra_text(fields) == record_text(fields),
    decreases fields.len(),
{
    if fields.len() > 0 {
        let init = fields.drop_last();
        assert forall|i: int| 0 <= i < init.len() implies !is_promoted(
            (#[trigger] init[i]).key,
        ) by {
            assert(init[i] == fields[i]);
        }
        lemma_extra_text(init);
        assert(!is_promoted(fields[fields.len() - 1].key));
    }
}

/// The stanza of a package is the text of its attributes' fields and of
/// the fields of its metadata, and an empty line.
proof fn lemma_package_text(p: PackageView)
    requires
        forall|i: int| 0 <= i < p.metadata.len() ==> !is_promoted((#[trigger] p.metadata[i]).key),
    ensures
        package_text(p) == record_text(attribute_fields(p) + p.metadata) + seq![LF],
{
    let s = attribute_fields(p);
    let s5 = s.drop_last();
    let s4 = s5.drop_last();
    let s3 = s4.drop_last();
    let s2 = s3.drop_last();
    let s1 = s2.drop_last();
    let s0 = s1.drop_last();
    assert(s0.len() == 0);
    assert(record_text(s0) =~= Seq::<u8>::empty());
    assert(record_text(s1) =~= kv_text(s[0].key, s[0].value));
    assert(record_text(s2) == record_text(s1) + kv_text(s[1].key, s[1].value));
    assert(record_text(s3) == record_text(s2) + kv_text(s[2].key, s[2].value));
    assert(record_text(s4) == record_text(s3) + kv_text(s[3].key, s[3].value));
    assert(record_text(s5) == record_text(s4) + kv_text(s[4].key, s[4].value));
    assert(record_text(s) == record_text(s5) + kv_text(s[5].key, s[5].value));
    lemma_extra_text(p.metadata);
    lemma_record_text_concat(s, p.metadata);
}

/// The size of a file as it is written reads back as the same number.
proof fn lemma_size_reads_back(n: u64)
    ensures
        value_reads_back(digits_of(10, n as nat)),
        unsigned_value(digits_of(10, n as nat)) == Some(n),
{
    let d = digits_of(10, n as nat);
    lemma_digits_round_trip(10, n as nat);
    assert forall|i: int| 0 <= i < d.len() implies #[trigger] d[i] != LF by {
        assert(is_digit(10, d[i]));
    }
    lemma_index_of_is(d, LF, d.len() as int);
    assert(is_digit(10, d[0]));
    assert(is_digit(10, d[d.len() - 1]));
    assert(all_digits(10, d));
}

/// A package that an index file gives back as it was written: the fields
/// of its metadata stand in the order of their keys, read back, and none
/// of them has the key of one of the package's own attributes; and the
/// name, version, architecture, file name and digest read back as values.
pub open spec fn package_reads_back(p: PackageView) -> bool {
    &&& package_wf(p)
    &&& value_reads_back(p.name)
    &&& value_reads_back(p.version)
    &&& value_reads_back(p.architecture)
    &&& value_reads_back(p.filename)
    &&& value_reads_back(p.sha256)
    &&& forall|i: int|
        0 <= i < p.metadata.len() ==> field_reads_back(#[trigger] p.metadata[i]) && !is_attribute(
            p.metadata[i].key,
        )
}

/// The fields that the stanza of a package is written from.
pub open spec fn stanza_fields(p: PackageView) -> Seq<FieldView> {
    attribute_fields(p) + p.metadata
}

/// The fields that the stanza of a package is written from read back, and
/// no two of them have the same key.
proof fn lemma_stanza_fields(p: PackageView)
    requires
        package_reads_back(p),
    ensures
        distinct_keys(stanza_fields(p)),
        forall|i: int|
            0 <= i < stanza_fields(p).len() ==> field_reads_back(#[trigger] stanza_fields(p)[i]),
{
    let s = attribute_fields(p);
    let fields = stanza_fields(p);
    lemma_attribute_keys();
    lemma_attribute_keys_differ(p);
    lemma_size_reads_back(p.size);
    assert forall|i: int| 0 <= i < fields.len() implies field_reads_back(
        #[trigger] fields[i],
    ) by {
        if i >= 6 {
            assert(fields[i] == p.metadata[i - 6]);
        } else {
            assert(fields[i] == s[i]);
        }
    }
    assert forall|i: int, j: int| 0 <= i < j < fields.len() implies fold_rank(
        (#[trigger] fields[i]).key,
        (#[trigger] fields[j]).key,
    ) != Order::Equal by {
        lemma_lex_equal(folded(fields[i].key), folded(fields[j].key));
        if j < 6 {
            assert(fields[i] == s[i] && fields[j] == s[j]);
        } else if i < 6 {
            assert(fields[i] == s[i]);
            assert(fields[j] == p.metadata[j - 6]);
            assert(is_attribute(s[i].key));
        } else {
            assert(fields[i] == p.metadata[i - 6]);
            assert(fields[j] == p.metadata[j - 6]);
            assert(Field::rank(p.metadata[i - 6], p.metadata[j - 6]) == Order::Less);
        }
    }
}

/// A field stays when the field of another key is taken out.
pub proof fn lemma_stays_without(r: Seq<FieldView>, key: Seq<u8>, f: FieldView)
    requires
        ascending::<Field>(r),
        r.contains(f),
        folded(f.key) != folded(key),
    ensures
        without(r, key).contains(f),
{
    lemma_without_holds(r, key);
    lemma_lex_equal(folded(f.key), folded(key));
}

/// The metadata of a package is what is left of the record of its stanza
/// when the fields of its own attributes are taken out.
proof fn lemma_metadata_left(p: PackageView, record: Seq<FieldView>, left: Seq<FieldView>)
    requires
        package_reads_back(p),
        ascending::<Field>(left),
        forall|f: FieldView| record.contains(f) <==> stanza_fields(p).contains(f),
        forall|f: FieldView| left.contains(f) <==> record.contains(f) && !is_attribute(f.key),
    ensures
        left == p.metadata,
{
    let s = attribute_fields(p);
    let fields = stanza_fields(p);
    lemma_attribute_keys_differ(p);
    assert forall|f: FieldView| left.contains(f) <==> p.metadata.contains(f) by {
        if left.contains(f) {
            assert(fields.contains(f));
            let i = choose|i: int| 0 <= i < fields.len() && fields[i] == f;
            if i < 6 {
                assert(fields[i] == s[i]);
                assert(is_attribute(s[i].key));
            } else {
                assert(p.metadata[i - 6] == f);
            }
        }
        if p.metadata.contains(f) {
            let j = choose|j: int| 0 <= j < p.metadata.len() && p.metadata[j] == f;
            assert(fields[j + 6] == f);
            assert(fields.contains(f));
        }
    }
    lemma_ascending_unique::<Field>(left, p.metadata);
}

/// The record of a package's stanza is read as the package.
proof fn lemma_package_of_record(p: PackageView, record: Seq<FieldView>)
    requires
        package_reads_back(p),
        ascending::<Field>(record),
        forall|f: FieldView| record.contains(f) <==> stanza_fields(p).contains(f),
    ensures
        package_of_record(record) == Ok::<PackageView, PackagesRead>(p),
{
    let s = attribute_fields(p);
    let fields = stanza_fields(p);
    let k1 = PackageField::Package.key();
    let k2 = PackageField::Version.key();
    let k3 = PackageField::Architecture.key();
    let k4 = PackageField::Filename.key();
    let k5 = PackageField::Size.key();
    let k6 = PackageField::Sha256.key();
    let r1 = without(record, k1);
    let r2 = without(r1, k2);
    let r3 = without(r2, k3);
    let r4 = without(r3, k4);
    let r5 = without(r4, k5);
    let r6 = without(r5, k6);
    lemma_attribute_keys();
    lemma_attribute_keys_differ(p);
    lemma_size_reads_back(p.size);
    assert forall|i: int| 0 <= i < 6 implies record.contains(#[trigger] s[i]) by {
        assert(fields[i] == s[i]);
        assert(fields.contains(s[i]));
    }
    assert forall|i: int, j: int| 0 <= i < 6 && 0 <= j < 6 && i != j implies folded(
        (#[trigger] s[i]).key,
    ) != folded((#[trigger] s[j]).key) by {
        if i < j {
            lemma_lex_equal(folded(s[i].key), folded(s[j].key));
        } else {
            lemma_lex_equal(folded(s[j].key), folded(s[i].key));
        }
    }
    assert(record.contains(s[0]) && record.contains(s[1]) && record.contains(s[2])
        && record.contains(s[3]) && record.contains(s[4]) && record.contains(s[5]));
    lemma_lookup_contained(record, s[0]);
    lemma_without_holds(record, k1);
    lemma_stays_without(record, k1, s[1]);
    lemma_stays_without(record, k1, s[2]);
    lemma_stays_without(record, k1, s[3]);
    lemma_stays_without(record, k1, s[4]);
    lemma_stays_without(record, k1, s[5]);
    lemma_lookup_contained(r1, s[1]);
    lemma_without_holds(r1, k2);
    lemma_stays_without(r1, k2, s[2]);
    lemma_stays_without(r1, k2, s[3]);
    lemma_stays_without(r1, k2, s[4]);
    lemma_stays_without(r1, k2, s[5]);
    lemma_lookup_contained(r2, s[2]);
    lemma_without_holds(r2, k3);
    lemma_stays_without(r2, k3, s[3]);
    lemma_stays_without(r2, k3, s[4]);
    lemma_stays_without(r2, k3, s[5]);
    lemma_lookup_contained(r3, s[3]);
    lemma_without_holds(r3, k4);
    lemma_stays_without(r3, k4, s[4]);
    lemma_stays_without(r3, k4, s[5]);
    lemma_lookup_contained(r4, s[5]);
    lemma_without_holds(r4, k5);
    lemma_stays_without(r4, k5, s[4]);
    lemma_lookup_contained(r5, s[4]);
    lemma_without_holds(r5, k6);
    assert forall|f: FieldView| r6.contains(f) <==> record.contains(f) && !is_attribute(
        f.key,
    ) by {
        lemma_lex_equal(folded(f.key), folded(k1));
        lemma_lex_equal(folded(f.key), folded(k2));
        lemma_lex_equal(folded(f.key), folded(k3));
        lemma_lex_equal(folded(f.key), folded(k4));
        lemma_lex_equal(folded(f.key), folded(k5));
        lemma_lex_equal(folded(f.key), folded(k6));
    }
    lemma_metadata_left(p, record, r6);
}

/// Round trip of an index that holds one package: where the package reads
/// back, the text of the index is the package's stanza, and reading that
/// text gives the index again, with just this package in the bucket of its
/// name and architecture.
pub proof fn lemma_index_reads_back(p: PackageView)
    requires
        package_reads_back(p),
    ensures
        stored(Seq::empty(), p, true) == seq![bucket_of(p)],
        index_text(seq![bucket_of(p)]) == package_text(p),
        parsed(package_text(p)) == Ok::<Seq<Seq<FieldView>>, ControlError>(
            seq![put_all(stanza_fields(p), stanza_fields(p).len())],
        ),
        package_of_record(put_all(stanza_fields(p), stanza_fields(p).len())) == Ok::<
            PackageView,
            PackagesRead,
        >(p),
        index_of_text(index_text(seq![bucket_of(p)])) == Ok::<Seq<BucketView>, PackagesRead>(
            seq![bucket_of(p)],
        ),
{
    let fields = stanza_fields(p);
    let record = put_all(fields, fields.len());
    let records = seq![record];
    let none = Seq::<BucketView>::empty();
    let one = seq![bucket_of(p)];
    lemma_stanza_fields(p);
    lemma_package_text(p);
    assert(fields.len() > 0) by {
        assert(attribute_fields(p).len() == 6);
    }
    lemma_parse_render_any_order(fields, true);
    assert forall|f: FieldView| record.contains(f) <==> fields.contains(f) by {
        if record.contains(f) {
            let j = choose|j: int| 0 <= j < record.len() && record[j] == f;
            assert(fields.contains(record[j]));
        }
        if fields.contains(f) {
            let i = choose|i: int| 0 <= i < fields.len() && fields[i] == f;
            assert(record.contains(fields[i]));
        }
    }
    lemma_package_of_record(p, record);
    assert(stored(none, p, true) =~= one);
    assert(records[0] == record);
    assert(with_records(one, records, 1) == Ok::<Seq<BucketView>, PackagesRead>(one));
    assert(with_records(none, records, 0) == Ok::<Seq<BucketView>, PackagesRead>(one));
    let vs = seq![p];
    assert(vs.drop_last() =~= Seq::<PackageView>::empty());
    assert(versions_text(vs.drop_last()) =~= Seq::<u8>::empty());
    assert(versions_text(vs) =~= package_text(p));
    assert(one.drop_last() =~= none);
    assert(index_text(one.drop_last()) =~= Seq::<u8>::empty());
    assert(one.last().versions == vs);
    assert(index_text(one) =~= package_text(p));
}

/// What is published of an index that holds one package after trimming,
/// where the package reads back: the plan writes the package's stanza as
/// the index file, and that text is read as an index with just this
/// package.
///
/// This holds where no later index of the same suite is listed under the
/// same path.
pub proof fn lemma_published_index_reads_back(
    r: RepositoryView,
    date: Seq<u8>,
    i: int,
    p: PackageView,
)
    requires
        repository_wf(r),
        0 <= i < r.components.len(),
        listed_once(trimmed_indices(r.components), i),
        trimmed_indices(r.components)[i].index.packages == seq![bucket_of(p)],
        package_reads_back(p),
    ensures
        ({
            let e = r.components[i];
            &&& staging(r, date)[2 * i + 1] == StepView::WriteFile(
                temporary(packages_path(e.suite, e.component, e.arch)),
                package_text(p),
            )
            &&& index_of_text(package_text(p)) == Ok::<Seq<BucketView>, PackagesRead>(
                seq![bucket_of(p)],
            )
        }),
{
    lemma_manifest_lists_index(r, date, i);
    lemma_index_reads_back(p);
}

} // verus!
