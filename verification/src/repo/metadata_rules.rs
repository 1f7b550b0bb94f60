//! What holds of the metadata that is read from a package file.

use vstd::prelude::*;
use vstd::string::*;
use crate::config::RepositoryType;
use crate::deb_ext::{LF, SP};
use crate::order::{ascending, holds, lemma_slot_bounds, lemma_slot_unique, slot, Order, Ranked};
use crate::pack::ar::{member, signature, HEADER_LEN, MAX_ID, MAX_MODE, MAX_SIZE};
use crate::repo::ar::{lemma_member_round_trip, read_member, ArError, MemberRead};
use crate::repo::deb::{lookup, probe, record_text, without, Field, FieldView};
use crate::repo::debian::is_promoted;
use crate::repo::index_read_back::lemma_without_holds;
use crate::repo::metadata::{
    gunzipped, is_control_path, meta_of_control, meta_of_deb, meta_of_entries, other_fields,
    tar_entry_at, MetaError, PackageMetaView, TarEntryView,
};
use crate::repo::paths::SLASH;
use crate::repo::round_trip::{
    distinct_keys, field_reads_back, lemma_parse_render_any_order, put_all,
};
use crate::text::{
    folded, lemma_leading_spaces_is, lemma_lex_equal, lemma_trailing_spaces_is, trimmed,
    trimmed_end,
};

verus! {

/// A record gives the value of every field that it holds.
pub proof fn lemma_lookup_contained(record: Seq<FieldView>, f: FieldView)
    requires
        ascending::<Field>(record),
        record.contains(f),
    ensures
        lookup(record, f.key) == Some(f.value),
{
    let j = choose|j: int| 0 <= j < record.len() && record[j] == f;
    let pr = probe(f.key);
    lemma_lex_equal(folded(f.key), folded(f.key));
    assert forall|i: int| 0 <= i < j implies #[trigger] Field::rank(record[i], pr)
        == Order::Less by {
        assert(Field::rank(record[i], record[j]) == Order::Less);
    }
    lemma_slot_unique::<Field>(record, pr, j);
}

/// A record gives the value of a field that it holds for every key that
/// differs from the field's key only in the case of ASCII letters.
pub proof fn lemma_lookup_by_fold(record: Seq<FieldView>, f: FieldView, key: Seq<u8>)
    requires
        ascending::<Field>(record),
        record.contains(f),
        folded(f.key) == folded(key),
    ensures
        lookup(record, key) == Some(f.value),
{
    let j = choose|j: int| 0 <= j < record.len() && record[j] == f;
    let pr = probe(key);
    lemma_lex_equal(folded(f.key), folded(key));
    assert forall|i: int| 0 <= i < j implies #[trigger] Field::rank(record[i], pr)
        == Order::Less by {
        assert(Field::rank(record[i], record[j]) == Order::Less);
    }
    lemma_slot_unique::<Field>(record, pr, j);
}

/// What a record gives for a key is the value of a field that it holds
/// under that key, whatever the case of its ASCII letters; it gives
/// nothing only where it holds no such field.
pub proof fn lemma_lookup_found(record: Seq<FieldView>, key: Seq<u8>)
    requires
        ascending::<Field>(record),
    ensures
        match lookup(record, key) {
            Some(v) => exists|f: FieldView|
                #[trigger] record.contains(f) && folded(f.key) == folded(key) && f.value == v,
            None => forall|f: FieldView|
                #[trigger] record.contains(f) ==> folded(f.key) != folded(key),
        },
{
    let pr = probe(key);
    let p = slot::<Field>(record, pr);
    lemma_slot_bounds::<Field>(record, pr);
    if holds::<Field>(record, pr) {
        lemma_lex_equal(folded(record[p].key), folded(key));
        assert(record.contains(record[p]));
    } else {
        lemma_without_holds(record, key);
        assert forall|f: FieldView| #[trigger] record.contains(f) implies folded(f.key) != folded(
            key,
        ) by {
            lemma_lex_equal(folded(f.key), folded(key));
        }
    }
}

/// The fields of a package's metadata hold nothing under the keys of name,
/// architecture and version, and under every other key what the record of
/// control data holds.
pub proof fn lemma_other_fields(record: Seq<FieldView>, key: Seq<u8>)
    requires
        ascending::<Field>(record),
    ensures
        ascending::<Field>(other_fields(record)),
        is_promoted(key) ==> lookup(other_fields(record), key) is None,
        !is_promoted(key) ==> lookup(other_fields(record), key) == lookup(record, key),
{
    let k1 = "Package".spec_bytes();
    let k2 = "Architecture".spec_bytes();
    let k3 = "Version".spec_bytes();
    let r1 = without(record, k1);
    let r2 = without(r1, k2);
    let other = without(r2, k3);
    lemma_without_holds(record, k1);
    lemma_without_holds(r1, k2);
    lemma_without_holds(r2, k3);
    assert forall|f: FieldView| #[trigger] other.contains(f) <==> record.contains(f) && folded(
        f.key,
    ) != folded(k1) && folded(f.key) != folded(k2) && folded(f.key) != folded(k3) by {
        lemma_lex_equal(folded(f.key), folded(k1));
        lemma_lex_equal(folded(f.key), folded(k2));
        lemma_lex_equal(folded(f.key), folded(k3));
    }
    lemma_lookup_found(other, key);
    lemma_lookup_found(record, key);
    if !is_promoted(key) {
        match lookup(record, key) {
            Some(v) => {
                let f = choose|f: FieldView|
                    #[trigger] record.contains(f) && folded(f.key) == folded(key) && f.value == v;
                assert(other.contains(f));
                lemma_lookup_by_fold(other, f, key);
            },
            None => {
                if lookup(other, key) is Some {
                    let v = lookup(other, key).unwrap();
                    let f = choose|f: FieldView|
                        #[trigger] other.contains(f) && folded(f.key) == folded(key) && f.value
                            == v;
                    assert(record.contains(f));
                }
            },
        }
    } else {
        if lookup(other, key) is Some {
            let v = lookup(other, key).unwrap();
            let f = choose|f: FieldView|
                #[trigger] other.contains(f) && folded(f.key) == folded(key) && f.value == v;
            assert(record.contains(f));
        }
    }
}

/// The metadata of control data that was written from fields, in whatever
/// order: where the fields read back, no two have the same key, and the
/// name, the version and the architecture are among them and not empty,
/// the metadata holds these three as its attributes and the other fields
/// as its fields.
pub proof fn lemma_control_metadata(
    path: Seq<u8>,
    fields: Seq<FieldView>,
    name: Seq<u8>,
    version: Seq<u8>,
    arch: Seq<u8>,
)
    requires
        distinct_keys(fields),
        forall|i: int| 0 <= i < fields.len() ==> field_reads_back(#[trigger] fields[i]),
        fields.contains(FieldView { key: "Package".spec_bytes(), value: name }),
        fields.contains(FieldView { key: "Version".spec_bytes(), value: version }),
        fields.contains(FieldView { key: "Architecture".spec_bytes(), value: arch }),
        name.len() > 0,
        version.len() > 0,
        arch.len() > 0,
    ensures
        meta_of_control(path, record_text(fields)) == Ok::<PackageMetaView, MetaError>(
            PackageMetaView {
                kind: RepositoryType::Debian,
                filename: path,
                name,
                arch,
                version,
                info: other_fields(put_all(fields, fields.len())),
            },
        ),
{
    let record = put_all(fields, fields.len());
    let f1 = FieldView { key: "Package".spec_bytes(), value: name };
    let f2 = FieldView { key: "Version".spec_bytes(), value: version };
    let f3 = FieldView { key: "Architecture".spec_bytes(), value: arch };
    assert(fields.len() > 0);
    lemma_parse_render_any_order(fields, false);
    assert(record_text(fields) + Seq::<u8>::empty() =~= record_text(fields));
    let i1 = choose|i: int| 0 <= i < fields.len() && fields[i] == f1;
    let i2 = choose|i: int| 0 <= i < fields.len() && fields[i] == f2;
    let i3 = choose|i: int| 0 <= i < fields.len() && fields[i] == f3;
    assert(record.contains(fields[i1]));
    assert(record.contains(fields[i2]));
    assert(record.contains(fields[i3]));
    lemma_lookup_contained(record, f1);
    lemma_lookup_contained(record, f2);
    lemma_lookup_contained(record, f3);
    assert(seq![record][0] == record);
}

/// Whether the entry of the given number is there, can be read, and is
/// not named `control`.
pub open spec fn passed_over(tar: Seq<u8>, j: nat) -> bool {
    match tar_entry_at(tar, j) {
        Ok(Some(e)) => !is_control_path(e.path),
        _ => false,
    }
}

/// The metadata that the entries of a control archive give is that of the
/// first entry named `control`, where the entries before it can be read
/// and the search reaches it.
pub proof fn lemma_control_entry_found(
    path: Seq<u8>,
    tar: Seq<u8>,
    at: nat,
    fuel: nat,
    k: nat,
    entry: TarEntryView,
)
    requires
        at <= k < at + fuel,
        tar_entry_at(tar, k) == Ok::<Option<TarEntryView>, ()>(Some(entry)),
        is_control_path(entry.path),
        forall|j: nat| at <= j < k ==> #[trigger] passed_over(tar, j),
    ensures
        meta_of_entries(path, tar, at, fuel) == meta_of_control(path, entry.data),
    decreases fuel,
{
    if at < k {
        assert(passed_over(tar, at));
        lemma_control_entry_found(path, tar, at + 1, (fuel - 1) as nat, k, entry);
    }
}

/// What the names and the mark of a package file hold.
proof fn lemma_deb_names()
    ensures
        "debian-binary".spec_bytes().len() == 13,
        forall|i: int| 0 <= i < 13 ==> #[trigger] "debian-binary".spec_bytes()[i] != SP,
        "control.tar.gz".spec_bytes().len() == 14,
        forall|i: int| 0 <= i < 14 ==> #[trigger] "control.tar.gz".spec_bytes()[i] != SP,
        "2.0".spec_bytes() == seq![0x32u8, 0x2eu8, 0x30u8],
        "control".spec_bytes().len() == 7,
        "control".spec_bytes()[6] != SLASH,
{
    reveal_strlit("debian-binary");
    reveal_strlit("control.tar.gz");
    reveal_strlit("2.0");
    reveal_strlit("control");
    let a = "debian-binary";
    let b = "control.tar.gz";
    let c = "2.0";
    let d = "control";
    assert(is_ascii(a)) by {
        assert forall|i: int| 0 <= i < a@.len() implies (a@[i] as nat) < 128 by {}
    }
    assert(is_ascii(b)) by {
        assert forall|i: int| 0 <= i < b@.len() implies (b@[i] as nat) < 128 by {}
    }
    assert(is_ascii(c)) by {
        assert forall|i: int| 0 <= i < c@.len() implies (c@[i] as nat) < 128 by {}
    }
    assert(is_ascii(d)) by {
        assert forall|i: int| 0 <= i < d@.len() implies (d@[i] as nat) < 128 by {}
    }
    is_ascii_spec_bytes(a);
    is_ascii_spec_bytes(b);
    is_ascii_spec_bytes(c);
    is_ascii_spec_bytes(d);
    assert(c.spec_bytes() =~= seq![0x32u8, 0x2eu8, 0x30u8]);
}

/// The mark of a package file as it is written, `2.0` and a line feed.
pub open spec fn deb_mark() -> Seq<u8> {
    "2.0".spec_bytes() + seq![LF]
}

/// The mark of a package file is four bytes, and `2.0` without the white
/// space at its ends.
proof fn lemma_mark_trimmed()
    ensures
        deb_mark().len() == 4,
        trimmed(deb_mark()) == "2.0".spec_bytes(),
{
    lemma_deb_names();
    let mark = deb_mark();
    assert(mark =~= seq![0x32u8, 0x2eu8, 0x30u8, LF]);
    lemma_trailing_spaces_is(mark, 1);
    let e = trimmed_end(mark);
    assert(e =~= seq![0x32u8, 0x2eu8, 0x30u8]);
    lemma_leading_spaces_is(e, 0);
    assert(trimmed(mark) =~= "2.0".spec_bytes());
}

/// The bytes of a package file as packages are written: the signature,
/// the member `debian-binary` with the mark, the member `control.tar.gz`,
/// and whatever follows.
pub open spec fn deb_bytes(
    mtime: nat,
    uid: nat,
    gid: nat,
    mode: nat,
    control_archive: Seq<u8>,
    after: Seq<u8>,
) -> Seq<u8> {
    signature() + member("debian-binary".spec_bytes(), mtime, uid, gid, mode, deb_mark()) + member(
        "control.tar.gz".spec_bytes(),
        mtime,
        uid,
        gid,
        mode,
        control_archive,
    ) + after
}

/// The first member of a package file reads back.
proof fn lemma_deb_first_member(
    mtime: nat,
    uid: nat,
    gid: nat,
    mode: nat,
    control_archive: Seq<u8>,
    after: Seq<u8>,
)
    requires
        mtime <= u32::MAX,
        uid <= MAX_ID,
        gid <= MAX_ID,
        mode <= MAX_MODE,
    ensures
        deb_bytes(mtime, uid, gid, mode, control_archive, after).len() >= 8,
        deb_bytes(mtime, uid, gid, mode, control_archive, after).subrange(0, 8) == signature(),
        read_member(
            deb_bytes(mtime, uid, gid, mode, control_archive, after),
            8,
            false,
            "debian-binary".spec_bytes(),
        ) == Ok::<MemberRead, ArError>(
            MemberRead { data: deb_mark(), position: 8 + HEADER_LEN + 4, padded: false },
        ),
{
    lemma_deb_names();
    lemma_mark_trimmed();
    let n1 = "debian-binary".spec_bytes();
    let n2 = "control.tar.gz".spec_bytes();
    let mark = deb_mark();
    let m1 = member(n1, mtime, uid, gid, mode, mark);
    let m2 = member(n2, mtime, uid, gid, mode, control_archive);
    let data = deb_bytes(mtime, uid, gid, mode, control_archive, after);
    lemma_member_round_trip(signature(), n1, mtime, uid, gid, mode, mark, m2 + after, false);
    assert(data =~= signature() + m1 + (m2 + after));
    assert(signature().len() == 8);
    assert(data.subrange(0, 8) =~= signature());
}

/// The second member of a package file reads back.
proof fn lemma_deb_second_member(
    mtime: nat,
    uid: nat,
    gid: nat,
    mode: nat,
    control_archive: Seq<u8>,
    after: Seq<u8>,
)
    requires
        mtime <= u32::MAX,
        uid <= MAX_ID,
        gid <= MAX_ID,
        mode <= MAX_MODE,
        control_archive.len() <= MAX_SIZE,
    ensures
        read_member(
            deb_bytes(mtime, uid, gid, mode, control_archive, after),
            8 + HEADER_LEN + 4,
            false,
            "control.tar.gz".spec_bytes(),
        ) matches Ok(second) && second.data == control_archive,
{
    lemma_deb_names();
    lemma_mark_trimmed();
    let n1 = "debian-binary".spec_bytes();
    let n2 = "control.tar.gz".spec_bytes();
    let m1 = member(n1, mtime, uid, gid, mode, deb_mark());
    let before = signature() + m1;
    lemma_member_round_trip(signature(), n1, mtime, uid, gid, mode, deb_mark(), after, false);
    assert(before.len() == 8 + HEADER_LEN + 4);
    lemma_member_round_trip(before, n2, mtime, uid, gid, mode, control_archive, after, false);
}

/// The metadata of a package file that was written as packages are: the
/// signature, the member `debian-binary` with the mark, and the member
/// `control.tar.gz`, whatever follows.  Where the control archive
/// decompresses to a tar archive whose first entry named `control` is
/// reached, the metadata is that of this entry's control data.
pub proof fn lemma_deb_metadata(
    path: Seq<u8>,
    mtime: nat,
    uid: nat,
    gid: nat,
    mode: nat,
    control_archive: Seq<u8>,
    after: Seq<u8>,
    tar: Seq<u8>,
    k: nat,
    entry: TarEntryView,
)
    requires
        mtime <= u32::MAX,
        uid <= MAX_ID,
        gid <= MAX_ID,
        mode <= MAX_MODE,
        control_archive.len() <= MAX_SIZE,
        gunzipped(control_archive) == Some(tar),
        k < tar.len(),
        tar_entry_at(tar, k) == Ok::<Option<TarEntryView>, ()>(Some(entry)),
        is_control_path(entry.path),
        forall|j: nat| 0 <= j < k ==> #[trigger] passed_over(tar, j),
    ensures
        meta_of_deb(path, deb_bytes(mtime, uid, gid, mode, control_archive, after))
            == meta_of_control(path, entry.data),
{
    lemma_mark_trimmed();
    lemma_deb_first_member(mtime, uid, gid, mode, control_archive, after);
    lemma_deb_second_member(mtime, uid, gid, mode, control_archive, after);
    lemma_control_entry_found(path, tar, 0, tar.len(), k, entry);
}

} // verus!
