//! What a manifest gives when it is read back as a control file.

use vstd::prelude::*;
use vstd::string::*;
use crate::deb_ext::{kv_lines_text, kv_text, LF, SP};
use crate::hash_file::sha256_hex;
use crate::order::{ascending, holds, lemma_slot_unique, slot, Order, Ranked};
use crate::repo::commit::{
    lemma_manifest_lists_index, listed_once, manifest_of, recorded, staging, with_sums, StepView,
};
use crate::repo::deb::{lookup, parsed, record_text, without, ControlError, Field, FieldView};
use crate::repo::debian::index_text;
use crate::repo::index_read_back::{lemma_stays_without, lemma_without_holds};
use crate::repo::metadata_rules::lemma_lookup_contained;
use crate::repo::paths::{listed_path, release_path, temporary};
use crate::repo::release::{
    checksum_lines, release_of_record, release_of_text, release_text, release_wf, with_checksum,
    with_hash_lines, with_names, Checksum, ChecksumView, ReleaseField, ReleaseFileRead, ReleaseView,
};
use crate::repo::repository::{
    repository_wf, suite_probe, trimmed_indices, RepositoryView, SuiteEntry,
};
use crate::repo::round_trip::{
    field_reads_back, item_reads_back, key_reads_back, lemma_parse_render_with_list, list_field,
    put_all, stacked, value_reads_back,
};
use crate::text::{
    all_digits, digits_of, fold_rank, folded, index_of, is_digit, is_space, joined, leading_spaces,
    lemma_digits_round_trip, lemma_index_of, lemma_index_of_is, lemma_lex_equal, lemma_word_len_is,
    split_on, unsigned_value, words,
};

verus! {

/// A checksum whose line in a manifest reads back: digest and path hold no
/// line feed, and the path is not empty and has no white space at its end.
pub open spec fn checksum_reads_back(c: ChecksumView) -> bool {
    &&& forall|i: int| 0 <= i < c.hash.len() ==> #[trigger] c.hash[i] != LF
    &&& forall|i: int| 0 <= i < c.path.len() ==> #[trigger] c.path[i] != LF
    &&& c.path.len() > 0
    &&& !is_space(c.path.last())
}

/// A manifest that reads back as it was written with the given date: the
/// codename, the date and the lists of architectures and components as
/// they are written read back as values, and every checksum reads back.
pub open spec fn manifest_reads_back(r: ReleaseView, date: Seq<u8>) -> bool {
    &&& value_reads_back(r.codename)
    &&& value_reads_back(date)
    &&& value_reads_back(joined(r.architectures, seq![SP]))
    &&& value_reads_back(joined(r.components, seq![SP]))
    &&& forall|i: int| 0 <= i < r.sha256.len() ==> checksum_reads_back(#[trigger] r.sha256[i])
}

/// The fields that a manifest is written from, before the checksums.
pub open spec fn manifest_fields(r: ReleaseView, date: Seq<u8>) -> Seq<FieldView> {
    seq![
        FieldView { key: "Codename".spec_bytes(), value: r.codename },
        FieldView { key: "Date".spec_bytes(), value: date },
        FieldView { key: "Architectures".spec_bytes(), value: joined(r.architectures, seq![SP]) },
        FieldView { key: "Components".spec_bytes(), value: joined(r.components, seq![SP]) },
    ]
}

/// The record that a manifest is read as: its fields and the checksums,
/// one line for each, in the order of their keys.
pub open spec fn manifest_record(r: ReleaseView, date: Seq<u8>) -> Seq<FieldView> {
    let all = manifest_fields(r, date).push(
        list_field("SHA256".spec_bytes(), checksum_lines(r.sha256)),
    );
    put_all(all, all.len())
}

/// The keys of a manifest read back and differ in their lengths.
proof fn lemma_manifest_keys()
    ensures
        key_reads_back("Codename".spec_bytes()),
        key_reads_back("Date".spec_bytes()),
        key_reads_back("Architectures".spec_bytes()),
        key_reads_back("Components".spec_bytes()),
        key_reads_back("SHA256".spec_bytes()),
        "Codename".spec_bytes().len() == 8,
        "Date".spec_bytes().len() == 4,
        "Architectures".spec_bytes().len() == 13,
        "Components".spec_bytes().len() == 10,
        "SHA256".spec_bytes().len() == 6,
{
    reveal_strlit("Codename");
    reveal_strlit("Date");
    reveal_strlit("Architectures");
    reveal_strlit("Components");
    reveal_strlit("SHA256");
    let a = "Codename";
    let b = "Date";
    let c = "Architectures";
    let d = "Components";
    let e = "SHA256";
    assert(is_ascii(a)) by {
        assert forall|i: int| 0 <= i < a@.len() implies (a@[i] as nat) < 128 by {}
    }
    assert(is_ascii(b)) by {
        assert forall|i: int| 0 <= i < b@.len() implies (b@[i] as nat) < 128 by {}
    }
    assert(is_ascii(c)) by {
        assert forall|i: int| 0 <= i < c@.len() implies (c@[i] as nat) < 128 by {}
    }
    assert(is_ascii(d)) by {
        assert forall|i: int| 0 <= i < d@.len() implies (d@[i] as nat) < 128 by {}
    }
    assert(is_ascii(e)) by {
        assert forall|i: int| 0 <= i < e@.len() implies (e@[i] as nat) < 128 by {}
    }
    is_ascii_spec_bytes(a);
    is_ascii_spec_bytes(b);
    is_ascii_spec_bytes(c);
    is_ascii_spec_bytes(d);
    is_ascii_spec_bytes(e);
}

/// The line of a checksum that reads back reads back as an item.
proof fn lemma_checksum_line(c: ChecksumView)
    requires
        checksum_reads_back(c),
    ensures
        item_reads_back(c.hash + seq![SP] + digits_of(10, c.size as nat) + seq![SP] + c.path),
{
    let d = digits_of(10, c.size as nat);
    let line = c.hash + seq![SP] + d + seq![SP] + c.path;
    lemma_digits_round_trip(10, c.size as nat);
    let h = c.hash.len() as int;
    let n = d.len() as int;
    assert forall|i: int| 0 <= i < line.len() implies #[trigger] line[i] != LF by {
        if i < h {
            assert(line[i] == c.hash[i]);
        } else if i == h {
        } else if i < h + 1 + n {
            assert(line[i] == d[i - h - 1]);
            assert(is_digit(10, d[i - h - 1]));
        } else if i == h + 1 + n {
        } else {
            assert(line[i] == c.path[i - h - n - 2]);
        }
    }
    assert(line.last() == c.path.last());
    assert(line.len() >= 3);
}

/// Round trip of a manifest as a control file: where the manifest reads
/// back, its text is read as one record of five fields, which gives the
/// codename, the date, the architectures and the components with a space
/// between every two, and the checksums, a line for each after a line
/// feed: digest, size and path with a space between.
pub proof fn lemma_manifest_reads_back(r: ReleaseView, date: Seq<u8>)
    requires
        manifest_reads_back(r, date),
    ensures
        parsed(release_text(r, date)) == Ok::<Seq<Seq<FieldView>>, ControlError>(
            seq![manifest_record(r, date)],
        ),
        manifest_record(r, date).len() == 5,
        lookup(manifest_record(r, date), "Codename".spec_bytes()) == Some(r.codename),
        lookup(manifest_record(r, date), "Date".spec_bytes()) == Some(date),
        lookup(manifest_record(r, date), "Architectures".spec_bytes()) == Some(
            joined(r.architectures, seq![SP]),
        ),
        lookup(manifest_record(r, date), "Components".spec_bytes()) == Some(
            joined(r.components, seq![SP]),
        ),
        lookup(manifest_record(r, date), "SHA256".spec_bytes()) == Some(
            stacked(checksum_lines(r.sha256)),
        ),
        ascending::<Field>(manifest_record(r, date)),
        forall|i: int|
            0 <= i < 4 ==> manifest_record(r, date).contains(#[trigger] manifest_fields(r, date)[i]),
        manifest_record(r, date).contains(
            list_field("SHA256".spec_bytes(), checksum_lines(r.sha256)),
        ),
{
    let s = manifest_fields(r, date);
    let key = "SHA256".spec_bytes();
    let items = checksum_lines(r.sha256);
    let f = list_field(key, items);
    let all = s.push(f);
    let record = manifest_record(r, date);
    lemma_manifest_keys();
    assert forall|i: int| 0 <= i < items.len() implies item_reads_back(#[trigger] items[i]) by {
        lemma_checksum_line(r.sha256[i]);
    }
    assert forall|i: int| 0 <= i < s.len() implies field_reads_back(#[trigger] s[i]) by {}
    assert forall|i: int, j: int| 0 <= i < j < all.len() implies fold_rank(
        (#[trigger] all[i]).key,
        (#[trigger] all[j]).key,
    ) != Order::Equal by {
        lemma_lex_equal(folded(all[i].key), folded(all[j].key));
        assert(folded(all[i].key).len() == all[i].key.len());
        assert(folded(all[j].key).len() == all[j].key.len());
    }
    lemma_parse_render_with_list(s, key, items);
    let s3 = s.drop_last();
    let s2 = s3.drop_last();
    let s1 = s2.drop_last();
    let s0 = s1.drop_last();
    assert(record_text(s0) =~= Seq::<u8>::empty());
    assert(record_text(s1) =~= kv_text(s[0].key, s[0].value));
    assert(record_text(s2) == record_text(s1) + kv_text(s[1].key, s[1].value));
    assert(record_text(s3) == record_text(s2) + kv_text(s[2].key, s[2].value));
    assert(record_text(s) == record_text(s3) + kv_text(s[3].key, s[3].value));
    assert(release_text(r, date) == record_text(s) + kv_lines_text(key, items));
    assert(record.contains(all[0]));
    assert(record.contains(all[1]));
    assert(record.contains(all[2]));
    assert(record.contains(all[3]));
    assert(record.contains(all[4]));
    lemma_lookup_contained(record, all[0]);
    lemma_lookup_contained(record, all[1]);
    lemma_lookup_contained(record, all[2]);
    lemma_lookup_contained(record, all[3]);
    lemma_lookup_contained(record, all[4]);
    assert forall|i: int| 0 <= i < 4 implies record.contains(#[trigger] s[i]) by {
        assert(all[i] == s[i]);
        assert(record.contains(all[i]));
    }
}

/// A word: a text that is not empty and holds no white space.
pub open spec fn is_word(w: Seq<u8>) -> bool {
    w.len() > 0 && forall|i: int| 0 <= i < w.len() ==> !is_space(#[trigger] w[i])
}

/// A space before a text adds no word.
proof fn lemma_words_after_space(rest: Seq<u8>)
    ensures
        words(seq![SP] + rest) == words(rest),
{
    let s = seq![SP] + rest;
    assert(is_space(s[0]));
    assert(s.drop_first() =~= rest);
    let a = leading_spaces(rest);
    assert(leading_spaces(s) == 1 + a);
    if a < rest.len() {
        assert(s.skip(1 + a as int) =~= rest.skip(a as int));
    }
}

/// A word is its own only word, and a word, a space and a text have the
/// word and then the words of the text.
proof fn lemma_words_first(w: Seq<u8>, rest: Seq<u8>)
    requires
        is_word(w),
    ensures
        words(w) == seq![w],
        words(w + seq![SP] + rest) == seq![w] + words(rest),
{
    let n = w.len() as int;
    let none = Seq::<u8>::empty();
    assert(!is_space(w[0]));
    lemma_word_len_is(w, n);
    assert(leading_spaces(w) == 0);
    assert(w.skip(0) =~= w);
    assert(w.subrange(0, n) =~= w);
    assert(w.skip(n) =~= none);
    assert(leading_spaces(none) == 0);
    assert(words(none) =~= Seq::<Seq<u8>>::empty());
    assert(words(w) =~= seq![w]);
    let s = w + seq![SP] + rest;
    assert(s[0] == w[0]);
    assert(leading_spaces(s) == 0);
    assert(s.skip(0) =~= s);
    assert forall|i: int| 0 <= i < n implies !is_space(#[trigger] s[i]) by {
        assert(s[i] == w[i]);
    }
    assert(s[n] == SP);
    lemma_word_len_is(s, n);
    assert(s.subrange(0, n) =~= w);
    assert(s.skip(n) =~= seq![SP] + rest);
    lemma_words_after_space(rest);
}

/// Two or more items joined are the first, the separator, and the others
/// joined.
proof fn lemma_joined_front(items: Seq<Seq<u8>>, sep: Seq<u8>)
    requires
        items.len() >= 2,
    ensures
        joined(items, sep) == items[0] + sep + joined(items.drop_first(), sep),
    decreases items.len(),
{
    let init = items.drop_last();
    let tail = items.drop_first();
    if items.len() == 2 {
        assert(joined(init, sep) == items[0]);
        assert(joined(tail, sep) == items[1]);
    } else {
        lemma_joined_front(init, sep);
        assert(tail.drop_last() =~= init.drop_first());
        assert(tail.last() == items.last());
        assert(joined(items, sep) =~= items[0] + sep + joined(tail, sep));
    }
}

/// Words joined by spaces are cut into the same words.
proof fn lemma_words_joined(names: Seq<Seq<u8>>)
    requires
        forall|i: int| 0 <= i < names.len() ==> is_word(#[trigger] names[i]),
    ensures
        words(joined(names, seq![SP])) == names,
    decreases names.len(),
{
    let none = Seq::<u8>::empty();
    if names.len() == 0 {
        assert(leading_spaces(none) == 0);
        assert(words(none) =~= names);
    } else if names.len() == 1 {
        lemma_words_first(names[0], none);
        assert(seq![names[0]] =~= names);
    } else {
        let tail = names.drop_first();
        assert forall|i: int| 0 <= i < tail.len() implies is_word(#[trigger] tail[i]) by {
            assert(tail[i] == names[i + 1]);
        }
        lemma_joined_front(names, seq![SP]);
        lemma_words_first(names[0], joined(tail, seq![SP]));
        lemma_words_joined(tail);
        assert(seq![names[0]] + tail =~= names);
    }
}

/// Ascending names put one after the other among none are the names.
proof fn lemma_with_names_ascending(names: Seq<Seq<u8>>)
    requires
        ascending::<Vec<u8>>(names),
    ensures
        with_names(Seq::empty(), names) == names,
    decreases names.len(),
{
    if names.len() == 0 {
        assert(with_names(Seq::empty(), names) =~= names);
    } else {
        let init = names.drop_last();
        let last = names.last();
        assert forall|i: int, j: int| 0 <= i < j < init.len() implies <Vec<u8> as Ranked>::rank(
            #[trigger] init[i],
            #[trigger] init[j],
        ) == Order::Less by {
            assert(<Vec<u8> as Ranked>::rank(names[i], names[j]) == Order::Less);
        }
        lemma_with_names_ascending(init);
        assert forall|i: int| 0 <= i < init.len() implies #[trigger] <Vec<u8> as Ranked>::rank(
            init[i],
            last,
        ) == Order::Less by {
            assert(<Vec<u8> as Ranked>::rank(names[i], names[names.len() - 1]) == Order::Less);
        }
        lemma_slot_unique::<Vec<u8>>(init, last, init.len() as int);
        assert(init.insert(init.len() as int, last) =~= names);
    }
}

/// A text, the byte `b` and a text without `b` are cut at `b` into the
/// pieces of the first text and the second text.
proof fn lemma_split_push(x: Seq<u8>, b: u8, y: Seq<u8>)
    requires
        forall|i: int| 0 <= i < y.len() ==> #[trigger] y[i] != b,
    ensures
        split_on(x + seq![b] + y, b) == split_on(x, b).push(y),
    decreases x.len(),
{
    let s = x + seq![b] + y;
    let n = index_of(x, b);
    lemma_index_of(x, b);
    assert forall|i: int| 0 <= i < n implies #[trigger] s[i] != b by {
        assert(s[i] == x[i]);
    }
    if n < x.len() {
        assert(s[n] == x[n]);
    } else {
        assert(s[n] == b);
    }
    lemma_index_of_is(s, b, n);
    assert(s.subrange(0, n) =~= x.subrange(0, n));
    if n < x.len() {
        let t = x.skip(n + 1);
        assert(s.skip(n + 1) =~= t + seq![b] + y);
        lemma_split_push(t, b, y);
        assert(split_on(s, b) =~= split_on(x, b).push(y));
    } else {
        assert(x.subrange(0, n) =~= x);
        assert(s.skip(n + 1) =~= y);
        lemma_index_of_is(y, b, y.len() as int);
        assert(split_on(y, b) =~= seq![y]);
        assert(split_on(s, b) =~= split_on(x, b).push(y));
    }
}

/// The value of a list field is cut at its line feeds into an empty piece
/// and the items.
proof fn lemma_split_stacked(items: Seq<Seq<u8>>)
    requires
        forall|i: int| 0 <= i < items.len() ==> item_reads_back(#[trigger] items[i]),
    ensures
        split_on(stacked(items), LF) == seq![Seq::<u8>::empty()] + items,
    decreases items.len(),
{
    let none = Seq::<u8>::empty();
    if items.len() == 0 {
        lemma_index_of_is(none, LF, 0);
        assert(split_on(none, LF) =~= seq![none] + items);
    } else {
        let init = items.drop_last();
        let last = items.last();
        assert(item_reads_back(items[items.len() - 1]));
        assert forall|i: int| 0 <= i < init.len() implies item_reads_back(#[trigger] init[i]) by {
            assert(init[i] == items[i]);
        }
        lemma_split_stacked(init);
        lemma_split_push(stacked(init), LF, last);
        assert((seq![none] + init).push(last) =~= seq![none] + items);
    }
}

/// A checksum whose line is read as it was written: digest and path are
/// words.
pub open spec fn checksum_is_plain(c: ChecksumView) -> bool {
    is_word(c.hash) && is_word(c.path)
}

/// The line of a checksum is cut into the digest, the size and the path,
/// and the size reads back.
proof fn lemma_checksum_words(c: ChecksumView)
    requires
        checksum_is_plain(c),
    ensures
        words(c.hash + seq![SP] + digits_of(10, c.size as nat) + seq![SP] + c.path) == seq![
            c.hash,
            digits_of(10, c.size as nat),
            c.path,
        ],
        unsigned_value(digits_of(10, c.size as nat)) == Some(c.size),
        checksum_reads_back(c),
{
    let d = digits_of(10, c.size as nat);
    lemma_digits_round_trip(10, c.size as nat);
    assert(is_word(d)) by {
        assert forall|i: int| 0 <= i < d.len() implies !is_space(#[trigger] d[i]) by {
            assert(is_digit(10, d[i]));
        }
    }
    assert(is_digit(10, d[0]));
    assert(all_digits(10, d));
    let none = Seq::<u8>::empty();
    lemma_words_first(c.path, none);
    lemma_words_first(d, c.path);
    lemma_words_first(c.hash, d + seq![SP] + c.path);
    assert(c.hash + seq![SP] + d + seq![SP] + c.path =~= c.hash + seq![SP] + (d + seq![SP]
        + c.path));
    assert(seq![c.hash] + (seq![d] + seq![c.path]) =~= seq![c.hash, d, c.path]);
    assert(!is_space(c.path[c.path.len() - 1]));
}

/// Reading the lines of ascending checksums from the line of one of them
/// on, with the checksums before it read already, gives the checksums.
proof fn lemma_hash_lines(sums: Seq<ChecksumView>, k: int)
    requires
        ascending::<Checksum>(sums),
        forall|i: int| 0 <= i < sums.len() ==> checksum_is_plain(#[trigger] sums[i]),
        0 <= k <= sums.len(),
    ensures
        with_hash_lines(
            sums.subrange(0, k),
            seq![Seq::<u8>::empty()] + checksum_lines(sums),
            k + 1,
        ) == Ok::<Seq<ChecksumView>, ReleaseFileRead>(sums),
    decreases sums.len() - k,
{
    let lines = seq![Seq::<u8>::empty()] + checksum_lines(sums);
    let held = sums.subrange(0, k);
    if k == sums.len() {
        assert(held =~= sums);
    } else {
        let c = sums[k];
        assert(checksum_is_plain(sums[k]));
        assert(lines[k + 1] == checksum_lines(sums)[k]);
        lemma_checksum_words(c);
        assert forall|i: int| 0 <= i < held.len() implies #[trigger] Checksum::rank(held[i], c)
            == Order::Less by {
            assert(Checksum::rank(sums[i], sums[k]) == Order::Less);
        }
        lemma_slot_unique::<Checksum>(held, c, k);
        assert(!holds::<Checksum>(held, c));
        assert(held.insert(k, c) =~= sums.subrange(0, k + 1));
        assert(with_checksum(held, c) == sums.subrange(0, k + 1));
        lemma_hash_lines(sums, k + 1);
    }
}

/// Words joined by spaces read back as a value.
proof fn lemma_joined_reads_back(names: Seq<Seq<u8>>)
    requires
        forall|i: int| 0 <= i < names.len() ==> is_word(#[trigger] names[i]),
    ensures
        value_reads_back(joined(names, seq![SP])),
        names.len() > 0 ==> joined(names, seq![SP]).len() > 0,
        forall|i: int|
            0 <= i < joined(names, seq![SP]).len() ==> #[trigger] joined(names, seq![SP])[i] != LF,
    decreases names.len(),
{
    let v = joined(names, seq![SP]);
    if names.len() == 0 {
    } else {
        let last = names.last();
        assert(is_word(names[names.len() - 1]));
        if names.len() == 1 {
            assert(v == names[0]);
            assert(!is_space(last[0]) && !is_space(last[last.len() - 1]));
            assert forall|i: int| 0 <= i < v.len() implies #[trigger] v[i] != LF by {
                assert(!is_space(last[i]));
            }
        } else {
            let init = names.drop_last();
            assert forall|i: int| 0 <= i < init.len() implies is_word(#[trigger] init[i]) by {
                assert(init[i] == names[i]);
            }
            lemma_joined_reads_back(init);
            let u = joined(init, seq![SP]);
            lemma_index_of_is(u, LF, u.len() as int);
            assert(v == u + seq![SP] + last);
            assert(v[0] == u[0]);
            assert(v.last() == last[last.len() - 1]);
            assert(!is_space(last[last.len() - 1]));
            assert forall|i: int| 0 <= i < v.len() implies #[trigger] v[i] != LF by {
                if i < u.len() {
                    assert(v[i] == u[i]);
                } else if i > u.len() {
                    assert(v[i] == last[i - u.len() - 1]);
                    assert(!is_space(last[i - u.len() - 1]));
                }
            }
        }
        lemma_index_of_is(v, LF, v.len() as int);
    }
}

/// A manifest that is read as it was written with the given date: names
/// and checksums ascend; the codename and the date read back as values;
/// the architectures and the components are words; and so are the digest
/// and the path of every checksum.
pub open spec fn manifest_is_plain(r: ReleaseView, date: Seq<u8>) -> bool {
    &&& release_wf(r)
    &&& value_reads_back(r.codename)
    &&& value_reads_back(date)
    &&& forall|i: int| 0 <= i < r.architectures.len() ==> is_word(#[trigger] r.architectures[i])
    &&& forall|i: int| 0 <= i < r.components.len() ==> is_word(#[trigger] r.components[i])
    &&& forall|i: int| 0 <= i < r.sha256.len() ==> checksum_is_plain(#[trigger] r.sha256[i])
}

/// Round trip of a manifest: the text of a manifest that is plain,
/// whatever its date, is read as the same manifest.
pub proof fn lemma_manifest_round_trip(r: ReleaseView, date: Seq<u8>)
    requires
        manifest_is_plain(r, date),
    ensures
        manifest_reads_back(r, date),
        release_of_record(manifest_record(r, date)) == Ok::<ReleaseView, ReleaseFileRead>(r),
        release_of_text(release_text(r, date)) == Ok::<ReleaseView, ReleaseFileRead>(r),
{
    let record = manifest_record(r, date);
    let s = manifest_fields(r, date);
    let items = checksum_lines(r.sha256);
    let sums = list_field("SHA256".spec_bytes(), items);
    let none = Seq::<u8>::empty();
    let k1 = ReleaseField::Codename.key();
    let k2 = ReleaseField::Architectures.key();
    let k3 = ReleaseField::Components.key();
    lemma_joined_reads_back(r.architectures);
    lemma_joined_reads_back(r.components);
    assert forall|i: int| 0 <= i < r.sha256.len() implies checksum_reads_back(
        #[trigger] r.sha256[i],
    ) by {
        lemma_checksum_words(r.sha256[i]);
    }
    lemma_manifest_reads_back(r, date);
    lemma_manifest_keys();
    assert(record.contains(s[0]) && record.contains(s[1]) && record.contains(s[2])
        && record.contains(s[3]));
    let r1 = without(record, k1);
    let r2 = without(r1, k2);
    let r3 = without(r2, k3);
    assert(folded(s[2].key) != folded(k1) && folded(s[3].key) != folded(k1) && folded(sums.key)
        != folded(k1)) by {
        assert(folded(k1).len() == k1.len());
        assert(folded(s[2].key).len() == s[2].key.len());
        assert(folded(s[3].key).len() == s[3].key.len());
        assert(folded(sums.key).len() == sums.key.len());
    }
    assert(folded(s[3].key) != folded(k2) && folded(sums.key) != folded(k2)) by {
        assert(folded(k2).len() == k2.len());
        assert(folded(s[3].key).len() == s[3].key.len());
        assert(folded(sums.key).len() == sums.key.len());
    }
    assert(folded(sums.key) != folded(k3)) by {
        assert(folded(k3).len() == k3.len());
        assert(folded(sums.key).len() == sums.key.len());
    }
    lemma_without_holds(record, k1);
    lemma_stays_without(record, k1, s[2]);
    lemma_stays_without(record, k1, s[3]);
    lemma_stays_without(record, k1, sums);
    lemma_lookup_contained(r1, s[2]);
    lemma_without_holds(r1, k2);
    lemma_stays_without(r1, k2, s[3]);
    lemma_stays_without(r1, k2, sums);
    lemma_lookup_contained(r2, s[3]);
    lemma_without_holds(r2, k3);
    lemma_stays_without(r2, k3, sums);
    lemma_lookup_contained(r3, sums);
    assert forall|i: int| 0 <= i < items.len() implies item_reads_back(#[trigger] items[i]) by {
        lemma_checksum_line(r.sha256[i]);
    }
    lemma_split_stacked(items);
    let lines = seq![none] + items;
    assert(leading_spaces(none) == 0);
    assert(words(lines[0]) =~= Seq::<Seq<u8>>::empty());
    lemma_hash_lines(r.sha256, 0);
    assert(r.sha256.subrange(0, 0) =~= Seq::<ChecksumView>::empty());
    assert(with_hash_lines(Seq::empty(), lines, 0) == Ok::<Seq<ChecksumView>, ReleaseFileRead>(
        r.sha256,
    ));
    lemma_words_joined(r.architectures);
    lemma_words_joined(r.components);
    lemma_with_names_ascending(r.architectures);
    lemma_with_names_ascending(r.components);
    assert(seq![record][0] == record);
}

/// What is published of the manifest of an index's suite, where that
/// manifest is plain: the plan writes its text into the directory of the
/// suite; the text is read as the same manifest; and the manifest lists
/// the index file under its path from that directory with the size and
/// the digest of the very text that is written as the index file.
///
/// This holds where no later index of the same suite is listed under the
/// same path.
pub proof fn lemma_published_manifest_reads_back(r: RepositoryView, date: Seq<u8>, i: int)
    requires
        repository_wf(r),
        0 <= i < r.components.len(),
        listed_once(trimmed_indices(r.components), i),
        manifest_is_plain(
            manifest_of(r.suites, trimmed_indices(r.components), trimmed_indices(r.components)[i]),
            date,
        ),
    ensures
        ({
            let entries = trimmed_indices(r.components);
            let e = entries[i];
            let suites = with_sums(r.suites, entries);
            let k = slot::<SuiteEntry>(suites, suite_probe(e.suite));
            let m = manifest_of(r.suites, entries, e);
            let text = index_text(e.index.packages);
            &&& 0 <= k < suites.len()
            &&& staging(r, date)[2 * entries.len() + k] == StepView::WriteFile(
                temporary(release_path(e.suite)),
                release_text(m, date),
            )
            &&& release_of_text(release_text(m, date)) == Ok::<ReleaseView, ReleaseFileRead>(m)
            &&& recorded(m.sha256, listed_path(e.component, e.arch)) == Some(
                ChecksumView {
                    path: listed_path(e.component, e.arch),
                    size: text.len() as u64,
                    hash: sha256_hex(text),
                },
            )
        }),
{
    let entries = trimmed_indices(r.components);
    lemma_manifest_lists_index(r, date, i);
    lemma_manifest_round_trip(manifest_of(r.suites, entries, entries[i]), date);
}

} // verus!
