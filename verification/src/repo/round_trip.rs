//! Reading back what was written in the control-file format.

use vstd::prelude::*;
use crate::deb_ext::{
    dotted, indented, item_lines, kv_lines_text, kv_text, lemma_indented_concat, multiline, COLON,
    DOT, LF, SP,
};
use crate::order::{
    ascending, holds, lemma_insert_ascending, lemma_slot_bounds, lemma_slot_unique, slot, Order,
    Ranked,
};
use crate::repo::deb::{
    chomped, closed, continuation, fed, fed_all, flushed, lines_of, parsed, parsing_start, probe,
    lemma_slot_of_key, put, record_text, stream_text, ControlError, Field, FieldView, Parsing, CR,
};
use crate::text::{
    fold_rank, index_of, is_space, lemma_index_of, lemma_index_of_is, lemma_leading_spaces_is,
    lemma_trailing_spaces_is, trailing_spaces, trimmed, trimmed_end,
};

verus! {

/// A value as it is laid out over lines, before white space at its end is
/// dropped.
pub open spec fn laid_out(v: Seq<u8>) -> Seq<u8> {
    indented(dotted(v))
}

/// A line that reads back as it was written after the space that indents
/// it: no lone full stop, and no carriage return at its end.
pub open spec fn line_reads_back(h: Seq<u8>) -> bool {
    h != seq![DOT] && (h.len() == 0 || h.last() != CR)
}

/// Whether every line of `h + v` reads back, where `h` holds no line feed.
pub open spec fn lines_read_back(h: Seq<u8>, v: Seq<u8>) -> bool
    decreases v.len(),
{
    if v.len() == 0 {
        line_reads_back(h)
    } else if v[0] == LF {
        line_reads_back(h) && lines_read_back(Seq::empty(), v.drop_first())
    } else {
        lines_read_back(h.push(v[0]), v.drop_first())
    }
}

/// A key that reads back as it was written: it holds no line feed and no
/// colon, and does not begin with a space.
pub open spec fn key_reads_back(key: Seq<u8>) -> bool {
    &&& forall|i: int| 0 <= i < key.len() ==> #[trigger] key[i] != LF && key[i] != COLON
    &&& key.len() > 0 ==> key[0] != SP
}

/// A value that reads back as it was written: no white space at its end,
/// none at either end of its first line, and every further line reads back.
pub open spec fn value_reads_back(v: Seq<u8>) -> bool {
    let n = index_of(v, LF);
    &&& v.len() > 0 ==> !is_space(v.last())
    &&& n > 0 ==> !is_space(v[0]) && !is_space(v[n - 1])
    &&& n < v.len() ==> lines_read_back(Seq::empty(), v.skip(n + 1))
}

/// A field that reads back as it was written.
pub open spec fn field_reads_back(f: FieldView) -> bool {
    key_reads_back(f.key) && value_reads_back(f.value)
}

/// A record that reads back as it was written: it has a field, its fields
/// stand in the order of their keys, and each of them reads back.
pub open spec fn record_reads_back(fields: Seq<FieldView>) -> bool {
    &&& fields.len() > 0
    &&& ascending::<Field>(fields)
    &&& forall|i: int| 0 <= i < fields.len() ==> field_reads_back(#[trigger] fields[i])
}

/// The state in which the value of the field being read has grown by a line
/// feed and `more`.
pub open spec fn grown(st: Parsing, more: Seq<u8>) -> Parsing {
    match st.pending {
        Some(f) => Parsing {
            pending: Some(FieldView { key: f.key, value: f.value + seq![LF] + more }),
            ..st
        },
        None => st,
    }
}

/// A text that begins with a line and a line feed has that line first.
proof fn lemma_lines_cons(line: Seq<u8>, rest: Seq<u8>)
    requires
        forall|i: int| 0 <= i < line.len() ==> #[trigger] line[i] != LF,
    ensures
        lines_of(line + seq![LF] + rest) == seq![chomped(line)] + lines_of(rest),
{
    let text = line + seq![LF] + rest;
    assert forall|i: int| 0 <= i < line.len() implies #[trigger] text[i] != LF by {
        assert(text[i] == line[i]);
    }
    lemma_index_of_is(text, LF, line.len() as int);
    assert(text.subrange(0, line.len() as int) =~= line);
    assert(text.skip(line.len() as int + 1) =~= rest);
}

/// Reading lines that begin with a given line reads that line first.
proof fn lemma_fed_cons(st: Parsing, line: Seq<u8>, lines: Seq<Seq<u8>>)
    ensures
        fed_all(st, seq![line] + lines) == fed_all(fed(st, line), lines),
{
    let all = seq![line] + lines;
    assert(all[0] == line);
    assert(all.drop_first() =~= lines);
}

/// A byte that is no line feed is laid out as itself.
proof fn lemma_laid_out_byte(b: u8, v: Seq<u8>)
    requires
        b != LF,
    ensures
        laid_out(seq![b] + v) == seq![b] + laid_out(v),
{
    let s = seq![b] + v;
    assert(s.drop_first() =~= v);
    assert(s[0] == b);
    let d = seq![b] + dotted(v);
    assert(dotted(s) == d);
    assert(d.drop_first() =~= dotted(v));
    assert(d[0] == b);
}

/// Two line feeds are laid out with a full stop between them.
proof fn lemma_laid_out_pair(v: Seq<u8>)
    ensures
        laid_out(seq![LF, LF] + v) == seq![LF, SP, DOT, LF, SP] + laid_out(v),
{
    let s = seq![LF, LF] + v;
    assert(s.skip(2) =~= v);
    assert(s[0] == LF && s[1] == LF);
    assert(dotted(s) == seq![LF, DOT, LF] + dotted(v));
    lemma_indented_concat(seq![LF, DOT, LF], dotted(v));
    assert(indented(seq![LF, DOT, LF]) =~= seq![LF, SP, DOT, LF, SP]) by {
        reveal_with_fuel(indented, 4);
        let a = seq![LF, DOT, LF];
        assert(a.drop_first() =~= seq![DOT, LF]);
        assert(a.drop_first().drop_first() =~= seq![LF]);
        assert(a.drop_first().drop_first().drop_first() =~= Seq::<u8>::empty());
    }
}

/// A line feed that no line feed follows is laid out with a space after it.
proof fn lemma_laid_out_feed(v: Seq<u8>)
    requires
        v.len() == 0 || v[0] != LF,
    ensures
        laid_out(seq![LF] + v) == seq![LF, SP] + laid_out(v),
{
    let s = seq![LF] + v;
    assert(s.drop_first() =~= v);
    assert(s[0] == LF);
    if s.len() >= 2 {
        assert(s[1] == v[0]);
    }
    let d = seq![LF] + dotted(v);
    assert(dotted(s) == d);
    assert(d.drop_first() =~= dotted(v));
    assert(d[0] == LF);
    assert(seq![LF, SP] + indented(dotted(v)) =~= seq![LF, SP] + laid_out(v));
}

/// What stands before the first line feed is laid out as itself.
proof fn lemma_laid_out_prefix(v: Seq<u8>, n: int)
    requires
        0 <= n <= v.len(),
        forall|i: int| 0 <= i < n ==> #[trigger] v[i] != LF,
    ensures
        laid_out(v) == v.subrange(0, n) + laid_out(v.skip(n)),
    decreases n,
{
    if n == 0 {
        assert(v.skip(0) =~= v);
        assert(v.subrange(0, 0) + laid_out(v) =~= laid_out(v));
    } else {
        let t = v.drop_first();
        assert forall|i: int| 0 <= i < n - 1 implies #[trigger] t[i] != LF by {
            assert(t[i] == v[i + 1]);
        }
        lemma_laid_out_prefix(t, n - 1);
        assert(v =~= seq![v[0]] + t);
        lemma_laid_out_byte(v[0], t);
        assert(t.skip(n - 1) =~= v.skip(n));
        assert(seq![v[0]] + (t.subrange(0, n - 1) + laid_out(t.skip(n - 1))) =~= v.subrange(0, n)
            + laid_out(v.skip(n)));
    }
}

/// What is laid out ends as the value ends, where that is no line feed.
proof fn lemma_laid_out_last(v: Seq<u8>)
    requires
        v.len() > 0,
        v.last() != LF,
    ensures
        laid_out(v).len() > 0,
        laid_out(v).last() == v.last(),
    decreases v.len(),
{
    if v[0] != LF {
        let t = v.drop_first();
        assert(v =~= seq![v[0]] + t);
        lemma_laid_out_byte(v[0], t);
        if t.len() > 0 {
            assert(t.last() == v.last());
            lemma_laid_out_last(t);
        } else {
            assert(laid_out(t) =~= Seq::<u8>::empty());
        }
    } else if v.len() >= 2 && v[1] == LF {
        let t = v.skip(2);
        assert(v =~= seq![LF, LF] + t);
        lemma_laid_out_pair(t);
        assert(t.len() > 0);
        assert(t.last() == v.last());
        lemma_laid_out_last(t);
    } else {
        let t = v.drop_first();
        assert(v =~= seq![LF] + t);
        assert(t.len() > 0);
        assert(t[0] == v[1]);
        lemma_laid_out_feed(t);
        assert(t.last() == v.last());
        lemma_laid_out_last(t);
    }
}

/// A value without white space at its end is written as it is laid out.
proof fn lemma_multiline_untrimmed(v: Seq<u8>)
    requires
        v.len() > 0 ==> !is_space(v.last()),
    ensures
        multiline(v) == laid_out(v),
{
    let w = laid_out(v);
    if v.len() > 0 {
        lemma_laid_out_last(v);
        lemma_trailing_spaces_is(w, 0);
    } else {
        assert(w =~= Seq::<u8>::empty());
    }
    assert(trailing_spaces(w) == 0);
    assert(w.subrange(0, w.len() as int) =~= w);
}

/// A space and then a text without white space at its ends trims to that
/// text.
proof fn lemma_trimmed_after_space(first: Seq<u8>)
    requires
        first.len() > 0 ==> !is_space(first[0]) && !is_space(first.last()),
    ensures
        trimmed(seq![SP] + first) == first,
{
    let s = seq![SP] + first;
    if first.len() == 0 {
        assert(is_space(s[0]));
        lemma_trailing_spaces_is(s, 1);
        let e = trimmed_end(s);
        assert(e =~= Seq::<u8>::empty());
        lemma_leading_spaces_is(e, 0);
        assert(trimmed(s) =~= first);
    } else {
        assert(s[s.len() - 1] == first.last());
        lemma_trailing_spaces_is(s, 0);
        let e = trimmed_end(s);
        assert(e =~= s);
        assert(s[1] == first[0]);
        lemma_leading_spaces_is(s, 1);
        assert(trimmed(s) =~= first);
    }
}

/// Reading the lines that continue a value gives the value back.
proof fn lemma_read_continuation(st: Parsing, h: Seq<u8>, v: Seq<u8>, rest: Seq<u8>)
    requires
        st.failed.is_none(),
        st.pending.is_some(),
        forall|i: int| 0 <= i < h.len() ==> #[trigger] h[i] != LF,
        lines_read_back(h, v),
    ensures
        fed_all(st, lines_of(seq![SP] + h + laid_out(v) + seq![LF] + rest)) == fed_all(
            grown(st, h + v),
            lines_of(rest),
        ),
    decreases v.len(), 1int,
{
    let line = seq![SP] + h;
    let f = st.pending.unwrap();
    if v.len() > 0 && v[0] != LF {
        let t = v.drop_first();
        assert(v =~= seq![v[0]] + t);
        lemma_laid_out_byte(v[0], t);
        let h2 = h.push(v[0]);
        assert(seq![SP] + h + laid_out(v) + seq![LF] + rest =~= seq![SP] + h2 + laid_out(t)
            + seq![LF] + rest);
        lemma_read_continuation(st, h2, t, rest);
        assert(h2 + t =~= h + v);
    } else {
        assert forall|i: int| 0 <= i < line.len() implies #[trigger] line[i] != LF by {
            if i > 0 {
                assert(line[i] == h[i - 1]);
            }
        }
        lemma_read_line(st, h);
        let st1 = grown(st, h);
        lemma_read_after_line(st, line, st1, v, rest);
        if v.len() == 0 {
            assert(h + v =~= h);
        } else {
            assert(f.value + seq![LF] + h + seq![LF] + v.drop_first() =~= f.value + seq![LF] + (h
                + v));
        }
    }
}

/// Reading a line and then what is laid out of the rest of a value, which
/// is empty or begins with a line feed, gives the rest of the value back.
proof fn lemma_read_after_line(
    st0: Parsing,
    line: Seq<u8>,
    st1: Parsing,
    w: Seq<u8>,
    rest: Seq<u8>,
)
    requires
        forall|i: int| 0 <= i < line.len() ==> #[trigger] line[i] != LF,
        chomped(line) == line,
        fed(st0, line) == st1,
        st1.failed.is_none(),
        st1.pending.is_some(),
        w.len() > 0 ==> w[0] == LF && lines_read_back(Seq::empty(), w.drop_first()),
    ensures
        fed_all(st0, lines_of(line + laid_out(w) + seq![LF] + rest)) == fed_all(
            if w.len() == 0 {
                st1
            } else {
                grown(st1, w.drop_first())
            },
            lines_of(rest),
        ),
    decreases w.len(), 0int,
{
    let empty = Seq::<u8>::empty();
    let text = line + laid_out(w) + seq![LF] + rest;
    let f = st1.pending.unwrap();
    if w.len() == 0 {
        assert(laid_out(w) =~= empty);
        assert(text =~= line + seq![LF] + rest);
        lemma_lines_cons(line, rest);
        lemma_fed_cons(st0, line, lines_of(rest));
    } else {
        let u = w.drop_first();
        assert(w =~= seq![LF] + u);
        if u.len() > 0 && u[0] == LF {
            let t = u.drop_first();
            assert(w =~= seq![LF, LF] + t);
            lemma_laid_out_pair(t);
            let tail = seq![SP] + empty + laid_out(t) + seq![LF] + rest;
            let mid = seq![SP, DOT] + seq![LF] + tail;
            assert(text =~= line + seq![LF] + mid);
            lemma_lines_cons(line, mid);
            lemma_fed_cons(st0, line, lines_of(mid));
            lemma_read_mark(st1, tail);
            let st2 = grown(st1, empty);
            assert(lines_read_back(empty, t));
            lemma_read_continuation(st2, empty, t, rest);
            assert(f.value + seq![LF] + empty + seq![LF] + (empty + t) =~= f.value + seq![LF]
                + u);
        } else {
            lemma_laid_out_feed(u);
            let tail = seq![SP] + empty + laid_out(u) + seq![LF] + rest;
            assert(text =~= line + seq![LF] + tail);
            lemma_lines_cons(line, tail);
            lemma_fed_cons(st0, line, lines_of(tail));
            lemma_read_continuation(st1, empty, u, rest);
            assert(empty + u =~= u);
        }
    }
}

/// Reading one indented line that reads back adds it to the value.
proof fn lemma_read_line(st: Parsing, h: Seq<u8>)
    requires
        st.failed.is_none(),
        st.pending.is_some(),
        line_reads_back(h),
    ensures
        chomped(seq![SP] + h) == seq![SP] + h,
        fed(st, seq![SP] + h) == grown(st, h),
{
    let line = seq![SP] + h;
    assert(line[0] == SP);
    if h.len() > 0 {
        assert(line.last() == h.last());
    }
    assert(line.drop_first() =~= h);
    if line == seq![SP, DOT] {
        assert(h =~= seq![DOT]);
    }
}

/// The line that begins a field: its key, a colon, a space, and the first
/// line of its value.
pub open spec fn key_line(f: FieldView) -> Seq<u8> {
    f.key + seq![COLON, SP] + f.value.subrange(0, index_of(f.value, LF))
}

/// Reading the line that begins a field which reads back leaves the field,
/// with the first line of its value, as the field being read.
proof fn lemma_read_key_line(st: Parsing, f: FieldView)
    requires
        st.failed.is_none(),
        field_reads_back(f),
    ensures
        forall|i: int| 0 <= i < key_line(f).len() ==> #[trigger] key_line(f)[i] != LF,
        chomped(key_line(f)) == key_line(f),
        fed(st, key_line(f)) == (Parsing {
            pending: Some(
                FieldView { key: f.key, value: f.value.subrange(0, index_of(f.value, LF)) },
            ),
            ..flushed(st)
        }),
{
    let v = f.value;
    let n = index_of(v, LF);
    lemma_index_of(v, LF);
    let first = v.subrange(0, n);
    let line = key_line(f);
    assert forall|i: int| 0 <= i < line.len() implies #[trigger] line[i] != LF by {
        if i < f.key.len() {
            assert(line[i] == f.key[i]);
        } else if i >= f.key.len() + 2 {
            assert(line[i] == first[i - f.key.len() - 2]);
            assert(first[i - f.key.len() - 2] == v[i - f.key.len() - 2]);
        }
    }
    if first.len() > 0 {
        assert(line.last() == first.last());
        assert(first.last() == v[n - 1]);
        assert(first[0] == v[0]);
    } else {
        assert(line.last() == SP);
    }
    assert forall|i: int| 0 <= i < f.key.len() implies #[trigger] line[i] != COLON by {
        assert(line[i] == f.key[i]);
    }
    assert(line[f.key.len() as int] == COLON);
    lemma_index_of_is(line, COLON, f.key.len() as int);
    if f.key.len() > 0 {
        assert(line[0] == f.key[0]);
    }
    assert(line.subrange(0, f.key.len() as int) =~= f.key);
    assert(line.subrange(f.key.len() as int + 1, line.len() as int) =~= seq![SP] + first);
    lemma_trimmed_after_space(first);
}

/// The text of a field whose value has no white space at its end: the line
/// that begins it, what is laid out of the rest of the value, and a line
/// feed.
proof fn lemma_field_text(f: FieldView)
    requires
        f.value.len() > 0 ==> !is_space(f.value.last()),
    ensures
        kv_text(f.key, f.value) == key_line(f) + laid_out(
            f.value.skip(index_of(f.value, LF)),
        ) + seq![LF],
{
    let v = f.value;
    let n = index_of(v, LF);
    lemma_index_of(v, LF);
    lemma_multiline_untrimmed(v);
    lemma_laid_out_prefix(v, n);
    assert(kv_text(f.key, f.value) =~= key_line(f) + laid_out(v.skip(n)) + seq![LF]);
}

/// Reading the text of a field that reads back leaves that field as the
/// one being read.
proof fn lemma_read_field(st: Parsing, f: FieldView, rest: Seq<u8>)
    requires
        st.failed.is_none(),
        field_reads_back(f),
    ensures
        fed_all(st, lines_of(kv_text(f.key, f.value) + rest)) == fed_all(
            Parsing { pending: Some(f), ..flushed(st) },
            lines_of(rest),
        ),
{
    let v = f.value;
    let n = index_of(v, LF);
    lemma_index_of(v, LF);
    let first = v.subrange(0, n);
    let w = v.skip(n);
    let line = key_line(f);
    let after = Parsing { pending: Some(FieldView { key: f.key, value: first }), ..flushed(st) };
    lemma_field_text(f);
    lemma_read_key_line(st, f);
    assert(kv_text(f.key, f.value) + rest =~= line + laid_out(w) + seq![LF] + rest);
    if w.len() > 0 {
        assert(w.drop_first() =~= v.skip(n + 1));
        assert(first + seq![LF] + w.drop_first() =~= v);
    } else {
        assert(first =~= v);
    }
    lemma_read_after_line(st, line, after, w, rest);
}

/// Reading a line that holds a space and a full stop adds an empty line to
/// the value.
proof fn lemma_read_mark(st: Parsing, tail: Seq<u8>)
    requires
        st.failed.is_none(),
        st.pending.is_some(),
    ensures
        fed_all(st, lines_of(seq![SP, DOT] + seq![LF] + tail)) == fed_all(
            grown(st, Seq::<u8>::empty()),
            lines_of(tail),
        ),
{
    let mark = seq![SP, DOT];
    assert forall|i: int| 0 <= i < mark.len() implies #[trigger] mark[i] != LF by {}
    lemma_lines_cons(mark, tail);
    assert(chomped(mark) == mark);
    assert(mark[0] == SP);
    assert(continuation(mark) =~= Seq::<u8>::empty());
    lemma_fed_cons(st, mark, lines_of(tail));
}

/// Putting the last field of an ascending record after the others gives
/// the record.
proof fn lemma_put_last(fields: Seq<FieldView>)
    requires
        fields.len() > 0,
        ascending::<Field>(fields),
    ensures
        put(fields.drop_last(), fields.last().key, fields.last().value) == fields,
{
    let init = fields.drop_last();
    let last = fields.last();
    let p = probe(last.key);
    assert forall|i: int| 0 <= i < init.len() implies #[trigger] Field::rank(init[i], p)
        == Order::Less by {
        assert(init[i] == fields[i]);
        assert(Field::rank(fields[i], fields[fields.len() - 1]) == Order::Less);
    }
    lemma_slot_unique::<Field>(init, p, init.len() as int);
    assert(init.insert(init.len() as int, last) =~= fields);
}

/// Reading the text of a record's fields leaves the last of them as the
/// field being read and the others in the record being read.
proof fn lemma_read_fields(st: Parsing, fields: Seq<FieldView>, rest: Seq<u8>)
    requires
        st.failed.is_none(),
        st.pending.is_none(),
        st.current.len() == 0,
        record_reads_back(fields),
    ensures
        fed_all(st, lines_of(record_text(fields) + rest)) == fed_all(
            Parsing { current: fields.drop_last(), pending: Some(fields.last()), ..st },
            lines_of(rest),
        ),
    decreases fields.len(),
{
    let init = fields.drop_last();
    let last = fields.last();
    assert(field_reads_back(fields[fields.len() - 1]));
    if init.len() == 0 {
        assert(record_text(init) =~= Seq::<u8>::empty());
        assert(record_text(fields) + rest =~= kv_text(last.key, last.value) + rest);
        lemma_read_field(st, last, rest);
        assert(st.current =~= init);
    } else {
        assert(record_reads_back(init)) by {
            assert forall|i: int, j: int| 0 <= i < j < init.len() implies Field::rank(
                #[trigger] init[i],
                #[trigger] init[j],
            ) == Order::Less by {
                assert(Field::rank(fields[i], fields[j]) == Order::Less);
            }
            assert forall|i: int| 0 <= i < init.len() implies field_reads_back(
                #[trigger] init[i],
            ) by {
                assert(init[i] == fields[i]);
            }
        }
        let more = kv_text(last.key, last.value) + rest;
        assert(record_text(fields) + rest =~= record_text(init) + more);
        lemma_read_fields(st, init, more);
        let st1 = Parsing { current: init.drop_last(), pending: Some(init.last()), ..st };
        lemma_read_field(st1, last, rest);
        lemma_put_last(init);
    }
}

/// Reading the text of records that read back adds them to the records
/// read.
proof fn lemma_read_stream(st: Parsing, records: Seq<Seq<FieldView>>, rest: Seq<u8>)
    requires
        st.failed.is_none(),
        st.pending.is_none(),
        st.current.len() == 0,
        forall|i: int| 0 <= i < records.len() ==> record_reads_back(#[trigger] records[i]),
    ensures
        fed_all(st, lines_of(stream_text(records) + rest)) == fed_all(
            Parsing { records: st.records + records, ..st },
            lines_of(rest),
        ),
    decreases records.len(),
{
    if records.len() == 0 {
        assert(stream_text(records) + rest =~= rest);
        assert(st.records + records =~= st.records);
    } else {
        let init = records.drop_last();
        let last = records.last();
        assert(record_reads_back(records[records.len() - 1]));
        assert forall|i: int| 0 <= i < init.len() implies record_reads_back(#[trigger] init[i]) by {
            assert(init[i] == records[i]);
        }
        let more = record_text(last) + seq![LF] + rest;
        assert(stream_text(records) + rest =~= stream_text(init) + more);
        lemma_read_stream(st, init, more);
        let st1 = Parsing { records: st.records + init, ..st };
        let blank = seq![LF] + rest;
        assert(more =~= record_text(last) + blank);
        lemma_read_fields(st1, last, blank);
        let st2 = Parsing { current: last.drop_last(), pending: Some(last.last()), ..st1 };
        let empty = Seq::<u8>::empty();
        assert(blank =~= empty + seq![LF] + rest);
        lemma_lines_cons(empty, rest);
        lemma_fed_cons(st2, empty, lines_of(rest));
        lemma_put_last(last);
        assert(chomped(empty) == empty);
        assert((st.records + init).push(last) =~= st.records + records);
        assert(st.current =~= Seq::<FieldView>::empty());
        let st3 = closed(flushed(st2));
        assert(fed(st2, empty) == st3);
        assert(flushed(st2).current == last);
        assert(st3 == Parsing { records: st.records + records, ..st });
    }
}

/// Round trip: a control file written from records that read back is read
/// as those records.
pub proof fn lemma_parse_render_round_trip(records: Seq<Seq<FieldView>>)
    requires
        forall|i: int| 0 <= i < records.len() ==> record_reads_back(#[trigger] records[i]),
    ensures
        parsed(stream_text(records)) == Ok::<Seq<Seq<FieldView>>, ControlError>(records),
{
    let st = parsing_start();
    let empty = Seq::<u8>::empty();
    assert(stream_text(records) + empty =~= stream_text(records));
    lemma_read_stream(st, records, empty);
    assert(st.records + records =~= records);
}

/// The record that the first `n` of the fields make, put one after the
/// other in the order in which they stand.
pub open spec fn put_all(fields: Seq<FieldView>, n: nat) -> Seq<FieldView>
    decreases n,
{
    if n == 0 {
        Seq::empty()
    } else {
        put(put_all(fields, (n - 1) as nat), fields[n - 1].key, fields[n - 1].value)
    }
}

/// Whether no two of the fields have keys that differ only in the case of
/// ASCII letters.
pub open spec fn distinct_keys(fields: Seq<FieldView>) -> bool {
    forall|i: int, j: int|
        0 <= i < j < fields.len() ==> fold_rank(
            (#[trigger] fields[i]).key,
            (#[trigger] fields[j]).key,
        ) != Order::Equal
}

/// Whether two runs of fields hold the same fields, in whatever order.
pub open spec fn same_fields(a: Seq<FieldView>, b: Seq<FieldView>) -> bool {
    &&& a.len() == b.len()
    &&& forall|i: int| 0 <= i < a.len() ==> b.contains(#[trigger] a[i])
    &&& forall|j: int| 0 <= j < b.len() ==> a.contains(#[trigger] b[j])
}

/// What the first fields make does not depend on the fields after them.
proof fn lemma_put_all_prefix(a: Seq<FieldView>, b: Seq<FieldView>, n: nat)
    requires
        n <= a.len(),
        n <= b.len(),
        forall|i: int| 0 <= i < n ==> a[i] == b[i],
    ensures
        put_all(a, n) == put_all(b, n),
    decreases n,
{
    if n > 0 {
        lemma_put_all_prefix(a, b, (n - 1) as nat);
    }
}

/// Fields with different keys, put one after the other in whatever order,
/// make a record that holds just these fields, in the order of their keys.
pub proof fn lemma_put_all(fields: Seq<FieldView>, n: nat)
    requires
        n <= fields.len(),
        distinct_keys(fields),
    ensures
        ascending::<Field>(put_all(fields, n)),
        same_fields(fields.subrange(0, n as int), put_all(fields, n)),
    decreases n,
{
    let head = fields.subrange(0, n as int);
    let s = put_all(fields, n);
    if n == 0 {
        assert(s.len() == 0);
    } else {
        let m = (n - 1) as nat;
        lemma_put_all(fields, m);
        let s0 = put_all(fields, m);
        let head0 = fields.subrange(0, m as int);
        let f = fields[n - 1];
        let pr = probe(f.key);
        let p = slot::<Field>(s0, pr);
        lemma_slot_bounds::<Field>(s0, pr);
        if holds::<Field>(s0, pr) {
            // the field that holds the place is an earlier one with the same key
            assert(head0.contains(s0[p]));
            let i = choose|i: int| 0 <= i < head0.len() && head0[i] == s0[p];
            assert(head0[i] == fields[i]);
            assert(fold_rank(fields[i].key, fields[n - 1].key) != Order::Equal);
            assert(false);
        }
        lemma_slot_of_key(s0, f, pr);
        lemma_insert_ascending::<Field>(s0, f);
        assert(s == s0.insert(p, f));
        assert forall|i: int| 0 <= i < head.len() implies s.contains(#[trigger] head[i]) by {
            if i < m {
                assert(head[i] == head0[i]);
                assert(s0.contains(head0[i]));
                let j = choose|j: int| 0 <= j < s0.len() && s0[j] == head0[i];
                if j < p {
                    assert(s[j] == s0[j]);
                } else {
                    assert(s[j + 1] == s0[j]);
                }
            } else {
                assert(s[p] == f);
            }
        }
        assert forall|j: int| 0 <= j < s.len() implies head.contains(#[trigger] s[j]) by {
            if j == p {
                assert(head[n - 1] == f);
            } else {
                let k = if j < p {
                    j
                } else {
                    j - 1
                };
                assert(s[j] == s0[k]);
                assert(head0.contains(s0[k]));
                let i = choose|i: int| 0 <= i < head0.len() && head0[i] == s0[k];
                assert(head[i] == head0[i]);
            }
        }
    }
}

/// Putting the fields of a record one after the other, in the order of
/// the record, makes the record.
proof fn lemma_put_all_ascending(fields: Seq<FieldView>, n: nat)
    requires
        n <= fields.len(),
        ascending::<Field>(fields),
    ensures
        put_all(fields, n) == fields.subrange(0, n as int),
    decreases n,
{
    if n == 0 {
        assert(fields.subrange(0, 0) =~= Seq::<FieldView>::empty());
    } else {
        lemma_put_all_ascending(fields, (n - 1) as nat);
        let head = fields.subrange(0, n as int);
        assert forall|i: int, j: int| 0 <= i < j < head.len() implies Field::rank(
            #[trigger] head[i],
            #[trigger] head[j],
        ) == Order::Less by {
            assert(Field::rank(fields[i], fields[j]) == Order::Less);
        }
        assert(head.drop_last() =~= fields.subrange(0, n - 1));
        lemma_put_last(head);
    }
}

/// Reading the text of fields, written in whatever order, leaves the last
/// of them as the field being read and what the others make in the record
/// being read.
proof fn lemma_read_any_order(st: Parsing, fields: Seq<FieldView>, rest: Seq<u8>)
    requires
        st.failed.is_none(),
        st.pending.is_none(),
        st.current.len() == 0,
        fields.len() > 0,
        forall|i: int| 0 <= i < fields.len() ==> field_reads_back(#[trigger] fields[i]),
    ensures
        fed_all(st, lines_of(record_text(fields) + rest)) == fed_all(
            Parsing {
                current: put_all(fields, (fields.len() - 1) as nat),
                pending: Some(fields.last()),
                ..st
            },
            lines_of(rest),
        ),
    decreases fields.len(),
{
    let init = fields.drop_last();
    let last = fields.last();
    assert(field_reads_back(fields[fields.len() - 1]));
    if init.len() == 0 {
        assert(record_text(init) =~= Seq::<u8>::empty());
        assert(record_text(fields) + rest =~= kv_text(last.key, last.value) + rest);
        lemma_read_field(st, last, rest);
        assert(st.current =~= put_all(fields, 0));
    } else {
        assert forall|i: int| 0 <= i < init.len() implies field_reads_back(#[trigger] init[i]) by {
            assert(init[i] == fields[i]);
        }
        let more = kv_text(last.key, last.value) + rest;
        assert(record_text(fields) + rest =~= record_text(init) + more);
        lemma_read_any_order(st, init, more);
        let st1 = Parsing {
            current: put_all(init, (init.len() - 1) as nat),
            pending: Some(init.last()),
            ..st
        };
        lemma_read_field(st1, last, rest);
        lemma_put_all_prefix(init, fields, init.len());
    }
}

/// Round trip of one record, whatever the order in which its fields are
/// written, with or without an empty line after them: fields that read
/// back, no two with the same key, are read as one record, which holds
/// just these fields, in the order of their keys.
pub proof fn lemma_parse_render_any_order(fields: Seq<FieldView>, closed_by_line: bool)
    requires
        fields.len() > 0,
        distinct_keys(fields),
        forall|i: int| 0 <= i < fields.len() ==> field_reads_back(#[trigger] fields[i]),
    ensures
        parsed(
            record_text(fields) + (if closed_by_line {
                seq![LF]
            } else {
                Seq::empty()
            }),
        ) == Ok::<Seq<Seq<FieldView>>, ControlError>(seq![put_all(fields, fields.len())]),
        ascending::<Field>(put_all(fields, fields.len())),
        same_fields(fields, put_all(fields, fields.len())),
        ascending::<Field>(fields) ==> put_all(fields, fields.len()) == fields,
{
    let st = parsing_start();
    let empty = Seq::<u8>::empty();
    let tail = if closed_by_line {
        seq![LF]
    } else {
        empty
    };
    let record = put_all(fields, fields.len());
    lemma_put_all(fields, fields.len());
    assert(fields.subrange(0, fields.len() as int) =~= fields);
    lemma_read_any_order(st, fields, tail);
    let st1 = Parsing {
        current: put_all(fields, (fields.len() - 1) as nat),
        pending: Some(fields.last()),
        ..st
    };
    assert(flushed(st1).current == record);
    assert(record.len() == fields.len());
    let done = Parsing { records: seq![record], ..st };
    assert(st.records.push(record) =~= seq![record]);
    assert(closed(flushed(st1)) == done);
    if closed_by_line {
        assert(tail =~= empty + seq![LF] + empty);
        lemma_lines_cons(empty, empty);
        lemma_fed_cons(st1, empty, lines_of(empty));
        assert(chomped(empty) == empty);
        assert(fed(st1, empty) == done);
        assert(closed(flushed(done)) == done);
    }
    if ascending::<Field>(fields) {
        lemma_put_all_ascending(fields, fields.len());
    }
}

/// An item of a list field that reads back as it was written: it holds no
/// line feed, has no white space at its end, and is no lone full stop.
pub open spec fn item_reads_back(item: Seq<u8>) -> bool {
    &&& forall|i: int| 0 <= i < item.len() ==> #[trigger] item[i] != LF
    &&& item.len() > 0 ==> !is_space(item.last())
    &&& item != seq![DOT]
}

/// The value that a list field is read as: each of its items after a line
/// feed.
pub open spec fn stacked(items: Seq<Seq<u8>>) -> Seq<u8>
    decreases items.len(),
{
    if items.len() == 0 {
        Seq::empty()
    } else {
        stacked(items.drop_last()) + seq![LF] + items.last()
    }
}

/// The field that a list field is read as.
pub open spec fn list_field(key: Seq<u8>, items: Seq<Seq<u8>>) -> FieldView {
    FieldView { key, value: stacked(items) }
}

/// An item that reads back is written as it stands.
proof fn lemma_item_text(item: Seq<u8>)
    requires
        item_reads_back(item),
    ensures
        multiline(item) == item,
{
    lemma_multiline_untrimmed(item);
    lemma_laid_out_prefix(item, item.len() as int);
    assert(item.skip(item.len() as int) =~= Seq::<u8>::empty());
    assert(laid_out(Seq::<u8>::empty()) =~= Seq::<u8>::empty());
    assert(item.subrange(0, item.len() as int) =~= item);
    assert(item + Seq::<u8>::empty() =~= item);
}

/// Reading the line that begins a list field leaves the field, without a
/// value yet, as the field being read.
proof fn lemma_read_list_key(st: Parsing, key: Seq<u8>)
    requires
        st.failed.is_none(),
        key_reads_back(key),
    ensures
        forall|i: int| 0 <= i < key.len() + 1 ==> #[trigger] (key + seq![COLON])[i] != LF,
        chomped(key + seq![COLON]) == key + seq![COLON],
        fed(st, key + seq![COLON]) == (Parsing {
            pending: Some(FieldView { key, value: Seq::empty() }),
            ..flushed(st)
        }),
{
    let line = key + seq![COLON];
    let empty = Seq::<u8>::empty();
    assert forall|i: int| 0 <= i < line.len() implies #[trigger] line[i] != LF by {
        if i < key.len() {
            assert(line[i] == key[i]);
        }
    }
    assert(line.last() == COLON);
    assert forall|i: int| 0 <= i < key.len() implies #[trigger] line[i] != COLON by {
        assert(line[i] == key[i]);
    }
    assert(line[key.len() as int] == COLON);
    lemma_index_of_is(line, COLON, key.len() as int);
    if key.len() > 0 {
        assert(line[0] == key[0]);
    }
    assert(line.subrange(0, key.len() as int) =~= key);
    assert(line.subrange(key.len() as int + 1, line.len() as int) =~= empty);
    lemma_trailing_spaces_is(empty, 0);
    assert(trimmed_end(empty) =~= empty);
    lemma_leading_spaces_is(empty, 0);
    assert(trimmed(empty) =~= empty);
}

/// Reading the text of a list field whose key and items read back leaves
/// the field, with each item after a line feed as its value, as the field
/// being read.
proof fn lemma_read_items(st: Parsing, key: Seq<u8>, items: Seq<Seq<u8>>, rest: Seq<u8>)
    requires
        st.failed.is_none(),
        key_reads_back(key),
        forall|i: int| 0 <= i < items.len() ==> item_reads_back(#[trigger] items[i]),
    ensures
        fed_all(st, lines_of(kv_lines_text(key, items) + rest)) == fed_all(
            Parsing { pending: Some(list_field(key, items)), ..flushed(st) },
            lines_of(rest),
        ),
    decreases items.len(),
{
    let line = key + seq![COLON];
    if items.len() == 0 {
        assert(item_lines(items) =~= Seq::<u8>::empty());
        assert(kv_lines_text(key, items) + rest =~= line + seq![LF] + rest);
        lemma_read_list_key(st, key);
        lemma_lines_cons(line, rest);
        lemma_fed_cons(st, line, lines_of(rest));
    } else {
        let init = items.drop_last();
        let last = items.last();
        assert(item_reads_back(items[items.len() - 1]));
        assert forall|i: int| 0 <= i < init.len() implies item_reads_back(#[trigger] init[i]) by {
            assert(init[i] == items[i]);
        }
        lemma_item_text(last);
        let row = seq![SP] + last;
        let more = row + seq![LF] + rest;
        assert(kv_lines_text(key, items) + rest =~= kv_lines_text(key, init) + more);
        lemma_read_items(st, key, init, more);
        let st1 = Parsing { pending: Some(list_field(key, init)), ..flushed(st) };
        assert forall|i: int| 0 <= i < row.len() implies #[trigger] row[i] != LF by {
            if i > 0 {
                assert(row[i] == last[i - 1]);
            }
        }
        lemma_read_line(st1, last);
        lemma_lines_cons(row, rest);
        lemma_fed_cons(st1, row, lines_of(rest));
        assert(grown(st1, last) == (Parsing {
            pending: Some(list_field(key, items)),
            ..flushed(st)
        }));
    }
}

/// Round trip of a record whose last field is a list field: fields that
/// read back and then a list field whose key and items read back, no two
/// with the same key, are read as one record.  It holds just these fields,
/// in the order of their keys, and the list field has each of its items
/// after a line feed as its value.
pub proof fn lemma_parse_render_with_list(
    fields: Seq<FieldView>,
    key: Seq<u8>,
    items: Seq<Seq<u8>>,
)
    requires
        distinct_keys(fields.push(list_field(key, items))),
        forall|i: int| 0 <= i < fields.len() ==> field_reads_back(#[trigger] fields[i]),
        key_reads_back(key),
        forall|i: int| 0 <= i < items.len() ==> item_reads_back(#[trigger] items[i]),
    ensures
        ({
            let all = fields.push(list_field(key, items));
            &&& parsed(record_text(fields) + kv_lines_text(key, items)) == Ok::<
                Seq<Seq<FieldView>>,
                ControlError,
            >(seq![put_all(all, all.len())])
            &&& ascending::<Field>(put_all(all, all.len()))
            &&& same_fields(all, put_all(all, all.len()))
        }),
{
    let st = parsing_start();
    let empty = Seq::<u8>::empty();
    let f = list_field(key, items);
    let all = fields.push(f);
    let n = fields.len();
    let record = put_all(all, all.len());
    let text = record_text(fields) + kv_lines_text(key, items);
    lemma_put_all(all, all.len());
    assert(all.subrange(0, all.len() as int) =~= all);
    lemma_put_all_prefix(fields, all, n);
    assert(text + empty =~= text);
    assert(lines_of(empty) =~= Seq::<Seq<u8>>::empty());
    let before = if n == 0 {
        st
    } else {
        Parsing { current: put_all(fields, (n - 1) as nat), pending: Some(fields.last()), ..st }
    };
    if n == 0 {
        assert(record_text(fields) =~= empty);
        assert(text =~= kv_lines_text(key, items) + empty);
    } else {
        assert(text =~= record_text(fields) + (kv_lines_text(key, items) + empty));
        lemma_read_any_order(st, fields, kv_lines_text(key, items) + empty);
    }
    lemma_read_items(before, key, items, empty);
    assert(flushed(before).current == put_all(all, n));
    let last = Parsing { pending: Some(f), ..flushed(before) };
    assert(fed_all(st, lines_of(text)) == last);
    assert(flushed(last).current == record);
    assert(record.len() == all.len());
    assert(st.records.push(record) =~= seq![record]);
}

} // verus!
