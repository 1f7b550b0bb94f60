//! Reading the control-file text format.

use vstd::prelude::*;
use crate::deb_ext::{kv_text, WriteDebExt, COLON, DOT, LF, SP};
use crate::order::{
    ascending, holds, lemma_deep_insert, lemma_deep_update, lemma_insert_ascending,
    lemma_slot_bounds, lemma_update_ascending, locate, slot, Order, Ranked,
};
use crate::text::{
    append_bytes, compare_folded, copy_bytes, find_byte, fold_rank, folded, index_of, lemma_index_of,
    lemma_lex_flip, lemma_lex_equal, lemma_lex_transitive, trim, trimmed,
};

verus! {

/// The carriage return byte.
pub const CR: u8 = 0x0d;

/// One field of a control record.
#[derive(Debug)]
pub struct Field {
    pub key: Vec<u8>,
    pub value: Vec<u8>,
}

/// What a field holds.
pub struct FieldView {
    pub key: Seq<u8>,
    pub value: Seq<u8>,
}

impl View for Field {
    type V = FieldView;

    open spec fn view(&self) -> FieldView {
        FieldView { key: self.key@, value: self.value@ }
    }
}

impl DeepView for Field {
    type V = FieldView;

    open spec fn deep_view(&self) -> FieldView {
        self@
    }
}

impl Ranked for Field {
    /// Fields are ranked by their keys, without regard to ASCII case.
    open spec fn rank(x: FieldView, y: FieldView) -> Order {
        fold_rank(x.key, y.key)
    }

    proof fn rank_reflexive(x: FieldView) {
        lemma_lex_equal(folded(x.key), folded(x.key));
    }

    proof fn rank_antisymmetric(x: FieldView, y: FieldView) {
        lemma_lex_flip(folded(x.key), folded(y.key));
    }

    proof fn rank_transitive(x: FieldView, y: FieldView, z: FieldView) {
        lemma_lex_transitive(folded(x.key), folded(y.key), folded(z.key));
    }

    fn compare(&self, other: &Self) -> (o: Order) {
        compare_folded(self.key.as_slice(), other.key.as_slice())
    }
}

/// A field with the given key and no value, to look a key up by.
pub open spec fn probe(key: Seq<u8>) -> FieldView {
    FieldView { key, value: Seq::empty() }
}

/// The fields `s` after `key` is given `value`: where a field with that key
/// (whatever the case of its ASCII letters) is there already, it keeps its
/// key and takes the
/// value; else a new field is put in its place in the order.
pub open spec fn put(s: Seq<FieldView>, key: Seq<u8>, value: Seq<u8>) -> Seq<FieldView> {
    let p = slot::<Field>(s, probe(key));
    if holds::<Field>(s, probe(key)) {
        s.update(p, FieldView { key: s[p].key, value })
    } else {
        s.insert(p, FieldView { key, value })
    }
}

/// The value that the fields `s` give to `key`, whatever the case of its
/// ASCII letters.
pub open spec fn lookup(s: Seq<FieldView>, key: Seq<u8>) -> Option<Seq<u8>> {
    if holds::<Field>(s, probe(key)) {
        Some(s[slot::<Field>(s, probe(key))].value)
    } else {
        None
    }
}

/// The fields `s` without the one of `key`, whatever the case of its ASCII
/// letters.
pub open spec fn without(s: Seq<FieldView>, key: Seq<u8>) -> Seq<FieldView> {
    if holds::<Field>(s, probe(key)) {
        s.remove(slot::<Field>(s, probe(key)))
    } else {
        s
    }
}

/// The text of a record: its fields as `kv_text` writes them, in their
/// order.
pub open spec fn record_text(fields: Seq<FieldView>) -> Seq<u8>
    decreases fields.len(),
{
    if fields.len() == 0 {
        Seq::empty()
    } else {
        record_text(fields.drop_last()) + kv_text(fields.last().key, fields.last().value)
    }
}

/// The text of a control file: each record's text and an empty line.
pub open spec fn stream_text(records: Seq<Seq<FieldView>>) -> Seq<u8>
    decreases records.len(),
{
    if records.len() == 0 {
        Seq::empty()
    } else {
        stream_text(records.drop_last()) + record_text(records.last()) + seq![LF]
    }
}

/// A record of a control file: fields, each key at most once whatever the
/// case of its ASCII letters, kept in the order of their keys so folded.
#[derive(Debug)]
pub struct ControlRecord {
    pub fields: Vec<Field>,
}

impl View for ControlRecord {
    type V = Seq<FieldView>;

    open spec fn view(&self) -> Seq<FieldView> {
        self.fields.deep_view()
    }
}

impl DeepView for ControlRecord {
    type V = Seq<FieldView>;

    open spec fn deep_view(&self) -> Seq<FieldView> {
        self@
    }
}

impl ControlRecord {
    /// The fields stand in strictly ascending order of their keys.
    pub open spec fn wf(&self) -> bool {
        ascending::<Field>(self@)
    }

    /// A record without fields.
    pub fn new() -> (r: ControlRecord)
        ensures
            r@ == Seq::<FieldView>::empty(),
            r.wf(),
    {
        let r = ControlRecord { fields: Vec::new() };
        proof {
            assert(r@ =~= Seq::<FieldView>::empty());
        }
        r
    }

    /// The number of fields.
    pub fn len(&self) -> (n: usize)
        ensures
            n == self@.len(),
    {
        self.fields.len()
    }

    /// Gives `key` the value `value`.
    pub fn insert(&mut self, key: Vec<u8>, value: Vec<u8>)
        requires
            old(self).wf(),
        ensures
            final(self).wf(),
            final(self)@ == put(old(self)@, key@, value@),
    {
        let field = Field { key, value: Vec::new() };
        let (p, found) = locate(&self.fields, &field);
        let ghost before = self.fields;
        proof {
            lemma_slot_bounds::<Field>(self@, probe(key@));
            assert(field@ == probe(key@));
        }
        if found {
            let old_field = self.fields.remove(p);
            let new_field = Field { key: old_field.key, value };
            let ghost mid = self.fields;
            self.fields.insert(p, new_field);
            proof {
                assert(self.fields@ =~= before@.update(p as int, new_field));
                lemma_deep_update(before, self.fields, p as int, new_field);
                let nv = FieldView { key: before@[p as int].key@, value: value@ };
                assert(new_field@ == nv);
                // the replaced field keeps its key, so it keeps its place
                assert(self@ == old(self)@.update(p as int, nv));
                lemma_kept_key_ascending(old(self)@, p as int, value@);
            }
        } else {
            let new_field = Field { key: field.key, value };
            self.fields.insert(p, new_field);
            proof {
                lemma_deep_insert(before, self.fields, p as int, new_field);
                lemma_slot_of_key(old(self)@, new_field@, probe(key@));
                lemma_insert_ascending::<Field>(old(self)@, new_field@);
            }
        }
    }

    /// Writes the fields, one after the other, in the control-file format.
    pub fn output(&self, out: &mut Vec<u8>)
        ensures
            final(out)@ == old(out)@ + record_text(self@),
    {
        let mut i: usize = 0;
        proof {
            assert(self@.subrange(0, 0) =~= Seq::<FieldView>::empty());
            assert(out@ =~= old(out)@ + record_text(self@.subrange(0, 0)));
        }
        while i < self.fields.len()
            invariant
                0 <= i <= self.fields.len(),
                out@ == old(out)@ + record_text(self@.subrange(0, i as int)),
            decreases self.fields.len() - i,
        {
            let ghost before = out@;
            out.write_kv(self.fields[i].key.as_slice(), self.fields[i].value.as_slice());
            proof {
                let next = self@.subrange(0, i + 1);
                assert(next.drop_last() =~= self@.subrange(0, i as int));
                assert(next.last() == self.fields@[i as int]@);
                assert(out@ =~= old(out)@ + record_text(next));
            }
            i += 1;
        }
        proof {
            assert(self@.subrange(0, self@.len() as int) =~= self@);
        }
    }

    /// A record with the same fields.
    pub fn duplicate(&self) -> (r: ControlRecord)
        ensures
            r@ == self@,
    {
        let mut fields: Vec<Field> = Vec::new();
        let mut i: usize = 0;
        while i < self.fields.len()
            invariant
                0 <= i <= self.fields.len(),
                fields.deep_view() == self@.subrange(0, i as int),
            decreases self.fields.len() - i,
        {
            let ghost before = fields.deep_view();
            let f = Field {
                key: copy_bytes(self.fields[i].key.as_slice()),
                value: copy_bytes(self.fields[i].value.as_slice()),
            };
            fields.push(f);
            proof {
                assert(fields.deep_view() =~= before.push(f@));
                assert(fields.deep_view() =~= self@.subrange(0, i + 1));
            }
            i += 1;
        }
        proof {
            assert(self@.subrange(0, self@.len() as int) =~= self@);
        }
        ControlRecord { fields }
    }

    /// The value of `key`, if the record has that field.
    pub fn get(&self, key: &[u8]) -> (r: Option<&Vec<u8>>)
        requires
            self.wf(),
        ensures
            match r {
                Some(v) => lookup(self@, key@) == Some(v@),
                None => lookup(self@, key@).is_none(),
            },
    {
        let field = Field { key: copy_bytes(key), value: Vec::new() };
        let (p, found) = locate(&self.fields, &field);
        proof {
            assert(field@ == probe(key@));
        }
        if found {
            Some(&self.fields[p].value)
        } else {
            None
        }
    }

    /// Takes the field of `key` out of the record and returns its value.
    pub fn remove(&mut self, key: &[u8]) -> (r: Option<Vec<u8>>)
        requires
            old(self).wf(),
        ensures
            final(self).wf(),
            final(self)@ == without(old(self)@, key@),
            match r {
                Some(v) => lookup(old(self)@, key@) == Some(v@),
                None => lookup(old(self)@, key@).is_none(),
            },
    {
        let field = Field { key: copy_bytes(key), value: Vec::new() };
        let (p, found) = locate(&self.fields, &field);
        proof {
            assert(field@ == probe(key@));
        }
        if found {
            let ghost before = self.fields;
            let taken = self.fields.remove(p);
            proof {
                assert(self@ =~= old(self)@.remove(p as int));
                lemma_remove_ascending::<Field>(old(self)@, p as int);
            }
            Some(taken.value)
        } else {
            None
        }
    }
}

/// The slot of a field depends on its key alone.
pub proof fn lemma_slot_of_key(s: Seq<FieldView>, x: FieldView, y: FieldView)
    requires
        x.key == y.key,
    ensures
        slot::<Field>(s, x) == slot::<Field>(s, y),
        holds::<Field>(s, x) == holds::<Field>(s, y),
    decreases s.len(),
{
    if s.len() == 0 || Field::rank(s[0], x) != Order::Less {
    } else {
        lemma_slot_of_key(s.drop_first(), x, y);
    }
    lemma_slot_bounds::<Field>(s, x);
}

/// Giving the field at `p` another value leaves the fields ascending.
pub proof fn lemma_kept_key_ascending(s: Seq<FieldView>, p: int, value: Seq<u8>)
    requires
        ascending::<Field>(s),
        0 <= p < s.len(),
    ensures
        ascending::<Field>(s.update(p, FieldView { key: s[p].key, value })),
{
    let t = s.update(p, FieldView { key: s[p].key, value });
    assert forall|i: int, j: int| 0 <= i < j < t.len() implies Field::rank(
        #[trigger] t[i],
        #[trigger] t[j],
    ) == Order::Less by {
        assert(Field::rank(s[i], s[j]) == Order::Less);
    }
}

/// Taking an item out of an ascending sequence leaves it ascending.
pub proof fn lemma_remove_ascending<T: Ranked>(s: Seq<T::V>, p: int)
    requires
        ascending::<T>(s),
        0 <= p < s.len(),
    ensures
        ascending::<T>(s.remove(p)),
{
    let t = s.remove(p);
    assert forall|i: int, j: int| 0 <= i < j < t.len() implies T::rank(
        #[trigger] t[i],
        #[trigger] t[j],
    ) == Order::Less by {
        let a = if i < p { i } else { i + 1 };
        let b = if j < p { j } else { j + 1 };
        assert(t[i] == s[a] && t[j] == s[b]);
        assert(T::rank(s[a], s[b]) == Order::Less);
    }
}

/// Why a text is no control file.
#[derive(Clone, Copy, Debug, PartialEq, Eq, Structural)]
pub enum ControlError {
    /// A line that continues a value stands where no field was begun.
    StrayContinuation,
    /// A line that should begin a field holds no colon.
    MissingColon,
}

impl ControlError {
    /// The error in words.
    pub fn message(&self) -> (r: &'static str)
        ensures
            r@ == "Bad format of debian control"@,
    {
        "Bad format of debian control"
    }
}

/// A line as it was read, without the carriage return that may end it.
pub open spec fn chomped(line: Seq<u8>) -> Seq<u8> {
    if line.len() > 0 && line.last() == CR {
        line.drop_last()
    } else {
        line
    }
}

/// The lines of a text.  A line ends at a line feed, and the carriage
/// return before it is no part of the line; what follows the last line feed
/// is a line as it stands, unless it is empty.
pub open spec fn lines_of(text: Seq<u8>) -> Seq<Seq<u8>>
    decreases text.len(),
{
    if text.len() == 0 {
        Seq::empty()
    } else {
        let n = index_of(text, LF);
        if n >= text.len() {
            seq![text]
        } else {
            proof {
                lemma_index_of(text, LF);
            }
            seq![chomped(text.subrange(0, n))] + lines_of(text.skip(n + 1))
        }
    }
}

/// How far the reading of a control file has come.
pub struct Parsing {
    /// The records that are complete.
    pub records: Seq<Seq<FieldView>>,
    /// The fields of the record being read.
    pub current: Seq<FieldView>,
    /// The field being read, whose value may go on in the next line.
    pub pending: Option<FieldView>,
    /// The error met, after which nothing more is read.
    pub failed: Option<ControlError>,
}

/// Nothing read yet.
pub open spec fn parsing_start() -> Parsing {
    Parsing { records: Seq::empty(), current: Seq::empty(), pending: None, failed: None }
}

/// The field being read goes into the record being read.
pub open spec fn flushed(st: Parsing) -> Parsing {
    match st.pending {
        Some(f) => Parsing { current: put(st.current, f.key, f.value), pending: None, ..st },
        None => st,
    }
}

/// The record being read is complete, if it has any field.
pub open spec fn closed(st: Parsing) -> Parsing {
    if st.current.len() > 0 {
        Parsing { records: st.records.push(st.current), current: Seq::empty(), ..st }
    } else {
        st
    }
}

/// What a continuation line adds to a value: the line without its leading
/// space, or nothing where the line is a space and a full stop.
pub open spec fn continuation(line: Seq<u8>) -> Seq<u8> {
    if line == seq![SP, DOT] {
        Seq::empty()
    } else {
        line.drop_first()
    }
}

/// Reading one more line.
///
/// An empty line ends the field and the record being read.  A line that
/// begins with a space continues the value of the field being read, after a
/// line feed.  Any other line ends the field being read and begins one: its
/// key is what stands before the first colon, its value what follows,
/// without the white space of ASCII at either end.
pub open spec fn fed(st: Parsing, line: Seq<u8>) -> Parsing {
    if st.failed.is_some() {
        st
    } else if line.len() == 0 {
        closed(flushed(st))
    } else if line[0] == SP {
        match st.pending {
            Some(f) => Parsing {
                pending: Some(
                    FieldView { key: f.key, value: f.value + seq![LF] + continuation(line) },
                ),
                ..st
            },
            None => Parsing { failed: Some(ControlError::StrayContinuation), ..st },
        }
    } else {
        let c = index_of(line, COLON);
        if c < line.len() {
            Parsing {
                pending: Some(
                    FieldView {
                        key: line.subrange(0, c),
                        value: trimmed(line.subrange(c + 1, line.len() as int)),
                    },
                ),
                ..flushed(st)
            }
        } else {
            Parsing { failed: Some(ControlError::MissingColon), ..flushed(st) }
        }
    }
}

/// Reading lines one after the other.
pub open spec fn fed_all(st: Parsing, lines: Seq<Seq<u8>>) -> Parsing
    decreases lines.len(),
{
    if lines.len() == 0 {
        st
    } else {
        fed_all(fed(st, lines[0]), lines.drop_first())
    }
}

/// The records of a control file, or the first error in it.
pub open spec fn parsed(text: Seq<u8>) -> Result<Seq<Seq<FieldView>>, ControlError> {
    let st = fed_all(parsing_start(), lines_of(text));
    match st.failed {
        Some(e) => Err(e),
        None => Ok(closed(flushed(st)).records),
    }
}

/// The reader of a control file between two lines.
struct Reader {
    records: Vec<ControlRecord>,
    current: ControlRecord,
    pending: Option<Field>,
}

impl Reader {
    /// The records are well formed.
    spec fn wf(&self) -> bool {
        &&& self.current.wf()
        &&& forall|i: int| 0 <= i < self.records.len() ==> (#[trigger] self.records[i]).wf()
    }

    /// How far the reading has come.
    spec fn state(&self) -> Parsing {
        Parsing {
            records: self.records.deep_view(),
            current: self.current@,
            pending: match self.pending {
                Some(f) => Some(f@),
                None => None,
            },
            failed: None,
        }
    }

    /// The field being read goes into the record being read.
    fn flush(&mut self)
        requires
            old(self).wf(),
        ensures
            final(self).wf(),
            final(self).state() == flushed(old(self).state()),
    {
        let mut pending: Option<Field> = None;
        core::mem::swap(&mut pending, &mut self.pending);
        match pending {
            Some(f) => {
                self.current.insert(f.key, f.value);
            },
            None => {},
        }
    }

    /// The record being read is complete, if it has any field.
    fn close(&mut self)
        requires
            old(self).wf(),
        ensures
            final(self).wf(),
            final(self).state() == closed(old(self).state()),
    {
        if self.current.len() > 0 {
            let mut current = ControlRecord::new();
            core::mem::swap(&mut current, &mut self.current);
            let ghost before = self.records;
            self.records.push(current);
            proof {
                assert(self.records.deep_view() =~= before.deep_view().push(current@));
            }
        }
    }

    /// Reads one more line.
    fn feed(&mut self, line: &[u8]) -> (r: Result<(), ControlError>)
        requires
            old(self).wf(),
        ensures
            final(self).wf(),
            match r {
                Ok(()) => final(self).state() == fed(old(self).state(), line@),
                Err(e) => fed(old(self).state(), line@).failed == Some(e),
            },
    {
        if line.len() == 0 {
            self.flush();
            self.close();
            Ok(())
        } else if line[0] == SP {
            let mut pending: Option<Field> = None;
            core::mem::swap(&mut pending, &mut self.pending);
            match pending {
                Some(f) => {
                    let mut value = f.value;
                    value.push(LF);
                    if line.len() == 2 && line[1] == DOT {
                        proof {
                            assert(line@ =~= seq![SP, DOT]);
                        }
                    } else {
                        proof {
                            if line@.len() == 2 {
                                assert(seq![SP, DOT][1] == DOT);
                            }
                            assert(line@.subrange(1, line@.len() as int) =~= line@.drop_first());
                        }
                        append_bytes(&mut value, &line[1..line.len()]);
                    }
                    proof {
                        assert(value@ =~= f.value@ + seq![LF] + continuation(line@));
                    }
                    self.pending = Some(Field { key: f.key, value });
                    Ok(())
                },
                None => Err(ControlError::StrayContinuation),
            }
        } else {
            self.flush();
            let c = find_byte(line, 0, COLON);
            proof {
                assert(line@.skip(0) =~= line@);
            }
            if c < line.len() {
                let key = copy_bytes(&line[0..c]);
                let value = copy_bytes(trim(&line[c + 1..line.len()]));
                self.pending = Some(Field { key, value });
                Ok(())
            } else {
                Err(ControlError::MissingColon)
            }
        }
    }
}

/// The line of `text` that begins at `pos`, as `lines_of` cuts it, and where
/// the next one begins.
pub(crate) fn next_line(text: &[u8], pos: usize) -> (r: (&[u8], usize))
    requires
        pos < text.len(),
    ensures
        pos < r.1 <= text.len(),
        lines_of(text@.skip(pos as int)) == seq![r.0@] + lines_of(text@.skip(r.1 as int)),
{
    let ghost rest = text@.skip(pos as int);
    let end = find_byte(text, pos, LF);
    let mut stop = end;
    let next = if end < text.len() {
        if stop > pos && text[stop - 1] == CR {
            stop = stop - 1;
        }
        end + 1
    } else {
        end
    };
    let line = &text[pos..stop];
    proof {
        lemma_index_of(rest, LF);
        let n = index_of(rest, LF);
        if end < text.len() {
            assert(rest.subrange(0, n) =~= text@.subrange(pos as int, end as int));
            assert(rest.skip(n + 1) =~= text@.skip(next as int));
            if stop < end {
                assert(rest.subrange(0, n).drop_last() =~= line@);
            }
            assert(line@ == chomped(rest.subrange(0, n)));
        } else {
            assert(rest =~= line@);
            assert(text@.skip(next as int) =~= Seq::<u8>::empty());
            assert(lines_of(rest) =~= seq![line@] + lines_of(text@.skip(next as int)));
        }
    }
    (line, next)
}

/// Cuts a text into its lines.
pub fn split_lines(text: &[u8]) -> (r: Vec<Vec<u8>>)
    ensures
        r.deep_view() == lines_of(text@),
{
    let mut out: Vec<Vec<u8>> = Vec::new();
    let mut pos: usize = 0;
    proof {
        assert(text@.skip(0) =~= text@);
        assert(out.deep_view() + lines_of(text@.skip(0)) =~= lines_of(text@));
    }
    while pos < text.len()
        invariant
            0 <= pos <= text.len(),
            out.deep_view() + lines_of(text@.skip(pos as int)) == lines_of(text@),
        decreases text.len() - pos,
    {
        let ghost before = out.deep_view();
        let (line, next) = next_line(text, pos);
        let copy = copy_bytes(line);
        out.push(copy);
        proof {
            assert(copy.deep_view() =~= copy@);
            assert(out.deep_view() =~= before.push(line@));
            assert(before.push(line@) + lines_of(text@.skip(next as int)) =~= before + (seq![line@]
                + lines_of(text@.skip(next as int))));
        }
        pos = next;
    }
    proof {
        assert(text@.skip(pos as int) =~= Seq::<u8>::empty());
        assert(out.deep_view() + Seq::<Seq<u8>>::empty() =~= out.deep_view());
    }
    out
}

/// Reads a control file: records separated by empty lines, each a run of
/// fields.
///
/// Keys that differ only in the case of ASCII letters are one key; other
/// letters are not folded.  The white space that is set aside around a
/// value is that of ASCII.
pub fn parse_control(text: &[u8]) -> (r: Result<Vec<ControlRecord>, ControlError>)
    ensures
        match r {
            Ok(records) => parsed(text@) == Ok::<Seq<Seq<FieldView>>, ControlError>(
                records.deep_view(),
            ) && forall|i: int| 0 <= i < records.len() ==> (#[trigger] records[i]).wf(),
            Err(e) => parsed(text@) == Err::<Seq<Seq<FieldView>>, ControlError>(e),
        },
{
    let mut reader = Reader { records: Vec::new(), current: ControlRecord::new(), pending: None };
    let mut pos: usize = 0;
    proof {
        assert(text@.skip(0) =~= text@);
        assert(reader.state().records =~= parsing_start().records);
    }
    while pos < text.len()
        invariant
            0 <= pos <= text.len(),
            reader.wf(),
            fed_all(reader.state(), lines_of(text@.skip(pos as int))) == fed_all(
                parsing_start(),
                lines_of(text@),
            ),
        decreases text.len() - pos,
    {
        let ghost before = reader.state();
        let (line, next) = next_line(text, pos);
        proof {
            let tail = lines_of(text@.skip(next as int));
            let ls = seq![line@] + tail;
            assert(ls[0] == line@);
            assert(ls.drop_first() =~= tail);
            assert(fed_all(before, ls) == fed_all(fed(before, line@), tail));
        }
        match reader.feed(line) {
            Ok(()) => {},
            Err(e) => {
                proof {
                    lemma_failed_stays(fed(before, line@), lines_of(text@.skip(next as int)));
                }
                return Err(e);
            },
        }
        pos = next;
    }
    proof {
        assert(text@.skip(pos as int) =~= Seq::<u8>::empty());
    }
    reader.flush();
    reader.close();
    Ok(reader.records)
}

/// After an error nothing more is read.
pub proof fn lemma_failed_stays(st: Parsing, lines: Seq<Seq<u8>>)
    requires
        st.failed.is_some(),
    ensures
        fed_all(st, lines) == st,
    decreases lines.len(),
{
    if lines.len() > 0 {
        lemma_failed_stays(st, lines.drop_first());
    }
}

} // verus!
