//! Writing fields in the control-file text format.

use vstd::prelude::*;
use crate::text::{append_bytes, trimmed_end, trimmed_end_len};

verus! {

/// The line feed byte.
pub const LF: u8 = 0x0a;

/// The space byte.
pub const SP: u8 = 0x20;

/// The full stop byte.
pub const DOT: u8 = 0x2e;

/// The colon byte.
pub const COLON: u8 = 0x3a;

/// `s` with a full stop put between the two line feeds of every pair of
/// adjacent line feeds, pairs taken from the left without overlap.
pub open spec fn dotted(s: Seq<u8>) -> Seq<u8>
    decreases s.len(),
{
    if s.len() >= 2 && s[0] == LF && s[1] == LF {
        seq![LF, DOT, LF] + dotted(s.skip(2))
    } else if s.len() >= 1 {
        seq![s[0]] + dotted(s.drop_first())
    } else {
        Seq::empty()
    }
}

/// `s` with a space put after every line feed.
pub open spec fn indented(s: Seq<u8>) -> Seq<u8>
    decreases s.len(),
{
    if s.len() == 0 {
        Seq::empty()
    } else if s[0] == LF {
        seq![LF, SP] + indented(s.drop_first())
    } else {
        seq![s[0]] + indented(s.drop_first())
    }
}

/// A field's value as it is written: empty lines marked by a full stop
/// where two line feeds meet, every further line indented by one space,
/// and the white space of ASCII at the end dropped.
pub open spec fn multiline(value: Seq<u8>) -> Seq<u8> {
    trimmed_end(indented(dotted(value)))
}

/// The text of one field: the key, a colon and a space, the value as
/// `multiline` writes it, and a line feed.
pub open spec fn kv_text(key: Seq<u8>, value: Seq<u8>) -> Seq<u8> {
    key + seq![COLON, SP] + multiline(value) + seq![LF]
}

/// The text of the items of a list field: each on a line of its own after
/// one space, written as `multiline` writes it.
pub open spec fn item_lines(items: Seq<Seq<u8>>) -> Seq<u8>
    decreases items.len(),
{
    if items.len() == 0 {
        Seq::empty()
    } else {
        item_lines(items.drop_last()) + seq![SP] + multiline(items.last()) + seq![LF]
    }
}

/// The text of a list field: the key and a colon on a line, then the items.
pub open spec fn kv_lines_text(key: Seq<u8>, items: Seq<Seq<u8>>) -> Seq<u8> {
    key + seq![COLON, LF] + item_lines(items)
}

/// Indenting distributes over concatenation.
pub proof fn lemma_indented_concat(a: Seq<u8>, b: Seq<u8>)
    ensures
        indented(a + b) == indented(a) + indented(b),
    decreases a.len(),
{
    if a.len() == 0 {
        assert(a + b =~= b);
        assert(indented(a) + indented(b) =~= indented(b));
    } else {
        assert((a + b).drop_first() =~= a.drop_first() + b);
        lemma_indented_concat(a.drop_first(), b);
        if a[0] == LF {
            assert(indented(a + b) =~= seq![LF, SP] + (indented(a.drop_first()) + indented(b)));
            assert(indented(a) + indented(b) =~= seq![LF, SP] + (indented(a.drop_first())
                + indented(b)));
        } else {
            assert(indented(a + b) =~= seq![a[0]] + (indented(a.drop_first()) + indented(b)));
            assert(indented(a) + indented(b) =~= seq![a[0]] + (indented(a.drop_first()) + indented(
                b,
            )));
        }
    }
}

/// Computes `multiline`.
pub fn _control_multiline(val: &[u8]) -> (out: Vec<u8>)
    ensures
        out@ == multiline(val@),
{
    let mut out: Vec<u8> = Vec::new();
    let mut i: usize = 0;
    proof {
        assert(val@.skip(0) =~= val@);
        assert(out@ + indented(dotted(val@)) =~= indented(dotted(val@)));
    }
    while i < val.len()
        invariant
            0 <= i <= val.len(),
            out@ + indented(dotted(val@.skip(i as int))) == indented(dotted(val@)),
        decreases val.len() - i,
    {
        let ghost rest = val@.skip(i as int);
        let ghost before = out@;
        if val[i] == LF && i + 1 < val.len() && val[i + 1] == LF {
            out.push(LF);
            out.push(SP);
            out.push(DOT);
            out.push(LF);
            out.push(SP);
            proof {
                assert(rest.skip(2) =~= val@.skip(i + 2));
                let tail = dotted(val@.skip(i + 2));
                assert(dotted(rest) == seq![LF, DOT, LF] + tail);
                lemma_indented_concat(seq![LF, DOT, LF], tail);
                assert(indented(seq![LF, DOT, LF]) =~= seq![LF, SP, DOT, LF, SP]) by {
                    reveal_with_fuel(indented, 4);
                    let a = seq![LF, DOT, LF];
                    assert(a.drop_first() =~= seq![DOT, LF]);
                    assert(a.drop_first().drop_first() =~= seq![LF]);
                    assert(a.drop_first().drop_first().drop_first() =~= Seq::<u8>::empty());
                }
                assert(out@ =~= before + seq![LF, SP, DOT, LF, SP]);
                assert(out@ + indented(tail) =~= before + indented(dotted(rest)));
            }
            i += 2;
        } else {
            let b = val[i];
            out.push(b);
            if b == LF {
                out.push(SP);
            }
            proof {
                assert(rest.drop_first() =~= val@.skip(i + 1));
                let tail = dotted(val@.skip(i + 1));
                assert(rest[0] == b);
                if rest.len() >= 2 {
                    assert(rest[1] == val@[i + 1]);
                }
                assert(dotted(rest) == seq![b] + tail);
                lemma_indented_concat(seq![b], tail);
                assert(indented(seq![b]) =~= if b == LF {
                    seq![LF, SP]
                } else {
                    seq![b]
                }) by {
                    reveal_with_fuel(indented, 2);
                    assert(seq![b].drop_first() =~= Seq::<u8>::empty());
                }
                assert(out@ + indented(tail) =~= before + indented(dotted(rest)));
            }
            i += 1;
        }
    }
    proof {
        assert(val@.skip(val@.len() as int) =~= Seq::<u8>::empty());
        assert(out@ =~= indented(dotted(val@)));
    }
    let keep = trimmed_end_len(out.as_slice());
    out.truncate(keep);
    out
}

/// A sink of bytes to which fields can be written in the control-file
/// format.
pub trait WriteDebExt {
    /// The bytes written so far.
    spec fn written(&self) -> Seq<u8>;

    /// Writes one field: `Key: value`, the value over as many lines as it
    /// has.
    fn write_kv(&mut self, key: &[u8], value: &[u8])
        ensures
            final(self).written() == old(self).written() + kv_text(key@, value@),
    ;

    /// Writes a list field: `Key:` and then one line for each item.
    fn write_kv_lines(&mut self, key: &[u8], lines: &Vec<Vec<u8>>)
        ensures
            final(self).written() == old(self).written() + kv_lines_text(key@, lines.deep_view()),
    ;
}

impl WriteDebExt for Vec<u8> {
    open spec fn written(&self) -> Seq<u8> {
        self@
    }

    fn write_kv(&mut self, key: &[u8], value: &[u8]) {
        let body = _control_multiline(value);
        append_bytes(self, key);
        self.push(COLON);
        self.push(SP);
        append_bytes(self, body.as_slice());
        self.push(LF);
        proof {
            assert(self@ =~= old(self)@ + kv_text(key@, value@));
        }
    }

    fn write_kv_lines(&mut self, key: &[u8], lines: &Vec<Vec<u8>>) {
        append_bytes(self, key);
        self.push(COLON);
        self.push(LF);
        let ghost start = self@;
        let ghost items = lines.deep_view();
        let mut i: usize = 0;
        proof {
            assert(items.subrange(0, 0) =~= Seq::<Seq<u8>>::empty());
            assert(start + item_lines(items.subrange(0, 0)) =~= start);
        }
        while i < lines.len()
            invariant
                0 <= i <= lines.len(),
                items == lines.deep_view(),
                self@ == start + item_lines(items.subrange(0, i as int)),
            decreases lines.len() - i,
        {
            let body = _control_multiline(lines[i].as_slice());
            let ghost before = self@;
            self.push(SP);
            append_bytes(self, body.as_slice());
            self.push(LF);
            proof {
                let next = items.subrange(0, i + 1);
                assert(next.drop_last() =~= items.subrange(0, i as int));
                assert(next.last() == lines@[i as int]@);
                assert(self@ =~= before + seq![SP] + multiline(lines@[i as int]@) + seq![LF]);
                assert(self@ =~= start + item_lines(next));
            }
            i += 1;
        }
        proof {
            assert(items.subrange(0, items.len() as int) =~= items);
            assert(self@ =~= old(self)@ + kv_lines_text(key@, items));
        }
    }
}

} // verus!
