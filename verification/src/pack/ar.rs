//! Writing `ar` archives: a signature, then members, each a header of
//! sixty bytes, the member's bytes, and a line feed where that makes the
//! length even.

use vstd::prelude::*;
use crate::deb_ext::{LF, SP};
use crate::text::{
    append_bytes, digits_of, lemma_digits_round_trip, lemma_digits_width, power, push_number,
};

verus! {

/// The length of a member's header.
pub const HEADER_LEN: usize = 60;

/// The greatest size that the header's size field can hold.
pub const MAX_SIZE: u64 = 9999999999;

/// The greatest user or group id that the header can hold.
pub const MAX_ID: u32 = 999999;

/// The greatest mode that the header can hold: eight octal digits.
pub const MAX_MODE: u32 = 0o77777777;

/// The size that is declared for a member when it is begun.
#[derive(Clone, Copy, Debug, PartialEq, Eq, Structural)]
pub enum Size {
    /// The size is not known before the member is written; the header is
    /// set right when the member is closed.
    Auto,
    /// The member holds so many bytes, and no more can be written to it.
    Known(usize),
}

/// The size to declare for a member whose size is not known before it is
/// written.
pub const SIZE_AUTO: Size = Size::Auto;

/// The size that the header of a member holds when the member is begun:
/// the declared one, or zero where none is known.
pub open spec fn declared(size: Size) -> nat {
    match size {
        Size::Known(d) => d as nat,
        Size::Auto => 0,
    }
}

/// The number of bytes that a member can hold at most: the declared one,
/// or as many as the header's size field can tell.
pub open spec fn capacity(size: Size) -> nat {
    match size {
        Size::Known(d) => d as nat,
        Size::Auto => MAX_SIZE as nat,
    }
}

/// The signature that begins an archive: `!<arch>` and a line feed.
pub open spec fn signature() -> Seq<u8> {
    seq![0x21, 0x3c, 0x61, 0x72, 0x63, 0x68, 0x3e, 0x0a]
}

/// `n` spaces.
pub open spec fn spaces(n: nat) -> Seq<u8> {
    Seq::new(n, |i: int| SP)
}

/// `text` followed by as many spaces as bring it to `width`; as it is
/// where it is wider.
pub open spec fn padded(text: Seq<u8>, width: nat) -> Seq<u8> {
    if text.len() <= width {
        text + spaces((width - text.len()) as nat)
    } else {
        text
    }
}

/// The header's size field for a member of `size` bytes.
pub open spec fn size_field(size: nat) -> Seq<u8> {
    padded(digits_of(10, size), 10)
}

/// The header of a member: name, modification time, user id, group id,
/// mode in octal and size, each padded with spaces to its width, and the
/// two bytes that end a header.
pub open spec fn header(name: Seq<u8>, mtime: nat, uid: nat, gid: nat, mode: nat, size: nat) -> Seq<
    u8,
> {
    padded(name, 16) + padded(digits_of(10, mtime), 12) + padded(digits_of(10, uid), 6) + padded(
        digits_of(10, gid),
        6,
    ) + padded(digits_of(8, mode), 8) + size_field(size) + seq![0x60u8, LF]
}

/// The line feed that follows a member of odd size.
pub open spec fn padding(size: nat) -> Seq<u8> {
    if size % 2 == 1 {
        seq![LF]
    } else {
        Seq::empty()
    }
}

/// A whole member as it stands in an archive.
pub open spec fn member(name: Seq<u8>, mtime: nat, uid: nat, gid: nat, mode: nat, data: Seq<u8>) -> Seq<
    u8,
> {
    header(name, mtime, uid, gid, mode, data.len()) + data + padding(data.len())
}

/// What `add` asks of a member's attributes: each fits its field.
pub open spec fn fits(name: Seq<u8>, uid: nat, gid: nat, mode: nat, size: nat) -> bool {
    &&& name.len() <= 16
    &&& uid <= MAX_ID
    &&& gid <= MAX_ID
    &&& mode <= MAX_MODE
    &&& size <= MAX_SIZE
}

/// The widths of the numbers that a header holds.
pub proof fn lemma_field_widths(mtime: nat, uid: nat, gid: nat, mode: nat, size: nat)
    requires
        mtime <= u32::MAX,
        uid <= MAX_ID,
        gid <= MAX_ID,
        mode <= MAX_MODE,
        size <= MAX_SIZE,
    ensures
        digits_of(10, mtime).len() <= 12,
        digits_of(10, uid).len() <= 6,
        digits_of(10, gid).len() <= 6,
        digits_of(8, mode).len() <= 8,
        digits_of(10, size).len() <= 10,
{
    assert(power(10, 6) == 1000000 && power(10, 10) == 10000000000 && power(10, 12)
        == 1000000000000) by {
        reveal_with_fuel(power, 13);
    }
    assert(power(8, 8) == 0o100000000) by {
        reveal_with_fuel(power, 9);
    }
    lemma_digits_width(10, mtime, 12);
    lemma_digits_width(10, uid, 6);
    lemma_digits_width(10, gid, 6);
    lemma_digits_width(8, mode, 8);
    lemma_digits_width(10, size, 10);
}

/// A header whose fields fit is sixty bytes long.
pub proof fn lemma_header_len(name: Seq<u8>, mtime: nat, uid: nat, gid: nat, mode: nat, size: nat)
    requires
        mtime <= u32::MAX,
        fits(name, uid, gid, mode, size),
    ensures
        header(name, mtime, uid, gid, mode, size).len() == HEADER_LEN,
{
    lemma_field_widths(mtime, uid, gid, mode, size);
}

/// Appends `text`, padded with spaces to `width`.
fn push_padded(out: &mut Vec<u8>, text: &[u8], width: usize)
    ensures
        final(out)@ == old(out)@ + padded(text@, width as nat),
{
    append_bytes(out, text);
    let mut n: usize = text.len();
    while n < width
        invariant
            text.len() <= n,
            n <= width || n == text.len(),
            out@ == old(out)@ + text@ + spaces((n - text.len()) as nat),
        decreases width - n,
    {
        out.push(SP);
        proof {
            assert(out@ =~= old(out)@ + text@ + spaces((n + 1 - text.len()) as nat));
        }
        n += 1;
    }
    proof {
        if text@.len() <= width {
            assert(n == width);
            assert(padded(text@, width as nat) == text@ + spaces((width - text@.len()) as nat));
        } else {
            assert(n == text@.len());
            assert(spaces(0) =~= Seq::<u8>::empty());
        }
        assert(out@ =~= old(out)@ + padded(text@, width as nat));
    }
}

/// Appends the digits of `n` in the given base, padded with spaces to
/// `width`.
fn push_number_padded(out: &mut Vec<u8>, base: u64, n: u64, width: usize)
    requires
        2 <= base <= 10,
    ensures
        final(out)@ == old(out)@ + padded(digits_of(base as nat, n as nat), width as nat),
{
    let mut digits: Vec<u8> = Vec::new();
    push_number(&mut digits, base, n);
    proof {
        assert(digits@ =~= digits_of(base as nat, n as nat));
    }
    push_padded(out, digits.as_slice(), width);
}

/// The member of an archive that is being written.
#[derive(Clone, Copy, Debug)]
pub struct ArMember {
    /// Where the member's header begins.
    pub position: usize,
    /// The number of bytes written to the member so far.
    pub current_size: usize,
    /// The size that was declared when the member was begun.
    pub defined_size: Size,
}

/// An `ar` archive that is being written, in memory.
pub struct ArArchive {
    pub buf: Vec<u8>,
    pub open: Option<ArMember>,
}

impl ArArchive {
    /// The bytes written so far.
    pub open spec fn bytes(&self) -> Seq<u8> {
        self.buf@
    }

    /// The member being written, if any, lies at the end of the bytes:
    /// its header, then what was written to it, which is no more than it
    /// can hold.
    pub open spec fn wf(&self) -> bool {
        match self.open {
            Some(m) => m.position + HEADER_LEN + m.current_size == self.buf@.len()
                && m.current_size <= capacity(m.defined_size) && capacity(m.defined_size)
                <= MAX_SIZE,
            None => true,
        }
    }

    /// The bytes with the member being written closed.  Where its size was
    /// not known when it was begun and bytes were written to it, the size
    /// field of its header holds their number; a header with a declared
    /// size stays as it is.  A line feed follows where the number of bytes
    /// written is odd.
    pub open spec fn sealed(&self) -> Seq<u8> {
        match self.open {
            Some(m) => {
                let patched = if m.defined_size == Size::Auto && m.current_size != 0 {
                    self.buf@.subrange(0, m.position + 48) + size_field(m.current_size as nat)
                        + self.buf@.subrange(m.position + 58, self.buf@.len() as int)
                } else {
                    self.buf@
                };
                patched + padding(m.current_size as nat)
            },
            None => self.buf@,
        }
    }

    /// An archive that holds the signature and no member.
    pub fn new() -> (a: ArArchive)
        ensures
            a.wf(),
            a.bytes() == signature(),
            a.open.is_none(),
    {
        let mut buf: Vec<u8> = Vec::new();
        buf.push(0x21);
        buf.push(0x3c);
        buf.push(0x61);
        buf.push(0x72);
        buf.push(0x63);
        buf.push(0x68);
        buf.push(0x3e);
        buf.push(0x0a);
        proof {
            assert(buf@ =~= signature());
        }
        ArArchive { buf, open: None }
    }

    /// Closes the member being written, as `sealed` says.
    pub fn close(&mut self)
        requires
            old(self).wf(),
        ensures
            final(self).wf(),
            final(self).open.is_none(),
            final(self).bytes() == old(self).sealed(),
    {
        match self.open {
            Some(m) => {
                let len = self.buf.len();
                let auto = match m.defined_size {
                    Size::Auto => true,
                    Size::Known(_) => false,
                };
                if auto && m.current_size != 0 {
                    let mut field: Vec<u8> = Vec::new();
                    push_number_padded(&mut field, 10, m.current_size as u64, 10);
                    proof {
                        lemma_field_widths(0, 0, 0, 0, m.current_size as nat);
                        assert(field@ =~= size_field(m.current_size as nat));
                        assert(field@.len() == 10);
                    }
                    let start = m.position + 48;
                    let mut i: usize = 0;
                    while i < 10
                        invariant
                            0 <= i <= 10,
                            field@.len() == 10,
                            start + 10 <= len,
                            self.buf@.len() == len,
                            old(self).buf@.len() == len,
                            self.open == old(self).open,
                            self.buf@ == old(self).buf@.subrange(0, start as int)
                                + field@.subrange(0, i as int) + old(self).buf@.subrange(
                                start + i,
                                old(self).buf@.len() as int,
                            ),
                        decreases 10 - i,
                    {
                        self.buf.set(start + i, field[i]);
                        proof {
                            assert(self.buf@ =~= old(self).buf@.subrange(0, start as int)
                                + field@.subrange(0, i + 1) + old(self).buf@.subrange(
                                start + i + 1,
                                old(self).buf@.len() as int,
                            ));
                        }
                        i += 1;
                    }
                    proof {
                        assert(field@.subrange(0, 10) =~= field@);
                    }
                }
                if m.current_size % 2 != 0 {
                    self.buf.push(LF);
                }
                self.open = None;
                proof {
                    assert(self.buf@ =~= old(self).sealed());
                }
            },
            None => {},
        }
    }

    /// Begins a member: closes the one being written, then writes the new
    /// member's header with the declared size, or with zero where the size
    /// is not known.
    pub fn add(
        &mut self,
        filename: &[u8],
        filemtime: u32,
        uid: u32,
        gid: u32,
        mode: u32,
        size: Size,
    )
        requires
            old(self).wf(),
            fits(filename@, uid as nat, gid as nat, mode as nat, declared(size)),
        ensures
            final(self).wf(),
            final(self).bytes() == old(self).sealed() + header(
                filename@,
                filemtime as nat,
                uid as nat,
                gid as nat,
                mode as nat,
                declared(size),
            ),
            final(self).open == Some(
                ArMember {
                    position: old(self).sealed().len() as usize,
                    current_size: 0,
                    defined_size: size,
                },
            ),
    {
        self.close();
        let pos = self.buf.len();
        let first: u64 = match size {
            Size::Known(d) => d as u64,
            Size::Auto => 0,
        };
        push_padded(&mut self.buf, filename, 16);
        push_number_padded(&mut self.buf, 10, filemtime as u64, 12);
        push_number_padded(&mut self.buf, 10, uid as u64, 6);
        push_number_padded(&mut self.buf, 10, gid as u64, 6);
        push_number_padded(&mut self.buf, 8, mode as u64, 8);
        push_number_padded(&mut self.buf, 10, first, 10);
        self.buf.push(0x60);
        self.buf.push(LF);
        proof {
            lemma_header_len(
                filename@,
                filemtime as nat,
                uid as nat,
                gid as nat,
                mode as nat,
                declared(size),
            );
            assert(self.buf@ =~= old(self).sealed() + header(
                filename@,
                filemtime as nat,
                uid as nat,
                gid as nat,
                mode as nat,
                declared(size),
            ));
        }
        self.open = Some(ArMember { position: pos, current_size: 0, defined_size: size });
    }

    /// The number of bytes that can still be written to the member being
    /// written.
    pub open spec fn room(&self) -> nat {
        match self.open {
            Some(m) => (capacity(m.defined_size) - m.current_size) as nat,
            None => 0,
        }
    }

    /// Writes bytes to the member being written, as far as it can hold
    /// them, and says how many were written: all of them, or as many as
    /// there was room for.
    pub fn write(&mut self, data: &[u8]) -> (n: usize)
        requires
            old(self).wf(),
            old(self).open.is_some(),
        ensures
            final(self).wf(),
            n == if data@.len() <= old(self).room() {
                data@.len()
            } else {
                old(self).room()
            },
            final(self).bytes() == old(self).bytes() + data@.subrange(0, n as int),
            final(self).open == Some(
                ArMember {
                    current_size: (old(self).open.unwrap().current_size + n) as usize,
                    ..old(self).open.unwrap()
                },
            ),
    {
        let m = self.open.unwrap();
        let limit: u64 = match m.defined_size {
            Size::Known(d) => d as u64,
            Size::Auto => MAX_SIZE,
        };
        let room: u64 = limit - m.current_size as u64;
        let n: usize = if data.len() as u64 <= room {
            data.len()
        } else {
            room as usize
        };
        append_bytes(&mut self.buf, &data[0..n]);
        let len = self.buf.len();
        proof {
            assert(m.current_size + n <= len);
        }
        self.open = Some(
            ArMember {
                position: m.position,
                current_size: m.current_size + n,
                defined_size: m.defined_size,
            },
        );
        n
    }

    /// Closes the member being written and hands out the archive's bytes.
    pub fn finish(self) -> (bytes: Vec<u8>)
        requires
            self.wf(),
        ensures
            bytes@ == self.sealed(),
    {
        let mut a = self;
        a.close();
        a.buf
    }
}

/// A header whose size field was set afterwards is the header that
/// declares that size.
pub proof fn lemma_patched_header(
    name: Seq<u8>,
    mtime: nat,
    uid: nat,
    gid: nat,
    mode: nat,
    declared: nat,
    actual: nat,
)
    requires
        mtime <= u32::MAX,
        fits(name, uid, gid, mode, declared),
        actual <= MAX_SIZE,
    ensures
        header(name, mtime, uid, gid, mode, declared).subrange(0, 48) + size_field(actual)
            + header(name, mtime, uid, gid, mode, declared).subrange(58, 60) == header(
            name,
            mtime,
            uid,
            gid,
            mode,
            actual,
        ),
{
    lemma_field_widths(mtime, uid, gid, mode, declared);
    lemma_field_widths(mtime, uid, gid, mode, actual);
    let a = header(name, mtime, uid, gid, mode, declared);
    let b = header(name, mtime, uid, gid, mode, actual);
    assert(a.subrange(0, 48) + size_field(actual) + a.subrange(58, 60) =~= b);
}

/// Closing a member leaves it whole: where its size was not known when
/// it was begun, or was declared as what was then written, the archive
/// holds the member with the size of what was written in its header.
pub proof fn lemma_sealed_member(
    archive: ArArchive,
    before: Seq<u8>,
    name: Seq<u8>,
    mtime: nat,
    uid: nat,
    gid: nat,
    mode: nat,
    size: Size,
    data: Seq<u8>,
)
    requires
        mtime <= u32::MAX,
        fits(name, uid, gid, mode, declared(size)),
        data.len() <= MAX_SIZE,
        size matches Size::Known(d) ==> d == data.len(),
        archive.bytes() == before + header(name, mtime, uid, gid, mode, declared(size)) + data,
        archive.open == Some(
            ArMember {
                position: before.len() as usize,
                current_size: data.len() as usize,
                defined_size: size,
            },
        ),
        before.len() + HEADER_LEN + data.len() <= usize::MAX,
    ensures
        archive.wf(),
        archive.sealed() == before + member(name, mtime, uid, gid, mode, data),
{
    lemma_header_len(name, mtime, uid, gid, mode, declared(size));
    lemma_field_widths(mtime, uid, gid, mode, data.len());
    lemma_patched_header(name, mtime, uid, gid, mode, declared(size), data.len());
    let h = header(name, mtime, uid, gid, mode, declared(size));
    let bytes = archive.bytes();
    let p = before.len() as int;
    if size == Size::Auto && data.len() != 0 {
        assert(bytes.subrange(0, p + 48) =~= before + h.subrange(0, 48));
        assert(bytes.subrange(p + 58, bytes.len() as int) =~= h.subrange(58, 60) + data);
        assert(archive.sealed() =~= before + (h.subrange(0, 48) + size_field(data.len())
            + h.subrange(58, 60)) + data + padding(data.len()));
    }
    assert(archive.sealed() =~= before + member(name, mtime, uid, gid, mode, data));
}

} // verus!
