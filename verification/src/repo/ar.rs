//! Reading `ar` archives, member after member.

use vstd::prelude::*;
use crate::deb_ext::{LF, SP};
use crate::pack::ar::{
    fits, header, lemma_field_widths, lemma_header_len, member, padded, signature, size_field,
    HEADER_LEN,
};
use crate::text::{
    all_digits, copy_bytes, digits_of, find_byte, index_of, is_digit, is_space,
    lemma_digits_round_trip, lemma_index_of_is, lemma_leading_spaces_is,
    lemma_trailing_spaces_is, number_of, parse_unsigned, same_bytes, trim, trimmed, trimmed_end,
    unsigned_value,
};

verus! {

/// Why an archive could not be read.
#[derive(Clone, Copy, Debug, PartialEq, Eq, Structural)]
pub enum ArError {
    /// The archive does not begin with the signature.
    WrongSignature,
    /// The archive ends within a header or within a member.
    PrematureEnd,
    /// A header does not end with the two bytes that end a header.
    InvalidFormat,
    /// The member at hand is not the one asked for.
    UnexpectedMember,
    /// The size field of a header holds no unsigned decimal number.
    InvalidSize,
}

impl ArError {
    /// The error in words.
    pub fn message(&self) -> (r: &'static str)
        ensures
            r@ == match *self {
                ArError::WrongSignature => "Archive signature is wrong"@,
                ArError::PrematureEnd => "Premature end of file"@,
                ArError::InvalidFormat => "Invalid file format"@,
                ArError::UnexpectedMember => "Unexpected archive member"@,
                ArError::InvalidSize => "Invalid file size"@,
            },
    {
        match self {
            ArError::WrongSignature => "Archive signature is wrong",
            ArError::PrematureEnd => "Premature end of file",
            ArError::InvalidFormat => "Invalid file format",
            ArError::UnexpectedMember => "Unexpected archive member",
            ArError::InvalidSize => "Invalid file size",
        }
    }
}

/// The name that a header holds: what stands before the first space of its
/// first sixteen bytes.
pub open spec fn header_name(head: Seq<u8>) -> Seq<u8> {
    head.subrange(0, index_of(head.subrange(0, 16), SP))
}

/// The size that a header holds, where its size field, without the white
/// space around it, is an unsigned decimal number.
pub open spec fn header_size(head: Seq<u8>) -> Option<u64> {
    unsigned_value(trimmed(head.subrange(48, 58)))
}

/// The mode that a header holds, where its mode field is octal digits
/// followed by spaces.
pub open spec fn header_mode(head: Seq<u8>) -> nat {
    number_of(8, trimmed(head.subrange(40, 48)))
}

/// A member that was read: its bytes, where the reading stands after it,
/// and whether a padding byte is still to be passed over.
pub struct MemberRead {
    pub data: Seq<u8>,
    pub position: int,
    pub padded: bool,
}

/// Reading the member `name` from `bytes`, where the reading stands at
/// `position` and `skip` says that a padding byte is to be passed over
/// first.
pub open spec fn read_member(bytes: Seq<u8>, position: int, skip: bool, name: Seq<u8>) -> Result<
    MemberRead,
    ArError,
> {
    let start = if skip {
        position + 1
    } else {
        position
    };
    if bytes.len() < start + HEADER_LEN {
        Err(ArError::PrematureEnd)
    } else {
        let head = bytes.subrange(start, start + HEADER_LEN);
        if head[58] != 0x60 || head[59] != LF {
            Err(ArError::InvalidFormat)
        } else if header_name(head) != name {
            Err(ArError::UnexpectedMember)
        } else {
            match header_size(head) {
                None => Err(ArError::InvalidSize),
                Some(size) => if bytes.len() < start + HEADER_LEN + size {
                    Err(ArError::PrematureEnd)
                } else {
                    Ok(
                        MemberRead {
                            data: bytes.subrange(
                                start + HEADER_LEN,
                                start + HEADER_LEN + size,
                            ),
                            position: start + HEADER_LEN + size,
                            padded: size % 2 == 1,
                        },
                    )
                },
            }
        }
    }
}

/// An `ar` archive that is being read, in memory.
pub struct Archive {
    pub data: Vec<u8>,
    pub position: usize,
    pub skip: bool,
}

impl Archive {
    /// The reading stands within the archive.
    pub open spec fn wf(&self) -> bool {
        self.position <= self.data@.len()
    }

    /// Opens an archive: it must begin with the signature.
    pub fn new(stream: Vec<u8>) -> (r: Result<Archive, ArError>)
        ensures
            match r {
                Ok(a) => stream@.len() >= 8 && stream@.subrange(0, 8) == signature() && a.wf()
                    && a.data@ == stream@ && a.position == 8 && !a.skip,
                Err(e) => e == ArError::WrongSignature && !(stream@.len() >= 8 && stream@.subrange(
                    0,
                    8,
                ) == signature()),
            },
    {
        if stream.len() < 8 {
            return Err(ArError::WrongSignature);
        }
        let sig: [u8; 8] = [0x21, 0x3c, 0x61, 0x72, 0x63, 0x68, 0x3e, 0x0a];
        proof {
            assert(sig@ =~= signature());
        }
        if !same_bytes(&stream.as_slice()[0..8], sig.as_slice()) {
            return Err(ArError::WrongSignature);
        }
        Ok(Archive { data: stream, position: 8, skip: false })
    }

    /// Reads the next member, which must have the given name.
    ///
    /// On an error the reading stays where it was.
    pub fn read_file(&mut self, name: &[u8]) -> (r: Result<Vec<u8>, ArError>)
        requires
            old(self).wf(),
        ensures
            final(self).wf(),
            final(self).data@ == old(self).data@,
            match r {
                Ok(data) => read_member(
                    old(self).data@,
                    old(self).position as int,
                    old(self).skip,
                    name@,
                ) == Ok::<MemberRead, ArError>(
                    MemberRead {
                        data: data@,
                        position: final(self).position as int,
                        padded: final(self).skip,
                    },
                ),
                Err(e) => read_member(
                    old(self).data@,
                    old(self).position as int,
                    old(self).skip,
                    name@,
                ) == Err::<MemberRead, ArError>(e) && *final(self) == *old(self),
            },
    {
        let len = self.data.len();
        let lead: usize = if self.skip {
            1
        } else {
            0
        };
        if len - self.position < lead + HEADER_LEN {
            return Err(ArError::PrematureEnd);
        }
        let start = self.position + lead;
        let head = &self.data.as_slice()[start..start + HEADER_LEN];
        if head[58] != 0x60 || head[59] != LF {
            return Err(ArError::InvalidFormat);
        }
        let name_end = find_byte(&head[0..16], 0, SP);
        proof {
            assert(head@.subrange(0, 16).skip(0) =~= head@.subrange(0, 16));
        }
        if !same_bytes(&head[0..name_end], name) {
            return Err(ArError::UnexpectedMember);
        }
        let size = match parse_unsigned(trim(&head[48..58])) {
            Some(size) => size,
            None => {
                return Err(ArError::InvalidSize);
            },
        };
        let body = start + HEADER_LEN;
        if ((len - body) as u64) < size {
            return Err(ArError::PrematureEnd);
        }
        let end = body + (size as usize);
        let data = copy_bytes(&self.data.as_slice()[body..end]);
        self.position = end;
        self.skip = size % 2 == 1;
        Ok(data)
    }
}

/// A text without white space that is padded with spaces trims to itself.
pub proof fn lemma_trimmed_padded(text: Seq<u8>, width: nat)
    requires
        0 < text.len() <= width,
        forall|i: int| 0 <= i < text.len() ==> !is_space(#[trigger] text[i]),
    ensures
        trimmed(padded(text, width)) == text,
{
    let p = padded(text, width);
    assert(p.len() == width);
    assert forall|i: int| text.len() <= i < p.len() implies is_space(#[trigger] p[i]) by {}
    assert(p[text.len() - 1] == text[text.len() - 1]);
    lemma_trailing_spaces_is(p, width - text.len());
    let e = trimmed_end(p);
    assert(e =~= text);
    lemma_leading_spaces_is(e, 0);
    assert(trimmed(p) =~= text);
}

/// What a header holds reads back: its name, where that has no space, its
/// mode and its size; and it ends as a header ends.
pub proof fn lemma_header_reads_back(
    name: Seq<u8>,
    mtime: nat,
    uid: nat,
    gid: nat,
    mode: nat,
    size: nat,
)
    requires
        mtime <= u32::MAX,
        fits(name, uid, gid, mode, size),
        forall|i: int| 0 <= i < name.len() ==> #[trigger] name[i] != SP,
    ensures
        header(name, mtime, uid, gid, mode, size).len() == HEADER_LEN,
        header(name, mtime, uid, gid, mode, size)[58] == 0x60,
        header(name, mtime, uid, gid, mode, size)[59] == LF,
        header_name(header(name, mtime, uid, gid, mode, size)) == name,
        header_mode(header(name, mtime, uid, gid, mode, size)) == mode,
        header_size(header(name, mtime, uid, gid, mode, size)) == Some(size as u64),
{
    let h = header(name, mtime, uid, gid, mode, size);
    lemma_field_widths(mtime, uid, gid, mode, size);
    lemma_header_len(name, mtime, uid, gid, mode, size);
    let f_name = padded(name, 16);
    let f_mode = padded(digits_of(8, mode), 8);
    let f_size = size_field(size);
    assert(h.subrange(0, 16) =~= f_name);
    assert(h.subrange(40, 48) =~= f_mode);
    assert(h.subrange(48, 58) =~= f_size);
    // the name
    assert forall|i: int| 0 <= i < name.len() implies #[trigger] f_name[i] != SP by {
        assert(f_name[i] == name[i]);
    }
    lemma_index_of_is(f_name, SP, name.len() as int);
    assert(h.subrange(0, name.len() as int) =~= name);
    // the mode
    lemma_digits_round_trip(8, mode);
    let dm = digits_of(8, mode);
    assert forall|i: int| 0 <= i < dm.len() implies !is_space(#[trigger] dm[i]) by {
        assert(is_digit(8, dm[i]));
    }
    lemma_trimmed_padded(dm, 8);
    // the size
    lemma_digits_round_trip(10, size);
    let ds = digits_of(10, size);
    assert forall|i: int| 0 <= i < ds.len() implies !is_space(#[trigger] ds[i]) by {
        assert(is_digit(10, ds[i]));
    }
    lemma_trimmed_padded(ds, 10);
    assert(is_digit(10, ds[0]));
}

/// Round trip: a member that was written reads back with its bytes,
/// wherever in an archive it stands; and the reading then stands where the
/// next member begins, once the padding is passed over.
///
/// `before` is what the archive holds before the member, `after` what it
/// holds after it.  The reading stands at the member, or, where `skip` is
/// set, at the padding byte before it.
pub proof fn lemma_member_round_trip(
    before: Seq<u8>,
    name: Seq<u8>,
    mtime: nat,
    uid: nat,
    gid: nat,
    mode: nat,
    data: Seq<u8>,
    after: Seq<u8>,
    skip: bool,
)
    requires
        mtime <= u32::MAX,
        fits(name, uid, gid, mode, data.len()),
        forall|i: int| 0 <= i < name.len() ==> #[trigger] name[i] != SP,
        skip ==> before.len() > 0,
    ensures
        read_member(
            before + member(name, mtime, uid, gid, mode, data) + after,
            if skip {
                before.len() - 1
            } else {
                before.len() as int
            },
            skip,
            name,
        ) == Ok::<MemberRead, ArError>(
            MemberRead {
                data,
                position: before.len() + HEADER_LEN + data.len(),
                padded: data.len() % 2 == 1,
            },
        ),
        before.len() + HEADER_LEN + data.len() + (if data.len() % 2 == 1 {
            1int
        } else {
            0int
        }) == (before + member(name, mtime, uid, gid, mode, data)).len(),
{
    let h = header(name, mtime, uid, gid, mode, data.len());
    lemma_header_reads_back(name, mtime, uid, gid, mode, data.len());
    let m = member(name, mtime, uid, gid, mode, data);
    let bytes = before + m + after;
    let start = before.len() as int;
    assert(bytes.subrange(start, start + HEADER_LEN) =~= h);
    assert(bytes.subrange(start + HEADER_LEN, start + HEADER_LEN + data.len()) =~= data);
}

} // verus!
