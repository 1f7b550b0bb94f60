//! The message of the tag that marks a version.

use vstd::prelude::*;
use vstd::string::*;
use crate::deb_ext::LF;
use crate::repo::deb::{lines_of, split_lines};
use crate::text::{append_bytes, copy_bytes, trim, trimmed, trimmed_end, trimmed_end_len};

verus! {

/// The number sign, which begins the lines of a message that are set
/// aside.
pub const NUMBER_SIGN: u8 = 0x23;

/// The beginning of the text that is given to the editor for the message
/// of a tag: a first line to go on from, and what to do, set aside.
pub open spec fn message_head(version: Seq<u8>) -> Seq<u8> {
    "Version v".spec_bytes() + version + ": \n#\n# Write a message for tag:\n#   v".spec_bytes()
        + version + "\n# Lines starting with '#' will be ignored.\n#\n# Log:\n".spec_bytes()
}

/// The lines of the first `n` that are not set aside, each without white
/// space at its end and with a line feed after it.
pub open spec fn kept_lines(lines: Seq<Seq<u8>>, n: nat) -> Seq<u8>
    decreases n,
{
    if n == 0 {
        Seq::empty()
    } else {
        let line = lines[n - 1];
        if line.len() > 0 && line[0] == NUMBER_SIGN {
            kept_lines(lines, (n - 1) as nat)
        } else {
            kept_lines(lines, (n - 1) as nat) + trimmed_end(line) + seq![LF]
        }
    }
}

/// The message of a tag, from the text as the editor left it: its lines
/// that are not set aside, without white space of ASCII at either end; none where
/// nothing is left.
pub open spec fn tag_message_of(text: Seq<u8>) -> Option<Seq<u8>> {
    let lines = lines_of(text);
    let message = trimmed(kept_lines(lines, lines.len()));
    if message.len() == 0 {
        None
    } else {
        Some(message)
    }
}

/// Computes `message_head`.
pub fn message_template(version: &[u8]) -> (r: Vec<u8>)
    ensures
        r@ == message_head(version@),
{
    let mut out = copy_bytes("Version v".as_bytes());
    append_bytes(&mut out, version);
    append_bytes(&mut out, ": \n#\n# Write a message for tag:\n#   v".as_bytes());
    append_bytes(&mut out, version);
    append_bytes(&mut out, "\n# Lines starting with '#' will be ignored.\n#\n# Log:\n".as_bytes());
    out
}

/// The message of a tag, from the text as the editor left it.
pub fn tag_message(text: &[u8]) -> (r: Option<Vec<u8>>)
    ensures
        match r {
            Some(m) => tag_message_of(text@) == Some(m@),
            None => tag_message_of(text@).is_none(),
        },
{
    let lines = split_lines(text);
    let ghost all = lines.deep_view();
    let mut message: Vec<u8> = Vec::new();
    let mut i: usize = 0;
    while i < lines.len()
        invariant
            0 <= i <= lines.len(),
            all == lines.deep_view(),
            message@ == kept_lines(all, i as nat),
        decreases lines.len() - i,
    {
        proof {
            assert(lines@[i as int].deep_view() =~= lines@[i as int]@);
        }
        let line = &lines[i];
        if !(line.len() > 0 && line[0] == NUMBER_SIGN) {
            let keep = trimmed_end_len(line.as_slice());
            append_bytes(&mut message, &line.as_slice()[0..keep]);
            message.push(LF);
        }
        i += 1;
    }
    let body = trim(message.as_slice());
    if body.len() == 0 {
        None
    } else {
        Some(copy_bytes(body))
    }
}

} // verus!
