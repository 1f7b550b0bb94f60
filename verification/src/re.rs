//! Regular expressions, as the `regex` crate matches them on bytes.
//!
//! Patterns are those of `regex::bytes::Regex`.  On texts that are valid
//! UTF-8 they match as those of `regex::Regex` do; a pattern that can match
//! bytes which are no UTF-8 is accepted here.

use vstd::prelude::*;

verus! {

#[verifier::external_type_specification]
#[verifier::external_body]
pub struct ExRegexError(regex::Error);

/// Whether `regex` accepts the pattern.
pub uninterp spec fn regex_valid(pattern: Seq<char>) -> bool;

/// Whether a pattern that `regex` accepts matches somewhere in the text.
pub uninterp spec fn regex_matches(pattern: Seq<char>, text: Seq<u8>) -> bool;

/// What the capture group of the given name holds at the leftmost match
/// of a pattern that `regex` accepts.
pub uninterp spec fn regex_named_group(pattern: Seq<char>, text: Seq<u8>, group: Seq<char>)
    -> GroupView;

/// Where the capture group of the given number lies at the leftmost match
/// of a pattern that `regex` accepts.
pub uninterp spec fn regex_group_span(pattern: Seq<char>, text: Seq<u8>, group: nat) -> Span;

/// What a capture group holds.
#[derive(Debug)]
pub enum Group {
    /// The pattern does not match.
    NoMatch,
    /// The pattern matches, and the group took no part in the match or
    /// is no group of the pattern.
    Absent,
    /// The bytes that the group matched.
    Found(Vec<u8>),
}

/// What a capture group holds.
pub enum GroupView {
    NoMatch,
    Absent,
    Found(Seq<u8>),
}

impl View for Group {
    type V = GroupView;

    open spec fn view(&self) -> GroupView {
        match self {
            Group::NoMatch => GroupView::NoMatch,
            Group::Absent => GroupView::Absent,
            Group::Found(b) => GroupView::Found(b@),
        }
    }
}

/// Where a capture group lies.
#[derive(Clone, Copy, Debug, PartialEq, Eq, Structural)]
pub enum Span {
    /// The pattern does not match.
    NoMatch,
    /// The pattern matches, and the group took no part in the match or
    /// is no group of the pattern.
    Absent,
    /// The group matched the bytes from the first offset up to the second.
    At(usize, usize),
}

/// Calls `regex::bytes::Regex::new` on the pattern.  Believed, not proved:
/// whether the pattern is accepted depends on the pattern alone.
#[verifier::external_body]
pub(crate) fn regex_check(pattern: &str) -> (r: Result<(), regex::Error>)
    ensures
        r.is_ok() == regex_valid(pattern@),
{
    match regex::bytes::Regex::new(pattern) {
        Ok(_) => Ok(()),
        Err(e) => Err(e),
    }
}

/// Calls `regex::bytes::Regex::new` on the pattern and `Regex::is_match`
/// on the text.  Believed, not proved: the outcome depends on pattern and
/// text alone.
#[verifier::external_body]
pub(crate) fn regex_is_match(pattern: &str, text: &[u8]) -> (r: Result<bool, regex::Error>)
    ensures
        match r {
            Ok(b) => regex_valid(pattern@) && b == regex_matches(pattern@, text@),
            Err(_) => !regex_valid(pattern@),
        },
{
    match regex::bytes::Regex::new(pattern) {
        Ok(re) => Ok(re.is_match(text)),
        Err(e) => Err(e),
    }
}

/// Calls `regex::bytes::Regex::new` on the pattern, `Regex::captures` on
/// the text and `Captures::name` on the group's name.  Believed, not
/// proved: the outcome depends on pattern, text and name alone.
#[verifier::external_body]
pub(crate) fn regex_named(pattern: &str, text: &[u8], group: &str) -> (r: Result<
    Group,
    regex::Error,
>)
    ensures
        match r {
            Ok(g) => regex_valid(pattern@) && g@ == regex_named_group(pattern@, text@, group@),
            Err(_) => !regex_valid(pattern@),
        },
{
    let re = regex::bytes::Regex::new(pattern)?;
    Ok(
        match re.captures(text) {
            None => Group::NoMatch,
            Some(c) => match c.name(group) {
                None => Group::Absent,
                Some(m) => Group::Found(m.as_bytes().to_vec()),
            },
        },
    )
}

/// Calls `regex::bytes::Regex::new` on the pattern, `Regex::captures` on
/// the text and `Captures::get` on the group's number.  Believed, not
/// proved: the outcome depends on pattern, text and number alone; and, as
/// `Match::start` and `Match::end` document, the offsets of a match are in
/// order and within the text.
#[verifier::external_body]
pub(crate) fn regex_span(pattern: &str, text: &[u8], group: usize) -> (r: Result<
    Span,
    regex::Error,
>)
    ensures
        match r {
            Ok(s) => regex_valid(pattern@) && s == regex_group_span(pattern@, text@, group as nat)
                && (s matches Span::At(from, to) ==> from <= to <= text@.len()),
            Err(_) => !regex_valid(pattern@),
        },
{
    let re = regex::bytes::Regex::new(pattern)?;
    Ok(
        match re.captures(text) {
            None => Span::NoMatch,
            Some(c) => match c.get(group) {
                None => Span::Absent,
                Some(m) => Span::At(m.start(), m.end()),
            },
        },
    )
}

} // verus!
