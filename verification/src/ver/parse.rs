//! All the version numbers of a file.

use vstd::prelude::*;
use crate::config::VersionHolder;
use crate::re::{
    regex_check, regex_group_span, regex_is_match, regex_matches, regex_span, regex_valid, Span,
};
use crate::repo::deb::{lines_of, split_lines};
use crate::text::copy_bytes;
use crate::ver::scanner::{optional_valid, pattern_text};
use crate::version::Version;

verus! {

/// Why the version numbers of a file could not be had.
#[derive(Debug)]
pub enum ParseError {
    /// The pattern is no regular expression.
    Regex(String),
    /// The pattern for versions matched without capturing a first group.
    NoCapture,
    /// The version number captured in the line of the given number,
    /// counted from zero, is empty.
    CapturedEmptyVersion(usize),
}

/// What an error holds.
pub enum ParseErrorView {
    Regex(Seq<char>),
    NoCapture,
    CapturedEmptyVersion(usize),
}

impl View for ParseError {
    type V = ParseErrorView;

    open spec fn view(&self) -> ParseErrorView {
        match self {
            ParseError::Regex(p) => ParseErrorView::Regex(p@),
            ParseError::NoCapture => ParseErrorView::NoCapture,
            ParseError::CapturedEmptyVersion(n) => ParseErrorView::CapturedEmptyVersion(*n),
        }
    }
}

/// A version number and the number of its line, counted from zero.
pub struct Located {
    pub line_no: usize,
    pub version: Seq<u8>,
}

/// The number of the first line from `at` on that the pattern matches;
/// the number of lines where it matches none.
pub open spec fn block_start_at(lines: Seq<Seq<u8>>, at: int, pattern: Seq<char>) -> int
    decreases lines.len() - at,
{
    if at < 0 || at >= lines.len() {
        lines.len() as int
    } else if regex_matches(pattern, lines[at]) {
        at
    } else {
        block_start_at(lines, at + 1, pattern)
    }
}

/// The version numbers of the lines from `at` on, after `acc`, up to and
/// with the line that ends the block: what the first group of the pattern
/// for versions captures, which must not be empty.
pub open spec fn versions_from(
    lines: Seq<Seq<u8>>,
    at: int,
    regex: Seq<char>,
    block_end: Option<Seq<char>>,
    acc: Seq<Located>,
) -> Result<Seq<Located>, ParseErrorView>
    decreases lines.len() - at,
{
    if at < 0 || at >= lines.len() {
        Ok(acc)
    } else {
        let line = lines[at];
        let ends = block_end.is_some() && regex_matches(block_end.unwrap(), line);
        match regex_group_span(regex, line, 1) {
            Span::Absent => Err(ParseErrorView::NoCapture),
            Span::At(from, to) => if from == to {
                Err(ParseErrorView::CapturedEmptyVersion(at as usize))
            } else {
                let found = acc.push(
                    Located { line_no: at as usize, version: line.subrange(from as int, to as int) },
                );
                if ends {
                    Ok(found)
                } else {
                    versions_from(lines, at + 1, regex, block_end, found)
                }
            },
            Span::NoMatch => if ends {
                Ok(acc)
            } else {
                versions_from(lines, at + 1, regex, block_end, acc)
            },
        }
    }
}

/// The version numbers of a text, as a place of the configuration finds
/// them, with their lines.
///
/// Where the place has a pattern for the beginning of a block, the lines
/// after the first that it matches are looked at; none where it matches
/// none.  The patterns must be regular expressions, as far as they are
/// used.
pub open spec fn located_versions(text: Seq<u8>, cfg: VersionHolder) -> Result<
    Seq<Located>,
    ParseErrorView,
> {
    let lines = lines_of(text);
    let start = match cfg.block_start {
        Some(p) => block_start_at(lines, 0, p@) + 1,
        None => 0,
    };
    if cfg.block_start.is_some() && !regex_valid(cfg.block_start.unwrap()@) {
        Err(ParseErrorView::Regex(cfg.block_start.unwrap()@))
    } else if start > lines.len() {
        Ok(Seq::empty())
    } else if !regex_valid(cfg.regex@) {
        Err(ParseErrorView::Regex(cfg.regex@))
    } else if cfg.block_end.is_some() && !regex_valid(cfg.block_end.unwrap()@) {
        Err(ParseErrorView::Regex(cfg.block_end.unwrap()@))
    } else {
        versions_from(lines, start, cfg.regex@, pattern_text(cfg.block_end), Seq::empty())
    }
}

/// The version numbers of a file that may not exist: none where it does
/// not.
pub open spec fn all_versions(data: Option<Seq<u8>>, cfg: VersionHolder) -> Result<
    Seq<Located>,
    ParseErrorView,
> {
    match data {
        Some(text) => located_versions(text, cfg),
        None => Ok(Seq::empty()),
    }
}

/// What a list of version numbers holds.
pub open spec fn located(list: Seq<(usize, Version)>) -> Seq<Located> {
    Seq::new(list.len(), |i: int| Located { line_no: list[i].0, version: list[i].1@ })
}

/// The view of an optional text.
pub open spec fn optional_data(data: Option<&[u8]>) -> Option<Seq<u8>> {
    match data {
        Some(d) => Some(d@),
        None => None,
    }
}

/// The number of the first line that the pattern matches.
fn _find_block_start(lines: &Vec<Vec<u8>>, pattern: &str) -> (r: usize)
    requires
        regex_valid(pattern@),
    ensures
        r == block_start_at(lines.deep_view(), 0, pattern@),
        r <= lines.len(),
{
    let ghost all = lines.deep_view();
    let mut i: usize = 0;
    while i < lines.len()
        invariant
            0 <= i <= lines.len(),
            all == lines.deep_view(),
            regex_valid(pattern@),
            block_start_at(all, i as int, pattern@) == block_start_at(all, 0, pattern@),
        decreases lines.len() - i,
    {
        proof {
            assert(lines@[i as int].deep_view() =~= lines@[i as int]@);
        }
        let matched = match regex_is_match(pattern, lines[i].as_slice()) {
            Ok(b) => b,
            Err(_) => false,
        };
        if matched {
            return i;
        }
        i += 1;
    }
    i
}

/// Whether a list begins with another.
pub open spec fn begins_with(list: Seq<Located>, head: Seq<Located>) -> bool {
    head.len() <= list.len() && list.subrange(0, head.len() as int) == head
}

/// The version numbers of a text, as a place of the configuration finds
/// them, added to `res` after what it holds.  Where an error ends the
/// search, what was found before it has been added.
pub fn scan_versions(text: &[u8], cfg: &VersionHolder, res: &mut Vec<(usize, Version)>) -> (r:
    Result<(), ParseError>)
    ensures
        begins_with(located(final(res)@), located(old(res)@)),
        match r {
            Ok(()) => located_versions(text@, *cfg) == Ok::<Seq<Located>, ParseErrorView>(
                located(final(res)@).skip(old(res)@.len() as int),
            ),
            Err(e) => located_versions(text@, *cfg) == Err::<Seq<Located>, ParseErrorView>(e@),
        },
{
    let ghost held = located(res@);
    proof {
        assert(held.subrange(0, held.len() as int) =~= held);
        assert(held.skip(held.len() as int) =~= Seq::<Located>::empty());
    }
    let lines = split_lines(text);
    let ghost all = lines.deep_view();
    let start: usize = match &cfg.block_start {
        Some(p) => {
            if regex_check(p.as_str()).is_err() {
                return Err(ParseError::Regex(p.clone()));
            }
            let at = _find_block_start(&lines, p.as_str());
            if at >= lines.len() {
                return Ok(());
            }
            at + 1
        },
        None => 0,
    };
    if regex_check(cfg.regex.as_str()).is_err() {
        return Err(ParseError::Regex(cfg.regex.clone()));
    }
    match &cfg.block_end {
        Some(p) => {
            if regex_check(p.as_str()).is_err() {
                return Err(ParseError::Regex(p.clone()));
            }
        },
        None => {},
    }
    let ghost goal = located_versions(text@, *cfg);
    let ghost end = pattern_text(cfg.block_end);
    let mut i: usize = start;
    while i < lines.len()
        invariant
            start <= i <= lines.len(),
            all == lines.deep_view(),
            regex_valid(cfg.regex@),
            optional_valid(pattern_text(cfg.block_end)),
            end == pattern_text(cfg.block_end),
            held == located(old(res)@),
            goal == located_versions(text@, *cfg),
            begins_with(located(res@), held),
            goal == versions_from(
                all,
                i as int,
                cfg.regex@,
                end,
                located(res@).skip(held.len() as int),
            ),
        decreases lines.len() - i,
    {
        proof {
            assert(lines@[i as int].deep_view() =~= lines@[i as int]@);
        }
        let line = &lines[i];
        let span = match regex_span(cfg.regex.as_str(), line.as_slice(), 1) {
            Ok(s) => s,
            Err(_) => Span::NoMatch,
        };
        match span {
            Span::Absent => {
                return Err(ParseError::NoCapture);
            },
            Span::At(from, to) => {
                if from == to {
                    return Err(ParseError::CapturedEmptyVersion(i));
                }
                let ghost before = located(res@);
                let v = Version(copy_bytes(&line.as_slice()[from..to]));
                res.push((i, v));
                proof {
                    let one = Located {
                        line_no: i,
                        version: all[i as int].subrange(from as int, to as int),
                    };
                    assert(located(res@) =~= before.push(one));
                    assert(located(res@).subrange(0, held.len() as int) =~= before.subrange(
                        0,
                        held.len() as int,
                    ));
                    assert(located(res@).skip(held.len() as int) =~= before.skip(
                        held.len() as int,
                    ).push(one));
                }
            },
            Span::NoMatch => {},
        }
        let ends = match &cfg.block_end {
            Some(p) => match regex_is_match(p.as_str(), line.as_slice()) {
                Ok(b) => b,
                Err(_) => false,
            },
            None => false,
        };
        if ends {
            return Ok(());
        }
        i += 1;
    }
    Ok(())
}

/// All the version numbers of a file, which holds `data` where it
/// exists, each with the number of its line, counted from zero.
pub fn get_all(data: Option<&[u8]>, cfg: &VersionHolder) -> (r: Result<
    Vec<(usize, Version)>,
    ParseError,
>)
    ensures
        match r {
            Ok(list) => all_versions(optional_data(data), *cfg) == Ok::<
                Seq<Located>,
                ParseErrorView,
            >(located(list@)),
            Err(e) => all_versions(optional_data(data), *cfg) == Err::<
                Seq<Located>,
                ParseErrorView,
            >(e@),
        },
{
    let mut buf: Vec<(usize, Version)> = Vec::new();
    match data {
        None => {
            proof {
                assert(located(buf@) =~= Seq::<Located>::empty());
            }
            Ok(buf)
        },
        Some(text) => match scan_versions(text, cfg, &mut buf) {
            Ok(()) => {
                proof {
                    assert(located(buf@).skip(0) =~= located(buf@));
                }
                Ok(buf)
            },
            Err(e) => Err(e),
        },
    }
}

/// The last of the version numbers of a file; none where it has none.
pub fn get_first(data: Option<&[u8]>, cfg: &VersionHolder) -> (r: Result<
    Option<Version>,
    ParseError,
>)
    ensures
        match r {
            Ok(found) => match all_versions(optional_data(data), *cfg) {
                Ok(list) => match found {
                    Some(v) => list.len() > 0 && v@ == list.last().version,
                    None => list.len() == 0,
                },
                Err(_) => false,
            },
            Err(e) => all_versions(optional_data(data), *cfg) == Err::<
                Seq<Located>,
                ParseErrorView,
            >(e@),
        },
{
    let mut list = match get_all(data, cfg) {
        Ok(list) => list,
        Err(e) => {
            return Err(e);
        },
    };
    let ghost before = list@;
    match list.pop() {
        Some((_, v)) => {
            proof {
                assert(located(before).last().version == before.last().1@);
            }
            Ok(Some(v))
        },
        None => Ok(None),
    }
}

} // verus!
