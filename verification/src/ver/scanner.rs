//! Scanning the lines of a file for version numbers.

use vstd::prelude::*;
use crate::config::VersionHolder;
use crate::deb_ext::LF;
use crate::re::{
    regex_check, regex_group_span, regex_is_match, regex_matches, regex_span, regex_valid, Span,
};
use crate::text::{copy_bytes, find_byte, index_of, lemma_index_of};

verus! {

/// The patterns by which version numbers are found in a file.
#[derive(Debug)]
pub struct Scanner {
    block_start: Option<String>,
    block_end: Option<String>,
    regex: String,
    partial: Option<String>,
}

/// The patterns of a scanner.
pub struct ScannerView {
    /// The pattern of the line after which version numbers are looked for;
    /// none where they are looked for from the first line.
    pub block_start: Option<Seq<char>>,
    /// The pattern of the line after which they are looked for no more.
    pub block_end: Option<Seq<char>>,
    /// The pattern whose first group is a version number.
    pub regex: Seq<char>,
    /// The pattern of the part of a version that stands there, where not
    /// all of it does.
    pub partial: Option<Seq<char>>,
}

/// Which of a scanner's patterns is no regular expression.
#[derive(Clone, Copy, Debug, PartialEq, Eq, Structural)]
pub enum PatternError {
    BlockStart,
    BlockEnd,
    Regex,
    PartialVersion,
}

/// The text of an optional pattern.
pub open spec fn pattern_text(p: Option<String>) -> Option<Seq<char>> {
    match p {
        Some(p) => Some(p@),
        None => None,
    }
}

/// Whether an optional pattern is a regular expression.
pub open spec fn optional_valid(p: Option<Seq<char>>) -> bool {
    match p {
        Some(p) => regex_valid(p),
        None => true,
    }
}

/// The patterns of the scanner for a place where a version number stands.
pub open spec fn holder_patterns(h: VersionHolder) -> ScannerView {
    ScannerView {
        block_start: pattern_text(h.block_start),
        block_end: pattern_text(h.block_end),
        regex: h.regex@,
        partial: pattern_text(h.partial_version),
    }
}

/// Which of the patterns is no regular expression: the first that is
/// none, in the order block start, block end, version, partial version.
pub open spec fn pattern_fault(s: ScannerView) -> Option<PatternError> {
    if !optional_valid(s.block_start) {
        Some(PatternError::BlockStart)
    } else if !optional_valid(s.block_end) {
        Some(PatternError::BlockEnd)
    } else if !regex_valid(s.regex) {
        Some(PatternError::Regex)
    } else if !optional_valid(s.partial) {
        Some(PatternError::PartialVersion)
    } else {
        None
    }
}

/// The scan of a file at its beginning: before the block where the
/// scanner has a pattern for its beginning, else within it.
pub open spec fn scan_start(s: ScannerView) -> IterView {
    IterView {
        scanner: s,
        state: if s.block_start.is_some() {
            State::Prefix
        } else {
            State::Body
        },
        error: None,
    }
}

/// Where a scan stands in a file.
#[derive(Clone, Copy, Debug, PartialEq, Eq, Structural)]
pub enum State {
    /// Before the line that begins the block.
    Prefix,
    /// Within the block.
    Body,
    /// After the line that ends the block.
    Suffix,
}

/// What went wrong in a scan.
#[derive(Clone, Copy, Debug, PartialEq, Eq, Structural)]
pub enum ScanError {
    /// The version number captured in the line of the given number is
    /// empty.
    EmptyVersion(usize),
    /// The pattern matched the line of the given number without capturing
    /// a first group.
    NoCapture(usize),
}

impl<'a> DeepView for Iter<'a> {
    type V = IterView;

    open spec fn deep_view(&self) -> IterView {
        self@
    }
}

/// A scan of one file.
pub struct Iter<'a> {
    scanner: &'a Scanner,
    state: State,
    error: Option<ScanError>,
}

/// What a scan holds.
pub struct IterView {
    pub scanner: ScannerView,
    pub state: State,
    pub error: Option<ScanError>,
}

/// A scan after one more line, and where the version number lies in the
/// line, if it holds one.
///
/// After an error nothing is looked at.  Before the block, the line that
/// matches the pattern of its beginning enters it.  Within the block, a
/// line that the pattern for versions matches must capture a first group
/// that is not empty, and else is an error; a line that it does not match
/// leaves the block where it matches the pattern of its end.
pub open spec fn stepped(it: IterView, line_no: usize, line: Seq<u8>) -> (
    IterView,
    Option<(usize, usize)>,
) {
    if it.error.is_some() {
        (it, None)
    } else {
        match it.state {
            State::Prefix => if it.scanner.block_start.is_some() && regex_matches(
                it.scanner.block_start.unwrap(),
                line,
            ) {
                (IterView { state: State::Body, ..it }, None)
            } else {
                (it, None)
            },
            State::Body => match regex_group_span(it.scanner.regex, line, 1) {
                Span::At(from, to) => if from == to {
                    (IterView { error: Some(ScanError::EmptyVersion(line_no)), ..it }, None)
                } else {
                    (it, Some((from, to)))
                },
                Span::Absent => (IterView { error: Some(ScanError::NoCapture(line_no)), ..it }, None),
                Span::NoMatch => if it.scanner.block_end.is_some() && regex_matches(
                    it.scanner.block_end.unwrap(),
                    line,
                ) {
                    (IterView { state: State::Suffix, ..it }, None)
                } else {
                    (it, None)
                },
            },
            State::Suffix => (it, None),
        }
    }
}

impl Scanner {
    /// All patterns are regular expressions.
    #[verifier::type_invariant]
    spec fn valid(self) -> bool {
        &&& optional_valid(pattern_text(self.block_start))
        &&& optional_valid(pattern_text(self.block_end))
        &&& regex_valid(self.regex@)
        &&& optional_valid(pattern_text(self.partial))
    }

    /// The patterns.
    pub closed spec fn view(&self) -> ScannerView {
        ScannerView {
            block_start: pattern_text(self.block_start),
            block_end: pattern_text(self.block_end),
            regex: self.regex@,
            partial: pattern_text(self.partial),
        }
    }

    /// The pattern of the part of a version that stands at the scanner's
    /// place, where not all of it does.
    pub fn partial(&self) -> (r: Option<&str>)
        ensures
            match r {
                Some(p) => self@.partial == Some(p@) && regex_valid(p@),
                None => self@.partial.is_none(),
            },
    {
        proof {
            use_type_invariant(self);
        }
        match &self.partial {
            Some(p) => Some(p.as_str()),
            None => None,
        }
    }

    /// The scanner for a place where a version number stands: its patterns
    /// must be regular expressions, which is checked in the order block
    /// start, block end, version, partial version.
    pub fn new(cfg: &VersionHolder) -> (r: Result<Scanner, PatternError>)
        ensures
            match r {
                Ok(s) => s@ == holder_patterns(*cfg) && pattern_fault(s@).is_none(),
                Err(e) => pattern_fault(holder_patterns(*cfg)) == Some(e),
            },
    {
        let block_start = match &cfg.block_start {
            Some(p) => {
                if regex_check(p.as_str()).is_err() {
                    return Err(PatternError::BlockStart);
                }
                Some(p.clone())
            },
            None => None,
        };
        let block_end = match &cfg.block_end {
            Some(p) => {
                if regex_check(p.as_str()).is_err() {
                    return Err(PatternError::BlockEnd);
                }
                Some(p.clone())
            },
            None => None,
        };
        if regex_check(cfg.regex.as_str()).is_err() {
            return Err(PatternError::Regex);
        }
        let partial = match &cfg.partial_version {
            Some(p) => {
                if regex_check(p.as_str()).is_err() {
                    return Err(PatternError::PartialVersion);
                }
                Some(p.clone())
            },
            None => None,
        };
        Ok(Scanner { block_start, block_end, regex: cfg.regex.clone(), partial })
    }

    /// Begins the scan of a file: before the block where the scanner has a
    /// pattern for its beginning, else within it.
    pub fn start(&self) -> (it: Iter<'_>)
        ensures
            it@ == scan_start(self@),
            it.scanner() == self,
    {
        Iter {
            scanner: self,
            state: if self.block_start.is_some() {
                State::Prefix
            } else {
                State::Body
            },
            error: None,
        }
    }
}

impl<'a> Iter<'a> {
    /// A scan stands before the block only where the block has a
    /// beginning.
    #[verifier::type_invariant]
    spec fn valid(self) -> bool {
        self.state == State::Prefix ==> self.scanner.block_start.is_some()
    }

    /// The scan.
    pub closed spec fn view(&self) -> IterView {
        IterView { scanner: self.scanner@, state: self.state, error: self.error }
    }

    /// The scanner whose scan this is.
    pub closed spec fn scanner(&self) -> &Scanner {
        self.scanner
    }

    /// The scanner whose scan this is.
    pub fn scanner_of(&self) -> (r: &'a Scanner)
        ensures
            r == self.scanner(),
            r@ == self@.scanner,
    {
        self.scanner
    }

    /// The error that stopped the scan, if any.
    pub fn failure(&self) -> (r: Option<ScanError>)
        ensures
            r == self@.error,
    {
        self.error
    }

    /// How the scan ended: with the error that stopped it, if any.
    pub fn error(self) -> (r: Result<(), ScanError>)
        ensures
            r == match self@.error {
                Some(e) => Err::<(), ScanError>(e),
                None => Ok::<(), ScanError>(()),
            },
    {
        match self.error {
            Some(e) => Err(e),
            None => Ok(()),
        }
    }

    /// Looks at the next line, and says where the version number lies in
    /// it, if it holds one.
    pub fn line(&mut self, line_no: usize, line: &[u8]) -> (r: Option<(usize, usize)>)
        ensures
            (final(self)@, r) == stepped(old(self)@, line_no, line@),
            final(self).scanner() == old(self).scanner(),
            r matches Some((from, to)) ==> from < to <= line@.len(),
    {
        proof {
            use_type_invariant(&*self);
            use_type_invariant(self.scanner);
        }
        if self.error.is_some() {
            return None;
        }
        match self.state {
            State::Prefix => {
                let matched = match &self.scanner.block_start {
                    Some(p) => match regex_is_match(p.as_str(), line) {
                        Ok(b) => b,
                        Err(_) => false,
                    },
                    None => false,
                };
                if matched {
                    self.state = State::Body;
                }
                None
            },
            State::Body => {
                let span = match regex_span(self.scanner.regex.as_str(), line, 1) {
                    Ok(s) => s,
                    Err(_) => Span::NoMatch,
                };
                match span {
                    Span::At(from, to) => {
                        if from == to {
                            self.error = Some(ScanError::EmptyVersion(line_no));
                            None
                        } else {
                            Some((from, to))
                        }
                    },
                    Span::Absent => {
                        self.error = Some(ScanError::NoCapture(line_no));
                        None
                    },
                    Span::NoMatch => {
                        let ended = match &self.scanner.block_end {
                            Some(p) => match regex_is_match(p.as_str(), line) {
                                Ok(b) => b,
                                Err(_) => false,
                            },
                            None => false,
                        };
                        if ended {
                            self.state = State::Suffix;
                        }
                        None
                    },
                }
            },
            State::Suffix => None,
        }
    }
}

/// The lines of a file, each with its number, counted from one.
pub struct Lines {
    number: usize,
    data: Vec<u8>,
    position: usize,
}

/// Where the line that begins at `position` ends: after its line feed, or
/// at the end of the text.
pub open spec fn line_end(data: Seq<u8>, position: int) -> int {
    let n = index_of(data.skip(position), LF);
    if position + n < data.len() {
        position + n + 1
    } else {
        data.len() as int
    }
}

impl Lines {
    /// The reading stands within the file.
    #[verifier::type_invariant]
    spec fn valid(self) -> bool {
        self.position <= self.data@.len() && self.number <= self.position
    }

    /// The bytes of the file.
    pub closed spec fn data(&self) -> Seq<u8> {
        self.data@
    }

    /// Where the next line begins.
    pub closed spec fn position(&self) -> int {
        self.position as int
    }

    /// The number of lines read.
    pub closed spec fn number(&self) -> int {
        self.number as int
    }

    /// The lines of a file that holds the given bytes.
    pub fn iter(file: Vec<u8>) -> (r: Lines)
        ensures
            r.data() == file@,
            r.position() == 0,
            r.number() == 0,
    {
        Lines { number: 0, data: file, position: 0 }
    }

    /// The next line with its number; the line feed that ends a line is
    /// part of it.  None at the end of the file.
    pub fn next(&mut self) -> (r: Option<(usize, Vec<u8>)>)
        ensures
            final(self).data() == old(self).data(),
            0 <= old(self).position() <= old(self).data().len(),
            match r {
                None => {
                    &&& old(self).position() == old(self).data().len()
                    &&& final(self).position() == old(self).position()
                    &&& final(self).number() == old(self).number()
                },
                Some((n, line)) => {
                    &&& old(self).position() < old(self).data().len()
                    &&& final(self).position() == line_end(old(self).data(), old(self).position())
                    &&& line@ == old(self).data().subrange(
                        old(self).position(),
                        final(self).position(),
                    )
                    &&& n == old(self).number() + 1
                    &&& final(self).number() == n
                },
            },
    {
        proof {
            use_type_invariant(&*self);
        }
        let len = self.data.len();
        if self.position >= len {
            return None;
        }
        let at = find_byte(self.data.as_slice(), self.position, LF);
        let end = if at < len {
            at + 1
        } else {
            len
        };
        let line = copy_bytes(&self.data.as_slice()[self.position..end]);
        let number = self.number + 1;
        self.position = end;
        self.number = number;
        Some((number, line))
    }
}

} // verus!
