//! Checking that a project's files agree on the version.

use vstd::prelude::*;
use crate::config::{Config, VersionHolder};
use crate::deb_ext::LF;
use crate::repo::disk::{found_on, Disk, DiskFileView};
use crate::text::{copy_bytes, find_byte, index_of, lemma_index_of, same_bytes};
use crate::ver::rewrite::{part_of, partial_of, Conflict, ConflictView};
use crate::ver::scanner::{
    holder_patterns, line_end, pattern_fault, scan_start, stepped, Iter, IterView, Lines,
    PatternError, ScanError, Scanner, ScannerView,
};
use crate::ver::{files_of, holder_files};
use crate::version::LETTER_V;

verus! {

/// The hyphen byte.
pub const HYPHEN: u8 = 0x2d;

/// A version number as it was found.
#[derive(Debug)]
pub struct Found {
    pub file: Vec<u8>,
    pub line_no: usize,
    pub version: Vec<u8>,
    /// The line in which it stands.
    pub line: Vec<u8>,
}

/// What a finding holds.
pub struct FoundView {
    pub file: Seq<u8>,
    pub line_no: usize,
    pub version: Seq<u8>,
    pub line: Seq<u8>,
}

impl View for Found {
    type V = FoundView;

    open spec fn view(&self) -> FoundView {
        FoundView {
            file: self.file@,
            line_no: self.line_no,
            version: self.version@,
            line: self.line@,
        }
    }
}

impl DeepView for Found {
    type V = FoundView;

    open spec fn deep_view(&self) -> FoundView {
        self@
    }
}

/// Why the version could not be checked.
#[derive(Clone, Copy, Debug, PartialEq, Eq, Structural)]
pub enum CheckError {
    /// A pattern of the configuration is no regular expression.
    Pattern(PatternError),
    /// A scan met an error.
    Scan(ScanError),
    /// A pattern for a part of the version does not match the version.
    PartialMismatch,
    /// No file holds a version number.
    NoVersion,
}

/// What a check found.
#[derive(Debug)]
pub struct Report {
    /// Whether all version numbers agree.
    pub consistent: bool,
    pub found: Vec<Found>,
    pub conflicts: Vec<Conflict>,
}

/// What a report holds.
pub struct ReportView {
    pub consistent: bool,
    pub found: Seq<FoundView>,
    pub conflicts: Seq<ConflictView>,
}

impl View for Report {
    type V = ReportView;

    open spec fn view(&self) -> ReportView {
        ReportView {
            consistent: self.consistent,
            found: self.found.deep_view(),
            conflicts: self.conflicts.deep_view(),
        }
    }
}

/// The number of bytes `v` at the start of a text.
pub open spec fn leading_vs(text: Seq<u8>) -> nat
    decreases text.len(),
{
    if text.len() > 0 && text[0] == LETTER_V {
        1 + leading_vs(text.drop_first())
    } else {
        0
    }
}

/// The versions that a description by git stands for: the description
/// without the letters `v` at its start; and, unless the version must be
/// exactly that, what of it stands before the first hyphen.
pub open spec fn git_versions(text: Seq<u8>, exact: bool) -> (Seq<u8>, Seq<u8>) {
    let long = text.skip(leading_vs(text) as int);
    if exact {
        (long, long)
    } else {
        (long, long.subrange(0, index_of(long, HYPHEN)))
    }
}

/// How far a check has come.
pub struct Checking {
    /// The version that further findings are held against.
    pub prev: Option<Seq<u8>>,
    pub found: Seq<FoundView>,
    pub conflicts: Seq<ConflictView>,
    pub failed: Option<CheckError>,
}

/// A check and a scan after the scan has looked at a line.
///
/// A version number that is found is held against the first one found;
/// where it is the first, against the versions of git, where there are
/// any, the short one of which further findings are held against where it
/// is neither.
pub open spec fn checked_line(
    c: Checking,
    it: IterView,
    file: Seq<u8>,
    line_no: usize,
    line: Seq<u8>,
    git: Option<(Seq<u8>, Seq<u8>)>,
) -> (Checking, IterView) {
    let step = stepped(it, line_no, line);
    match step.1 {
        None => (c, step.0),
        Some((from, to)) => {
            let version = line.subrange(from as int, to as int);
            let found = c.found.push(FoundView { file, line_no, version, line });
            match c.prev {
                Some(pver) => match partial_of(it.scanner, pver) {
                    None => (Checking { failed: Some(CheckError::PartialMismatch), ..c }, step.0),
                    Some(expected) => (
                        Checking {
                            found,
                            conflicts: if expected != version {
                                c.conflicts.push(
                                    ConflictView { file, line_no, found: version, expected },
                                )
                            } else {
                                c.conflicts
                            },
                            ..c
                        },
                        step.0,
                    ),
                },
                None => match git {
                    Some((long, short)) => if long != version && short != version {
                        (
                            Checking {
                                found,
                                prev: Some(short),
                                conflicts: c.conflicts.push(
                                    ConflictView { file, line_no, found: version, expected: short },
                                ),
                                ..c
                            },
                            step.0,
                        )
                    } else {
                        (Checking { found, prev: Some(version), ..c }, step.0)
                    },
                    None => (Checking { found, prev: Some(version), ..c }, step.0),
                },
            }
        },
    }
}

/// A check and a scan after the lines of a file from `position` on.
pub open spec fn checked_lines(
    c: Checking,
    it: IterView,
    data: Seq<u8>,
    position: int,
    number: int,
    file: Seq<u8>,
    git: Option<(Seq<u8>, Seq<u8>)>,
) -> (Checking, IterView)
    decreases data.len() - position,
{
    if position < 0 || position >= data.len() || c.failed.is_some() {
        (c, it)
    } else {
        proof {
            lemma_index_of(data.skip(position), LF);
        }
        let end = line_end(data, position);
        let next = checked_line(
            c,
            it,
            file,
            (number + 1) as usize,
            data.subrange(position, end),
            git,
        );
        checked_lines(next.0, next.1, data, end, number + 1, file, git)
    }
}

/// A check after one file, which holds `data`.
pub open spec fn checked_file(
    c: Checking,
    s: ScannerView,
    file: Seq<u8>,
    data: Seq<u8>,
    git: Option<(Seq<u8>, Seq<u8>)>,
) -> Checking {
    let r = checked_lines(c, scan_start(s), data, 0, 0, file, git);
    if r.0.failed.is_some() {
        r.0
    } else {
        match r.1.error {
            Some(e) => Checking { failed: Some(CheckError::Scan(e)), ..r.0 },
            None => r.0,
        }
    }
}

/// A check after the first `n` files of a place; files that are not on
/// `disk` are passed over.
pub open spec fn checked_files(
    c: Checking,
    s: ScannerView,
    files: Seq<Seq<u8>>,
    n: nat,
    disk: Seq<DiskFileView>,
    git: Option<(Seq<u8>, Seq<u8>)>,
) -> Checking
    decreases n,
{
    if n == 0 {
        c
    } else {
        let before = checked_files(c, s, files, (n - 1) as nat, disk, git);
        if before.failed.is_some() {
            before
        } else {
            match found_on(disk, files[n - 1]) {
                None => before,
                Some(data) => checked_file(before, s, files[n - 1], data, git),
            }
        }
    }
}

/// A check after one place of the configuration, whose patterns must be
/// regular expressions.
pub open spec fn checked_holder(
    c: Checking,
    h: VersionHolder,
    disk: Seq<DiskFileView>,
    git: Option<(Seq<u8>, Seq<u8>)>,
) -> Checking {
    if c.failed.is_some() {
        c
    } else {
        match pattern_fault(holder_patterns(h)) {
            Some(e) => Checking { failed: Some(CheckError::Pattern(e)), ..c },
            None => checked_files(
                c,
                holder_patterns(h),
                holder_files(h),
                holder_files(h).len(),
                disk,
                git,
            ),
        }
    }
}

/// A check after those of the first `n` places where the version stands
/// in full (`partial` unset) or in part (`partial` set).
pub open spec fn checked_holders(
    c: Checking,
    holders: Seq<VersionHolder>,
    n: nat,
    partial: bool,
    disk: Seq<DiskFileView>,
    git: Option<(Seq<u8>, Seq<u8>)>,
) -> Checking
    decreases n,
{
    if n == 0 {
        c
    } else {
        let before = checked_holders(c, holders, (n - 1) as nat, partial, disk, git);
        if holders[n - 1].partial_version.is_some() == partial {
            checked_holder(before, holders[n - 1], disk, git)
        } else {
            before
        }
    }
}

/// What a check of a project's files finds, or why they cannot be
/// checked.
///
/// The places where the version stands in full are looked at first, then
/// those where it stands in part.  A version number must be found.
pub open spec fn checked(
    holders: Seq<VersionHolder>,
    disk: Seq<DiskFileView>,
    git: Option<(Seq<u8>, Seq<u8>)>,
) -> Result<ReportView, CheckError> {
    let start = Checking {
        prev: None,
        found: Seq::empty(),
        conflicts: Seq::empty(),
        failed: None,
    };
    let full = checked_holders(start, holders, holders.len(), false, disk, git);
    let all = checked_holders(full, holders, holders.len(), true, disk, git);
    match all.failed {
        Some(e) => Err(e),
        None => if all.prev.is_none() {
            Err(CheckError::NoVersion)
        } else {
            Ok(
                ReportView {
                    consistent: all.conflicts.len() == 0,
                    found: all.found,
                    conflicts: all.conflicts,
                },
            )
        },
    }
}

/// A check at work.
struct Work {
    prev: Option<Vec<u8>>,
    found: Vec<Found>,
    conflicts: Vec<Conflict>,
}

impl Work {
    /// How far the check has come, without failure.
    spec fn state(&self) -> Checking {
        Checking {
            prev: match self.prev {
                Some(p) => Some(p@),
                None => None,
            },
            found: self.found.deep_view(),
            conflicts: self.conflicts.deep_view(),
            failed: None,
        }
    }
}

/// The view of the versions of git.
pub open spec fn git_view(git: Option<(Vec<u8>, Vec<u8>)>) -> Option<(Seq<u8>, Seq<u8>)> {
    match git {
        Some((long, short)) => Some((long@, short@)),
        None => None,
    }
}

/// Computes `git_versions`.
pub fn git_pair(text: &[u8], exact: bool) -> (r: (Vec<u8>, Vec<u8>))
    ensures
        (r.0@, r.1@) == git_versions(text@, exact),
{
    let mut start: usize = 0;
    proof {
        assert(text@.skip(0) =~= text@);
    }
    while start < text.len() && text[start] == LETTER_V
        invariant
            0 <= start <= text.len(),
            leading_vs(text@) == start + leading_vs(text@.skip(start as int)),
        decreases text.len() - start,
    {
        proof {
            assert(text@.skip(start as int).drop_first() =~= text@.skip(start + 1));
        }
        start += 1;
    }
    let long = copy_bytes(&text[start..text.len()]);
    proof {
        assert(text@.subrange(start as int, text@.len() as int) =~= text@.skip(start as int));
    }
    if exact {
        let short = copy_bytes(long.as_slice());
        (long, short)
    } else {
        let end = find_byte(long.as_slice(), 0, HYPHEN);
        proof {
            assert(long@.skip(0) =~= long@);
        }
        let short = copy_bytes(&long.as_slice()[0..end]);
        (long, short)
    }
}

/// Lets a scan look at a line, and holds what it finds against what was
/// found before.
fn check_line(
    w: &mut Work,
    it: &mut Iter,
    file: &[u8],
    line_no: usize,
    line: &[u8],
    git: &Option<(Vec<u8>, Vec<u8>)>,
) -> (ok: bool)
    ensures
        final(it).scanner() == old(it).scanner(),
        ok ==> (final(w).state(), final(it)@) == checked_line(
            old(w).state(),
            old(it)@,
            file@,
            line_no,
            line@,
            git_view(*git),
        ),
        !ok ==> checked_line(old(w).state(), old(it)@, file@, line_no, line@, git_view(*git)).0.failed
            == Some(CheckError::PartialMismatch),
{
    let scanner = it.scanner_of();
    match it.line(line_no, line) {
        None => true,
        Some((from, to)) => {
            let version = copy_bytes(&line[from..to]);
            let expected = match &w.prev {
                Some(pver) => match part_of(scanner, pver.as_slice()) {
                    Some(c) => Some(c),
                    None => {
                        return false;
                    },
                },
                None => None,
            };
            let ghost found_before = w.found.deep_view();
            let ghost conflicts_before = w.conflicts.deep_view();
            let note = Found {
                file: copy_bytes(file),
                line_no,
                version: copy_bytes(version.as_slice()),
                line: copy_bytes(line),
            };
            w.found.push(note);
            proof {
                assert(w.found.deep_view() =~= found_before.push(note@));
            }
            match expected {
                Some(c) => {
                    if !same_bytes(c.as_slice(), version.as_slice()) {
                        let conflict = Conflict {
                            file: copy_bytes(file),
                            line_no,
                            found: version,
                            expected: c,
                        };
                        w.conflicts.push(conflict);
                        proof {
                            assert(w.conflicts.deep_view() =~= conflicts_before.push(conflict@));
                        }
                    }
                },
                None => match git {
                    Some((long, short)) => {
                        if !same_bytes(long.as_slice(), version.as_slice()) && !same_bytes(
                            short.as_slice(),
                            version.as_slice(),
                        ) {
                            let conflict = Conflict {
                                file: copy_bytes(file),
                                line_no,
                                found: version,
                                expected: copy_bytes(short.as_slice()),
                            };
                            w.conflicts.push(conflict);
                            proof {
                                assert(w.conflicts.deep_view() =~= conflicts_before.push(
                                    conflict@,
                                ));
                            }
                            w.prev = Some(copy_bytes(short.as_slice()));
                        } else {
                            w.prev = Some(version);
                        }
                    },
                    None => {
                        w.prev = Some(version);
                    },
                },
            }
            true
        },
    }
}

/// Checks one file.
fn check_file(
    w: &mut Work,
    scanner: &Scanner,
    file: &[u8],
    data: &Vec<u8>,
    git: &Option<(Vec<u8>, Vec<u8>)>,
) -> (r: Result<(), CheckError>)
    ensures
        match r {
            Ok(()) => final(w).state() == checked_file(
                old(w).state(),
                scanner@,
                file@,
                data@,
                git_view(*git),
            ),
            Err(e) => checked_file(old(w).state(), scanner@, file@, data@, git_view(*git)).failed
                == Some(e),
        },
{
    let mut it = scanner.start();
    let mut lines = Lines::iter(copy_bytes(data.as_slice()));
    let ghost whole = checked_lines(
        old(w).state(),
        scan_start(scanner@),
        data@,
        0,
        0,
        file@,
        git_view(*git),
    );
    loop
        invariant
            lines.data() == data@,
            0 <= lines.position() <= data@.len(),
            whole == checked_lines(
                old(w).state(),
                scan_start(scanner@),
                data@,
                0,
                0,
                file@,
                git_view(*git),
            ),
            checked_lines(
                w.state(),
                it@,
                data@,
                lines.position(),
                lines.number(),
                file@,
                git_view(*git),
            ) == whole,
        ensures
            lines.position() == data@.len(),
            checked_lines(
                w.state(),
                it@,
                data@,
                lines.position(),
                lines.number(),
                file@,
                git_view(*git),
            ) == whole,
        decreases data@.len() - lines.position(),
    {
        let ghost before = lines.position();
        let ghost count = lines.number();
        let ghost state = w.state();
        let ghost scan = it@;
        match lines.next() {
            None => {
                break ;
            },
            Some((number, line)) => {
                proof {
                    lemma_index_of(data@.skip(before), LF);
                }
                if !check_line(w, &mut it, file, number, line.as_slice(), git) {
                    proof {
                        let next = checked_line(state, scan, file@, number, line@, git_view(*git));
                        assert(checked_lines(
                            next.0,
                            next.1,
                            data@,
                            lines.position(),
                            count + 1,
                            file@,
                            git_view(*git),
                        ).0.failed == Some(CheckError::PartialMismatch));
                    }
                    return Err(CheckError::PartialMismatch);
                }
            },
        }
    }
    proof {
        assert(whole == (w.state(), it@));
    }
    match it.error() {
        Ok(()) => Ok(()),
        Err(e) => Err(CheckError::Scan(e)),
    }
}

/// Checks the files of one place of the configuration.
fn check_holder(
    w: &mut Work,
    h: &VersionHolder,
    disk: &Disk,
    git: &Option<(Vec<u8>, Vec<u8>)>,
) -> (r: Result<(), CheckError>)
    ensures
        match r {
            Ok(()) => final(w).state() == checked_holder(
                old(w).state(),
                *h,
                disk@,
                git_view(*git),
            ),
            Err(e) => checked_holder(old(w).state(), *h, disk@, git_view(*git)).failed == Some(e),
        },
{
    let scanner = match Scanner::new(h) {
        Ok(s) => s,
        Err(e) => {
            return Err(CheckError::Pattern(e));
        },
    };
    let files = files_of(h);
    let ghost names = files.deep_view();
    let mut j: usize = 0;
    while j < files.len()
        invariant
            0 <= j <= files.len(),
            names == files.deep_view(),
            names == holder_files(*h),
            scanner@ == holder_patterns(*h),
            pattern_fault(holder_patterns(*h)).is_none(),
            w.state() == checked_files(
                old(w).state(),
                scanner@,
                names,
                j as nat,
                disk@,
                git_view(*git),
            ),
        decreases files.len() - j,
    {
        proof {
            assert(files@[j as int].deep_view() =~= files@[j as int]@);
        }
        match disk.get(files[j].as_slice()) {
            None => {},
            Some(data) => match check_file(w, &scanner, files[j].as_slice(), data, git) {
                Ok(()) => {},
                Err(e) => {
                    proof {
                        lemma_failed_files(
                            old(w).state(),
                            scanner@,
                            names,
                            (j + 1) as nat,
                            names.len(),
                            disk@,
                            git_view(*git),
                        );
                    }
                    return Err(e);
                },
            },
        }
        j += 1;
    }
    Ok(())
}

/// A check of files that has failed stays as it is.
proof fn lemma_failed_files(
    c: Checking,
    s: ScannerView,
    files: Seq<Seq<u8>>,
    k: nat,
    n: nat,
    disk: Seq<DiskFileView>,
    git: Option<(Seq<u8>, Seq<u8>)>,
)
    requires
        k <= n,
        checked_files(c, s, files, k, disk, git).failed.is_some(),
    ensures
        checked_files(c, s, files, n, disk, git) == checked_files(c, s, files, k, disk, git),
    decreases n - k,
{
    if k < n {
        lemma_failed_files(c, s, files, k, (n - 1) as nat, disk, git);
    }
}

/// A check of places that has failed stays as it is.
proof fn lemma_failed_holders(
    c: Checking,
    holders: Seq<VersionHolder>,
    k: nat,
    n: nat,
    partial: bool,
    disk: Seq<DiskFileView>,
    git: Option<(Seq<u8>, Seq<u8>)>,
)
    requires
        k <= n,
        checked_holders(c, holders, k, partial, disk, git).failed.is_some(),
    ensures
        checked_holders(c, holders, n, partial, disk, git) == checked_holders(
            c,
            holders,
            k,
            partial,
            disk,
            git,
        ),
    decreases n - k,
{
    if k < n {
        lemma_failed_holders(c, holders, k, (n - 1) as nat, partial, disk, git);
    }
}

/// Checks the places where the version stands in full, or those where it
/// stands in part.
fn check_holders(
    w: &mut Work,
    cfg: &Config,
    partial: bool,
    disk: &Disk,
    git: &Option<(Vec<u8>, Vec<u8>)>,
) -> (r: Result<(), CheckError>)
    ensures
        match r {
            Ok(()) => final(w).state() == checked_holders(
                old(w).state(),
                cfg.versions@,
                cfg.versions@.len(),
                partial,
                disk@,
                git_view(*git),
            ),
            Err(e) => checked_holders(
                old(w).state(),
                cfg.versions@,
                cfg.versions@.len(),
                partial,
                disk@,
                git_view(*git),
            ).failed == Some(e),
        },
{
    let mut i: usize = 0;
    while i < cfg.versions.len()
        invariant
            0 <= i <= cfg.versions.len(),
            w.state() == checked_holders(
                old(w).state(),
                cfg.versions@,
                i as nat,
                partial,
                disk@,
                git_view(*git),
            ),
        decreases cfg.versions.len() - i,
    {
        if cfg.versions[i].partial_version.is_some() == partial {
            match check_holder(w, &cfg.versions[i], disk, git) {
                Ok(()) => {},
                Err(e) => {
                    proof {
                        lemma_failed_holders(
                            old(w).state(),
                            cfg.versions@,
                            (i + 1) as nat,
                            cfg.versions@.len(),
                            partial,
                            disk@,
                            git_view(*git),
                        );
                    }
                    return Err(e);
                },
            }
        }
        i += 1;
    }
    Ok(())
}

/// Checks that the files of a project agree on the version, and with the
/// versions of git, where there are any.
///
/// `disk` holds the files that the configuration names, as far as they
/// exist.
pub fn check(cfg: &Config, disk: &Disk, git: &Option<(Vec<u8>, Vec<u8>)>) -> (r: Result<
    Report,
    CheckError,
>)
    ensures
        match r {
            Ok(report) => checked(cfg.versions@, disk@, git_view(*git)) == Ok::<
                ReportView,
                CheckError,
            >(report@),
            Err(e) => checked(cfg.versions@, disk@, git_view(*git)) == Err::<
                ReportView,
                CheckError,
            >(e),
        },
{
    let mut w = Work { prev: None, found: Vec::new(), conflicts: Vec::new() };
    proof {
        assert(w.state().found =~= Seq::empty());
        assert(w.state().conflicts =~= Seq::empty());
    }
    let ghost start = w.state();
    match check_holders(&mut w, cfg, false, disk, git) {
        Ok(()) => {},
        Err(e) => {
            proof {
                let full = checked_holders(
                    start,
                    cfg.versions@,
                    cfg.versions@.len(),
                    false,
                    disk@,
                    git_view(*git),
                );
                lemma_failed_start(full, cfg.versions@, cfg.versions@.len(), disk@, git_view(*git));
            }
            return Err(e);
        },
    }
    match check_holders(&mut w, cfg, true, disk, git) {
        Ok(()) => {},
        Err(e) => {
            return Err(e);
        },
    }
    if w.prev.is_none() {
        return Err(CheckError::NoVersion);
    }
    Ok(Report { consistent: w.conflicts.len() == 0, found: w.found, conflicts: w.conflicts })
}

/// A check that has failed is not changed by the places where the version
/// stands in part.
proof fn lemma_failed_start(
    c: Checking,
    holders: Seq<VersionHolder>,
    n: nat,
    disk: Seq<DiskFileView>,
    git: Option<(Seq<u8>, Seq<u8>)>,
)
    requires
        c.failed.is_some(),
    ensures
        checked_holders(c, holders, n, true, disk, git) == c,
    decreases n,
{
    if n > 0 {
        lemma_failed_start(c, holders, (n - 1) as nat, disk, git);
    }
}

} // verus!
