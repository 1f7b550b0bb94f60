//! Writing another version number where the version stands in a
//! project's files.

use vstd::prelude::*;
use crate::config::{Config, VersionHolder};
use crate::deb_ext::LF;
use crate::re::{regex_group_span, regex_span, Span};
use crate::repo::disk::{found_on, Disk, DiskFile, DiskFileView};
use crate::text::{append_bytes, copy_bytes, lemma_index_of, same_bytes};
use crate::ver::{files_of, holder_files};
use crate::ver::scanner::{
    holder_patterns, line_end, pattern_fault, scan_start, stepped, Iter, IterView, Lines,
    PatternError, ScanError, Scanner, ScannerView,
};

verus! {

/// A version number that was found and is not the one expected.
#[derive(Debug)]
pub struct Conflict {
    pub file: Vec<u8>,
    pub line_no: usize,
    pub found: Vec<u8>,
    pub expected: Vec<u8>,
}

/// What a conflict holds.
pub struct ConflictView {
    pub file: Seq<u8>,
    pub line_no: usize,
    pub found: Seq<u8>,
    pub expected: Seq<u8>,
}

impl View for Conflict {
    type V = ConflictView;

    open spec fn view(&self) -> ConflictView {
        ConflictView {
            file: self.file@,
            line_no: self.line_no,
            found: self.found@,
            expected: self.expected@,
        }
    }
}

impl DeepView for Conflict {
    type V = ConflictView;

    open spec fn deep_view(&self) -> ConflictView {
        self@
    }
}

/// A version number that was written over.
#[derive(Debug)]
pub struct Replaced {
    pub file: Vec<u8>,
    pub line_no: usize,
    /// The version number that stood there.
    pub old: Vec<u8>,
    /// What stands there now.
    pub new: Vec<u8>,
    /// The line as it is now.
    pub line: Vec<u8>,
}

/// What a replacement holds.
pub struct ReplacedView {
    pub file: Seq<u8>,
    pub line_no: usize,
    pub old: Seq<u8>,
    pub new: Seq<u8>,
    pub line: Seq<u8>,
}

impl View for Replaced {
    type V = ReplacedView;

    open spec fn view(&self) -> ReplacedView {
        ReplacedView {
            file: self.file@,
            line_no: self.line_no,
            old: self.old@,
            new: self.new@,
            line: self.line@,
        }
    }
}

impl DeepView for Replaced {
    type V = ReplacedView;

    open spec fn deep_view(&self) -> ReplacedView {
        self@
    }
}

/// The part of a version that stands at a scanner's place: all of it, or
/// what the scanner's pattern for the part matches first; none where that
/// pattern does not match.
pub open spec fn partial_of(s: ScannerView, version: Seq<u8>) -> Option<Seq<u8>> {
    match s.partial {
        None => Some(version),
        Some(p) => match regex_group_span(p, version, 0) {
            Span::At(from, to) => Some(version.subrange(from as int, to as int)),
            _ => None,
        },
    }
}

/// The rewriting of a file between two scanners' looks at a line.
pub struct Edit {
    /// The scans of the file, one for each scanner.
    pub iters: Seq<IterView>,
    /// The line at hand, as it is now.
    pub line: Seq<u8>,
    /// The lines written.
    pub out: Seq<u8>,
    /// The first version number found where the version stands in full.
    pub prev: Option<Seq<u8>>,
    pub conflicts: Seq<ConflictView>,
    pub replaced: Seq<ReplacedView>,
    /// Whether a pattern for a part of the version failed to match.
    pub failed: bool,
}

/// The rewriting after the scanner of number `k` has looked at the line.
///
/// Where the scanner finds a version number in the line, the part of the
/// new version that stands at its place is written over it.  What was
/// found must be the part of the first version found that stands there;
/// else it is a conflict.  What is found first where the version stands in
/// full becomes the first version found.
pub open spec fn edit_one(e: Edit, k: int, file: Seq<u8>, line_no: usize, version: Seq<u8>)
    -> Edit {
    if e.failed {
        e
    } else {
        let step = stepped(e.iters[k], line_no, e.line);
        let iters = e.iters.update(k, step.0);
        match step.1 {
            None => Edit { iters, ..e },
            Some((from, to)) => {
                let s = e.iters[k].scanner;
                let found = e.line.subrange(from as int, to as int);
                match partial_of(s, version) {
                    None => Edit { iters, failed: true, ..e },
                    Some(part) => {
                        let line = e.line.subrange(0, from as int) + part + e.line.subrange(
                            to as int,
                            e.line.len() as int,
                        );
                        let replaced = e.replaced.push(
                            ReplacedView { file, line_no, old: found, new: part, line },
                        );
                        match e.prev {
                            Some(pver) => match partial_of(s, pver) {
                                None => Edit { iters, failed: true, ..e },
                                Some(expected) => Edit {
                                    iters,
                                    line,
                                    replaced,
                                    conflicts: if expected != found {
                                        e.conflicts.push(
                                            ConflictView { file, line_no, found, expected },
                                        )
                                    } else {
                                        e.conflicts
                                    },
                                    ..e
                                },
                            },
                            None => Edit {
                                iters,
                                line,
                                replaced,
                                prev: if s.partial.is_none() {
                                    Some(found)
                                } else {
                                    None
                                },
                                ..e
                            },
                        }
                    },
                }
            },
        }
    }
}

/// The rewriting after the first `n` scanners have looked at the line,
/// one after the other.
pub open spec fn after_scanners(e: Edit, n: nat, file: Seq<u8>, line_no: usize, version: Seq<u8>)
    -> Edit
    decreases n,
{
    if n == 0 {
        e
    } else {
        edit_one(after_scanners(e, (n - 1) as nat, file, line_no, version), n - 1, file, line_no, version)
    }
}

/// The rewriting after the lines from `position` on are looked at and
/// written, where `number` lines were read before.
pub open spec fn after_lines(
    e: Edit,
    data: Seq<u8>,
    position: int,
    number: int,
    file: Seq<u8>,
    version: Seq<u8>,
) -> Edit
    decreases data.len() - position,
{
    if position < 0 || position >= data.len() || e.failed {
        e
    } else {
        proof {
            lemma_index_of(data.skip(position), LF);
        }
        let end = line_end(data, position);
        let line = data.subrange(position, end);
        let looked = after_scanners(
            Edit { line, ..e },
            e.iters.len(),
            file,
            (number + 1) as usize,
            version,
        );
        after_lines(
            Edit { out: looked.out + looked.line, ..looked },
            data,
            end,
            number + 1,
            file,
            version,
        )
    }
}

/// The error of the first of the scans from number `at` on that ended
/// with one.
pub open spec fn first_error(iters: Seq<IterView>, at: int) -> Option<ScanError>
    decreases iters.len() - at,
{
    if at < 0 || at >= iters.len() {
        None
    } else if iters[at].error.is_some() {
        iters[at].error
    } else {
        first_error(iters, at + 1)
    }
}

/// The rewriting at work.
struct Editing<'a> {
    iters: Vec<Iter<'a>>,
    line: Vec<u8>,
    out: Vec<u8>,
    prev: Option<Vec<u8>>,
    conflicts: Vec<Conflict>,
    replaced: Vec<Replaced>,
}

impl<'a> Editing<'a> {
    /// The rewriting, which has not failed.
    spec fn state(&self) -> Edit {
        Edit {
            iters: self.iters.deep_view(),
            line: self.line@,
            out: self.out@,
            prev: match self.prev {
                Some(p) => Some(p@),
                None => None,
            },
            conflicts: self.conflicts.deep_view(),
            replaced: self.replaced.deep_view(),
            failed: false,
        }
    }
}

/// The part of a version that stands at a scanner's place.
pub(crate) fn part_of(scanner: &Scanner, version: &[u8]) -> (r: Option<Vec<u8>>)
    ensures
        match r {
            Some(p) => partial_of(scanner@, version@) == Some(p@),
            None => partial_of(scanner@, version@).is_none(),
        },
{
    match scanner.partial() {
        None => Some(copy_bytes(version)),
        Some(p) => match regex_span(p, version, 0) {
            Ok(Span::At(from, to)) => Some(copy_bytes(&version[from..to])),
            _ => None,
        },
    }
}

/// Lets the scanner of number `k` look at the line.  False where a
/// pattern for a part of the version failed to match.
fn look(e: &mut Editing, k: usize, file: &[u8], line_no: usize, version: &[u8]) -> (ok: bool)
    requires
        k < old(e).iters.len(),
    ensures
        final(e).iters.len() == old(e).iters.len(),
        forall|i: int|
            0 <= i < final(e).iters.len() ==> (#[trigger] final(e).iters[i]).scanner()
                == old(e).iters[i].scanner(),
        ok ==> final(e).state() == edit_one(old(e).state(), k as int, file@, line_no, version@),
        !ok ==> edit_one(old(e).state(), k as int, file@, line_no, version@).failed,
{
    let ghost before = e.state();
    let ghost iters_before = e.iters;
    let found = e.iters[k].line(line_no, e.line.as_slice());
    proof {
        assert(e.iters.deep_view() =~= before.iters.update(k as int, e.iters@[k as int]@));
        assert(iters_before@[k as int]@ == before.iters[k as int]);
        assert forall|i: int| 0 <= i < e.iters.len() implies (#[trigger] e.iters[i]).scanner()
            == iters_before[i].scanner() by {
            if i != k {
                assert(e.iters@[i] == iters_before@[i]);
            }
        }
    }
    match found {
        None => true,
        Some((from, to)) => {
            let scanner = e.iters[k].scanner_of();
            let old_text = copy_bytes(&e.line.as_slice()[from..to]);
            let part = match part_of(scanner, version) {
                Some(p) => p,
                None => {
                    return false;
                },
            };
            let mut line = copy_bytes(&e.line.as_slice()[0..from]);
            append_bytes(&mut line, part.as_slice());
            append_bytes(&mut line, &e.line.as_slice()[to..e.line.len()]);
            let expected = match &e.prev {
                Some(pver) => match part_of(scanner, pver.as_slice()) {
                    Some(c) => Some(c),
                    None => {
                        return false;
                    },
                },
                None => None,
            };
            let ghost replaced_before = e.replaced.deep_view();
            let ghost conflicts_before = e.conflicts.deep_view();
            let note = Replaced {
                file: copy_bytes(file),
                line_no,
                old: copy_bytes(old_text.as_slice()),
                new: part,
                line: copy_bytes(line.as_slice()),
            };
            e.replaced.push(note);
            proof {
                assert(e.replaced.deep_view() =~= replaced_before.push(note@));
            }
            match expected {
                Some(c) => {
                    if !same_bytes(c.as_slice(), old_text.as_slice()) {
                        let conflict = Conflict {
                            file: copy_bytes(file),
                            line_no,
                            found: old_text,
                            expected: c,
                        };
                        e.conflicts.push(conflict);
                        proof {
                            assert(e.conflicts.deep_view() =~= conflicts_before.push(conflict@));
                        }
                    }
                },
                None => {
                    if scanner.partial().is_none() {
                        e.prev = Some(old_text);
                    }
                },
            }
            e.line = line;
            true
        },
    }
}

/// Why the version could not be written.
#[derive(Debug)]
pub enum SetError {
    /// A pattern of the configuration is no regular expression.
    Pattern(PatternError),
    /// A scan met an error.
    Scan(ScanError),
    /// A pattern for a part of the version does not match the version.
    PartialMismatch,
    /// The files did not agree on the version, and agreement was asked
    /// for; the last of the conflicts.
    Conflict(Conflict),
    /// No file holds a version number where the version stands in full.
    NoVersion,
}

/// What an error holds.
pub enum SetErrorView {
    Pattern(PatternError),
    Scan(ScanError),
    PartialMismatch,
    Conflict(ConflictView),
    NoVersion,
}

impl View for SetError {
    type V = SetErrorView;

    open spec fn view(&self) -> SetErrorView {
        match self {
            SetError::Pattern(e) => SetErrorView::Pattern(*e),
            SetError::Scan(e) => SetErrorView::Scan(*e),
            SetError::PartialMismatch => SetErrorView::PartialMismatch,
            SetError::Conflict(c) => SetErrorView::Conflict(c@),
            SetError::NoVersion => SetErrorView::NoVersion,
        }
    }
}

/// The files that were written anew, and what happened on the way.
#[derive(Debug)]
pub struct Rewrite {
    /// The version that the files held.
    pub previous: Vec<u8>,
    /// The files as they are to be written, in the order in which the
    /// configuration names them first.
    pub files: Vec<DiskFile>,
    pub replaced: Vec<Replaced>,
    pub conflicts: Vec<Conflict>,
}

/// What a rewriting holds.
pub struct RewriteView {
    pub previous: Seq<u8>,
    pub files: Seq<DiskFileView>,
    pub replaced: Seq<ReplacedView>,
    pub conflicts: Seq<ConflictView>,
}

impl View for Rewrite {
    type V = RewriteView;

    open spec fn view(&self) -> RewriteView {
        RewriteView {
            previous: self.previous@,
            files: self.files.deep_view(),
            replaced: self.replaced.deep_view(),
            conflicts: self.conflicts.deep_view(),
        }
    }
}

/// A file and the places of the configuration that name it, by their
/// numbers, once for each naming.
#[derive(Debug)]
pub struct Group {
    pub name: Vec<u8>,
    pub owners: Vec<usize>,
}

/// What a group holds.
pub struct GroupView {
    pub name: Seq<u8>,
    pub owners: Seq<usize>,
}

impl View for Group {
    type V = GroupView;

    open spec fn view(&self) -> GroupView {
        GroupView { name: self.name@, owners: self.owners@ }
    }
}

impl DeepView for Group {
    type V = GroupView;

    open spec fn deep_view(&self) -> GroupView {
        self@
    }
}

/// The number of the first group of the given name; the number of groups
/// where there is none.
pub open spec fn group_index(groups: Seq<GroupView>, name: Seq<u8>) -> int
    decreases groups.len(),
{
    if groups.len() == 0 || groups[0].name == name {
        0
    } else {
        1 + group_index(groups.drop_first(), name)
    }
}

/// The groups after the place of number `owner` names a file.
pub open spec fn add_to(groups: Seq<GroupView>, name: Seq<u8>, owner: usize) -> Seq<GroupView> {
    let g = group_index(groups, name);
    if 0 <= g < groups.len() {
        groups.update(g, GroupView { owners: groups[g].owners.push(owner), ..groups[g] })
    } else {
        groups.push(GroupView { name, owners: seq![owner] })
    }
}

/// The groups after the place of number `owner` names the first `n` of
/// the files.
pub open spec fn grouped_files(groups: Seq<GroupView>, files: Seq<Seq<u8>>, n: nat, owner: usize)
    -> Seq<GroupView>
    decreases n,
{
    if n == 0 {
        groups
    } else {
        add_to(grouped_files(groups, files, (n - 1) as nat, owner), files[n - 1], owner)
    }
}

/// The files that the first `n` places of a configuration name, each with
/// the places that name it.
pub open spec fn grouped(holders: Seq<VersionHolder>, n: nat) -> Seq<GroupView>
    decreases n,
{
    if n == 0 {
        Seq::empty()
    } else {
        grouped_files(
            grouped(holders, (n - 1) as nat),
            holder_files(holders[n - 1]),
            holder_files(holders[n - 1]).len(),
            (n - 1) as usize,
        )
    }
}

/// The fault of the first of the places from number `at` on that has a
/// pattern which is no regular expression.
pub open spec fn first_fault(holders: Seq<VersionHolder>, at: int) -> Option<PatternError>
    decreases holders.len() - at,
{
    if at < 0 || at >= holders.len() {
        None
    } else if pattern_fault(holder_patterns(holders[at])).is_some() {
        pattern_fault(holder_patterns(holders[at]))
    } else {
        first_fault(holders, at + 1)
    }
}

/// How far the rewriting of the files has come.
pub struct Progress {
    pub prev: Option<Seq<u8>>,
    pub conflicts: Seq<ConflictView>,
    pub replaced: Seq<ReplacedView>,
    pub files: Seq<DiskFileView>,
    pub failed: Option<SetErrorView>,
}

/// The scans of a file at their beginning, one for each naming of the
/// file.
pub open spec fn scans_of(holders: Seq<VersionHolder>, owners: Seq<usize>) -> Seq<IterView> {
    Seq::new(owners.len(), |i: int| scan_start(holder_patterns(holders[owners[i] as int])))
}

/// The rewriting of the files after one more file, which holds `data`, is
/// written anew.
pub open spec fn after_file(
    p: Progress,
    iters: Seq<IterView>,
    file: Seq<u8>,
    data: Seq<u8>,
    version: Seq<u8>,
) -> Progress {
    if p.failed.is_some() {
        p
    } else {
        let e = after_lines(
            Edit {
                iters,
                line: Seq::empty(),
                out: Seq::empty(),
                prev: p.prev,
                conflicts: p.conflicts,
                replaced: p.replaced,
                failed: false,
            },
            data,
            0,
            0,
            file,
            version,
        );
        if e.failed {
            Progress { failed: Some(SetErrorView::PartialMismatch), ..p }
        } else {
            match first_error(e.iters, 0) {
                Some(err) => Progress { failed: Some(SetErrorView::Scan(err)), ..p },
                None => Progress {
                    prev: e.prev,
                    conflicts: e.conflicts,
                    replaced: e.replaced,
                    files: p.files.push(DiskFileView { path: file, contents: e.out }),
                    failed: None,
                },
            }
        }
    }
}

/// The rewriting of the files after the first `n` groups; files that are
/// not on `disk` are passed over.
pub open spec fn after_groups(
    groups: Seq<GroupView>,
    n: nat,
    holders: Seq<VersionHolder>,
    disk: Seq<DiskFileView>,
    version: Seq<u8>,
) -> Progress
    decreases n,
{
    if n == 0 {
        Progress {
            prev: None,
            conflicts: Seq::empty(),
            replaced: Seq::empty(),
            files: Seq::empty(),
            failed: None,
        }
    } else {
        let p = after_groups(groups, (n - 1) as nat, holders, disk, version);
        let g = groups[n - 1];
        match found_on(disk, g.name) {
            None => p,
            Some(data) => after_file(p, scans_of(holders, g.owners), g.name, data, version),
        }
    }
}

/// The files of a project with another version written where the version
/// stands, or why that cannot be.
///
/// The patterns of all places must be regular expressions.  The files are
/// taken in the order in which the configuration names them first, each
/// with the scanners of the places that name it.  A version number must
/// be found where the version stands in full.  Conflicts are an error
/// unless `force` is set.
pub open spec fn rewritten(
    holders: Seq<VersionHolder>,
    disk: Seq<DiskFileView>,
    version: Seq<u8>,
    force: bool,
) -> Result<RewriteView, SetErrorView> {
    match first_fault(holders, 0) {
        Some(e) => Err(SetErrorView::Pattern(e)),
        None => {
            let groups = grouped(holders, holders.len());
            let p = after_groups(groups, groups.len(), holders, disk, version);
            match p.failed {
                Some(e) => Err(e),
                None => match p.prev {
                    None => Err(SetErrorView::NoVersion),
                    Some(previous) => if !force && p.conflicts.len() > 0 {
                        Err(SetErrorView::Conflict(p.conflicts.last()))
                    } else {
                        Ok(
                            RewriteView {
                                previous,
                                files: p.files,
                                replaced: p.replaced,
                                conflicts: p.conflicts,
                            },
                        )
                    },
                },
            }
        },
    }
}

/// Lets all scanners look at the line, one after the other.
fn look_all(e: &mut Editing, file: &[u8], line_no: usize, version: &[u8]) -> (ok: bool)
    ensures
        final(e).iters.len() == old(e).iters.len(),
        forall|i: int|
            0 <= i < final(e).iters.len() ==> (#[trigger] final(e).iters[i]).scanner()
                == old(e).iters[i].scanner(),
        ok ==> final(e).state() == after_scanners(
            old(e).state(),
            old(e).iters.len() as nat,
            file@,
            line_no,
            version@,
        ),
        !ok ==> after_scanners(
            old(e).state(),
            old(e).iters.len() as nat,
            file@,
            line_no,
            version@,
        ).failed,
{
    let n = e.iters.len();
    let mut k: usize = 0;
    while k < n
        invariant
            0 <= k <= n,
            n == e.iters.len(),
            n == old(e).iters.len(),
            forall|i: int|
                0 <= i < n ==> (#[trigger] e.iters[i]).scanner() == old(e).iters[i].scanner(),
            e.state() == after_scanners(old(e).state(), k as nat, file@, line_no, version@),
        decreases n - k,
    {
        if !look(e, k, file, line_no, version) {
            proof {
                lemma_failed_scanners(
                    old(e).state(),
                    (k + 1) as nat,
                    n as nat,
                    file@,
                    line_no,
                    version@,
                );
            }
            return false;
        }
        k += 1;
    }
    true
}

/// A rewriting that has failed stays as it is.
proof fn lemma_failed_scanners(
    e: Edit,
    k: nat,
    n: nat,
    file: Seq<u8>,
    line_no: usize,
    version: Seq<u8>,
)
    requires
        k <= n,
        after_scanners(e, k, file, line_no, version).failed,
    ensures
        after_scanners(e, n, file, line_no, version).failed,
    decreases n - k,
{
    if k < n {
        lemma_failed_scanners(e, k + 1, n, file, line_no, version);
    }
}

/// The error of the first of the scans that ended with one.
fn scan_error(iters: &Vec<Iter>) -> (r: Option<ScanError>)
    ensures
        r == first_error(iters.deep_view(), 0),
{
    let ghost all = iters.deep_view();
    let mut k: usize = 0;
    while k < iters.len()
        invariant
            0 <= k <= iters.len(),
            all == iters.deep_view(),
            first_error(all, k as int) == first_error(all, 0),
        decreases iters.len() - k,
    {
        let e = iters[k].failure();
        if e.is_some() {
            return e;
        }
        k += 1;
    }
    None
}

/// The rewriting of the files at work.
struct Working {
    prev: Option<Vec<u8>>,
    conflicts: Vec<Conflict>,
    replaced: Vec<Replaced>,
    files: Vec<DiskFile>,
}

impl Working {
    /// How far the rewriting has come, without failure.
    spec fn state(&self) -> Progress {
        Progress {
            prev: match self.prev {
                Some(p) => Some(p@),
                None => None,
            },
            conflicts: self.conflicts.deep_view(),
            replaced: self.replaced.deep_view(),
            files: self.files.deep_view(),
            failed: None,
        }
    }
}

/// Writes one file anew.
fn edit_file<'a>(
    w: &mut Working,
    iters: Vec<Iter<'a>>,
    file: &[u8],
    data: &Vec<u8>,
    version: &[u8],
) -> (r: Result<(), SetError>)
    ensures
        match r {
            Ok(()) => final(w).state() == after_file(
                old(w).state(),
                iters.deep_view(),
                file@,
                data@,
                version@,
            ),
            Err(e) => after_file(old(w).state(), iters.deep_view(), file@, data@, version@).failed
                == Some(e@),
        },
{
    let mut e = Editing {
        iters,
        line: Vec::new(),
        out: Vec::new(),
        prev: None,
        conflicts: Vec::new(),
        replaced: Vec::new(),
    };
    core::mem::swap(&mut e.prev, &mut w.prev);
    core::mem::swap(&mut e.conflicts, &mut w.conflicts);
    core::mem::swap(&mut e.replaced, &mut w.replaced);
    let ghost start = e.state();
    let ghost files_before = w.files.deep_view();
    let ghost n = iters.len();
    proof {
        assert(start.line =~= Seq::<u8>::empty());
        assert(start.out =~= Seq::<u8>::empty());
    }
    let ghost goal = after_file(old(w).state(), iters.deep_view(), file@, data@, version@);
    let ghost whole = after_lines(start, data@, 0, 0, file@, version@);
    proof {
        assert(start == Edit {
            iters: iters.deep_view(),
            line: Seq::empty(),
            out: Seq::empty(),
            prev: old(w).state().prev,
            conflicts: old(w).state().conflicts,
            replaced: old(w).state().replaced,
            failed: false,
        });
    }
    let mut lines = Lines::iter(copy_bytes(data.as_slice()));
    loop
        invariant
            lines.data() == data@,
            0 <= lines.position() <= data@.len(),
            e.iters.len() == n,
            w.files.deep_view() == files_before,
            whole == after_lines(start, data@, 0, 0, file@, version@),
            goal == after_file(old(w).state(), iters.deep_view(), file@, data@, version@),
            start == (Edit {
                iters: iters.deep_view(),
                line: Seq::empty(),
                out: Seq::empty(),
                prev: old(w).state().prev,
                conflicts: old(w).state().conflicts,
                replaced: old(w).state().replaced,
                failed: false,
            }),
            after_lines(e.state(), data@, lines.position(), lines.number(), file@, version@)
                == whole,
        ensures
            lines.position() == data@.len(),
            e.iters.len() == n,
            w.files.deep_view() == files_before,
            after_lines(e.state(), data@, lines.position(), lines.number(), file@, version@)
                == whole,
        decreases data@.len() - lines.position(),
    {
        let ghost before = lines.position();
        let ghost count = lines.number();
        let ghost state = e.state();
        match lines.next() {
            None => {
                break ;
            },
            Some((number, line)) => {
                proof {
                    lemma_index_of(data@.skip(before), LF);
                }
                e.line = line;
                let ghost fresh = e.state();
                proof {
                    assert(fresh == Edit { line: line@, ..state });
                }
                if !look_all(&mut e, file, number, version) {
                    proof {
                        let looked = after_scanners(
                            fresh,
                            fresh.iters.len(),
                            file@,
                            number,
                            version@,
                        );
                        assert(looked.failed);
                        assert(after_lines(
                            Edit { out: looked.out + looked.line, ..looked },
                            data@,
                            lines.position(),
                            count + 1,
                            file@,
                            version@,
                        ).failed);
                        assert(whole.failed);
                        assert(goal.failed == Some(SetErrorView::PartialMismatch));
                    }
                    return Err(SetError::PartialMismatch);
                }
                let ghost looked = e.state();
                let text = copy_bytes(e.line.as_slice());
                append_bytes(&mut e.out, text.as_slice());
                proof {
                    assert(e.state() == Edit { out: looked.out + looked.line, ..looked });
                }
            },
        }
    }
    proof {
        assert(whole == e.state());
        assert(!whole.failed);
    }
    match scan_error(&e.iters) {
        Some(err) => {
            return Err(SetError::Scan(err));
        },
        None => {},
    }
    w.prev = e.prev;
    w.conflicts = e.conflicts;
    w.replaced = e.replaced;
    let written = DiskFile { path: copy_bytes(file), contents: e.out };
    w.files.push(written);
    proof {
        assert(w.files.deep_view() =~= files_before.push(written@));
    }
    Ok(())
}

/// The scanners of all places of a configuration.
fn build_scanners(cfg: &Config) -> (r: Result<Vec<Scanner>, PatternError>)
    ensures
        match r {
            Ok(v) => first_fault(cfg.versions@, 0).is_none() && v.len() == cfg.versions.len()
                && forall|k: int|
                0 <= k < v.len() ==> (#[trigger] v[k])@ == holder_patterns(cfg.versions@[k]),
            Err(e) => first_fault(cfg.versions@, 0) == Some(e),
        },
{
    let mut out: Vec<Scanner> = Vec::new();
    let mut i: usize = 0;
    while i < cfg.versions.len()
        invariant
            0 <= i <= cfg.versions.len(),
            out.len() == i,
            forall|k: int| 0 <= k < i ==> (#[trigger] out[k])@ == holder_patterns(cfg.versions@[k]),
            first_fault(cfg.versions@, i as int) == first_fault(cfg.versions@, 0),
        decreases cfg.versions.len() - i,
    {
        match Scanner::new(&cfg.versions[i]) {
            Ok(s) => {
                out.push(s);
            },
            Err(e) => {
                return Err(e);
            },
        }
        i += 1;
    }
    Ok(out)
}

/// The number of the first group of the given name.
fn find_group(groups: &Vec<Group>, name: &[u8]) -> (r: usize)
    ensures
        r == group_index(groups.deep_view(), name@),
        r <= groups.len(),
{
    let ghost all = groups.deep_view();
    let mut i: usize = 0;
    proof {
        assert(all.skip(0) =~= all);
    }
    while i < groups.len()
        invariant
            0 <= i <= groups.len(),
            all == groups.deep_view(),
            group_index(all, name@) == i + group_index(all.skip(i as int), name@),
        decreases groups.len() - i,
    {
        proof {
            assert(all.skip(i as int)[0] == groups@[i as int]@);
            assert(all.skip(i as int).drop_first() =~= all.skip(i + 1));
        }
        if same_bytes(groups[i].name.as_slice(), name) {
            return i;
        }
        i += 1;
    }
    proof {
        assert(all.skip(i as int) =~= Seq::<GroupView>::empty());
    }
    i
}

/// The files that a configuration names, each with the places that name
/// it.
fn group_files(cfg: &Config) -> (r: Vec<Group>)
    ensures
        r.deep_view() == grouped(cfg.versions@, cfg.versions@.len()),
        forall|g: int, k: int|
            0 <= g < r.len() && 0 <= k < r[g].owners.len() ==> (#[trigger] r[g].owners[k])
                < cfg.versions.len(),
{
    let mut groups: Vec<Group> = Vec::new();
    let mut i: usize = 0;
    proof {
        assert(groups.deep_view() =~= grouped(cfg.versions@, 0));
    }
    while i < cfg.versions.len()
        invariant
            0 <= i <= cfg.versions.len(),
            groups.deep_view() == grouped(cfg.versions@, i as nat),
            forall|g: int, k: int|
                0 <= g < groups.len() && 0 <= k < groups[g].owners.len() ==> (
                #[trigger] groups[g].owners[k]) < cfg.versions.len(),
        decreases cfg.versions.len() - i,
    {
        let files = files_of(&cfg.versions[i]);
        let ghost names = files.deep_view();
        let ghost start = groups.deep_view();
        let mut j: usize = 0;
        while j < files.len()
            invariant
                0 <= j <= files.len(),
                0 <= i < cfg.versions.len(),
                names == files.deep_view(),
                groups.deep_view() == grouped_files(start, names, j as nat, i),
                forall|g: int, k: int|
                    0 <= g < groups.len() && 0 <= k < groups[g].owners.len() ==> (
                    #[trigger] groups[g].owners[k]) < cfg.versions.len(),
            decreases files.len() - j,
        {
            proof {
                assert(files@[j as int].deep_view() =~= files@[j as int]@);
            }
            let ghost before = groups.deep_view();
            let ghost before_vec = groups;
            let g = find_group(&groups, files[j].as_slice());
            if g < groups.len() {
                groups[g].owners.push(i);
                proof {
                    assert(groups@[g as int]@ == GroupView {
                        owners: before[g as int].owners.push(i),
                        ..before[g as int]
                    });
                    assert forall|x: int| 0 <= x < groups.len() && x != g implies groups@[x]
                        == before_vec@[x] by {}
                    assert(groups.deep_view() =~= add_to(before, names[j as int], i));
                }
            } else {
                let mut owners: Vec<usize> = Vec::new();
                owners.push(i);
                let fresh = Group { name: copy_bytes(files[j].as_slice()), owners };
                groups.push(fresh);
                proof {
                    assert(fresh@.owners =~= seq![i]);
                    assert(groups.deep_view() =~= add_to(before, names[j as int], i));
                }
            }
            j += 1;
        }
        i += 1;
    }
    groups
}

/// Begins the scans of a file, one for each naming of the file.
fn start_all<'a>(scanners: &'a Vec<Scanner>, owners: &Vec<usize>, holders: Ghost<
    Seq<VersionHolder>,
>) -> (r: Vec<Iter<'a>>)
    requires
        scanners.len() == holders@.len(),
        forall|k: int|
            0 <= k < scanners.len() ==> (#[trigger] scanners[k])@ == holder_patterns(holders@[k]),
        forall|k: int| 0 <= k < owners.len() ==> (#[trigger] owners[k]) < scanners.len(),
    ensures
        r.deep_view() == scans_of(holders@, owners@),
{
    let mut out: Vec<Iter<'a>> = Vec::new();
    let mut k: usize = 0;
    while k < owners.len()
        invariant
            0 <= k <= owners.len(),
            scanners.len() == holders@.len(),
            forall|x: int|
                0 <= x < scanners.len() ==> (#[trigger] scanners[x])@ == holder_patterns(
                    holders@[x],
                ),
            forall|x: int| 0 <= x < owners.len() ==> (#[trigger] owners[x]) < scanners.len(),
            out.len() == k,
            forall|x: int|
                0 <= x < k ==> (#[trigger] out[x])@ == scan_start(
                    holder_patterns(holders@[owners[x] as int]),
                ),
        decreases owners.len() - k,
    {
        let it = scanners[owners[k]].start();
        out.push(it);
        k += 1;
    }
    proof {
        assert(out.deep_view() =~= scans_of(holders@, owners@));
    }
    out
}

/// Writes another version where the version stands in a project's files.
///
/// `disk` holds the files that the configuration names, as far as they
/// exist.  Nothing is written to them: the files as they are to be are
/// handed out.
pub fn rewrite(cfg: &Config, disk: &Disk, version: &[u8], force: bool) -> (r: Result<
    Rewrite,
    SetError,
>)
    ensures
        match r {
            Ok(w) => rewritten(cfg.versions@, disk@, version@, force) == Ok::<
                RewriteView,
                SetErrorView,
            >(w@),
            Err(e) => rewritten(cfg.versions@, disk@, version@, force) == Err::<
                RewriteView,
                SetErrorView,
            >(e@),
        },
{
    let scanners = match build_scanners(cfg) {
        Ok(s) => s,
        Err(e) => {
            return Err(SetError::Pattern(e));
        },
    };
    let groups = group_files(cfg);
    let ghost all = groups.deep_view();
    let mut w = Working {
        prev: None,
        conflicts: Vec::new(),
        replaced: Vec::new(),
        files: Vec::new(),
    };
    proof {
        assert(w.state().conflicts =~= Seq::empty());
        assert(w.state().replaced =~= Seq::empty());
        assert(w.state().files =~= Seq::empty());
    }
    let mut i: usize = 0;
    while i < groups.len()
        invariant
            0 <= i <= groups.len(),
            all == groups.deep_view(),
            all == grouped(cfg.versions@, cfg.versions@.len()),
            first_fault(cfg.versions@, 0).is_none(),
            scanners.len() == cfg.versions@.len(),
            forall|k: int|
                0 <= k < scanners.len() ==> (#[trigger] scanners[k])@ == holder_patterns(
                    cfg.versions@[k],
                ),
            forall|g: int, k: int|
                0 <= g < groups.len() && 0 <= k < groups[g].owners.len() ==> (
                #[trigger] groups[g].owners[k]) < cfg.versions.len(),
            w.state() == after_groups(all, i as nat, cfg.versions@, disk@, version@),
        decreases groups.len() - i,
    {
        let group = &groups[i];
        proof {
            assert(all[i as int] == group@);
        }
        match disk.get(group.name.as_slice()) {
            None => {},
            Some(data) => {
                let iters = start_all(&scanners, &group.owners, Ghost(cfg.versions@));
                match edit_file(&mut w, iters, group.name.as_slice(), data, version) {
                    Ok(()) => {},
                    Err(e) => {
                        proof {
                            lemma_failed_groups(
                                all,
                                (i + 1) as nat,
                                all.len(),
                                cfg.versions@,
                                disk@,
                                version@,
                            );
                        }
                        return Err(e);
                    },
                }
            },
        }
        i += 1;
    }
    match w.prev {
        None => Err(SetError::NoVersion),
        Some(previous) => {
            if !force && w.conflicts.len() > 0 {
                let last = w.conflicts.pop().unwrap();
                Err(SetError::Conflict(last))
            } else {
                Ok(
                    Rewrite {
                        previous,
                        files: w.files,
                        replaced: w.replaced,
                        conflicts: w.conflicts,
                    },
                )
            }
        },
    }
}

/// A rewriting of the files that has failed stays as it is.
proof fn lemma_failed_groups(
    groups: Seq<GroupView>,
    k: nat,
    n: nat,
    holders: Seq<VersionHolder>,
    disk: Seq<DiskFileView>,
    version: Seq<u8>,
)
    requires
        k <= n,
        after_groups(groups, k, holders, disk, version).failed.is_some(),
    ensures
        after_groups(groups, n, holders, disk, version) == after_groups(
            groups,
            k,
            holders,
            disk,
            version,
        ),
    decreases n - k,
{
    if k < n {
        lemma_failed_groups(groups, k, (n - 1) as nat, holders, disk, version);
    }
}

} // verus!
