//! Finding and changing the version number in a project's files.

use vstd::prelude::*;
use crate::config::{Config, VersionHolder};
use crate::repo::disk::{found_on, Disk, DiskFileView};
use crate::text::{copy_bytes, index_of, lemma_index_of};
use crate::ver::scanner::{
    holder_patterns, line_end, pattern_fault, scan_start, stepped, IterView, Lines, PatternError,
    ScanError, Scanner, ScannerView,
};
use crate::version::Version;

pub mod bump;
pub mod check;
pub mod commit;
pub mod parse;
pub mod rewrite;
pub mod scanner;

verus! {

/// Why no version was found.
#[derive(Clone, Copy, Debug, PartialEq, Eq, Structural)]
pub enum GetError {
    /// A pattern of the configuration is no regular expression.
    Pattern(PatternError),
    /// A scan met an error.
    Scan(ScanError),
    /// No file holds a version number where the configuration says.
    NotFound,
}

/// The files in which a version number stands: the single one, where
/// there is one, and then the others.
pub open spec fn holder_files(h: VersionHolder) -> Seq<Seq<u8>> {
    (match h.file {
        Some(f) => seq![f@],
        None => Seq::empty(),
    }) + h.files.deep_view()
}

/// The first version number that a scan finds in a file from `position`
/// on, where `number` lines were read before; none where it comes to the
/// end without one; the error of the scan where it ends with one.
pub open spec fn scanned(it: IterView, data: Seq<u8>, position: int, number: int) -> Result<
    Option<Seq<u8>>,
    ScanError,
>
    decreases data.len() - position,
{
    if position < 0 || position >= data.len() {
        match it.error {
            Some(e) => Err(e),
            None => Ok(None),
        }
    } else {
        proof {
            lemma_index_of(data.skip(position), crate::deb_ext::LF);
        }
        let end = line_end(data, position);
        let line = data.subrange(position, end);
        let next = stepped(it, (number + 1) as usize, line);
        match next.1 {
            Some((from, to)) => Ok(Some(line.subrange(from as int, to as int))),
            None => scanned(next.0, data, end, number + 1),
        }
    }
}

/// The first version number that a scanner finds in the files from number
/// `at` on; files that are not on `disk` are passed over.
pub open spec fn found_in(s: ScannerView, files: Seq<Seq<u8>>, at: int, disk: Seq<DiskFileView>)
    -> Result<Option<Seq<u8>>, ScanError>
    decreases files.len() - at,
{
    if at < 0 || at >= files.len() {
        Ok(None)
    } else {
        match found_on(disk, files[at]) {
            None => found_in(s, files, at + 1, disk),
            Some(data) => match scanned(scan_start(s), data, 0, 0) {
                Err(e) => Err(e),
                Ok(Some(v)) => Ok(Some(v)),
                Ok(None) => found_in(s, files, at + 1, disk),
            },
        }
    }
}

/// The version of a project: the first version number found at the places
/// from number `at` on where the configuration says one stands in full.
pub open spec fn version_in(holders: Seq<VersionHolder>, at: int, disk: Seq<DiskFileView>)
    -> Result<Seq<u8>, GetError>
    decreases holders.len() - at,
{
    if at < 0 || at >= holders.len() {
        Err(GetError::NotFound)
    } else if holders[at].partial_version.is_some() {
        version_in(holders, at + 1, disk)
    } else {
        match pattern_fault(holder_patterns(holders[at])) {
            Some(e) => Err(GetError::Pattern(e)),
            None => match found_in(
                holder_patterns(holders[at]),
                holder_files(holders[at]),
                0,
                disk,
            ) {
                Err(e) => Err(GetError::Scan(e)),
                Ok(Some(v)) => Ok(v),
                Ok(None) => version_in(holders, at + 1, disk),
            },
        }
    }
}

/// The files in which a version number stands.
pub(crate) fn files_of(h: &VersionHolder) -> (r: Vec<Vec<u8>>)
    ensures
        r.deep_view() == holder_files(*h),
{
    let mut out: Vec<Vec<u8>> = Vec::new();
    match &h.file {
        Some(f) => {
            let c = copy_bytes(f.as_slice());
            out.push(c);
            proof {
                assert(c.deep_view() =~= c@);
                assert(out.deep_view() =~= seq![f@]);
            }
        },
        None => {
            proof {
                assert(out.deep_view() =~= Seq::<Seq<u8>>::empty());
            }
        },
    }
    let ghost head = out.deep_view();
    let ghost all = h.files.deep_view();
    let mut i: usize = 0;
    proof {
        assert(out.deep_view() =~= head + all.subrange(0, 0));
    }
    while i < h.files.len()
        invariant
            0 <= i <= h.files.len(),
            all == h.files.deep_view(),
            out.deep_view() == head + all.subrange(0, i as int),
        decreases h.files.len() - i,
    {
        let c = copy_bytes(h.files[i].as_slice());
        let ghost before = out.deep_view();
        out.push(c);
        proof {
            assert(c.deep_view() =~= c@);
            assert(h.files@[i as int].deep_view() =~= h.files@[i as int]@);
            assert(out.deep_view() =~= before.push(c@));
            assert(out.deep_view() =~= head + all.subrange(0, i + 1));
        }
        i += 1;
    }
    proof {
        assert(all.subrange(0, all.len() as int) =~= all);
    }
    out
}

/// The first version number that a scanner finds in a file.
fn scan_file(scanner: &Scanner, data: &Vec<u8>) -> (r: Result<Option<Vec<u8>>, ScanError>)
    ensures
        match r {
            Ok(Some(v)) => scanned(scan_start(scanner@), data@, 0, 0) == Ok::<
                Option<Seq<u8>>,
                ScanError,
            >(Some(v@)),
            Ok(None) => scanned(scan_start(scanner@), data@, 0, 0) == Ok::<
                Option<Seq<u8>>,
                ScanError,
            >(None),
            Err(e) => scanned(scan_start(scanner@), data@, 0, 0) == Err::<
                Option<Seq<u8>>,
                ScanError,
            >(e),
        },
{
    let mut iter = scanner.start();
    let mut lines = Lines::iter(copy_bytes(data.as_slice()));
    loop
        invariant
            lines.data() == data@,
            0 <= lines.position() <= data@.len(),
            scanned(iter@, data@, lines.position(), lines.number()) == scanned(
                scan_start(scanner@),
                data@,
                0,
                0,
            ),
        decreases data@.len() - lines.position(),
    {
        let ghost before = lines.position();
        match lines.next() {
            None => {
                return match iter.error() {
                    Ok(()) => Ok(None),
                    Err(e) => Err(e),
                };
            },
            Some((number, line)) => {
                proof {
                    lemma_index_of(data@.skip(before), crate::deb_ext::LF);
                }
                match iter.line(number, line.as_slice()) {
                    Some((from, to)) => {
                        return Ok(Some(copy_bytes(&line.as_slice()[from..to])));
                    },
                    None => {},
                }
            },
        }
    }
}

/// The version of a project, as its files hold it.
///
/// `disk` holds the files that the configuration names, as far as they
/// exist.  The places where only part of the version stands are passed
/// over.
pub fn get(cfg: &Config, disk: &Disk) -> (r: Result<Version, GetError>)
    ensures
        match r {
            Ok(v) => version_in(cfg.versions@, 0, disk@) == Ok::<Seq<u8>, GetError>(v@),
            Err(e) => version_in(cfg.versions@, 0, disk@) == Err::<Seq<u8>, GetError>(e),
        },
{
    let mut i: usize = 0;
    while i < cfg.versions.len()
        invariant
            0 <= i <= cfg.versions.len(),
            version_in(cfg.versions@, i as int, disk@) == version_in(cfg.versions@, 0, disk@),
        decreases cfg.versions.len() - i,
    {
        let item = &cfg.versions[i];
        if item.partial_version.is_none() {
            let scanner = match Scanner::new(item) {
                Ok(s) => s,
                Err(e) => {
                    return Err(GetError::Pattern(e));
                },
            };
            let files = files_of(item);
            let ghost names = files.deep_view();
            let mut j: usize = 0;
            while j < files.len()
                invariant
                    0 <= j <= files.len(),
                    names == files.deep_view(),
                    names == holder_files(*item),
                    scanner@ == holder_patterns(*item),
                    pattern_fault(holder_patterns(*item)).is_none(),
                    item == cfg.versions@[i as int],
                    0 <= i < cfg.versions.len(),
                    item.partial_version.is_none(),
                    version_in(cfg.versions@, i as int, disk@) == version_in(
                        cfg.versions@,
                        0,
                        disk@,
                    ),
                    found_in(scanner@, names, j as int, disk@) == found_in(
                        scanner@,
                        names,
                        0,
                        disk@,
                    ),
                decreases files.len() - j,
            {
                proof {
                    assert(files@[j as int].deep_view() =~= files@[j as int]@);
                }
                match disk.get(files[j].as_slice()) {
                    None => {},
                    Some(data) => match scan_file(&scanner, data) {
                        Err(e) => {
                            return Err(GetError::Scan(e));
                        },
                        Ok(Some(v)) => {
                            return Ok(Version(v));
                        },
                        Ok(None) => {},
                    },
                }
                j += 1;
            }
        }
        i += 1;
    }
    Err(GetError::NotFound)
}

} // verus!
