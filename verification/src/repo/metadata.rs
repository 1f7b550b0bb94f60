//! What is known of a package before it goes into a repository.

use vstd::prelude::*;
use vstd::string::*;
use std::io::Read;
use crate::config::{self, Config, RepositoryType};
use crate::order::ascending;
use crate::re::{regex_named, regex_named_group, regex_valid, Group, GroupView};
use crate::repo::ar::{read_member, ArError, Archive, MemberRead};
use crate::repo::deb::{
    lookup, parse_control, parsed, without, ControlError, ControlRecord, Field, FieldView,
};
use crate::repo::paths::{base_name, file_name, stem_len};
use crate::text::{copy_bytes, same_bytes, trim, trimmed};

verus! {

/// What a package file says of itself.
#[derive(Debug)]
pub struct PackageMeta {
    pub kind: RepositoryType,
    /// The path of the package file.
    pub filename: Vec<u8>,
    pub name: Vec<u8>,
    pub arch: Vec<u8>,
    pub version: Vec<u8>,
    /// The fields of the package's control data, but for name, architecture
    /// and version.
    pub info: ControlRecord,
}

/// What a package's metadata holds.
pub struct PackageMetaView {
    pub kind: RepositoryType,
    pub filename: Seq<u8>,
    pub name: Seq<u8>,
    pub arch: Seq<u8>,
    pub version: Seq<u8>,
    pub info: Seq<FieldView>,
}

impl View for PackageMeta {
    type V = PackageMetaView;

    open spec fn view(&self) -> PackageMetaView {
        PackageMetaView {
            kind: self.kind,
            filename: self.filename@,
            name: self.name@,
            arch: self.arch@,
            version: self.version@,
            info: self.info@,
        }
    }
}

impl DeepView for PackageMeta {
    type V = PackageMetaView;

    open spec fn deep_view(&self) -> PackageMetaView {
        self@
    }
}

impl PackageMeta {
    /// The fields of the control data stand in the order of their keys.
    pub open spec fn wf(&self) -> bool {
        ascending::<Field>(self@.info)
    }
}

#[verifier::external_type_specification]
#[verifier::external_body]
pub struct ExIoError(std::io::Error);

/// One entry of a tar archive: its path and what it holds.
#[derive(Debug)]
pub struct TarEntry {
    pub path: Vec<u8>,
    pub data: Vec<u8>,
}

/// What a tar entry holds.
pub struct TarEntryView {
    pub path: Seq<u8>,
    pub data: Seq<u8>,
}

impl View for TarEntry {
    type V = TarEntryView;

    open spec fn view(&self) -> TarEntryView {
        TarEntryView { path: self.path@, data: self.data@ }
    }
}

/// What a gzip stream decompresses to; nothing where it is none.
pub uninterp spec fn gunzipped(data: Seq<u8>) -> Option<Seq<u8>>;

/// The entry of the given number in a tar archive: `Err` where that entry
/// cannot be read; `Ok(None)` where the archive has no such entry, be it
/// past its last entry or past an entry that cannot be read.
pub uninterp spec fn tar_entry_at(data: Seq<u8>, index: nat) -> Result<Option<TarEntryView>, ()>;

/// Calls `libflate::gzip::Decoder::new` on the data and reads the decoder
/// to its end.  Believed, not proved: what comes out depends on the data
/// alone.
#[verifier::external_body]
fn gunzip(data: &[u8]) -> (r: Result<Vec<u8>, std::io::Error>)
    ensures
        match r {
            Ok(v) => gunzipped(data@) == Some(v@),
            Err(_) => gunzipped(data@).is_none(),
        },
{
    let mut decoder = libflate::gzip::Decoder::new(data)?;
    let mut out = Vec::new();
    decoder.read_to_end(&mut out)?;
    Ok(out)
}

/// Calls `tar::Archive::new` on the data, `Archive::entries`, and takes
/// the entry of the given number with its `path_bytes` and all it holds.
/// Believed, not proved: what comes out depends on data and number alone.
#[verifier::external_body]
fn tar_entry(data: &[u8], index: usize) -> (r: Result<Option<TarEntry>, std::io::Error>)
    ensures
        match r {
            Ok(Some(e)) => tar_entry_at(data@, index as nat) == Ok::<Option<TarEntryView>, ()>(
                Some(e@),
            ),
            Ok(None) => tar_entry_at(data@, index as nat) == Ok::<Option<TarEntryView>, ()>(None),
            Err(_) => tar_entry_at(data@, index as nat).is_err(),
        },
{
    let mut archive = tar::Archive::new(data);
    match archive.entries()?.nth(index) {
        None => Ok(None),
        Some(entry) => {
            let mut entry = entry?;
            let path = entry.path_bytes().into_owned();
            let mut data = Vec::new();
            entry.read_to_end(&mut data)?;
            Ok(Some(TarEntry { path, data }))
        },
    }
}

/// Why no metadata could be had from a package file.
#[derive(Debug, Clone, Copy, PartialEq, Eq, Structural)]
pub enum MetaError {
    /// The file is no archive as packages are.
    Archive(ArError),
    /// The member `debian-binary` does not hold `2.0`.
    UnsupportedFormat,
    /// The control archive is no gzip stream.
    Gzip,
    /// The control archive cannot be read.
    Tar,
    /// The control data is no control file.
    Control(ControlError),
    /// The control data holds no record, or more than one.
    WrongControl,
    /// The control data names no package, or an empty name.
    NoPackage,
    /// The control data names no architecture, or an empty one.
    NoArchitecture,
    /// The control data names no version, or an empty one.
    NoVersion,
    /// The control archive has no entry `control`.
    NoMetadata,
    /// The file's name ends neither in `.deb` nor in `.tar.gz`.
    UnknownType,
    /// A pattern for file names is no regular expression.
    BadPattern,
    /// The pattern for file names has no group `name`.
    NoNameGroup,
    /// The pattern for file names has no group `version`.
    NoVersionGroup,
}

impl MetaError {
    /// The error in words.
    pub fn message(&self) -> (r: &'static str)
        ensures
            r@ == match *self {
                MetaError::Archive(ArError::WrongSignature) => "Archive signature is wrong"@,
                MetaError::Archive(ArError::PrematureEnd) => "Premature end of file"@,
                MetaError::Archive(ArError::InvalidFormat) => "Invalid file format"@,
                MetaError::Archive(ArError::UnexpectedMember) => "Unexpected archive member"@,
                MetaError::Archive(ArError::InvalidSize) => "Invalid file size"@,
                MetaError::UnsupportedFormat => "Unsupported deb format"@,
                MetaError::Gzip => "Control archive is not a gzip stream"@,
                MetaError::Tar => "Control archive can't be read"@,
                MetaError::Control(_) => "Bad format of debian control"@,
                MetaError::WrongControl => "Wrong control file in package"@,
                MetaError::NoPackage => "No package name in deb package meta"@,
                MetaError::NoArchitecture => "No architecture in deb package meta"@,
                MetaError::NoVersion => "No version in deb package meta"@,
                MetaError::NoMetadata => "No metadata found"@,
                MetaError::UnknownType => "Unknown package type"@,
                MetaError::BadPattern => "match_filename is not a regular expression"@,
                MetaError::NoNameGroup => "no `name` group in match_filename"@,
                MetaError::NoVersionGroup => "no `version` group in match_filename"@,
            },
    {
        match self {
            MetaError::Archive(e) => e.message(),
            MetaError::UnsupportedFormat => "Unsupported deb format",
            MetaError::Gzip => "Control archive is not a gzip stream",
            MetaError::Tar => "Control archive can't be read",
            MetaError::Control(e) => e.message(),
            MetaError::WrongControl => "Wrong control file in package",
            MetaError::NoPackage => "No package name in deb package meta",
            MetaError::NoArchitecture => "No architecture in deb package meta",
            MetaError::NoVersion => "No version in deb package meta",
            MetaError::NoMetadata => "No metadata found",
            MetaError::UnknownType => "Unknown package type",
            MetaError::BadPattern => "match_filename is not a regular expression",
            MetaError::NoNameGroup => "no `name` group in match_filename",
            MetaError::NoVersionGroup => "no `version` group in match_filename",
        }
    }
}

/// Whether a path of a tar entry is that of the control data: `control`,
/// slashes at its end set aside.
pub open spec fn is_control_path(path: Seq<u8>) -> bool {
    path.subrange(0, stem_len(path) as int) == "control".spec_bytes()
}

/// The fields of a record of control data that stay fields of a
/// package's metadata: all but name, architecture and version, which
/// become attributes of their own.
pub open spec fn other_fields(record: Seq<FieldView>) -> Seq<FieldView> {
    without(
        without(without(record, "Package".spec_bytes()), "Architecture".spec_bytes()),
        "Version".spec_bytes(),
    )
}

/// The metadata that a record of control data gives for the package file
/// at `path`, or why it gives none: name, architecture and version must be
/// there and not empty; they are taken out of the fields.
pub open spec fn meta_of_record(path: Seq<u8>, record: Seq<FieldView>) -> Result<
    PackageMetaView,
    MetaError,
> {
    let name = lookup(record, "Package".spec_bytes());
    let arch = lookup(record, "Architecture".spec_bytes());
    let version = lookup(record, "Version".spec_bytes());
    if name.is_none() || name.unwrap().len() == 0 {
        Err(MetaError::NoPackage)
    } else if arch.is_none() || arch.unwrap().len() == 0 {
        Err(MetaError::NoArchitecture)
    } else if version.is_none() || version.unwrap().len() == 0 {
        Err(MetaError::NoVersion)
    } else {
        Ok(
            PackageMetaView {
                kind: RepositoryType::Debian,
                filename: path,
                name: name.unwrap(),
                arch: arch.unwrap(),
                version: version.unwrap(),
                info: other_fields(record),
            },
        )
    }
}

/// The metadata that control data gives, or why it gives none: it must be
/// a control file of one record.
pub open spec fn meta_of_control(path: Seq<u8>, control: Seq<u8>) -> Result<
    PackageMetaView,
    MetaError,
> {
    match parsed(control) {
        Err(e) => Err(MetaError::Control(e)),
        Ok(records) => if records.len() != 1 {
            Err(MetaError::WrongControl)
        } else {
            meta_of_record(path, records[0])
        },
    }
}

/// The metadata that the entries of a control archive give, from the
/// entry of number `at` on: that of the first entry named `control`.
/// `fuel` bounds the number of entries looked at.
pub open spec fn meta_of_entries(path: Seq<u8>, tar: Seq<u8>, at: nat, fuel: nat) -> Result<
    PackageMetaView,
    MetaError,
>
    decreases fuel,
{
    if fuel == 0 {
        Err(MetaError::NoMetadata)
    } else {
        match tar_entry_at(tar, at) {
            Err(_) => Err(MetaError::Tar),
            Ok(None) => Err(MetaError::NoMetadata),
            Ok(Some(e)) => if is_control_path(e.path) {
                meta_of_control(path, e.data)
            } else {
                meta_of_entries(path, tar, at + 1, (fuel - 1) as nat)
            },
        }
    }
}

/// The metadata of the package file at `path` that holds `data`, or why
/// none can be had.
///
/// The file is an archive whose first member, `debian-binary`, holds
/// `2.0` between white space of ASCII, and whose second, `control.tar.gz`, is a
/// gzip stream of a tar archive.  No more entries of it are looked at
/// than it has bytes.
pub open spec fn meta_of_deb(path: Seq<u8>, data: Seq<u8>) -> Result<PackageMetaView, MetaError> {
    if !(data.len() >= 8 && data.subrange(0, 8) == crate::pack::ar::signature()) {
        Err(MetaError::Archive(ArError::WrongSignature))
    } else {
        match read_member(data, 8, false, "debian-binary".spec_bytes()) {
            Err(e) => Err(MetaError::Archive(e)),
            Ok(first) => if trimmed(first.data) != "2.0".spec_bytes() {
                Err(MetaError::UnsupportedFormat)
            } else {
                match read_member(
                    data,
                    first.position,
                    first.padded,
                    "control.tar.gz".spec_bytes(),
                ) {
                    Err(e) => Err(MetaError::Archive(e)),
                    Ok(second) => match gunzipped(second.data) {
                        None => Err(MetaError::Gzip),
                        Some(tar) => meta_of_entries(path, tar, 0, tar.len()),
                    },
                }
            },
        }
    }
}

/// The metadata that a record of control data gives.
fn meta_from_record(path: &[u8], record: ControlRecord) -> (r: Result<PackageMeta, MetaError>)
    requires
        record.wf(),
    ensures
        match r {
            Ok(m) => m.wf() && meta_of_record(path@, record@) == Ok::<
                PackageMetaView,
                MetaError,
            >(m@),
            Err(e) => meta_of_record(path@, record@) == Err::<PackageMetaView, MetaError>(e),
        },
{
    let name = match record.get("Package".as_bytes()) {
        Some(v) => copy_bytes(v.as_slice()),
        None => {
            return Err(MetaError::NoPackage);
        },
    };
    if name.len() == 0 {
        return Err(MetaError::NoPackage);
    }
    let arch = match record.get("Architecture".as_bytes()) {
        Some(v) => copy_bytes(v.as_slice()),
        None => {
            return Err(MetaError::NoArchitecture);
        },
    };
    if arch.len() == 0 {
        return Err(MetaError::NoArchitecture);
    }
    let version = match record.get("Version".as_bytes()) {
        Some(v) => copy_bytes(v.as_slice()),
        None => {
            return Err(MetaError::NoVersion);
        },
    };
    if version.len() == 0 {
        return Err(MetaError::NoVersion);
    }
    let mut info = record;
    info.remove("Package".as_bytes());
    info.remove("Architecture".as_bytes());
    info.remove("Version".as_bytes());
    Ok(
        PackageMeta {
            kind: RepositoryType::Debian,
            filename: copy_bytes(path),
            name,
            arch,
            version,
            info,
        },
    )
}

/// The metadata that control data gives.
pub fn read_control(path: &[u8], control: &[u8]) -> (r: Result<PackageMeta, MetaError>)
    ensures
        match r {
            Ok(m) => m.wf() && meta_of_control(path@, control@) == Ok::<
                PackageMetaView,
                MetaError,
            >(m@),
            Err(e) => meta_of_control(path@, control@) == Err::<PackageMetaView, MetaError>(e),
        },
{
    let mut records = match parse_control(control) {
        Ok(records) => records,
        Err(e) => {
            return Err(MetaError::Control(e));
        },
    };
    if records.len() != 1 {
        return Err(MetaError::WrongControl);
    }
    let record = records.remove(0);
    meta_from_record(path, record)
}

/// Whether a path of a tar entry is that of the control data.
fn names_control(path: &[u8]) -> (r: bool)
    ensures
        r == is_control_path(path@),
{
    let mut end = path.len();
    proof {
        assert(path@.subrange(0, end as int) =~= path@);
    }
    while end > 0 && path[end - 1] == crate::repo::paths::SLASH
        invariant
            0 <= end <= path.len(),
            stem_len(path@) == stem_len(path@.subrange(0, end as int)),
        decreases end,
    {
        proof {
            let p = path@.subrange(0, end as int);
            assert(p.last() == path@[end - 1]);
            assert(p.drop_last() =~= path@.subrange(0, end - 1));
        }
        end -= 1;
    }
    proof {
        let p = path@.subrange(0, end as int);
        if end > 0 {
            assert(p.last() == path@[end - 1]);
        }
        assert(stem_len(p) == end);
    }
    same_bytes(&path[0..end], "control".as_bytes())
}

/// The metadata of a package file, from what the file holds.
pub fn read_deb(path: &[u8], data: &[u8]) -> (r: Result<PackageMeta, MetaError>)
    ensures
        match r {
            Ok(m) => m.wf() && meta_of_deb(path@, data@) == Ok::<PackageMetaView, MetaError>(m@),
            Err(e) => meta_of_deb(path@, data@) == Err::<PackageMetaView, MetaError>(e),
        },
{
    let mut arch = match Archive::new(copy_bytes(data)) {
        Ok(a) => a,
        Err(e) => {
            return Err(MetaError::Archive(e));
        },
    };
    let first = match arch.read_file("debian-binary".as_bytes()) {
        Ok(d) => d,
        Err(e) => {
            return Err(MetaError::Archive(e));
        },
    };
    if !same_bytes(trim(first.as_slice()), "2.0".as_bytes()) {
        return Err(MetaError::UnsupportedFormat);
    }
    let member = match arch.read_file("control.tar.gz".as_bytes()) {
        Ok(d) => d,
        Err(e) => {
            return Err(MetaError::Archive(e));
        },
    };
    let tar = match gunzip(member.as_slice()) {
        Ok(t) => t,
        Err(_) => {
            return Err(MetaError::Gzip);
        },
    };
    let mut index: usize = 0;
    while index < tar.len()
        invariant
            0 <= index <= tar.len(),
            meta_of_deb(path@, data@) == meta_of_entries(
                path@,
                tar@,
                index as nat,
                (tar.len() - index) as nat,
            ),
        decreases tar.len() - index,
    {
        match tar_entry(tar.as_slice(), index) {
            Err(_) => {
                return Err(MetaError::Tar);
            },
            Ok(None) => {
                return Err(MetaError::NoMetadata);
            },
            Ok(Some(entry)) => {
                if names_control(entry.path.as_slice()) {
                    return read_control(path, entry.data.as_slice());
                }
            },
        }
        index += 1;
    }
    Err(MetaError::NoMetadata)
}

/// The pattern that finds name and version in a file's name where a
/// repository gives none.
pub open spec fn default_file_regex() -> Seq<char> {
    "^(?P<name>.*?)-(?P<version>v?\\d[^.]*(?:\\.\\d[^.]*)*)\\."@
}

/// The pattern that finds name and version in a file's name where a
/// repository gives none.
pub fn default_file_pattern() -> (r: &'static str)
    ensures
        r@ == default_file_regex(),
{
    "^(?P<name>.*?)-(?P<version>v?\\d[^.]*(?:\\.\\d[^.]*)*)\\."
}

/// Whether a text ends with the given bytes.
pub open spec fn ends_with(s: Seq<u8>, suffix: Seq<u8>) -> bool {
    s.len() >= suffix.len() && s.subrange(s.len() - suffix.len(), s.len() as int) == suffix
}

/// Whether a text ends with the given bytes.
pub fn has_suffix(s: &[u8], suffix: &[u8]) -> (r: bool)
    ensures
        r == ends_with(s@, suffix@),
{
    if s.len() < suffix.len() {
        return false;
    }
    same_bytes(&s[s.len() - suffix.len()..s.len()], suffix)
}

/// The pattern by which a repository finds name and version in a file's
/// name.
pub open spec fn file_pattern(repo: config::Repository) -> Seq<char> {
    match repo.match_filename {
        Some(p) => p@,
        None => default_file_regex(),
    }
}

/// The metadata that a repository of links gives to the file at `path`,
/// whose name is `fname`: name and version as the repository's pattern
/// finds them in the name; none where the repository is of another kind or
/// the pattern does not match.
pub open spec fn link_meta_of(path: Seq<u8>, fname: Seq<u8>, repo: config::Repository) -> Result<
    Option<PackageMetaView>,
    MetaError,
> {
    let pattern = file_pattern(repo);
    if repo.kind != RepositoryType::HtmlLinks {
        Ok(None)
    } else if !regex_valid(pattern) {
        Err(MetaError::BadPattern)
    } else {
        match regex_named_group(pattern, fname, "name"@) {
            GroupView::NoMatch => Ok(None),
            GroupView::Absent => Err(MetaError::NoNameGroup),
            GroupView::Found(name) => match regex_named_group(pattern, fname, "version"@) {
                GroupView::NoMatch => Ok(None),
                GroupView::Absent => Err(MetaError::NoVersionGroup),
                GroupView::Found(version) => Ok(
                    Some(
                        PackageMetaView {
                            kind: RepositoryType::HtmlLinks,
                            filename: path,
                            name,
                            arch: Seq::empty(),
                            version,
                            info: Seq::empty(),
                        },
                    ),
                ),
            },
        }
    }
}

/// The metadata that the repositories from number `at` on give to a file:
/// that of the last repository that gives any, or `found` where none
/// does.
pub open spec fn link_meta(
    path: Seq<u8>,
    fname: Seq<u8>,
    repos: Seq<config::Repository>,
    at: int,
    found: Option<PackageMetaView>,
) -> Result<Option<PackageMetaView>, MetaError>
    decreases repos.len() - at,
{
    if at < 0 || at >= repos.len() {
        Ok(found)
    } else {
        match link_meta_of(path, fname, repos[at]) {
            Err(e) => Err(e),
            Ok(None) => link_meta(path, fname, repos, at + 1, found),
            Ok(Some(m)) => link_meta(path, fname, repos, at + 1, Some(m)),
        }
    }
}

/// The metadata of the file at `path` that holds `data`, by the kind of
/// file that its name tells: a package where the name ends in `.deb`; a
/// file for the repositories of links where it ends in `.tar.gz`, with no
/// metadata where none of them finds any.
pub open spec fn gathered(path: Seq<u8>, data: Seq<u8>, repos: Seq<config::Repository>) -> Result<
    Option<PackageMetaView>,
    MetaError,
> {
    let fname = file_name(path);
    if ends_with(fname, ".deb".spec_bytes()) {
        match meta_of_deb(path, data) {
            Ok(m) => Ok(Some(m)),
            Err(e) => Err(e),
        }
    } else if ends_with(fname, ".tar.gz".spec_bytes()) {
        link_meta(path, fname, repos, 0, None)
    } else {
        Err(MetaError::UnknownType)
    }
}

/// The view of optional metadata.
pub open spec fn optional_meta(m: Option<PackageMeta>) -> Option<PackageMetaView> {
    match m {
        Some(m) => Some(m@),
        None => None,
    }
}

/// The metadata that a repository of links gives to a file.
fn link_metadata(path: &[u8], fname: &[u8], repo: &config::Repository) -> (r: Result<
    Option<PackageMeta>,
    MetaError,
>)
    ensures
        match r {
            Ok(m) => link_meta_of(path@, fname@, *repo) == Ok::<Option<PackageMetaView>, MetaError>(
                optional_meta(m),
            ) && (m matches Some(x) ==> x.wf()),
            Err(e) => link_meta_of(path@, fname@, *repo) == Err::<
                Option<PackageMetaView>,
                MetaError,
            >(e),
        },
{
    if repo.kind != RepositoryType::HtmlLinks {
        return Ok(None);
    }
    let pattern: &str = match &repo.match_filename {
        Some(p) => p.as_str(),
        None => default_file_pattern(),
    };
    let name = match regex_named(pattern, fname, "name") {
        Err(_) => {
            return Err(MetaError::BadPattern);
        },
        Ok(Group::NoMatch) => {
            return Ok(None);
        },
        Ok(Group::Absent) => {
            return Err(MetaError::NoNameGroup);
        },
        Ok(Group::Found(name)) => name,
    };
    let version = match regex_named(pattern, fname, "version") {
        Err(_) => {
            return Err(MetaError::BadPattern);
        },
        Ok(Group::NoMatch) => {
            return Ok(None);
        },
        Ok(Group::Absent) => {
            return Err(MetaError::NoVersionGroup);
        },
        Ok(Group::Found(version)) => version,
    };
    let info = ControlRecord::new();
    Ok(
        Some(
            PackageMeta {
                kind: RepositoryType::HtmlLinks,
                filename: copy_bytes(path),
                name,
                arch: Vec::new(),
                version,
                info,
            },
        ),
    )
}

/// The metadata of a file that is to go into the repositories, from its
/// path and what it holds.
pub fn gather_metadata(path: &[u8], data: &[u8], cfg: &Config) -> (r: Result<
    Option<PackageMeta>,
    MetaError,
>)
    ensures
        match r {
            Ok(m) => gathered(path@, data@, cfg.repositories@) == Ok::<
                Option<PackageMetaView>,
                MetaError,
            >(optional_meta(m)) && (m matches Some(x) ==> x.wf()),
            Err(e) => gathered(path@, data@, cfg.repositories@) == Err::<
                Option<PackageMetaView>,
                MetaError,
            >(e),
        },
{
    let fname = base_name(path);
    if has_suffix(fname, ".deb".as_bytes()) {
        match read_deb(path, data) {
            Ok(m) => Ok(Some(m)),
            Err(e) => Err(e),
        }
    } else if has_suffix(fname, ".tar.gz".as_bytes()) {
        let mut found: Option<PackageMeta> = None;
        let mut i: usize = 0;
        while i < cfg.repositories.len()
            invariant
                0 <= i <= cfg.repositories.len(),
                found matches Some(x) ==> x.wf(),
                gathered(path@, data@, cfg.repositories@) == link_meta(
                    path@,
                    fname@,
                    cfg.repositories@,
                    0,
                    None,
                ),
                link_meta(path@, fname@, cfg.repositories@, i as int, optional_meta(found))
                    == link_meta(path@, fname@, cfg.repositories@, 0, None),
            decreases cfg.repositories.len() - i,
        {
            match link_metadata(path, fname, &cfg.repositories[i]) {
                Err(e) => {
                    return Err(e);
                },
                Ok(None) => {},
                Ok(Some(m)) => {
                    found = Some(m);
                },
            }
            i += 1;
        }
        Ok(found)
    } else {
        Err(MetaError::UnknownType)
    }
}

} // verus!
