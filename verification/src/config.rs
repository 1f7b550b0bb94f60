//! What a project's configuration file says.

use vstd::prelude::*;
use crate::version::Version;

verus! {

/// What a package says of itself.
#[derive(Debug)]
pub struct Metadata {
    pub name: Vec<u8>,
    pub short_description: Vec<u8>,
    pub long_description: Vec<u8>,
    pub depends: Option<Vec<u8>>,
}

/// The kinds of repository.
#[derive(Clone, Copy, Debug, PartialEq, Eq, Structural)]
pub enum RepositoryType {
    Debian,
    HtmlLinks,
}

/// One repository that packages are added to.
#[derive(Debug)]
pub struct Repository {
    pub kind: RepositoryType,
    /// How many versions of a package to keep.
    pub keep_releases: Option<usize>,
    /// The pattern that a version must match to be added.
    pub match_version: Option<String>,
    /// The pattern that finds name and version in a file's name.
    pub match_filename: Option<String>,
    /// The pattern of the versions that are not added.
    pub skip_version: Option<String>,
    pub suite: Option<Vec<u8>>,
    pub component: Option<Vec<u8>>,
    /// Whether an index for `i386` is made beside every other.
    pub add_empty_i386_repo: bool,
    pub files: Option<Vec<u8>>,
    pub index: Option<Vec<u8>>,
}

/// Where a version number stands in the project's files.
#[derive(Debug)]
pub struct VersionHolder {
    pub block_start: Option<String>,
    pub block_end: Option<String>,
    pub multiple_blocks: bool,
    pub file: Option<Vec<u8>>,
    pub files: Vec<Vec<u8>>,
    pub regex: String,
    pub partial_version: Option<String>,
}

/// A project's configuration.
#[derive(Debug)]
pub struct Config {
    pub minimum_bulk: Version,
    pub metadata: Option<Metadata>,
    pub repositories: Vec<Repository>,
    pub versions: Vec<VersionHolder>,
}

} // verus!
