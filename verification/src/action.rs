//! The commands of the program, by their names.

use vstd::prelude::*;
use vstd::string::*;
use crate::text::same_bytes;

verus! {

/// What the program is asked to do.
#[derive(Clone, Copy, Debug, PartialEq, Eq, Structural)]
pub enum Action {
    Help,
    Pack,
    RepoAdd,
    GetVersion,
    SetVersion,
    IncrVersion,
    CheckVersion,
    WithVersion,
    WithGitVersion,
}

/// Whether a name is one of those by which packages are added to a
/// repository.
pub open spec fn names_repo_add(name: Seq<u8>) -> bool {
    ||| name == "repo-add".spec_bytes()
    ||| name == "repo_add".spec_bytes()
    ||| name == "repoadd".spec_bytes()
    ||| name == "radd".spec_bytes()
    ||| name == "add-to-repo".spec_bytes()
    ||| name == "add_to_repo".spec_bytes()
    ||| name == "addtorepo".spec_bytes()
}

/// Whether a name is one of those by which the version is asked for.
pub open spec fn names_get_version(name: Seq<u8>) -> bool {
    ||| name == "getversion".spec_bytes()
    ||| name == "get-version".spec_bytes()
    ||| name == "getver".spec_bytes()
    ||| name == "get-ver".spec_bytes()
    ||| name == "ver-get".spec_bytes()
    ||| name == "version-get".spec_bytes()
    ||| name == "verget".spec_bytes()
    ||| name == "versionget".spec_bytes()
}

/// Whether a name is one of those by which the version is set.
pub open spec fn names_set_version(name: Seq<u8>) -> bool {
    ||| name == "set-version".spec_bytes()
    ||| name == "set-ver".spec_bytes()
    ||| name == "setversion".spec_bytes()
    ||| name == "setver".spec_bytes()
    ||| name == "ver-set".spec_bytes()
    ||| name == "version-set".spec_bytes()
    ||| name == "verset".spec_bytes()
    ||| name == "versionset".spec_bytes()
}

/// Whether a name is one of those by which the version is raised.
pub open spec fn names_incr_version(name: Seq<u8>) -> bool {
    ||| name == "incr-version".spec_bytes()
    ||| name == "inc-version".spec_bytes()
    ||| name == "version-incr".spec_bytes()
    ||| name == "version-inc".spec_bytes()
    ||| name == "incr".spec_bytes()
    ||| name == "bump-version".spec_bytes()
    ||| name == "version-bump".spec_bytes()
    ||| name == "bumpver".spec_bytes()
    ||| name == "bump-ver".spec_bytes()
    ||| name == "bump".spec_bytes()
}

/// The command that a name stands for.
pub open spec fn action_named(name: Seq<u8>) -> Option<Action> {
    if name == "help".spec_bytes() {
        Some(Action::Help)
    } else if name == "pack".spec_bytes() {
        Some(Action::Pack)
    } else if names_repo_add(name) {
        Some(Action::RepoAdd)
    } else if names_get_version(name) {
        Some(Action::GetVersion)
    } else if names_set_version(name) {
        Some(Action::SetVersion)
    } else if names_incr_version(name) {
        Some(Action::IncrVersion)
    } else if name == "check-version".spec_bytes() || name == "version-check".spec_bytes() {
        Some(Action::CheckVersion)
    } else if name == "with-version".spec_bytes() {
        Some(Action::WithVersion)
    } else if name == "with-git-version".spec_bytes() {
        Some(Action::WithGitVersion)
    } else {
        None
    }
}

/// Whether a name is the given one.
fn is(value: &str, name: &str) -> (r: bool)
    ensures
        r == (value.spec_bytes() == name.spec_bytes()),
{
    same_bytes(value.as_bytes(), name.as_bytes())
}

impl Action {
    /// The command that a name stands for.
    pub fn from_str(value: &str) -> (r: Option<Action>)
        ensures
            r == action_named(value.spec_bytes()),
    {
        if is(value, "help") {
            Some(Action::Help)
        } else if is(value, "pack") {
            Some(Action::Pack)
        } else if is(value, "repo-add") || is(value, "repo_add") || is(value, "repoadd") || is(
            value,
            "radd",
        ) || is(value, "add-to-repo") || is(value, "add_to_repo") || is(value, "addtorepo") {
            Some(Action::RepoAdd)
        } else if is(value, "getversion") || is(value, "get-version") || is(value, "getver") || is(
            value,
            "get-ver",
        ) || is(value, "ver-get") || is(value, "version-get") || is(value, "verget") || is(
            value,
            "versionget",
        ) {
            Some(Action::GetVersion)
        } else if is(value, "set-version") || is(value, "set-ver") || is(value, "setversion") || is(
            value,
            "setver",
        ) || is(value, "ver-set") || is(value, "version-set") || is(value, "verset") || is(
            value,
            "versionset",
        ) {
            Some(Action::SetVersion)
        } else if is(value, "incr-version") || is(value, "inc-version") || is(
            value,
            "version-incr",
        ) || is(value, "version-inc") || is(value, "incr") || is(value, "bump-version") || is(
            value,
            "version-bump",
        ) || is(value, "bumpver") || is(value, "bump-ver") || is(value, "bump") {
            Some(Action::IncrVersion)
        } else if is(value, "check-version") || is(value, "version-check") {
            Some(Action::CheckVersion)
        } else if is(value, "with-version") {
            Some(Action::WithVersion)
        } else if is(value, "with-git-version") {
            Some(Action::WithGitVersion)
        } else {
            None
        }
    }
}

} // verus!
