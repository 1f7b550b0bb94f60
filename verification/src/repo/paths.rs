//! Where the files of a repository lie, from the repository's root.

use vstd::prelude::*;
use vstd::string::*;
use crate::text::{append_bytes, copy_bytes};

verus! {

/// The slash byte, which parts the components of a path.
pub const SLASH: u8 = 0x2f;

/// The manifest of a suite: `dists/<suite>/Release`.
pub open spec fn release_path(suite: Seq<u8>) -> Seq<u8> {
    "dists/".spec_bytes() + suite + "/Release".spec_bytes()
}

/// The directory of an index: `dists/<suite>/<component>/binary-<arch>`.
pub open spec fn packages_dir(suite: Seq<u8>, component: Seq<u8>, arch: Seq<u8>) -> Seq<u8> {
    "dists/".spec_bytes() + suite + seq![SLASH] + component + "/binary-".spec_bytes() + arch
}

/// The index file: `Packages` in the directory of the index.
pub open spec fn packages_path(suite: Seq<u8>, component: Seq<u8>, arch: Seq<u8>) -> Seq<u8> {
    packages_dir(suite, component, arch) + "/Packages".spec_bytes()
}

/// The path under which a suite's manifest lists an index file:
/// `<component>/binary-<arch>/Packages`.
pub open spec fn listed_path(component: Seq<u8>, arch: Seq<u8>) -> Seq<u8> {
    component + "/binary-".spec_bytes() + arch + "/Packages".spec_bytes()
}

/// The path of the temporary file from which a file is put in place: the
/// file's path and `.tmp`.
pub open spec fn temporary(path: Seq<u8>) -> Seq<u8> {
    path + ".tmp".spec_bytes()
}

/// The length of a path without the slashes at its end.
pub open spec fn stem_len(path: Seq<u8>) -> nat
    decreases path.len(),
{
    if path.len() > 0 && path.last() == SLASH {
        stem_len(path.drop_last())
    } else {
        path.len()
    }
}

/// Where the last component of a path of the given length begins: after
/// its last slash.
pub open spec fn name_start(path: Seq<u8>, end: nat) -> nat
    decreases end,
{
    if end == 0 || end > path.len() || path[end - 1] == SLASH {
        end
    } else {
        name_start(path, (end - 1) as nat)
    }
}

/// The name of the file that a path leads to: its last component, slashes
/// at the end of the path set aside.
pub open spec fn file_name(path: Seq<u8>) -> Seq<u8> {
    path.subrange(name_start(path, stem_len(path)) as int, stem_len(path) as int)
}

/// Whether a path leads to a file with a name: the name is not empty and
/// is not `..`.
pub open spec fn has_file_name(path: Seq<u8>) -> bool {
    file_name(path).len() > 0 && file_name(path) != seq![0x2eu8, 0x2eu8]
}

/// The number of bytes of the first character of a text in UTF-8, as its
/// first byte tells it.
pub open spec fn first_char_len(s: Seq<u8>) -> nat {
    if s.len() == 0 {
        0
    } else {
        let n: nat = if s[0] < 0x80 {
            1
        } else if s[0] < 0xe0 {
            2
        } else if s[0] < 0xf0 {
            3
        } else {
            4
        };
        if n <= s.len() {
            n
        } else {
            s.len()
        }
    }
}

/// Where a package's file lies in the pool: under the first character of
/// the package's name, then the name, under the name of the file.
pub open spec fn pool_path(name: Seq<u8>, source: Seq<u8>) -> Seq<u8> {
    "pool/".spec_bytes() + name.subrange(0, first_char_len(name) as int) + seq![SLASH] + name
        + seq![SLASH] + file_name(source)
}

/// The directory that a path lies in: what stands before its last slash;
/// empty where it has none.
pub open spec fn parent(path: Seq<u8>) -> Seq<u8> {
    let start = name_start(path, path.len());
    if start == 0 {
        Seq::empty()
    } else {
        path.subrange(0, start - 1)
    }
}

/// Computes `release_path`.
pub fn release_file(suite: &[u8]) -> (r: Vec<u8>)
    ensures
        r@ == release_path(suite@),
{
    let mut r = copy_bytes("dists/".as_bytes());
    append_bytes(&mut r, suite);
    append_bytes(&mut r, "/Release".as_bytes());
    r
}

/// Computes `packages_dir`.
pub fn packages_directory(suite: &[u8], component: &[u8], arch: &[u8]) -> (r: Vec<u8>)
    ensures
        r@ == packages_dir(suite@, component@, arch@),
{
    let mut r = copy_bytes("dists/".as_bytes());
    append_bytes(&mut r, suite);
    r.push(SLASH);
    append_bytes(&mut r, component);
    append_bytes(&mut r, "/binary-".as_bytes());
    append_bytes(&mut r, arch);
    proof {
        assert(r@ =~= packages_dir(suite@, component@, arch@));
    }
    r
}

/// Computes `packages_path`.
pub fn packages_file(suite: &[u8], component: &[u8], arch: &[u8]) -> (r: Vec<u8>)
    ensures
        r@ == packages_path(suite@, component@, arch@),
{
    let mut r = packages_directory(suite, component, arch);
    append_bytes(&mut r, "/Packages".as_bytes());
    r
}

/// Computes `listed_path`.
pub fn listed_file(component: &[u8], arch: &[u8]) -> (r: Vec<u8>)
    ensures
        r@ == listed_path(component@, arch@),
{
    let mut r = copy_bytes(component);
    append_bytes(&mut r, "/binary-".as_bytes());
    append_bytes(&mut r, arch);
    append_bytes(&mut r, "/Packages".as_bytes());
    r
}

/// Computes `temporary`.
pub fn temporary_file(path: &[u8]) -> (r: Vec<u8>)
    ensures
        r@ == temporary(path@),
{
    let mut r = copy_bytes(path);
    append_bytes(&mut r, ".tmp".as_bytes());
    r
}

/// Where the last component of the first `end` bytes of a path begins.
fn name_begin(path: &[u8], end: usize) -> (r: usize)
    requires
        end <= path.len(),
    ensures
        r == name_start(path@, end as nat),
        r <= end,
{
    let mut i = end;
    while i > 0 && path[i - 1] != SLASH
        invariant
            0 <= i <= end <= path.len(),
            name_start(path@, end as nat) == name_start(path@, i as nat),
        decreases i,
    {
        i -= 1;
    }
    i
}

/// The name of the file that a path leads to.
pub fn base_name(path: &[u8]) -> (r: &[u8])
    ensures
        r@ == file_name(path@),
{
    let mut end = path.len();
    proof {
        assert(path@.subrange(0, end as int) =~= path@);
    }
    while end > 0 && path[end - 1] == SLASH
        invariant
            0 <= end <= path.len(),
            stem_len(path@) == stem_len(path@.subrange(0, end as int)),
        decreases end,
    {
        proof {
            let p = path@.subrange(0, end as int);
            assert(p.last() == path@[end - 1]);
            assert(p.drop_last() =~= path@.subrange(0, end - 1));
        }
        end -= 1;
    }
    proof {
        let p = path@.subrange(0, end as int);
        if end > 0 {
            assert(p.last() == path@[end - 1]);
        }
        assert(stem_len(p) == end);
    }
    let start = name_begin(path, end);
    &path[start..end]
}

/// Whether a path leads to a file with a name.
pub fn names_a_file(path: &[u8]) -> (r: bool)
    ensures
        r == has_file_name(path@),
{
    let name = base_name(path);
    if name.len() == 0 {
        return false;
    }
    if name.len() == 2 && name[0] == 0x2e && name[1] == 0x2e {
        proof {
            assert(name@ =~= seq![0x2eu8, 0x2eu8]);
        }
        return false;
    }
    proof {
        if name@ == seq![0x2eu8, 0x2eu8] {
            assert(name@.len() == 2);
            assert(name@[0] == 0x2e && name@[1] == 0x2e);
        }
    }
    true
}

/// Computes `pool_path`.
pub fn pool_file(name: &[u8], source: &[u8]) -> (r: Vec<u8>)
    ensures
        r@ == pool_path(name@, source@),
{
    let n: usize = if name.len() == 0 {
        0
    } else {
        let lead: usize = if name[0] < 0x80 {
            1
        } else if name[0] < 0xe0 {
            2
        } else if name[0] < 0xf0 {
            3
        } else {
            4
        };
        if lead <= name.len() {
            lead
        } else {
            name.len()
        }
    };
    let mut r = copy_bytes("pool/".as_bytes());
    append_bytes(&mut r, &name[0..n]);
    r.push(SLASH);
    append_bytes(&mut r, name);
    r.push(SLASH);
    append_bytes(&mut r, base_name(source));
    proof {
        assert(r@ =~= pool_path(name@, source@));
    }
    r
}

/// The directory that a path lies in.
pub fn parent_dir(path: &[u8]) -> (r: &[u8])
    ensures
        r@ == parent(path@),
{
    let start = name_begin(path, path.len());
    if start == 0 {
        &path[0..0]
    } else {
        &path[0..start - 1]
    }
}

} // verus!
