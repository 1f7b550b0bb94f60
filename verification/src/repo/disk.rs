//! The files that the repository may consult, as they were found.

use vstd::prelude::*;
use crate::text::same_bytes;

verus! {

/// A file that was found: its path and what it holds.
#[derive(Debug)]
pub struct DiskFile {
    pub path: Vec<u8>,
    pub contents: Vec<u8>,
}

/// What a found file holds.
pub struct DiskFileView {
    pub path: Seq<u8>,
    pub contents: Seq<u8>,
}

impl View for DiskFile {
    type V = DiskFileView;

    open spec fn view(&self) -> DiskFileView {
        DiskFileView { path: self.path@, contents: self.contents@ }
    }
}

impl DeepView for DiskFile {
    type V = DiskFileView;

    open spec fn deep_view(&self) -> DiskFileView {
        self@
    }
}

/// The files that were found.  A path that is not among them stands for a
/// file that does not exist.
#[derive(Debug)]
pub struct Disk {
    pub files: Vec<DiskFile>,
}

impl View for Disk {
    type V = Seq<DiskFileView>;

    open spec fn view(&self) -> Seq<DiskFileView> {
        self.files.deep_view()
    }
}

/// What the first of the files with the given path holds.
pub open spec fn found_on(files: Seq<DiskFileView>, path: Seq<u8>) -> Option<Seq<u8>>
    decreases files.len(),
{
    if files.len() == 0 {
        None
    } else if files[0].path == path {
        Some(files[0].contents)
    } else {
        found_on(files.drop_first(), path)
    }
}

impl Disk {
    /// No file was found.
    pub fn new() -> (d: Disk)
        ensures
            d@ == Seq::<DiskFileView>::empty(),
    {
        let d = Disk { files: Vec::new() };
        proof {
            assert(d@ =~= Seq::<DiskFileView>::empty());
        }
        d
    }

    /// Adds a file that was found, after those added before.
    pub fn add(&mut self, path: Vec<u8>, contents: Vec<u8>)
        ensures
            final(self)@ == old(self)@.push(DiskFileView { path: path@, contents: contents@ }),
    {
        self.files.push(DiskFile { path, contents });
        proof {
            assert(self@ =~= old(self)@.push(DiskFileView { path: path@, contents: contents@ }));
        }
    }

    /// What the file with the given path holds, if it was found.
    pub fn get(&self, path: &[u8]) -> (r: Option<&Vec<u8>>)
        ensures
            match r {
                Some(v) => found_on(self@, path@) == Some(v@),
                None => found_on(self@, path@).is_none(),
            },
    {
        let ghost all = self@;
        let mut i: usize = 0;
        proof {
            assert(all.skip(0) =~= all);
        }
        while i < self.files.len()
            invariant
                0 <= i <= self.files.len(),
                all == self@,
                found_on(all, path@) == found_on(all.skip(i as int), path@),
            decreases self.files.len() - i,
        {
            proof {
                assert(all.skip(i as int).drop_first() =~= all.skip(i + 1));
                assert(all.skip(i as int)[0] == self.files@[i as int]@);
            }
            if same_bytes(self.files[i].path.as_slice(), path) {
                return Some(&self.files[i].contents);
            }
            i += 1;
        }
        None
    }
}

} // verus!
