//! What reading a directory gives: its entries, one after another.

use vstd::prelude::*;
use crate::path::{bytes_clone, FsPath, PathView};

verus! {

/// What a directory entry says: the directory as it was named when it was
/// read, and the name of the entry in it.
pub struct DirEntryView {
    pub parent: PathView,
    pub file_name: Seq<u8>,
}

/// One entry of a directory.
#[derive(Debug)]
pub struct DirEntry {
    parent: FsPath,
    file_name: Vec<u8>,
}

impl View for DirEntry {
    type V = DirEntryView;

    closed spec fn view(&self) -> DirEntryView {
        DirEntryView { parent: self.parent@, file_name: self.file_name@ }
    }
}

impl DirEntryView {
    /// The path of the entry: its name behind the directory's path.
    pub open spec fn path(self) -> PathView {
        PathView { rooted: self.parent.rooted, parts: self.parent.parts.push(self.file_name) }
    }
}

impl DirEntry {
    /// The entry called `file_name` of the directory `parent`.
    pub fn new(parent: &FsPath, file_name: &[u8]) -> (e: DirEntry)
        ensures
            e@.parent == parent@,
            e@.file_name == file_name@,
    {
        DirEntry { parent: parent.duplicate(), file_name: bytes_clone(file_name) }
    }

    /// The name of the entry, without the path that leads to it.
    pub fn file_name(&self) -> (name: Vec<u8>)
        ensures
            name@ == self@.file_name,
    {
        bytes_clone(self.file_name.as_slice())
    }

    /// The path of the entry.
    pub fn path(&self) -> (p: FsPath)
        ensures
            p@ == self@.path(),
    {
        self.parent.child(self.file_name.as_slice())
    }

    /// A copy of the entry.
    pub fn duplicate(&self) -> (e: DirEntry)
        ensures
            e@ == self@,
    {
        DirEntry::new(&self.parent, self.file_name.as_slice())
    }
}

/// The entries of a directory, to be taken one by one. What was taken does
/// not come again.
#[derive(Debug)]
pub struct ReadDir {
    entries: Vec<DirEntry>,
    taken: usize,
}

impl ReadDir {
    /// The entries that are still to come, in their order.
    pub closed spec fn remaining(&self) -> Seq<DirEntryView> {
        Seq::new(
            (self.entries@.len() - self.taken) as nat,
            |i: int| self.entries@[self.taken + i]@,
        )
    }

    /// Whether the count of what was taken is in range.
    pub closed spec fn wf(&self) -> bool {
        self.taken <= self.entries@.len()
    }

    /// A reading that gives `entries` in their order.
    pub fn new(entries: Vec<DirEntry>) -> (rd: ReadDir)
        ensures
            rd.wf(),
            rd.remaining() == Seq::new(entries@.len(), |i: int| entries@[i]@),
    {
        let rd = ReadDir { entries, taken: 0 };
        assert(rd.remaining() =~= Seq::new(entries@.len(), |i: int| entries@[i]@));
        rd
    }

    /// The next entry, if one is left.
    pub fn next(&mut self) -> (e: Option<DirEntry>)
        requires
            old(self).wf(),
        ensures
            final(self).wf(),
            match e {
                Some(entry) => old(self).remaining().len() > 0 && entry@ == old(
                    self,
                ).remaining()[0] && final(self).remaining() == old(self).remaining().skip(1),
                None => old(self).remaining().len() == 0 && final(self).remaining() == old(
                    self,
                ).remaining(),
            },
    {
        if self.taken < self.entries.len() {
            let entry = self.entries[self.taken].duplicate();
            self.taken = self.taken + 1;
            assert(self.remaining() =~= old(self).remaining().skip(1));
            Some(entry)
        } else {
            None
        }
    }
}

} // verus!
