//! What can be asked about a node without opening it: its kind, its size and
//! its permissions, as they were at the moment of asking.

use vstd::prelude::*;
use crate::node::{
    mode_can_write, mode_with_readonly, CellStore, Dir, File, SharedMode, StoreView,
    lemma_mode_with_readonly, WRITE_BITS,
};

verus! {

/// The size that a directory reports.
pub const DIR_LEN: u64 = 4096u64;

/// A permission word, detached from the node it was read from.
#[derive(Clone, Copy, Debug, PartialEq, Eq, Structural)]
pub struct FakePermissions(pub u32);

impl FakePermissions {
    /// The permissions that a mode cell holds now.
    pub fn from_shared(mode: &SharedMode, store: &CellStore) -> (p: FakePermissions)
        requires
            mode.live_in(store@),
        ensures
            p.0 == mode.word(store@),
    {
        FakePermissions(mode.get(store))
    }

    /// Whether these permissions forbid writing.
    pub fn readonly(&self) -> (b: bool)
        ensures
            b == !mode_can_write(self.0),
    {
        (self.0 & WRITE_BITS) == 0
    }

    /// Clears the write bits, or sets them. The other bits stay.
    pub fn set_readonly(&mut self, readonly: bool)
        ensures
            final(self).0 == mode_with_readonly(old(self).0, readonly),
            mode_can_write(final(self).0) == !readonly,
    {
        proof {
            lemma_mode_with_readonly(self.0, readonly);
        }
        if readonly {
            self.0 = self.0 & !WRITE_BITS;
        } else {
            self.0 = self.0 | WRITE_BITS;
        }
    }

    /// The permission word.
    pub fn mode(&self) -> (m: u32)
        ensures
            m == self.0,
    {
        self.0
    }

    /// Replaces the permission word.
    pub fn set_mode(&mut self, mode: u32)
        ensures
            final(self).0 == mode,
    {
        self.0 = mode;
    }

    /// The permissions that `mode` stands for.
    pub fn from_mode(mode: u32) -> (p: FakePermissions)
        ensures
            p.0 == mode,
    {
        FakePermissions(mode)
    }
}

/// The kind, size and permissions of a node at one moment. What happens to
/// the node afterwards does not show in it.
#[derive(Clone, Copy, Debug, PartialEq, Eq, Structural)]
pub struct FakeMetadata {
    pub len: u64,
    pub permissions: FakePermissions,
    pub is_dir: bool,
}

impl FakeMetadata {
    /// What a file is like now: its size in bytes and its permission word.
    pub open spec fn of_file(file: File, store: StoreView) -> FakeMetadata {
        FakeMetadata {
            len: file.contents.bytes(store).len() as u64,
            permissions: FakePermissions(file.mode.word(store)),
            is_dir: false,
        }
    }

    /// What a directory is like now: the size that every directory reports
    /// and its permission word.
    pub open spec fn of_dir(dir: Dir, store: StoreView) -> FakeMetadata {
        FakeMetadata {
            len: DIR_LEN,
            permissions: FakePermissions(dir.mode.word(store)),
            is_dir: true,
        }
    }

    /// The metadata of a file as it is now.
    pub fn from_file(f: &File, store: &CellStore) -> (m: FakeMetadata)
        requires
            f.live_in(store@),
        ensures
            m == FakeMetadata::of_file(*f, store@),
    {
        FakeMetadata {
            len: f.contents.borrow(store).len() as u64,
            permissions: FakePermissions::from_shared(&f.mode, store),
            is_dir: false,
        }
    }

    /// The metadata of a directory as it is now.
    pub fn from_dir(d: &Dir, store: &CellStore) -> (m: FakeMetadata)
        requires
            d.mode.live_in(store@),
        ensures
            m == FakeMetadata::of_dir(*d, store@),
    {
        FakeMetadata {
            len: DIR_LEN,
            permissions: FakePermissions::from_shared(&d.mode, store),
            is_dir: true,
        }
    }

    /// Whether this is the metadata of a directory.
    pub fn is_dir(&self) -> (b: bool)
        ensures
            b == self.is_dir,
    {
        self.is_dir
    }

    /// Whether this is the metadata of a file.
    pub fn is_file(&self) -> (b: bool)
        ensures
            b == !self.is_dir,
    {
        !self.is_dir
    }

    /// The size in bytes at the moment of asking.
    pub fn len(&self) -> (n: u64)
        ensures
            n == self.len,
    {
        self.len
    }

    /// The permissions at the moment of asking.
    pub fn permissions(&self) -> (p: FakePermissions)
        ensures
            p == self.permissions,
    {
        self.permissions
    }
}

} // verus!
