//! Files and directories, and the cells that hold what they share with open handles.
//!
//! The bytes of a file and the permission word of a node live in a `CellStore`.
//! A node and every handle opened on it hold the number of the same cell, so a
//! change made through one is seen through the others, and a cell outlives the
//! name under which it was made.

use vstd::prelude::*;

verus! {

/// The permission word of a node that was just made.
pub const DEFAULT_MODE: u32 = 0o644u32;

/// The bits that allow reading.
pub const READ_BITS: u32 = 0o444u32;

/// The bits that allow writing.
pub const WRITE_BITS: u32 = 0o222u32;

/// Whether a permission word allows reading.
pub open spec fn mode_can_read(mode: u32) -> bool {
    mode & 0o444u32 != 0
}

/// Whether a permission word allows writing.
pub open spec fn mode_can_write(mode: u32) -> bool {
    mode & 0o222u32 != 0
}

/// A permission word with its write bits cleared or set.
pub open spec fn mode_with_readonly(mode: u32, readonly: bool) -> u32 {
    if readonly {
        mode & !0o222u32
    } else {
        mode | 0o222u32
    }
}

/// Clearing the write bits forbids writing, setting them allows it, and
/// neither touches the other bits.
pub proof fn lemma_mode_with_readonly(mode: u32, readonly: bool)
    ensures
        mode_can_write(mode_with_readonly(mode, readonly)) == !readonly,
        mode_with_readonly(mode, readonly) & !0o222u32 == mode & !0o222u32,
        mode_can_read(mode_with_readonly(mode, readonly)) == mode_can_read(mode),
{
    assert((mode & !0o222u32) & 0o222u32 == 0) by (bit_vector);
    assert((mode | 0o222u32) & 0o222u32 != 0) by (bit_vector);
    assert((mode & !0o222u32) & !0o222u32 == mode & !0o222u32) by (bit_vector);
    assert((mode | 0o222u32) & !0o222u32 == mode & !0o222u32) by (bit_vector);
    assert((mode & !0o222u32) & 0o444u32 == mode & 0o444u32) by (bit_vector);
    assert((mode | 0o222u32) & 0o444u32 == mode & 0o444u32) by (bit_vector);
}

/// What a store holds: the bytes of each content cell and the word of each mode cell.
pub struct StoreView {
    pub contents: Seq<Seq<u8>>,
    pub modes: Seq<u32>,
}

/// The cells of one file system. Cells are only ever added, so the number of a
/// cell stays good for the life of the store.
#[derive(Debug)]
pub struct CellStore {
    contents: Vec<Vec<u8>>,
    modes: Vec<u32>,
}

impl View for CellStore {
    type V = StoreView;

    closed spec fn view(&self) -> StoreView {
        StoreView {
            contents: Seq::new(self.contents@.len(), |i: int| self.contents@[i]@),
            modes: self.modes@,
        }
    }
}

impl StoreView {
    /// Whether the cells can be numbered by machine integers.
    pub open spec fn fits(self) -> bool {
        self.contents.len() <= usize::MAX && self.modes.len() <= usize::MAX
    }

    /// Whether `later` holds every cell of this store, whatever they now hold.
    pub open spec fn grown_into(self, later: StoreView) -> bool {
        self.contents.len() <= later.contents.len() && self.modes.len() <= later.modes.len()
    }
}

impl CellStore {
    /// The cells of a store can be numbered.
    pub proof fn lemma_fits(&self)
        ensures
            self@.fits(),
    {
        assert(self.contents.len() == self.contents@.len());
        assert(self.modes.len() == self.modes@.len());
    }

    /// Whether both cells of `file` exist in this store.
    pub fn holds(&self, file: &File) -> (b: bool)
        ensures
            b == file.live_in(self@),
    {
        file.contents.slot < self.contents.len() && file.mode.slot < self.modes.len()
    }

    /// A store without cells.
    pub fn new() -> (store: CellStore)
        ensures
            store@.contents.len() == 0,
            store@.modes.len() == 0,
    {
        CellStore { contents: Vec::new(), modes: Vec::new() }
    }
}

/// The number of a content cell: the bytes of one file.
#[derive(Clone, Copy, Debug, PartialEq, Eq, Structural)]
pub struct SharedContents {
    pub slot: usize,
}

impl SharedContents {
    /// Whether the cell exists in `store`.
    pub open spec fn live_in(self, store: StoreView) -> bool {
        self.slot < store.contents.len()
    }

    /// The bytes that the cell holds in `store`.
    pub open spec fn bytes(self, store: StoreView) -> Seq<u8> {
        store.contents[self.slot as int]
    }

    /// Adds a cell that holds `contents`.
    pub fn new(store: &mut CellStore, contents: Vec<u8>) -> (cell: SharedContents)
        ensures
            cell.slot == old(store)@.contents.len(),
            final(store)@.contents == old(store)@.contents.push(contents@),
            final(store)@.modes == old(store)@.modes,
    {
        let slot = store.contents.len();
        store.contents.push(contents);
        assert(store@.contents =~= old(store)@.contents.push(contents@));
        SharedContents { slot }
    }

    /// The bytes of the cell, to read.
    pub fn borrow<'a>(&self, store: &'a CellStore) -> (bytes: &'a Vec<u8>)
        requires
            self.live_in(store@),
        ensures
            bytes@ == self.bytes(store@),
    {
        &store.contents[self.slot]
    }

    /// The bytes of the cell, to change. No other cell changes with them.
    pub fn borrow_mut<'a>(&self, store: &'a mut CellStore) -> (bytes: &'a mut Vec<u8>)
        requires
            self.live_in(old(store)@),
        ensures
            bytes@ == self.bytes(old(store)@),
            final(store)@.contents == old(store)@.contents.update(
                self.slot as int,
                final(bytes)@,
            ),
            final(store)@.modes == old(store)@.modes,
    {
        &mut store.contents[self.slot]
    }
}

/// The number of a mode cell: the permission word of one node.
#[derive(Clone, Copy, Debug, PartialEq, Eq, Structural)]
pub struct SharedMode {
    pub slot: usize,
}

impl SharedMode {
    /// Whether the cell exists in `store`.
    pub open spec fn live_in(self, store: StoreView) -> bool {
        self.slot < store.modes.len()
    }

    /// The word that the cell holds in `store`.
    pub open spec fn word(self, store: StoreView) -> u32 {
        store.modes[self.slot as int]
    }

    /// Adds a cell that holds `mode`.
    pub fn new(store: &mut CellStore, mode: u32) -> (cell: SharedMode)
        ensures
            cell.slot == old(store)@.modes.len(),
            final(store)@.modes == old(store)@.modes.push(mode),
            final(store)@.contents == old(store)@.contents,
    {
        let slot = store.modes.len();
        store.modes.push(mode);
        assert(store@.contents =~= old(store)@.contents);
        SharedMode { slot }
    }

    /// The permission word.
    pub fn get(&self, store: &CellStore) -> (mode: u32)
        requires
            self.live_in(store@),
        ensures
            mode == self.word(store@),
    {
        store.modes[self.slot]
    }

    /// Replaces the permission word.
    pub fn set(&self, store: &mut CellStore, mode: u32)
        requires
            self.live_in(old(store)@),
        ensures
            final(store)@.modes == old(store)@.modes.update(self.slot as int, mode),
            final(store)@.contents == old(store)@.contents,
    {
        store.modes[self.slot] = mode;
        assert(store@.contents =~= old(store)@.contents);
    }

    /// Whether the word allows reading.
    pub fn can_read(&self, store: &CellStore) -> (b: bool)
        requires
            self.live_in(store@),
        ensures
            b == mode_can_read(self.word(store@)),
    {
        (store.modes[self.slot] & READ_BITS) != 0
    }

    /// Whether the word allows writing.
    pub fn can_write(&self, store: &CellStore) -> (b: bool)
        requires
            self.live_in(store@),
        ensures
            b == mode_can_write(self.word(store@)),
    {
        (store.modes[self.slot] & WRITE_BITS) != 0
    }

    /// Clears the write bits of the word, or sets them.
    pub fn make_readonly(&self, store: &mut CellStore, readonly: bool)
        requires
            self.live_in(old(store)@),
        ensures
            final(store)@.modes == old(store)@.modes.update(
                self.slot as int,
                mode_with_readonly(self.word(old(store)@), readonly),
            ),
            final(store)@.contents == old(store)@.contents,
    {
        let mode = store.modes[self.slot];
        if readonly {
            self.set(store, mode & !WRITE_BITS);
        } else {
            self.set(store, mode | WRITE_BITS);
        }
    }
}

/// A file: its bytes and its permission word.
#[derive(Clone, Copy, Debug, PartialEq, Eq, Structural)]
pub struct File {
    pub contents: SharedContents,
    pub mode: SharedMode,
}

impl File {
    /// Whether both cells of the file exist in `store`.
    pub open spec fn live_in(self, store: StoreView) -> bool {
        self.contents.live_in(store) && self.mode.live_in(store)
    }

    /// A file that holds `contents`, with the default permission word, in cells of its own.
    pub fn new(store: &mut CellStore, contents: Vec<u8>) -> (file: File)
        ensures
            file.contents.slot == old(store)@.contents.len(),
            file.mode.slot == old(store)@.modes.len(),
            final(store)@.contents == old(store)@.contents.push(contents@),
            final(store)@.modes == old(store)@.modes.push(DEFAULT_MODE),
    {
        let contents = SharedContents::new(store, contents);
        let mode = SharedMode::new(store, DEFAULT_MODE);
        File { contents, mode }
    }
}

/// A directory: its permission word.
#[derive(Clone, Copy, Debug, PartialEq, Eq, Structural)]
pub struct Dir {
    pub mode: SharedMode,
}

impl Dir {
    /// A directory with the default permission word, in a cell of its own.
    pub fn new(store: &mut CellStore) -> (dir: Dir)
        ensures
            dir.mode.slot == old(store)@.modes.len(),
            final(store)@.modes == old(store)@.modes.push(DEFAULT_MODE),
            final(store)@.contents == old(store)@.contents,
    {
        Dir { mode: SharedMode::new(store, DEFAULT_MODE) }
    }
}

/// An entry of the file system.
#[derive(Clone, Copy, Debug, PartialEq, Eq, Structural)]
pub enum Node {
    File(File),
    Dir(Dir),
}

impl Node {
    /// The mode cell of the node, whichever kind it is.
    pub open spec fn mode_cell(self) -> SharedMode {
        match self {
            Node::File(f) => f.mode,
            Node::Dir(d) => d.mode,
        }
    }

    /// Whether every cell of the node exists in `store`.
    pub open spec fn live_in(self, store: StoreView) -> bool {
        match self {
            Node::File(f) => f.live_in(store),
            Node::Dir(d) => d.mode.live_in(store),
        }
    }

    /// Whether the node is a file.
    pub fn is_file(&self) -> (b: bool)
        ensures
            b == (self is File),
    {
        match *self {
            Node::File(_) => true,
            _ => false,
        }
    }

    /// Whether the node is a directory.
    pub fn is_dir(&self) -> (b: bool)
        ensures
            b == (self is Dir),
    {
        match *self {
            Node::Dir(_) => true,
            _ => false,
        }
    }

    /// The mode cell of the node.
    pub fn mode(&self) -> (cell: SharedMode)
        ensures
            cell == self.mode_cell(),
    {
        match *self {
            Node::File(f) => f.mode,
            Node::Dir(d) => d.mode,
        }
    }
}

} // verus!
