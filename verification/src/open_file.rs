//! Open files. A handle holds the cells of the file it was opened on, not the
//! path, so it goes on reading and writing the same bytes whatever happens to
//! the name afterwards.

use vstd::prelude::*;
use crate::error::{create_error, Error, ErrorKind};
use crate::metadata::FakeMetadata;
use crate::node::{CellStore, File, StoreView};

verus! {

/// What a handle may do with its file.
#[derive(Clone, Copy, Debug, PartialEq, Eq, Structural)]
pub enum AccessMode {
    Read,
    Write,
}

/// From where a new position of the cursor is counted.
#[derive(Clone, Copy, Debug, PartialEq, Eq, Structural)]
pub enum SeekFrom {
    /// From the first byte.
    Start(u64),
    /// From the end of the contents.
    End(i64),
    /// From the cursor.
    Current(i64),
}

/// An open file: the cells of the file, a cursor, and what the handle may do.
#[derive(Debug)]
pub struct FakeOpenFile {
    pub f: File,
    pub pos: usize,
    pub access_mode: AccessMode,
}

/// `n` zero bytes.
pub open spec fn zeros(n: nat) -> Seq<u8> {
    Seq::new(n, |i: int| 0u8)
}

/// The contents cut or filled with zero bytes to `size` bytes.
pub open spec fn resized(contents: Seq<u8>, size: nat) -> Seq<u8> {
    if size <= contents.len() {
        contents.subrange(0, size as int)
    } else {
        contents + zeros((size - contents.len()) as nat)
    }
}

/// How many bytes a read at `pos` into a buffer of `room` bytes takes from
/// contents of `len` bytes.
pub open spec fn read_count(len: nat, pos: nat, room: nat) -> nat {
    if pos >= len {
        0
    } else if len - pos <= room {
        (len - pos) as nat
    } else {
        room
    }
}

/// What a buffer holds after a read at `pos`: the bytes read, then what it
/// held behind them.
pub open spec fn read_into(contents: Seq<u8>, pos: nat, buf: Seq<u8>) -> Seq<u8> {
    let n = read_count(contents.len(), pos, buf.len());
    if n == 0 {
        buf
    } else {
        contents.subrange(pos as int, (pos + n) as int) + buf.subrange(n as int, buf.len() as int)
    }
}

/// The contents after `buf` was written at `pos`: filled with zero bytes up
/// to `pos` where they were shorter, then `buf` in place of what stood from
/// `pos` on, then what was beyond the end of `buf`.
pub open spec fn overwritten(contents: Seq<u8>, pos: nat, buf: Seq<u8>) -> Seq<u8> {
    let padded = if pos > contents.len() {
        resized(contents, pos)
    } else {
        contents
    };
    let end = pos + buf.len();
    padded.subrange(0, pos as int) + buf + (if end < padded.len() {
        padded.subrange(end as int, padded.len() as int)
    } else {
        Seq::empty()
    })
}

/// Where a seek leads, counted from the first byte; it may be negative.
pub open spec fn seek_target(len: nat, pos: nat, whence: SeekFrom) -> int {
    match whence {
        SeekFrom::Start(offset) => offset as int,
        SeekFrom::End(offset) => len + offset,
        SeekFrom::Current(offset) => pos + offset,
    }
}

impl FakeOpenFile {
    /// Whether the cells of this handle exist in `store`.
    pub open spec fn live_in(self, store: StoreView) -> bool {
        self.f.live_in(store)
    }

    /// The bytes of the file as `store` holds them.
    pub open spec fn contents(self, store: StoreView) -> Seq<u8> {
        self.f.contents.bytes(store)
    }

    /// A handle on `file` with the cursor at the first byte.
    pub fn new(file: &File, access_mode: AccessMode) -> (h: FakeOpenFile)
        ensures
            h.f == *file,
            h.pos == 0,
            h.access_mode == access_mode,
    {
        FakeOpenFile { f: *file, pos: 0, access_mode }
    }

    /// Whether the cells of this handle exist in `store`, as they do in the
    /// store of the file system that opened it.
    pub fn belongs_to(&self, store: &CellStore) -> (b: bool)
        ensures
            b == self.live_in(store@),
    {
        store.holds(&self.f)
    }

    /// Refuses an access that the handle was not opened for.
    pub fn verify_access(&self, access_mode: AccessMode) -> (r: Result<(), Error>)
        ensures
            access_mode == self.access_mode ==> r is Ok,
            access_mode != self.access_mode ==> (r matches Err(e) && e.is(ErrorKind::Other)),
    {
        if access_mode != self.access_mode {
            Err(create_error(ErrorKind::Other))
        } else {
            Ok(())
        }
    }

    /// Where the cursor stands.
    pub fn position(&self) -> (pos: usize)
        ensures
            pos == self.pos,
    {
        self.pos
    }

    /// Reads from the cursor on into `buf`, as many bytes as the contents
    /// still have and `buf` can take, and moves the cursor behind them. At or
    /// beyond the end nothing is read.
    pub fn read(&mut self, store: &CellStore, buf: &mut [u8]) -> (r: Result<usize, Error>)
        requires
            old(self).live_in(store@),
        ensures
            final(self).f == old(self).f,
            final(self).access_mode == old(self).access_mode,
            final(buf)@.len() == old(buf)@.len(),
            old(self).access_mode != AccessMode::Read ==> (r matches Err(e) && e.is(
                ErrorKind::Other,
            ) && final(self).pos == old(self).pos && final(buf)@ == old(buf)@),
            old(self).access_mode == AccessMode::Read ==> (r matches Ok(n) && {
                let contents = old(self).contents(store@);
                &&& n == read_count(contents.len(), old(self).pos as nat, old(buf)@.len())
                &&& final(self).pos == old(self).pos + n
                &&& final(buf)@ == read_into(contents, old(self).pos as nat, old(buf)@)
            }),
    {
        match self.verify_access(AccessMode::Read) {
            Ok(_) => {},
            Err(e) => {
                return Err(e);
            },
        }
        let contents = self.f.contents.borrow(store);
        let pos = self.pos;
        let len = if pos < contents.len() {
            let left = contents.len() - pos;
            if left <= buf.len() {
                left
            } else {
                buf.len()
            }
        } else {
            0
        };
        assert(contents.len() == contents@.len());
        let mut i: usize = 0;
        while i < len
            invariant
                i <= len,
                len <= buf@.len(),
                len > 0 ==> pos + len <= contents@.len() <= usize::MAX,
                buf@.len() == old(buf)@.len(),
                forall|j: int| 0 <= j < i ==> buf@[j] == contents@[pos + j],
                forall|j: int| i <= j < buf@.len() ==> buf@[j] == old(buf)@[j],
            decreases len - i,
        {
            buf[i] = contents[pos + i];
            i += 1;
        }
        self.pos = pos + len;
        assert(buf@ =~= read_into(contents@, pos as nat, old(buf)@));
        Ok(len)
    }

    /// Moves the cursor. A place before the first byte, or one that no cursor
    /// can hold, is refused and the cursor stays; a place beyond the end is
    /// accepted and changes nothing in the file.
    pub fn seek(&mut self, store: &CellStore, pos: SeekFrom) -> (r: Result<u64, Error>)
        requires
            old(self).live_in(store@),
        ensures
            final(self).f == old(self).f,
            final(self).access_mode == old(self).access_mode,
            ({
                let target = seek_target(
                    old(self).contents(store@).len(),
                    old(self).pos as nat,
                    pos,
                );
                if 0 <= target <= usize::MAX {
                    r == Ok::<u64, Error>(target as u64) && final(self).pos == target
                } else {
                    r matches Err(e) && e.is(ErrorKind::InvalidInput) && final(self).pos == old(
                        self,
                    ).pos
                }
            }),
    {
        let len = self.f.contents.borrow(store).len();
        let target: Option<usize> = match pos {
            SeekFrom::Start(offset) => from_start(offset),
            SeekFrom::End(offset) => offset_from(len, offset),
            SeekFrom::Current(offset) => offset_from(self.pos, offset),
        };
        match target {
            Some(place) => {
                self.pos = place;
                Ok(place as u64)
            },
            None => Err(create_error(ErrorKind::InvalidInput)),
        }
    }

    /// Writes `buf` at the cursor and moves the cursor behind it. Contents
    /// that end before the cursor are first filled with zero bytes up to it.
    /// A write whose end no cursor can hold is refused as a whole.
    pub fn write(&mut self, store: &mut CellStore, buf: &[u8]) -> (r: Result<usize, Error>)
        requires
            old(self).live_in(old(store)@),
        ensures
            final(self).f == old(self).f,
            final(self).access_mode == old(self).access_mode,
            final(store)@.modes == old(store)@.modes,
            ({
                let before = old(self).contents(old(store)@);
                if old(self).access_mode != AccessMode::Write {
                    r matches Err(e) && e.is(ErrorKind::Other) && final(self).pos == old(self).pos
                        && final(store)@ == old(store)@
                } else if old(self).pos + buf@.len() > usize::MAX {
                    r matches Err(e) && e.is(ErrorKind::InvalidInput) && final(self).pos == old(
                        self,
                    ).pos && final(store)@ == old(store)@
                } else {
                    r == Ok::<usize, Error>(buf@.len() as usize) && final(self).pos == old(
                        self,
                    ).pos + buf@.len() && final(store)@.contents == old(store)@.contents.update(
                        old(self).f.contents.slot as int,
                        overwritten(before, old(self).pos as nat, buf@),
                    )
                }
            }),
    {
        match self.verify_access(AccessMode::Write) {
            Ok(_) => {},
            Err(e) => {
                return Err(e);
            },
        }
        let pos = self.pos;
        if buf.len() > usize::MAX - pos {
            return Err(create_error(ErrorKind::InvalidInput));
        }
        let ghost before = self.contents(store@);
        let contents = self.f.contents.borrow_mut(store);
        if pos > contents.len() {
            contents.resize(pos, 0);
        }
        let ghost padded = contents@;
        assert(padded =~= (if pos > before.len() {
            resized(before, pos as nat)
        } else {
            before
        }));
        let mut i: usize = 0;
        while i < buf.len()
            invariant
                i <= buf@.len(),
                pos + buf@.len() <= usize::MAX,
                pos <= padded.len(),
                contents@.len() == (if pos + i > padded.len() {
                    pos + i
                } else {
                    padded.len() as int
                }),
                forall|j: int|
                    0 <= j < contents@.len() ==> #[trigger] contents@[j] == (if pos <= j < pos + i {
                        buf@[j - pos]
                    } else {
                        padded[j]
                    }),
            decreases buf@.len() - i,
        {
            if pos + i < contents.len() {
                contents[pos + i] = buf[i];
            } else {
                contents.push(buf[i]);
            }
            i += 1;
        }
        assert(contents@ =~= overwritten(before, pos as nat, buf@));
        self.pos = pos + buf.len();
        Ok(buf.len())
    }

    /// Has nothing to do: what was written is already in the file.
    pub fn flush(&mut self) -> (r: Result<(), Error>)
        ensures
            r is Ok,
            *final(self) == *old(self),
    {
        Ok(())
    }

    /// The size and permissions of the file as they are now. The value does
    /// not follow what happens to the file later.
    pub fn metadata(&self, store: &CellStore) -> (r: Result<FakeMetadata, Error>)
        requires
            self.live_in(store@),
        ensures
            r == Ok::<FakeMetadata, Error>(FakeMetadata::of_file(self.f, store@)),
    {
        Ok(FakeMetadata::from_file(&self.f, store))
    }

    /// Cuts the contents, or fills them with zero bytes, to `size` bytes.
    /// The cursor stays. A size that no buffer can have is refused.
    pub fn set_len(&self, store: &mut CellStore, size: u64) -> (r: Result<(), Error>)
        requires
            self.live_in(old(store)@),
        ensures
            final(store)@.modes == old(store)@.modes,
            ({
                let before = self.contents(old(store)@);
                if self.access_mode != AccessMode::Write {
                    r matches Err(e) && e.is(ErrorKind::Other) && final(store)@ == old(store)@
                } else if size > usize::MAX {
                    r matches Err(e) && e.is(ErrorKind::InvalidInput) && final(store)@ == old(
                        store,
                    )@
                } else {
                    r is Ok && final(store)@.contents == old(store)@.contents.update(
                        self.f.contents.slot as int,
                        resized(before, size as nat),
                    )
                }
            }),
    {
        match self.verify_access(AccessMode::Write) {
            Ok(_) => {},
            Err(e) => {
                return Err(e);
            },
        }
        if size > usize::MAX as u64 {
            return Err(create_error(ErrorKind::InvalidInput));
        }
        let ghost before = self.contents(store@);
        let contents = self.f.contents.borrow_mut(store);
        contents.resize(size as usize, 0);
        assert(contents@ =~= resized(before, size as nat));
        Ok(())
    }

    /// Has nothing to do: there is no medium behind the file.
    pub fn sync_all(&self) -> (r: Result<(), Error>)
        ensures
            r is Ok,
    {
        Ok(())
    }

    /// Has nothing to do: there is no medium behind the file.
    pub fn sync_data(&self) -> (r: Result<(), Error>)
        ensures
            r is Ok,
    {
        Ok(())
    }
}

/// The place `offset` bytes from the first byte, where a cursor can hold it.
fn from_start(offset: u64) -> (place: Option<usize>)
    ensures
        match place {
            Some(p) => p == offset,
            None => offset > usize::MAX,
        },
{
    if offset > usize::MAX as u64 {
        None
    } else {
        Some(offset as usize)
    }
}

/// The place `offset` bytes from `base`, where it is not before the first
/// byte and a cursor can hold it.
fn offset_from(base: usize, offset: i64) -> (place: Option<usize>)
    ensures
        match place {
            Some(p) => p == base + offset,
            None => base + offset < 0 || base + offset > usize::MAX,
        },
{
    let target: i128 = base as i128 + offset as i128;
    if target < 0 || target > usize::MAX as i128 {
        None
    } else {
        Some(target as usize)
    }
}

} // verus!
