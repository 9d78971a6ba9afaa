//! The in-memory file system: one registry, reached by paths that may be
//! relative to its working directory.

use vstd::prelude::*;
use crate::dir::{DirEntry, ReadDir};
use crate::error::{create_error, Error, ErrorKind};
use crate::metadata::{FakeMetadata, FakePermissions};
use crate::node::{CellStore, Node};
use crate::open_file::{
    overwritten, read_count, read_into, resized, seek_target, AccessMode, FakeOpenFile, SeekFrom,
};
use crate::options::OpenOptions;
use crate::path::{FsPath, PathView};
use crate::model::{lemma_default_mode, root_view, RegistryView};
use crate::registry::Registry;

verus! {

/// The directory that relative paths start from: the working directory, or
/// the root where the working directory cannot be had.
pub open spec fn base_of(current_dir: Result<FsPath, Error>) -> PathView {
    match current_dir {
        Ok(dir) => dir@,
        Err(_) => root_view(),
    }
}

/// The path that `path` stands for when relative paths start from `base`.
pub open spec fn absolute_from(base: PathView, path: PathView) -> PathView {
    if path.rooted {
        path
    } else {
        base.join(path)
    }
}

/// Makes a relative path absolute: it is put behind the working directory, or
/// behind the root where the working directory cannot be had. An absolute
/// path stays as it is.
pub fn to_absolute_path(path: &FsPath, current_dir: Result<FsPath, Error>) -> (p: FsPath)
    ensures
        p@ == absolute_from(base_of(current_dir), path@),
{
    if path.is_relative() {
        let base = match current_dir {
            Ok(dir) => dir,
            Err(_) => FsPath::root(),
        };
        base.join(path)
    } else {
        path.duplicate()
    }
}

/// The ways of opening a file that the file system knows.
#[derive(Clone, Copy, Debug, PartialEq, Eq, Structural)]
pub enum OpenKind {
    /// For writing; the file is made where there is none and emptied where there is one.
    Create,
    /// For reading.
    Open,
    /// For writing; the file must exist and keeps what it holds.
    OpenWritable,
    /// For writing; the file is made and must not exist yet.
    CreateNew,
    /// For writing; the file must exist and is emptied.
    Overwrite,
}

/// The way of opening that the options ask for, if it is one that the file
/// system knows.
pub open spec fn open_kind(o: OpenOptions) -> Option<OpenKind> {
    if o == (OpenOptions { create: true, truncate: true, write: true, ..OpenOptions::none() }) {
        Some(OpenKind::Create)
    } else if o == (OpenOptions { read: true, ..OpenOptions::none() }) {
        Some(OpenKind::Open)
    } else if o == (OpenOptions { write: true, ..OpenOptions::none() }) {
        Some(OpenKind::OpenWritable)
    } else if o == (OpenOptions { create_new: true, write: true, ..OpenOptions::none() }) {
        Some(OpenKind::CreateNew)
    } else if o == (OpenOptions { truncate: true, write: true, ..OpenOptions::none() }) {
        Some(OpenKind::Overwrite)
    } else {
        None
    }
}

impl RegistryView {
    /// The path that `path` stands for in this registry.
    pub open spec fn absolute(self, path: PathView) -> PathView {
        absolute_from(
            if self.dir_error(self.cwd) is None {
                self.cwd
            } else {
                root_view()
            },
            path,
        )
    }

    /// Why the file under the absolute path `p` cannot be opened in the way
    /// `kind`, if it cannot.
    pub open spec fn open_error(self, kind: OpenKind, p: PathView) -> Option<ErrorKind> {
        match kind {
            OpenKind::Create => self.write_error(p),
            OpenKind::Open => self.file_readable_error(p),
            OpenKind::OpenWritable => self.file_writable_error(p),
            OpenKind::CreateNew => self.insert_error(p),
            OpenKind::Overwrite => self.file_writable_error(p),
        }
    }

    /// This registry after the file under the absolute path `p` was opened in
    /// the way `kind`.
    pub open spec fn after_open(self, kind: OpenKind, p: PathView) -> RegistryView {
        match kind {
            OpenKind::Create => self.written(p, Seq::empty()),
            OpenKind::Open => self,
            OpenKind::OpenWritable => self,
            OpenKind::CreateNew => self.with_file(p, Seq::empty()),
            OpenKind::Overwrite => self.with_bytes(p, Seq::empty()),
        }
    }

    /// Whether `r` is what opening the file under the absolute path `p` in
    /// the way `kind` gives, and `after` what it leaves: a handle on the cells
    /// of the file that then stands under `p`, with the cursor at the first
    /// byte; or the error, and no change.
    pub open spec fn opens(
        self,
        kind: OpenKind,
        p: PathView,
        after: RegistryView,
        r: Result<FakeOpenFile, Error>,
    ) -> bool {
        match self.open_error(kind, p) {
            None => r matches Ok(h) && after == self.after_open(kind, p) && after.has_file(p)
                && h.f == after.entries[p]->File_0 && h.pos == 0 && h.access_mode == (if kind
                == OpenKind::Open {
                AccessMode::Read
            } else {
                AccessMode::Write
            }) && h.live_in(after.store),
            Some(k) => r matches Err(e) && e.is(k) && after == self,
        }
    }
}

/// An in-memory file system.
#[derive(Debug)]
pub struct FakeFileSystem {
    registry: Registry,
}

impl View for FakeFileSystem {
    type V = RegistryView;

    closed spec fn view(&self) -> RegistryView {
        self.registry@
    }
}

impl FakeFileSystem {
    /// Whether the file system is in order.
    pub closed spec fn wf(&self) -> bool {
        self.registry.wf()
    }

    /// In a file system that is in order, what it holds is in order.
    pub proof fn lemma_wf_view(&self)
        requires
            self.wf(),
        ensures
            self@.wf(),
    {
        self.registry.lemma_wf_view();
    }

    /// A file system that holds the root directory and nothing else.
    pub fn new() -> (fs: FakeFileSystem)
        ensures
            fs.wf(),
            fs@ == RegistryView::initial(),
    {
        FakeFileSystem { registry: Registry::new() }
    }

    /// The path that `path` stands for: itself, or the working directory
    /// followed by it where it is relative.
    pub fn resolve(&self, path: &FsPath) -> (p: FsPath)
        requires
            self.wf(),
        ensures
            p@ == self@.absolute(path@),
    {
        to_absolute_path(path, self.registry.current_dir())
    }

    /// The cells of this file system, for the handles that read them.
    pub fn store(&self) -> (store: &CellStore)
        ensures
            store@ == self@.store,
    {
        self.registry.store()
    }

    /// Reads through `file` as `FakeOpenFile::read` does, from the cells of
    /// this file system.
    pub fn read(&self, file: &mut FakeOpenFile, buf: &mut [u8]) -> (r: Result<usize, Error>)
        requires
            old(file).live_in(self@.store),
        ensures
            final(file).f == old(file).f,
            final(file).access_mode == old(file).access_mode,
            final(buf)@.len() == old(buf)@.len(),
            old(file).access_mode != AccessMode::Read ==> (r matches Err(e) && e.is(
                ErrorKind::Other,
            ) && final(file).pos == old(file).pos && final(buf)@ == old(buf)@),
            old(file).access_mode == AccessMode::Read ==> (r matches Ok(n) && {
                let contents = old(file).contents(self@.store);
                &&& n == read_count(contents.len(), old(file).pos as nat, old(buf)@.len())
                &&& final(file).pos == old(file).pos + n
                &&& final(buf)@ == read_into(contents, old(file).pos as nat, old(buf)@)
            }),
    {
        file.read(self.registry.store(), buf)
    }

    /// Moves the cursor of `file` as `FakeOpenFile::seek` does.
    pub fn seek(&self, file: &mut FakeOpenFile, pos: SeekFrom) -> (r: Result<u64, Error>)
        requires
            old(file).live_in(self@.store),
        ensures
            final(file).f == old(file).f,
            final(file).access_mode == old(file).access_mode,
            ({
                let target = seek_target(
                    old(file).contents(self@.store).len(),
                    old(file).pos as nat,
                    pos,
                );
                if 0 <= target <= usize::MAX {
                    r == Ok::<u64, Error>(target as u64) && final(file).pos == target
                } else {
                    r matches Err(e) && e.is(ErrorKind::InvalidInput) && final(file).pos == old(
                        file,
                    ).pos
                }
            }),
    {
        file.seek(self.registry.store(), pos)
    }

    /// Writes through `file` as `FakeOpenFile::write` does, into the cells of
    /// this file system. No path changes, and no other cell.
    pub fn write(&mut self, file: &mut FakeOpenFile, buf: &[u8]) -> (r: Result<usize, Error>)
        requires
            old(self).wf(),
            old(file).live_in(old(self)@.store),
        ensures
            final(self).wf(),
            final(self)@.cwd == old(self)@.cwd,
            final(self)@.entries == old(self)@.entries,
            final(self)@.store.modes == old(self)@.store.modes,
            final(file).f == old(file).f,
            final(file).access_mode == old(file).access_mode,
            final(file).live_in(final(self)@.store),
            ({
                let before = old(file).contents(old(self)@.store);
                if old(file).access_mode != AccessMode::Write {
                    r matches Err(e) && e.is(ErrorKind::Other) && final(file).pos == old(file).pos
                        && final(self)@ == old(self)@
                } else if old(file).pos + buf@.len() > usize::MAX {
                    r matches Err(e) && e.is(ErrorKind::InvalidInput) && final(file).pos == old(
                        file,
                    ).pos && final(self)@ == old(self)@
                } else {
                    r == Ok::<usize, Error>(buf@.len() as usize) && final(file).pos == old(
                        file,
                    ).pos + buf@.len() && final(self)@.store.contents == old(
                        self,
                    )@.store.contents.update(
                        old(file).f.contents.slot as int,
                        overwritten(before, old(file).pos as nat, buf@),
                    )
                }
            }),
    {
        let store = self.registry.store_mut();
        file.write(store, buf)
    }

    /// Cuts or fills the file of `file` as `FakeOpenFile::set_len` does. No
    /// path changes, and no other cell.
    pub fn set_len(&mut self, file: &FakeOpenFile, size: u64) -> (r: Result<(), Error>)
        requires
            old(self).wf(),
            file.live_in(old(self)@.store),
        ensures
            final(self).wf(),
            final(self)@.cwd == old(self)@.cwd,
            final(self)@.entries == old(self)@.entries,
            final(self)@.store.modes == old(self)@.store.modes,
            file.live_in(final(self)@.store),
            ({
                let before = file.contents(old(self)@.store);
                if file.access_mode != AccessMode::Write {
                    r matches Err(e) && e.is(ErrorKind::Other) && final(self)@ == old(self)@
                } else if size > usize::MAX {
                    r matches Err(e) && e.is(ErrorKind::InvalidInput) && final(self)@ == old(
                        self,
                    )@
                } else {
                    r is Ok && final(self)@.store.contents == old(self)@.store.contents.update(
                        file.f.contents.slot as int,
                        resized(before, size as nat),
                    )
                }
            }),
    {
        let store = self.registry.store_mut();
        file.set_len(store, size)
    }

    /// The size and permissions of the file of `file` as they are now.
    pub fn file_metadata(&self, file: &FakeOpenFile) -> (r: Result<FakeMetadata, Error>)
        requires
            file.live_in(self@.store),
        ensures
            r == Ok::<FakeMetadata, Error>(FakeMetadata::of_file(file.f, self@.store)),
    {
        file.metadata(self.registry.store())
    }

    /// Opens the file under `path` for writing, as it is.
    pub fn open_writable(&self, path: &FsPath) -> (r: Result<FakeOpenFile, Error>)
        requires
            self.wf(),
        ensures
            self@.opens(OpenKind::OpenWritable, self@.absolute(path@), self@, r),
    {
        let p = self.resolve(path);
        proof {
            self.registry.lemma_wf_view();
        }
        match self.registry.get_file_writable(&p) {
            Ok(f) => {
                assert(self@.has(p@));
                Ok(FakeOpenFile::new(&f, AccessMode::Write))
            },
            Err(e) => Err(e),
        }
    }

    /// Makes a file under `path`, where nothing may stand yet, and opens it
    /// for writing.
    pub fn create_new(&mut self, path: &FsPath) -> (r: Result<FakeOpenFile, Error>)
        requires
            old(self).wf(),
        ensures
            final(self).wf(),
            old(self)@.opens(OpenKind::CreateNew, old(self)@.absolute(path@), final(self)@, r),
    {
        let p = self.resolve(path);
        proof {
            self.registry.lemma_wf_view();
        }
        if self.registry.readonly(&p).is_ok() {
            return Err(create_error(ErrorKind::AlreadyExists));
        }
        let empty: [u8; 0] = [];
        assert(empty@ =~= Seq::<u8>::empty());
        match self.registry.write_file(&p, empty.as_slice()) {
            Ok(_) => {},
            Err(e) => {
                return Err(e);
            },
        }
        proof {
            lemma_default_mode();
            assert(self@ == old(self)@.with_file(p@, Seq::empty()));
            assert(self@.has_file(p@));
            assert(self@.mode_at(p@) == crate::node::DEFAULT_MODE);
        }
        self.handle_on(&p)
    }

    /// Empties the file under `path`, which must exist, and opens it for writing.
    pub fn overwrite(&mut self, path: &FsPath) -> (r: Result<FakeOpenFile, Error>)
        requires
            old(self).wf(),
        ensures
            final(self).wf(),
            old(self)@.opens(OpenKind::Overwrite, old(self)@.absolute(path@), final(self)@, r),
    {
        let p = self.resolve(path);
        proof {
            self.registry.lemma_wf_view();
        }
        let empty: [u8; 0] = [];
        assert(empty@ =~= Seq::<u8>::empty());
        match self.registry.overwrite_file(&p, empty.as_slice()) {
            Ok(_) => {},
            Err(e) => {
                return Err(e);
            },
        }
        proof {
            assert(self@ == old(self)@.with_bytes(p@, Seq::empty()));
            assert(self@.has_file(p@));
            assert(self@.mode_at(p@) == old(self)@.mode_at(p@));
        }
        self.handle_on(&p)
    }

    /// A handle for writing on the file under the absolute path `p`.
    fn handle_on(&self, p: &FsPath) -> (r: Result<FakeOpenFile, Error>)
        requires
            self.wf(),
        ensures
            match self@.file_writable_error(p@) {
                None => r matches Ok(h) && h.f == self@.entries[p@]->File_0 && h.pos == 0
                    && h.access_mode == AccessMode::Write && h.live_in(self@.store),
                Some(k) => r matches Err(e) && e.is(k),
            },
    {
        proof {
            self.registry.lemma_wf_view();
        }
        match self.registry.get_file_writable(p) {
            Ok(f) => {
                assert(self@.has(p@));
                Ok(FakeOpenFile::new(&f, AccessMode::Write))
            },
            Err(e) => Err(e),
        }
    }

    /// Opens the file under `path` for reading.
    pub fn open(&self, path: &FsPath) -> (r: Result<FakeOpenFile, Error>)
        requires
            self.wf(),
        ensures
            self@.opens(OpenKind::Open, self@.absolute(path@), self@, r),
    {
        let p = self.resolve(path);
        proof {
            self.registry.lemma_wf_view();
        }
        match self.registry.get_file_readable(&p) {
            Ok(f) => {
                assert(self@.has(p@));
                Ok(FakeOpenFile::new(&f, AccessMode::Read))
            },
            Err(e) => Err(e),
        }
    }

    /// Opens the file under `path` for writing: a new, empty file where none
    /// stands, else the file that stands there, emptied.
    pub fn create(&mut self, path: &FsPath) -> (r: Result<FakeOpenFile, Error>)
        requires
            old(self).wf(),
        ensures
            final(self).wf(),
            old(self)@.opens(OpenKind::Create, old(self)@.absolute(path@), final(self)@, r),
    {
        let p = self.resolve(path);
        proof {
            self.registry.lemma_wf_view();
        }
        let empty: [u8; 0] = [];
        assert(empty@ =~= Seq::<u8>::empty());
        match self.registry.write_file(&p, empty.as_slice()) {
            Ok(_) => {},
            Err(e) => {
                return Err(e);
            },
        }
        proof {
            lemma_default_mode();
            assert(self@ == old(self)@.written(p@, Seq::empty()));
            assert(self@.has_file(p@));
            if old(self)@.has(p@) {
                assert(self@.mode_at(p@) == old(self)@.mode_at(p@));
            } else {
                assert(self@.mode_at(p@) == crate::node::DEFAULT_MODE);
            }
        }
        self.handle_on(&p)
    }

    /// Opens the file under `path` in the way that the options ask for. The
    /// options must be one of those that `open_kind` knows.
    pub fn open_with_options(&mut self, path: &FsPath, o: &OpenOptions) -> (r: Result<
        FakeOpenFile,
        Error,
    >)
        requires
            old(self).wf(),
        ensures
            final(self).wf(),
            match open_kind(*o) {
                Some(kind) => old(self)@.opens(
                    kind,
                    old(self)@.absolute(path@),
                    final(self)@,
                    r,
                ),
                None => r matches Err(e) && e.is(ErrorKind::InvalidInput) && final(self)@ == old(
                    self,
                )@,
            },
    {
        let o_create = OpenOptions::new().create(true).truncate(true).write(true);
        let o_open = OpenOptions::new().read(true);
        let o_open_writable = OpenOptions::new().write(true);
        let o_create_new = OpenOptions::new().create_new(true).write(true);
        let o_overwrite = OpenOptions::new().truncate(true).write(true);
        if *o == o_create {
            self.create(path)
        } else if *o == o_open {
            self.open(path)
        } else if *o == o_open_writable {
            self.open_writable(path)
        } else if *o == o_create_new {
            self.create_new(path)
        } else if *o == o_overwrite {
            self.overwrite(path)
        } else {
            Err(create_error(ErrorKind::InvalidInput))
        }
    }

    /// Gives the node under `path` the permission word of `perm`.
    pub fn set_permissions(&mut self, path: &FsPath, perm: FakePermissions) -> (r: Result<
        (),
        Error,
    >)
        requires
            old(self).wf(),
        ensures
            final(self).wf(),
            ({
                let p = old(self)@.absolute(path@);
                match old(self)@.get_error(p) {
                    None => r is Ok && final(self)@ == old(self)@.with_mode(p, perm.0),
                    Some(k) => r matches Err(e) && e.is(k) && final(self)@ == old(self)@,
                }
            }),
    {
        let p = self.resolve(path);
        self.registry.set_mode(&p, perm.mode())
    }

    /// The kind, size and permissions of the node under `path`, as they are now.
    pub fn metadata(&self, path: &FsPath) -> (r: Result<FakeMetadata, Error>)
        requires
            self.wf(),
        ensures
            ({
                let p = self@.absolute(path@);
                match self@.get_error(p) {
                    None => r == Ok::<FakeMetadata, Error>(
                        match self@.entries[p] {
                            Node::File(f) => FakeMetadata::of_file(f, self@.store),
                            Node::Dir(d) => FakeMetadata::of_dir(d, self@.store),
                        },
                    ),
                    Some(k) => r matches Err(e) && e.is(k),
                }
            }),
    {
        let p = self.resolve(path);
        proof {
            self.registry.lemma_wf_view();
        }
        if self.registry.is_file(&p) {
            match self.registry.get_file(&p) {
                Ok(f) => {
                    assert(self@.has(p@));
                    Ok(FakeMetadata::from_file(&f, self.registry.store()))
                },
                Err(e) => Err(e),
            }
        } else {
            match self.registry.get_dir(&p) {
                Ok(d) => {
                    assert(self@.has(p@));
                    Ok(FakeMetadata::from_dir(&d, self.registry.store()))
                },
                Err(e) => Err(e),
            }
        }
    }

    /// The working directory, as long as it still is a directory.
    pub fn current_dir(&self) -> (r: Result<FsPath, Error>)
        requires
            self.wf(),
        ensures
            match self@.dir_error(self@.cwd) {
                None => r matches Ok(p) && p@ == self@.cwd,
                Some(k) => r matches Err(e) && e.is(k),
            },
    {
        self.registry.current_dir()
    }

    /// Makes the directory under `path` the working directory.
    pub fn set_current_dir(&mut self, path: &FsPath) -> (r: Result<(), Error>)
        requires
            old(self).wf(),
        ensures
            final(self).wf(),
            final(self)@.entries == old(self)@.entries,
            final(self)@.store == old(self)@.store,
            ({
                let p = old(self)@.absolute(path@);
                match old(self)@.dir_error(p) {
                    None => r is Ok && final(self)@.cwd == p,
                    Some(k) => r matches Err(e) && e.is(k) && final(self)@.cwd == old(self)@.cwd,
                }
            }),
    {
        let p = self.resolve(path);
        self.registry.set_current_dir(p)
    }

    /// Whether a directory stands under `path`.
    pub fn is_dir(&self, path: &FsPath) -> (b: bool)
        requires
            self.wf(),
        ensures
            b == self@.has_dir(self@.absolute(path@)),
            !self@.has(self@.absolute(path@)) ==> !b,
    {
        let p = self.resolve(path);
        self.registry.is_dir(&p)
    }

    /// Whether a file stands under `path`.
    pub fn is_file(&self, path: &FsPath) -> (b: bool)
        requires
            self.wf(),
        ensures
            b == self@.has_file(self@.absolute(path@)),
            !self@.has(self@.absolute(path@)) ==> !b,
    {
        let p = self.resolve(path);
        self.registry.is_file(&p)
    }

    /// Makes a directory under `path`, in a directory that exists.
    pub fn create_dir(&mut self, path: &FsPath) -> (r: Result<(), Error>)
        requires
            old(self).wf(),
        ensures
            final(self).wf(),
            ({
                let p = old(self)@.absolute(path@);
                match old(self)@.insert_error(p) {
                    None => r is Ok && final(self)@ == old(self)@.with_dir(p),
                    Some(k) => r matches Err(e) && e.is(k) && final(self)@ == old(self)@,
                }
            }),
    {
        let p = self.resolve(path);
        self.registry.create_dir(&p)
    }

    /// Makes the directory under `path` and every missing directory above it.
    pub fn create_dir_all(&mut self, path: &FsPath) -> (r: Result<(), Error>)
        requires
            old(self).wf(),
        ensures
            final(self).wf(),
            ({
                let p = old(self)@.absolute(path@);
                match old(self)@.create_dir_all_error(p) {
                    None => r is Ok && final(self)@ == old(self)@.with_dirs(
                        p,
                        old(self)@.existing_depth(p, p.parts.len()),
                        p.parts.len(),
                    ),
                    Some(k) => r matches Err(e) && e.is(k) && final(self)@ == old(self)@,
                }
            }),
    {
        let p = self.resolve(path);
        self.registry.create_dir_all(&p)
    }

    /// Removes the directory under `path`, which must hold nothing.
    pub fn remove_dir(&mut self, path: &FsPath) -> (r: Result<(), Error>)
        requires
            old(self).wf(),
        ensures
            final(self).wf(),
            ({
                let p = old(self)@.absolute(path@);
                match old(self)@.remove_dir_error(p) {
                    None => r is Ok && final(self)@ == old(self)@.without(p),
                    Some(k) => r matches Err(e) && e.is(k) && final(self)@ == old(self)@,
                }
            }),
    {
        let p = self.resolve(path);
        self.registry.remove_dir(&p)
    }

    /// Removes the directory under `path` and all that is below it, or nothing.
    pub fn remove_dir_all(&mut self, path: &FsPath) -> (r: Result<(), Error>)
        requires
            old(self).wf(),
        ensures
            final(self).wf(),
            ({
                let p = old(self)@.absolute(path@);
                match old(self)@.remove_dir_all_error(p) {
                    None => r is Ok && final(self)@ == old(self)@.without_tree(p),
                    Some(k) => r matches Err(e) && e.is(k) && final(self)@ == old(self)@,
                }
            }),
    {
        let p = self.resolve(path);
        self.registry.remove_dir_all(&p)
    }

    /// The entries directly inside the directory under `path`, in no
    /// particular order and none twice. Each is named by `path` as it was
    /// given and its own name.
    pub fn read_dir(&self, path: &FsPath) -> (r: Result<ReadDir, Error>)
        requires
            self.wf(),
        ensures
            ({
                let p = self@.absolute(path@);
                match self@.dir_error(p) {
                    None => r matches Ok(rd) && rd.wf() && {
                        let found = rd.remaining();
                        &&& forall|i: int|
                            0 <= i < found.len() ==> (#[trigger] found[i]).parent == path@
                                && self@.has(
                                PathView { rooted: p.rooted, parts: p.parts.push(found[i].file_name) },
                            )
                        &&& forall|k: PathView|
                            #[trigger] self@.has(k) && k.parent() == Some(p) ==> exists|i: int|
                                0 <= i < found.len() && (#[trigger] found[i]).file_name
                                    == k.parts.last()
                        &&& forall|i: int, j: int|
                            0 <= i < found.len() && 0 <= j < found.len() && (
                            #[trigger] found[i]).file_name == (#[trigger] found[j]).file_name
                                ==> i == j
                    },
                    Some(k) => r matches Err(e) && e.is(k),
                }
            }),
    {
        let p = self.resolve(path);
        let paths = match self.registry.read_dir(&p) {
            Ok(paths) => paths,
            Err(e) => {
                return Err(e);
            },
        };
        let mut entries: Vec<DirEntry> = Vec::new();
        let mut i: usize = 0;
        while i < paths.len()
            invariant
                i <= paths.len(),
                entries@.len() == i,
                forall|j: int| 0 <= j < paths@.len() ==> (#[trigger] paths@[j])@.parent() == Some(p@),
                forall|j: int|
                    0 <= j < i ==> (#[trigger] entries@[j])@.parent == path@ && entries@[j]@.file_name
                        == paths@[j]@.parts.last(),
            decreases paths.len() - i,
        {
            let name = match paths[i].file_name() {
                Some(name) => name,
                None => Vec::new(),
            };
            entries.push(DirEntry::new(path, name.as_slice()));
            i += 1;
        }
        let rd = ReadDir::new(entries);
        proof {
            let found = rd.remaining();
            assert forall|j: int| 0 <= j < paths@.len() implies (#[trigger] paths@[j])@ == (PathView {
                rooted: p@.rooted,
                parts: p@.parts.push(paths@[j]@.parts.last()),
            }) by {
                let k = paths@[j]@;
                assert(k.parent() == Some(p@));
                assert(k.parts =~= k.parts.drop_last().push(k.parts.last()));
            }
            assert forall|a: int| 0 <= a < found.len() implies (#[trigger] found[a]).parent == path@
                && self@.has(
                PathView { rooted: p@.rooted, parts: p@.parts.push(found[a].file_name) },
            ) by {
                assert(found[a] == entries@[a]@);
                assert(self@.has(paths@[a]@));
            }
            assert forall|k: PathView| #[trigger]
                self@.has(k) && k.parent() == Some(p@) implies exists|a: int|
                0 <= a < found.len() && (#[trigger] found[a]).file_name == k.parts.last() by {
                let a = choose|a: int| 0 <= a < paths@.len() && #[trigger] paths@[a]@ == k;
                assert(found[a] == entries@[a]@);
            }
            assert forall|a: int, b: int|
                0 <= a < found.len() && 0 <= b < found.len() && (#[trigger] found[a]).file_name == (
                #[trigger] found[b]).file_name implies a == b by {
                assert(found[a] == entries@[a]@);
                assert(found[b] == entries@[b]@);
                assert(paths@[a]@ == paths@[b]@);
            }
        }
        Ok(rd)
    }

    /// Takes the file under `path` out of the file system. Handles opened on
    /// it keep its bytes.
    pub fn remove_file(&mut self, path: &FsPath) -> (r: Result<(), Error>)
        requires
            old(self).wf(),
        ensures
            final(self).wf(),
            ({
                let p = old(self)@.absolute(path@);
                match old(self)@.file_error(p) {
                    None => r is Ok && final(self)@ == old(self)@.without(p),
                    Some(k) => r matches Err(e) && e.is(k) && final(self)@ == old(self)@,
                }
            }),
    {
        let p = self.resolve(path);
        self.registry.remove_file(&p)
    }

    /// Copies the bytes of the file under `from` to `to`.
    pub fn copy_file(&mut self, from: &FsPath, to: &FsPath) -> (r: Result<(), Error>)
        requires
            old(self).wf(),
        ensures
            final(self).wf(),
            ({
                let f = old(self)@.absolute(from@);
                let t = old(self)@.absolute(to@);
                match old(self)@.copy_error(f, t) {
                    None => r is Ok && final(self)@ == old(self)@.written(
                        t,
                        old(self)@.bytes_at(f),
                    ),
                    Some(k) => r matches Err(e) && e.is(k) && final(self)@ == old(self)@,
                }
            }),
    {
        let f = self.resolve(from);
        let t = self.resolve(to);
        self.registry.copy_file(&f, &t)
    }

    /// Renames the entry under `from` to `to`, with all that is below it.
    pub fn rename(&mut self, from: &FsPath, to: &FsPath) -> (r: Result<(), Error>)
        requires
            old(self).wf(),
        ensures
            final(self).wf(),
            ({
                let f = old(self)@.absolute(from@);
                let t = old(self)@.absolute(to@);
                match old(self)@.rename_error(f, t) {
                    None => r is Ok && final(self)@ == old(self)@.moved(f, t),
                    Some(k) => r matches Err(e) && e.is(k) && final(self)@ == old(self)@,
                }
            }),
    {
        let f = self.resolve(from);
        let t = self.resolve(to);
        self.registry.rename(&f, &t)
    }

    /// The canonical form of `path`. The empty path has none.
    pub fn canonicalize(&self, path: &FsPath) -> (r: Result<FsPath, Error>)
        requires
            self.wf(),
        ensures
            ({
                let p = self@.absolute(path@);
                if !path@.rooted && path@.parts.len() == 0 {
                    r matches Err(e) && e.is(ErrorKind::NotFound)
                } else {
                    match self@.canonicalize_error(p) {
                        None => r matches Ok(c) && c@ == p.resolved(p.parts.len()),
                        Some(k) => r matches Err(e) && e.is(k),
                    }
                }
            }),
    {
        if path.is_empty() {
            return Err(create_error(ErrorKind::NotFound));
        }
        let p = self.resolve(path);
        self.registry.canonicalize_path(&p)
    }
}

} // verus!
