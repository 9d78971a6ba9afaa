//! The registry: which node stands under which path, the working directory,
//! and every operation that is addressed by path.

use vstd::prelude::*;
use crate::error::{create_error, Error, ErrorKind};
use crate::model::{
    lemma_default_mode, lemma_existing_depth, lemma_moved_file, lemma_nothing_below_file,
    lemma_nothing_within_absent, lemma_rebase_back, lemma_walk_error_stays, lemma_wf_insert,
    lemma_wf_moved, lemma_wf_remove, lemma_wf_same_entries, lemma_wf_without_tree, rebase_view,
    root_view, RegistryView,
};
use crate::node::{
    mode_can_read, mode_can_write, mode_with_readonly, CellStore, Dir, File, Node, SharedContents,
    DEFAULT_MODE, READ_BITS,
};
use crate::path::{bytes_clone, FsPath, PathView};

verus! {

/// One name and the node that stands under it.
#[derive(Debug)]
pub struct Entry {
    pub path: FsPath,
    pub node: Node,
}

/// Whether some entry of `files` stands under `p`.
pub open spec fn listed(files: Seq<Entry>, p: PathView) -> bool {
    exists|i: int| 0 <= i < files.len() && #[trigger] files[i].path@ == p
}

/// Where in `files` the entry under `p` stands.
pub open spec fn place_of(files: Seq<Entry>, p: PathView) -> int {
    choose|i: int| 0 <= i < files.len() && #[trigger] files[i].path@ == p
}

/// Whether no path occurs twice in `files`.
pub open spec fn distinct(files: Seq<Entry>) -> bool {
    forall|i: int, j: int|
        0 <= i < files.len() && 0 <= j < files.len() && #[trigger] files[i].path@
            == #[trigger] files[j].path@ ==> i == j
}

/// The node under each path of `files`.
pub open spec fn as_map(files: Seq<Entry>) -> Map<PathView, Node> {
    Map::new(|p: PathView| listed(files, p), |p: PathView| files[place_of(files, p)].node)
}

/// In a list without repeats, each entry is what the map holds under its path.
pub proof fn lemma_as_map_at(files: Seq<Entry>, i: int)
    requires
        distinct(files),
        0 <= i < files.len(),
    ensures
        as_map(files).dom().contains(files[i].path@),
        as_map(files)[files[i].path@] == files[i].node,
{
    let p = files[i].path@;
    assert(listed(files, p));
    let j = place_of(files, p);
    assert(files[j].path@ == files[i].path@);
}

/// A new path at the end of the list is one more key in the map.
pub proof fn lemma_as_map_push(files: Seq<Entry>, e: Entry)
    requires
        distinct(files),
        !listed(files, e.path@),
    ensures
        distinct(files.push(e)),
        as_map(files.push(e)) == as_map(files).insert(e.path@, e.node),
{
    let after = files.push(e);
    assert forall|i: int, j: int|
        0 <= i < after.len() && 0 <= j < after.len() && #[trigger] after[i].path@
            == #[trigger] after[j].path@ implies i == j by {
        if i < files.len() && j < files.len() {
            assert(files[i].path@ == files[j].path@);
        } else if i < files.len() {
            assert(files[i].path@ == e.path@);
        } else if j < files.len() {
            assert(files[j].path@ == e.path@);
        }
    }
    assert forall|p: PathView| listed(after, p) <==> (listed(files, p) || p == e.path@) by {
        if listed(after, p) {
            let i = place_of(after, p);
            if i < files.len() {
                assert(files[i].path@ == p);
            }
        }
        if listed(files, p) {
            let i = place_of(files, p);
            assert(after[i].path@ == p);
        }
        if p == e.path@ {
            assert(after[files.len() as int].path@ == p);
        }
    }
    assert forall|p: PathView| listed(after, p) implies #[trigger] as_map(after)[p] == as_map(
        files,
    ).insert(e.path@, e.node)[p] by {
        let i = place_of(after, p);
        lemma_as_map_at(after, i);
        if i < files.len() {
            lemma_as_map_at(files, i);
        }
    }
    assert(as_map(after) =~= as_map(files).insert(e.path@, e.node));
}

/// Taking an entry out of the list takes its key out of the map.
pub proof fn lemma_as_map_remove(files: Seq<Entry>, i: int)
    requires
        distinct(files),
        0 <= i < files.len(),
    ensures
        distinct(files.remove(i)),
        as_map(files.remove(i)) == as_map(files).remove(files[i].path@),
{
    let after = files.remove(i);
    let gone = files[i].path@;
    assert forall|a: int, b: int|
        0 <= a < after.len() && 0 <= b < after.len() && #[trigger] after[a].path@
            == #[trigger] after[b].path@ implies a == b by {
        let a0 = if a < i { a } else { a + 1 };
        let b0 = if b < i { b } else { b + 1 };
        assert(files[a0].path@ == files[b0].path@);
    }
    assert forall|p: PathView| listed(after, p) <==> (listed(files, p) && p != gone) by {
        if listed(after, p) {
            let a = place_of(after, p);
            let a0 = if a < i { a } else { a + 1 };
            assert(files[a0].path@ == p);
            assert(files[a0].path@ == files[i].path@ ==> a0 == i);
        }
        if listed(files, p) && p != gone {
            let a0 = place_of(files, p);
            let a = if a0 < i { a0 } else { a0 - 1 };
            assert(after[a].path@ == p);
        }
    }
    assert forall|p: PathView| listed(after, p) implies #[trigger] as_map(after)[p] == as_map(
        files,
    ).remove(gone)[p] by {
        let a = place_of(after, p);
        lemma_as_map_at(after, a);
        let a0 = if a < i { a } else { a + 1 };
        lemma_as_map_at(files, a0);
    }
    assert(as_map(after) =~= as_map(files).remove(gone));
}

/// When each path of a list that is within `from` gets `to` in place of its
/// leading `from`, the list holds what stood there, moved.
pub proof fn lemma_as_map_moved(
    a: RegistryView,
    before: Seq<Entry>,
    after: Seq<Entry>,
    from: PathView,
    to: PathView,
)
    requires
        distinct(before),
        as_map(before) == a.entries.remove(to),
        !to.within(from),
        forall|k: PathView| #[trigger] a.has(k) && k.within(to) ==> k == to,
        after.len() == before.len(),
        forall|j: int|
            0 <= j < before.len() ==> (#[trigger] after[j]).node == before[j].node && after[j].path@
                == (if before[j].path@.within(from) {
                rebase_view(before[j].path@, from, to)
            } else {
                before[j].path@
            }),
    ensures
        distinct(after),
        as_map(after) == a.moved(from, to).entries,
{
    assert forall|j: int| 0 <= j < before.len() implies a.has((#[trigger] before[j]).path@)
        && before[j].path@ != to && a.entries[before[j].path@] == before[j].node by {
        lemma_as_map_at(before, j);
    }
    assert forall|i: int, j: int|
        0 <= i < after.len() && 0 <= j < after.len() && #[trigger] after[i].path@
            == #[trigger] after[j].path@ implies i == j by {
        let pi = before[i].path@;
        let pj = before[j].path@;
        assert(a.has(pi) && a.has(pj));
        if pi.within(from) {
            lemma_rebase_back(pi, from, to);
        }
        if pj.within(from) {
            lemma_rebase_back(pj, from, to);
        }
        assert(pi == pj);
    }
    let m = a.moved(from, to).entries;
    assert forall|k: PathView| listed(after, k) <==> m.dom().contains(k) by {
        if listed(after, k) {
            let j = place_of(after, k);
            let origin = before[j].path@;
            assert(a.has(origin));
            if origin.within(from) {
                lemma_rebase_back(origin, from, to);
            }
        }
        if m.dom().contains(k) {
            if k.within(to) {
                let k0 = rebase_view(k, to, from);
                lemma_rebase_back(k, to, from);
                assert(k0 != to) by {
                    if k0 == to {
                        assert(to.within(from));
                    }
                }
                assert(as_map(before).dom().contains(k0));
                let j = place_of(before, k0);
                assert(before[j].path@ == k0);
                assert(after[j].path@ == k);
            } else {
                assert(k != to) by {
                    assert(to.parts.subrange(0, to.parts.len() as int) =~= to.parts);
                }
                assert(as_map(before).dom().contains(k));
                let j = place_of(before, k);
                assert(before[j].path@ == k);
                assert(after[j].path@ == k);
            }
        }
    }
    assert forall|k: PathView| listed(after, k) implies #[trigger] as_map(after)[k] == m[k] by {
        let j = place_of(after, k);
        lemma_as_map_at(after, j);
        let origin = before[j].path@;
        assert(a.has(origin));
        if origin.within(from) {
            lemma_rebase_back(origin, from, to);
        }
    }
    assert(as_map(after) =~= m);
}

/// Whether `k` is among the entries asked for: those directly inside `base`,
/// or all those below it.
pub open spec fn picks(k: PathView, base: PathView, direct: bool) -> bool {
    if direct {
        k.child_of(base)
    } else {
        k.below(base)
    }
}

/// The store of file-system nodes by path, with the working directory.
#[derive(Debug)]
pub struct Registry {
    cwd: FsPath,
    files: Vec<Entry>,
    store: CellStore,
}

impl View for Registry {
    type V = RegistryView;

    closed spec fn view(&self) -> RegistryView {
        RegistryView { cwd: self.cwd@, entries: as_map(self.files@), store: self.store@ }
    }
}

impl Registry {
    /// Whether the registry is in order: no path is listed twice, and what it
    /// holds is in order.
    pub closed spec fn wf(&self) -> bool {
        distinct(self.files@) && self@.wf()
    }

    /// In a registry that is in order, what it holds is in order.
    pub proof fn lemma_wf_view(&self)
        requires
            self.wf(),
        ensures
            self@.wf(),
    {
    }

    /// A registry that holds the root directory and nothing else, with the
    /// root as working directory.
    pub fn new() -> (r: Registry)
        ensures
            r.wf(),
            r@ == RegistryView::initial(),
    {
        let cwd = FsPath::root();
        let mut store = CellStore::new();
        let dir = Dir::new(&mut store);
        let mut files: Vec<Entry> = Vec::new();
        let entry = Entry { path: FsPath::root(), node: Node::Dir(dir) };
        proof {
            assert(!listed(files@, entry.path@));
            lemma_as_map_push(files@, entry);
            assert(as_map(files@) =~= Map::<PathView, Node>::empty());
            assert(entry.path@ == root_view());
        }
        files.push(entry);
        let r = Registry { cwd, files, store };
        proof {
            assert(r@.store.modes =~= seq![DEFAULT_MODE]);
            assert(r@.store.contents =~= Seq::<Seq<u8>>::empty());
            assert(r@.cwd == root_view());
            r.store.lemma_fits();
            assert forall|k: PathView| #[trigger] r@.has(k) implies k == root_view() by {}
        }
        r
    }

    /// Where the entry under `path` stands in the list, if there is one.
    fn find(&self, path: &FsPath) -> (place: Option<usize>)
        requires
            distinct(self.files@),
        ensures
            match place {
                Some(i) => i < self.files@.len() && self.files@[i as int].path@ == path@
                    && self@.has(path@) && self@.entries[path@] == self.files@[i as int].node,
                None => !self@.has(path@),
            },
    {
        let mut i: usize = 0;
        while i < self.files.len()
            invariant
                i <= self.files.len(),
                distinct(self.files@),
                forall|j: int| 0 <= j < i ==> self.files@[j].path@ != path@,
            decreases self.files.len() - i,
        {
            if self.files[i].path.same(path) {
                proof {
                    lemma_as_map_at(self.files@, i as int);
                }
                return Some(i);
            }
            i += 1;
        }
        None
    }

    /// The working directory, as long as it still is a directory.
    pub fn current_dir(&self) -> (r: Result<FsPath, Error>)
        requires
            self.wf(),
        ensures
            match self@.dir_error(self@.cwd) {
                None => r matches Ok(p) && p@ == self@.cwd,
                Some(k) => r matches Err(e) && e.is(k),
            },
    {
        match self.get_dir(&self.cwd) {
            Ok(_) => Ok(self.cwd.duplicate()),
            Err(e) => Err(e),
        }
    }

    /// Makes `cwd` the working directory, if a directory stands under it.
    pub fn set_current_dir(&mut self, cwd: FsPath) -> (r: Result<(), Error>)
        requires
            old(self).wf(),
        ensures
            final(self).wf(),
            final(self)@.entries == old(self)@.entries,
            final(self)@.store == old(self)@.store,
            match old(self)@.dir_error(cwd@) {
                None => r is Ok && final(self)@.cwd == cwd@,
                Some(k) => r matches Err(e) && e.is(k) && final(self)@.cwd == old(self)@.cwd,
            },
    {
        match self.get_dir(&cwd) {
            Ok(_) => {
                assert(self@.has(cwd@) && cwd@.rooted);
                self.cwd = cwd;
                proof {
                    self.store.lemma_fits();
                    lemma_wf_same_entries(old(self)@, self@);
                }
                Ok(())
            },
            Err(e) => Err(e),
        }
    }

    /// Whether a directory stands under `path`.
    pub fn is_dir(&self, path: &FsPath) -> (b: bool)
        requires
            self.wf(),
        ensures
            b == self@.has_dir(path@),
            !self@.has(path@) ==> !b,
    {
        match self.get(path) {
            Ok(node) => node.is_dir(),
            Err(_) => false,
        }
    }

    /// Whether a file stands under `path`.
    pub fn is_file(&self, path: &FsPath) -> (b: bool)
        requires
            self.wf(),
        ensures
            b == self@.has_file(path@),
            !self@.has(path@) ==> !b,
    {
        match self.get(path) {
            Ok(node) => node.is_file(),
            Err(_) => false,
        }
    }

    /// The node under `path`.
    pub fn get(&self, path: &FsPath) -> (r: Result<Node, Error>)
        requires
            self.wf(),
        ensures
            match self@.get_error(path@) {
                None => r == Ok::<Node, Error>(self@.entries[path@]),
                Some(k) => r matches Err(e) && e.is(k),
            },
    {
        match self.find(path) {
            Some(i) => Ok(self.files[i].node),
            None => Err(create_error(ErrorKind::NotFound)),
        }
    }

    /// The directory under `path`.
    pub fn get_dir(&self, path: &FsPath) -> (r: Result<Dir, Error>)
        requires
            self.wf(),
        ensures
            match self@.dir_error(path@) {
                None => r matches Ok(d) && self@.entries[path@] == Node::Dir(d),
                Some(k) => r matches Err(e) && e.is(k),
            },
    {
        match self.get(path) {
            Ok(Node::Dir(dir)) => Ok(dir),
            Ok(Node::File(_)) => Err(create_error(ErrorKind::Other)),
            Err(e) => Err(e),
        }
    }

    /// The directory under `path`, if what it holds may be changed.
    pub fn get_dir_writable(&self, path: &FsPath) -> (r: Result<Dir, Error>)
        requires
            self.wf(),
        ensures
            match self@.dir_writable_error(path@) {
                None => r matches Ok(d) && self@.entries[path@] == Node::Dir(d),
                Some(k) => r matches Err(e) && e.is(k),
            },
    {
        match self.get(path) {
            Ok(Node::Dir(dir)) => {
                if dir.mode.can_write(&self.store) {
                    Ok(dir)
                } else {
                    Err(create_error(ErrorKind::PermissionDenied))
                }
            },
            Ok(Node::File(_)) => Err(create_error(ErrorKind::Other)),
            Err(e) => Err(e),
        }
    }

    /// The file under `path`.
    pub fn get_file(&self, path: &FsPath) -> (r: Result<File, Error>)
        requires
            self.wf(),
        ensures
            match self@.file_error(path@) {
                None => r matches Ok(f) && self@.entries[path@] == Node::File(f),
                Some(k) => r matches Err(e) && e.is(k),
            },
    {
        match self.get(path) {
            Ok(Node::File(file)) => Ok(file),
            Ok(Node::Dir(_)) => Err(create_error(ErrorKind::Other)),
            Err(e) => Err(e),
        }
    }

    /// The file under `path`, if it may be written.
    pub fn get_file_writable(&self, path: &FsPath) -> (r: Result<File, Error>)
        requires
            self.wf(),
        ensures
            match self@.file_writable_error(path@) {
                None => r matches Ok(f) && self@.entries[path@] == Node::File(f),
                Some(k) => r matches Err(e) && e.is(k),
            },
    {
        match self.get(path) {
            Ok(Node::File(file)) => {
                if file.mode.can_write(&self.store) {
                    Ok(file)
                } else {
                    Err(create_error(ErrorKind::PermissionDenied))
                }
            },
            Ok(Node::Dir(_)) => Err(create_error(ErrorKind::Other)),
            Err(e) => Err(e),
        }
    }

    /// The file under `path`, if it may be read.
    pub fn get_file_readable(&self, path: &FsPath) -> (r: Result<File, Error>)
        requires
            self.wf(),
        ensures
            match self@.file_readable_error(path@) {
                None => r matches Ok(f) && self@.entries[path@] == Node::File(f),
                Some(k) => r matches Err(e) && e.is(k),
            },
    {
        match self.get(path) {
            Ok(Node::File(file)) => {
                if file.mode.can_read(&self.store) {
                    Ok(file)
                } else {
                    Err(create_error(ErrorKind::PermissionDenied))
                }
            },
            Ok(Node::Dir(_)) => Err(create_error(ErrorKind::Other)),
            Err(e) => Err(e),
        }
    }

    /// The content cell of the file under `path`, if the file may be read.
    pub fn get_contents_if_readable(&self, path: &FsPath) -> (r: Result<SharedContents, Error>)
        requires
            self.wf(),
        ensures
            match self@.file_readable_error(path@) {
                None => r matches Ok(c) && c == self@.entries[path@]->File_0.contents
                    && c.live_in(self@.store),
                Some(k) => r matches Err(e) && e.is(k),
            },
    {
        match self.get_file_readable(path) {
            Ok(f) => Ok(f.contents),
            Err(err) => Err(err),
        }
    }

    /// The content cell of the file under `path`, if the file may be written.
    pub fn get_contents_if_writable(&self, path: &FsPath) -> (r: Result<SharedContents, Error>)
        requires
            self.wf(),
        ensures
            match self@.file_writable_error(path@) {
                None => r matches Ok(c) && c == self@.entries[path@]->File_0.contents
                    && c.live_in(self@.store),
                Some(k) => r matches Err(e) && e.is(k),
            },
    {
        match self.get_file_writable(path) {
            Ok(f) => Ok(f.contents),
            Err(err) => Err(err),
        }
    }

    /// The cells of this registry, for the handles that read them.
    pub fn store(&self) -> (store: &CellStore)
        ensures
            store@ == self@.store,
    {
        &self.store
    }

    /// Why no new node can be put under `path`, if none can.
    fn insert_error_kind(&self, path: &FsPath) -> (k: Option<ErrorKind>)
        requires
            self.wf(),
        ensures
            k == self@.insert_error(path@),
            k is None ==> path@.rooted && path@.parts.len() > 0 && self@.has_dir(
                path@.parent().unwrap(),
            ),
    {
        if self.find(path).is_some() {
            return Some(ErrorKind::AlreadyExists);
        }
        match path.parent() {
            Some(q) => match self.get_dir_writable(&q) {
                Ok(_) => {
                    assert(self@.has(q@) && q@.rooted);
                    None
                },
                Err(e) => Some(e.kind()),
            },
            None => Some(ErrorKind::NotFound),
        }
    }

    /// Puts `node` under `path`, where nothing stands yet and the parent is a
    /// directory that may be changed.
    fn insert(&mut self, path: FsPath, node: Node) -> (r: Result<(), Error>)
        requires
            old(self).wf(),
            node.live_in(old(self)@.store),
            forall|k: PathView| #[trigger]
                old(self)@.has(k) ==> old(self)@.entries[k].mode_cell() != node.mode_cell(),
            forall|k: PathView| #[trigger]
                old(self)@.has_file(k) && node is File ==> old(self)@.entries[k]->File_0.contents
                    != node->File_0.contents,
        ensures
            final(self).wf(),
            final(self)@.cwd == old(self)@.cwd,
            final(self)@.store == old(self)@.store,
            match old(self)@.insert_error(path@) {
                None => r is Ok && final(self)@.entries == old(self)@.entries.insert(path@, node),
                Some(k) => r matches Err(e) && e.is(k) && final(self)@.entries
                    == old(self)@.entries,
            },
    {
        match self.insert_error_kind(&path) {
            Some(k) => Err(create_error(k)),
            None => {
                let entry = Entry { path, node };
                proof {
                    lemma_as_map_push(self.files@, entry);
                }
                self.files.push(entry);
                proof {
                    self.store.lemma_fits();
                    lemma_wf_insert(old(self)@, self@, path@, node);
                }
                Ok(())
            },
        }
    }

    /// Takes out the entry under `path`, which has nothing below it, and hands
    /// back its node.
    fn remove(&mut self, path: &FsPath) -> (r: Result<Node, Error>)
        requires
            old(self).wf(),
            path@ != root_view(),
            !old(self)@.has_below(path@),
        ensures
            final(self).wf(),
            final(self)@.cwd == old(self)@.cwd,
            final(self)@.store == old(self)@.store,
            match old(self)@.get_error(path@) {
                None => r == Ok::<Node, Error>(old(self)@.entries[path@]) && final(self)@
                    == old(self)@.without(path@),
                Some(k) => r matches Err(e) && e.is(k) && final(self)@ == old(self)@,
            },
    {
        match self.find(path) {
            Some(i) => {
                proof {
                    lemma_as_map_remove(self.files@, i as int);
                }
                let entry = self.files.remove(i);
                proof {
                    self.store.lemma_fits();
                    lemma_wf_remove(old(self)@, self@, path@);
                }
                Ok(entry.node)
            },
            None => Err(create_error(ErrorKind::NotFound)),
        }
    }

    /// Makes a directory under `path`, with the default permission word. The
    /// parent must be a directory that may be changed, and nothing may stand
    /// under `path` yet.
    pub fn create_dir(&mut self, path: &FsPath) -> (r: Result<(), Error>)
        requires
            old(self).wf(),
        ensures
            final(self).wf(),
            match old(self)@.insert_error(path@) {
                None => r is Ok && final(self)@ == old(self)@.with_dir(path@),
                Some(k) => r matches Err(e) && e.is(k) && final(self)@ == old(self)@,
            },
    {
        match self.insert_error_kind(path) {
            Some(k) => Err(create_error(k)),
            None => {
                let dir = Dir::new(&mut self.store);
                proof {
                    self.store.lemma_fits();
                    lemma_wf_same_entries(old(self)@, self@);
                    assert forall|k: PathView| #[trigger] self@.has(k) implies self@.entries[k].mode_cell()
                        != dir.mode by {
                        assert(old(self)@.has(k));
                    }
                }
                let r = self.insert(path.duplicate(), Node::Dir(dir));
                assert(self@.entries =~= old(self)@.with_dir(path@).entries);
                r
            },
        }
    }

    /// Makes a file under `path` that holds `buf`, or replaces what the file
    /// there holds. A file that stands there must be writable; it keeps its
    /// cells, so handles opened on it see the new bytes.
    pub fn create_file(&mut self, path: &FsPath, buf: &[u8]) -> (r: Result<(), Error>)
        requires
            old(self).wf(),
        ensures
            final(self).wf(),
            match old(self)@.write_error(path@) {
                None => r is Ok && final(self)@ == old(self)@.written(path@, buf@),
                Some(k) => r matches Err(e) && e.is(k) && final(self)@ == old(self)@,
            },
    {
        self.write_file(path, buf)
    }

    /// Writes `buf` under `path`: into the file that stands there, if it is
    /// writable, or into a new file.
    pub fn write_file(&mut self, path: &FsPath, buf: &[u8]) -> (r: Result<(), Error>)
        requires
            old(self).wf(),
        ensures
            final(self).wf(),
            match old(self)@.write_error(path@) {
                None => r is Ok && final(self)@ == old(self)@.written(path@, buf@),
                Some(k) => r matches Err(e) && e.is(k) && final(self)@ == old(self)@,
            },
    {
        match self.get_file_writable(path) {
            Ok(f) => {
                assert(old(self)@.has(path@));
                *f.contents.borrow_mut(&mut self.store) = bytes_clone(buf);
                proof {
                    self.store.lemma_fits();
                    lemma_wf_same_entries(old(self)@, self@);
                }
                Ok(())
            },
            Err(e) => {
                if self.find(path).is_some() {
                    return Err(e);
                }
                match self.insert_error_kind(path) {
                    Some(k) => Err(create_error(k)),
                    None => {
                        let file = File::new(&mut self.store, bytes_clone(buf));
                        proof {
                            self.store.lemma_fits();
                    lemma_wf_same_entries(old(self)@, self@);
                            assert forall|k: PathView| #[trigger] self@.has(k) implies self@.entries[k].mode_cell()
                                != file.mode by {
                                assert(old(self)@.has(k));
                            }
                            assert forall|k: PathView| #[trigger]
                                self@.has_file(k) implies self@.entries[k]->File_0.contents
                                != file.contents by {
                                assert(old(self)@.has(k));
                            }
                        }
                        let r = self.insert(path.duplicate(), Node::File(file));
                        assert(self@.entries =~= old(self)@.with_file(path@, buf@).entries);
                        r
                    },
                }
            },
        }
    }

    /// Replaces what the file under `path` holds by `buf`. The file must
    /// stand there and be writable.
    pub fn overwrite_file(&mut self, path: &FsPath, buf: &[u8]) -> (r: Result<(), Error>)
        requires
            old(self).wf(),
        ensures
            final(self).wf(),
            match old(self)@.file_writable_error(path@) {
                None => r is Ok && final(self)@ == old(self)@.with_bytes(path@, buf@),
                Some(k) => r matches Err(e) && e.is(k) && final(self)@ == old(self)@,
            },
    {
        match self.get_file_writable(path) {
            Ok(f) => {
                assert(old(self)@.has(path@));
                *f.contents.borrow_mut(&mut self.store) = bytes_clone(buf);
                proof {
                    self.store.lemma_fits();
                    lemma_wf_same_entries(old(self)@, self@);
                }
                Ok(())
            },
            Err(e) => Err(e),
        }
    }

    /// The bytes of the file under `path`, which must be readable.
    pub fn read_file(&self, path: &FsPath) -> (r: Result<Vec<u8>, Error>)
        requires
            self.wf(),
        ensures
            match self@.file_readable_error(path@) {
                None => r matches Ok(bytes) && bytes@ == self@.bytes_at(path@),
                Some(k) => r matches Err(e) && e.is(k),
            },
    {
        match self.get_contents_if_readable(path) {
            Ok(contents) => Ok(bytes_clone(contents.borrow(&self.store).as_slice())),
            Err(e) => Err(e),
        }
    }

    /// Takes the file under `path` out of the registry. Handles opened on it
    /// keep its cells.
    pub fn remove_file(&mut self, path: &FsPath) -> (r: Result<(), Error>)
        requires
            old(self).wf(),
        ensures
            final(self).wf(),
            match old(self)@.file_error(path@) {
                None => r is Ok && final(self)@ == old(self)@.without(path@),
                Some(k) => r matches Err(e) && e.is(k) && final(self)@ == old(self)@,
            },
    {
        match self.get_file(path) {
            Ok(_) => {
                proof {
                    lemma_nothing_below_file(self@, path@);
                    assert(self@.has_dir(root_view()));
                }
                match self.remove(path) {
                    Ok(_) => Ok(()),
                    Err(e) => Err(e),
                }
            },
            Err(e) => Err(e),
        }
    }

    /// The entries below `path`, or only those directly inside it, each with
    /// its permission word, in no particular order and none twice.
    fn select(&self, path: &FsPath, direct: bool) -> (found: Vec<(FsPath, u32)>)
        requires
            self.wf(),
        ensures
            forall|i: int|
                0 <= i < found@.len() ==> {
                    &&& self@.has((#[trigger] found@[i]).0@)
                    &&& picks(found@[i].0@, path@, direct)
                    &&& found@[i].1 == self@.mode_at(found@[i].0@)
                },
            forall|k: PathView|
                self@.has(k) && #[trigger] picks(k, path@, direct) ==> exists|i: int|
                    0 <= i < found@.len() && (#[trigger] found@[i]).0@ == k,
            forall|i: int, j: int|
                0 <= i < found@.len() && 0 <= j < found@.len() && (#[trigger] found@[i]).0@ == (
                #[trigger] found@[j]).0@ ==> i == j,
    {
        let mut found: Vec<(FsPath, u32)> = Vec::new();
        let ghost mut origin: Seq<int> = Seq::empty();
        let mut i: usize = 0;
        while i < self.files.len()
            invariant
                self.wf(),
                i <= self.files.len(),
                origin.len() == found@.len(),
                forall|a: int|
                    #![trigger found@[a]]
                    #![trigger origin[a]]
                    0 <= a < found@.len() ==> {
                        &&& 0 <= origin[a] < i
                        &&& found@[a].0@ == self.files@[origin[a]].path@
                        &&& picks(found@[a].0@, path@, direct)
                        &&& found@[a].1 == self@.mode_at(found@[a].0@)
                    },
                forall|a: int, b: int|
                    0 <= a < b < found@.len() ==> #[trigger] origin[a] < #[trigger] origin[b],
                forall|j: int|
                    0 <= j < i && picks(self.files@[j].path@, path@, direct) ==> #[trigger] origin.contains(j),
            decreases self.files.len() - i,
        {
            let entry = &self.files[i];
            let depth = entry.path.depth();
            proof {
                entry.path@.lemma_child_of(path@);
            }
            if entry.path.starts_with(path) && depth != path.depth() && (!direct || depth - 1
                == path.depth()) {
                proof {
                    lemma_as_map_at(self.files@, i as int);
                    assert(self@.has(entry.path@));
                    assert(entry.node.live_in(self@.store));
                }
                let mode = entry.node.mode().get(&self.store);
                let ghost before = found@;
                let ghost origin_before = origin;
                found.push((entry.path.duplicate(), mode));
                proof {
                    origin = origin.push(i as int);
                    assert forall|a: int|
                        #![trigger found@[a]]
                        #![trigger origin[a]]
                        0 <= a < found@.len() implies {
                        &&& 0 <= origin[a] < i + 1
                        &&& found@[a].0@ == self.files@[origin[a]].path@
                        &&& picks(found@[a].0@, path@, direct)
                        &&& found@[a].1 == self@.mode_at(found@[a].0@)
                    } by {
                        if a < before.len() {
                            assert(found@[a] == before[a]);
                            assert(origin[a] == origin_before[a]);
                        }
                    }
                    assert forall|a: int, b: int| 0 <= a < b < found@.len() implies #[trigger] origin[a]
                        < #[trigger] origin[b] by {
                        if b < before.len() {
                            assert(origin_before[a] < origin_before[b]);
                        } else {
                            assert(before[a].0@ == self.files@[origin_before[a]].path@);
                        }
                    }
                    assert forall|j: int|
                        0 <= j < i + 1 && picks(self.files@[j].path@, path@, direct) implies #[trigger] origin.contains(
                        j,
                    ) by {
                        if j < i {
                            assert(origin_before.contains(j));
                            let a = choose|a: int| 0 <= a < origin_before.len() && origin_before[a] == j;
                            assert(origin[a] == j);
                        } else {
                            assert(origin[origin.len() - 1] == j);
                        }
                    }
                }
            }
            i += 1;
        }
        proof {
            assert forall|a: int| 0 <= a < found@.len() implies self@.has(
                (#[trigger] found@[a]).0@,
            ) by {
                assert(found@[a].0@ == self.files@[origin[a]].path@);
                lemma_as_map_at(self.files@, origin[a]);
            }
            assert forall|k: PathView| self@.has(k) && #[trigger] picks(k, path@, direct) implies exists|
                a: int,
            |
                0 <= a < found@.len() && (#[trigger] found@[a]).0@ == k by {
                let j = place_of(self.files@, k);
                assert(self.files@[j].path@ == k);
                assert(origin.contains(j));
                let a = choose|a: int| 0 <= a < origin.len() && origin[a] == j;
                assert(found@[a].0@ == k);
            }
            assert forall|a: int, b: int|
                0 <= a < found@.len() && 0 <= b < found@.len() && (#[trigger] found@[a]).0@ == (
                #[trigger] found@[b]).0@ implies a == b by {
                assert(self.files@[origin[a]].path@ == self.files@[origin[b]].path@);
                if a < b {
                    assert(origin[a] < origin[b]);
                } else if b < a {
                    assert(origin[b] < origin[a]);
                }
            }
        }
        found
    }

    /// The entries below `path`, each with its permission word, in no
    /// particular order and none twice.
    pub fn descendants(&self, path: &FsPath) -> (found: Vec<(FsPath, u32)>)
        requires
            self.wf(),
        ensures
            forall|i: int|
                0 <= i < found@.len() ==> {
                    &&& self@.has((#[trigger] found@[i]).0@)
                    &&& found@[i].0@.below(path@)
                    &&& found@[i].1 == self@.mode_at(found@[i].0@)
                },
            forall|k: PathView|
                self@.has(k) && #[trigger] k.below(path@) ==> exists|i: int|
                    0 <= i < found@.len() && (#[trigger] found@[i]).0@ == k,
            forall|i: int, j: int|
                0 <= i < found@.len() && 0 <= j < found@.len() && (#[trigger] found@[i]).0@ == (
                #[trigger] found@[j]).0@ ==> i == j,
            (found@.len() == 0) == !self@.has_below(path@),
    {
        let found = self.select(path, false);
        proof {
            assert forall|k: PathView| self@.has(k) && #[trigger] k.below(path@) implies exists|
                i: int,
            |
                0 <= i < found@.len() && (#[trigger] found@[i]).0@ == k by {
                assert(picks(k, path@, false));
            }
            if found@.len() == 0 {
                if self@.has_below(path@) {
                    let k = choose|k: PathView| #[trigger] self@.has(k) && k.below(path@);
                    assert(k.below(path@));
                }
            } else {
                assert(self@.has(found@[0].0@) && found@[0].0@.below(path@));
            }
        }
        found
    }

    /// The paths of the entries directly inside `path`, in no particular
    /// order and none twice.
    pub fn children(&self, path: &FsPath) -> (found: Vec<FsPath>)
        requires
            self.wf(),
        ensures
            forall|i: int|
                0 <= i < found@.len() ==> self@.has(#[trigger] found@[i]@) && found@[i]@.parent()
                    == Some(path@),
            forall|k: PathView|
                #[trigger] self@.has(k) && k.parent() == Some(path@) ==> exists|i: int|
                    0 <= i < found@.len() && #[trigger] found@[i]@ == k,
            forall|i: int, j: int|
                0 <= i < found@.len() && 0 <= j < found@.len() && #[trigger] found@[i]@
                    == #[trigger] found@[j]@ ==> i == j,
    {
        let picked = self.select(path, true);
        let ghost all = picked@;
        let mut found: Vec<FsPath> = Vec::new();
        let mut i: usize = 0;
        while i < picked.len()
            invariant
                i <= picked.len(),
                picked@ == all,
                found@.len() == i,
                forall|a: int| 0 <= a < i ==> #[trigger] found@[a]@ == all[a].0@,
            decreases picked.len() - i,
        {
            found.push(picked[i].0.duplicate());
            i += 1;
        }
        proof {
            assert forall|a: int| 0 <= a < found@.len() implies self@.has(#[trigger] found@[a]@)
                && found@[a]@.parent() == Some(path@) by {
                assert(self@.has(all[a].0@));
                found@[a]@.lemma_child_of(path@);
            }
            assert forall|k: PathView| #[trigger]
                self@.has(k) && k.parent() == Some(path@) implies exists|a: int|
                0 <= a < found@.len() && #[trigger] found@[a]@ == k by {
                k.lemma_child_of(path@);
                assert(picks(k, path@, true));
                let a = choose|a: int| 0 <= a < all.len() && (#[trigger] all[a]).0@ == k;
                assert(found@[a]@ == k);
            }
            assert forall|a: int, b: int|
                0 <= a < found@.len() && 0 <= b < found@.len() && #[trigger] found@[a]@
                    == #[trigger] found@[b]@ implies a == b by {
                assert(all[a].0@ == all[b].0@);
            }
        }
        found
    }

    /// Removes the directory under `path`, which must hold nothing and must
    /// not be the root.
    pub fn remove_dir(&mut self, path: &FsPath) -> (r: Result<(), Error>)
        requires
            old(self).wf(),
        ensures
            final(self).wf(),
            match old(self)@.remove_dir_error(path@) {
                None => r is Ok && final(self)@ == old(self)@.without(path@),
                Some(k) => r matches Err(e) && e.is(k) && final(self)@ == old(self)@,
            },
    {
        match self.get_dir(path) {
            Ok(_) => {
                if !self.descendants(path).is_empty() || path.depth() == 0 {
                    proof {
                        if path@.parts.len() == 0 {
                            assert(self@.has(path@) && path@.rooted);
                            assert(path@.parts =~= root_view().parts);
                        }
                    }
                    return Err(create_error(ErrorKind::Other));
                }
            },
            Err(e) => {
                return Err(e);
            },
        }
        match self.remove(path) {
            Ok(_) => Ok(()),
            Err(e) => Err(e),
        }
    }

    /// Whether every one of the listed permission words allows reading.
    fn all_readable(listed: &Vec<(FsPath, u32)>) -> (b: bool)
        ensures
            b == forall|i: int| 0 <= i < listed@.len() ==> mode_can_read((#[trigger] listed@[i]).1),
    {
        let mut i: usize = 0;
        while i < listed.len()
            invariant
                i <= listed.len(),
                forall|j: int| 0 <= j < i ==> mode_can_read((#[trigger] listed@[j]).1),
            decreases listed.len() - i,
        {
            if listed[i].1 & READ_BITS == 0 {
                return false;
            }
            i += 1;
        }
        true
    }

    /// Removes the directory under `path` and all that is below it. The
    /// directory must allow changes and must not be the root, and every entry
    /// below it must be readable; otherwise nothing is removed.
    pub fn remove_dir_all(&mut self, path: &FsPath) -> (r: Result<(), Error>)
        requires
            old(self).wf(),
        ensures
            final(self).wf(),
            match old(self)@.remove_dir_all_error(path@) {
                None => r is Ok && final(self)@ == old(self)@.without_tree(path@),
                Some(k) => r matches Err(e) && e.is(k) && final(self)@ == old(self)@,
            },
    {
        match self.get_dir_writable(path) {
            Ok(_) => {},
            Err(e) => {
                return Err(e);
            },
        }
        let descendants = self.descendants(path);
        let all_readable = Self::all_readable(&descendants);
        proof {
            if all_readable {
                if self@.has_unreadable_below(path@) {
                    let k = choose|k: PathView| #[trigger]
                        self@.has(k) && k.below(path@) && !mode_can_read(self@.mode_at(k));
                    assert(k.below(path@));
                    let i = choose|i: int|
                        0 <= i < descendants@.len() && (#[trigger] descendants@[i]).0@ == k;
                    assert(mode_can_read(descendants@[i].1));
                }
            } else {
                let i = choose|i: int|
                    0 <= i < descendants@.len() && !mode_can_read((#[trigger] descendants@[i]).1);
                assert(self@.has(descendants@[i].0@));
            }
        }
        if !all_readable {
            return Err(create_error(ErrorKind::PermissionDenied));
        }
        if path.depth() == 0 {
            proof {
                assert(self@.has(path@) && path@.rooted);
                assert(path@.parts =~= root_view().parts);
            }
            return Err(create_error(ErrorKind::Other));
        }
        let mut i: usize = 0;
        while i < self.files.len()
            invariant
                i <= self.files.len(),
                distinct(self.files@),
                self.store == old(self).store,
                self.cwd == old(self).cwd,
                forall|k: PathView| #[trigger]
                    as_map(self.files@).dom().contains(k) ==> old(self)@.has(k) && as_map(
                        self.files@,
                    )[k] == old(self)@.entries[k],
                forall|k: PathView|
                    old(self)@.has(k) && !k.within(path@) ==> #[trigger] as_map(
                        self.files@,
                    ).dom().contains(k),
                forall|j: int| 0 <= j < i ==> !(#[trigger] self.files@[j]).path@.within(path@),
            decreases self.files.len() - i,
        {
            if self.files[i].path.starts_with(path) {
                proof {
                    lemma_as_map_remove(self.files@, i as int);
                }
                self.files.remove(i);
            } else {
                i += 1;
            }
        }
        proof {
            assert forall|k: PathView| as_map(self.files@).dom().contains(k) implies !k.within(
                path@,
            ) by {
                let j = place_of(self.files@, k);
                assert(self.files@[j].path@ == k);
            }
            assert(self@.entries =~= old(self)@.without_tree(path@).entries);
            lemma_wf_without_tree(old(self)@, path@);
        }
        Ok(())
    }

    /// The paths of the entries directly inside the directory under `path`,
    /// in no particular order and none twice.
    pub fn read_dir(&self, path: &FsPath) -> (r: Result<Vec<FsPath>, Error>)
        requires
            self.wf(),
        ensures
            match self@.dir_error(path@) {
                None => r matches Ok(found) && {
                    &&& forall|i: int|
                        0 <= i < found@.len() ==> self@.has(#[trigger] found@[i]@)
                            && found@[i]@.parent() == Some(path@)
                    &&& forall|k: PathView|
                        #[trigger] self@.has(k) && k.parent() == Some(path@) ==> exists|i: int|
                            0 <= i < found@.len() && #[trigger] found@[i]@ == k
                    &&& forall|i: int, j: int|
                        0 <= i < found@.len() && 0 <= j < found@.len() && #[trigger] found@[i]@
                            == #[trigger] found@[j]@ ==> i == j
                },
                Some(k) => r matches Err(e) && e.is(k),
            },
    {
        match self.get_dir(path) {
            Ok(_) => Ok(self.children(path)),
            Err(e) => Err(e),
        }
    }

    /// Copies the bytes of the file under `from` to `to`, as `write_file`
    /// writes them. A directory under `from` is refused as invalid input.
    pub fn copy_file(&mut self, from: &FsPath, to: &FsPath) -> (r: Result<(), Error>)
        requires
            old(self).wf(),
        ensures
            final(self).wf(),
            match old(self)@.copy_error(from@, to@) {
                None => r is Ok && final(self)@ == old(self)@.written(
                    to@,
                    old(self)@.bytes_at(from@),
                ),
                Some(k) => r matches Err(e) && e.is(k) && final(self)@ == old(self)@,
            },
    {
        match self.read_file(from) {
            Ok(buf) => self.write_file(to, buf.as_slice()),
            Err(err) => {
                match err.kind() {
                    ErrorKind::Other => Err(create_error(ErrorKind::InvalidInput)),
                    _ => Err(err),
                }
            },
        }
    }

    /// Whether the node under `path` may not be written.
    pub fn readonly(&self, path: &FsPath) -> (r: Result<bool, Error>)
        requires
            self.wf(),
        ensures
            match self@.get_error(path@) {
                None => r == Ok::<bool, Error>(!mode_can_write(self@.mode_at(path@))),
                Some(k) => r matches Err(e) && e.is(k),
            },
    {
        match self.get(path) {
            Ok(node) => Ok(!node.mode().can_write(&self.store)),
            Err(e) => Err(e),
        }
    }

    /// Clears the write bits of the node under `path`, or sets them.
    pub fn set_readonly(&mut self, path: &FsPath, readonly: bool) -> (r: Result<(), Error>)
        requires
            old(self).wf(),
        ensures
            final(self).wf(),
            match old(self)@.get_error(path@) {
                None => r is Ok && final(self)@ == old(self)@.with_mode(
                    path@,
                    mode_with_readonly(old(self)@.mode_at(path@), readonly),
                ),
                Some(k) => r matches Err(e) && e.is(k) && final(self)@ == old(self)@,
            },
    {
        match self.get(path) {
            Ok(node) => {
                node.mode().make_readonly(&mut self.store, readonly);
                proof {
                    self.store.lemma_fits();
                    lemma_wf_same_entries(old(self)@, self@);
                }
                Ok(())
            },
            Err(e) => Err(e),
        }
    }

    /// The permission word of the node under `path`.
    pub fn mode(&self, path: &FsPath) -> (r: Result<u32, Error>)
        requires
            self.wf(),
        ensures
            match self@.get_error(path@) {
                None => r == Ok::<u32, Error>(self@.mode_at(path@)),
                Some(k) => r matches Err(e) && e.is(k),
            },
    {
        match self.get(path) {
            Ok(node) => Ok(node.mode().get(&self.store)),
            Err(e) => Err(e),
        }
    }

    /// Replaces the permission word of the node under `path`.
    pub fn set_mode(&mut self, path: &FsPath, mode: u32) -> (r: Result<(), Error>)
        requires
            old(self).wf(),
        ensures
            final(self).wf(),
            match old(self)@.get_error(path@) {
                None => r is Ok && final(self)@ == old(self)@.with_mode(path@, mode),
                Some(k) => r matches Err(e) && e.is(k) && final(self)@ == old(self)@,
            },
    {
        match self.get(path) {
            Ok(node) => {
                node.mode().set(&mut self.store, mode);
                proof {
                    self.store.lemma_fits();
                    lemma_wf_same_entries(old(self)@, self@);
                }
                Ok(())
            },
            Err(e) => Err(e),
        }
    }

    /// Why nothing can be put under `to`, whatever stands there now, if nothing can.
    fn landing_error_kind(&self, to: &FsPath) -> (k: Option<ErrorKind>)
        requires
            self.wf(),
        ensures
            k == self@.landing_error(to@),
            k is None ==> to@.rooted && to@.parts.len() > 0 && self@.has_dir(
                to@.parent().unwrap(),
            ),
    {
        match to.parent() {
            Some(q) => match self.get_dir_writable(&q) {
                Ok(_) => {
                    assert(self@.has(q@) && q@.rooted);
                    None
                },
                Err(e) => Some(e.kind()),
            },
            None => Some(ErrorKind::NotFound),
        }
    }

    /// Whether some entry below `path` stands in a directory that allows no change.
    fn locked_below(&self, path: &FsPath) -> (b: bool)
        requires
            self.wf(),
        ensures
            b == self@.has_locked_below(path@),
    {
        let below = self.descendants(path);
        let mut i: usize = 0;
        while i < below.len()
            invariant
                self.wf(),
                i <= below.len(),
                forall|j: int|
                    0 <= j < below@.len() ==> self@.has((#[trigger] below@[j]).0@)
                        && below@[j].0@.below(path@),
                forall|j: int|
                    0 <= j < i ==> mode_can_write(
                        self@.mode_at((#[trigger] below@[j]).0@.parent().unwrap()),
                    ),
            decreases below.len() - i,
        {
            let ghost k = below@[i as int].0@;
            assert(self@.has(k) && k.below(path@));
            assert(self@.has_dir(k.parent().unwrap()));
            match below[i].0.parent() {
                Some(q) => {
                    match self.get_dir_writable(&q) {
                        Ok(_) => {},
                        Err(_) => {
                            return true;
                        },
                    }
                },
                None => {},
            }
            i += 1;
        }
        proof {
            if self@.has_locked_below(path@) {
                let k = choose|k: PathView| #[trigger]
                    self@.has(k) && k.below(path@) && !mode_can_write(
                        self@.mode_at(k.parent().unwrap()),
                    );
                assert(k.below(path@));
                let j = choose|j: int| 0 <= j < below@.len() && (#[trigger] below@[j]).0@ == k;
                assert(mode_can_write(self@.mode_at(below@[j].0@.parent().unwrap())));
            }
        }
        false
    }

    /// Puts the file under `from` under the free path `to` instead.
    fn rename_path(&mut self, from: &FsPath, to: FsPath) -> (r: Result<(), Error>)
        requires
            old(self).wf(),
            old(self)@.has_file(from@),
            old(self)@.insert_error(to@) is None,
        ensures
            final(self).wf(),
            r is Ok,
            final(self)@.cwd == old(self)@.cwd,
            final(self)@.store == old(self)@.store,
            final(self)@.entries == old(self)@.entries.remove(from@).insert(
                to@,
                old(self)@.entries[from@],
            ),
    {
        proof {
            lemma_nothing_below_file(self@, from@);
            assert(self@.has_dir(root_view()));
        }
        let ghost q = to@.parent().unwrap();
        match self.remove(from) {
            Ok(file) => {
                proof {
                    assert(q != from@);
                    assert(self@.has(q));
                    assert forall|k: PathView| #[trigger] self@.has(k) implies self@.entries[k].mode_cell()
                        != file.mode_cell() by {
                        assert(old(self)@.has(k) && old(self)@.has(from@));
                    }
                    assert forall|k: PathView| #[trigger]
                        self@.has_file(k) && file is File implies self@.entries[k]->File_0.contents
                        != file->File_0.contents by {
                        assert(old(self)@.has_file(k) && old(self)@.has_file(from@));
                    }
                    assert(old(self)@.has(from@));
                    assert(file.live_in(self@.store));
                }
                self.insert(to, file)
            },
            Err(e) => Err(e),
        }
    }

    /// Moves the directory under `from`, with all below it, to `to`, where a
    /// directory that holds nothing may stand.
    fn move_dir(&mut self, from: &FsPath, to: &FsPath) -> (r: Result<(), Error>)
        requires
            old(self).wf(),
            old(self)@.has(from@),
            !to@.within(from@),
            old(self)@.landing_error(to@) is None,
            !old(self)@.has_below(to@),
        ensures
            final(self).wf(),
            r is Ok,
            final(self)@ == old(self)@.moved(from@, to@),
    {
        proof {
            assert(to@.rooted && to@.parts.len() > 0 && self@.has_dir(to@.parent().unwrap())) by {
                let q = to@.parent().unwrap();
                assert(self@.has(q) && q.rooted);
            }
            assert forall|k: PathView| #[trigger] self@.has(k) && k.within(to@) implies k
                == to@ by {
                if k != to@ {
                    if self@.has(to@) {
                        assert(k.parts.len() != to@.parts.len()) by {
                            if k.parts.len() == to@.parts.len() {
                                assert(k.parts =~= to@.parts);
                            }
                        }
                        assert(k.below(to@));
                    } else {
                        lemma_nothing_within_absent(self@, to@, k);
                    }
                }
            }
            assert(from@ != root_view()) by {
                if from@ == root_view() {
                    assert(to@.parts.subrange(0, 0) =~= from@.parts);
                    assert(to@.within(from@));
                }
            }
        }
        match self.find(to) {
            Some(i) => {
                proof {
                    lemma_as_map_remove(self.files@, i as int);
                }
                self.files.remove(i);
            },
            None => {
                assert(as_map(self.files@) =~= old(self)@.entries.remove(to@));
            },
        }
        let ghost before = self.files@;
        let mut i: usize = 0;
        while i < self.files.len()
            invariant
                i <= self.files.len(),
                self.files@.len() == before.len(),
                self.store == old(self).store,
                self.cwd == old(self).cwd,
                forall|j: int|
                    0 <= j < i ==> (#[trigger] self.files@[j]).node == before[j].node
                        && self.files@[j].path@ == (if before[j].path@.within(from@) {
                        rebase_view(before[j].path@, from@, to@)
                    } else {
                        before[j].path@
                    }),
                forall|j: int| i <= j < before.len() ==> #[trigger] self.files@[j] == before[j],
            decreases self.files.len() - i,
        {
            match self.files[i].path.strip_prefix(from) {
                Some(stem) => {
                    let node = self.files[i].node;
                    let path = to.followed_by(&stem);
                    self.files.set(i, Entry { path, node });
                },
                None => {},
            }
            i += 1;
        }
        proof {
            lemma_as_map_moved(old(self)@, before, self.files@, from@, to@);
            lemma_wf_moved(old(self)@, from@, to@);
        }
        Ok(())
    }

    /// Renames the entry under `from` to `to`, with all that is below it. A
    /// file may take the place of a file, and a directory that of a directory
    /// that holds nothing. Where the rename is refused, nothing changes.
    pub fn rename(&mut self, from: &FsPath, to: &FsPath) -> (r: Result<(), Error>)
        requires
            old(self).wf(),
        ensures
            final(self).wf(),
            match old(self)@.rename_error(from@, to@) {
                None => r is Ok && final(self)@ == old(self)@.moved(from@, to@),
                Some(k) => r matches Err(e) && e.is(k) && final(self)@ == old(self)@,
            },
    {
        let source = match self.get(from) {
            Ok(node) => node,
            Err(e) => {
                return Err(e);
            },
        };
        let target = self.get(to);
        let replaces = match target {
            Ok(node) => {
                if node.is_dir() != source.is_dir() || !self.descendants(to).is_empty() {
                    return Err(create_error(ErrorKind::Other));
                }
                true
            },
            Err(_) => {
                proof {
                    if self@.has_below(to@) {
                        let k = choose|k: PathView| #[trigger] self@.has(k) && k.below(to@);
                        lemma_nothing_within_absent(self@, to@, k);
                    }
                }
                false
            },
        };
        if to.starts_with(from) {
            return Err(create_error(ErrorKind::NotFound));
        }
        match self.landing_error_kind(to) {
            Some(k) => {
                return Err(create_error(k));
            },
            None => {},
        }
        if self.locked_below(from) {
            return Err(create_error(ErrorKind::PermissionDenied));
        }
        match source {
            Node::File(_) => {
                proof {
                    lemma_nothing_below_file(self@, from@);
                }
                if replaces {
                    let removed = self.remove_file(to);
                    assert(removed is Ok);
                }
                let ghost mid = self@;
                proof {
                    assert(mid.has_file(from@)) by {
                        assert(from@ != to@) by {
                            assert(to@.parts.subrange(0, to@.parts.len() as int) =~= to@.parts);
                        }
                    }
                    assert(mid.has(to@.parent().unwrap()));
                    assert(mid.store == old(self)@.store);
                }
                let r = self.rename_path(from, to.duplicate());
                proof {
                    lemma_moved_file(old(self)@, from@, to@);
                    assert(self@.entries =~= old(self)@.moved(from@, to@).entries);
                }
                r
            },
            Node::Dir(_) => self.move_dir(from, to),
        }
    }

    /// Makes the directory under `path` and every missing directory above
    /// it. A directory that already stands there is left as it is. Where a
    /// file is in the way, or the lowest directory that exists allows no
    /// change, nothing is made.
    pub fn create_dir_all(&mut self, path: &FsPath) -> (r: Result<(), Error>)
        requires
            old(self).wf(),
        ensures
            final(self).wf(),
            match old(self)@.create_dir_all_error(path@) {
                None => r is Ok && final(self)@ == old(self)@.with_dirs(
                    path@,
                    old(self)@.existing_depth(path@, path@.parts.len()),
                    path@.parts.len(),
                ),
                Some(k) => r matches Err(e) && e.is(k) && final(self)@ == old(self)@,
            },
    {
        let n = path.depth();
        if path.is_relative() {
            if n == 0 {
                return Ok(());
            }
            return Err(create_error(ErrorKind::NotFound));
        }
        let mut j: usize = n;
        while j > 0 && self.find(&path.truncated(j)).is_none()
            invariant
                self.wf(),
                j <= n == path@.parts.len(),
                forall|m: int| j < m <= n ==> !self@.has(#[trigger] path@.ancestor(m)),
            decreases j,
        {
            j -= 1;
        }
        let lowest = path.truncated(j);
        proof {
            if j == 0 {
                assert(lowest@.parts =~= root_view().parts);
                assert(self@.has_dir(root_view()));
            }
            lemma_existing_depth(self@, path@, j as nat, n as nat);
            assert(path@.ancestor(n as int) == path@) by {
                assert(path@.parts.subrange(0, n as int) =~= path@.parts);
            }
        }
        if j == n {
            return match self.get_dir(path) {
                Ok(_) => Ok(()),
                Err(_) => Err(create_error(ErrorKind::AlreadyExists)),
            };
        }
        match self.get_dir_writable(&lowest) {
            Ok(_) => {},
            Err(e) => {
                return Err(e);
            },
        }
        let mut i: usize = j;
        while i < n
            invariant
                self.wf(),
                j <= i <= n == path@.parts.len(),
                path@.rooted,
                self@ == old(self)@.with_dirs(path@, j as nat, i as nat),
                forall|m: int| i < m <= n ==> !self@.has(#[trigger] path@.ancestor(m)),
                self@.dir_writable_error(path@.ancestor(i as int)) is None,
            decreases n - i,
        {
            let next = path.truncated(i + 1);
            proof {
                assert(next@.parent().unwrap() == path@.ancestor(i as int)) by {
                    assert(next@.parts.drop_last() =~= path@.ancestor(i as int).parts);
                }
                assert(!self@.has(path@.ancestor(i + 1)));
            }
            let ghost before = self@;
            let made = self.create_dir(&next);
            proof {
                assert(made is Ok);
                lemma_default_mode();
                assert(next@ == path@.ancestor(i + 1));
                assert(self@ == before.with_dir(next@));
                assert(self@.has_dir(next@));
                assert(self@.mode_at(next@) == DEFAULT_MODE);
                assert forall|m: int| i + 1 < m <= n implies !self@.has(
                    #[trigger] path@.ancestor(m),
                ) by {
                    assert(!before.has(path@.ancestor(m)));
                    assert(path@.ancestor(m).parts.len() != next@.parts.len());
                }
            }
            i += 1;
        }
        Ok(())
    }

    /// The canonical form of `path`: where its names lead from the root,
    /// each `..` taken as a step up, which at the root leads nowhere. Every
    /// path on the way must be a directory, and the last must exist; where
    /// one does not, the path is not found.
    pub fn canonicalize_path(&self, path: &FsPath) -> (r: Result<FsPath, Error>)
        requires
            self.wf(),
        ensures
            match self@.canonicalize_error(path@) {
                None => r matches Ok(p) && p@ == path@.resolved(path@.parts.len()),
                Some(k) => r matches Err(e) && e.is(k),
            },
    {
        let n = path.depth();
        if path.is_empty() {
            return Err(create_error(ErrorKind::NotFound));
        }
        let mut sane_path = FsPath { rooted: path.rooted, parts: Vec::new() };
        assert(sane_path@ == path@.resolved(0)) by {
            assert(sane_path@.parts =~= path@.base().parts);
        }
        if path.is_absolute() {
            if n == 0 {
                match self.get(&sane_path) {
                    Ok(_) => {},
                    Err(e) => {
                        return Err(e);
                    },
                }
            } else {
                match self.get_dir(&sane_path) {
                    Ok(_) => {},
                    Err(_) => {
                        proof {
                            lemma_walk_error_stays(self@, path@, 0, n as nat);
                        }
                        return Err(create_error(ErrorKind::NotFound));
                    },
                }
            }
        }
        let mut idx: usize = 0;
        while idx < n
            invariant
                self.wf(),
                idx <= n == path@.parts.len(),
                sane_path@ == path@.resolved(idx as nat),
                self@.walk_error(path@, idx as nat) is None,
            decreases n - idx,
        {
            sane_path.follow(path.parts[idx].as_slice());
            idx += 1;
            assert(sane_path@ == path@.resolved(idx as nat));
            if idx == n {
                match self.get(&sane_path) {
                    Ok(_) => {},
                    Err(e) => {
                        return Err(e);
                    },
                }
            } else {
                match self.get_dir(&sane_path) {
                    Ok(_) => {},
                    Err(_) => {
                        assert(self@.walk_error(path@, idx as nat) == Some(ErrorKind::NotFound));
                        proof {
                            lemma_walk_error_stays(self@, path@, idx as nat, n as nat);
                        }
                        return Err(create_error(ErrorKind::NotFound));
                    },
                }
            }
        }
        Ok(sane_path)
    }

    /// The cells of this registry, for the handles that change them. The
    /// registry stays in order as long as no cell is taken away.
    pub(crate) fn store_mut(&mut self) -> (store: &mut CellStore)
        requires
            old(self).wf(),
        ensures
            store@ == old(self)@.store,
            final(self)@.cwd == old(self)@.cwd,
            final(self)@.entries == old(self)@.entries,
            final(self)@.store == final(store)@,
            old(self)@.store.grown_into(final(store)@) ==> final(self).wf(),
    {
        proof {
            assert forall|later: Registry|
                later.cwd == self.cwd && later.files == self.files && self@.store.grown_into(
                    later@.store,
                ) implies #[trigger] later.wf() by {
                later.store.lemma_fits();
                lemma_wf_same_entries(self@, later@);
            }
        }
        &mut self.store
    }
}

} // verus!
