//! What a registry holds, as a mathematical value: the node under each path,
//! the working directory and the cells; what each operation makes of it, and
//! why an operation is refused.

use vstd::prelude::*;
use crate::error::ErrorKind;
use crate::node::{
    mode_can_read, mode_can_write, Dir, File, Node, SharedContents, SharedMode, StoreView,
    DEFAULT_MODE,
};
use crate::path::{rebase, PathView};

verus! {

/// What a registry holds: the working directory, the node under each path,
/// and the cells of those nodes.
pub struct RegistryView {
    pub cwd: PathView,
    pub entries: Map<PathView, Node>,
    pub store: StoreView,
}

/// The path of the root directory.
pub open spec fn root_view() -> PathView {
    PathView { rooted: true, parts: Seq::empty() }
}

impl RegistryView {
    /// What a new registry holds: the root directory with the default
    /// permission word, and the root as working directory.
    pub open spec fn initial() -> RegistryView {
        RegistryView {
            cwd: root_view(),
            entries: Map::<PathView, Node>::empty().insert(
                root_view(),
                Node::Dir(Dir { mode: SharedMode { slot: 0 } }),
            ),
            store: StoreView { contents: Seq::empty(), modes: seq![DEFAULT_MODE] },
        }
    }

    /// Whether a node stands under `p`.
    pub open spec fn has(self, p: PathView) -> bool {
        self.entries.dom().contains(p)
    }

    /// Whether a directory stands under `p`.
    pub open spec fn has_dir(self, p: PathView) -> bool {
        self.has(p) && self.entries[p] is Dir
    }

    /// Whether a file stands under `p`.
    pub open spec fn has_file(self, p: PathView) -> bool {
        self.has(p) && self.entries[p] is File
    }

    /// The permission word of the node under `p`.
    pub open spec fn mode_at(self, p: PathView) -> u32 {
        self.entries[p].mode_cell().word(self.store)
    }

    /// The bytes of the file under `p`.
    pub open spec fn bytes_at(self, p: PathView) -> Seq<u8> {
        self.entries[p]->File_0.contents.bytes(self.store)
    }

    /// Whether an entry stands somewhere below `p`.
    pub open spec fn has_below(self, p: PathView) -> bool {
        exists|k: PathView| #[trigger] self.has(k) && k.below(p)
    }

    /// Why no node can be had under `p`, if none can.
    pub open spec fn get_error(self, p: PathView) -> Option<ErrorKind> {
        if self.has(p) {
            None
        } else {
            Some(ErrorKind::NotFound)
        }
    }

    /// Why no directory can be had under `p`, if none can.
    pub open spec fn dir_error(self, p: PathView) -> Option<ErrorKind> {
        if !self.has(p) {
            Some(ErrorKind::NotFound)
        } else if self.entries[p] is File {
            Some(ErrorKind::Other)
        } else {
            None
        }
    }

    /// Why no directory can be had under `p` for changing what it holds, if none can.
    pub open spec fn dir_writable_error(self, p: PathView) -> Option<ErrorKind> {
        if !self.has(p) {
            Some(ErrorKind::NotFound)
        } else if self.entries[p] is File {
            Some(ErrorKind::Other)
        } else if !mode_can_write(self.mode_at(p)) {
            Some(ErrorKind::PermissionDenied)
        } else {
            None
        }
    }

    /// Why no file can be had under `p`, if none can.
    pub open spec fn file_error(self, p: PathView) -> Option<ErrorKind> {
        if !self.has(p) {
            Some(ErrorKind::NotFound)
        } else if self.entries[p] is Dir {
            Some(ErrorKind::Other)
        } else {
            None
        }
    }

    /// Why no file can be had under `p` for writing, if none can.
    pub open spec fn file_writable_error(self, p: PathView) -> Option<ErrorKind> {
        if !self.has(p) {
            Some(ErrorKind::NotFound)
        } else if self.entries[p] is Dir {
            Some(ErrorKind::Other)
        } else if !mode_can_write(self.mode_at(p)) {
            Some(ErrorKind::PermissionDenied)
        } else {
            None
        }
    }

    /// Why no file can be had under `p` for reading, if none can.
    pub open spec fn file_readable_error(self, p: PathView) -> Option<ErrorKind> {
        if !self.has(p) {
            Some(ErrorKind::NotFound)
        } else if self.entries[p] is Dir {
            Some(ErrorKind::Other)
        } else if !mode_can_read(self.mode_at(p)) {
            Some(ErrorKind::PermissionDenied)
        } else {
            None
        }
    }

    /// Why no new node can be put under `p`, if none can.
    pub open spec fn insert_error(self, p: PathView) -> Option<ErrorKind> {
        if self.has(p) {
            Some(ErrorKind::AlreadyExists)
        } else {
            match p.parent() {
                Some(q) => self.dir_writable_error(q),
                None => Some(ErrorKind::NotFound),
            }
        }
    }

    /// This registry with a new directory under `p`, in a mode cell of its own.
    pub open spec fn with_dir(self, p: PathView) -> RegistryView {
        RegistryView {
            cwd: self.cwd,
            entries: self.entries.insert(
                p,
                Node::Dir(Dir { mode: SharedMode { slot: self.store.modes.len() as usize } }),
            ),
            store: StoreView {
                contents: self.store.contents,
                modes: self.store.modes.push(DEFAULT_MODE),
            },
        }
    }

    /// This registry with a new file under `p` that holds `bytes`, in cells of its own.
    pub open spec fn with_file(self, p: PathView, bytes: Seq<u8>) -> RegistryView {
        RegistryView {
            cwd: self.cwd,
            entries: self.entries.insert(
                p,
                Node::File(
                    File {
                        contents: SharedContents { slot: self.store.contents.len() as usize },
                        mode: SharedMode { slot: self.store.modes.len() as usize },
                    },
                ),
            ),
            store: StoreView {
                contents: self.store.contents.push(bytes),
                modes: self.store.modes.push(DEFAULT_MODE),
            },
        }
    }

    /// This registry with `bytes` in the content cell of the file under `p`.
    pub open spec fn with_bytes(self, p: PathView, bytes: Seq<u8>) -> RegistryView {
        RegistryView {
            cwd: self.cwd,
            entries: self.entries,
            store: StoreView {
                contents: self.store.contents.update(
                    self.entries[p]->File_0.contents.slot as int,
                    bytes,
                ),
                modes: self.store.modes,
            },
        }
    }

    /// This registry with `mode` in the mode cell of the node under `p`.
    pub open spec fn with_mode(self, p: PathView, mode: u32) -> RegistryView {
        RegistryView {
            cwd: self.cwd,
            entries: self.entries,
            store: StoreView {
                contents: self.store.contents,
                modes: self.store.modes.update(self.entries[p].mode_cell().slot as int, mode),
            },
        }
    }

    /// This registry without the entry under `p`.
    pub open spec fn without(self, p: PathView) -> RegistryView {
        RegistryView { cwd: self.cwd, entries: self.entries.remove(p), store: self.store }
    }

    /// Why no file can be created or replaced under `p`, if none can.
    pub open spec fn write_error(self, p: PathView) -> Option<ErrorKind> {
        if self.has(p) {
            self.file_writable_error(p)
        } else {
            self.insert_error(p)
        }
    }

    /// This registry after `bytes` were written under `p`: into the file that
    /// stands there, or into a new one.
    pub open spec fn written(self, p: PathView, bytes: Seq<u8>) -> RegistryView {
        if self.has(p) {
            self.with_bytes(p, bytes)
        } else {
            self.with_file(p, bytes)
        }
    }

    /// Why the directory under `p` cannot be removed, if it cannot.
    pub open spec fn remove_dir_error(self, p: PathView) -> Option<ErrorKind> {
        if self.dir_error(p) is Some {
            self.dir_error(p)
        } else if self.has_below(p) || p == root_view() {
            Some(ErrorKind::Other)
        } else {
            None
        }
    }

    /// Whether some entry below `p` may not be read.
    pub open spec fn has_unreadable_below(self, p: PathView) -> bool {
        exists|k: PathView| #[trigger] self.has(k) && k.below(p) && !mode_can_read(self.mode_at(k))
    }

    /// Why the directory under `p` cannot be removed with all that is below
    /// it, if it cannot.
    pub open spec fn remove_dir_all_error(self, p: PathView) -> Option<ErrorKind> {
        if self.dir_writable_error(p) is Some {
            self.dir_writable_error(p)
        } else if self.has_unreadable_below(p) {
            Some(ErrorKind::PermissionDenied)
        } else if p == root_view() {
            Some(ErrorKind::Other)
        } else {
            None
        }
    }

    /// This registry without the entry under `p` and without all below it.
    pub open spec fn without_tree(self, p: PathView) -> RegistryView {
        RegistryView {
            cwd: self.cwd,
            entries: Map::new(
                |k: PathView| self.has(k) && !k.within(p),
                |k: PathView| self.entries[k],
            ),
            store: self.store,
        }
    }

    /// Why the file under `from` cannot be copied to `to`, if it cannot.
    pub open spec fn copy_error(self, from: PathView, to: PathView) -> Option<ErrorKind> {
        match self.file_readable_error(from) {
            Some(ErrorKind::Other) => Some(ErrorKind::InvalidInput),
            Some(k) => Some(k),
            None => self.write_error(to),
        }
    }

    /// Why nothing can be put under `to`, whatever stands there now, if nothing can.
    pub open spec fn landing_error(self, to: PathView) -> Option<ErrorKind> {
        match to.parent() {
            Some(q) => self.dir_writable_error(q),
            None => Some(ErrorKind::NotFound),
        }
    }

    /// Whether some entry below `p` stands in a directory that allows no change.
    pub open spec fn has_locked_below(self, p: PathView) -> bool {
        exists|k: PathView| #[trigger]
            self.has(k) && k.below(p) && !mode_can_write(self.mode_at(k.parent().unwrap()))
    }

    /// Why the entry under `from` cannot be renamed to `to`, if it cannot.
    ///
    /// A file takes the place of a file, and a directory that of a directory
    /// that holds nothing. No entry can be moved to itself or below itself.
    /// The parent of `to` must be a directory that allows changes, and so must
    /// every directory that is moved together with what it holds.
    pub open spec fn rename_error(self, from: PathView, to: PathView) -> Option<ErrorKind> {
        if !self.has(from) {
            Some(ErrorKind::NotFound)
        } else if self.has(to) && ((self.entries[from] is Dir) != (self.entries[to] is Dir)
            || self.has_below(to)) {
            Some(ErrorKind::Other)
        } else if to.within(from) {
            Some(ErrorKind::NotFound)
        } else if self.landing_error(to) is Some {
            self.landing_error(to)
        } else if self.has_locked_below(from) {
            Some(ErrorKind::PermissionDenied)
        } else {
            None
        }
    }

    /// This registry after the entry under `from`, with all below it, has
    /// been moved to `to`: each path gets `to` in place of its leading `from`,
    /// and what stood under `to` is gone.
    pub open spec fn moved(self, from: PathView, to: PathView) -> RegistryView {
        RegistryView {
            cwd: self.cwd,
            entries: Map::new(
                |k: PathView|
                    if k.within(to) {
                        self.has(rebase_view(k, to, from))
                    } else {
                        self.has(k) && !k.within(from)
                    },
                |k: PathView|
                    if k.within(to) {
                        self.entries[rebase_view(k, to, from)]
                    } else {
                        self.entries[k]
                    },
            ),
            store: self.store,
        }
    }

    /// How many of the first `n` names of `p` lead to an entry that exists:
    /// the largest such number, or 0.
    pub open spec fn existing_depth(self, p: PathView, n: nat) -> nat
        decreases n,
    {
        if n == 0 {
            0
        } else if self.has(p.ancestor(n as int)) {
            n
        } else {
            self.existing_depth(p, (n - 1) as nat)
        }
    }

    /// Why the directory under `p` cannot be made together with the missing
    /// directories above it, if it cannot. The empty path asks for nothing.
    pub open spec fn create_dir_all_error(self, p: PathView) -> Option<ErrorKind> {
        let n = p.parts.len();
        let j = self.existing_depth(p, n);
        if !p.rooted {
            if n == 0 {
                None
            } else {
                Some(ErrorKind::NotFound)
            }
        } else if j == n {
            if self.entries[p] is Dir {
                None
            } else {
                Some(ErrorKind::AlreadyExists)
            }
        } else {
            self.dir_writable_error(p.ancestor(j as int))
        }
    }

    /// This registry with new directories under the paths of the first `j + 1`
    /// to the first `i` names of `p`, made in that order.
    pub open spec fn with_dirs(self, p: PathView, j: nat, i: nat) -> RegistryView
        decreases i,
    {
        if i <= j {
            self
        } else {
            self.with_dirs(p, j, (i - 1) as nat).with_dir(p.ancestor(i as int))
        }
    }

    /// What the check made after the first `i` names of `p` finds wrong, if
    /// anything. After all names of `p` there must be an entry where they
    /// lead, of either kind. On the way there must be a directory: a file in
    /// its place counts as missing, as nothing does.
    pub open spec fn walk_check(self, p: PathView, i: nat) -> Option<ErrorKind> {
        if i == 0 && !p.rooted {
            None
        } else if i == p.parts.len() {
            self.get_error(p.resolved(i))
        } else if self.has_dir(p.resolved(i)) {
            None
        } else {
            Some(ErrorKind::NotFound)
        }
    }

    /// The first thing found wrong by the checks made after none, one, and so
    /// on up to the first `i` names of `p`, if anything is.
    pub open spec fn walk_error(self, p: PathView, i: nat) -> Option<ErrorKind>
        decreases i,
    {
        if i == 0 {
            self.walk_check(p, 0)
        } else if self.walk_error(p, (i - 1) as nat) is Some {
            self.walk_error(p, (i - 1) as nat)
        } else {
            self.walk_check(p, i)
        }
    }

    /// Why `p` has no canonical form, if it has none. The empty path has none.
    pub open spec fn canonicalize_error(self, p: PathView) -> Option<ErrorKind> {
        if !p.rooted && p.parts.len() == 0 {
            Some(ErrorKind::NotFound)
        } else {
            self.walk_error(p, p.parts.len())
        }
    }

    /// What always holds of a registry: the root is a directory; every path
    /// starts at the root; what stands above an entry is a directory; every
    /// cell exists; no two entries share a cell.
    pub open spec fn wf(self) -> bool {
        &&& self.has_dir(root_view())
        &&& self.cwd.rooted
        &&& self.store.fits()
        &&& forall|k: PathView| #[trigger] self.has(k) ==> k.rooted
        &&& forall|k: PathView| #[trigger]
            self.has(k) && k.parts.len() > 0 ==> self.has_dir(k.parent().unwrap())
        &&& forall|k: PathView| #[trigger] self.has(k) ==> self.entries[k].live_in(self.store)
        &&& forall|j: PathView, k: PathView|
            #![trigger self.has(j), self.has(k)]
            self.has(j) && self.has(k) && j != k ==> self.entries[j].mode_cell()
                != self.entries[k].mode_cell()
        &&& forall|j: PathView, k: PathView|
            #![trigger self.has(j), self.has(k)]
            self.has_file(j) && self.has_file(k) && j != k ==> self.entries[j]->File_0.contents
                != self.entries[k]->File_0.contents
    }
}

/// A registry stays in order when its entries stay and its store only gains
/// cells or changes what cells hold.
pub proof fn lemma_wf_same_entries(a: RegistryView, b: RegistryView)
    requires
        a.wf(),
        a.entries == b.entries,
        a.store.grown_into(b.store),
        b.store.fits(),
        b.cwd.rooted,
    ensures
        b.wf(),
{
    assert forall|k: PathView| #[trigger] b.has(k) implies k.rooted && b.entries[k].live_in(
        b.store,
    ) && (k.parts.len() > 0 ==> b.has_dir(k.parent().unwrap())) by {
        assert(a.has(k));
    }
    assert forall|j: PathView, k: PathView|
        #![trigger b.has(j), b.has(k)]
        b.has(j) && b.has(k) && j != k implies b.entries[j].mode_cell() != b.entries[
            k
        ].mode_cell() && (b.has_file(j) && b.has_file(k) ==> b.entries[j]->File_0.contents
            != b.entries[k]->File_0.contents) by {
        assert(a.has(j) && a.has(k));
    }
    assert(a.has_dir(root_view()));
}

/// Every path above an entry holds a directory.
pub proof fn lemma_ancestors(v: RegistryView, k: PathView, n: int)
    requires
        v.wf(),
        v.has(k),
        0 <= n <= k.parts.len(),
    ensures
        v.has(k.ancestor(n)),
        n < k.parts.len() ==> v.has_dir(k.ancestor(n)),
    decreases k.parts.len() - n,
{
    if n == k.parts.len() {
        assert(k.parts.subrange(0, n) =~= k.parts);
    } else {
        lemma_ancestors(v, k, n + 1);
        let a = k.ancestor(n + 1);
        assert(v.has(a));
        assert(a.parts.drop_last() =~= k.parts.subrange(0, n));
        assert(a.parent().unwrap() == k.ancestor(n));
    }
}

/// Nothing stands below a file.
pub proof fn lemma_nothing_below_file(v: RegistryView, p: PathView)
    requires
        v.wf(),
        v.has_file(p),
    ensures
        !v.has_below(p),
{
    if v.has_below(p) {
        let k = choose|k: PathView| #[trigger] v.has(k) && k.below(p);
        lemma_ancestors(v, k, p.parts.len() as int);
        assert(k.ancestor(p.parts.len() as int) == p);
    }
}

/// A registry stays in order when a node with cells of its own is put under
/// a new path whose parent is a directory.
pub proof fn lemma_wf_insert(a: RegistryView, b: RegistryView, p: PathView, node: Node)
    requires
        a.wf(),
        !a.has(p),
        p.rooted,
        p.parts.len() > 0,
        a.has_dir(p.parent().unwrap()),
        b.entries == a.entries.insert(p, node),
        a.store.grown_into(b.store),
        b.store.fits(),
        b.cwd.rooted,
        node.live_in(b.store),
        forall|k: PathView| #[trigger] a.has(k) ==> a.entries[k].mode_cell() != node.mode_cell(),
        forall|k: PathView| #[trigger]
            a.has_file(k) && node is File ==> a.entries[k]->File_0.contents
                != node->File_0.contents,
    ensures
        b.wf(),
{
    assert(a.has_dir(root_view()));
    assert(b.has_dir(root_view()));
    assert forall|k: PathView| #[trigger] b.has(k) implies k.rooted && b.entries[k].live_in(
        b.store,
    ) && (k.parts.len() > 0 ==> b.has_dir(k.parent().unwrap())) by {
        if k != p {
            assert(a.has(k));
            if k.parts.len() > 0 {
                assert(a.has_dir(k.parent().unwrap()));
            }
        }
    }
    assert forall|j: PathView, k: PathView|
        #![trigger b.has(j), b.has(k)]
        b.has(j) && b.has(k) && j != k implies b.entries[j].mode_cell() != b.entries[
            k
        ].mode_cell() && (b.has_file(j) && b.has_file(k) ==> b.entries[j]->File_0.contents
            != b.entries[k]->File_0.contents) by {
        if j != p && k != p {
            assert(a.has(j) && a.has(k));
        } else if j == p {
            assert(a.has(k));
            if b.has_file(k) {
                assert(a.has_file(k));
            }
        } else {
            assert(a.has(j));
            if b.has_file(j) {
                assert(a.has_file(j));
            }
        }
    }
}

/// A registry stays in order when an entry other than the root, with nothing
/// below it, is taken out.
pub proof fn lemma_wf_remove(a: RegistryView, b: RegistryView, p: PathView)
    requires
        a.wf(),
        a.has(p),
        p != root_view(),
        !a.has_below(p),
        b.entries == a.entries.remove(p),
        a.store.grown_into(b.store),
        b.store.fits(),
        b.cwd.rooted,
    ensures
        b.wf(),
{
    assert(a.has_dir(root_view()));
    assert(b.has_dir(root_view()));
    assert forall|k: PathView| #[trigger] b.has(k) implies k.rooted && b.entries[k].live_in(
        b.store,
    ) && (k.parts.len() > 0 ==> b.has_dir(k.parent().unwrap())) by {
        assert(a.has(k));
        if k.parts.len() > 0 {
            let q = k.parent().unwrap();
            assert(a.has_dir(q));
            if q == p {
                assert(k.parts.subrange(0, p.parts.len() as int) =~= p.parts);
                assert(k.below(p));
                assert(a.has_below(p));
            }
        }
    }
    assert forall|j: PathView, k: PathView|
        #![trigger b.has(j), b.has(k)]
        b.has(j) && b.has(k) && j != k implies b.entries[j].mode_cell() != b.entries[
            k
        ].mode_cell() && (b.has_file(j) && b.has_file(k) ==> b.entries[j]->File_0.contents
            != b.entries[k]->File_0.contents) by {
        assert(a.has(j) && a.has(k));
    }
}

/// A registry stays in order when a directory other than the root is taken
/// out with all that is below it.
pub proof fn lemma_wf_without_tree(a: RegistryView, p: PathView)
    requires
        a.wf(),
        a.has(p),
        p != root_view(),
    ensures
        a.without_tree(p).wf(),
{
    let b = a.without_tree(p);
    assert(a.has_dir(root_view()));
    assert(p.rooted);
    assert(p.parts.len() > 0) by {
        if p.parts.len() == 0 {
            assert(p.parts =~= root_view().parts);
        }
    }
    assert(!root_view().within(p));
    assert(b.has_dir(root_view()));
    assert forall|k: PathView| #[trigger] b.has(k) implies k.rooted && b.entries[k].live_in(
        b.store,
    ) && (k.parts.len() > 0 ==> b.has_dir(k.parent().unwrap())) by {
        assert(a.has(k));
        if k.parts.len() > 0 {
            let q = k.parent().unwrap();
            assert(a.has_dir(q));
            if q.within(p) {
                assert(k.parts.subrange(0, p.parts.len() as int) =~= q.parts.subrange(
                    0,
                    p.parts.len() as int,
                ));
                assert(k.within(p));
            }
        }
    }
    assert forall|j: PathView, k: PathView|
        #![trigger b.has(j), b.has(k)]
        b.has(j) && b.has(k) && j != k implies b.entries[j].mode_cell() != b.entries[
            k
        ].mode_cell() && (b.has_file(j) && b.has_file(k) ==> b.entries[j]->File_0.contents
            != b.entries[k]->File_0.contents) by {
        assert(a.has(j) && a.has(k));
    }
}

/// The path `k` with `to` in place of its leading `from`.
pub open spec fn rebase_view(k: PathView, from: PathView, to: PathView) -> PathView {
    PathView { rooted: to.rooted, parts: rebase(from.parts, to.parts, k.parts) }
}

/// Replacing the head of a path and replacing it back gives the path again.
pub proof fn lemma_rebase_back(k: PathView, from: PathView, to: PathView)
    requires
        k.within(from),
    ensures
        rebase_view(k, from, to).within(to),
        rebase_view(rebase_view(k, from, to), to, from) == k,
        (rebase_view(k, from, to) == to) == (k == from),
{
    let m = rebase_view(k, from, to);
    assert(m.parts.subrange(0, to.parts.len() as int) =~= to.parts);
    assert(m.parts.subrange(to.parts.len() as int, m.parts.len() as int) =~= k.parts.subrange(
        from.parts.len() as int,
        k.parts.len() as int,
    ));
    assert(from.parts + k.parts.subrange(from.parts.len() as int, k.parts.len() as int)
        =~= k.parts);
    if m == to {
        assert(k.parts.len() == from.parts.len());
        assert(k.parts =~= from.parts);
    }
    if k == from {
        assert(m.parts =~= to.parts);
    }
}

/// No entry stands within a path under which nothing stands.
pub proof fn lemma_nothing_within_absent(v: RegistryView, p: PathView, k: PathView)
    requires
        v.wf(),
        !v.has(p),
        v.has(k),
    ensures
        !k.within(p),
{
    if k.within(p) {
        lemma_ancestors(v, k, p.parts.len() as int);
        assert(k.ancestor(p.parts.len() as int) == p);
    }
}

/// A registry stays in order when an entry is moved, with all below it, to a
/// free place outside itself whose parent is a directory.
pub proof fn lemma_wf_moved(a: RegistryView, from: PathView, to: PathView)
    requires
        a.wf(),
        a.has(from),
        from != root_view(),
        !to.within(from),
        to.rooted,
        to.parts.len() > 0,
        a.has_dir(to.parent().unwrap()),
        forall|k: PathView| #[trigger] a.has(k) && k.within(to) ==> k == to,
    ensures
        a.moved(from, to).wf(),
{
    let b = a.moved(from, to);
    assert(a.has_dir(root_view()));
    assert(from.rooted);
    assert(from.parts.len() > 0) by {
        if from.parts.len() == 0 {
            assert(from.parts =~= root_view().parts);
        }
    }
    assert(!root_view().within(to) && !root_view().within(from));
    assert(b.has_dir(root_view()));
    assert forall|k: PathView| #[trigger] b.has(k) implies k.rooted && b.entries[k].live_in(
        b.store,
    ) && (k.parts.len() > 0 ==> b.has_dir(k.parent().unwrap())) by {
        if k.within(to) {
            let k0 = rebase_view(k, to, from);
            assert(a.has(k0));
            lemma_rebase_back(k, to, from);
            if k == to {
                let q = to.parent().unwrap();
                assert(a.has_dir(q));
                assert(!q.within(to));
                if q.within(from) {
                    assert(to.parts.subrange(0, from.parts.len() as int) =~= q.parts.subrange(
                        0,
                        from.parts.len() as int,
                    ));
                    assert(to.within(from));
                }
                assert(b.has_dir(q));
            } else {
                assert(k.parts.len() > to.parts.len());
                let q = k.parent().unwrap();
                let q0 = k0.parent().unwrap();
                assert(a.has_dir(q0));
                assert(q.parts.subrange(0, to.parts.len() as int) =~= k.parts.subrange(
                    0,
                    to.parts.len() as int,
                ));
                assert(q.within(to));
                assert(rebase_view(q, to, from).parts =~= q0.parts);
                assert(b.has_dir(q));
            }
        } else {
            assert(a.has(k));
            if k.parts.len() > 0 {
                let q = k.parent().unwrap();
                assert(a.has_dir(q));
                if q.within(to) {
                    assert(k.parts.subrange(0, to.parts.len() as int) =~= q.parts.subrange(
                        0,
                        to.parts.len() as int,
                    ));
                    assert(k.within(to));
                }
                if q.within(from) {
                    assert(k.parts.subrange(0, from.parts.len() as int) =~= q.parts.subrange(
                        0,
                        from.parts.len() as int,
                    ));
                    assert(k.within(from));
                }
                assert(b.has_dir(q));
            }
        }
    }
    assert forall|j: PathView, k: PathView|
        #![trigger b.has(j), b.has(k)]
        b.has(j) && b.has(k) && j != k implies b.entries[j].mode_cell() != b.entries[
            k
        ].mode_cell() && (b.has_file(j) && b.has_file(k) ==> b.entries[j]->File_0.contents
            != b.entries[k]->File_0.contents) by {
        let j0 = if j.within(to) { rebase_view(j, to, from) } else { j };
        let k0 = if k.within(to) { rebase_view(k, to, from) } else { k };
        if j.within(to) {
            lemma_rebase_back(j, to, from);
        }
        if k.within(to) {
            lemma_rebase_back(k, to, from);
        }
        assert(a.has(j0) && a.has(k0));
        assert(j0 != k0);
        if b.has_file(j) && b.has_file(k) {
            assert(a.has_file(j0) && a.has_file(k0));
        }
    }
}

/// Moving a file is taking it out and putting it under the new path, where
/// a file that stood there gives way.
pub proof fn lemma_moved_file(a: RegistryView, from: PathView, to: PathView)
    requires
        a.wf(),
        a.has_file(from),
        !to.within(from),
        !a.has_below(to),
    ensures
        a.moved(from, to).entries == a.entries.remove(to).remove(from).insert(
            to,
            a.entries[from],
        ),
{
    let m = a.moved(from, to).entries;
    let r = a.entries.remove(to).remove(from).insert(to, a.entries[from]);
    lemma_nothing_below_file(a, from);
    assert(to.within(to)) by {
        assert(to.parts.subrange(0, to.parts.len() as int) =~= to.parts);
    }
    assert(from.within(from)) by {
        assert(from.parts.subrange(0, from.parts.len() as int) =~= from.parts);
    }
    assert(rebase_view(to, to, from) == from) by {
        assert(rebase_view(to, to, from).parts =~= from.parts);
    }
    assert forall|k: PathView| m.dom().contains(k) <==> r.dom().contains(k) by {
        if k.within(to) {
            if k != to {
                assert(k.parts.len() != to.parts.len()) by {
                    if k.parts.len() == to.parts.len() {
                        assert(k.parts =~= to.parts);
                    }
                }
                assert(k.below(to));
                let k0 = rebase_view(k, to, from);
                lemma_rebase_back(k, to, from);
                assert(k0.parts.len() > from.parts.len());
                assert(k0.below(from));
                assert(!a.has(k0));
                assert(!a.has(k));
            }
        } else {
            if a.has(k) && k.within(from) && k != from {
                assert(k.parts.len() != from.parts.len()) by {
                    if k.parts.len() == from.parts.len() {
                        assert(k.parts =~= from.parts);
                    }
                }
                assert(k.below(from));
            }
        }
    }
    assert forall|k: PathView| m.dom().contains(k) implies #[trigger] m[k] == r[k] by {
        if k != to {
            if k.within(to) {
                assert(k.parts.len() != to.parts.len()) by {
                    if k.parts.len() == to.parts.len() {
                        assert(k.parts =~= to.parts);
                    }
                }
                let k0 = rebase_view(k, to, from);
                lemma_rebase_back(k, to, from);
                assert(k0.below(from));
                assert(a.has(k0));
            }
            assert(!k.within(to));
        }
    }
    assert(m =~= r);
}

/// Where none of the names after the first `j` of `p` leads to an entry, and
/// the first `j` do or `j` is 0, `j` is the number of leading names that exist.
pub proof fn lemma_existing_depth(v: RegistryView, p: PathView, j: nat, n: nat)
    requires
        j <= n,
        j == 0 || v.has(p.ancestor(j as int)),
        forall|m: int| j < m <= n ==> !v.has(#[trigger] p.ancestor(m)),
    ensures
        v.existing_depth(p, n) == j,
    decreases n,
{
    if n > j {
        assert(!v.has(p.ancestor(n as int)));
        lemma_existing_depth(v, p, j, (n - 1) as nat);
    }
}

/// The default permission word allows reading and writing.
pub proof fn lemma_default_mode()
    ensures
        mode_can_write(DEFAULT_MODE),
        mode_can_read(DEFAULT_MODE),
{
    assert(0o644u32 & 0o222u32 != 0) by (bit_vector);
    assert(0o644u32 & 0o444u32 != 0) by (bit_vector);
}

/// Once a check on the way has found something wrong, that stays the first
/// thing found wrong however many names follow.
pub proof fn lemma_walk_error_stays(v: RegistryView, p: PathView, i: nat, n: nat)
    requires
        i <= n,
        v.walk_error(p, i) is Some,
    ensures
        v.walk_error(p, n) == v.walk_error(p, i),
    decreases n - i,
{
    if i < n {
        lemma_walk_error_stays(v, p, i, (n - 1) as nat);
    }
}

} // verus!
