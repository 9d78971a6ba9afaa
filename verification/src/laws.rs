//! What holds of the file system whatever it holds: facts that relate several
//! operations, stated over what the registry holds before and after.

use vstd::prelude::*;
use crate::error::ErrorKind;
use crate::metadata::FakeMetadata;
use crate::node::{mode_can_read, mode_can_write, File, StoreView};
use crate::open_file::{overwritten, read_count, read_into, resized, seek_target, zeros, SeekFrom};
use crate::path::{parent_name, PathView};
use crate::model::{
    lemma_ancestors, lemma_default_mode, lemma_nothing_within_absent, lemma_rebase_back,
    lemma_walk_error_stays, rebase_view, root_view, RegistryView,
};

verus! {

impl StoreView {
    /// Whether every cell of this store holds in `later` what it holds here.
    pub open spec fn kept_in(self, later: StoreView) -> bool {
        &&& self.grown_into(later)
        &&& forall|i: int| 0 <= i < self.contents.len() ==> #[trigger] later.contents[i] == self.contents[i]
        &&& forall|i: int| 0 <= i < self.modes.len() ==> #[trigger] later.modes[i] == self.modes[i]
    }
}

/// Under a path where nothing stands there is neither a directory nor a file.
pub proof fn lemma_absent_is_neither(v: RegistryView, p: PathView)
    requires
        !v.has(p),
    ensures
        !v.has_dir(p),
        !v.has_file(p),
        v.get_error(p) == Some(ErrorKind::NotFound),
{
}

/// What was written under a path is what is read back from it, provided
/// that a file which already stood there may be read.
pub proof fn lemma_write_then_read(v: RegistryView, p: PathView, bytes: Seq<u8>)
    requires
        v.wf(),
        v.write_error(p) is None,
        v.has(p) ==> mode_can_read(v.mode_at(p)),
    ensures
        v.written(p, bytes).file_readable_error(p) is None,
        v.written(p, bytes).bytes_at(p) == bytes,
{
    lemma_default_mode();
    let w = v.written(p, bytes);
    if v.has(p) {
        assert(v.entries[p].live_in(v.store));
    } else {
        assert(w.mode_at(p) == crate::node::DEFAULT_MODE);
    }
}

/// Writing under one path leaves the bytes of every other file as they were.
pub proof fn lemma_write_leaves_others(v: RegistryView, p: PathView, q: PathView, bytes: Seq<u8>)
    requires
        v.wf(),
        v.write_error(p) is None,
        v.has_file(q),
        q != p,
    ensures
        v.written(p, bytes).has_file(q),
        v.written(p, bytes).bytes_at(q) == v.bytes_at(q),
        v.written(p, bytes).mode_at(q) == v.mode_at(q),
{
    assert(v.has(q) && v.entries[q].live_in(v.store));
    if v.has(p) {
        assert(v.has_file(p));
        assert(v.entries[p]->File_0.contents != v.entries[q]->File_0.contents);
    }
}

/// As long as the cells of a file hold what they held, the metadata taken
/// from it and what a handle reads from it are what they were, whatever has
/// happened to the paths of the registry meanwhile.
pub proof fn lemma_kept_cells_read_alike(
    f: File,
    before: StoreView,
    after: StoreView,
    pos: nat,
    buf: Seq<u8>,
)
    requires
        f.live_in(before),
        before.kept_in(after),
    ensures
        f.live_in(after),
        f.contents.bytes(after) == f.contents.bytes(before),
        FakeMetadata::of_file(f, after) == FakeMetadata::of_file(f, before),
        read_into(f.contents.bytes(after), pos, buf) == read_into(f.contents.bytes(before), pos, buf),
{
}

/// Removing a file, removing a directory alone or with all below it, and
/// renaming leave every cell as it was: a handle opened on a file before goes
/// on seeing the same bytes.
pub proof fn lemma_removal_and_rename_keep_cells(v: RegistryView, p: PathView, to: PathView)
    ensures
        v.store.kept_in(v.without(p).store),
        v.store.kept_in(v.without_tree(p).store),
        v.store.kept_in(v.moved(p, to).store),
{
}

/// Making a directory or a new file leaves every cell that existed as it was.
pub proof fn lemma_creation_keeps_cells(v: RegistryView, p: PathView, bytes: Seq<u8>)
    ensures
        v.store.kept_in(v.with_dir(p).store),
        v.store.kept_in(v.with_file(p, bytes).store),
{
}

/// Making a directory with those above it leaves every cell that existed as it was.
pub proof fn lemma_create_dir_all_keeps_cells(v: RegistryView, p: PathView, j: nat, i: nat)
    ensures
        v.store.kept_in(v.with_dirs(p, j, i).store),
    decreases i,
{
    if i > j {
        let mid = v.with_dirs(p, j, (i - 1) as nat);
        lemma_create_dir_all_keeps_cells(v, p, j, (i - 1) as nat);
        lemma_creation_keeps_cells(mid, p.ancestor(i as int), Seq::empty());
    }
}

/// Beyond the number of leading names that exist, no name of the path leads
/// to an entry.
pub proof fn lemma_existing_depth_is_last(v: RegistryView, p: PathView, n: nat, m: int)
    requires
        v.existing_depth(p, n) < m <= n,
    ensures
        !v.has(p.ancestor(m)),
    decreases n,
{
    if n > 0 && !v.has(p.ancestor(n as int)) && m < n {
        lemma_existing_depth_is_last(v, p, (n - 1) as nat, m);
    }
}

/// The number of leading names that exist leads to an entry, unless it is 0.
pub proof fn lemma_existing_depth_holds(v: RegistryView, p: PathView, n: nat)
    ensures
        v.existing_depth(p, n) <= n,
        v.existing_depth(p, n) > 0 ==> v.has(p.ancestor(v.existing_depth(p, n) as int)),
    decreases n,
{
    if n > 0 && !v.has(p.ancestor(n as int)) {
        lemma_existing_depth_holds(v, p, (n - 1) as nat);
    }
}

/// Making the directories under the first `j + 1` to the first `i` names of
/// a path, none of which exists, adds exactly these directories and leaves
/// every entry and every cell that existed as it was.
pub proof fn lemma_with_dirs(v: RegistryView, p: PathView, j: nat, i: nat, k: PathView)
    requires
        j <= i <= p.parts.len(),
        forall|m: int| j < m <= i ==> !v.has(#[trigger] p.ancestor(m)),
    ensures
        v.has(k) ==> v.with_dirs(p, j, i).has(k) && v.with_dirs(p, j, i).entries[k]
            == v.entries[k],
        v.with_dirs(p, j, i).has(k) && !v.has(k) ==> v.with_dirs(p, j, i).has_dir(k) && exists|
            m: int,
        |
            j < m <= i && k == p.ancestor(m),
        forall|m: int| j < m <= i ==> v.with_dirs(p, j, i).has_dir(#[trigger] p.ancestor(m)),
        v.store.kept_in(v.with_dirs(p, j, i).store),
    decreases i,
{
    lemma_create_dir_all_keeps_cells(v, p, j, i);
    if i > j {
        let mid = v.with_dirs(p, j, (i - 1) as nat);
        let w = v.with_dirs(p, j, i);
        let top = p.ancestor(i as int);
        lemma_with_dirs(v, p, j, (i - 1) as nat, k);
        assert(!v.has(top));
        assert forall|m: int| j < m <= i implies w.has_dir(#[trigger] p.ancestor(m)) by {
            if m < i {
                lemma_with_dirs(v, p, j, (i - 1) as nat, p.ancestor(m));
                assert(mid.has_dir(p.ancestor(m)));
                assert(p.ancestor(m).parts.len() != top.parts.len());
            }
        }
        if w.has(k) && !v.has(k) {
            if k != top {
                assert(mid.has(k));
                let m = choose|m: int| j < m <= i - 1 && k == p.ancestor(m);
                assert(j < m <= i && k == p.ancestor(m));
            } else {
                assert(j < i <= i && k == p.ancestor(i as int));
            }
        }
    }
}

/// After a directory has been made with those above it, every path that
/// leads to it holds a directory, and every entry that existed is as it was.
pub proof fn lemma_create_dir_all_makes_every_level(
    v: RegistryView,
    p: PathView,
    m: int,
    k: PathView,
)
    requires
        v.wf(),
        p.rooted,
        v.create_dir_all_error(p) is None,
        0 <= m <= p.parts.len(),
    ensures
        ({
            let w = v.with_dirs(p, v.existing_depth(p, p.parts.len()), p.parts.len());
            &&& w.has_dir(p.ancestor(m))
            &&& v.has(k) ==> w.has(k) && w.entries[k] == v.entries[k]
            &&& v.store.kept_in(w.store)
        }),
{
    let n = p.parts.len();
    let j = v.existing_depth(p, n);
    lemma_existing_depth_holds(v, p, n);
    assert forall|x: int| j < x <= n implies !v.has(#[trigger] p.ancestor(x)) by {
        lemma_existing_depth_is_last(v, p, n, x);
    }
    lemma_with_dirs(v, p, j, n, k);
    lemma_with_dirs(v, p, j, n, p.ancestor(m));
    if m <= j {
        let low = p.ancestor(j as int);
        if j == 0 {
            assert(low.parts =~= root_view().parts);
            assert(v.has_dir(root_view()));
        }
        if j == n {
            assert(low.parts =~= p.parts);
        }
        assert(v.has_dir(low));
        lemma_ancestors(v, low, m);
        assert(low.ancestor(m).parts =~= p.ancestor(m).parts);
        assert(v.has_dir(p.ancestor(m)));
    }
}

/// A handle survives the removal of its path: after the file under `p` has
/// been removed nothing stands under `p`, and the cells that a handle on that
/// file holds still hold the bytes of the file.
pub proof fn lemma_handle_survives_removal(v: RegistryView, p: PathView)
    requires
        v.wf(),
        v.has_file(p),
    ensures
        !v.without(p).has(p),
        v.entries[p]->File_0.live_in(v.without(p).store),
        v.entries[p]->File_0.contents.bytes(v.without(p).store) == v.bytes_at(p),
{
    assert(v.has(p));
}

/// A rename carries along all that is below: every entry within `from`
/// stands, after the rename, under its path with `to` in place of the leading
/// `from`, with the same node and so the same bytes; and nothing is left
/// under its old path.
pub proof fn lemma_rename_carries_descendants(
    v: RegistryView,
    from: PathView,
    to: PathView,
    k: PathView,
)
    requires
        v.wf(),
        v.rename_error(from, to) is None,
        v.has(k),
        k.within(from),
    ensures
        v.moved(from, to).has(rebase_view(k, from, to)),
        v.moved(from, to).entries[rebase_view(k, from, to)] == v.entries[k],
        v.moved(from, to).store == v.store,
        !v.moved(from, to).has(k),
        !v.moved(from, to).has(from),
{
    let m = v.moved(from, to);
    lemma_rebase_back(k, from, to);
    assert(from.within(from)) by {
        assert(from.parts.subrange(0, from.parts.len() as int) =~= from.parts);
    }
    lemma_not_within_target(v, from, to, k);
    lemma_not_within_target(v, from, to, from);
}

/// Where a rename is accepted, nothing within `from` is within `to`.
proof fn lemma_not_within_target(v: RegistryView, from: PathView, to: PathView, k: PathView)
    requires
        v.wf(),
        v.rename_error(from, to) is None,
        v.has(k),
        k.within(from),
    ensures
        !k.within(to),
{
    if k.within(to) {
        if from.parts.len() <= to.parts.len() {
            assert(to.parts.subrange(0, from.parts.len() as int) =~= k.parts.subrange(
                0,
                to.parts.len() as int,
            ).subrange(0, from.parts.len() as int));
            assert(k.parts.subrange(0, to.parts.len() as int).subrange(
                0,
                from.parts.len() as int,
            ) =~= k.parts.subrange(0, from.parts.len() as int));
            assert(to.within(from));
        } else {
            assert(from.parts.subrange(0, to.parts.len() as int) =~= k.parts.subrange(
                0,
                from.parts.len() as int,
            ).subrange(0, to.parts.len() as int));
            assert(k.parts.subrange(0, from.parts.len() as int).subrange(
                0,
                to.parts.len() as int,
            ) =~= k.parts.subrange(0, to.parts.len() as int));
            assert(from.within(to));
            assert(from.below(to));
            if v.has(to) {
                assert(v.has_below(to));
            } else {
                lemma_nothing_within_absent(v, to, from);
            }
        }
    }
}

/// A seek from the cursor by more bytes back than stand before it leads
/// before the first byte, whatever the contents: such a seek is refused and
/// the cursor stays.
pub proof fn lemma_seek_before_start(len: nat, pos: nat, offset: i64)
    requires
        pos + offset < 0,
    ensures
        seek_target(len, pos, SeekFrom::Current(offset)) < 0,
{
}

/// Removing a directory with all below it is refused for want of permission
/// whenever some entry below it may not be read; and a refusal leaves every
/// entry where it was.
pub proof fn lemma_remove_dir_all_refuses_unreadable(v: RegistryView, p: PathView)
    requires
        v.wf(),
        v.has_dir(p),
        v.has_unreadable_below(p),
    ensures
        v.remove_dir_all_error(p) == Some(ErrorKind::PermissionDenied),
{
}

/// Removing a directory with all below it leaves nothing within it and
/// everything else as it was.
pub proof fn lemma_remove_dir_all_removes_tree(v: RegistryView, p: PathView, k: PathView)
    requires
        v.wf(),
        v.remove_dir_all_error(p) is None,
    ensures
        k.within(p) ==> !v.without_tree(p).has(k),
        !k.within(p) ==> v.without_tree(p).has(k) == v.has(k),
        !k.within(p) && v.has(k) ==> v.without_tree(p).entries[k] == v.entries[k],
{
}

/// Whatever the checks on the way find wrong, it is that something is not found.
pub proof fn lemma_walk_error_is_not_found(v: RegistryView, p: PathView, i: nat)
    ensures
        v.walk_error(p, i) is None || v.walk_error(p, i) == Some(ErrorKind::NotFound),
    decreases i,
{
    if i > 0 {
        lemma_walk_error_is_not_found(v, p, (i - 1) as nat);
    }
}

/// A path has a canonical form or is not found: no other refusal comes.
pub proof fn lemma_canonicalize_only_not_found(v: RegistryView, p: PathView)
    ensures
        v.canonicalize_error(p) is None || v.canonicalize_error(p) == Some(ErrorKind::NotFound),
{
    lemma_walk_error_is_not_found(v, p, p.parts.len());
}

/// A path is not found as soon as its names lead, before the last of them,
/// to anything but a directory: to nothing, or to a file.
pub proof fn lemma_canonicalize_needs_directories(v: RegistryView, p: PathView, i: nat)
    requires
        i < p.parts.len(),
        i > 0 || p.rooted,
        !v.has_dir(p.resolved(i)),
    ensures
        v.canonicalize_error(p) == Some(ErrorKind::NotFound),
{
    assert(v.walk_check(p, i) == Some(ErrorKind::NotFound));
    assert(v.walk_error(p, i) is Some);
    lemma_walk_error_stays(v, p, i, p.parts.len());
    lemma_walk_error_is_not_found(v, p, p.parts.len());
}

/// The canonical form of the root is the root.
pub proof fn lemma_canonicalize_root(v: RegistryView)
    requires
        v.wf(),
    ensures
        v.canonicalize_error(root_view()) is None,
        root_view().resolved(0) == root_view(),
{
    assert(root_view().base().parts =~= root_view().parts);
}

/// The empty path has no canonical form, whatever the registry holds.
pub proof fn lemma_canonicalize_empty(v: RegistryView)
    ensures
        v.canonicalize_error(PathView { rooted: false, parts: Seq::empty() }) == Some(
            ErrorKind::NotFound,
        ),
{
}

/// Following the names of a path `q` that starts with the names of an entry
/// `d`, all of them plain, leads name by name through the paths above `d` to
/// `d`, and nothing is found wrong on the way; where `q` goes on behind `d`,
/// `d` must be a directory.
pub proof fn lemma_walk_plain(v: RegistryView, d: PathView, q: PathView, i: nat)
    requires
        v.wf(),
        v.has(d),
        i <= d.parts.len(),
        q.within(d),
        q == d || v.has_dir(d),
        forall|j: int| 0 <= j < d.parts.len() ==> d.parts[j] != parent_name(),
    ensures
        q.resolved(i) == d.ancestor(i as int),
        v.walk_error(q, i) is None,
    decreases i,
{
    lemma_ancestors(v, d, i as int);
    if i == 0 {
        assert(q.base().parts =~= d.ancestor(0).parts);
    } else {
        lemma_walk_plain(v, d, q, (i - 1) as nat);
        assert(q.parts[i - 1] == d.parts[i - 1]) by {
            assert(q.parts.subrange(0, d.parts.len() as int)[i - 1] == q.parts[i - 1]);
        }
        assert(d.ancestor(i - 1).parts.push(d.parts[i - 1]) =~= d.ancestor(i as int).parts);
    }
    if i == d.parts.len() {
        assert(d.ancestor(i as int).parts =~= d.parts);
    }
}

/// The canonical form of an entry whose names are all plain is its own path.
pub proof fn lemma_canonicalize_plain(v: RegistryView, d: PathView)
    requires
        v.wf(),
        v.has(d),
        forall|j: int| 0 <= j < d.parts.len() ==> d.parts[j] != parent_name(),
    ensures
        v.canonicalize_error(d) is None,
        d.resolved(d.parts.len()) == d,
{
    assert(v.has(d) && d.rooted);
    assert(d.parts.subrange(0, d.parts.len() as int) =~= d.parts);
    lemma_walk_plain(v, d, d, d.parts.len());
}

/// The canonical form of `..` behind a directory is the directory above it:
/// for a directory `d` other than the root whose names are all plain, the
/// path `d/..` leads to the parent of `d`.
pub proof fn lemma_canonicalize_dotdot(v: RegistryView, d: PathView)
    requires
        v.wf(),
        v.has_dir(d),
        d.parts.len() > 0,
        forall|j: int| 0 <= j < d.parts.len() ==> d.parts[j] != parent_name(),
    ensures
        ({
            let q = PathView { rooted: d.rooted, parts: d.parts.push(parent_name()) };
            v.canonicalize_error(q) is None && q.resolved(q.parts.len()) == d.parent().unwrap()
        }),
{
    let q = PathView { rooted: d.rooted, parts: d.parts.push(parent_name()) };
    let n = d.parts.len();
    assert(v.has(d) && d.rooted);
    assert(q.parts.subrange(0, n as int) =~= d.parts);
    lemma_walk_plain(v, d, q, n);
    assert(d.ancestor(n as int).parts =~= d.parts);
    assert(q.resolved(n) == d);
    assert(q.parts[n as int] == parent_name());
    assert(q.resolved(n + 1) == d.parent().unwrap());
    assert(v.has_dir(d.parent().unwrap()));
}

/// A write beyond the end fills the gap with zero bytes: the contents as
/// they were, then zero bytes up to the cursor, then what was written.
pub proof fn lemma_write_beyond_end(contents: Seq<u8>, pos: nat, buf: Seq<u8>)
    requires
        pos >= contents.len(),
    ensures
        overwritten(contents, pos, buf) == contents + zeros((pos - contents.len()) as nat) + buf,
{
    assert(overwritten(contents, pos, buf) =~= contents + zeros((pos - contents.len()) as nat)
        + buf);
}

/// A write within the contents replaces bytes in place and leaves the length.
pub proof fn lemma_write_within(contents: Seq<u8>, pos: nat, buf: Seq<u8>)
    requires
        pos + buf.len() <= contents.len(),
    ensures
        overwritten(contents, pos, buf).len() == contents.len(),
        forall|i: int|
            0 <= i < contents.len() ==> #[trigger] overwritten(contents, pos, buf)[i] == (if pos <= i
                < pos + buf.len() {
                buf[i - pos]
            } else {
                contents[i]
            }),
{
}

/// Setting the length and then writing at the new end appends: the contents
/// cut or filled to `size`, then what was written.
pub proof fn lemma_set_len_then_write(contents: Seq<u8>, size: nat, buf: Seq<u8>)
    ensures
        overwritten(resized(contents, size), size, buf) == resized(contents, size) + buf,
        resized(contents, size).len() == size,
{
    assert(overwritten(resized(contents, size), size, buf) =~= resized(contents, size) + buf);
}

/// Reading at or beyond the end takes nothing; reading before it takes what
/// is left or what the buffer can hold, whichever is less.
pub proof fn lemma_read_count(len: nat, pos: nat, room: nat)
    ensures
        pos >= len ==> read_count(len, pos, room) == 0,
        read_count(len, pos, room) <= room,
        pos + read_count(len, pos, room) <= len || read_count(len, pos, room) == 0,
{
}

/// A file whose permission word has no write bit refuses every write for
/// want of permission.
pub proof fn lemma_readonly_refuses_write(v: RegistryView, p: PathView)
    requires
        v.wf(),
        v.has_file(p),
        !mode_can_write(v.mode_at(p)),
    ensures
        v.write_error(p) == Some(ErrorKind::PermissionDenied),
        v.file_writable_error(p) == Some(ErrorKind::PermissionDenied),
{
}

} // verus!
