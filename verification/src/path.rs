//! Paths as the file system sees them: whether they start at the root, and the
//! names that lead from there to the entry.

use vstd::prelude::*;

verus! {

/// What a path says: whether it starts at the root, and its names in order.
pub struct PathView {
    pub rooted: bool,
    pub parts: Seq<Seq<u8>>,
}

/// A path. `/a/b` is rooted with the names `a` and `b`; the root itself is
/// rooted with no name; the empty path is not rooted and has no name.
#[derive(Debug)]
pub struct FsPath {
    pub rooted: bool,
    pub parts: Vec<Vec<u8>>,
}

/// The byte that separates two names.
pub const SEPARATOR: u8 = 47u8;

/// The byte of which the names `.` and `..` are made.
pub const DOT: u8 = 46u8;

/// The names held by a vector of byte strings.
pub open spec fn names_of(v: Seq<Vec<u8>>) -> Seq<Seq<u8>> {
    Seq::new(v.len(), |i: int| v[i]@)
}

/// The name `..`, which stands for the directory above.
pub open spec fn parent_name() -> Seq<u8> {
    seq![DOT, DOT]
}

/// The name `.`, which stands for the directory itself.
pub open spec fn self_name() -> Seq<u8> {
    seq![DOT]
}

/// Whether `p` names `base` or an entry somewhere below it.
pub open spec fn is_prefix(base: Seq<Seq<u8>>, p: Seq<Seq<u8>>) -> bool {
    base.len() <= p.len() && p.subrange(0, base.len() as int) == base
}

/// Whether `p` names an entry somewhere below `base`.
pub open spec fn is_below(base: Seq<Seq<u8>>, p: Seq<Seq<u8>>) -> bool {
    base.len() < p.len() && p.subrange(0, base.len() as int) == base
}

/// Whether `p` names an entry directly inside `base`.
pub open spec fn is_child(base: Seq<Seq<u8>>, p: Seq<Seq<u8>>) -> bool {
    p.len() == base.len() + 1 && p.subrange(0, base.len() as int) == base
}

/// The path that results when the leading `from` of `p` is replaced by `to`.
pub open spec fn rebase(from: Seq<Seq<u8>>, to: Seq<Seq<u8>>, p: Seq<Seq<u8>>) -> Seq<Seq<u8>> {
    to + p.subrange(from.len() as int, p.len() as int)
}

/// The text of some names: the names with a separator between each two.
pub open spec fn rendered_names(parts: Seq<Seq<u8>>) -> Seq<u8>
    decreases parts.len(),
{
    if parts.len() == 0 {
        Seq::empty()
    } else if parts.len() == 1 {
        parts[0]
    } else {
        rendered_names(parts.drop_last()) + seq![SEPARATOR] + parts.last()
    }
}

/// The text of a path: a separator first where it is rooted, then its names.
pub open spec fn rendered(p: PathView) -> Seq<u8> {
    if p.rooted {
        seq![SEPARATOR] + rendered_names(p.parts)
    } else {
        rendered_names(p.parts)
    }
}

/// How many bytes of `s` stand before its first separator: all of them
/// where it has none.
pub open spec fn first_separator(s: Seq<u8>) -> nat
    decreases s.len(),
{
    if s.len() == 0 || s[0] == SEPARATOR {
        0
    } else {
        1 + first_separator(s.skip(1))
    }
}

/// The names in the text of a path: the runs of bytes between separators,
/// without the empty ones and without those that are `.`.
pub open spec fn split_names(s: Seq<u8>) -> Seq<Seq<u8>>
    decreases s.len(),
{
    if s.len() == 0 {
        Seq::empty()
    } else {
        let k = first_separator(s) as int;
        let head = s.subrange(0, k);
        let rest = if k < s.len() {
            split_names(s.skip(k + 1))
        } else {
            Seq::empty()
        };
        if head.len() == 0 || head == self_name() {
            rest
        } else {
            seq![head] + rest
        }
    }
}

/// The path that a text stands for: rooted where the text starts with a
/// separator, with the names of the text. A `.` at the very start is kept.
pub open spec fn parsed(s: Seq<u8>) -> PathView {
    let rooted = s.len() > 0 && s[0] == SEPARATOR;
    PathView {
        rooted,
        parts: if starts_with_dot(s) {
            seq![self_name()] + split_names(s)
        } else {
            split_names(s)
        },
    }
}

/// Whether the text of a path starts with the name `.`, which then stands
/// for the directory that the path starts from.
pub open spec fn starts_with_dot(s: Seq<u8>) -> bool {
    s.len() > 0 && s[0] == DOT && (s.len() == 1 || s[1] == SEPARATOR)
}

/// The first separator of a text is where no byte before is one and the
/// byte there is one, or the text ends.
pub proof fn lemma_first_separator(s: Seq<u8>, k: int)
    requires
        0 <= k <= s.len(),
        forall|j: int| 0 <= j < k ==> s[j] != SEPARATOR,
        k == s.len() || s[k] == SEPARATOR,
    ensures
        first_separator(s) == k,
    decreases s.len(),
{
    if k > 0 {
        let t = s.skip(1);
        assert forall|j: int| 0 <= j < k - 1 implies t[j] != SEPARATOR by {
            assert(t[j] == s[j + 1]);
        }
        lemma_first_separator(t, k - 1);
    }
}

impl PathView {
    /// The path one level up, where there is one.
    pub open spec fn parent(self) -> Option<PathView> {
        if self.parts.len() == 0 {
            None
        } else {
            Some(PathView { rooted: self.rooted, parts: self.parts.drop_last() })
        }
    }

    /// The first `n` names of this path.
    pub open spec fn ancestor(self, n: int) -> PathView {
        PathView { rooted: self.rooted, parts: self.parts.subrange(0, n) }
    }

    /// The path without names, rooted as this one is.
    pub open spec fn base(self) -> PathView {
        PathView { rooted: self.rooted, parts: Seq::empty() }
    }

    /// This path after one more name has been followed: `..` leads one level
    /// up, and stays where there is no level above; every other name leads
    /// one level down.
    pub open spec fn step(self, name: Seq<u8>) -> PathView {
        if name == parent_name() {
            if self.parts.len() > 0 {
                PathView { rooted: self.rooted, parts: self.parts.drop_last() }
            } else {
                self
            }
        } else {
            PathView { rooted: self.rooted, parts: self.parts.push(name) }
        }
    }

    /// Where the first `i` names of this path lead, each `..` taken as a step up.
    pub open spec fn resolved(self, i: nat) -> PathView
        decreases i,
    {
        if i == 0 || i > self.parts.len() {
            self.base()
        } else {
            self.resolved((i - 1) as nat).step(self.parts[i - 1])
        }
    }

    /// Whether this path names `base` or an entry somewhere below it.
    pub open spec fn within(self, base: PathView) -> bool {
        self.rooted == base.rooted && is_prefix(base.parts, self.parts)
    }

    /// Whether this path names an entry somewhere below `base`.
    pub open spec fn below(self, base: PathView) -> bool {
        self.rooted == base.rooted && is_below(base.parts, self.parts)
    }

    /// Whether this path names an entry directly inside `base`.
    pub open spec fn child_of(self, base: PathView) -> bool {
        self.rooted == base.rooted && is_child(base.parts, self.parts)
    }

    /// A path is directly inside another exactly when that other is its parent.
    pub proof fn lemma_child_of(self, base: PathView)
        ensures
            self.child_of(base) == (self.parent() == Some(base)),
            self.child_of(base) ==> self.below(base),
    {
        if self.child_of(base) {
            assert(self.parts.drop_last() =~= base.parts);
        }
        if self.parent() == Some(base) {
            assert(self.parts.subrange(0, base.parts.len() as int) =~= base.parts);
        }
    }

    /// This path followed by `other`, as a relative path is put behind the
    /// directory it starts from: a rooted `other` replaces this path, and so
    /// does any `other` where this path is empty; a `.` at the start of
    /// `other` is left out.
    pub open spec fn join(self, other: PathView) -> PathView {
        if other.rooted || (!self.rooted && self.parts.len() == 0) {
            other
        } else {
            self.followed_by(other.without_dot())
        }
    }

    /// This path with the names of `tail` behind its own.
    pub open spec fn followed_by(self, tail: PathView) -> PathView {
        PathView { rooted: self.rooted, parts: self.parts + tail.parts }
    }

    /// This path without the name `.` at its start, where it has one there.
    pub open spec fn without_dot(self) -> PathView {
        if self.parts.len() > 0 && self.parts[0] == self_name() {
            PathView { rooted: self.rooted, parts: self.parts.skip(1) }
        } else {
            self
        }
    }
}

/// Whether two byte strings hold the same bytes.
pub fn bytes_eq(a: &Vec<u8>, b: &Vec<u8>) -> (same: bool)
    ensures
        same == (a@ == b@),
{
    if a.len() != b.len() {
        return false;
    }
    let mut i: usize = 0;
    while i < a.len()
        invariant
            i <= a.len(),
            a.len() == b.len(),
            forall|j: int| 0 <= j < i ==> a@[j] == b@[j],
        decreases a.len() - i,
    {
        if a[i] != b[i] {
            return false;
        }
        i += 1;
    }
    assert(a@ =~= b@);
    true
}

/// A vector that holds the bytes of `a`.
pub fn bytes_clone(a: &[u8]) -> (copy: Vec<u8>)
    ensures
        copy@ == a@,
{
    let mut copy: Vec<u8> = Vec::new();
    let mut i: usize = 0;
    while i < a.len()
        invariant
            i <= a.len(),
            copy@ == a@.subrange(0, i as int),
        decreases a.len() - i,
    {
        copy.push(a[i]);
        assert(copy@ =~= a@.subrange(0, i + 1));
        i += 1;
    }
    assert(copy@ =~= a@);
    copy
}

impl View for FsPath {
    type V = PathView;

    open spec fn view(&self) -> PathView {
        PathView { rooted: self.rooted, parts: names_of(self.parts@) }
    }
}

impl FsPath {
    /// The root directory.
    pub fn root() -> (p: FsPath)
        ensures
            p@.rooted,
            p@.parts == Seq::<Seq<u8>>::empty(),
    {
        let p = FsPath { rooted: true, parts: Vec::new() };
        assert(p@.parts =~= Seq::<Seq<u8>>::empty());
        p
    }

    /// The empty path, which names nothing.
    pub fn empty() -> (p: FsPath)
        ensures
            !p@.rooted,
            p@.parts == Seq::<Seq<u8>>::empty(),
    {
        let p = FsPath { rooted: false, parts: Vec::new() };
        assert(p@.parts =~= Seq::<Seq<u8>>::empty());
        p
    }

    /// Whether the path starts at the root.
    pub fn is_absolute(&self) -> (b: bool)
        ensures
            b == self@.rooted,
    {
        self.rooted
    }

    /// Whether the path does not start at the root.
    pub fn is_relative(&self) -> (b: bool)
        ensures
            b == !self@.rooted,
    {
        !self.rooted
    }

    /// Whether the path is the empty path.
    pub fn is_empty(&self) -> (b: bool)
        ensures
            b == (!self@.rooted && self@.parts.len() == 0),
    {
        !self.rooted && self.parts.len() == 0
    }

    /// How many names the path has.
    pub fn depth(&self) -> (n: usize)
        ensures
            n == self@.parts.len(),
    {
        self.parts.len()
    }

    /// A copy of the path.
    pub fn duplicate(&self) -> (p: FsPath)
        ensures
            p@ == self@,
    {
        let mut parts: Vec<Vec<u8>> = Vec::new();
        let mut i: usize = 0;
        while i < self.parts.len()
            invariant
                i <= self.parts.len(),
                parts.len() == i,
                forall|j: int| 0 <= j < i ==> parts@[j]@ == self.parts@[j]@,
            decreases self.parts.len() - i,
        {
            parts.push(bytes_clone(self.parts[i].as_slice()));
            i += 1;
        }
        assert(names_of(parts@) =~= names_of(self.parts@));
        FsPath { rooted: self.rooted, parts }
    }

    /// Whether two paths are the same path.
    pub fn same(&self, other: &FsPath) -> (b: bool)
        ensures
            b == (self@ == other@),
    {
        if self.rooted != other.rooted || self.parts.len() != other.parts.len() {
            proof {
                if self@ == other@ {
                    assert(self@.parts.len() == other@.parts.len());
                }
            }
            return false;
        }
        let mut i: usize = 0;
        while i < self.parts.len()
            invariant
                i <= self.parts.len(),
                self.parts.len() == other.parts.len(),
                forall|j: int| 0 <= j < i ==> self@.parts[j] == other@.parts[j],
            decreases self.parts.len() - i,
        {
            if !bytes_eq(&self.parts[i], &other.parts[i]) {
                assert(self@.parts[i as int] != other@.parts[i as int]);
                return false;
            }
            i += 1;
        }
        assert(self@.parts =~= other@.parts);
        true
    }

    /// The path one level up; none for the root and for the empty path.
    pub fn parent(&self) -> (p: Option<FsPath>)
        ensures
            match p {
                Some(q) => self@.parent() == Some(q@),
                None => self@.parent().is_none(),
            },
    {
        let n = self.parts.len();
        if n == 0 {
            return None;
        }
        let mut parts: Vec<Vec<u8>> = Vec::new();
        let mut i: usize = 0;
        while i < n - 1
            invariant
                n == self.parts.len(),
                n >= 1,
                i <= n - 1,
                parts.len() == i,
                forall|j: int| 0 <= j < i ==> parts@[j]@ == self.parts@[j]@,
            decreases n - 1 - i,
        {
            parts.push(bytes_clone(self.parts[i].as_slice()));
            i += 1;
        }
        assert(names_of(parts@) =~= names_of(self.parts@).drop_last());
        Some(FsPath { rooted: self.rooted, parts })
    }

    /// The last name of the path, where it has one.
    pub fn file_name(&self) -> (name: Option<Vec<u8>>)
        ensures
            match name {
                Some(n) => self@.parts.len() > 0 && n@ == self@.parts.last(),
                None => self@.parts.len() == 0,
            },
    {
        let n = self.parts.len();
        if n == 0 {
            None
        } else {
            Some(bytes_clone(self.parts[n - 1].as_slice()))
        }
    }

    /// The path with one more name at its end.
    pub fn child(&self, name: &[u8]) -> (p: FsPath)
        ensures
            p@.rooted == self@.rooted,
            p@.parts == self@.parts.push(name@),
    {
        let mut p = self.duplicate();
        assert(p@.parts.len() == self@.parts.len());
        assert forall|j: int| 0 <= j < self.parts.len() implies p.parts@[j]@ == self.parts@[j]@ by {
            assert(p@.parts[j] == self@.parts[j]);
        }
        p.parts.push(bytes_clone(name));
        assert(p@.parts =~= self@.parts.push(name@));
        p
    }

    /// This path with the names of `tail` behind its own.
    pub fn followed_by(&self, tail: &FsPath) -> (p: FsPath)
        ensures
            p@ == self@.followed_by(tail@),
    {
        assert(tail@.parts.skip(0) =~= tail@.parts);
        self.extended(tail, 0)
    }

    /// This path with the names of `tail` from the one numbered `start` on
    /// behind its own.
    fn extended(&self, tail: &FsPath, start: usize) -> (p: FsPath)
        requires
            start <= tail@.parts.len(),
        ensures
            p@.rooted == self@.rooted,
            p@.parts == self@.parts + tail@.parts.skip(start as int),
    {
        let mut p = self.duplicate();
        assert(p@.parts.len() == self@.parts.len());
        assert forall|j: int| 0 <= j < self.parts.len() implies p.parts@[j]@ == self.parts@[j]@ by {
            assert(p@.parts[j] == self@.parts[j]);
        }
        let mut i: usize = start;
        while i < tail.parts.len()
            invariant
                start <= i <= tail.parts.len(),
                p.rooted == self.rooted,
                p.parts.len() == self.parts.len() + i - start,
                forall|j: int| 0 <= j < self.parts.len() ==> p.parts@[j]@ == self.parts@[j]@,
                forall|j: int|
                    self.parts.len() <= j < p.parts.len() ==> (#[trigger] p.parts@[j])@
                        == tail.parts@[j - self.parts.len() + start]@,
            decreases tail.parts.len() - i,
        {
            p.parts.push(bytes_clone(tail.parts[i].as_slice()));
            i += 1;
        }
        assert(p@.parts =~= self@.parts + tail@.parts.skip(start as int));
        p
    }

    /// This path followed by `other`, as a relative path is put behind the
    /// directory it starts from: a rooted `other` takes the place of this
    /// path, and so does any `other` where this path is empty; a `.` at the
    /// start of `other` is left out.
    pub fn join(&self, other: &FsPath) -> (p: FsPath)
        ensures
            p@ == self@.join(other@),
    {
        if other.rooted || self.is_empty() {
            return other.duplicate();
        }
        if other.parts.len() > 0 && is_self_name(other.parts[0].as_slice()) {
            self.extended(other, 1)
        } else {
            assert(other@.parts.skip(0) =~= other@.parts);
            self.extended(other, 0)
        }
    }

    /// Whether this path names `base` or an entry below it.
    pub fn starts_with(&self, base: &FsPath) -> (b: bool)
        ensures
            b == self@.within(base@),
    {
        if self.rooted != base.rooted || base.parts.len() > self.parts.len() {
            return false;
        }
        let mut i: usize = 0;
        while i < base.parts.len()
            invariant
                i <= base.parts.len(),
                base.parts.len() <= self.parts.len(),
                forall|j: int| 0 <= j < i ==> self@.parts[j] == base@.parts[j],
            decreases base.parts.len() - i,
        {
            if !bytes_eq(&self.parts[i], &base.parts[i]) {
                assert(self@.parts.subrange(0, base@.parts.len() as int)[i as int]
                    != base@.parts[i as int]);
                return false;
            }
            i += 1;
        }
        assert(self@.parts.subrange(0, base@.parts.len() as int) =~= base@.parts);
        true
    }

    /// What is left of this path after the leading `base`: a path that does
    /// not start at the root. None where this path is not within `base`.
    pub fn strip_prefix(&self, base: &FsPath) -> (rest: Option<FsPath>)
        ensures
            match rest {
                Some(p) => self@.within(base@) && !p@.rooted && p@.parts == self@.parts.subrange(
                    base@.parts.len() as int,
                    self@.parts.len() as int,
                ),
                None => !self@.within(base@),
            },
    {
        if !self.starts_with(base) {
            return None;
        }
        let start = base.parts.len();
        let mut parts: Vec<Vec<u8>> = Vec::new();
        let mut i: usize = start;
        while i < self.parts.len()
            invariant
                start <= i <= self.parts.len(),
                parts.len() == i - start,
                forall|j: int| 0 <= j < i - start ==> parts@[j]@ == self.parts@[start + j]@,
            decreases self.parts.len() - i,
        {
            parts.push(bytes_clone(self.parts[i].as_slice()));
            i += 1;
        }
        let p = FsPath { rooted: false, parts };
        assert(p@.parts =~= self@.parts.subrange(start as int, self@.parts.len() as int));
        Some(p)
    }

    /// The first `n` names of the path, or all of them where it has fewer.
    pub fn truncated(&self, n: usize) -> (p: FsPath)
        ensures
            p@ == self@.ancestor(if n <= self@.parts.len() { n as int } else { self@.parts.len() as int }),
    {
        let m = if n <= self.parts.len() { n } else { self.parts.len() };
        let mut parts: Vec<Vec<u8>> = Vec::new();
        let mut i: usize = 0;
        while i < m
            invariant
                i <= m <= self.parts.len(),
                parts.len() == i,
                forall|j: int| 0 <= j < i ==> parts@[j]@ == self.parts@[j]@,
            decreases m - i,
        {
            parts.push(bytes_clone(self.parts[i].as_slice()));
            i += 1;
        }
        let p = FsPath { rooted: self.rooted, parts };
        assert(p@.parts =~= self@.parts.subrange(0, m as int));
        p
    }

    /// Adds a name at the end of the path.
    pub fn push(&mut self, name: &[u8])
        ensures
            final(self)@.rooted == old(self)@.rooted,
            final(self)@.parts == old(self)@.parts.push(name@),
    {
        self.parts.push(bytes_clone(name));
        assert(self@.parts =~= old(self)@.parts.push(name@));
    }

    /// Takes the last name off the path. Says whether there was one.
    pub fn pop(&mut self) -> (popped: bool)
        ensures
            popped == (old(self)@.parts.len() > 0),
            final(self)@ == (if popped {
                old(self)@.parent().unwrap()
            } else {
                old(self)@
            }),
    {
        match self.parts.pop() {
            Some(_) => {
                assert(self@.parts =~= old(self)@.parts.drop_last());
                true
            },
            None => {
                assert(self@.parts =~= old(self)@.parts);
                false
            },
        }
    }

    /// Follows one more name: `..` leads one level up, and stays where there
    /// is no level above; every other name leads one level down.
    pub fn follow(&mut self, name: &[u8])
        ensures
            final(self)@ == old(self)@.step(name@),
    {
        if is_parent_name(name) {
            self.pop();
        } else {
            self.push(name);
        }
    }
}

/// Whether `name` is the name `.`.
pub fn is_self_name(name: &[u8]) -> (b: bool)
    ensures
        b == (name@ == self_name()),
{
    if name.len() == 1 && name[0] == DOT {
        assert(name@ =~= self_name());
        true
    } else {
        assert(self_name().len() == 1 && self_name()[0] == DOT);
        false
    }
}

/// The path that the text `bytes` stands for. Names are parted by `/`; empty
/// names and the name `.` are left out, but for a `.` at the very start;
/// `..` stays a name.
pub fn parse(bytes: &[u8]) -> (p: FsPath)
    ensures
        p@ == parsed(bytes@),
{
    let n = bytes.len();
    let rooted = n > 0 && bytes[0] == SEPARATOR;
    let mut parts: Vec<Vec<u8>> = Vec::new();
    let dotted = n > 0 && bytes[0] == DOT && (n == 1 || bytes[1] == SEPARATOR);
    let ghost lead: Seq<Seq<u8>> = if dotted {
        seq![self_name()]
    } else {
        Seq::empty()
    };
    if dotted {
        let mut dot: Vec<u8> = Vec::new();
        dot.push(DOT);
        assert(dot@ =~= self_name());
        parts.push(dot);
    }
    assert(names_of(parts@) =~= lead);
    let mut start: usize = 0;
    assert(bytes@.skip(0) =~= bytes@);
    while start < n
        invariant
            start <= n,
            n == bytes@.len(),
            names_of(parts@) + split_names(bytes@.skip(start as int)) == lead + split_names(
                bytes@,
            ),
        decreases n - start,
    {
        let ghost rest = bytes@.skip(start as int);
        let mut end: usize = start;
        while end < n && bytes[end] != SEPARATOR
            invariant
                start <= end <= n,
                n == bytes@.len(),
                forall|j: int| start <= j < end ==> bytes@[j] != SEPARATOR,
            decreases n - end,
        {
            end += 1;
        }
        let mut name: Vec<u8> = Vec::new();
        let mut i: usize = start;
        while i < end
            invariant
                start <= i <= end <= n,
                n == bytes@.len(),
                name@ == bytes@.subrange(start as int, i as int),
            decreases end - i,
        {
            name.push(bytes[i]);
            assert(name@ =~= bytes@.subrange(start as int, i + 1));
            i += 1;
        }
        proof {
            let k = end - start;
            assert forall|j: int| 0 <= j < k implies rest[j] != SEPARATOR by {
                assert(rest[j] == bytes@[start + j]);
            }
            lemma_first_separator(rest, k);
            assert(rest.subrange(0, k) =~= name@);
            if k < rest.len() {
                assert(rest.skip(k + 1) =~= bytes@.skip(end + 1));
            }
        }
        let ghost before = names_of(parts@);
        if name.len() != 0 && !is_self_name(name.as_slice()) {
            parts.push(name);
            assert(names_of(parts@) =~= before + seq![name@]);
        }
        proof {
            let k = end - start;
            let tail = if k < rest.len() {
                split_names(rest.skip(k + 1))
            } else {
                Seq::empty()
            };
            assert(names_of(parts@) + tail =~= before + split_names(rest));
            assert(before + split_names(rest) == lead + split_names(bytes@));
            if end == n {
                assert(split_names(bytes@.skip(n as int)) =~= Seq::<Seq<u8>>::empty());
            }
        }
        start = if end < n {
            end + 1
        } else {
            n
        };
    }
    proof {
        assert(bytes@.skip(n as int).len() == 0);
        assert(names_of(parts@) + Seq::<Seq<u8>>::empty() =~= names_of(parts@));
    }
    FsPath { rooted, parts }
}

impl FsPath {
    /// The text of the path.
    pub fn to_bytes(&self) -> (text: Vec<u8>)
        ensures
            text@ == rendered(self@),
    {
        let mut text: Vec<u8> = Vec::new();
        if self.rooted {
            text.push(SEPARATOR);
        }
        let ghost lead = text@;
        let mut i: usize = 0;
        assert(self@.parts.subrange(0, 0) =~= Seq::<Seq<u8>>::empty());
        assert(text@ =~= lead + rendered_names(self@.parts.subrange(0, 0)));
        while i < self.parts.len()
            invariant
                i <= self.parts.len(),
                text@ == lead + rendered_names(self@.parts.subrange(0, i as int)),
            decreases self.parts.len() - i,
        {
            let ghost done = self@.parts.subrange(0, i as int);
            let ghost next = self@.parts.subrange(0, i + 1);
            assert(next.drop_last() =~= done);
            assert(next.last() == self.parts@[i as int]@);
            if i > 0 {
                text.push(SEPARATOR);
            }
            let name = &self.parts[i];
            let ghost base = text@;
            let mut j: usize = 0;
            while j < name.len()
                invariant
                    j <= name.len(),
                    text@ == base + name@.subrange(0, j as int),
                decreases name.len() - j,
            {
                text.push(name[j]);
                assert(text@ =~= base + name@.subrange(0, j + 1));
                j += 1;
            }
            assert(name@.subrange(0, name@.len() as int) =~= name@);
            assert(text@ =~= lead + rendered_names(next));
            i += 1;
        }
        assert(self@.parts.subrange(0, self@.parts.len() as int) =~= self@.parts);
        text
    }
}

/// Whether `name` is the name `..`.
pub fn is_parent_name(name: &[u8]) -> (b: bool)
    ensures
        b == (name@ == parent_name()),
{
    if name.len() == 2 && name[0] == DOT && name[1] == DOT {
        assert(name@ =~= parent_name());
        true
    } else {
        assert(parent_name().len() == 2 && parent_name()[0] == DOT && parent_name()[1] == DOT);
        false
    }
}

/// Whether a name can stand in the text of a path and be read back: it is
/// not empty, holds no separator, and is not the name `.`.
pub open spec fn plain_name(name: Seq<u8>) -> bool {
    &&& name.len() > 0
    &&& name != self_name()
    &&& forall|i: int| 0 <= i < name.len() ==> name[i] != SEPARATOR
}

/// Before the first separator of a text stands no separator, and there the
/// text ends or has one.
pub proof fn lemma_first_separator_found(s: Seq<u8>)
    ensures
        first_separator(s) <= s.len(),
        forall|j: int| 0 <= j < first_separator(s) ==> s[j] != SEPARATOR,
        first_separator(s) == s.len() || s[first_separator(s) as int] == SEPARATOR,
    decreases s.len(),
{
    if s.len() > 0 && s[0] != SEPARATOR {
        let t = s.skip(1);
        lemma_first_separator_found(t);
        assert forall|j: int| 0 <= j < first_separator(s) implies s[j] != SEPARATOR by {
            if j > 0 {
                assert(s[j] == t[j - 1]);
            }
        }
        if first_separator(s) < s.len() {
            assert(s[first_separator(s) as int] == t[first_separator(t) as int]);
        }
    }
}

/// The text of one plain name holds that name and no other.
pub proof fn lemma_split_one_name(name: Seq<u8>)
    requires
        plain_name(name),
    ensures
        split_names(name) == seq![name],
{
    lemma_first_separator(name, name.len() as int);
    assert(name.subrange(0, name.len() as int) =~= name);
    assert(seq![name] + Seq::<Seq<u8>>::empty() =~= seq![name]);
}

/// A text followed by a separator and a plain name holds the names of the
/// text and then that name.
pub proof fn lemma_split_one_more(a: Seq<u8>, name: Seq<u8>)
    requires
        plain_name(name),
    ensures
        split_names(a + seq![SEPARATOR] + name) == split_names(a) + seq![name],
    decreases a.len(),
{
    let s = a + seq![SEPARATOR] + name;
    lemma_split_one_name(name);
    if a.len() == 0 {
        assert(s[0] == SEPARATOR);
        assert(s.subrange(0, 0).len() == 0);
        assert(s.skip(1) =~= name);
        assert(split_names(a) + seq![name] =~= seq![name]);
    } else {
        lemma_first_separator_found(a);
        let k = first_separator(a) as int;
        assert forall|j: int| 0 <= j < k implies s[j] != SEPARATOR by {
            assert(s[j] == a[j]);
        }
        if k < a.len() {
            assert(s[k] == a[k]);
        } else {
            assert(s[k] == SEPARATOR);
        }
        lemma_first_separator(s, k);
        assert(s.subrange(0, k) =~= a.subrange(0, k));
        let head = a.subrange(0, k);
        if k < a.len() {
            assert(s.skip(k + 1) =~= a.skip(k + 1) + seq![SEPARATOR] + name);
            lemma_split_one_more(a.skip(k + 1), name);
            let rest = split_names(a.skip(k + 1));
            assert((seq![head] + rest) + seq![name] =~= seq![head] + (rest + seq![name]));
        } else {
            assert(s.skip(k + 1) =~= name);
            let none = Seq::<Seq<u8>>::empty();
            assert(none + seq![name] =~= seq![name]);
            assert((seq![head] + none) + seq![name] =~= seq![head] + seq![name]);
        }
    }
}

/// The text of plain names starts with the first of them.
pub proof fn lemma_rendered_starts_with_first(parts: Seq<Seq<u8>>)
    requires
        parts.len() > 0,
    ensures
        rendered_names(parts).len() >= parts[0].len(),
        rendered_names(parts).subrange(0, parts[0].len() as int) == parts[0],
    decreases parts.len(),
{
    if parts.len() == 1 {
        assert(parts[0].subrange(0, parts[0].len() as int) =~= parts[0]);
    } else {
        lemma_rendered_starts_with_first(parts.drop_last());
        let before = rendered_names(parts.drop_last());
        assert(rendered_names(parts).subrange(0, parts[0].len() as int) =~= before.subrange(
            0,
            parts[0].len() as int,
        ));
    }
}

/// The text of plain names holds these names and no others.
pub proof fn lemma_split_rendered(parts: Seq<Seq<u8>>)
    requires
        forall|i: int| 0 <= i < parts.len() ==> plain_name(#[trigger] parts[i]),
    ensures
        split_names(rendered_names(parts)) == parts,
    decreases parts.len(),
{
    if parts.len() == 0 {
        assert(parts =~= Seq::<Seq<u8>>::empty());
    } else if parts.len() == 1 {
        lemma_split_one_name(parts[0]);
        assert(parts =~= seq![parts[0]]);
    } else {
        let before = parts.drop_last();
        assert forall|i: int| 0 <= i < before.len() implies plain_name(#[trigger] before[i]) by {
            assert(before[i] == parts[i]);
        }
        lemma_split_rendered(before);
        lemma_split_one_more(rendered_names(before), parts.last());
        assert(before + seq![parts.last()] =~= parts);
    }
}

/// A path of plain names is read back from its text: parsing what
/// `to_bytes` gives yields the path again.
pub proof fn lemma_parse_rendered(p: PathView)
    requires
        forall|i: int| 0 <= i < p.parts.len() ==> plain_name(#[trigger] p.parts[i]),
    ensures
        parsed(rendered(p)) == p,
{
    let text = rendered(p);
    let names = rendered_names(p.parts);
    lemma_split_rendered(p.parts);
    if p.rooted {
        assert(text[0] == SEPARATOR);
        assert(text.subrange(0, 0).len() == 0);
        assert(text.skip(1) =~= names);
        assert(split_names(text) == p.parts);
    } else if p.parts.len() > 0 {
        let first = p.parts[0];
        assert(plain_name(first));
        lemma_rendered_starts_with_first(p.parts);
        assert(text[0] == text.subrange(0, first.len() as int)[0]);
        assert(text[0] == first[0]);
        if text[0] == DOT {
            if first.len() == 1 {
                assert(first =~= self_name());
            } else {
                assert(text[1] == text.subrange(0, first.len() as int)[1]);
                assert(text[1] == first[1]);
            }
        }
    } else {
        assert(text.len() == 0);
    }
}

} // verus!
