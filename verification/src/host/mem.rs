//! In-memory filesystem, used as the oracle of the host side.
//!
//! Modification times come from an injectable [`Clock`], so that exact
//! timestamps can be asserted.

use std::collections::BTreeMap;

use bytes::Bytes;
use vstd::prelude::*;

use crate::host::tree::{
    self, attr_of, empty_tree, find, listing, name_lt, passes, resolve_from, with_child,
    without_child, InodeView, Link, NodeView, SnapView, Tree,
};
use crate::host::{check_relative, child_views, DirChild, Failure, HostError};
use crate::path::{Component, HostPath};
use crate::payload::{
    bytes_clone, bytes_contents, bytes_from, bytes_range, bytes_slice, resize, splice,
};
use crate::protocol::{FileAttr, FileKind, Ino, ROOT_INO};
use crate::text::{chars_of, str_eq};

verus! {

/// A source of time, so that tests can move it by hand.
pub trait Clock {
    /// Whether `ns` is a time that the clock may show.
    spec fn shows(&self, ns: i64) -> bool;

    /// Nanoseconds since the Unix epoch.
    fn now_ns(&self) -> (ns: i64)
        ensures
            self.shows(ns),
    ;
}

/// The wall clock.
#[derive(Debug, Clone, Copy, Default)]
pub struct SystemClock;

/// `SystemTime::now` against the epoch: whether it lies after it, and by how
/// many nanoseconds. Time goes on by itself, so nothing is said of the result.
#[verifier::external_body]
fn wall_clock() -> (r: (bool, u128)) {
    match std::time::SystemTime::now().duration_since(std::time::UNIX_EPOCH) {
        Ok(d) => (true, d.as_nanos()),
        Err(e) => (false, e.duration().as_nanos()),
    }
}

impl Clock for SystemClock {
    open spec fn shows(&self, ns: i64) -> bool {
        true
    }

    fn now_ns(&self) -> (ns: i64) {
        let (after, nanos): (bool, u128) = wall_clock();
        epoch_ns(after, nanos)
    }
}

/// A distance from the epoch as a signed number of nanoseconds.
pub fn epoch_ns(after: bool, nanos: u128) -> (ns: i64)
    ensures
        after ==> ns == nanos as i64,
        !after ==> ns == 0i64.wrapping_sub(nanos as i64),
{
    let n: i64 = nanos as i64;
    if after {
        n
    } else {
        0i64.wrapping_sub(n)
    }
}

/// A clock that is moved by hand.
#[derive(Debug, Clone, Copy)]
pub struct FakeClock {
    pub ns: i64,
}

impl FakeClock {
    pub fn new(initial_ns: i64) -> (r: FakeClock)
        ensures
            r.ns == initial_ns,
    {
        FakeClock { ns: initial_ns }
    }

    /// Move the clock on. It wraps around at the ends of its range.
    pub fn advance_ns(&mut self, delta: i64)
        ensures
            final(self).ns == old(self).ns.wrapping_add(delta),
    {
        self.ns = self.ns.wrapping_add(delta);
    }
}

impl Clock for FakeClock {
    open spec fn shows(&self, ns: i64) -> bool {
        ns == self.ns
    }

    fn now_ns(&self) -> (ns: i64) {
        self.ns
    }
}

#[derive(Debug)]
struct Child {
    name: String,
    ino: Ino,
}

#[derive(Debug)]
enum Node {
    File { content: Bytes, mode: u16 },
    Dir { children: Vec<Child>, mode: u16 },
}

#[derive(Debug)]
struct InodeEntry {
    node: Node,
    atime_ns: i64,
    mtime_ns: i64,
    ctime_ns: i64,
}

spec fn links(v: Seq<Child>) -> Seq<Link> {
    Seq::new(v.len(), |i: int| Link { name: v[i].name@, ino: v[i].ino })
}

impl InodeEntry {
    spec fn look(self) -> InodeView {
        InodeView {
            node: match self.node {
                Node::File { content, mode } => NodeView::File {
                    content: bytes_contents(content),
                    mode,
                },
                Node::Dir { children, mode } => NodeView::Dir { children: links(children@), mode },
            },
            atime_ns: self.atime_ns,
            mtime_ns: self.mtime_ns,
            ctime_ns: self.ctime_ns,
        }
    }

    fn kind(&self) -> (r: FileKind)
        ensures
            r == self.look().kind(),
    {
        match self.node {
            Node::File { .. } => FileKind::Regular,
            Node::Dir { .. } => FileKind::Directory,
        }
    }
}

/// An in-memory filesystem.
pub struct MemFs<C> {
    inodes: BTreeMap<Ino, InodeEntry>,
    next_ino: Ino,
    clock: C,
}

impl<C> View for MemFs<C> {
    type V = Tree;

    closed spec fn view(&self) -> Tree {
        Tree {
            inodes: Map::new(
                |k: Ino| self.inodes@.dom().contains(k),
                |k: Ino| self.inodes@[k].look(),
            ),
            next: self.next_ino as int,
        }
    }
}

/// The number that the next inode gets is one that can be counted.
pub proof fn lemma_next_number<C>(fs: MemFs<C>)
    ensures
        0 <= fs@.next <= u64::MAX,
{
}

proof fn lemma_find(s: Seq<Link>, name: Seq<char>, pos: int)
    requires
        0 <= pos <= s.len(),
        forall|j: int| 0 <= j < pos ==> (#[trigger] s[j]).name != name,
    ensures
        pos == s.len() ==> find(s, name) is None && without_child(s, name) == s,
        pos < s.len() && s[pos].name == name ==> find(s, name) == Some(s[pos].ino) && without_child(
            s,
            name,
        ) == s.remove(pos),
    decreases s.len(),
{
    if s.len() > 0 {
        if pos > 0 {
            let rest = s.drop_first();
            assert forall|j: int| 0 <= j < pos - 1 implies (#[trigger] rest[j]).name != name by {
                assert(s[j + 1] == rest[j]);
            }
            assert(s[0].name != name);
            lemma_find(rest, name, pos - 1);
            if pos == s.len() {
                assert(seq![s[0]] + rest =~= s);
            } else if s[pos].name == name {
                assert(rest[pos - 1] == s[pos]);
                assert(seq![s[0]] + rest.remove(pos - 1) =~= s.remove(pos));
            }
        } else if s[0].name == name {
            assert(s.drop_first() =~= s.remove(0));
        }
    }
}

proof fn lemma_with_child(s: Seq<Link>, name: Seq<char>, ino: Ino, pos: int)
    requires
        0 <= pos <= s.len(),
        forall|j: int| 0 <= j < pos ==> name_lt((#[trigger] s[j]).name, name),
        pos < s.len() ==> !name_lt(s[pos].name, name),
    ensures
        with_child(s, name, ino) == s.insert(pos, Link { name, ino }),
    decreases s.len(),
{
    let link = Link { name, ino };
    if pos == 0 {
        assert(seq![link] + s =~= s.insert(0, link));
    } else {
        let rest = s.drop_first();
        assert(name_lt(s[0].name, name));
        assert forall|j: int| 0 <= j < pos - 1 implies name_lt((#[trigger] rest[j]).name, name) by {
            assert(s[j + 1] == rest[j]);
        }
        lemma_with_child(rest, name, ino, pos - 1);
        assert(seq![s[0]] + rest.insert(pos - 1, link) =~= s.insert(pos, link));
    }
}

/// Whether `a` comes before `b` in the order of names.
fn name_before(a: &str, b: &str) -> (r: bool)
    ensures
        r == name_lt(a@, b@),
{
    let x: Vec<char> = chars_of(a);
    let y: Vec<char> = chars_of(b);
    let mut i: usize = 0;
    assert(x@.skip(0) =~= x@);
    assert(y@.skip(0) =~= y@);
    while i < x.len() && i < y.len()
        invariant
            i <= x@.len(),
            i <= y@.len(),
            x@ == a@,
            y@ == b@,
            name_lt(a@, b@) == name_lt(x@.skip(i as int), y@.skip(i as int)),
        decreases x@.len() - i,
    {
        proof {
            assert(x@.skip(i as int).drop_first() =~= x@.skip(i + 1));
            assert(y@.skip(i as int).drop_first() =~= y@.skip(i + 1));
        }
        if x[i] < y[i] {
            return true;
        }
        if x[i] != y[i] {
            return false;
        }
        i += 1;
    }
    i < y.len()
}

fn child_index(children: &Vec<Child>, name: &str) -> (r: Option<usize>)
    ensures
        r is Some <==> find(links(children@), name@) is Some,
        r matches Some(i) ==> {
            &&& i < children@.len()
            &&& find(links(children@), name@) == Some(children@[i as int].ino)
            &&& without_child(links(children@), name@) == links(children@).remove(i as int)
        },
        r is None ==> without_child(links(children@), name@) == links(children@),
{
    let mut i: usize = 0;
    while i < children.len()
        invariant
            i <= children@.len(),
            forall|j: int| 0 <= j < i ==> (#[trigger] links(children@)[j]).name != name@,
        decreases children@.len() - i,
    {
        if str_eq(&children[i].name, name) {
            proof {
                lemma_find(links(children@), name@, i as int);
            }
            return Some(i);
        }
        i += 1;
    }
    proof {
        lemma_find(links(children@), name@, i as int);
    }
    None
}

fn insert_child(children: &mut Vec<Child>, name: String, ino: Ino)
    ensures
        links(final(children)@) == with_child(links(old(children)@), name@, ino),
{
    let mut i: usize = 0;
    while i < children.len() && name_before(&children[i].name, &name)
        invariant
            i <= children@.len(),
            *children == *old(children),
            forall|j: int| 0 <= j < i ==> name_lt((#[trigger] links(children@)[j]).name, name@),
        decreases children@.len() - i,
    {
        i += 1;
    }
    let ghost before = links(children@);
    let ghost link = Link { name: name@, ino };
    proof {
        lemma_with_child(before, name@, ino, i as int);
    }
    children.insert(i, Child { name, ino });
    assert(links(children@) =~= before.insert(i as int, link));
}

fn remove_child(children: &mut Vec<Child>, name: &str)
    ensures
        links(final(children)@) == without_child(links(old(children)@), name@),
{
    match child_index(children, name) {
        Some(i) => {
            let ghost before = links(children@);
            children.remove(i);
            assert(links(children@) =~= before.remove(i as int));
        },
        None => {},
    }
}

/// A result with the failure as its view.
pub open spec fn outcome<T>(r: Result<T, HostError>) -> Result<T, Failure> {
    match r {
        Ok(v) => Ok(v),
        Err(e) => Err(e@),
    }
}

impl<C: Clock> MemFs<C> {
    /// The clock that the times come from.
    pub closed spec fn timer(&self) -> C {
        self.clock
    }

    /// The tree is sound: see [`Tree::wf`].
    pub open spec fn wf(&self) -> bool {
        self@.wf()
    }

    /// An empty filesystem whose times come from `clock`.
    pub fn with_clock(clock: C) -> (r: Self)
        ensures
            r.timer() == clock,
            r.wf(),
            exists|now: i64| #[trigger] clock.shows(now) && r@ == empty_tree(now),
    {
        let now: i64 = clock.now_ns();
        let mut inodes: BTreeMap<Ino, InodeEntry> = BTreeMap::new();
        let root = InodeEntry {
            node: Node::Dir { children: Vec::new(), mode: 0o755 },
            atime_ns: now,
            mtime_ns: now,
            ctime_ns: now,
        };
        inodes.insert(ROOT_INO, root);
        let r = MemFs { inodes, next_ino: ROOT_INO + 1, clock };
        proof {
            assert(links(Seq::<Child>::empty()) =~= Seq::<Link>::empty());
            assert(r@.inodes =~= empty_tree(now).inodes);
        }
        r
    }

    /// The clock, to move it.
    pub fn clock_mut(&mut self) -> (r: &mut C)
        ensures
            *r == old(self).timer(),
            final(self).timer() == *final(r),
            final(self)@ == old(self)@,
    {
        &mut self.clock
    }

    fn resolve(&self, path: &HostPath) -> (r: Result<Ino, HostError>)
        ensures
            outcome(r) == resolve_from(self@, ROOT_INO, path@),
    {
        let mut cur: Ino = ROOT_INO;
        let mut i: usize = 0;
        assert(path@.skip(0) =~= path@);
        while i < path.len()
            invariant
                i <= path@.len(),
                resolve_from(self@, ROOT_INO, path@) == resolve_from(
                    self@,
                    cur,
                    path@.skip(i as int),
                ),
            decreases path@.len() - i,
        {
            proof {
                assert(path@.skip(i as int).drop_first() =~= path@.skip(i + 1));
                assert(path@.skip(i as int)[0] == path@[i as int]);
            }
            match path.component(i) {
                Component::CurDir => {},
                Component::Normal(name) => {
                    match self.inodes.get(&cur) {
                        None => {
                            return Err(HostError::Io("dangling parent".to_owned()));
                        },
                        Some(entry) => {
                            match &entry.node {
                                Node::File { .. } => {
                                    return Err(HostError::NotADirectory);
                                },
                                Node::Dir { children, .. } => {
                                    match child_index(children, name) {
                                        None => {
                                            return Err(HostError::NotFound);
                                        },
                                        Some(k) => {
                                            cur = children[k].ino;
                                        },
                                    }
                                },
                            }
                        },
                    }
                },
                Component::ParentDir | Component::RootDir => {
                    return Err(HostError::PathEscape);
                },
            }
            i += 1;
        }
        Ok(cur)
    }

    /// Whether the way along `path` from the root meets the inode `x`.
    fn leads_through(&self, path: &HostPath, x: Ino) -> (r: bool)
        ensures
            r == passes(self@, ROOT_INO, path@, x),
    {
        let mut cur: Ino = ROOT_INO;
        let mut i: usize = 0;
        assert(path@.skip(0) =~= path@);
        while i < path.len()
            invariant
                i <= path@.len(),
                passes(self@, ROOT_INO, path@, x) == passes(self@, cur, path@.skip(i as int), x),
            decreases path@.len() - i,
        {
            proof {
                assert(path@.skip(i as int).drop_first() =~= path@.skip(i + 1));
                assert(path@.skip(i as int)[0] == path@[i as int]);
            }
            if cur == x {
                return true;
            }
            match path.component(i) {
                Component::CurDir => {},
                Component::Normal(name) => {
                    match self.inodes.get(&cur) {
                        None => {
                            return false;
                        },
                        Some(entry) => {
                            match &entry.node {
                                Node::File { .. } => {
                                    return false;
                                },
                                Node::Dir { children, .. } => {
                                    match child_index(children, name) {
                                        None => {
                                            return false;
                                        },
                                        Some(k) => {
                                            cur = children[k].ino;
                                        },
                                    }
                                },
                            }
                        },
                    }
                },
                Component::ParentDir | Component::RootDir => {
                    return false;
                },
            }
            i += 1;
        }
        cur == x
    }

    fn split_parent(&self, path: &HostPath) -> (r: Result<(Ino, String), HostError>)
        ensures
            match r {
                Ok((dir, name)) => tree::split_parent(self@, path@) == Ok::<_, Failure>(
                    (dir, name@),
                ),
                Err(e) => tree::split_parent(self@, path@) == Err::<(Ino, Seq<char>), _>(e@),
            },
    {
        check_relative(path)?;
        let name: String = match path.file_name() {
            Some(name) => name,
            None => {
                return Err(HostError::InvalidName);
            },
        };
        proof {
            reveal_strlit("");
            reveal_strlit(".");
            reveal_strlit("..");
            assert("."@ =~= seq!['.']);
            assert(".."@ =~= seq!['.', '.']);
            if name@.len() == 0 {
                assert(name@ =~= ""@);
            }
        }
        if str_eq(&name, "") || str_eq(&name, ".") || str_eq(&name, "..") {
            return Err(HostError::InvalidName);
        }
        let parent: HostPath = match path.parent() {
            Some(p) => p,
            None => HostPath::empty(),
        };
        let dir: Ino = self.resolve(&parent)?;
        Ok((dir, name))
    }

    /// The directory and the name of a path, once the directory is seen to be
    /// one.
    fn parent_dir(&self, path: &HostPath) -> (r: Result<(Ino, String), HostError>)
        ensures
            match r {
                Ok((dir, name)) => tree::parent_dir(self@, path@) == Ok::<_, Failure>(
                    (dir, name@),
                ),
                Err(e) => tree::parent_dir(self@, path@) == Err::<(Ino, Seq<char>), _>(e@),
            },
    {
        let (dir, name): (Ino, String) = self.split_parent(path)?;
        match self.inodes.get(&dir) {
            None => Err(HostError::NotFound),
            Some(entry) => match &entry.node {
                Node::File { .. } => Err(HostError::NotADirectory),
                Node::Dir { .. } => Ok((dir, name)),
            },
        }
    }

    /// The inode that `name` stands for in the directory `dir`.
    fn child_of(&self, dir: Ino, name: &str) -> (r: Option<Ino>)
        requires
            self@.has(dir),
            self@.inodes[dir].is_dir(),
        ensures
            r == find(self@.inodes[dir].children(), name@),
    {
        match self.inodes.get(&dir) {
            None => None,
            Some(entry) => match &entry.node {
                Node::File { .. } => None,
                Node::Dir { children, .. } => match child_index(children, name) {
                    Some(k) => Some(children[k].ino),
                    None => None,
                },
            },
        }
    }

    /// The directory, the name and the inode of an existing entry.
    fn entry_at(&self, path: &HostPath) -> (r: Result<(Ino, String, Ino), HostError>)
        ensures
            match r {
                Ok((dir, name, ino)) => tree::entry_at(self@, path@) == Ok::<_, Failure>(
                    (dir, name@, ino),
                ),
                Err(e) => tree::entry_at(self@, path@) == Err::<(Ino, Seq<char>, Ino), _>(e@),
            },
    {
        let (dir, name): (Ino, String) = self.parent_dir(path)?;
        match self.child_of(dir, &name) {
            None => Err(HostError::NotFound),
            Some(ino) => Ok((dir, name, ino)),
        }
    }

    fn attr(&self, ino: Ino) -> (r: Result<FileAttr, HostError>)
        ensures
            self@.has(ino) ==> r == Ok::<_, HostError>(attr_of(ino, self@.inodes[ino])),
            !self@.has(ino) ==> outcome(r) == Err::<FileAttr, _>(Failure::NotFound),
    {
        let entry: &InodeEntry = match self.inodes.get(&ino) {
            None => {
                return Err(HostError::NotFound);
            },
            Some(entry) => entry,
        };
        let (size, mode, blocks, nlink): (u64, u16, u64, u32) = match &entry.node {
            Node::File { content, mode } => {
                let n: usize = bytes_slice(content).len();
                let whole: usize = n / 512;
                let blocks: usize = if n % 512 == 0 {
                    whole
                } else {
                    whole + 1
                };
                (n as u64, *mode, blocks as u64, 1)
            },
            Node::Dir { children, mode } => (children.len() as u64, *mode, 1, 2),
        };
        Ok(
            FileAttr {
                ino,
                size,
                blocks,
                atime_ns: entry.atime_ns,
                mtime_ns: entry.mtime_ns,
                ctime_ns: entry.ctime_ns,
                kind: entry.kind(),
                mode,
                nlink,
                uid: 0,
                gid: 0,
            },
        )
    }

    /// The attributes of what `path` leads to.
    pub fn stat(&self, path: &HostPath) -> (r: Result<FileAttr, HostError>)
        ensures
            outcome(r) == tree::stat(self@, path@),
    {
        check_relative(path)?;
        let ino: Ino = self.resolve(path)?;
        self.attr(ino)
    }

    /// At most `size` bytes of a file from `offset` on.
    pub fn read(&self, path: &HostPath, offset: u64, size: u32) -> (r: Result<Bytes, HostError>)
        ensures
            match r {
                Ok(b) => tree::read(self@, path@, offset as int, size as int) == Ok::<_, Failure>(
                    bytes_contents(b),
                ),
                Err(e) => tree::read(self@, path@, offset as int, size as int) == Err::<
                    Seq<u8>,
                    _,
                >(e@),
            },
    {
        check_relative(path)?;
        let ino: Ino = self.resolve(path)?;
        let entry: &InodeEntry = match self.inodes.get(&ino) {
            None => {
                return Err(HostError::NotFound);
            },
            Some(entry) => entry,
        };
        match &entry.node {
            Node::Dir { .. } => Err(HostError::IsADirectory),
            Node::File { content, .. } => {
                let len: usize = bytes_slice(content).len();
                if offset >= len as u64 {
                    return Ok(bytes_from(Vec::new()));
                }
                let start: usize = offset as usize;
                let end: usize = if size as usize >= len - start {
                    len
                } else {
                    start + size as usize
                };
                Ok(bytes_range(content, start, end))
            },
        }
    }

    /// Put `e` at `ino`.
    fn put(&mut self, ino: Ino, e: InodeEntry)
        ensures
            final(self)@ == old(self)@.with(ino, e.look()),
            final(self).timer() == old(self).timer(),
    {
        self.inodes.insert(ino, e);
        assert(self@.inodes =~= old(self)@.with(ino, e.look()).inodes);
    }

    /// Take out what stands at `ino`.
    fn take(&mut self, ino: Ino) -> (r: Option<InodeEntry>)
        ensures
            r is Some <==> old(self)@.has(ino),
            r matches Some(e) ==> e.look() == old(self)@.inodes[ino],
            final(self)@ == old(self)@.without(ino),
            final(self).timer() == old(self).timer(),
    {
        let r = self.inodes.remove(&ino);
        assert(self@.inodes =~= old(self)@.without(ino).inodes);
        r
    }

    /// Give the directory `dir` a new child, touched now.
    fn attach(&mut self, dir: Ino, name: String, ino: Ino, now: i64)
        requires
            old(self)@.has(dir),
            old(self)@.inodes[dir].is_dir(),
        ensures
            final(self)@ == old(self)@.with(
                dir,
                old(self)@.inodes[dir].with_children(
                    with_child(old(self)@.inodes[dir].children(), name@, ino),
                    now,
                ),
            ),
            final(self).timer() == old(self).timer(),
    {
        if let Some(e) = self.take(dir) {
            if let Node::Dir { children, mode } = e.node {
                let mut children: Vec<Child> = children;
                insert_child(&mut children, name, ino);
                let changed = InodeEntry {
                    node: Node::Dir { children, mode },
                    atime_ns: e.atime_ns,
                    mtime_ns: now,
                    ctime_ns: now,
                };
                self.put(dir, changed);
            }
        }
        assert(self@.inodes =~= old(self)@.with(
            dir,
            old(self)@.inodes[dir].with_children(
                with_child(old(self)@.inodes[dir].children(), name@, ino),
                now,
            ),
        ).inodes);
    }

    /// Take a child from the directory `dir`, touched now.
    fn detach(&mut self, dir: Ino, name: &str, now: i64)
        requires
            old(self)@.has(dir),
            old(self)@.inodes[dir].is_dir(),
        ensures
            final(self)@ == old(self)@.with(
                dir,
                old(self)@.inodes[dir].with_children(
                    without_child(old(self)@.inodes[dir].children(), name@),
                    now,
                ),
            ),
            final(self).timer() == old(self).timer(),
    {
        if let Some(e) = self.take(dir) {
            if let Node::Dir { children, mode } = e.node {
                let mut children: Vec<Child> = children;
                remove_child(&mut children, name);
                let changed = InodeEntry {
                    node: Node::Dir { children, mode },
                    atime_ns: e.atime_ns,
                    mtime_ns: now,
                    ctime_ns: now,
                };
                self.put(dir, changed);
            }
        }
        assert(self@.inodes =~= old(self)@.with(
            dir,
            old(self)@.inodes[dir].with_children(
                without_child(old(self)@.inodes[dir].children(), name@),
                now,
            ),
        ).inodes);
    }

    /// The regular file that `path` leads to.
    fn file_at(&self, path: &HostPath) -> (r: Result<Ino, HostError>)
        ensures
            outcome(r) == tree::file_at(self@, path@),
    {
        check_relative(path)?;
        let ino: Ino = self.resolve(path)?;
        match self.inodes.get(&ino) {
            None => Err(HostError::NotFound),
            Some(entry) => match &entry.node {
                Node::Dir { .. } => Err(HostError::IsADirectory),
                Node::File { .. } => Ok(ino),
            },
        }
    }

    /// Write `data` into a file at `offset`, filling a gap with zeros. Gives
    /// the length of the file.
    pub fn write(&mut self, path: &HostPath, offset: u64, data: &[u8]) -> (r: Result<
        u64,
        HostError,
    >)
        requires
            old(self).wf(),
            offset + data@.len() <= usize::MAX,
        ensures
            final(self).wf(),
            final(self).timer() == old(self).timer(),
            exists|now: i64| #[trigger]
                old(self).timer().shows(now) && (final(self)@, outcome(r)) == tree::write(
                    old(self)@,
                    path@,
                    offset as int,
                    data@,
                    now,
                ),
    {
        let now: i64 = self.clock.now_ns();
        let ghost t = self@;
        proof {
            tree::law_content_ops_keep_wf(t, path@, offset as int, data@, 0, 0, now);
            assert(self.timer().shows(now));
        }
        let ino: Ino = self.file_at(path)?;
        let mut len: u64 = 0;
        if let Some(e) = self.take(ino) {
            if let Node::File { content, mode } = e.node {
                let grown: Vec<u8> = splice(bytes_slice(&content), offset as usize, data);
                len = grown.len() as u64;
                let changed = InodeEntry {
                    node: Node::File { content: bytes_from(grown), mode },
                    atime_ns: e.atime_ns,
                    mtime_ns: now,
                    ctime_ns: now,
                };
                self.put(ino, changed);
            }
        }
        assert(self@.inodes =~= tree::write(t, path@, offset as int, data@, now).0.inodes);
        Ok(len)
    }

    /// Cut a file, or fill it with zeros, to `size` bytes.
    pub fn truncate(&mut self, path: &HostPath, size: u64) -> (r: Result<(), HostError>)
        requires
            old(self).wf(),
            size <= usize::MAX,
        ensures
            final(self).wf(),
            final(self).timer() == old(self).timer(),
            exists|now: i64| #[trigger]
                old(self).timer().shows(now) && (final(self)@, outcome(r)) == tree::truncate(
                    old(self)@,
                    path@,
                    size as int,
                    now,
                ),
    {
        let now: i64 = self.clock.now_ns();
        let ghost t = self@;
        proof {
            tree::law_content_ops_keep_wf(t, path@, 0, Seq::empty(), size as int, 0, now);
            assert(self.timer().shows(now));
        }
        let ino: Ino = self.file_at(path)?;
        if let Some(e) = self.take(ino) {
            if let Node::File { content, mode } = e.node {
                let same: bool = bytes_slice(&content).len() == size as usize;
                let changed = if same {
                    InodeEntry {
                        node: Node::File { content, mode },
                        atime_ns: e.atime_ns,
                        mtime_ns: e.mtime_ns,
                        ctime_ns: e.ctime_ns,
                    }
                } else {
                    let cut: Vec<u8> = resize(bytes_slice(&content), size as usize);
                    InodeEntry {
                        node: Node::File { content: bytes_from(cut), mode },
                        atime_ns: e.atime_ns,
                        mtime_ns: now,
                        ctime_ns: now,
                    }
                };
                self.put(ino, changed);
            }
        }
        assert(self@.inodes =~= tree::truncate(t, path@, size as int, now).0.inodes);
        Ok(())
    }

    /// Set the permission bits.
    pub fn chmod(&mut self, path: &HostPath, new_mode: u16) -> (r: Result<(), HostError>)
        requires
            old(self).wf(),
        ensures
            final(self).wf(),
            final(self).timer() == old(self).timer(),
            exists|now: i64| #[trigger]
                old(self).timer().shows(now) && (final(self)@, outcome(r)) == tree::chmod(
                    old(self)@,
                    path@,
                    new_mode,
                    now,
                ),
    {
        let now: i64 = self.clock.now_ns();
        let ghost t = self@;
        proof {
            tree::law_content_ops_keep_wf(t, path@, 0, Seq::empty(), 0, new_mode, now);
            assert(self.timer().shows(now));
        }
        check_relative(path)?;
        let ino: Ino = self.resolve(path)?;
        let r = match self.take(ino) {
            None => Err(HostError::NotFound),
            Some(e) => {
                let mode: u16 = new_mode & 0o7777;
                let node = match e.node {
                    Node::File { content, .. } => Node::File { content, mode },
                    Node::Dir { children, .. } => Node::Dir { children, mode },
                };
                let changed = InodeEntry {
                    node,
                    atime_ns: e.atime_ns,
                    mtime_ns: e.mtime_ns,
                    ctime_ns: now,
                };
                self.put(ino, changed);
                Ok(())
            },
        };
        assert(self@.inodes =~= tree::chmod(t, path@, new_mode, now).0.inodes);
        r
    }

    /// Put a new inode under a free name.
    fn make(&mut self, path: &HostPath, node: Node, now: i64) -> (r: Result<FileAttr, HostError>)
        requires
            old(self).wf(),
            old(self)@.next < Ino::MAX,
            node matches Node::Dir { children, .. } ==> children@.len() == 0,
        ensures
            final(self).wf(),
            final(self).timer() == old(self).timer(),
            (final(self)@, outcome(r)) == tree::make(
                old(self)@,
                path@,
                InodeEntry { node, atime_ns: now, mtime_ns: now, ctime_ns: now }.look().node,
                now,
            ),
    {
        let ghost t = self@;
        let e = InodeEntry { node, atime_ns: now, mtime_ns: now, ctime_ns: now };
        let ghost shape = e.look().node;
        proof {
            tree::law_make_keeps_wf(t, path@, shape, now);
        }
        let (dir, name): (Ino, String) = self.parent_dir(path)?;
        if self.child_of(dir, &name).is_some() {
            return Err(HostError::AlreadyExists);
        }
        let ino: Ino = self.next_ino;
        proof {
            assert(t.has(dir));
            assert(dir < t.next);
        }
        self.next_ino = self.next_ino + 1;
        self.put(ino, e);
        self.attach(dir, name, ino, now);
        proof {
            assert(self@.inodes =~= tree::make(t, path@, shape, now).0.inodes);
        }
        self.attr(ino)
    }

    /// Make an empty file under a name that is free.
    pub fn create(&mut self, path: &HostPath, mode: u16) -> (r: Result<FileAttr, HostError>)
        requires
            old(self).wf(),
            old(self)@.next < Ino::MAX,
        ensures
            final(self).wf(),
            final(self).timer() == old(self).timer(),
            exists|now: i64| #[trigger]
                old(self).timer().shows(now) && (final(self)@, outcome(r)) == tree::create(
                    old(self)@,
                    path@,
                    mode,
                    now,
                ),
    {
        let now: i64 = self.clock.now_ns();
        assert(self.timer().shows(now));
        self.make(path, Node::File { content: bytes_from(Vec::new()), mode }, now)
    }

    /// Make an empty directory under a name that is free.
    pub fn mkdir(&mut self, path: &HostPath, mode: u16) -> (r: Result<FileAttr, HostError>)
        requires
            old(self).wf(),
            old(self)@.next < Ino::MAX,
        ensures
            final(self).wf(),
            final(self).timer() == old(self).timer(),
            exists|now: i64| #[trigger]
                old(self).timer().shows(now) && (final(self)@, outcome(r)) == tree::mkdir(
                    old(self)@,
                    path@,
                    mode,
                    now,
                ),
    {
        let now: i64 = self.clock.now_ns();
        assert(self.timer().shows(now));
        assert(links(Seq::<Child>::empty()) =~= Seq::<Link>::empty());
        self.make(path, Node::Dir { children: Vec::new(), mode }, now)
    }

    /// Remove a file.
    pub fn unlink(&mut self, path: &HostPath) -> (r: Result<(), HostError>)
        requires
            old(self).wf(),
        ensures
            final(self).wf(),
            final(self).timer() == old(self).timer(),
            exists|now: i64| #[trigger]
                old(self).timer().shows(now) && (final(self)@, outcome(r)) == tree::unlink(
                    old(self)@,
                    path@,
                    now,
                ),
    {
        let now: i64 = self.clock.now_ns();
        let ghost t = self@;
        proof {
            tree::law_remove_keeps_wf(t, path@, now);
            assert(self.timer().shows(now));
        }
        let (dir, name, ino): (Ino, String, Ino) = self.entry_at(path)?;
        match self.inodes.get(&ino) {
            None => {
                return Err(HostError::NotFound);
            },
            Some(target) => {
                if let Node::Dir { .. } = &target.node {
                    return Err(HostError::IsADirectory);
                }
            },
        }
        self.take(ino);
        self.detach(dir, &name, now);
        assert(self@.inodes =~= tree::unlink(t, path@, now).0.inodes);
        Ok(())
    }

    /// Remove an empty directory.
    pub fn rmdir(&mut self, path: &HostPath) -> (r: Result<(), HostError>)
        requires
            old(self).wf(),
        ensures
            final(self).wf(),
            final(self).timer() == old(self).timer(),
            exists|now: i64| #[trigger]
                old(self).timer().shows(now) && (final(self)@, outcome(r)) == tree::rmdir(
                    old(self)@,
                    path@,
                    now,
                ),
    {
        let now: i64 = self.clock.now_ns();
        let ghost t = self@;
        proof {
            tree::law_remove_keeps_wf(t, path@, now);
            assert(self.timer().shows(now));
        }
        let (dir, name, ino): (Ino, String, Ino) = self.entry_at(path)?;
        match self.inodes.get(&ino) {
            None => {
                return Err(HostError::NotFound);
            },
            Some(target) => {
                match &target.node {
                    Node::File { .. } => {
                        return Err(HostError::NotADirectory);
                    },
                    Node::Dir { children, .. } => {
                        if children.len() > 0 {
                            return Err(HostError::NotEmpty);
                        }
                    },
                }
            },
        }
        self.take(ino);
        self.detach(dir, &name, now);
        assert(self@.inodes =~= tree::rmdir(t, path@, now).0.inodes);
        Ok(())
    }

    /// Move an entry. What it replaces goes, where it may be replaced: a file
    /// by a file, an empty directory by a directory. A rename onto itself
    /// changes nothing; a directory does not move into itself.
    pub fn rename(&mut self, from: &HostPath, to: &HostPath) -> (r: Result<(), HostError>)
        requires
            old(self).wf(),
        ensures
            final(self).wf(),
            final(self).timer() == old(self).timer(),
            exists|now: i64| #[trigger]
                old(self).timer().shows(now) && (final(self)@, outcome(r)) == tree::rename(
                    old(self)@,
                    from@,
                    to@,
                    now,
                ),
    {
        let now: i64 = self.clock.now_ns();
        let ghost t = self@;
        proof {
            tree::law_rename_keeps_wf(t, from@, to@, now);
            assert(self.timer().shows(now));
        }
        check_relative(from)?;
        check_relative(to)?;
        self.split_parent(from)?;
        self.split_parent(to)?;
        let (from_dir, from_name, ino): (Ino, String, Ino) = self.entry_at(from)?;
        let (to_dir, to_name): (Ino, String) = self.parent_dir(to)?;
        let to_parent: HostPath = match to.parent() {
            Some(p) => p,
            None => HostPath::empty(),
        };
        proof {
            tree::lemma_found(t, from_dir, from_name@);
        }
        match self.child_of(to_dir, &to_name) {
            None => {
                if self.leads_through(&to_parent, ino) {
                    return Err(HostError::InvalidName);
                }
            },
            Some(displaced) => {
                if displaced == ino {
                    return Ok(());
                }
                proof {
                    tree::lemma_found(t, to_dir, to_name@);
                }
                self.may_replace(ino, displaced)?;
                if self.leads_through(&to_parent, ino) {
                    return Err(HostError::InvalidName);
                }
                self.take(displaced);
            },
        }
        let ghost base = self@;
        self.detach(from_dir, &from_name, now);
        let ghost t1 = self@;
        self.detach(to_dir, &to_name, now);
        self.attach(to_dir, to_name, ino, now);
        proof {
            let c = with_child(without_child(t1.inodes[to_dir].children(), to_name@), to_name@, ino);
            assert(self@.inodes =~= t1.with(to_dir, t1.inodes[to_dir].with_children(c, now)).inodes);
        }
        if let Some(e) = self.take(ino) {
            let changed = InodeEntry {
                node: e.node,
                atime_ns: e.atime_ns,
                mtime_ns: e.mtime_ns,
                ctime_ns: now,
            };
            self.put(ino, changed);
        }
        assert(self@.inodes =~= tree::moved(
            base,
            from_dir,
            from_name@,
            to_dir,
            to_name@,
            ino,
            now,
        ).inodes);
        Ok(())
    }

    /// Whether `src` may take the place of `dst`.
    fn may_replace(&self, src: Ino, dst: Ino) -> (r: Result<(), HostError>)
        requires
            self@.has(src),
            self@.has(dst),
        ensures
            r is Ok <==> tree::replace_failure(self@.inodes[src], self@.inodes[dst]) is None,
            r matches Err(e) ==> tree::replace_failure(self@.inodes[src], self@.inodes[dst]) == Some(
                e@,
            ),
    {
        match (self.inodes.get(&src), self.inodes.get(&dst)) {
            (Some(s), Some(d)) => match (&s.node, &d.node) {
                (Node::File { .. }, Node::File { .. }) => Ok(()),
                (Node::Dir { .. }, Node::Dir { children, .. }) => if children.len() > 0 {
                    Err(HostError::NotEmpty)
                } else {
                    Ok(())
                },
                _ => Err(HostError::AlreadyExists),
            },
            _ => Err(HostError::AlreadyExists),
        }
    }

    /// Check that the path leads somewhere; memory needs no flushing.
    pub fn fsync(&self, path: &HostPath) -> (r: Result<(), HostError>)
        ensures
            outcome(r) == tree::fsync(self@, path@),
    {
        check_relative(path)?;
        self.resolve(path)?;
        Ok(())
    }

    /// The children of a directory in the order of names.
    pub fn list_dir(&self, path: &HostPath) -> (r: Result<Vec<DirChild>, HostError>)
        ensures
            match r {
                Ok(v) => tree::list_dir(self@, path@) == Ok::<_, Failure>(child_views(v@)),
                Err(e) => tree::list_dir(self@, path@) == Err::<Seq<crate::host::ChildView>, _>(e@),
            },
    {
        check_relative(path)?;
        let ino: Ino = self.resolve(path)?;
        let entry: &InodeEntry = match self.inodes.get(&ino) {
            None => {
                return Err(HostError::NotFound);
            },
            Some(entry) => entry,
        };
        match &entry.node {
            Node::File { .. } => Err(HostError::NotADirectory),
            Node::Dir { children, .. } => {
                let ghost goal = listing(self@, links(children@));
                let mut out: Vec<DirChild> = Vec::new();
                let mut i: usize = 0;
                while i < children.len()
                    invariant
                        i <= children@.len(),
                        goal == listing(self@, links(children@)),
                        child_views(out@) == goal.take(i as int),
                    decreases children@.len() - i,
                {
                    let kind: FileKind = match self.inodes.get(&children[i].ino) {
                        Some(e) => e.kind(),
                        None => FileKind::Regular,
                    };
                    let ghost before = out@;
                    out.push(DirChild { name: children[i].name.clone(), kind });
                    proof {
                        assert(child_views(out@) =~= child_views(before).push(goal[i as int]));
                        assert(goal.take(i + 1) =~= goal.take(i as int).push(goal[i as int]));
                    }
                    i += 1;
                }
                assert(goal.take(goal.len() as int) =~= goal);
                Ok(out)
            },
        }
    }
}

/// One line of a snapshot: a path, its kind, and the content of a file.
#[derive(Debug, PartialEq, Eq)]
pub struct SnapEntry {
    pub path: HostPath,
    pub kind: FileKind,
    pub content: Option<Bytes>,
}

impl View for SnapEntry {
    type V = SnapView;

    open spec fn view(&self) -> SnapView {
        SnapView {
            path: self.path@,
            kind: self.kind,
            content: match self.content {
                Some(b) => Some(bytes_contents(b)),
                None => None,
            },
        }
    }
}

/// The views of the lines of a snapshot.
pub open spec fn snap_views(v: Seq<SnapEntry>) -> Seq<SnapView> {
    Seq::new(v.len(), |i: int| v[i]@)
}

impl<C: Clock> MemFs<C> {
    fn snapshot_walk(&self, ino: Ino, path: HostPath, depth: usize, out: &mut Vec<SnapEntry>)
        ensures
            snap_views(final(out)@) == snap_views(old(out)@) + tree::walk(
                self@,
                ino,
                path@,
                depth as nat,
            ),
        decreases depth,
    {
        let ghost start = snap_views(out@);
        let entry: &InodeEntry = match self.inodes.get(&ino) {
            None => {
                assert(start + Seq::<SnapView>::empty() =~= start);
                return ;
            },
            Some(entry) => entry,
        };
        match &entry.node {
            Node::File { content, .. } => {
                let line = SnapEntry {
                    path,
                    kind: FileKind::Regular,
                    content: Some(bytes_clone(content)),
                };
                let ghost shown = line@;
                out.push(line);
                assert(snap_views(out@) =~= start + seq![shown]);
            },
            Node::Dir { children, .. } => {
                let ghost kids = links(children@);
                let ghost head = if path@.len() == 0 {
                    Seq::<SnapView>::empty()
                } else {
                    seq![SnapView { path: path@, kind: FileKind::Directory, content: None }]
                };
                if !path.is_empty() {
                    out.push(
                        SnapEntry {
                            path: path.clone(),
                            kind: FileKind::Directory,
                            content: None,
                        },
                    );
                }
                assert(snap_views(out@) =~= start + head);
                if depth == 0 {
                    assert(tree::walk_children(self@, kids, path@, 0) =~= Seq::<SnapView>::empty());
                    assert(head + Seq::<SnapView>::empty() =~= head);
                    return ;
                }
                let mut i: usize = 0;
                proof {
                    assert(kids.take(0) =~= Seq::empty());
                    assert(start + head + tree::walk_children(
                        self@,
                        kids.take(0),
                        path@,
                        depth as nat,
                    ) =~= start + head);
                }
                while i < children.len()
                    invariant
                        i <= children@.len(),
                        depth > 0,
                        kids == links(children@),
                        snap_views(out@) == start + head + tree::walk_children(
                            self@,
                            kids.take(i as int),
                            path@,
                            depth as nat,
                        ),
                    decreases children@.len() - i,
                {
                    let ghost before = snap_views(out@);
                    let below: HostPath = path.child(&children[i].name);
                    self.snapshot_walk(children[i].ino, below, depth - 1, out);
                    proof {
                        assert(kids.take(i + 1).drop_last() =~= kids.take(i as int));
                        assert(kids.take(i + 1).last() == kids[i as int]);
                        let done = tree::walk_children(
                            self@,
                            kids.take(i as int),
                            path@,
                            depth as nat,
                        );
                        let more = tree::walk(
                            self@,
                            children@[i as int].ino,
                            below@,
                            (depth - 1) as nat,
                        );
                        assert(start + head + done + more =~= start + head + (done + more));
                    }
                    i += 1;
                }
                proof {
                    assert(kids.take(kids.len() as int) =~= kids);
                    let all = tree::walk_children(self@, kids, path@, depth as nat);
                    assert(start + head + all =~= start + (head + all));
                }
            },
        }
    }

    /// The whole tree: every file with its content and every directory but the
    /// root, in the order of paths.
    pub fn snapshot(&self) -> (r: Vec<SnapEntry>)
        requires
            self.wf(),
        ensures
            snap_views(r@) == tree::snapshot(self@),
            tree::sorted(snap_views(r@)),
    {
        let mut out: Vec<SnapEntry> = Vec::new();
        proof {
            assert(self@.inodes.dom() =~= self.inodes@.dom());
            tree::law_snapshot_sorted(self@);
        }
        self.snapshot_walk(ROOT_INO, HostPath::empty(), self.inodes.len(), &mut out);
        assert(snap_views(Seq::<SnapEntry>::empty()) + tree::snapshot(self@) =~= tree::snapshot(self@));
        out
    }
}

impl MemFs<SystemClock> {
    /// An empty filesystem on the wall clock.
    pub fn new() -> (r: Self)
        ensures
            r.wf(),
            exists|now: i64| r@ == #[trigger] empty_tree(now),
    {
        MemFs::with_clock(SystemClock)
    }
}

} // verus!
