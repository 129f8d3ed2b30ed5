//! Mathematical model of a filesystem tree, and what each operation does to it.

use vstd::prelude::*;

use crate::host::{path_failure, ChildView, Failure};
use crate::path::{final_name, parent_path, under, Comp};
use crate::payload::{resized, spliced, window};
use crate::protocol::{FileAttr, FileKind, Ino, ROOT_INO};

verus! {

/// A named entry of a directory.
pub struct Link {
    pub name: Seq<char>,
    pub ino: Ino,
}

pub enum NodeView {
    File { content: Seq<u8>, mode: u16 },
    Dir { children: Seq<Link>, mode: u16 },
}

pub struct InodeView {
    pub node: NodeView,
    pub atime_ns: i64,
    pub mtime_ns: i64,
    pub ctime_ns: i64,
}

/// A tree: the inodes by number, and the number that the next one gets.
pub struct Tree {
    pub inodes: Map<Ino, InodeView>,
    pub next: int,
}

/// The order of names: character by character.
pub open spec fn name_lt(a: Seq<char>, b: Seq<char>) -> bool
    decreases a.len(),
{
    if b.len() == 0 {
        false
    } else if a.len() == 0 {
        true
    } else {
        a[0] < b[0] || (a[0] == b[0] && name_lt(a.drop_first(), b.drop_first()))
    }
}

/// The inode that `name` stands for in a directory.
pub open spec fn find(children: Seq<Link>, name: Seq<char>) -> Option<Ino>
    decreases children.len(),
{
    if children.len() == 0 {
        None
    } else if children[0].name == name {
        Some(children[0].ino)
    } else {
        find(children.drop_first(), name)
    }
}

/// The children with `name` added in its place in the order of names.
pub open spec fn with_child(children: Seq<Link>, name: Seq<char>, ino: Ino) -> Seq<Link>
    decreases children.len(),
{
    if children.len() == 0 || !name_lt(children[0].name, name) {
        seq![Link { name, ino }] + children
    } else {
        seq![children[0]] + with_child(children.drop_first(), name, ino)
    }
}

/// The children without `name`.
pub open spec fn without_child(children: Seq<Link>, name: Seq<char>) -> Seq<Link>
    decreases children.len(),
{
    if children.len() == 0 {
        children
    } else if children[0].name == name {
        children.drop_first()
    } else {
        seq![children[0]] + without_child(children.drop_first(), name)
    }
}

/// Whether names stand in strictly ascending order.
pub open spec fn ordered(children: Seq<Link>) -> bool {
    forall|i: int, j: int|
        #![trigger children[i], children[j]]
        0 <= i < j < children.len() ==> name_lt(children[i].name, children[j].name)
}

impl InodeView {
    pub open spec fn is_dir(self) -> bool {
        self.node is Dir
    }

    pub open spec fn kind(self) -> FileKind {
        if self.is_dir() {
            FileKind::Directory
        } else {
            FileKind::Regular
        }
    }

    pub open spec fn children(self) -> Seq<Link> {
        self.node->children
    }

    pub open spec fn content(self) -> Seq<u8> {
        self.node->content
    }

    pub open spec fn mode(self) -> u16 {
        match self.node {
            NodeView::File { mode, .. } => mode,
            NodeView::Dir { mode, .. } => mode,
        }
    }

    /// A changed directory: other children, touched now.
    pub open spec fn with_children(self, children: Seq<Link>, now: i64) -> InodeView {
        InodeView {
            node: NodeView::Dir { children, mode: self.mode() },
            mtime_ns: now,
            ctime_ns: now,
            ..self
        }
    }

    /// A changed file: other content, touched now.
    pub open spec fn with_content(self, content: Seq<u8>, now: i64) -> InodeView {
        InodeView {
            node: NodeView::File { content, mode: self.mode() },
            mtime_ns: now,
            ctime_ns: now,
            ..self
        }
    }

    /// Other permission bits, changed now.
    pub open spec fn with_mode(self, mode: u16, now: i64) -> InodeView {
        InodeView {
            node: match self.node {
                NodeView::File { content, .. } => NodeView::File { content, mode },
                NodeView::Dir { children, .. } => NodeView::Dir { children, mode },
            },
            ctime_ns: now,
            ..self
        }
    }
}

/// An inode that is made now.
pub open spec fn fresh_inode(node: NodeView, now: i64) -> InodeView {
    InodeView { node, atime_ns: now, mtime_ns: now, ctime_ns: now }
}

/// The tree with an empty root directory alone.
pub open spec fn empty_tree(now: i64) -> Tree {
    Tree {
        inodes: map![
            ROOT_INO => fresh_inode(NodeView::Dir { children: Seq::empty(), mode: 0o755 }, now)
        ],
        next: ROOT_INO + 1,
    }
}

impl Tree {
    pub open spec fn has(self, ino: Ino) -> bool {
        self.inodes.dom().contains(ino)
    }

    /// The tree with `e` at `ino`.
    pub open spec fn with(self, ino: Ino, e: InodeView) -> Tree {
        Tree { inodes: self.inodes.insert(ino, e), next: self.next }
    }

    /// The tree without `ino`.
    pub open spec fn without(self, ino: Ino) -> Tree {
        Tree { inodes: self.inodes.remove(ino), next: self.next }
    }

    /// Whether directory `d` has an entry number `i`.
    pub open spec fn is_link(self, d: Ino, i: int) -> bool {
        self.has(d) && self.inodes[d].is_dir() && 0 <= i < self.inodes[d].children().len()
    }

    /// The inode that entry `i` of directory `d` leads to.
    pub open spec fn target(self, d: Ino, i: int) -> Ino {
        self.inodes[d].children()[i].ino
    }

    /// Whether no directory entry leads to `x`.
    pub open spec fn no_link_to(self, x: Ino) -> bool {
        forall|d: Ino, i: int| #[trigger] self.is_link(d, i) ==> self.target(d, i) != x
    }

    /// Whether the children of every directory stand in the order of names.
    pub open spec fn in_order(self) -> bool {
        forall|d: Ino| #[trigger]
            self.has(d) && self.inodes[d].is_dir() ==> ordered(self.inodes[d].children())
    }

    /// The root is there. Every directory entry leads to an inode other than
    /// the root, and no two lead to the same one. Every number in use was
    /// handed out.
    pub open spec fn wf(self) -> bool {
        &&& self.has(ROOT_INO)
        &&& self.inodes[ROOT_INO].is_dir()
        &&& forall|d: Ino, i: int| #[trigger]
            self.is_link(d, i) ==> self.has(self.target(d, i)) && self.target(d, i) != ROOT_INO
        &&& forall|d: Ino, i: int, e: Ino, j: int|
            #![trigger self.is_link(d, i), self.is_link(e, j)]
            self.is_link(d, i) && self.is_link(e, j) && self.target(d, i) == self.target(e, j)
                ==> d == e && i == j
        &&& forall|k: Ino| #[trigger] self.has(k) ==> k < self.next
        &&& self.in_order()
    }
}

/// The inode that `p` leads to from `cur`.
pub open spec fn resolve_from(t: Tree, cur: Ino, p: Seq<Comp>) -> Result<Ino, Failure>
    decreases p.len(),
{
    if p.len() == 0 {
        Ok(cur)
    } else {
        match p[0] {
            Comp::CurDir => resolve_from(t, cur, p.drop_first()),
            Comp::Normal(name) => {
                if !t.has(cur) {
                    Err(Failure::Io("dangling parent"@))
                } else if !t.inodes[cur].is_dir() {
                    Err(Failure::NotADirectory)
                } else {
                    match find(t.inodes[cur].children(), name) {
                        None => Err(Failure::NotFound),
                        Some(child) => resolve_from(t, child, p.drop_first()),
                    }
                }
            },
            _ => Err(Failure::PathEscape),
        }
    }
}

/// The inode that a path leads to from the root.
pub open spec fn resolve(t: Tree, p: Seq<Comp>) -> Result<Ino, Failure> {
    match path_failure(p) {
        Some(e) => Err(e),
        None => resolve_from(t, ROOT_INO, p),
    }
}

/// Whether the way of `p` from `cur` meets the inode `x`, its end included.
pub open spec fn passes(t: Tree, cur: Ino, p: Seq<Comp>, x: Ino) -> bool
    decreases p.len(),
{
    cur == x || (p.len() > 0 && match p[0] {
        Comp::CurDir => passes(t, cur, p.drop_first(), x),
        Comp::Normal(name) => t.has(cur) && t.inodes[cur].is_dir() && (match find(
            t.inodes[cur].children(),
            name,
        ) {
            None => false,
            Some(child) => passes(t, child, p.drop_first(), x),
        }),
        _ => false,
    })
}

/// The path of the directory that holds the last component of `p`.
pub open spec fn dir_path(p: Seq<Comp>) -> Seq<Comp> {
    match parent_path(p) {
        Some(d) => d,
        None => Seq::empty(),
    }
}

/// The directory and the name that a path stands for.
pub open spec fn split_parent(t: Tree, p: Seq<Comp>) -> Result<(Ino, Seq<char>), Failure> {
    match path_failure(p) {
        Some(e) => Err(e),
        None => match final_name(p) {
            None => Err(Failure::InvalidName),
            Some(name) => if name.len() == 0 || name == seq!['.'] || name == seq!['.', '.'] {
                Err(Failure::InvalidName)
            } else {
                match resolve_from(t, ROOT_INO, dir_path(p)) {
                    Err(e) => Err(e),
                    Ok(dir) => Ok((dir, name)),
                }
            },
        },
    }
}

/// The directory that a path's name stands in, once it is seen to be one.
pub open spec fn parent_dir(t: Tree, p: Seq<Comp>) -> Result<(Ino, Seq<char>), Failure> {
    match split_parent(t, p) {
        Err(e) => Err(e),
        Ok((dir, name)) => if !t.has(dir) {
            Err(Failure::NotFound)
        } else if !t.inodes[dir].is_dir() {
            Err(Failure::NotADirectory)
        } else {
            Ok((dir, name))
        },
    }
}

/// The directory, the name and the inode of an existing entry.
pub open spec fn entry_at(t: Tree, p: Seq<Comp>) -> Result<(Ino, Seq<char>, Ino), Failure> {
    match parent_dir(t, p) {
        Err(e) => Err(e),
        Ok((dir, name)) => match find(t.inodes[dir].children(), name) {
            None => Err(Failure::NotFound),
            Some(ino) => Ok((dir, name, ino)),
        },
    }
}

/// The number of 512-byte blocks that `n` bytes fill.
pub open spec fn blocks_of(n: nat) -> nat {
    (n + 511) / 512
}

/// The attributes of an inode.
pub open spec fn attr_of(ino: Ino, e: InodeView) -> FileAttr {
    FileAttr {
        ino,
        size: if e.is_dir() {
            e.children().len() as u64
        } else {
            e.content().len() as u64
        },
        blocks: if e.is_dir() {
            1
        } else {
            blocks_of(e.content().len()) as u64
        },
        atime_ns: e.atime_ns,
        mtime_ns: e.mtime_ns,
        ctime_ns: e.ctime_ns,
        kind: e.kind(),
        mode: e.mode(),
        nlink: if e.is_dir() {
            2
        } else {
            1
        },
        uid: 0,
        gid: 0,
    }
}

/// `stat`: the attributes of what the path leads to.
pub open spec fn stat(t: Tree, p: Seq<Comp>) -> Result<FileAttr, Failure> {
    match resolve(t, p) {
        Err(e) => Err(e),
        Ok(ino) => if t.has(ino) {
            Ok(attr_of(ino, t.inodes[ino]))
        } else {
            Err(Failure::NotFound)
        },
    }
}

/// The regular file that a path leads to.
pub open spec fn file_at(t: Tree, p: Seq<Comp>) -> Result<Ino, Failure> {
    match resolve(t, p) {
        Err(e) => Err(e),
        Ok(ino) => if !t.has(ino) {
            Err(Failure::NotFound)
        } else if t.inodes[ino].is_dir() {
            Err(Failure::IsADirectory)
        } else {
            Ok(ino)
        },
    }
}

/// `read`: at most `size` bytes from `offset` on.
pub open spec fn read(t: Tree, p: Seq<Comp>, offset: int, size: int) -> Result<Seq<u8>, Failure> {
    match file_at(t, p) {
        Err(e) => Err(e),
        Ok(ino) => Ok(window(t.inodes[ino].content(), offset, size)),
    }
}

/// `write`: the tree after it, and the length of the file.
pub open spec fn write(t: Tree, p: Seq<Comp>, offset: int, data: Seq<u8>, now: i64) -> (
    Tree,
    Result<u64, Failure>,
) {
    match file_at(t, p) {
        Err(e) => (t, Err(e)),
        Ok(ino) => {
            let content = spliced(t.inodes[ino].content(), offset, data);
            (t.with(ino, t.inodes[ino].with_content(content, now)), Ok(content.len() as u64))
        },
    }
}

/// `truncate`: the file cut, or filled with zeros, to `size` bytes. A file
/// that has this size already is not touched.
pub open spec fn truncate(t: Tree, p: Seq<Comp>, size: int, now: i64) -> (
    Tree,
    Result<(), Failure>,
) {
    match file_at(t, p) {
        Err(e) => (t, Err(e)),
        Ok(ino) => if t.inodes[ino].content().len() == size {
            (t, Ok(()))
        } else {
            let content = resized(t.inodes[ino].content(), size);
            (t.with(ino, t.inodes[ino].with_content(content, now)), Ok(()))
        },
    }
}

/// `chmod`: the permission bits set.
pub open spec fn chmod(t: Tree, p: Seq<Comp>, mode: u16, now: i64) -> (Tree, Result<(), Failure>) {
    match resolve(t, p) {
        Err(e) => (t, Err(e)),
        Ok(ino) => if t.has(ino) {
            (t.with(ino, t.inodes[ino].with_mode(mode & 0o7777, now)), Ok(()))
        } else {
            (t, Err(Failure::NotFound))
        },
    }
}

/// `create` and `mkdir`: a new inode under a name that is free.
pub open spec fn make(t: Tree, p: Seq<Comp>, node: NodeView, now: i64) -> (
    Tree,
    Result<FileAttr, Failure>,
) {
    match parent_dir(t, p) {
        Err(e) => (t, Err(e)),
        Ok((dir, name)) => if find(t.inodes[dir].children(), name) is Some {
            (t, Err(Failure::AlreadyExists))
        } else {
            let ino = t.next as Ino;
            let e = fresh_inode(node, now);
            let children = with_child(t.inodes[dir].children(), name, ino);
            let grown = Tree {
                inodes: t.inodes.insert(ino, e).insert(
                    dir,
                    t.inodes[dir].with_children(children, now),
                ),
                next: t.next + 1,
            };
            (grown, Ok(attr_of(ino, e)))
        },
    }
}

pub open spec fn create(t: Tree, p: Seq<Comp>, mode: u16, now: i64) -> (
    Tree,
    Result<FileAttr, Failure>,
) {
    make(t, p, NodeView::File { content: Seq::empty(), mode }, now)
}

pub open spec fn mkdir(t: Tree, p: Seq<Comp>, mode: u16, now: i64) -> (
    Tree,
    Result<FileAttr, Failure>,
) {
    make(t, p, NodeView::Dir { children: Seq::empty(), mode }, now)
}

/// The tree without the entry `name` of `dir` and without its inode.
pub open spec fn unlinked(t: Tree, dir: Ino, name: Seq<char>, ino: Ino, now: i64) -> Tree {
    t.without(ino).with(
        dir,
        t.inodes[dir].with_children(without_child(t.inodes[dir].children(), name), now),
    )
}

/// `unlink`: a file goes.
pub open spec fn unlink(t: Tree, p: Seq<Comp>, now: i64) -> (Tree, Result<(), Failure>) {
    match entry_at(t, p) {
        Err(e) => (t, Err(e)),
        Ok((dir, name, ino)) => if !t.has(ino) {
            (t, Err(Failure::NotFound))
        } else if t.inodes[ino].is_dir() {
            (t, Err(Failure::IsADirectory))
        } else {
            (unlinked(t, dir, name, ino, now), Ok(()))
        },
    }
}

/// `rmdir`: an empty directory goes.
pub open spec fn rmdir(t: Tree, p: Seq<Comp>, now: i64) -> (Tree, Result<(), Failure>) {
    match entry_at(t, p) {
        Err(e) => (t, Err(e)),
        Ok((dir, name, ino)) => if !t.has(ino) {
            (t, Err(Failure::NotFound))
        } else if !t.inodes[ino].is_dir() {
            (t, Err(Failure::NotADirectory))
        } else if t.inodes[ino].children().len() > 0 {
            (t, Err(Failure::NotEmpty))
        } else {
            (unlinked(t, dir, name, ino, now), Ok(()))
        },
    }
}

/// Why `src` may not take the place of `dst`: only a file replaces a file, and
/// only a directory an empty directory.
pub open spec fn replace_failure(src: InodeView, dst: InodeView) -> Option<Failure> {
    if src.is_dir() != dst.is_dir() {
        Some(Failure::AlreadyExists)
    } else if dst.is_dir() && dst.children().len() > 0 {
        Some(Failure::NotEmpty)
    } else {
        None
    }
}

/// The tree with `ino` taken from one directory and put into another.
pub open spec fn moved(
    t: Tree,
    from_dir: Ino,
    from_name: Seq<char>,
    to_dir: Ino,
    to_name: Seq<char>,
    ino: Ino,
    now: i64,
) -> Tree {
    let t1 = t.with(
        from_dir,
        t.inodes[from_dir].with_children(
            without_child(t.inodes[from_dir].children(), from_name),
            now,
        ),
    );
    let t2 = t1.with(
        to_dir,
        t1.inodes[to_dir].with_children(
            with_child(without_child(t1.inodes[to_dir].children(), to_name), to_name, ino),
            now,
        ),
    );
    t2.with(ino, InodeView { ctime_ns: now, ..t2.inodes[ino] })
}

/// `rename`: the entry moves; what it replaces goes. A rename onto itself
/// changes nothing, and a directory does not move into itself.
pub open spec fn rename(t: Tree, from: Seq<Comp>, to: Seq<Comp>, now: i64) -> (
    Tree,
    Result<(), Failure>,
) {
    match path_failure(from) {
        Some(e) => (t, Err(e)),
        None => match path_failure(to) {
            Some(e) => (t, Err(e)),
            None => match split_parent(t, from) {
                Err(e) => (t, Err(e)),
                Ok(_) => match split_parent(t, to) {
                    Err(e) => (t, Err(e)),
                    Ok(_) => match entry_at(t, from) {
                        Err(e) => (t, Err(e)),
                        Ok((from_dir, from_name, ino)) => match parent_dir(t, to) {
                            Err(e) => (t, Err(e)),
                            Ok((to_dir, to_name)) => match find(
                                t.inodes[to_dir].children(),
                                to_name,
                            ) {
                                None => if passes(t, ROOT_INO, dir_path(to), ino) {
                                    (t, Err(Failure::InvalidName))
                                } else {
                                    (
                                        moved(t, from_dir, from_name, to_dir, to_name, ino, now),
                                        Ok(()),
                                    )
                                },
                                Some(old) => if old == ino {
                                    (t, Ok(()))
                                } else {
                                    match replace_failure(t.inodes[ino], t.inodes[old]) {
                                        Some(e) => (t, Err(e)),
                                        None => if passes(t, ROOT_INO, dir_path(to), ino) {
                                            (t, Err(Failure::InvalidName))
                                        } else {
                                            (
                                                moved(
                                                    t.without(old),
                                                    from_dir,
                                                    from_name,
                                                    to_dir,
                                                    to_name,
                                                    ino,
                                                    now,
                                                ),
                                                Ok(()),
                                            )
                                        },
                                    }
                                },
                            },
                        },
                    },
                },
            },
        },
    }
}

/// `fsync`: nothing but the path is checked.
pub open spec fn fsync(t: Tree, p: Seq<Comp>) -> Result<(), Failure> {
    match resolve(t, p) {
        Err(e) => Err(e),
        Ok(_) => Ok(()),
    }
}

/// The children of a directory, with their kinds, in the order of names.
pub open spec fn listing(t: Tree, children: Seq<Link>) -> Seq<ChildView> {
    Seq::new(
        children.len(),
        |i: int|
            ChildView {
                name: children[i].name,
                kind: if t.has(children[i].ino) {
                    t.inodes[children[i].ino].kind()
                } else {
                    FileKind::Regular
                },
            },
    )
}

/// `list_dir`: the children of what the path leads to.
pub open spec fn list_dir(t: Tree, p: Seq<Comp>) -> Result<Seq<ChildView>, Failure> {
    match resolve(t, p) {
        Err(e) => Err(e),
        Ok(ino) => if !t.has(ino) {
            Err(Failure::NotFound)
        } else if !t.inodes[ino].is_dir() {
            Err(Failure::NotADirectory)
        } else {
            Ok(listing(t, t.inodes[ino].children()))
        },
    }
}

/// No name comes before itself, and of two names one comes first.
pub proof fn lemma_name_order(a: Seq<char>, b: Seq<char>)
    ensures
        !name_lt(a, a),
        name_lt(a, b) ==> !name_lt(b, a),
        a != b ==> name_lt(a, b) || name_lt(b, a),
    decreases a.len(),
{
    if a.len() > 0 {
        lemma_name_order(a.drop_first(), a.drop_first());
        if b.len() > 0 {
            lemma_name_order(a.drop_first(), b.drop_first());
            if a != b && a[0] == b[0] {
                if a.drop_first() == b.drop_first() {
                    assert(a =~= seq![a[0]] + a.drop_first());
                    assert(b =~= seq![b[0]] + b.drop_first());
                }
            }
        }
    } else if b.len() == 0 {
        assert(a =~= b);
    }
}

pub proof fn lemma_name_lt_trans(a: Seq<char>, b: Seq<char>, c: Seq<char>)
    requires
        name_lt(a, b),
        name_lt(b, c),
    ensures
        name_lt(a, c),
    decreases a.len(),
{
    if a.len() > 0 && b.len() > 0 && c.len() > 0 && a[0] == b[0] && b[0] == c[0] {
        lemma_name_lt_trans(a.drop_first(), b.drop_first(), c.drop_first());
    }
}

/// A name that is not found stands nowhere among the children.
proof fn lemma_absent(s: Seq<Link>, name: Seq<char>)
    requires
        find(s, name) is None,
    ensures
        forall|i: int| 0 <= i < s.len() ==> (#[trigger] s[i]).name != name,
    decreases s.len(),
{
    if s.len() > 0 {
        lemma_absent(s.drop_first(), name);
        assert forall|i: int| 0 <= i < s.len() implies (#[trigger] s[i]).name != name by {
            if i > 0 {
                assert(s.drop_first()[i - 1] == s[i]);
            }
        }
    }
}

proof fn lemma_with_child_ordered(s: Seq<Link>, name: Seq<char>, ino: Ino)
    requires
        ordered(s),
        find(s, name) is None,
    ensures
        ordered(with_child(s, name, ino)),
        with_child(s, name, ino).len() == s.len() + 1,
        s.len() > 0 && name_lt(s[0].name, name) ==> with_child(s, name, ino)[0] == s[0],
        s.len() > 0 && !name_lt(s[0].name, name) ==> with_child(s, name, ino)[0].name == name,
        forall|low: Seq<char>| #[trigger]
            name_lt(low, name) && (s.len() > 0 ==> name_lt(low, s[0].name)) ==> name_lt(
                low,
                with_child(s, name, ino)[0].name,
            ),
    decreases s.len(),
{
    let link = Link { name, ino };
    let w = with_child(s, name, ino);
    if s.len() == 0 || !name_lt(s[0].name, name) {
        assert(w == seq![link] + s);
        if s.len() > 0 {
            lemma_name_order(s[0].name, name);
            assert(s[0].name != name);
            assert forall|i: int, j: int|
                #![trigger w[i], w[j]]
                0 <= i < j < w.len() implies name_lt(w[i].name, w[j].name) by {
                assert(w[j] == s[j - 1]);
                if i > 0 {
                    assert(w[i] == s[i - 1]);
                } else if j > 1 {
                    assert(name_lt(s[0].name, s[j - 1].name));
                    lemma_name_lt_trans(name, s[0].name, s[j - 1].name);
                }
            }
        }
    } else {
        let rest = s.drop_first();
        assert forall|i: int, j: int|
            #![trigger rest[i], rest[j]]
            0 <= i < j < rest.len() implies name_lt(rest[i].name, rest[j].name) by {
            assert(rest[i] == s[i + 1] && rest[j] == s[j + 1]);
        }
        lemma_with_child_ordered(rest, name, ino);
        let wr = with_child(rest, name, ino);
        assert(w == seq![s[0]] + wr);
        if rest.len() > 0 {
            assert(rest[0] == s[1]);
            assert(name_lt(s[0].name, s[1].name));
        }
        assert(name_lt(s[0].name, wr[0].name));
        assert forall|i: int, j: int|
            #![trigger w[i], w[j]]
            0 <= i < j < w.len() implies name_lt(w[i].name, w[j].name) by {
            assert(w[j] == wr[j - 1]);
            if i > 0 {
                assert(w[i] == wr[i - 1]);
            } else if j > 1 {
                assert(name_lt(wr[0].name, wr[j - 1].name));
                lemma_name_lt_trans(s[0].name, wr[0].name, wr[j - 1].name);
            }
        }
    }
}

pub proof fn lemma_remove_ordered(s: Seq<Link>, pos: int)
    requires
        ordered(s),
        0 <= pos < s.len(),
    ensures
        ordered(s.remove(pos)),
{
    let r = s.remove(pos);
    assert forall|i: int, j: int|
        #![trigger r[i], r[j]]
        0 <= i < j < r.len() implies name_lt(r[i].name, r[j].name) by {
        let i0 = if i < pos { i } else { i + 1 };
        let j0 = if j < pos { j } else { j + 1 };
        assert(r[i] == s[i0] && r[j] == s[j0]);
    }
}

/// A name that was taken out of ordered children is not found again.
pub proof fn lemma_find_gone(s: Seq<Link>, name: Seq<char>)
    requires
        ordered(s),
    ensures
        find(without_child(s, name), name) is None,
    decreases s.len(),
{
    if s.len() > 0 {
        let rest = s.drop_first();
        assert forall|i: int, j: int|
            #![trigger rest[i], rest[j]]
            0 <= i < j < rest.len() implies name_lt(rest[i].name, rest[j].name) by {
            assert(rest[i] == s[i + 1] && rest[j] == s[j + 1]);
        }
        if s[0].name == name {
            if find(rest, name) is Some {
                let k = lemma_without_child_at(rest, name);
                assert(rest[k] == s[k + 1]);
                assert(name_lt(s[0].name, s[k + 1].name));
                lemma_name_order(name, name);
            }
        } else {
            lemma_find_gone(rest, name);
            let w = seq![s[0]] + without_child(rest, name);
            assert(w.drop_first() =~= without_child(rest, name));
        }
    }
}

/// A name is put at one place among the children.
proof fn lemma_with_child_at(s: Seq<Link>, name: Seq<char>, ino: Ino) -> (pos: int)
    ensures
        0 <= pos <= s.len(),
        with_child(s, name, ino) == s.insert(pos, Link { name, ino }),
    decreases s.len(),
{
    let link = Link { name, ino };
    if s.len() == 0 || !name_lt(s[0].name, name) {
        assert(seq![link] + s =~= s.insert(0, link));
        0
    } else {
        let p = lemma_with_child_at(s.drop_first(), name, ino);
        assert(seq![s[0]] + s.drop_first().insert(p, link) =~= s.insert(p + 1, link));
        p + 1
    }
}

/// A name that is found is taken out of the place where it was found.
pub proof fn lemma_without_child_at(s: Seq<Link>, name: Seq<char>) -> (pos: int)
    requires
        find(s, name) is Some,
    ensures
        0 <= pos < s.len(),
        s[pos].name == name,
        s[pos].ino == find(s, name)->0,
        without_child(s, name) == s.remove(pos),
    decreases s.len(),
{
    if s[0].name == name {
        assert(s.drop_first() =~= s.remove(0));
        0
    } else {
        let p = lemma_without_child_at(s.drop_first(), name);
        assert(seq![s[0]] + s.drop_first().remove(p) =~= s.remove(p + 1));
        p + 1
    }
}

pub proof fn lemma_without_absent(s: Seq<Link>, name: Seq<char>)
    requires
        find(s, name) is None,
    ensures
        without_child(s, name) == s,
    decreases s.len(),
{
    if s.len() > 0 {
        lemma_without_absent(s.drop_first(), name);
        assert(seq![s[0]] + s.drop_first() =~= s);
    }
}

/// Taking one name out leaves the others.
pub proof fn lemma_find_without(s: Seq<Link>, name: Seq<char>, other: Seq<char>)
    requires
        name != other,
    ensures
        find(without_child(s, name), other) == find(s, other),
    decreases s.len(),
{
    if s.len() > 0 && s[0].name != name {
        lemma_find_without(s.drop_first(), name, other);
        let w = seq![s[0]] + without_child(s.drop_first(), name);
        assert(w.drop_first() =~= without_child(s.drop_first(), name));
    }
}

/// A name that was put in is found, and the others are found as before.
pub proof fn lemma_find_with(s: Seq<Link>, name: Seq<char>, ino: Ino, other: Seq<char>)
    requires
        find(s, name) is None,
    ensures
        find(with_child(s, name, ino), name) == Some(ino),
        name != other ==> find(with_child(s, name, ino), other) == find(s, other),
    decreases s.len(),
{
    let link = Link { name, ino };
    if s.len() == 0 || !name_lt(s[0].name, name) {
        assert((seq![link] + s).drop_first() =~= s);
    } else {
        lemma_find_with(s.drop_first(), name, ino, other);
        let w = seq![s[0]] + with_child(s.drop_first(), name, ino);
        assert(w.drop_first() =~= with_child(s.drop_first(), name, ino));
    }
}

proof fn lemma_wf_touch(t: Tree, k: Ino, e: InodeView)
    requires
        t.wf(),
        t.has(k),
        e.is_dir() == t.inodes[k].is_dir(),
        e.is_dir() ==> e.children() == t.inodes[k].children(),
    ensures
        t.with(k, e).wf(),
{
    let u = t.with(k, e);
    assert forall|d: Ino| #[trigger] u.has(d) && u.inodes[d].is_dir() implies ordered(
        u.inodes[d].children(),
    ) by {
        assert(t.has(d));
    }
    assert forall|d: Ino, i: int| #[trigger] u.is_link(d, i) implies t.is_link(d, i) && u.target(
        d,
        i,
    ) == t.target(d, i) by {}
    assert forall|x: Ino| #[trigger] u.has(x) implies x < u.next by {
        assert(t.has(x));
    }
    assert forall|d: Ino, i: int, f: Ino, j: int|
        #![trigger u.is_link(d, i), u.is_link(f, j)]
        u.is_link(d, i) && u.is_link(f, j) && u.target(d, i) == u.target(f, j) implies d == f && i
        == j by {
        assert(t.is_link(d, i) && t.is_link(f, j));
    }
    assert forall|d: Ino, i: int| #[trigger] u.is_link(d, i) implies u.has(u.target(d, i))
        && u.target(d, i) != ROOT_INO by {
        assert(t.is_link(d, i));
        assert(t.has(t.target(d, i)));
    }
}

proof fn lemma_wf_drop_link(t: Tree, d: Ino, pos: int, e: InodeView)
    requires
        t.wf(),
        t.is_link(d, pos),
        e.is_dir(),
        e.children() == t.inodes[d].children().remove(pos),
    ensures
        t.with(d, e).wf(),
        t.with(d, e).no_link_to(t.target(d, pos)),
        forall|y: Ino| #[trigger] t.no_link_to(y) ==> t.with(d, e).no_link_to(y),
{
    let u = t.with(d, e);
    lemma_remove_ordered(t.inodes[d].children(), pos);
    assert forall|c: Ino| #[trigger] u.has(c) && u.inodes[c].is_dir() implies ordered(
        u.inodes[c].children(),
    ) by {
        assert(t.has(c));
    }
    assert forall|c: Ino, i: int| #[trigger] u.is_link(c, i) implies ({
        let i0 = if c == d && i >= pos {
            i + 1
        } else {
            i
        };
        t.is_link(c, i0) && u.target(c, i) == t.target(c, i0)
    }) by {}
    assert forall|c: Ino, i: int| #[trigger] u.is_link(c, i) implies u.has(u.target(c, i))
        && u.target(c, i) != ROOT_INO && u.target(c, i) != t.target(d, pos) by {
        let i0 = if c == d && i >= pos {
            i + 1
        } else {
            i
        };
        assert(t.is_link(c, i0));
        assert(t.has(t.target(c, i0)));
        assert(t.is_link(d, pos));
    }
    assert forall|c: Ino, i: int, f: Ino, j: int|
        #![trigger u.is_link(c, i), u.is_link(f, j)]
        u.is_link(c, i) && u.is_link(f, j) && u.target(c, i) == u.target(f, j) implies c == f && i
        == j by {
        let i0 = if c == d && i >= pos {
            i + 1
        } else {
            i
        };
        let j0 = if f == d && j >= pos {
            j + 1
        } else {
            j
        };
        assert(t.is_link(c, i0) && t.is_link(f, j0));
    }
    assert forall|x: Ino| #[trigger] u.has(x) implies x < u.next by {
        assert(t.has(x));
    }
    assert forall|y: Ino| #[trigger] t.no_link_to(y) implies u.no_link_to(y) by {
        assert forall|c: Ino, i: int| #[trigger] u.is_link(c, i) implies u.target(c, i) != y by {
            let i0 = if c == d && i >= pos {
                i + 1
            } else {
                i
            };
            assert(t.is_link(c, i0));
        }
    }
}

proof fn lemma_wf_drop_inode(t: Tree, x: Ino)
    requires
        t.wf(),
        t.no_link_to(x),
        x != ROOT_INO,
    ensures
        t.without(x).wf(),
        forall|y: Ino| #[trigger] t.no_link_to(y) ==> t.without(x).no_link_to(y),
{
    let u = t.without(x);
    assert forall|c: Ino| #[trigger] u.has(c) && u.inodes[c].is_dir() implies ordered(
        u.inodes[c].children(),
    ) by {
        assert(t.has(c));
    }
    assert forall|d: Ino, i: int| #[trigger] u.is_link(d, i) implies t.is_link(d, i) && u.target(
        d,
        i,
    ) == t.target(d, i) by {}
    assert forall|d: Ino, i: int| #[trigger] u.is_link(d, i) implies u.has(u.target(d, i))
        && u.target(d, i) != ROOT_INO by {
        assert(t.is_link(d, i));
        assert(t.has(t.target(d, i)));
    }
    assert forall|d: Ino, i: int, f: Ino, j: int|
        #![trigger u.is_link(d, i), u.is_link(f, j)]
        u.is_link(d, i) && u.is_link(f, j) && u.target(d, i) == u.target(f, j) implies d == f && i
        == j by {
        assert(t.is_link(d, i) && t.is_link(f, j));
    }
    assert forall|k: Ino| #[trigger] u.has(k) implies k < u.next by {
        assert(t.has(k));
    }
    assert forall|y: Ino| #[trigger] t.no_link_to(y) implies u.no_link_to(y) by {
        assert forall|d: Ino, i: int| #[trigger] u.is_link(d, i) implies u.target(d, i) != y by {
            assert(t.is_link(d, i));
        }
    }
}

proof fn lemma_wf_add_link(t: Tree, d: Ino, pos: int, link: Link, e: InodeView)
    requires
        t.wf(),
        t.has(d),
        t.inodes[d].is_dir(),
        0 <= pos <= t.inodes[d].children().len(),
        t.has(link.ino),
        link.ino != ROOT_INO,
        t.no_link_to(link.ino),
        e.is_dir(),
        e.children() == t.inodes[d].children().insert(pos, link),
        ordered(e.children()),
    ensures
        t.with(d, e).wf(),
{
    let u = t.with(d, e);
    assert forall|c: Ino| #[trigger] u.has(c) && u.inodes[c].is_dir() implies ordered(
        u.inodes[c].children(),
    ) by {
        assert(t.has(c));
    }
    assert forall|c: Ino, i: int| #[trigger] u.is_link(c, i) implies ({
        let i0 = if c == d && i > pos {
            i - 1
        } else {
            i
        };
        (c == d && i == pos && u.target(c, i) == link.ino) || (!(c == d && i == pos) && t.is_link(
            c,
            i0,
        ) && u.target(c, i) == t.target(c, i0) && u.target(c, i) != link.ino)
    }) by {
        let i0 = if c == d && i > pos {
            i - 1
        } else {
            i
        };
        if !(c == d && i == pos) {
            assert(t.is_link(c, i0));
        }
    }
    assert forall|c: Ino, i: int| #[trigger] u.is_link(c, i) implies u.has(u.target(c, i))
        && u.target(c, i) != ROOT_INO by {
        let i0 = if c == d && i > pos {
            i - 1
        } else {
            i
        };
        if !(c == d && i == pos) {
            assert(t.is_link(c, i0));
            assert(t.has(t.target(c, i0)));
        }
    }
    assert forall|c: Ino, i: int, f: Ino, j: int|
        #![trigger u.is_link(c, i), u.is_link(f, j)]
        u.is_link(c, i) && u.is_link(f, j) && u.target(c, i) == u.target(f, j) implies c == f && i
        == j by {
        let i0 = if c == d && i > pos {
            i - 1
        } else {
            i
        };
        let j0 = if f == d && j > pos {
            j - 1
        } else {
            j
        };
        if !(c == d && i == pos) && !(f == d && j == pos) {
            assert(t.is_link(c, i0) && t.is_link(f, j0));
        }
    }
    assert forall|x: Ino| #[trigger] u.has(x) implies x < u.next by {
        assert(t.has(x));
    }
}

/// Writing, truncating and changing permissions keep the tree sound.
pub proof fn law_content_ops_keep_wf(
    t: Tree,
    p: Seq<Comp>,
    offset: int,
    data: Seq<u8>,
    size: int,
    mode: u16,
    now: i64,
)
    requires
        t.wf(),
    ensures
        write(t, p, offset, data, now).0.wf(),
        truncate(t, p, size, now).0.wf(),
        chmod(t, p, mode, now).0.wf(),
{
    if let Ok(ino) = file_at(t, p) {
        let e = t.inodes[ino];
        lemma_wf_touch(t, ino, e.with_content(spliced(e.content(), offset, data), now));
        lemma_wf_touch(t, ino, e.with_content(resized(e.content(), size), now));
    }
    if let Ok(ino) = resolve(t, p) {
        if t.has(ino) {
            lemma_wf_touch(t, ino, t.inodes[ino].with_mode(mode & 0o7777, now));
        }
    }
}

/// Making a file or an empty directory keeps the tree sound.
pub proof fn law_make_keeps_wf(t: Tree, p: Seq<Comp>, node: NodeView, now: i64)
    requires
        t.wf(),
        t.next <= Ino::MAX,
        node matches NodeView::Dir { children, .. } ==> children.len() == 0,
    ensures
        make(t, p, node, now).0.wf(),
{
    if let Ok((dir, name)) = parent_dir(t, p) {
        if find(t.inodes[dir].children(), name) is None {
            let ino = t.next as Ino;
            let e = fresh_inode(node, now);
            assert(!t.has(ino));
            assert(t.has(ROOT_INO));
            let t1 = Tree { inodes: t.inodes.insert(ino, e), next: t.next + 1 };
            assert(t1.wf()) by {
                assert forall|d: Ino, i: int| #[trigger] t1.is_link(d, i) implies t.is_link(d, i)
                    && t1.target(d, i) == t.target(d, i) by {}
                assert forall|d: Ino, i: int| #[trigger] t1.is_link(d, i) implies t1.has(
                    t1.target(d, i),
                ) && t1.target(d, i) != ROOT_INO by {
                    assert(t.is_link(d, i));
                    assert(t.has(t.target(d, i)));
                }
                assert forall|d: Ino, i: int, f: Ino, j: int|
                    #![trigger t1.is_link(d, i), t1.is_link(f, j)]
                    t1.is_link(d, i) && t1.is_link(f, j) && t1.target(d, i) == t1.target(
                        f,
                        j,
                    ) implies d == f && i == j by {
                    assert(t.is_link(d, i) && t.is_link(f, j));
                }
                assert forall|x: Ino| #[trigger] t1.has(x) implies x < t1.next by {
                    assert(x == ino || t.has(x));
                }
                assert forall|c: Ino| #[trigger] t1.has(c) && t1.inodes[c].is_dir() implies ordered(
                    t1.inodes[c].children(),
                ) by {
                    assert(c == ino || t.has(c));
                }
            }
            assert(t1.no_link_to(ino)) by {
                assert forall|d: Ino, i: int| #[trigger] t1.is_link(d, i) implies t1.target(d, i)
                    != ino by {
                    assert(t.is_link(d, i));
                    assert(t.has(t.target(d, i)));
                }
            }
            let pos = lemma_with_child_at(t.inodes[dir].children(), name, ino);
            let e2 = t.inodes[dir].with_children(
                with_child(t.inodes[dir].children(), name, ino),
                now,
            );
            assert(t1.inodes[dir] == t.inodes[dir]);
            lemma_with_child_ordered(t.inodes[dir].children(), name, ino);
            lemma_wf_add_link(t1, dir, pos, Link { name, ino }, e2);
            assert(make(t, p, node, now).0 == t1.with(dir, e2));
        }
    }
}

proof fn lemma_unlinked_wf(t: Tree, dir: Ino, name: Seq<char>, ino: Ino, now: i64)
    requires
        t.wf(),
        t.has(dir),
        t.inodes[dir].is_dir(),
        find(t.inodes[dir].children(), name) == Some(ino),
        dir != ino,
    ensures
        unlinked(t, dir, name, ino, now).wf(),
{
    let c = t.inodes[dir].children();
    let pos = lemma_without_child_at(c, name);
    let e = t.inodes[dir].with_children(without_child(c, name), now);
    assert(t.is_link(dir, pos));
    lemma_wf_drop_link(t, dir, pos, e);
    let u = t.with(dir, e);
    lemma_wf_drop_inode(u, ino);
    assert(u.without(ino).inodes =~= unlinked(t, dir, name, ino, now).inodes);
}

/// Removing a file or an empty directory keeps the tree sound.
pub proof fn law_remove_keeps_wf(t: Tree, p: Seq<Comp>, now: i64)
    requires
        t.wf(),
    ensures
        unlink(t, p, now).0.wf(),
        rmdir(t, p, now).0.wf(),
{
    if let Ok((dir, name, ino)) = entry_at(t, p) {
        let pos = lemma_without_child_at(t.inodes[dir].children(), name);
        if unlink(t, p, now).1 is Ok || rmdir(t, p, now).1 is Ok {
            lemma_unlinked_wf(t, dir, name, ino, now);
        }
    }
}

/// A directory entry that is found leads to an inode, and its directory has
/// children.
pub proof fn lemma_found(t: Tree, dir: Ino, name: Seq<char>)
    requires
        t.wf(),
        t.has(dir),
        t.inodes[dir].is_dir(),
        find(t.inodes[dir].children(), name) is Some,
    ensures
        t.has(find(t.inodes[dir].children(), name)->0),
        find(t.inodes[dir].children(), name)->0 != ROOT_INO,
        t.inodes[dir].children().len() > 0,
{
    let pos = lemma_without_child_at(t.inodes[dir].children(), name);
    assert(t.is_link(dir, pos));
}

/// Renaming keeps the tree sound.
pub proof fn law_rename_keeps_wf(t: Tree, from: Seq<Comp>, to: Seq<Comp>, now: i64)
    requires
        t.wf(),
    ensures
        rename(t, from, to, now).0.wf(),
{
    let (after, r) = rename(t, from, to, now);
    if r is Ok && after != t {
        let (from_dir, from_name, ino) = entry_at(t, from)->Ok_0;
        let (to_dir, to_name) = parent_dir(t, to)->Ok_0;
        let c = t.inodes[from_dir].children();
        let pos = lemma_without_child_at(c, from_name);
        assert(t.is_link(from_dir, pos));
        assert(t.target(from_dir, pos) == ino);
        let e1 = t.inodes[from_dir].with_children(without_child(c, from_name), now);
        lemma_wf_drop_link(t, from_dir, pos, e1);
        let u1 = t.with(from_dir, e1);
        let c2 = u1.inodes[to_dir].children();
        match find(t.inodes[to_dir].children(), to_name) {
            None => {
                if from_dir == to_dir {
                    lemma_find_without(c, from_name, to_name);
                }
                lemma_without_absent(c2, to_name);
                let at = lemma_with_child_at(c2, to_name, ino);
                lemma_with_child_ordered(c2, to_name, ino);
                let e2 = u1.inodes[to_dir].with_children(with_child(c2, to_name, ino), now);
                lemma_wf_add_link(u1, to_dir, at, Link { name: to_name, ino }, e2);
                let u2 = u1.with(to_dir, e2);
                lemma_wf_touch(u2, ino, InodeView { ctime_ns: now, ..u2.inodes[ino] });
            },
            Some(old) => {
                if from_dir == to_dir {
                    if from_name != to_name {
                        lemma_find_without(c, from_name, to_name);
                    }
                }
                let opos = lemma_without_child_at(c2, to_name);
                assert(u1.is_link(to_dir, opos));
                let gap = u1.inodes[to_dir].with_children(without_child(c2, to_name), now);
                lemma_wf_drop_link(u1, to_dir, opos, gap);
                let u2 = u1.with(to_dir, gap);
                lemma_wf_drop_inode(u2, old);
                let u3 = u2.without(old);
                let c3 = without_child(c2, to_name);
                let at = lemma_with_child_at(c3, to_name, ino);
                lemma_find_gone(c2, to_name);
                lemma_with_child_ordered(c3, to_name, ino);
                let e2 = u3.inodes[to_dir].with_children(with_child(c3, to_name, ino), now);
                let ofrom = lemma_without_child_at(t.inodes[to_dir].children(), to_name);
                assert(old != from_dir && old != to_dir);
                lemma_wf_add_link(u3, to_dir, at, Link { name: to_name, ino }, e2);
                let u4 = u3.with(to_dir, e2);
                let e4 = InodeView { ctime_ns: now, ..u4.inodes[ino] };
                lemma_wf_touch(u4, ino, e4);
                assert(u4.with(ino, e4).inodes =~= after.inodes);
            },
        }
    }
}

/// One line of a snapshot: a path, and the content where it is a file.
pub struct SnapView {
    pub path: Seq<Comp>,
    pub kind: FileKind,
    pub content: Option<Seq<u8>>,
}

/// Everything at or below `ino`, which stands at `path`, down to `depth`
/// directories: a directory comes before what it holds.
pub open spec fn walk(t: Tree, ino: Ino, path: Seq<Comp>, depth: nat) -> Seq<SnapView>
    decreases depth, 1nat, 0nat,
{
    if !t.has(ino) {
        Seq::empty()
    } else if !t.inodes[ino].is_dir() {
        seq![
            SnapView { path, kind: FileKind::Regular, content: Some(t.inodes[ino].content()) },
        ]
    } else {
        let head = if path.len() == 0 {
            Seq::empty()
        } else {
            seq![SnapView { path, kind: FileKind::Directory, content: None }]
        };
        head + walk_children(t, t.inodes[ino].children(), path, depth)
    }
}

/// Everything at or below the children of the directory at `path`.
pub open spec fn walk_children(t: Tree, children: Seq<Link>, path: Seq<Comp>, depth: nat) -> Seq<
    SnapView,
>
    decreases depth, 0nat, children.len(),
{
    if children.len() == 0 || depth == 0 {
        Seq::empty()
    } else {
        walk_children(t, children.drop_last(), path, depth) + walk(
            t,
            children.last().ino,
            path.push(Comp::Normal(children.last().name)),
            (depth - 1) as nat,
        )
    }
}

/// `snapshot`: the whole tree. No chain of directories is longer than the
/// number of inodes.
pub open spec fn snapshot(t: Tree) -> Seq<SnapView> {
    walk(t, ROOT_INO, Seq::empty(), t.inodes.dom().len())
}

/// The order of components: names by their order, after anything else.
pub open spec fn comp_lt(a: Comp, b: Comp) -> bool {
    match (a, b) {
        (Comp::Normal(x), Comp::Normal(y)) => name_lt(x, y),
        (Comp::RootDir, Comp::RootDir) => false,
        (Comp::RootDir, _) => true,
        (Comp::CurDir, Comp::ParentDir) => true,
        (Comp::CurDir, Comp::Normal(_)) => true,
        (Comp::ParentDir, Comp::Normal(_)) => true,
        _ => false,
    }
}

/// The order of paths: component by component, a path before what lies below
/// it.
pub open spec fn path_lt(a: Seq<Comp>, b: Seq<Comp>) -> bool
    decreases a.len(),
{
    if b.len() == 0 {
        false
    } else if a.len() == 0 {
        true
    } else {
        comp_lt(a[0], b[0]) || (a[0] == b[0] && path_lt(a.drop_first(), b.drop_first()))
    }
}

/// Whether the lines of a snapshot stand in strictly ascending order of paths.
pub open spec fn sorted(lines: Seq<SnapView>) -> bool {
    forall|i: int, j: int|
        #![trigger lines[i], lines[j]]
        0 <= i < j < lines.len() ==> path_lt(lines[i].path, lines[j].path)
}

proof fn lemma_path_lt_fork(base: Seq<Comp>, x: Comp, y: Comp, a: Seq<Comp>, b: Seq<Comp>)
    requires
        comp_lt(x, y),
        under(a, base.push(x)),
        under(b, base.push(y)),
    ensures
        path_lt(a, b),
    decreases base.len(),
{
    assert(a.subrange(0, base.len() as int + 1)[0] == a[0]);
    assert(b.subrange(0, base.len() as int + 1)[0] == b[0]);
    if base.len() == 0 {
        assert(a[0] == x && b[0] == y);
    } else {
        assert(a[0] == base[0] && b[0] == base[0]);
        let rest = base.drop_first();
        assert(rest.push(x) =~= base.push(x).drop_first());
        assert(rest.push(y) =~= base.push(y).drop_first());
        assert(a.drop_first().subrange(0, rest.len() as int + 1) =~= a.subrange(
            0,
            base.len() as int + 1,
        ).drop_first());
        assert(b.drop_first().subrange(0, rest.len() as int + 1) =~= b.subrange(
            0,
            base.len() as int + 1,
        ).drop_first());
        lemma_path_lt_fork(rest, x, y, a.drop_first(), b.drop_first());
    }
}

proof fn lemma_path_lt_below(base: Seq<Comp>, b: Seq<Comp>)
    requires
        under(b, base),
        b.len() > base.len(),
    ensures
        path_lt(base, b),
    decreases base.len(),
{
    if base.len() > 0 {
        assert(b.subrange(0, base.len() as int)[0] == b[0]);
        assert(b.drop_first().subrange(0, base.len() - 1) =~= b.subrange(
            0,
            base.len() as int,
        ).drop_first());
        lemma_path_lt_below(base.drop_first(), b.drop_first());
    }
}

proof fn lemma_walk_sorted(t: Tree, ino: Ino, path: Seq<Comp>, depth: nat)
    requires
        t.in_order(),
    ensures
        sorted(walk(t, ino, path, depth)),
        forall|i: int|
            0 <= i < walk(t, ino, path, depth).len() ==> under(
                (#[trigger] walk(t, ino, path, depth)[i]).path,
                path,
            ),
    decreases depth, 1nat, 0nat,
{
    assert(path.subrange(0, path.len() as int) =~= path);
    if t.has(ino) && t.inodes[ino].is_dir() {
        let kids = t.inodes[ino].children();
        lemma_walk_children_sorted(t, kids, path, depth);
        let tail = walk_children(t, kids, path, depth);
        let all = walk(t, ino, path, depth);
        if path.len() == 0 {
            assert(all =~= tail);
        } else {
            assert forall|i: int, j: int|
                #![trigger all[i], all[j]]
                0 <= i < j < all.len() implies path_lt(all[i].path, all[j].path) by {
                assert(all[j] == tail[j - 1]);
                if i > 0 {
                    assert(all[i] == tail[i - 1]);
                } else {
                    lemma_path_lt_below(path, tail[j - 1].path);
                }
            }
            assert forall|i: int| 0 <= i < all.len() implies under(
                (#[trigger] all[i]).path,
                path,
            ) by {
                if i > 0 {
                    assert(all[i] == tail[i - 1]);
                }
            }
        }
    }
}

proof fn lemma_walk_children_sorted(t: Tree, kids: Seq<Link>, path: Seq<Comp>, depth: nat)
    requires
        t.in_order(),
        ordered(kids),
    ensures
        sorted(walk_children(t, kids, path, depth)),
        forall|i: int|
            #![trigger walk_children(t, kids, path, depth)[i]]
            0 <= i < walk_children(t, kids, path, depth).len() ==> {
                let line = walk_children(t, kids, path, depth)[i];
                &&& under(line.path, path)
                &&& line.path.len() > path.len()
                &&& exists|k: int|
                    0 <= k < kids.len() && under(
                        line.path,
                        path.push(Comp::Normal((#[trigger] kids[k]).name)),
                    )
            },
    decreases depth, 0nat, kids.len(),
{
    if kids.len() > 0 && depth > 0 {
        let before = kids.drop_last();
        let last = kids.last();
        assert forall|i: int, j: int|
            #![trigger before[i], before[j]]
            0 <= i < j < before.len() implies name_lt(before[i].name, before[j].name) by {
            assert(before[i] == kids[i] && before[j] == kids[j]);
        }
        lemma_walk_children_sorted(t, before, path, depth);
        let below = path.push(Comp::Normal(last.name));
        lemma_walk_sorted(t, last.ino, below, (depth - 1) as nat);
        let a = walk_children(t, before, path, depth);
        let b = walk(t, last.ino, below, (depth - 1) as nat);
        let all = walk_children(t, kids, path, depth);
        assert(all == a + b);
        assert forall|i: int, j: int|
            #![trigger all[i], all[j]]
            0 <= i < j < all.len() implies path_lt(all[i].path, all[j].path) by {
            if j < a.len() {
                assert(all[i] == a[i] && all[j] == a[j]);
            } else if i >= a.len() {
                assert(all[i] == b[i - a.len()] && all[j] == b[j - a.len()]);
            } else {
                assert(all[i] == a[i] && all[j] == b[j - a.len()]);
                let k = choose|k: int|
                    0 <= k < before.len() && under(
                        a[i].path,
                        path.push(Comp::Normal((#[trigger] before[k]).name)),
                    );
                assert(before[k] == kids[k]);
                assert(kids[kids.len() - 1] == last);
                lemma_path_lt_fork(
                    path,
                    Comp::Normal(kids[k].name),
                    Comp::Normal(last.name),
                    all[i].path,
                    all[j].path,
                );
            }
        }
        assert forall|i: int|
            #![trigger all[i]]
            0 <= i < all.len() implies under(all[i].path, path) && all[i].path.len() > path.len()
            && exists|k: int|
            0 <= k < kids.len() && under(
                all[i].path,
                path.push(Comp::Normal((#[trigger] kids[k]).name)),
            ) by {
            if i < a.len() {
                assert(all[i] == a[i]);
                let k = choose|k: int|
                    0 <= k < before.len() && under(
                        a[i].path,
                        path.push(Comp::Normal((#[trigger] before[k]).name)),
                    );
                assert(before[k] == kids[k]);
                assert(under(all[i].path, path.push(Comp::Normal(kids[k].name))));
            } else {
                assert(all[i] == b[i - a.len()]);
                let p = all[i].path;
                assert(under(p, below));
                assert(p.subrange(0, path.len() as int) =~= p.subrange(
                    0,
                    below.len() as int,
                ).subrange(0, path.len() as int));
                assert(below.subrange(0, path.len() as int) =~= path);
                assert(under(p, path.push(Comp::Normal(kids[kids.len() - 1].name))));
            }
        }
    }
}

/// A snapshot of a sound tree stands in the order of paths, and holds no path
/// twice.
pub proof fn law_snapshot_sorted(t: Tree)
    requires
        t.wf(),
    ensures
        sorted(snapshot(t)),
{
    lemma_walk_sorted(t, ROOT_INO, Seq::empty(), t.inodes.dom().len());
}

/// Whether two inodes agree on what they hold of other inodes.
spec fn same_links(a: InodeView, b: InodeView) -> bool {
    a.is_dir() == b.is_dir() && (a.is_dir() ==> a.children() == b.children())
}

proof fn lemma_resolve_touch(t: Tree, k: Ino, e: InodeView, cur: Ino, p: Seq<Comp>)
    requires
        t.has(k),
        same_links(t.inodes[k], e),
    ensures
        resolve_from(t.with(k, e), cur, p) == resolve_from(t, cur, p),
    decreases p.len(),
{
    if p.len() > 0 {
        match p[0] {
            Comp::CurDir => lemma_resolve_touch(t, k, e, cur, p.drop_first()),
            Comp::Normal(name) => {
                if t.has(cur) && t.inodes[cur].is_dir() {
                    if let Some(child) = find(t.inodes[cur].children(), name) {
                        lemma_resolve_touch(t, k, e, child, p.drop_first());
                    }
                }
            },
            _ => {},
        }
    }
}

/// What was written is read back: the bytes of a successful write come out of
/// a read of the same range, and the file is as long as the write said.
pub proof fn law_read_after_write(t: Tree, p: Seq<Comp>, offset: int, data: Seq<u8>, now: i64)
    requires
        offset >= 0,
        write(t, p, offset, data, now).1 is Ok,
    ensures
        read(write(t, p, offset, data, now).0, p, offset, data.len() as int) == Ok::<_, Failure>(
            data,
        ),
{
    let ino = file_at(t, p)->Ok_0;
    let e = t.inodes[ino].with_content(spliced(t.inodes[ino].content(), offset, data), now);
    lemma_resolve_touch(t, ino, e, ROOT_INO, p);
    crate::payload::lemma_read_after_write(t.inodes[ino].content(), offset, data);
}

/// A write changes no other file.
pub proof fn law_write_leaves_other_files(
    t: Tree,
    p: Seq<Comp>,
    offset: int,
    data: Seq<u8>,
    now: i64,
    q: Seq<Comp>,
    at: int,
    size: int,
)
    requires
        file_at(t, p) != file_at(t, q),
    ensures
        read(write(t, p, offset, data, now).0, q, at, size) == read(t, q, at, size),
{
    if let Ok(ino) = file_at(t, p) {
        let e = t.inodes[ino].with_content(spliced(t.inodes[ino].content(), offset, data), now);
        lemma_resolve_touch(t, ino, e, ROOT_INO, q);
    }
}

/// A file cut or grown to a size reads back as its old bytes, then zeros.
pub proof fn law_truncate_then_read(t: Tree, p: Seq<Comp>, size: int, now: i64)
    requires
        size >= 0,
        truncate(t, p, size, now).1 is Ok,
    ensures
        read(truncate(t, p, size, now).0, p, 0, size) == Ok::<_, Failure>(
            resized(t.inodes[file_at(t, p)->Ok_0].content(), size),
        ),
{
    let ino = file_at(t, p)->Ok_0;
    let old = t.inodes[ino].content();
    if old.len() == size {
        assert(window(old, 0, size) =~= resized(old, size));
    } else {
        let e = t.inodes[ino].with_content(resized(old, size), now);
        lemma_resolve_touch(t, ino, e, ROOT_INO, p);
        assert(window(resized(old, size), 0, size) =~= resized(old, size));
    }
}

/// A refused operation leaves the tree as it was.
pub proof fn law_failure_changes_nothing(
    t: Tree,
    p: Seq<Comp>,
    q: Seq<Comp>,
    offset: int,
    data: Seq<u8>,
    mode: u16,
    now: i64,
)
    ensures
        write(t, p, offset, data, now).1 is Err ==> write(t, p, offset, data, now).0 == t,
        truncate(t, p, offset, now).1 is Err ==> truncate(t, p, offset, now).0 == t,
        chmod(t, p, mode, now).1 is Err ==> chmod(t, p, mode, now).0 == t,
        create(t, p, mode, now).1 is Err ==> create(t, p, mode, now).0 == t,
        mkdir(t, p, mode, now).1 is Err ==> mkdir(t, p, mode, now).0 == t,
        unlink(t, p, now).1 is Err ==> unlink(t, p, now).0 == t,
        rmdir(t, p, now).1 is Err ==> rmdir(t, p, now).0 == t,
        rename(t, p, q, now).1 is Err ==> rename(t, p, q, now).0 == t,
{
}

/// A path that is rooted, climbs with `..` or holds a NUL reaches nothing:
/// every operation refuses it.
pub proof fn law_escape_refused(
    t: Tree,
    p: Seq<Comp>,
    q: Seq<Comp>,
    offset: int,
    data: Seq<u8>,
    mode: u16,
    now: i64,
)
    requires
        path_failure(p) is Some,
    ensures
        stat(t, p) == Err::<FileAttr, _>(path_failure(p)->0),
        read(t, p, offset, offset) == Err::<Seq<u8>, _>(path_failure(p)->0),
        write(t, p, offset, data, now) == (t, Err::<u64, _>(path_failure(p)->0)),
        truncate(t, p, offset, now) == (t, Err::<(), _>(path_failure(p)->0)),
        chmod(t, p, mode, now) == (t, Err::<(), _>(path_failure(p)->0)),
        create(t, p, mode, now) == (t, Err::<FileAttr, _>(path_failure(p)->0)),
        mkdir(t, p, mode, now) == (t, Err::<FileAttr, _>(path_failure(p)->0)),
        unlink(t, p, now) == (t, Err::<(), _>(path_failure(p)->0)),
        rmdir(t, p, now) == (t, Err::<(), _>(path_failure(p)->0)),
        rename(t, p, q, now) == (t, Err::<(), _>(path_failure(p)->0)),
        path_failure(q) is None ==> rename(t, q, p, now) == (t, Err::<(), _>(path_failure(p)->0)),
        fsync(t, p) == Err::<(), _>(path_failure(p)->0),
        list_dir(t, p) == Err::<Seq<ChildView>, _>(path_failure(p)->0),
{
}

/// One step down from `d`.
pub open spec fn step(t: Tree, d: Ino, name: Seq<char>) -> Result<Ino, Failure> {
    if !t.has(d) {
        Err(Failure::Io("dangling parent"@))
    } else if !t.inodes[d].is_dir() {
        Err(Failure::NotADirectory)
    } else {
        match find(t.inodes[d].children(), name) {
            None => Err(Failure::NotFound),
            Some(child) => Ok(child),
        }
    }
}

pub proof fn lemma_resolve_last(t: Tree, cur: Ino, p: Seq<Comp>, name: Seq<char>)
    ensures
        resolve_from(t, cur, p.push(Comp::Normal(name))) == (match resolve_from(t, cur, p) {
            Err(e) => Err(e),
            Ok(d) => step(t, d, name),
        }),
    decreases p.len(),
{
    let q = p.push(Comp::Normal(name));
    if p.len() == 0 {
        assert(q.drop_first() =~= Seq::empty());
        if let Ok(child) = step(t, cur, name) {
            assert(resolve_from(t, child, q.drop_first()) == Ok::<_, Failure>(child));
        }
    } else {
        assert(q.drop_first() =~= p.drop_first().push(Comp::Normal(name)));
        assert(q[0] == p[0]);
        match p[0] {
            Comp::CurDir => lemma_resolve_last(t, cur, p.drop_first(), name),
            Comp::Normal(n) => {
                if let Ok(child) = step(t, cur, n) {
                    lemma_resolve_last(t, child, p.drop_first(), name);
                }
            },
            _ => {},
        }
    }
}

/// A path that stands for a name in a directory leads there through the
/// directory.
proof fn lemma_resolve_entry(t: Tree, u: Tree, p: Seq<Comp>)
    requires
        split_parent(t, p) is Ok,
    ensures
        path_failure(p) is None,
        resolve(u, p) == (match resolve_from(u, ROOT_INO, dir_path(p)) {
            Err(e) => Err(e),
            Ok(d) => step(u, d, split_parent(t, p)->Ok_0.1),
        }),
{
    let name = split_parent(t, p)->Ok_0.1;
    assert(p =~= dir_path(p).push(Comp::Normal(name)));
    lemma_resolve_last(u, ROOT_INO, dir_path(p), name);
}

/// Whether `u` keeps every directory entry of `t` that does not lead into `gone`.
spec fn keeps_links(t: Tree, u: Tree, gone: Set<Ino>) -> bool {
    forall|d: Ino, name: Seq<char>|
        #![trigger find(t.inodes[d].children(), name)]
        t.has(d) && t.inodes[d].is_dir() && !gone.contains(d) && (match find(
            t.inodes[d].children(),
            name,
        ) {
            Some(c) => !gone.contains(c),
            None => false,
        }) ==> step(u, d, name) == step(t, d, name)
}

proof fn lemma_resolve_kept(t: Tree, u: Tree, gone: Set<Ino>, cur: Ino, p: Seq<Comp>)
    requires
        keeps_links(t, u, gone),
        resolve_from(t, cur, p) is Ok,
        forall|x: Ino| gone.contains(x) ==> !#[trigger] passes(t, cur, p, x),
    ensures
        resolve_from(u, cur, p) == resolve_from(t, cur, p),
    decreases p.len(),
{
    if p.len() > 0 {
        if gone.contains(cur) {
            assert(passes(t, cur, p, cur));
        }
        match p[0] {
            Comp::CurDir => {
                assert forall|x: Ino| gone.contains(x) implies !#[trigger] passes(
                    t,
                    cur,
                    p.drop_first(),
                    x,
                ) by {
                    assert(!passes(t, cur, p, x));
                }
                lemma_resolve_kept(t, u, gone, cur, p.drop_first());
            },
            Comp::Normal(name) => {
                let child = find(t.inodes[cur].children(), name)->0;
                assert forall|x: Ino| gone.contains(x) implies !#[trigger] passes(
                    t,
                    child,
                    p.drop_first(),
                    x,
                ) by {
                    assert(!passes(t, cur, p, x));
                }
                if gone.contains(child) {
                    assert(passes(t, child, p.drop_first(), child));
                }
                assert(step(u, cur, name) == step(t, cur, name));
                lemma_resolve_kept(t, u, gone, child, p.drop_first());
            },
            _ => {},
        }
    }
}

/// A way that meets a file or an empty directory ends there.
proof fn lemma_leaf_ends_way(t: Tree, cur: Ino, p: Seq<Comp>, x: Ino)
    requires
        t.has(x),
        t.inodes[x].is_dir() ==> t.inodes[x].children().len() == 0,
        passes(t, cur, p, x),
        resolve_from(t, cur, p) is Ok,
    ensures
        resolve_from(t, cur, p) == Ok::<_, Failure>(x),
    decreases p.len(),
{
    if p.len() > 0 {
        match p[0] {
            Comp::CurDir => {
                assert(passes(t, cur, p.drop_first(), x)) by {
                    if cur == x {
                        assert(passes(t, x, p.drop_first(), x));
                    }
                }
                lemma_leaf_ends_way(t, cur, p.drop_first(), x);
            },
            Comp::Normal(name) => {
                let child = find(t.inodes[cur].children(), name)->0;
                lemma_leaf_ends_way(t, child, p.drop_first(), x);
            },
            _ => {},
        }
    }
}

/// What was made is there: a new file or directory has the attributes that its
/// making returned.
pub proof fn law_make_then_stat(t: Tree, p: Seq<Comp>, node: NodeView, now: i64)
    requires
        t.wf(),
        t.next <= Ino::MAX,
        make(t, p, node, now).1 is Ok,
    ensures
        stat(make(t, p, node, now).0, p) == make(t, p, node, now).1,
{
    let (u, r) = make(t, p, node, now);
    let (dir, name) = parent_dir(t, p)->Ok_0;
    let ino = t.next as Ino;
    assert(!t.has(ino));
    let c = t.inodes[dir].children();
    assert forall|d: Ino, n: Seq<char>|
        #![trigger find(t.inodes[d].children(), n)]
        t.has(d) && t.inodes[d].is_dir() && find(t.inodes[d].children(), n) is Some implies step(
        u,
        d,
        n,
    ) == step(t, d, n) by {
        if d == dir {
            lemma_find_with(c, name, ino, n);
        }
    }
    assert(keeps_links(t, u, Set::empty()));
    lemma_resolve_kept(t, u, Set::empty(), ROOT_INO, dir_path(p));
    lemma_find_with(c, name, ino, name);
    lemma_resolve_entry(t, u, p);
    assert(step(u, dir, name) == Ok::<_, Failure>(ino));
}

/// What was removed is gone: a removed file or directory is not found.
pub proof fn law_remove_then_stat(t: Tree, p: Seq<Comp>, now: i64)
    requires
        t.wf(),
    ensures
        unlink(t, p, now).1 is Ok ==> stat(unlink(t, p, now).0, p) == Err::<FileAttr, _>(
            Failure::NotFound,
        ),
        rmdir(t, p, now).1 is Ok ==> stat(rmdir(t, p, now).0, p) == Err::<FileAttr, _>(
            Failure::NotFound,
        ),
{
    if unlink(t, p, now).1 is Ok || rmdir(t, p, now).1 is Ok {
        let (dir, name, ino) = entry_at(t, p)->Ok_0;
        let u = unlinked(t, dir, name, ino, now);
        lemma_found(t, dir, name);
        let c = t.inodes[dir].children();
        let gone = set![ino];
        assert forall|d: Ino, n: Seq<char>|
            #![trigger find(t.inodes[d].children(), n)]
            t.has(d) && t.inodes[d].is_dir() && !gone.contains(d) && (match find(
                t.inodes[d].children(),
                n,
            ) {
                Some(k) => !gone.contains(k),
                None => false,
            }) implies step(u, d, n) == step(t, d, n) by {
            if d == dir {
                lemma_find_without(c, name, n);
            }
        }
        if passes(t, ROOT_INO, dir_path(p), ino) {
            lemma_leaf_ends_way(t, ROOT_INO, dir_path(p), ino);
        }
        lemma_resolve_kept(t, u, gone, ROOT_INO, dir_path(p));
        lemma_find_gone(c, name);
        lemma_resolve_entry(t, u, p);
    }
}

/// Where both names exist and stand for different things, a file does not take
/// the place of a directory nor a directory that of a file, and a directory
/// that holds something is not replaced. Nothing changes then.
pub proof fn law_rename_replaces_like(t: Tree, from: Seq<Comp>, to: Seq<Comp>, now: i64)
    requires
        path_failure(from) is None,
        path_failure(to) is None,
        entry_at(t, from) is Ok,
        entry_at(t, to) is Ok,
        entry_at(t, from)->Ok_0.2 != entry_at(t, to)->Ok_0.2,
    ensures
        ({
            let src = t.inodes[entry_at(t, from)->Ok_0.2];
            let dst = t.inodes[entry_at(t, to)->Ok_0.2];
            &&& src.is_dir() != dst.is_dir() ==> rename(t, from, to, now) == (
                t,
                Err::<(), _>(Failure::AlreadyExists),
            )
            &&& src.is_dir() && dst.is_dir() && dst.children().len() > 0 ==> rename(
                t,
                from,
                to,
                now,
            ) == (t, Err::<(), _>(Failure::NotEmpty))
        }),
{
}

/// A rename moves the entry whole: the new path leads to the inode that the
/// old one led to, with its content, and the old name is gone from its
/// directory.
pub proof fn law_rename_moves(t: Tree, from: Seq<Comp>, to: Seq<Comp>, now: i64, at: int, size: int)
    requires
        t.wf(),
        rename(t, from, to, now).1 is Ok,
    ensures
        ({
            let u = rename(t, from, to, now).0;
            let (from_dir, from_name, ino) = entry_at(t, from)->Ok_0;
            &&& resolve(u, to) == Ok::<_, Failure>(ino)
            &&& resolve(u, to) == resolve(t, from)
            &&& read(u, to, at, size) == read(t, from, at, size)
            &&& resolve(t, to) == resolve(t, from) ==> u == t
            &&& resolve(t, to) != resolve(t, from) ==> find(
                u.inodes[from_dir].children(),
                from_name,
            ) is None
        }),
{
    let u = rename(t, from, to, now).0;
    let (from_dir, from_name, ino) = entry_at(t, from)->Ok_0;
    let (to_dir, to_name) = parent_dir(t, to)->Ok_0;
    lemma_resolve_entry(t, t, from);
    lemma_resolve_entry(t, t, to);
    lemma_resolve_entry(t, u, to);
    lemma_found(t, from_dir, from_name);
    if find(t.inodes[to_dir].children(), to_name) != Some(ino) {
        let old = find(t.inodes[to_dir].children(), to_name);
        let gone = match old {
            Some(o) => set![ino, o],
            None => set![ino],
        };
        let base = match old {
            Some(o) => t.without(o),
            None => t,
        };
        if let Some(o) = old {
            lemma_found(t, to_dir, to_name);
            if passes(t, ROOT_INO, dir_path(to), o) {
                lemma_leaf_ends_way(t, ROOT_INO, dir_path(to), o);
            }
        }
        let c = t.inodes[from_dir].children();
        let t1 = base.with(
            from_dir,
            base.inodes[from_dir].with_children(without_child(c, from_name), now),
        );
        let c2 = t1.inodes[to_dir].children();
        let c3 = without_child(c2, to_name);
        assert(ordered(c));
        assert(ordered(t.inodes[to_dir].children())) by {
            assert(t.has(to_dir));
        }
        let at_from = lemma_without_child_at(c, from_name);
        lemma_remove_ordered(c, at_from);
        assert(ordered(c2));
        lemma_find_gone(c2, to_name);
        lemma_find_gone(c, from_name);
        assert forall|d: Ino, n: Seq<char>|
            #![trigger find(t.inodes[d].children(), n)]
            t.has(d) && t.inodes[d].is_dir() && !gone.contains(d) && (match find(
                t.inodes[d].children(),
                n,
            ) {
                Some(k) => !gone.contains(k),
                None => false,
            }) implies step(u, d, n) == step(t, d, n) by {
            if n != from_name {
                lemma_find_without(c, from_name, n);
            }
            if n != to_name {
                lemma_find_without(c2, to_name, n);
            }
            lemma_find_with(c3, to_name, ino, n);
        }
        lemma_resolve_kept(t, u, gone, ROOT_INO, dir_path(to));
        lemma_find_with(c3, to_name, ino, to_name);
        lemma_find_with(c3, to_name, ino, from_name);
        if to_dir == from_dir {
            assert(to_name != from_name);
            lemma_find_without(c2, to_name, from_name);
        }
        assert(step(u, to_dir, to_name) == Ok::<_, Failure>(ino));
        assert(find(u.inodes[from_dir].children(), from_name) is None);
    }
}

} // verus!
