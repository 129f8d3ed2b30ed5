//! What requests are answered, said of the names and entries of the
//! filesystem behind the dispatcher.

use bytes::Bytes;
use vstd::prelude::*;

use crate::host::dispatch::{
    appends, change_reply, changed, child_stats, entry_reply, failed, handles, interned,
    list_entries, list_plus, opened, page_reply, plain_reply, remove_reply, rename_reply, serves,
    serves_all, write_reply, Desk,
};
use crate::host::inode_table::{displaced, ino_of, one_to_one, rebased};
use crate::host::laws::{
    entry, entry_moved, law_changing_contents, law_changing_mode, law_looking, law_making,
    law_removing, law_renaming, lemma_reached_child, lemma_reached_one, lemma_reached_there, lemma_reached_usable,
    named, one_entry_more, reached, same_but, tidy, usable,
};
use crate::host::mem::{Clock, MemFs};
use crate::host::port::{tree_step, FsOp, FsOutcome, HostFs};
use crate::host::tree::{listing, NodeView, Tree};
use crate::host::{errno_of, tree, ChildView, Failure};
use crate::path::{join_path, law_join_name, parse_path, under, Comp};
use crate::payload::bytes_contents;
use crate::protocol::{Answer, EntryView, FileAttr, Ino, OpenFlags, Request};

verus! {

/// The numbers that failures carry over the wire are those of Linux.
pub proof fn law_error_numbers(why: Seq<char>)
    ensures
        errno_of(Failure::NotFound) == 2,
        errno_of(Failure::Io(why)) == 5,
        errno_of(Failure::PermissionDenied) == 13,
        errno_of(Failure::PathEscape) == 13,
        errno_of(Failure::AlreadyExists) == 17,
        errno_of(Failure::NotADirectory) == 20,
        errno_of(Failure::IsADirectory) == 21,
        errno_of(Failure::InvalidName) == 22,
        errno_of(Failure::NoSpace) == 28,
        errno_of(Failure::NotEmpty) == 39,
{
}

/// Whether every number in the table was handed out, no two stand for one
/// path, and there is room for `n` more.
pub open spec fn numbered<F>(d: Desk<F>, n: nat) -> bool {
    &&& one_to_one(d.table)
    &&& forall|k: Ino| #[trigger] d.table.dom().contains(k) ==> k < d.next
    &&& d.next + n < u64::MAX
}

/// Giving a path a number keeps every number that was given.
proof fn lemma_interned<F>(d: Desk<F>, p: Seq<Comp>, n: nat)
    requires
        numbered(d, n + 1),
    ensures
        ({
            let (e, ino) = interned(d, p);
            &&& numbered(e, n)
            &&& e.table.dom().contains(ino)
            &&& e.table[ino] == p
            &&& forall|k: Ino| #[trigger]
                d.table.dom().contains(k) ==> e.table.dom().contains(k) && e.table[k] == d.table[k]
            &&& e.fs == d.fs
            &&& e.gens == d.gens
            &&& e.handles == d.handles
            &&& e.last_handle == d.last_handle
        }),
{
    let (e, ino) = interned(d, p);
    if ino_of(d.table, p) is None {
        assert(!d.table.dom().contains(d.next));
        assert forall|a: Ino, b: Ino|
            #![trigger e.table[a], e.table[b]]
            e.table.dom().contains(a) && e.table.dom().contains(b) && e.table[a]
                == e.table[b] implies a == b by {
            if a == d.next && b != d.next {
                assert(d.table.dom().contains(b) && d.table[b] == p);
            }
            if b == d.next && a != d.next {
                assert(d.table.dom().contains(a) && d.table[a] == p);
            }
            if a != d.next && b != d.next {
                assert(d.table[a] == d.table[b]);
            }
        }
    }
}

/// The entries of a page are the children, in order, each with its name, its
/// kind and the number of its path.
proof fn lemma_entries<F>(d: Desk<F>, p: Seq<Comp>, children: Seq<ChildView>)
    ensures
        ({
            let (e, out) = list_entries(d, p, children);
            &&& out.len() == children.len()
            &&& forall|i: int|
                0 <= i < out.len() ==> (#[trigger] out[i]).name == children[i].name && out[i].kind
                    == children[i].kind
            &&& e.fs == d.fs
            &&& e.gens == d.gens
            &&& e.handles == d.handles
        }),
    decreases children.len(),
{
    if children.len() > 0 {
        lemma_entries(d, p, children.drop_last());
    }
}

proof fn lemma_entry_numbers<F>(d: Desk<F>, p: Seq<Comp>, children: Seq<ChildView>, n: nat)
    requires
        numbered(d, children.len() + n),
    ensures
        ({
            let (e, out) = list_entries(d, p, children);
            &&& out.len() == children.len()
            &&& numbered(e, n)
            &&& forall|i: int|
                0 <= i < out.len() ==> e.table.dom().contains((#[trigger] out[i]).ino)
                    && e.table[out[i].ino] == join_path(p, parse_path(children[i].name))
            &&& forall|k: Ino| #[trigger]
                d.table.dom().contains(k) ==> e.table.dom().contains(k) && e.table[k] == d.table[k]
        }),
    decreases children.len(),
{
    if children.len() > 0 {
        let before = children.drop_last();
        lemma_entry_numbers(d, p, before, n + 1);
        let (e, out) = list_entries(d, p, before);
        lemma_interned(e, join_path(p, parse_path(children.last().name)), n);
        let (f, all) = list_entries(d, p, children);
        assert forall|i: int| 0 <= i < all.len() implies f.table.dom().contains(
            (#[trigger] all[i]).ino,
        ) && f.table[all[i].ino] == join_path(p, parse_path(children[i].name)) by {
            if i < out.len() {
                assert(all[i] == out[i]);
                assert(before[i] == children[i]);
                assert(e.table.dom().contains(out[i].ino));
            }
        }
    }
}

/// Whether a filesystem lists a directory as these children, and listing it
/// changes nothing.
pub open spec fn lists<F: HostFs>(fs: F, p: Seq<Comp>, c: Seq<ChildView>) -> bool {
    forall|post: F, o: FsOutcome| #[trigger]
        F::may(fs, FsOp::ListDir(p), post, o) ==> post == fs && o == FsOutcome::Children(c)
}

/// A page of a directory is its children from the offset on: as many as are
/// left, and none beyond the end, each with its name and its kind, and no
/// further page is announced. The filesystem stays as it is.
pub proof fn law_page_is_rest_of_children<F: HostFs>(
    d: Desk<F>,
    ino: Ino,
    offset: u64,
    c: Seq<ChildView>,
    e: Desk<F>,
    a: Answer,
)
    requires
        d.table.dom().contains(ino),
        lists(d.fs, d.table[ino], c),
        handles(d, (Request::ReadDir { ino, offset }), e, a),
    ensures
        e.fs == d.fs,
        e.gens == d.gens,
        e.handles == d.handles,
        a matches Answer::DirPage(page, more) && more is None && page.len() == (if offset
            < c.len() {
            c.len() - offset
        } else {
            0
        }) && forall|i: int|
            0 <= i < page.len() ==> (#[trigger] page[i]).name == c[offset + i].name && page[i].kind
                == c[offset + i].kind,
{
    let p = d.table[ino];
    let (post, o) = choose|post: F, o: FsOutcome| #[trigger]
        F::may(d.fs, FsOp::ListDir(p), post, o) && (e, a) == page_reply(
            Desk { fs: post, ..d },
            p,
            offset,
            o,
        );
    let x = Desk { fs: post, ..d };
    if offset < c.len() {
        lemma_entries(x, p, c.skip(offset as int));
    }
}

/// Page by page, a directory that does not change is read once: the page at
/// an offset and the page that follows it have no name in common where the
/// directory has none twice, together they are the page that the first would
/// have been part of, and the page behind the last child is empty.
pub proof fn law_pages_follow_on<F: HostFs>(
    d: Desk<F>,
    ino: Ino,
    k: u64,
    c: Seq<ChildView>,
    e: Desk<F>,
    first: Seq<EntryView>,
    d2: Desk<F>,
    f: Desk<F>,
    second: Seq<EntryView>,
    d3: Desk<F>,
    g: Desk<F>,
    a: Answer,
)
    requires
        c.len() <= u64::MAX,
        k + first.len() <= u64::MAX,
        forall|i: int, j: int|
            #![trigger c[i], c[j]]
            0 <= i < j < c.len() ==> c[i].name != c[j].name,
        d.table.dom().contains(ino) && lists(d.fs, d.table[ino], c),
        d2.table.dom().contains(ino) && lists(d2.fs, d2.table[ino], c),
        d3.table.dom().contains(ino) && lists(d3.fs, d3.table[ino], c),
        handles(d, (Request::ReadDir { ino, offset: k }), e, Answer::DirPage(first, None)),
        handles(
            d2,
            (Request::ReadDir { ino, offset: (k + first.len()) as u64 }),
            f,
            Answer::DirPage(second, None),
        ),
        handles(d3, (Request::ReadDir { ino, offset: c.len() as u64 }), g, a),
    ensures
        forall|i: int, j: int|
            0 <= i < first.len() && 0 <= j < second.len() ==> (#[trigger] first[i]).name != (
            #[trigger] second[j]).name,
        forall|i: int, j: int|
            #![trigger first[i], first[j]]
            0 <= i < j < first.len() ==> first[i].name != first[j].name,
        first.len() + second.len() == (if k < c.len() {
            c.len() - k
        } else {
            0
        }),
        a == Answer::DirPage(Seq::empty(), None),
{
    law_page_is_rest_of_children(d, ino, k, c, e, Answer::DirPage(first, None));
    law_page_is_rest_of_children(
        d2,
        ino,
        (k + first.len()) as u64,
        c,
        f,
        Answer::DirPage(second, None),
    );
    law_page_is_rest_of_children(d3, ino, c.len() as u64, c, g, a);
    let page = a->DirPage_0;
    assert(page =~= Seq::empty());
    assert forall|i: int, j: int|
        0 <= i < first.len() && 0 <= j < second.len() implies (#[trigger] first[i]).name != (
    #[trigger] second[j]).name by {
        assert(first[i].name == c[k + i].name);
        assert(second[j].name == c[k + first.len() + j].name);
    }
    assert forall|i: int, j: int|
        #![trigger first[i], first[j]]
        0 <= i < j < first.len() implies first[i].name != first[j].name by {
        assert(first[i].name == c[k + i].name);
        assert(first[j].name == c[k + j].name);
    }
}

/// The children of a directory in memory, as they are listed.
proof fn lemma_lists<C: Clock>(fs: MemFs<C>, names: Seq<Seq<char>>, x: Ino)
    requires
        fs.wf(),
        tidy(fs@),
        reached(fs@, names, x),
        fs@.inodes[x].is_dir(),
    ensures
        lists(fs, named(names), listing(fs@, fs@.inodes[x].children())),
        fs@.has(x),
{
    lemma_reached_there(fs@, names, x);
    lemma_reached_usable(fs@, names, x);
}

/// What a client reads of a directory in memory: from the offset on, each
/// entry of the directory with its name, as a directory or a regular file,
/// under a number that stands for its path from then on.
pub proof fn law_page_shows_entries<C: Clock>(
    d: Desk<MemFs<C>>,
    ino: Ino,
    names: Seq<Seq<char>>,
    x: Ino,
    offset: u64,
    e: Desk<MemFs<C>>,
    a: Answer,
)
    requires
        d.fs.wf(),
        tidy(d.fs@),
        d.table.dom().contains(ino),
        d.table[ino] == named(names),
        reached(d.fs@, names, x),
        d.fs@.inodes[x].node is Dir,
        numbered(d, d.fs@.inodes[x].children().len()),
        handles(d, (Request::ReadDir { ino, offset }), e, a),
    ensures
        e.fs == d.fs,
        ({
            let kids = d.fs@.inodes[x].children();
            a matches Answer::DirPage(page, more) && more is None && page.len() == (if offset
                < kids.len() {
                kids.len() - offset
            } else {
                0
            }) && forall|i: int|
                0 <= i < page.len() ==> {
                    let kid = kids[offset + i];
                    &&& (#[trigger] page[i]).name == kid.name
                    &&& d.fs@.inodes[kid.ino].node is Dir ==> page[i].kind is Directory
                    &&& d.fs@.inodes[kid.ino].node is File ==> page[i].kind is Regular
                    &&& e.table.dom().contains(page[i].ino)
                    &&& e.table[page[i].ino] == named(names.push(kid.name))
                }
        }),
{
    let t = d.fs@;
    let kids = t.inodes[x].children();
    let c = listing(t, kids);
    lemma_lists(d.fs, names, x);
    law_page_is_rest_of_children(d, ino, offset, c, e, a);
    let p = d.table[ino];
    let (post, o) = choose|post: MemFs<C>, o: FsOutcome| #[trigger]
        MemFs::<C>::may(d.fs, FsOp::ListDir(p), post, o) && (e, a) == page_reply(
            Desk { fs: post, ..d },
            p,
            offset,
            o,
        );
    assert(Desk { fs: post, ..d } == d);
    if offset < c.len() {
        let rest = c.skip(offset as int);
        lemma_entry_numbers(d, p, rest, (kids.len() - rest.len()) as nat);
        let page = a->DirPage_0;
        assert forall|i: int| 0 <= i < page.len() implies {
            let kid = kids[offset + i];
            &&& (#[trigger] page[i]).name == kid.name
            &&& t.inodes[kid.ino].node is Dir ==> page[i].kind is Directory
            &&& t.inodes[kid.ino].node is File ==> page[i].kind is Regular
            &&& e.table.dom().contains(page[i].ino)
            &&& e.table[page[i].ino] == named(names.push(kid.name))
        } by {
            let k = offset + i;
            lemma_reached_child(t, names, x, k);
            law_join_name(p, kids[k].name, Seq::empty());
            assert(named(names.push(kids[k].name)) =~= p.push(Comp::Normal(kids[k].name)));
            assert(rest[i] == c[k]);
        }
    }
}

/// The entries with attributes, where the attributes of every child are had:
/// the children, in order.
proof fn lemma_plus<F>(
    d: Desk<F>,
    p: Seq<Comp>,
    children: Seq<ChildView>,
    stats: Seq<FsOutcome>,
    n: nat,
)
    requires
        children.len() <= stats.len(),
        forall|i: int| 0 <= i < children.len() ==> (#[trigger] stats[i]) is Attr,
        numbered(d, children.len() + n),
    ensures
        ({
            let (e, out) = list_plus(d, p, children, stats);
            &&& out.len() == children.len()
            &&& numbered(e, n)
            &&& e.fs == d.fs
            &&& forall|i: int|
                0 <= i < out.len() ==> {
                    let number = (#[trigger] out[i]).attr.ino;
                    &&& out[i].name == children[i].name
                    &&& out[i].kind == children[i].kind
                    &&& out[i].attr == (FileAttr { ino: number, ..stats[i]->Attr_0 })
                    &&& e.table.dom().contains(number)
                    &&& e.table[number] == join_path(p, parse_path(children[i].name))
                }
            &&& forall|k: Ino| #[trigger]
                d.table.dom().contains(k) ==> e.table.dom().contains(k) && e.table[k] == d.table[k]
        }),
    decreases children.len(),
{
    if children.len() > 0 {
        let before = children.drop_last();
        lemma_plus(d, p, before, stats, n + 1);
        let (e, out) = list_plus(d, p, before, stats);
        lemma_interned(e, join_path(p, parse_path(children.last().name)), n);
        let (f, all) = list_plus(d, p, children, stats);
        assert(stats[children.len() - 1] is Attr);
        assert forall|i: int| 0 <= i < all.len() implies {
            let number = (#[trigger] all[i]).attr.ino;
            &&& all[i].name == children[i].name
            &&& all[i].kind == children[i].kind
            &&& all[i].attr == (FileAttr { ino: number, ..stats[i]->Attr_0 })
            &&& f.table.dom().contains(number)
            &&& f.table[number] == join_path(p, parse_path(children[i].name))
        } by {
            if i < out.len() {
                assert(all[i] == out[i]);
                assert(before[i] == children[i]);
                assert(e.table.dom().contains(out[i].attr.ino));
            }
        }
    }
}

/// Whether attributes are those of a node: its kind, how long it is, its
/// permission bits and its times.
pub open spec fn describes(attr: FileAttr, t: Tree, x: Ino) -> bool {
    let node = t.inodes[x];
    &&& match node.node {
        NodeView::File { content, mode } => {
            &&& attr.kind is Regular
            &&& attr.size == content.len()
            &&& 512 * attr.blocks >= content.len() > 512 * (attr.blocks - 1)
            &&& attr.mode == mode
            &&& attr.nlink == 1
        },
        NodeView::Dir { children, mode } => {
            &&& attr.kind is Directory
            &&& attr.size == children.len()
            &&& attr.mode == mode
            &&& attr.nlink == 2
        },
    }
    &&& attr.atime_ns == node.atime_ns
    &&& attr.mtime_ns == node.mtime_ns
    &&& attr.ctime_ns == node.ctime_ns
    &&& attr.uid == 0
    &&& attr.gid == 0
}

/// Whether a directory holds no more entries, and a file no more bytes, than
/// can be counted.
pub open spec fn countable(t: Tree) -> bool {
    forall|k: Ino| #[trigger]
        t.inodes.dom().contains(k) ==> match t.inodes[k].node {
            NodeView::File { content, .. } => content.len() <= u64::MAX,
            NodeView::Dir { children, .. } => children.len() <= u64::MAX,
        }
}

proof fn lemma_describes(t: Tree, x: Ino)
    requires
        countable(t),
        t.has(x),
    ensures
        describes(tree::attr_of(x, t.inodes[x]), t, x),
{
}

/// A page with attributes shows the entries that a page shows, and the
/// attributes of each under the number of its path.
pub proof fn law_page_plus_shows_entries<C: Clock>(
    d: Desk<MemFs<C>>,
    ino: Ino,
    names: Seq<Seq<char>>,
    x: Ino,
    offset: u64,
    e: Desk<MemFs<C>>,
    a: Answer,
)
    requires
        d.fs.wf(),
        tidy(d.fs@),
        countable(d.fs@),
        d.table.dom().contains(ino),
        d.table[ino] == named(names),
        reached(d.fs@, names, x),
        d.fs@.inodes[x].node is Dir,
        numbered(d, d.fs@.inodes[x].children().len()),
        handles(d, (Request::ReadDirPlus { ino, offset }), e, a),
    ensures
        e.fs == d.fs,
        ({
            let kids = d.fs@.inodes[x].children();
            a matches Answer::DirPagePlus(page, more) && more is None && page.len() == (if offset
                < kids.len() {
                kids.len() - offset
            } else {
                0
            }) && forall|i: int|
                0 <= i < page.len() ==> {
                    let kid = kids[offset + i];
                    &&& (#[trigger] page[i]).name == kid.name
                    &&& page[i].kind == page[i].attr.kind
                    &&& describes(page[i].attr, d.fs@, kid.ino)
                    &&& e.table.dom().contains(page[i].attr.ino)
                    &&& e.table[page[i].attr.ino] == named(names.push(kid.name))
                }
        }),
{
    let t = d.fs@;
    let kids = t.inodes[x].children();
    let c = listing(t, kids);
    lemma_lists(d.fs, names, x);
    let p = d.table[ino];
    let o = FsOutcome::Children(c);
    if offset < c.len() {
        let rest = c.skip(offset as int);
        let stats = choose|stats: Seq<FsOutcome>| #[trigger]
            child_stats(d.fs, p, rest, stats) && {
                let (y, entries) = list_plus(d, p, rest, stats);
                (e, a) == (y, Answer::DirPagePlus(entries, None))
            };
        assert forall|i: int| 0 <= i < rest.len() implies (#[trigger] stats[i]) == FsOutcome::Attr(
            tree::attr_of(kids[offset + i].ino, t.inodes[kids[offset + i].ino]),
        ) by {
            let k = offset + i;
            lemma_reached_child(t, names, x, k);
            let q = names.push(kids[k].name);
            lemma_reached_usable(t, q, kids[k].ino);
            law_join_name(p, kids[k].name, Seq::empty());
            assert(named(q) =~= p.push(Comp::Normal(kids[k].name)));
            assert(rest[i] == c[k]);
        }
        lemma_plus(d, p, rest, stats, (kids.len() - rest.len()) as nat);
        let page = a->DirPagePlus_0;
        assert forall|i: int| 0 <= i < page.len() implies {
            let kid = kids[offset + i];
            &&& (#[trigger] page[i]).name == kid.name
            &&& page[i].kind == page[i].attr.kind
            &&& describes(page[i].attr, t, kid.ino)
            &&& e.table.dom().contains(page[i].attr.ino)
            &&& e.table[page[i].attr.ino] == named(names.push(kid.name))
        } by {
            let k = offset + i;
            lemma_reached_child(t, names, x, k);
            law_join_name(p, kids[k].name, Seq::empty());
            assert(named(names.push(kids[k].name)) =~= p.push(Comp::Normal(kids[k].name)));
            assert(rest[i] == c[k]);
            lemma_describes(t, kids[k].ino);
            assert(stats[i] == FsOutcome::Attr(
                tree::attr_of(kids[k].ino, t.inodes[kids[k].ino]),
            ));
        }
    }
}

/// A number that stands for nothing is answered with `ENOENT`, and nothing
/// changes.
pub proof fn law_unknown_number<F: HostFs>(
    d: Desk<F>,
    ino: Ino,
    name: String,
    other: Ino,
    name2: String,
    offset: u64,
    size: u64,
    len: u32,
    data: Bytes,
    mode: u16,
    flags: OpenFlags,
    only: bool,
    e: Desk<F>,
    a: Answer,
)
    requires
        !d.table.dom().contains(ino),
        handles(d, (Request::Lookup { parent: ino, name }), e, a) || handles(
            d,
            (Request::GetAttr { ino }),
            e,
            a,
        ) || handles(d, (Request::ReadDir { ino, offset }), e, a) || handles(
            d,
            (Request::ReadDirPlus { ino, offset }),
            e,
            a,
        ) || handles(d, (Request::Open { ino, flags }), e, a) || handles(
            d,
            (Request::Read { ino, handle: 0, offset, size: len }),
            e,
            a,
        ) || handles(d, (Request::Write { ino, handle: 0, offset, data }), e, a) || handles(
            d,
            (Request::Create { parent: ino, name, mode, flags }),
            e,
            a,
        ) || handles(d, (Request::Mkdir { parent: ino, name, mode }), e, a) || handles(
            d,
            (Request::Unlink { parent: ino, name }),
            e,
            a,
        ) || handles(d, (Request::Rmdir { parent: ino, name }), e, a) || handles(
            d,
            (Request::Rename {
                old_parent: ino,
                old_name: name,
                new_parent: other,
                new_name: name2,
            }),
            e,
            a,
        ) || handles(
            d,
            (Request::Rename {
                old_parent: other,
                old_name: name2,
                new_parent: ino,
                new_name: name,
            }),
            e,
            a,
        ) || handles(d, (Request::Truncate { ino, size }), e, a) || handles(
            d,
            (Request::Chmod { ino, mode }),
            e,
            a,
        ) || handles(d, (Request::Fsync { ino, handle: offset, data_only: only }), e, a),
    ensures
        a == Answer::Error(2),
        e == d,
{
}

/// Requests that no filesystem is asked for: links are not supported, and the
/// numbers of the filesystem are fixed ones.
pub proof fn law_fixed_answers<F: HostFs>(
    d: Desk<F>,
    ino: Ino,
    name: String,
    target: String,
    e: Desk<F>,
    a: Answer,
)
    ensures
        handles(d, (Request::Symlink { parent: ino, name, target }), e, a) <==> e == d && a
            == Answer::Error(38),
        handles(d, (Request::ReadLink { ino }), e, a) <==> e == d && a == Answer::Error(38),
        handles(d, (Request::StatFs { ino }), e, a) <==> e == d && (a matches Answer::StatFs(s)
            && s.blocks == 0 && s.bfree == 0 && s.bavail == 0 && s.files == 0 && s.ffree == 0
            && s.bsize == 4096 && s.namelen == 255),
{
}

/// Looking a name up gives the attributes of what it leads to, under a number
/// that stands for its path from then on; a name that is not there is answered
/// with `ENOENT`, and one in what is no directory with `ENOTDIR`.
pub proof fn law_lookup<C: Clock>(
    d: Desk<MemFs<C>>,
    parent: Ino,
    names: Seq<Seq<char>>,
    x: Ino,
    name: String,
    y: Ino,
    e: Desk<MemFs<C>>,
    a: Answer,
)
    requires
        d.fs.wf(),
        tidy(d.fs@),
        countable(d.fs@),
        numbered(d, 1),
        d.table.dom().contains(parent),
        d.table[parent] == named(names),
        reached(d.fs@, names, x),
        usable(name@),
        handles(d, (Request::Lookup { parent, name }), e, a),
    ensures
        e.fs == d.fs,
        e.gens == d.gens,
        e.handles == d.handles,
        entry(d.fs@, x, name@, y) ==> {
            &&& a matches Answer::Entry(attr) && describes(attr, d.fs@, y)
                && e.table.dom().contains(attr.ino) && e.table[attr.ino] == named(
                names.push(name@),
            )
            &&& forall|k: Ino| #[trigger]
                d.table.dom().contains(k) ==> e.table.dom().contains(k) && e.table[k] == d.table[k]
        },
        d.fs@.inodes[x].node is Dir && (forall|z: Ino| !entry(d.fs@, x, name@, z)) ==> a
            == Answer::Error(2) && e == d,
        d.fs@.inodes[x].node is File ==> a == Answer::Error(20) && e == d,
{
    let t = d.fs@;
    let p = named(names);
    let q = named(names.push(name@));
    law_join_name(p, name@, Seq::empty());
    assert(q =~= p.push(Comp::Normal(name@)));
    law_looking(t, names, x, name@, 0, 0, 0);
    let (post, o) = choose|post: MemFs<C>, o: FsOutcome| #[trigger]
        MemFs::<C>::may(d.fs, FsOp::Stat(q), post, o) && (e, a) == entry_reply(
            Desk { fs: post, ..d },
            q,
            o,
        );
    assert(Desk { fs: post, ..d } == d);
    if entry(t, x, name@, y) {
        lemma_entry_child(t, names, x, name@, y);
        lemma_reached_usable(t, names.push(name@), y);
        lemma_describes(t, y);
        lemma_interned(d, q, 0);
    }
}

proof fn lemma_entry_child(t: Tree, names: Seq<Seq<char>>, x: Ino, name: Seq<char>, y: Ino)
    requires
        t.wf(),
        reached(t, names, x),
        entry(t, x, name, y),
    ensures
        reached(t, names.push(name), y),
        t.has(y),
{
    let all = names.push(name);
    assert(all.drop_last() =~= names);
    assert(all.last() == name);
    assert(entry(t, x, all.last(), y));
    lemma_reached_there(t, all, y);
}

/// The attributes of a number are those of what its path leads to, under this
/// number.
pub proof fn law_getattr<C: Clock>(
    d: Desk<MemFs<C>>,
    ino: Ino,
    names: Seq<Seq<char>>,
    x: Ino,
    e: Desk<MemFs<C>>,
    a: Answer,
)
    requires
        d.fs.wf(),
        tidy(d.fs@),
        countable(d.fs@),
        d.table.dom().contains(ino),
        d.table[ino] == named(names),
        reached(d.fs@, names, x),
        handles(d, (Request::GetAttr { ino }), e, a),
    ensures
        e == d,
        a matches Answer::Attr(attr) && attr.ino == ino && describes(attr, d.fs@, x),
{
    lemma_reached_there(d.fs@, names, x);
    lemma_reached_usable(d.fs@, names, x);
    lemma_describes(d.fs@, x);
}

/// Reading gives the bytes of the file from the offset on, as many as are
/// asked for or are left, with their digest and the generation of the file. A
/// directory is not read.
pub proof fn law_read<C: Clock>(
    d: Desk<MemFs<C>>,
    ino: Ino,
    handle: u64,
    names: Seq<Seq<char>>,
    x: Ino,
    offset: u64,
    size: u32,
    e: Desk<MemFs<C>>,
    a: Answer,
)
    requires
        d.fs.wf(),
        tidy(d.fs@),
        d.table.dom().contains(ino),
        d.table[ino] == named(names),
        reached(d.fs@, names, x),
        handle == 0 || !d.handles.dom().contains(handle) || d.handles[handle].flags.read,
        handles(d, (Request::Read { ino, handle, offset, size }), e, a),
    ensures
        e == d,
        match d.fs@.inodes[x].node {
            NodeView::File { content, .. } => {
                a matches Answer::Bytes { data, hash, generation } && hash
                    == crate::protocol::sha256_of(data) && generation == (
                if d.gens.dom().contains(ino) {
                    d.gens[ino]
                } else {
                    0
                }) && data.len() == (if offset >= content.len() {
                    0
                } else if content.len() - offset < size {
                    content.len() - offset
                } else {
                    size as int
                }) && forall|i: int| 0 <= i < data.len() ==> #[trigger] data[i] == content[offset
                    + i]
            },
            NodeView::Dir { .. } => a == Answer::Error(21),
        },
{
    lemma_some_name();
    law_looking(d.fs@, names, x, seq!['a'], offset, size, 0);
}

proof fn lemma_some_name()
    ensures
        usable(seq!['a']),
{
}

/// Whether the content of a file is that of another with bytes written over
/// it.
pub open spec fn written_over(
    old: Seq<u8>,
    offset: int,
    data: Seq<u8>,
    new: Seq<u8>,
) -> bool {
    &&& new.len() == (if offset + data.len() > old.len() {
        offset + data.len()
    } else {
        old.len() as int
    })
    &&& forall|i: int|
        0 <= i < new.len() ==> #[trigger] new[i] == (if offset <= i < offset + data.len() {
            data[i - offset]
        } else if i < old.len() {
            old[i]
        } else {
            0u8
        })
}

/// Whether one counter went up by one, or stood at its largest value, and no
/// other moved.
pub open spec fn counted(before: Map<Ino, u64>, after: Map<Ino, u64>, ino: Ino) -> bool {
    let was = if before.dom().contains(ino) {
        before[ino]
    } else {
        0
    };
    &&& after.dom().contains(ino)
    &&& after[ino] == (if was < u64::MAX {
        was + 1
    } else {
        was as int
    })
    &&& forall|k: Ino|
        k != ino ==> (#[trigger] after.dom().contains(k) <==> before.dom().contains(k)) && (
        before.dom().contains(k) ==> after[k] == before[k])
}

/// Writing puts the bytes into the file, at the offset, or at its end for a
/// handle that appends, and counts a change of this number; all the bytes are
/// written. Every other inode, and the table, stay as they are. A directory is
/// not written.
pub proof fn law_write<C: Clock>(
    d: Desk<MemFs<C>>,
    ino: Ino,
    handle: u64,
    names: Seq<Seq<char>>,
    x: Ino,
    offset: u64,
    data: Bytes,
    e: Desk<MemFs<C>>,
    a: Answer,
)
    requires
        d.fs.wf(),
        tidy(d.fs@),
        d.table.dom().contains(ino),
        d.table[ino] == named(names),
        reached(d.fs@, names, x),
        handle == 0 || !d.handles.dom().contains(handle) || d.handles[handle].flags.write,
        handles(d, (Request::Write { ino, handle, offset, data }), e, a),
        bytes_contents(data).len() <= u32::MAX,
    ensures
        e.table == d.table,
        e.next == d.next,
        e.handles == d.handles,
        same_but(d.fs@, e.fs@, x),
        match d.fs@.inodes[x].node {
            NodeView::File { content, mode } => {
                let appending = handle != 0 && d.handles.dom().contains(handle)
                    && d.handles[handle].flags.append;
                let at = if appending {
                    content.len() as int
                } else {
                    offset as int
                };
                &&& a matches Answer::Written(n) && n == bytes_contents(data).len()
                &&& e.fs@.inodes.dom().contains(x)
                &&& e.fs@.inodes[x].node matches NodeView::File { content: c, mode: m } && m == mode
                    && written_over(content, at, bytes_contents(data), c)
                &&& counted(d.gens, e.gens, ino)
            },
            NodeView::Dir { .. } => {
                &&& e.fs@.inodes[x] == d.fs@.inodes[x]
                &&& e.gens == d.gens
                &&& a == Answer::Error(21) || (handle != 0 && d.handles.dom().contains(handle)
                    && d.handles[handle].flags.append)
            },
        },
{
    let t = d.fs@;
    let b = bytes_contents(data);
    let p = d.table[ino];
    lemma_some_name();
    lemma_reached_there(t, names, x);
    lemma_reached_usable(t, names, x);
    law_looking(t, names, x, seq!['a'], 0, 0, 0);
    let appending = appends(d, handle);
    let o1 = tree_step(t, FsOp::Stat(p), 0).1;
    let at = if appending {
        o1->Attr_0.size
    } else {
        offset
    };
    let op = FsOp::Write { path: p, offset: at, data: b };
    let (post, o) = choose|post: MemFs<C>, o: FsOutcome| #[trigger]
        MemFs::<C>::may(d.fs, op, post, o) && (e, a) == write_reply(
            Desk { fs: post, ..d },
            ino,
            b.len(),
            o,
        );
    let now = choose|now: i64| #[trigger]
        d.fs.timer().shows(now) && (post@, o) == tree_step(t, op, now);
    law_changing_contents(t, names, x, at, b, 0, now);
}

/// Opening what is there gives a handle that was never given before, for this
/// number and with these flags; other handles stay. An open for writing that
/// truncates empties the file first and counts a change; any other leaves the
/// filesystem alone.
pub proof fn law_open<C: Clock>(
    d: Desk<MemFs<C>>,
    ino: Ino,
    names: Seq<Seq<char>>,
    x: Ino,
    flags: OpenFlags,
    e: Desk<MemFs<C>>,
    a: Answer,
)
    requires
        d.fs.wf(),
        tidy(d.fs@),
        d.last_handle < u64::MAX,
        forall|h: u64| #[trigger] d.handles.dom().contains(h) ==> h <= d.last_handle,
        d.table.dom().contains(ino),
        d.table[ino] == named(names),
        reached(d.fs@, names, x),
        handles(d, (Request::Open { ino, flags }), e, a),
    ensures
        e.table == d.table,
        d.fs@.inodes[x].node is File || !(flags.truncate && flags.write) ==> {
            &&& a matches Answer::OpenOk(h) && h != 0 && !d.handles.dom().contains(h)
                && e.handles.dom().contains(h) && e.handles[h].ino == ino && e.handles[h].flags
                == flags && e.last_handle == h && (forall|k: u64|
                k != h ==> (#[trigger] e.handles.dom().contains(k) <==> d.handles.dom().contains(k))
                    && (d.handles.dom().contains(k) ==> e.handles[k] == d.handles[k]))
        },
        !(flags.truncate && flags.write) ==> e.fs == d.fs && e.gens == d.gens,
        flags.truncate && flags.write && d.fs@.inodes[x].node is File ==> {
            &&& same_but(d.fs@, e.fs@, x)
            &&& e.fs@.inodes[x].node matches NodeView::File { content, .. } && content.len() == 0
            &&& counted(d.gens, e.gens, ino)
        },
        flags.truncate && flags.write && d.fs@.inodes[x].node is Dir ==> a == Answer::Error(21)
            && e.handles == d.handles,
{
    let t = d.fs@;
    let p = d.table[ino];
    lemma_some_name();
    lemma_reached_there(t, names, x);
    lemma_reached_usable(t, names, x);
    law_looking(t, names, x, seq!['a'], 0, 0, 0);
    if flags.truncate && flags.write {
        let op = FsOp::Truncate { path: p, size: 0 };
        let (post, o) = choose|post: MemFs<C>, o: FsOutcome| #[trigger]
            MemFs::<C>::may(d.fs, op, post, o) && (e, a) == match o {
                FsOutcome::Done => opened(changed(Desk { fs: post, ..d }, ino), ino, flags),
                FsOutcome::Failed(f) => failed(Desk { fs: post, ..d }, f),
                _ => (Desk { fs: post, ..d }, Answer::Error(5)),
            };
        let now = choose|now: i64| #[trigger]
            d.fs.timer().shows(now) && (post@, o) == tree_step(t, op, now);
        law_changing_contents(t, names, x, 0, Seq::empty(), 0, now);
    }
}

/// A handle ends with its release, and others do not.
pub proof fn law_release<F: HostFs>(d: Desk<F>, ino: Ino, handle: u64, e: Desk<F>, a: Answer)
    requires
        handles(d, (Request::Release { ino, handle }), e, a),
    ensures
        a == Answer::Done,
        !e.handles.dom().contains(handle),
        forall|k: u64|
            k != handle ==> (#[trigger] e.handles.dom().contains(k) <==> d.handles.dom().contains(k))
                && (d.handles.dom().contains(k) ==> e.handles[k] == d.handles[k]),
        e.fs == d.fs,
        e.table == d.table,
        e.gens == d.gens,
{
}

/// A handle reads what it was opened to read and writes what it was opened to
/// write: anything else is answered with `EBADF`, and nothing changes.
pub proof fn law_handle_rights<F: HostFs>(
    d: Desk<F>,
    ino: Ino,
    handle: u64,
    offset: u64,
    size: u32,
    data: Bytes,
    e: Desk<F>,
    a: Answer,
)
    requires
        handle != 0,
        d.handles.dom().contains(handle),
        (!d.handles[handle].flags.read && handles(
            d,
            (Request::Read { ino, handle, offset, size }),
            e,
            a,
        )) || (!d.handles[handle].flags.write && handles(
            d,
            (Request::Write { ino, handle, offset, data }),
            e,
            a,
        )),
    ensures
        a == Answer::Error(9),
        e == d,
{
}

/// Making a file or a directory under a free name gives its attributes, under
/// a number that stands for its path from then on; a name that is taken is
/// answered with `EEXIST`, and nothing changes.
pub proof fn law_create_and_mkdir<C: Clock>(
    d: Desk<MemFs<C>>,
    parent: Ino,
    names: Seq<Seq<char>>,
    x: Ino,
    name: String,
    mode: u16,
    flags: OpenFlags,
    as_dir: bool,
    e: Desk<MemFs<C>>,
    a: Answer,
)
    requires
        d.fs.wf(),
        tidy(d.fs@),
        numbered(d, 1),
        d.table.dom().contains(parent),
        d.table[parent] == named(names),
        reached(d.fs@, names, x),
        d.fs@.inodes[x].node is Dir,
        usable(name@),
        if as_dir {
            handles(d, (Request::Mkdir { parent, name, mode }), e, a)
        } else {
            handles(d, (Request::Create { parent, name, mode, flags }), e, a)
        },
    ensures
        e.handles == d.handles,
        e.gens == d.gens,
        (exists|y: Ino| entry(d.fs@, x, name@, y)) ==> {
            &&& a == Answer::Error(17)
            &&& e.fs@ == d.fs@
            &&& e.table == d.table
        },
        (forall|y: Ino| !entry(d.fs@, x, name@, y)) ==> {
            let new = d.fs@.next as Ino;
            &&& one_entry_more(d.fs@, e.fs@, x, name@, new)
            &&& e.fs@.inodes[new].node == (if as_dir {
                NodeView::Dir { children: Seq::empty(), mode }
            } else {
                NodeView::File { content: Seq::empty(), mode }
            })
            &&& a matches Answer::Entry(attr) && attr.size == 0 && attr.mode == mode && (
            attr.kind is Directory <==> as_dir) && (attr.kind is Regular <==> !as_dir)
                && e.table.dom().contains(attr.ino) && e.table[attr.ino] == named(
                names.push(name@),
            )
            &&& forall|k: Ino| #[trigger]
                d.table.dom().contains(k) ==> e.table.dom().contains(k) && e.table[k] == d.table[k]
        },
{
    let t = d.fs@;
    let p = named(names);
    let q = named(names.push(name@));
    law_join_name(p, name@, Seq::empty());
    assert(q =~= p.push(Comp::Normal(name@)));
    crate::host::mem::lemma_next_number(d.fs);
    let op = if as_dir {
        FsOp::Mkdir { path: q, mode }
    } else {
        FsOp::Create { path: q, mode }
    };
    let (post, o) = choose|post: MemFs<C>, o: FsOutcome| #[trigger]
        MemFs::<C>::may(d.fs, op, post, o) && (e, a) == entry_reply(
            Desk { fs: post, ..d },
            q,
            o,
        );
    let now = choose|now: i64| #[trigger]
        d.fs.timer().shows(now) && (post@, o) == tree_step(t, op, now);
    law_making(t, names, x, name@, mode, now);
    lemma_interned(Desk { fs: post, ..d }, q, 0);
    if exists|y: Ino| entry(t, x, name@, y) {
        assert(a == Answer::Error(17));
    } else {
        assert(forall|y: Ino| !entry(t, x, name@, y));
    }
}

/// Removing an entry answers with success, forgets the number of its path and
/// keeps every other; what is refused is answered with the reason, and nothing
/// changes.
pub proof fn law_unlink_and_rmdir<C: Clock>(
    d: Desk<MemFs<C>>,
    parent: Ino,
    names: Seq<Seq<char>>,
    x: Ino,
    name: String,
    y: Ino,
    of_dir: bool,
    e: Desk<MemFs<C>>,
    a: Answer,
)
    requires
        d.fs.wf(),
        tidy(d.fs@),
        numbered(d, 0),
        d.table.dom().contains(parent),
        d.table[parent] == named(names),
        reached(d.fs@, names, x),
        d.fs@.inodes[x].node is Dir,
        usable(name@),
        d.table.dom().contains(1) && d.table[1] == Seq::<Comp>::empty(),
        if of_dir {
            handles(d, (Request::Rmdir { parent, name }), e, a)
        } else {
            handles(d, (Request::Unlink { parent, name }), e, a)
        },
    ensures
        e.handles == d.handles,
        e.gens == d.gens,
        (forall|z: Ino| !entry(d.fs@, x, name@, z)) ==> a == Answer::Error(2) && e.fs@ == d.fs@
            && e.table == d.table,
        entry(d.fs@, x, name@, y) ==> {
            let refusal = match d.fs@.inodes[y].node {
                NodeView::File { .. } => if of_dir {
                    20
                } else {
                    0
                },
                NodeView::Dir { children, .. } => if !of_dir {
                    21
                } else if children.len() > 0 {
                    39
                } else {
                    0int
                },
            };
            if refusal != 0 {
                a matches Answer::Error(n) && n == refusal && e.fs@ == d.fs@ && e.table == d.table
            } else {
                &&& a == Answer::Done
                &&& one_entry_more(e.fs@, d.fs@, x, name@, y)
                &&& forall|z: Ino| !entry(e.fs@, x, name@, z)
                &&& forall|k: Ino| #[trigger]
                    e.table.dom().contains(k) <==> d.table.dom().contains(k) && d.table[k] != named(
                        names.push(name@),
                    )
                &&& forall|k: Ino| #[trigger]
                    e.table.dom().contains(k) ==> e.table[k] == d.table[k]
            }
        },
{
    let t = d.fs@;
    let p = named(names);
    let q = named(names.push(name@));
    law_join_name(p, name@, Seq::empty());
    assert(q =~= p.push(Comp::Normal(name@)));
    let op = if of_dir {
        FsOp::Rmdir(q)
    } else {
        FsOp::Unlink(q)
    };
    let (post, o) = choose|post: MemFs<C>, o: FsOutcome| #[trigger]
        MemFs::<C>::may(d.fs, op, post, o) && (e, a) == remove_reply(
            Desk { fs: post, ..d },
            q,
            o,
        );
    let now = choose|now: i64| #[trigger]
        d.fs.timer().shows(now) && (post@, o) == tree_step(t, op, now);
    law_removing(t, names, x, name@, y, now);
    if ino_of(d.table, q) is Some {
        let k = choose|k: Ino| d.table.dom().contains(k) && #[trigger] d.table[k] == q;
        assert(d.table[1].len() == 0);
        assert(k != 1);
        assert forall|j: Ino| d.table.dom().contains(j) && #[trigger] d.table[j] == q implies j
            == k by {
            assert(d.table[j] == d.table[k]);
        }
    }
}

/// Truncating and changing permission bits are answered with success, count a
/// change of this number, and do to the file what the filesystem does.
pub proof fn law_truncate_and_chmod<C: Clock>(
    d: Desk<MemFs<C>>,
    ino: Ino,
    names: Seq<Seq<char>>,
    x: Ino,
    size: u64,
    mode: u16,
    cut: bool,
    e: Desk<MemFs<C>>,
    a: Answer,
)
    requires
        d.fs.wf(),
        tidy(d.fs@),
        d.table.dom().contains(ino),
        d.table[ino] == named(names),
        reached(d.fs@, names, x),
        if cut {
            handles(d, (Request::Truncate { ino, size }), e, a)
        } else {
            handles(d, (Request::Chmod { ino, mode }), e, a)
        },
    ensures
        e.handles == d.handles,
        e.table == d.table,
        same_but(d.fs@, e.fs@, x),
        cut && d.fs@.inodes[x].node is Dir ==> a == Answer::Error(21) && e.gens == d.gens,
        !(cut && d.fs@.inodes[x].node is Dir) ==> a == Answer::Done && counted(
            d.gens,
            e.gens,
            ino,
        ),
        cut ==> (d.fs@.inodes[x].node matches NodeView::File { content, mode: m } ==> {
            e.fs@.inodes[x].node matches NodeView::File { content: c, mode: n } && n == m && c.len()
                == size && forall|i: int|
                0 <= i < size ==> #[trigger] c[i] == (if i < content.len() {
                    content[i]
                } else {
                    0u8
                })
        }),
        !cut ==> match (d.fs@.inodes[x].node, e.fs@.inodes[x].node) {
            (NodeView::File { content, .. }, NodeView::File { content: c, mode: m }) => c == content
                && m == mode % 4096,
            (NodeView::Dir { children, .. }, NodeView::Dir { children: c, mode: m }) => c
                == children && m == mode % 4096,
            _ => false,
        },
{
    let t = d.fs@;
    let p = d.table[ino];
    let op = if cut {
        FsOp::Truncate { path: p, size }
    } else {
        FsOp::Chmod { path: p, mode }
    };
    let (post, o) = choose|post: MemFs<C>, o: FsOutcome| #[trigger]
        MemFs::<C>::may(d.fs, op, post, o) && (e, a) == change_reply(
            Desk { fs: post, ..d },
            ino,
            o,
        );
    let now = choose|now: i64| #[trigger]
        d.fs.timer().shows(now) && (post@, o) == tree_step(t, op, now);
    law_changing_contents(t, names, x, 0, Seq::empty(), size, now);
    law_changing_mode(t, names, x, mode, now);
}

/// The requests of a batch are answered one by one, in order, each in the
/// state that the one before it left.
pub proof fn law_batch_in_order<F: HostFs>(
    d: Desk<F>,
    first: Request,
    second: Request,
    both: Vec<Request>,
    e: Desk<F>,
    a: Answer,
)
    requires
        both@ == seq![first, second],
        handles(d, (Request::Batch(both)), e, a),
    ensures
        a matches Answer::Batch(items) && items.len() == 2 && exists|mid: Desk<F>| #[trigger]
            serves(mid, second, e, items[1]) && serves(d, first, mid, items[0]),
{
    let items = a->Batch_0;
    let reqs = both@;
    assert(reqs.drop_last() =~= seq![first]);
    assert(seq![first].drop_last() =~= Seq::empty());
    reveal_with_fuel(serves_all, 3);
    let mid = choose|mid: Desk<F>| #[trigger]
        serves(mid, reqs.last(), e, items.last()) && serves_all(
            d,
            reqs.drop_last(),
            mid,
            items.drop_last(),
        );
    let one = items.drop_last();
    let start = choose|start: Desk<F>| #[trigger]
        serves(start, seq![first].last(), mid, one.last()) && serves_all(
            d,
            seq![first].drop_last(),
            start,
            one.drop_last(),
        );
    assert(serves_all(d, Seq::empty(), start, one.drop_last()));
    assert(start == d);
    assert(serves(mid, second, e, items[1]));
}

/// A rename that goes through moves the entry, and with it the numbers: the
/// number of the file keeps standing for it, and so does every number of what
/// lies below it; what stood under the new name loses its number, and every
/// other number keeps its path. A rename that is refused changes nothing.
#[verifier::spinoff_prover]
#[verifier::rlimit(40)]
pub proof fn law_rename<C: Clock>(
    d: Desk<MemFs<C>>,
    old_parent: Ino,
    names1: Seq<Seq<char>>,
    d1: Ino,
    old_name: String,
    x: Ino,
    new_parent: Ino,
    names2: Seq<Seq<char>>,
    d2: Ino,
    new_name: String,
    e: Desk<MemFs<C>>,
    a: Answer,
)
    requires
        d.fs.wf(),
        tidy(d.fs@),
        d.table.dom().contains(old_parent),
        d.table[old_parent] == named(names1),
        reached(d.fs@, names1, d1),
        d.fs@.inodes[d1].node is Dir,
        usable(old_name@),
        entry(d.fs@, d1, old_name@, x),
        d.table.dom().contains(new_parent),
        d.table[new_parent] == named(names2),
        reached(d.fs@, names2, d2),
        d.fs@.inodes[d2].node is Dir,
        usable(new_name@),
        forall|z: Ino| !entry(d.fs@, d2, new_name@, z),
        handles(d, (Request::Rename { old_parent, old_name, new_parent, new_name }), e, a),
    ensures
        e.handles == d.handles,
        e.gens == d.gens,
        ({
            let from = names1.push(old_name@);
            let to = names2.push(new_name@);
            let inside = names2.len() > names1.len() && names2.take(names1.len() + 1 as int)
                == from;
            &&& inside ==> a == Answer::Error(22) && e.fs@ == d.fs@ && e.table == d.table
            &&& !inside ==> {
                &&& a == Answer::Done
                &&& entry_moved(d.fs@, e.fs@, d1, old_name@, d2, new_name@, x)
                &&& e.fs@.inodes[x].node == d.fs@.inodes[x].node
                &&& forall|k: Ino, rest: Seq<Seq<char>>|
                    #![trigger d.table.dom().contains(k), named(from + rest)]
                    d.table.dom().contains(k) && d.table[k] == named(from + rest) && !(
                    rest.len() >= to.len() - from.len() && to.len() >= from.len() && to
                        == from + rest.take(to.len() - from.len())) ==> e.table.dom().contains(k)
                        && e.table[k] == named(to + rest)
                &&& forall|k: Ino, rest: Seq<Seq<char>>|
                    #![trigger d.table.dom().contains(k), named(to + rest)]
                    d.table.dom().contains(k) && d.table[k] == named(to + rest) && !(to.len()
                        <= from.len() && from.take(to.len() as int) == to)
                        ==> !e.table.dom().contains(k)
                &&& forall|k: Ino| #[trigger]
                    d.table.dom().contains(k) && !(d.table[k].len() >= from.len()
                        && d.table[k].take(from.len() as int) == named(from)) && !(d.table[k].len()
                        >= to.len() && d.table[k].take(to.len() as int) == named(to))
                        ==> e.table.dom().contains(k) && e.table[k] == d.table[k]
            }
        }),
{
    let t = d.fs@;
    let from = names1.push(old_name@);
    let to = names2.push(new_name@);
    let p = named(from);
    let q = named(to);
    law_join_name(named(names1), old_name@, Seq::empty());
    law_join_name(named(names2), new_name@, Seq::empty());
    assert(p =~= named(names1).push(Comp::Normal(old_name@)));
    assert(q =~= named(names2).push(Comp::Normal(new_name@)));
    let op = FsOp::Rename { from: p, to: q };
    let (post, o) = choose|post: MemFs<C>, o: FsOutcome| #[trigger]
        MemFs::<C>::may(d.fs, op, post, o) && (e, a) == rename_reply(
            Desk { fs: post, ..d },
            p,
            q,
            o,
        );
    let now = choose|now: i64| #[trigger]
        d.fs.timer().shows(now) && (post@, o) == tree_step(t, op, now);
    law_renaming(t, names1, d1, old_name@, x, names2, d2, new_name@, x, now);
    let inside = names2.len() > names1.len() && names2.take(names1.len() + 1 as int) == from;
    if !inside {
        assert(from != to) by {
            if from == to {
                assert(names1 =~= from.drop_last());
                assert(names2 =~= to.drop_last());
                assert(old_name@ == from.last());
                assert(new_name@ == to.last());
                lemma_reached_one(t, names1, d1, d2);
            }
        }
        lemma_named_apart(from, to);
        assert(p.take(p.len() as int) =~= p);
        assert forall|k: Ino, rest: Seq<Seq<char>>|
            #![trigger d.table.dom().contains(k), named(from + rest)]
            d.table.dom().contains(k) && d.table[k] == named(from + rest) && !(rest.len()
                >= to.len() - from.len() && to.len() >= from.len() && to == from + rest.take(
                to.len() - from.len(),
            )) implies e.table.dom().contains(k) && e.table[k] == named(to + rest) by {
            lemma_named_below(from, to, rest);
        }
        assert forall|k: Ino, rest: Seq<Seq<char>>|
            #![trigger d.table.dom().contains(k), named(to + rest)]
            d.table.dom().contains(k) && d.table[k] == named(to + rest) && !(to.len()
                <= from.len() && from.take(to.len() as int)
                == to) implies !e.table.dom().contains(k) by {
            lemma_named_under(to, rest, from);
        }
    }
}

proof fn lemma_named_apart(a: Seq<Seq<char>>, b: Seq<Seq<char>>)
    requires
        a != b,
    ensures
        named(a) != named(b),
{
    if named(a) == named(b) {
        assert(named(a).len() == named(b).len());
        assert forall|i: int| 0 <= i < a.len() implies a[i] == b[i] by {
            assert(named(a)[i] == named(b)[i]);
        }
        assert(a =~= b);
    }
}

/// What lies below a path lies below it by name.
proof fn lemma_named_under(base: Seq<Seq<char>>, rest: Seq<Seq<char>>, other: Seq<Seq<char>>)
    ensures
        under(named(base + rest), named(base)),
        under(named(other), named(base)) <==> base.len() <= other.len() && other.take(
            base.len() as int,
        ) == base,
{
    assert(named(base + rest).subrange(0, base.len() as int) =~= named(base));
    if base.len() <= other.len() {
        assert(named(other).subrange(0, base.len() as int) =~= named(
            other.take(base.len() as int),
        ));
        if other.take(base.len() as int) != base {
            lemma_named_apart(other.take(base.len() as int), base);
        }
    }
}

/// Where what lies below `from` goes when `from` becomes `to`.
proof fn lemma_named_below(
    from: Seq<Seq<char>>,
    to: Seq<Seq<char>>,
    rest: Seq<Seq<char>>,
)
    requires
        from.len() > 0,
        to.len() > 0,
        !(rest.len() >= to.len() - from.len() && to.len() >= from.len() && to == from + rest.take(
            to.len() - from.len(),
        )),
    ensures
        !displaced(named(from + rest), named(from), named(to)),
        rebased(named(from + rest), named(from), named(to)) == named(to + rest),
{
    let p = named(from + rest);
    lemma_named_under(from, rest, to);
    lemma_named_under(to, Seq::empty(), from + rest);
    lemma_named_under(to, Seq::empty(), from);
    assert(p.skip(from.len() as int) =~= named(rest));
    assert(named(to) + named(rest) =~= named(to + rest));
    if p == named(from) {
        assert(p.len() == from.len() + rest.len());
        assert(to + rest =~= to);
    }
    if under(p, named(to)) && !under(named(from), named(to)) {
        let whole = from + rest;
        assert(whole.take(to.len() as int) == to);
        if to.len() <= from.len() {
            assert(from.take(to.len() as int) =~= whole.take(to.len() as int));
        } else {
            assert(to =~= from + rest.take(to.len() - from.len()));
        }
    }
}

/// Asking that a file be kept on the disk changes nothing of it.
pub proof fn law_fsync<C: Clock>(
    d: Desk<MemFs<C>>,
    ino: Ino,
    names: Seq<Seq<char>>,
    x: Ino,
    handle: u64,
    data_only: bool,
    e: Desk<MemFs<C>>,
    a: Answer,
)
    requires
        d.fs.wf(),
        tidy(d.fs@),
        d.table.dom().contains(ino),
        d.table[ino] == named(names),
        reached(d.fs@, names, x),
        handles(d, (Request::Fsync { ino, handle, data_only }), e, a),
    ensures
        e.fs@ == d.fs@,
        e.table == d.table,
        e.gens == d.gens,
        e.handles == d.handles,
        a == Answer::Done,
{
    let t = d.fs@;
    let op = FsOp::Fsync(d.table[ino]);
    let (post, o) = choose|post: MemFs<C>, o: FsOutcome| #[trigger]
        MemFs::<C>::may(d.fs, op, post, o) && (e, a) == plain_reply(Desk { fs: post, ..d }, o);
    let now = choose|now: i64| #[trigger]
        d.fs.timer().shows(now) && (post@, o) == tree_step(t, op, now);
    lemma_reached_usable(t, names, x);
}

} // verus!
