//! What holds of the filesystem and of the requests to it, said of the names
//! and entries themselves.

use vstd::prelude::*;

use crate::host::mem::{Clock, MemFs};
use crate::host::port::{tree_step, FsOp, FsOutcome, HostFs};
use crate::host::prefetch::{dirs_in, file_stats, files_in, finds, listed, ItemView};
use crate::host::tree::{find, listing, ordered, resolve, resolve_from, Link, NodeView, Tree};
use crate::host::{path_failure, tree, ChildView};
use crate::path::{join_path, law_join_name, parse_path, plain_name, Comp};
use crate::protocol::{FileKind, Ino};

verus! {

/// The path made of names.
pub open spec fn named(names: Seq<Seq<char>>) -> Seq<Comp> {
    Seq::new(names.len(), |i: int| Comp::Normal(names[i]))
}

/// Whether a name can stand in a directory.
pub open spec fn usable(name: Seq<char>) -> bool {
    plain_name(name) && forall|i: int| 0 <= i < name.len() ==> name[i] != '\0'
}

/// Whether the entry `name` of the directory `d` leads to `x`.
pub open spec fn entry(t: Tree, d: Ino, name: Seq<char>, x: Ino) -> bool {
    t.inodes.dom().contains(d) && (t.inodes[d].node matches NodeView::Dir { children, .. }
        && exists|i: int| 0 <= i < children.len() && #[trigger] children[i] == (Link { name, ino: x }))
}

/// Whether the names lead, entry by entry, from the root to `x`.
pub open spec fn reached(t: Tree, names: Seq<Seq<char>>, x: Ino) -> bool
    decreases names.len(),
{
    if names.len() == 0 {
        x == 1
    } else {
        exists|d: Ino|
            reached(t, names.drop_last(), d) && #[trigger] entry(t, d, names.last(), x)
    }
}

/// Whether every entry has a name that can stand in a directory, and no file
/// is longer than can be counted.
pub open spec fn tidy(t: Tree) -> bool {
    &&& forall|d: Ino, name: Seq<char>, x: Ino| #[trigger] entry(t, d, name, x) ==> usable(name)
    &&& forall|k: Ino| #[trigger]
        t.inodes.dom().contains(k) ==> (t.inodes[k].node matches NodeView::File { content, .. }
            ==> content.len() <= u64::MAX)
}

proof fn lemma_find_entry(s: Seq<Link>, name: Seq<char>)
    ensures
        find(s, name) matches Some(x) ==> exists|i: int|
            0 <= i < s.len() && #[trigger] s[i] == (Link { name, ino: x }),
        find(s, name) is None ==> forall|i: int|
            0 <= i < s.len() ==> (#[trigger] s[i]).name != name,
    decreases s.len(),
{
    if s.len() > 0 {
        let rest = s.drop_first();
        lemma_find_entry(rest, name);
        if s[0].name == name {
            assert(s[0] == (Link { name, ino: s[0].ino }));
        } else {
            if let Some(x) = find(rest, name) {
                let i = choose|i: int|
                    0 <= i < rest.len() && #[trigger] rest[i] == (Link { name, ino: x });
                assert(s[i + 1] == rest[i]);
            } else {
                assert forall|i: int| 0 <= i < s.len() implies (#[trigger] s[i]).name != name by {
                    if i > 0 {
                        assert(rest[i - 1] == s[i]);
                    }
                }
            }
        }
    }
}

/// An entry of a directory is what looking its name up there gives.
pub proof fn lemma_entry_found(t: Tree, d: Ino, name: Seq<char>, x: Ino)
    requires
        t.wf(),
    ensures
        entry(t, d, name, x) <==> t.has(d) && t.inodes[d].is_dir() && find(
            t.inodes[d].children(),
            name,
        ) == Some(x),
{
    if t.has(d) && t.inodes[d].is_dir() {
        let s = t.inodes[d].children();
        assert(ordered(s));
        lemma_find_entry(s, name);
        if entry(t, d, name, x) {
            let i = choose|i: int| 0 <= i < s.len() && #[trigger] s[i] == (Link { name, ino: x });
            let y = find(s, name)->0;
            let j = choose|j: int| 0 <= j < s.len() && #[trigger] s[j] == (Link { name, ino: y });
            tree::lemma_name_order(name, name);
            if i != j {
                assert(tree::name_lt(name, name));
            }
        }
    }
}

/// Where names lead is where the path made of them is found to lead.
pub proof fn lemma_reached_resolves(t: Tree, names: Seq<Seq<char>>, x: Ino)
    requires
        t.wf(),
    ensures
        reached(t, names, x) <==> resolve_from(t, 1, named(names)) == Ok::<
            Ino,
            crate::host::Failure,
        >(x),
    decreases names.len(),
{
    let p = named(names);
    if names.len() > 0 {
        let before = names.drop_last();
        let q = named(before);
        assert(p =~= q.push(Comp::Normal(names.last())));
        tree::lemma_resolve_last(t, 1, q, names.last());
        if let Ok(d) = resolve_from(t, 1, q) {
            lemma_reached_resolves(t, before, d);
            lemma_entry_found(t, d, names.last(), x);
        }
        if reached(t, names, x) {
            let d = choose|d: Ino|
                reached(t, before, d) && #[trigger] entry(t, d, names.last(), x);
            lemma_reached_resolves(t, before, d);
            lemma_entry_found(t, d, names.last(), x);
        }
    }
}

pub proof fn lemma_names_pass(names: Seq<Seq<char>>)
    requires
        forall|i: int| 0 <= i < names.len() ==> usable(#[trigger] names[i]),
    ensures
        path_failure(named(names)) is None,
{
    let p = named(names);
    assert forall|i: int| 0 <= i < p.len() implies !crate::host::has_nul(#[trigger] p[i])
        && !crate::host::escapes(p[i]) by {
        assert(usable(names[i]));
    }
}

/// Names lead to at most one inode, along directories that are there.
pub proof fn lemma_reached_one(t: Tree, names: Seq<Seq<char>>, x: Ino, y: Ino)
    requires
        t.wf(),
        reached(t, names, x),
        reached(t, names, y),
    ensures
        x == y,
        t.has(x),
{
    lemma_reached_resolves(t, names, x);
    lemma_reached_resolves(t, names, y);
    lemma_reached_there(t, names, x);
}

pub proof fn lemma_reached_there(t: Tree, names: Seq<Seq<char>>, x: Ino)
    requires
        t.wf(),
        reached(t, names, x),
    ensures
        t.has(x),
        names.len() > 0 ==> x != 1,
{
    if names.len() > 0 {
        let d = choose|d: Ino|
            reached(t, names.drop_last(), d) && #[trigger] entry(t, d, names.last(), x);
        let s = t.inodes[d].children();
        let i = choose|i: int|
            0 <= i < s.len() && #[trigger] s[i] == (Link { name: names.last(), ino: x });
        assert(t.is_link(d, i));
    }
}

/// No inode is reached in two ways.
proof fn lemma_one_way(t: Tree, a: Seq<Seq<char>>, b: Seq<Seq<char>>, x: Ino)
    requires
        t.wf(),
        reached(t, a, x),
        reached(t, b, x),
    ensures
        a == b,
    decreases a.len(),
{
    lemma_reached_there(t, a, x);
    lemma_reached_there(t, b, x);
    if a.len() == 0 {
        assert(a =~= b);
    } else {
        let d = choose|d: Ino| reached(t, a.drop_last(), d) && #[trigger] entry(t, d, a.last(), x);
        let e = choose|e: Ino| reached(t, b.drop_last(), e) && #[trigger] entry(t, e, b.last(), x);
        let s = t.inodes[d].children();
        let r = t.inodes[e].children();
        let i = choose|i: int|
            0 <= i < s.len() && #[trigger] s[i] == (Link { name: a.last(), ino: x });
        let j = choose|j: int|
            0 <= j < r.len() && #[trigger] r[j] == (Link { name: b.last(), ino: x });
        assert(t.is_link(d, i) && t.is_link(e, j));
        lemma_one_way(t, a.drop_last(), b.drop_last(), d);
        assert(a =~= a.drop_last().push(a.last()));
        assert(b =~= b.drop_last().push(b.last()));
    }
}

/// Whether `ns` is `p` or lies below it.
spec fn extends(ns: Seq<Seq<char>>, p: Seq<Seq<char>>) -> bool {
    p.len() <= ns.len() && ns.take(p.len() as int) == p
}

/// On the way to names below `p` lies an entry of the directory at `p`.
proof fn lemma_way(t: Tree, ns: Seq<Seq<char>>, k: int, y: Ino) -> (d: Ino)
    requires
        t.wf(),
        reached(t, ns, y),
        0 <= k <= ns.len(),
    ensures
        reached(t, ns.take(k), d),
        t.has(d),
        k < ns.len() ==> t.inodes[d].is_dir(),
    decreases ns.len(),
{
    if k == ns.len() {
        assert(ns.take(k) =~= ns);
        lemma_reached_there(t, ns, y);
        y
    } else {
        let e = choose|e: Ino|
            reached(t, ns.drop_last(), e) && #[trigger] entry(t, e, ns.last(), y);
        let d = lemma_way(t, ns.drop_last(), k, e);
        assert(ns.drop_last().take(k) =~= ns.take(k));
        if k == ns.len() - 1 {
            assert(ns.take(k) =~= ns.drop_last());
            lemma_reached_one(t, ns.drop_last(), d, e);
        }
        d
    }
}

/// Whether the names stand for a regular file of at most `max` bytes, and the
/// item for its path and its size.
pub open spec fn small_file(t: Tree, names: Seq<Seq<char>>, max: u64, item: ItemView) -> bool {
    &&& item.path == named(names)
    &&& exists|x: Ino| #[trigger]
        reached(t, names, x) && (t.inodes[x].node matches NodeView::File { content, .. }
            && item.size == content.len() && content.len() <= max)
}

spec fn paths(stack: Seq<Seq<Seq<char>>>) -> Seq<Seq<Comp>> {
    Seq::new(stack.len(), |i: int| named(stack[i]))
}

spec fn is_directory(t: Tree, ns: Seq<Seq<char>>) -> bool {
    exists|x: Ino| #[trigger] reached(t, ns, x) && t.inodes[x].is_dir()
}

proof fn pick_directory(t: Tree, ns: Seq<Seq<char>>) -> (x: Ino)
    requires
        t.wf(),
        is_directory(t, ns),
    ensures
        reached(t, ns, x),
        t.has(x),
        t.inodes[x].is_dir(),
{
    let x = choose|x: Ino| #[trigger] reached(t, ns, x) && t.inodes[x].is_dir();
    lemma_reached_there(t, ns, x);
    x
}

spec fn directories(t: Tree, stack: Seq<Seq<Seq<char>>>) -> bool {
    forall|i: int| 0 <= i < stack.len() ==> is_directory(t, #[trigger] stack[i])
}

spec fn apart(stack: Seq<Seq<Seq<char>>>) -> bool {
    forall|i: int, j: int|
        #![trigger stack[i], stack[j]]
        0 <= i < stack.len() && 0 <= j < stack.len() && i != j ==> !extends(stack[i], stack[j])
}

spec fn under_stack(stack: Seq<Seq<Seq<char>>>, ns: Seq<Seq<char>>) -> bool {
    exists|i: int| 0 <= i < stack.len() && extends(ns, #[trigger] stack[i])
}

spec fn lies_under(t: Tree, stack: Seq<Seq<Seq<char>>>, x: Ino) -> bool {
    exists|ns: Seq<Seq<char>>| #[trigger] reached(t, ns, x) && under_stack(stack, ns)
}

spec fn all_under(t: Tree, stack: Seq<Seq<Seq<char>>>) -> Set<Ino> {
    Set::new(|x: Ino| lies_under(t, stack, x))
}

spec fn sub_dirs(t: Tree, p: Seq<Seq<char>>, kids: Seq<Link>) -> Seq<Seq<Seq<char>>>
    decreases kids.len(),
{
    if kids.len() == 0 {
        Seq::empty()
    } else {
        let before = sub_dirs(t, p, kids.drop_last());
        if t.has(kids.last().ino) && t.inodes[kids.last().ino].is_dir() {
            before.push(p.push(kids.last().name))
        } else {
            before
        }
    }
}

spec fn is_sub(t: Tree, p: Seq<Seq<char>>, kids: Seq<Link>, q: Seq<Seq<char>>, i: int) -> bool {
    0 <= i < kids.len() && q == p.push(kids[i].name) && t.has(kids[i].ino)
        && t.inodes[kids[i].ino].is_dir()
}

spec fn sub_of(t: Tree, p: Seq<Seq<char>>, kids: Seq<Link>, q: Seq<Seq<char>>) -> bool {
    exists|i: int| #[trigger] is_sub(t, p, kids, q, i)
}

proof fn pick_sub(t: Tree, p: Seq<Seq<char>>, kids: Seq<Link>, q: Seq<Seq<char>>) -> (i: int)
    requires
        sub_of(t, p, kids, q),
    ensures
        is_sub(t, p, kids, q, i),
{
    choose|i: int| is_sub(t, p, kids, q, i)
}

proof fn lemma_ordered_prefix(kids: Seq<Link>)
    requires
        ordered(kids),
        kids.len() > 0,
    ensures
        ordered(kids.drop_last()),
        forall|i: int| 0 <= i < kids.len() - 1 ==> (#[trigger] kids[i]).name != kids.last().name,
{
    let before = kids.drop_last();
    assert forall|i: int, j: int|
        #![trigger before[i], before[j]]
        0 <= i < j < before.len() implies tree::name_lt(before[i].name, before[j].name) by {
        assert(before[i] == kids[i] && before[j] == kids[j]);
    }
    assert forall|i: int| 0 <= i < kids.len() - 1 implies (#[trigger] kids[i]).name
        != kids.last().name by {
        assert(tree::name_lt(kids[i].name, kids[kids.len() - 1].name));
        tree::lemma_name_order(kids[i].name, kids[i].name);
    }
}

/// The directories among the children of a directory, as a walk takes them up.
#[verifier::spinoff_prover]
#[verifier::rlimit(40)]
proof fn lemma_sub_dirs(t: Tree, p: Seq<Seq<char>>, kids: Seq<Link>)
    requires
        ordered(kids),
        forall|i: int| 0 <= i < kids.len() ==> usable((#[trigger] kids[i]).name),
        forall|i: int| 0 <= i < kids.len() ==> t.has((#[trigger] kids[i]).ino),
    ensures
        dirs_in(named(p), listing(t, kids)) == paths(sub_dirs(t, p, kids)),
        forall|j: int|
            0 <= j < sub_dirs(t, p, kids).len() ==> sub_of(
                t,
                p,
                kids,
                #[trigger] sub_dirs(t, p, kids)[j],
            ),
        forall|q: Seq<Seq<char>>, i: int| #[trigger]
            is_sub(t, p, kids, q, i) ==> sub_dirs(t, p, kids).contains(q),
        forall|i: int, j: int|
            #![trigger sub_dirs(t, p, kids)[i], sub_dirs(t, p, kids)[j]]
            0 <= i < j < sub_dirs(t, p, kids).len() ==> sub_dirs(t, p, kids)[i] != sub_dirs(
                t,
                p,
                kids,
            )[j],
    decreases kids.len(),
{
    let subs = sub_dirs(t, p, kids);
    if kids.len() == 0 {
        assert(dirs_in(named(p), listing(t, kids)) =~= paths(subs));
    } else {
        let before = kids.drop_last();
        lemma_ordered_prefix(kids);
        assert forall|i: int| 0 <= i < before.len() implies usable((#[trigger] before[i]).name)
            && t.has(before[i].ino) by {
            assert(before[i] == kids[i]);
        }
        lemma_sub_dirs(t, p, before);
        let old = sub_dirs(t, p, before);
        let last = kids.last();
        assert(kids[kids.len() - 1] == last);
        assert(listing(t, kids).drop_last() =~= listing(t, before));
        law_join_name(named(p), last.name, Seq::empty());
        assert(named(p.push(last.name)) =~= named(p).push(Comp::Normal(last.name)));
        let is_dir = t.inodes[last.ino].is_dir();
        if is_dir {
            assert(paths(subs) =~= paths(old).push(named(p.push(last.name))));
        }
        assert(dirs_in(named(p), listing(t, kids)) == paths(subs));
        assert forall|j: int| 0 <= j < subs.len() implies sub_of(t, p, kids, #[trigger] subs[j]) by {
            if j < old.len() {
                assert(subs[j] == old[j]);
                assert(sub_of(t, p, before, old[j]));
                let i = choose|i: int| is_sub(t, p, before, old[j], i);
                assert(before[i] == kids[i]);
                assert(is_sub(t, p, kids, subs[j], i));
            } else {
                assert(is_sub(t, p, kids, subs[j], kids.len() - 1));
            }
        }
        assert forall|q: Seq<Seq<char>>, i: int| #[trigger]
            is_sub(t, p, kids, q, i) implies subs.contains(q) by {
            if i < kids.len() - 1 {
                assert(before[i] == kids[i]);
                assert(is_sub(t, p, before, q, i));
                let j = choose|j: int| 0 <= j < old.len() && old[j] == q;
                assert(subs[j] == q);
            } else {
                assert(subs[subs.len() - 1] == q);
            }
        }
        assert forall|i: int, j: int|
            #![trigger subs[i], subs[j]]
            0 <= i < j < subs.len() implies subs[i] != subs[j] by {
            assert(subs[i] == old[i]);
            if j < old.len() {
                assert(subs[j] == old[j]);
            } else {
                assert(sub_of(t, p, before, old[i]));
                let k = choose|k: int| is_sub(t, p, before, old[i], k);
                assert(before[k] == kids[k]);
                assert(old[i].last() == kids[k].name);
                assert(subs[j].last() == last.name);
            }
        }
    }
}

spec fn is_small(t: Tree, p: Seq<Seq<char>>, kids: Seq<Link>, max: u64, item: ItemView, i: int) -> bool {
    0 <= i < kids.len() && item.path == named(p.push(kids[i].name)) && t.has(kids[i].ino) && (
    t.inodes[kids[i].ino].node matches NodeView::File { content, .. } && item.size == content.len()
        && content.len() <= max)
}

spec fn small_of(t: Tree, p: Seq<Seq<char>>, kids: Seq<Link>, max: u64, item: ItemView) -> bool {
    exists|i: int| #[trigger] is_small(t, p, kids, max, item, i)
}

/// The files among the children of a directory, as a walk takes them up.
#[verifier::spinoff_prover]
#[verifier::rlimit(40)]
proof fn lemma_sub_files(
    t: Tree,
    p: Seq<Seq<char>>,
    kids: Seq<Link>,
    stats: Seq<FsOutcome>,
    max: u64,
)
    requires
        ordered(kids),
        tidy(t),
        kids.len() <= stats.len(),
        forall|i: int| 0 <= i < kids.len() ==> usable((#[trigger] kids[i]).name),
        forall|i: int| 0 <= i < kids.len() ==> t.has((#[trigger] kids[i]).ino),
        forall|i: int|
            0 <= i < kids.len() && !t.inodes[(#[trigger] kids[i]).ino].is_dir() ==> stats[i]
                == FsOutcome::Attr(tree::attr_of(kids[i].ino, t.inodes[kids[i].ino])),
    ensures
        ({
            let files = files_in(named(p), listing(t, kids), stats, max);
            &&& forall|j: int|
                0 <= j < files.len() ==> small_of(t, p, kids, max, #[trigger] files[j])
            &&& forall|item: ItemView, i: int| #[trigger]
                is_small(t, p, kids, max, item, i) ==> files.contains(item)
            &&& forall|i: int, j: int|
                #![trigger files[i], files[j]]
                0 <= i < j < files.len() ==> files[i].path != files[j].path
        }),
    decreases kids.len(),
{
    let files = files_in(named(p), listing(t, kids), stats, max);
    if kids.len() > 0 {
        let before = kids.drop_last();
        lemma_ordered_prefix(kids);
        assert forall|i: int| 0 <= i < before.len() implies usable((#[trigger] before[i]).name)
            && t.has(before[i].ino) && (!t.inodes[before[i].ino].is_dir() ==> stats[i]
            == FsOutcome::Attr(tree::attr_of(before[i].ino, t.inodes[before[i].ino]))) by {
            assert(before[i] == kids[i]);
        }
        lemma_sub_files(t, p, before, stats, max);
        let old = files_in(named(p), listing(t, before), stats, max);
        let last = kids.last();
        assert(kids[kids.len() - 1] == last);
        assert(listing(t, kids).drop_last() =~= listing(t, before));
        law_join_name(named(p), last.name, Seq::empty());
        assert(named(p.push(last.name)) =~= named(p).push(Comp::Normal(last.name)));
        assert forall|j: int| 0 <= j < files.len() implies small_of(
            t,
            p,
            kids,
            max,
            #[trigger] files[j],
        ) by {
            if j < old.len() {
                assert(files[j] == old[j]);
                assert(small_of(t, p, before, max, old[j]));
                let i = choose|i: int| is_small(t, p, before, max, old[j], i);
                assert(before[i] == kids[i]);
                assert(is_small(t, p, kids, max, files[j], i));
            } else {
                assert(is_small(t, p, kids, max, files[j], kids.len() - 1));
            }
        }
        assert forall|item: ItemView, i: int| #[trigger]
            is_small(t, p, kids, max, item, i) implies files.contains(item) by {
            if i < kids.len() - 1 {
                assert(before[i] == kids[i]);
                assert(is_small(t, p, before, max, item, i));
                let j = choose|j: int| 0 <= j < old.len() && old[j] == item;
                assert(files[j] == item);
            } else {
                assert(files[files.len() - 1] == item);
            }
        }
        assert forall|i: int, j: int|
            #![trigger files[i], files[j]]
            0 <= i < j < files.len() implies files[i].path != files[j].path by {
            assert(files[i] == old[i]);
            if j < old.len() {
                assert(files[j] == old[j]);
            } else {
                assert(small_of(t, p, before, max, old[i]));
                let k = choose|k: int| is_small(t, p, before, max, old[i], k);
                assert(before[k] == kids[k]);
                assert(old[i].path.last() == Comp::Normal(kids[k].name));
                assert(files[j].path.last() == Comp::Normal(last.name));
            }
        }
    }
}

pub proof fn lemma_reached_usable(t: Tree, names: Seq<Seq<char>>, x: Ino)
    requires
        t.wf(),
        tidy(t),
        reached(t, names, x),
    ensures
        forall|i: int| 0 <= i < names.len() ==> usable(#[trigger] names[i]),
        resolve(t, named(names)) == Ok::<Ino, crate::host::Failure>(x),
    decreases names.len(),
{
    if names.len() > 0 {
        let d = choose|d: Ino|
            reached(t, names.drop_last(), d) && #[trigger] entry(t, d, names.last(), x);
        lemma_reached_usable(t, names.drop_last(), d);
        assert forall|i: int| 0 <= i < names.len() implies usable(#[trigger] names[i]) by {
            if i < names.len() - 1 {
                assert(names.drop_last()[i] == names[i]);
            }
        }
    }
    lemma_names_pass(names);
    lemma_reached_resolves(t, names, x);
}

/// A child of a directory is reached by one name more.
pub proof fn lemma_reached_child(t: Tree, p: Seq<Seq<char>>, x: Ino, i: int)
    requires
        t.wf(),
        reached(t, p, x),
        t.has(x),
        t.inodes[x].is_dir(),
        0 <= i < t.inodes[x].children().len(),
    ensures
        reached(t, p.push(t.inodes[x].children()[i].name), t.inodes[x].children()[i].ino),
        t.has(t.inodes[x].children()[i].ino),
        tidy(t) ==> usable(t.inodes[x].children()[i].name),
{
    let link = t.inodes[x].children()[i];
    let q = p.push(link.name);
    assert(q.drop_last() =~= p);
    assert(t.inodes[x].children()[i] == (Link { name: link.name, ino: link.ino }));
    assert(entry(t, x, link.name, link.ino));
    assert(q.last() == link.name);
    lemma_reached_there(t, q, link.ino);
}

/// What listing a directory and asking for its files gives.
proof fn lemma_listed<C: Clock>(
    fs: MemFs<C>,
    p: Seq<Seq<char>>,
    x: Ino,
    o: FsOutcome,
    stats: Seq<FsOutcome>,
)
    requires
        fs.wf(),
        tidy(fs@),
        reached(fs@, p, x),
        fs@.inodes[x].is_dir(),
        listed(fs, named(p), o, stats),
    ensures
        ({
            let t = fs@;
            let kids = t.inodes[x].children();
            &&& o == FsOutcome::Children(listing(t, kids))
            &&& kids.len() == stats.len()
            &&& ordered(kids)
            &&& forall|i: int| 0 <= i < kids.len() ==> usable((#[trigger] kids[i]).name)
            &&& forall|i: int| 0 <= i < kids.len() ==> t.has((#[trigger] kids[i]).ino)
            &&& forall|i: int|
                0 <= i < kids.len() && !t.inodes[(#[trigger] kids[i]).ino].is_dir() ==> stats[i]
                    == FsOutcome::Attr(tree::attr_of(kids[i].ino, t.inodes[kids[i].ino]))
        }),
{
    let t = fs@;
    lemma_reached_there(t, p, x);
    lemma_reached_usable(t, p, x);
    let kids = t.inodes[x].children();
    let c = listing(t, kids);
    assert forall|i: int| 0 <= i < kids.len() implies usable((#[trigger] kids[i]).name) && t.has(
        kids[i].ino,
    ) && (!t.inodes[kids[i].ino].is_dir() ==> stats[i] == FsOutcome::Attr(
        tree::attr_of(kids[i].ino, t.inodes[kids[i].ino]),
    )) by {
        lemma_reached_child(t, p, x, i);
        let q = p.push(kids[i].name);
        lemma_reached_usable(t, q, kids[i].ino);
        law_join_name(named(p), kids[i].name, Seq::empty());
        assert(named(q) =~= named(p).push(Comp::Normal(kids[i].name)));
        assert(c[i].name == kids[i].name);
        assert(stats[i] == stats[i]);
    }
}

proof fn lemma_extends_trans(a: Seq<Seq<char>>, b: Seq<Seq<char>>, c: Seq<Seq<char>>)
    requires
        extends(a, b),
        extends(b, c),
    ensures
        extends(a, c),
{
    assert(a.take(c.len() as int) =~= a.take(b.len() as int).take(c.len() as int));
}

/// What lies below one name more lies below, and so does what lies above it,
/// or is it.
proof fn lemma_extends_child(ns: Seq<Seq<char>>, p: Seq<Seq<char>>, name: Seq<char>)
    ensures
        extends(p.push(name), p),
        extends(ns, p.push(name)) ==> extends(ns, p),
        extends(p.push(name), ns) ==> ns == p.push(name) || extends(p, ns),
        !extends(p, p.push(name)),
{
    let q = p.push(name);
    assert(q.take(p.len() as int) =~= p);
    if extends(ns, q) {
        lemma_extends_trans(ns, q, p);
    }
    if extends(q, ns) {
        if ns.len() == q.len() {
            assert(q.take(ns.len() as int) =~= q);
        } else {
            assert(q.take(ns.len() as int) =~= p.take(ns.len() as int));
        }
    }
}

proof fn lemma_named_same(a: Seq<Seq<char>>, b: Seq<Seq<char>>)
    requires
        named(a) == named(b),
    ensures
        a == b,
{
    assert(named(a).len() == a.len() && named(b).len() == b.len());
    assert forall|i: int| 0 <= i < a.len() implies a[i] == b[i] by {
        assert(named(a)[i] == Comp::Normal(a[i]));
        assert(named(b)[i] == Comp::Normal(b[i]));
    }
    assert(a =~= b);
}

/// The stack of a walk after its last directory was visited.
#[verifier::spinoff_prover]
#[verifier::rlimit(40)]
proof fn lemma_stack_step(t: Tree, stack: Seq<Seq<Seq<char>>>, x: Ino)
    requires
        t.wf(),
        tidy(t),
        stack.len() > 0,
        apart(stack),
        directories(t, stack),
        reached(t, stack.last(), x),
        t.inodes[x].is_dir(),
        all_under(t, stack).finite(),
    ensures
        ({
            let p = stack.last();
            let next = stack.drop_last() + sub_dirs(t, p, t.inodes[x].children());
            &&& apart(next)
            &&& directories(t, next)
            &&& all_under(t, next).finite()
            &&& all_under(t, next).len() < all_under(t, stack).len()
        }),
{
    let p = stack.last();
    let rest = stack.drop_last();
    let kids = t.inodes[x].children();
    lemma_reached_there(t, p, x);
    assert(ordered(kids));
    assert forall|i: int| 0 <= i < kids.len() implies usable((#[trigger] kids[i]).name) && t.has(
        kids[i].ino,
    ) by {
        lemma_reached_child(t, p, x, i);
    }
    lemma_sub_dirs(t, p, kids);
    let subs = sub_dirs(t, p, kids);
    let next = rest + subs;
    let n = stack.len() - 1;
    assert(stack[n] == p);
    assert forall|i: int| 0 <= i < next.len() implies is_directory(t, #[trigger] next[i]) by {
        if i < n {
            assert(next[i] == stack[i]);
            assert(is_directory(t, stack[i]));
        } else {
            assert(next[i] == subs[i - n]);
            assert(sub_of(t, p, kids, subs[i - n]));
            let k = pick_sub(t, p, kids, subs[i - n]);
            lemma_reached_child(t, p, x, k);
            assert(reached(t, next[i], kids[k].ino));
        }
    }
    assert forall|i: int, j: int|
        #![trigger next[i], next[j]]
        0 <= i < next.len() && 0 <= j < next.len() && i != j implies !extends(next[i], next[j]) by {
        if i < n {
            assert(next[i] == stack[i]);
        } else {
            assert(next[i] == subs[i - n]);
            assert(sub_of(t, p, kids, subs[i - n]));
        }
        if j < n {
            assert(next[j] == stack[j]);
        } else {
            assert(next[j] == subs[j - n]);
            assert(sub_of(t, p, kids, subs[j - n]));
        }
        if i < n && j < n {
            assert(!extends(stack[i], stack[j]));
        } else if i < n {
            let k = pick_sub(t, p, kids, subs[j - n]);
            lemma_extends_child(stack[i], p, kids[k].name);
            assert(!extends(stack[i], stack[n]));
        } else if j < n {
            let k = pick_sub(t, p, kids, subs[i - n]);
            lemma_extends_child(stack[j], p, kids[k].name);
            assert(!extends(stack[n], stack[j]));
            assert(!extends(stack[j], stack[n]));
        } else {
            let a = pick_sub(t, p, kids, subs[i - n]);
            let b = pick_sub(t, p, kids, subs[j - n]);
            assert(subs[i - n] != subs[j - n]);
            assert(subs[i - n].take(subs[i - n].len() as int) =~= subs[i - n]);
        }
    }
    let before = all_under(t, stack);
    let after = all_under(t, next);
    assert(extends(p, p)) by {
        assert(p.take(p.len() as int) =~= p);
    }
    assert(under_stack(stack, p)) by {
        assert(extends(p, stack[n]));
    }
    assert(lies_under(t, stack, x));
    assert(before.contains(x));
    assert forall|y: Ino| after.contains(y) implies before.remove(x).contains(y) by {
        assert(lies_under(t, next, y));
        let ns = choose|ns: Seq<Seq<char>>| #[trigger] reached(t, ns, y) && under_stack(next, ns);
        let i = choose|i: int| 0 <= i < next.len() && extends(ns, #[trigger] next[i]);
        if i < n {
            assert(next[i] == stack[i]);
            assert(extends(ns, stack[i]));
        } else {
            assert(next[i] == subs[i - n]);
            assert(sub_of(t, p, kids, subs[i - n]));
            let k = pick_sub(t, p, kids, subs[i - n]);
            lemma_extends_child(ns, p, kids[k].name);
            assert(extends(ns, stack[n]));
        }
        assert(under_stack(stack, ns));
        assert(lies_under(t, stack, y));
        if y == x {
            lemma_one_way(t, ns, p, x);
            if i < n {
                assert(!extends(stack[n], stack[i]));
            } else {
                let k = pick_sub(t, p, kids, subs[i - n]);
                lemma_extends_child(ns, p, kids[k].name);
            }
        }
    }
    assert(apart(next));
    assert(directories(t, next));
    vstd::set_lib::lemma_len_subset(after, before.remove(x));
}

spec fn to_find(t: Tree, stack: Seq<Seq<Seq<char>>>, max: u64, item: ItemView) -> bool {
    exists|ns: Seq<Seq<char>>| #[trigger] small_file(t, ns, max, item) && under_stack(stack, ns)
}

/// What is to be found below a stack is what its last directory holds and what
/// is to be found below the rest and the directories in it.
#[verifier::spinoff_prover]
#[verifier::rlimit(40)]
proof fn lemma_found_step(t: Tree, stack: Seq<Seq<Seq<char>>>, x: Ino, max: u64, item: ItemView)
    requires
        t.wf(),
        tidy(t),
        stack.len() > 0,
        apart(stack),
        directories(t, stack),
        reached(t, stack.last(), x),
        t.inodes[x].is_dir(),
    ensures
        ({
            let p = stack.last();
            let kids = t.inodes[x].children();
            let next = stack.drop_last() + sub_dirs(t, p, kids);
            &&& to_find(t, stack, max, item) <==> small_of(t, p, kids, max, item) || to_find(
                t,
                next,
                max,
                item,
            )
            &&& !(small_of(t, p, kids, max, item) && to_find(t, next, max, item))
        }),
{
    let p = stack.last();
    let kids = t.inodes[x].children();
    lemma_reached_there(t, p, x);
    assert(ordered(kids));
    assert forall|i: int| 0 <= i < kids.len() implies usable((#[trigger] kids[i]).name) && t.has(
        kids[i].ino,
    ) by {
        lemma_reached_child(t, p, x, i);
    }
    lemma_sub_dirs(t, p, kids);
    let subs = sub_dirs(t, p, kids);
    let next = stack.drop_last() + subs;
    let n = stack.len() - 1;
    assert(stack[n] == p);
    if small_of(t, p, kids, max, item) {
        let i = choose|i: int| is_small(t, p, kids, max, item, i);
        lemma_reached_child(t, p, x, i);
        let q = p.push(kids[i].name);
        assert(reached(t, q, kids[i].ino));
        assert(small_file(t, q, max, item));
        lemma_extends_child(q, p, kids[i].name);
        assert(extends(q, stack[n]));
        assert(under_stack(stack, q));
    }
    if to_find(t, next, max, item) {
        let ns = choose|ns: Seq<Seq<char>>| #[trigger]
            small_file(t, ns, max, item) && under_stack(next, ns);
        let y = choose|y: Ino| #[trigger]
            reached(t, ns, y) && (t.inodes[y].node matches NodeView::File { content, .. }
                && item.size == content.len() && content.len() <= max);
        let j = choose|j: int| 0 <= j < next.len() && extends(ns, #[trigger] next[j]);
        if j < n {
            assert(next[j] == stack[j]);
            assert(extends(ns, stack[j]));
        } else {
            assert(next[j] == subs[j - n]);
            assert(sub_of(t, p, kids, subs[j - n]));
            let k = pick_sub(t, p, kids, subs[j - n]);
            lemma_extends_child(ns, p, kids[k].name);
            assert(extends(ns, stack[n]));
        }
        assert(under_stack(stack, ns));
        if small_of(t, p, kids, max, item) {
            let i = choose|i: int| is_small(t, p, kids, max, item, i);
            lemma_reached_child(t, p, x, i);
            let q = p.push(kids[i].name);
            lemma_named_same(ns, q);
            if j < n {
                lemma_extends_child(stack[j], p, kids[i].name);
                assert(!extends(stack[n], stack[j]));
                let z = pick_directory(t, stack[j]);
                lemma_reached_one(t, q, y, z);
            } else {
                let k = pick_sub(t, p, kids, subs[j - n]);
                lemma_reached_child(t, p, x, k);
                assert(q.take(q.len() as int) =~= q);
                lemma_reached_one(t, q, y, kids[k].ino);
            }
        }
    }
    if to_find(t, stack, max, item) {
        let ns = choose|ns: Seq<Seq<char>>| #[trigger]
            small_file(t, ns, max, item) && under_stack(stack, ns);
        let y = choose|y: Ino| #[trigger]
            reached(t, ns, y) && (t.inodes[y].node matches NodeView::File { content, .. }
                && item.size == content.len() && content.len() <= max);
        let j = choose|j: int| 0 <= j < stack.len() && extends(ns, #[trigger] stack[j]);
        if j < n {
            assert(next[j] == stack[j]);
            assert(under_stack(next, ns));
        } else {
            let k = p.len() as int;
            if ns.len() == k {
                assert(ns.take(k) =~= ns);
                lemma_reached_one(t, p, x, y);
            } else {
                let q = ns.take(k + 1);
                let name = ns[k];
                assert(q =~= p.push(name));
                let z = lemma_way(t, ns, k + 1, y);
                assert(q.drop_last() =~= p);
                let d = choose|d: Ino|
                    reached(t, q.drop_last(), d) && #[trigger] entry(t, d, q.last(), z);
                lemma_reached_one(t, p, x, d);
                let i = choose|i: int|
                    0 <= i < kids.len() && #[trigger] kids[i] == (Link { name, ino: z });
                if ns.len() == k + 1 {
                    assert(q =~= ns);
                    lemma_reached_one(t, ns, y, z);
                    assert(is_small(t, p, kids, max, item, i));
                } else {
                    assert(is_sub(t, p, kids, q, i));
                    let m = choose|m: int| 0 <= m < subs.len() && subs[m] == q;
                    assert(next[n + m] == q);
                    assert(extends(ns, next[n + m]));
                    assert(under_stack(next, ns));
                }
            }
        }
    }
}

/// What a walk that visits the last directory of its stack goes on with.
proof fn lemma_visit<C: Clock>(
    fs: MemFs<C>,
    stack: Seq<Seq<Seq<char>>>,
    limit: nat,
    max: u64,
    out: Seq<ItemView>,
    x: Ino,
) -> (stats: Seq<FsOutcome>)
    requires
        fs.wf(),
        tidy(fs@),
        stack.len() > 0,
        limit > 0,
        reached(fs@, stack.last(), x),
        fs@.inodes[x].is_dir(),
        finds(fs, paths(stack), limit, max, out),
    ensures
        ({
            let t = fs@;
            let dir = named(stack.last());
            let kids = t.inodes[x].children();
            let files = files_in(dir, listing(t, kids), stats, max);
            &&& kids.len() == stats.len()
            &&& ordered(kids)
            &&& forall|i: int| 0 <= i < kids.len() ==> usable((#[trigger] kids[i]).name)
            &&& forall|i: int| 0 <= i < kids.len() ==> t.has((#[trigger] kids[i]).ino)
            &&& forall|i: int|
                0 <= i < kids.len() && !t.inodes[(#[trigger] kids[i]).ino].is_dir() ==> stats[i]
                    == FsOutcome::Attr(tree::attr_of(kids[i].ino, t.inodes[kids[i].ino]))
            &&& files.len() <= out.len()
            &&& out.take(files.len() as int) == files
            &&& finds(
                fs,
                paths(stack.drop_last()) + dirs_in(dir, listing(t, kids)),
                (limit - 1) as nat,
                max,
                out.skip(files.len() as int),
            )
        }),
{
    let p = stack.last();
    assert(paths(stack.drop_last()) =~= paths(stack).drop_last());
    let dir = paths(stack).last();
    assert(dir == named(p));
    let (o, stats) = choose|o: FsOutcome, stats: Seq<FsOutcome>| #[trigger]
        listed(fs, dir, o, stats) && match o {
            FsOutcome::Children(c) => {
                let files = files_in(dir, c, stats, max);
                &&& files.len() <= out.len()
                &&& out.take(files.len() as int) == files
                &&& finds(
                    fs,
                    paths(stack).drop_last() + dirs_in(dir, c),
                    (limit - 1) as nat,
                    max,
                    out.skip(files.len() as int),
                )
            },
            _ => finds(fs, paths(stack).drop_last(), (limit - 1) as nat, max, out),
        };
    lemma_listed(fs, p, x, o, stats);
    stats
}

/// A walk finds each file that is to be found, once, and nothing else.
#[verifier::spinoff_prover]
#[verifier::rlimit(40)]
proof fn lemma_walk<C: Clock>(
    fs: MemFs<C>,
    stack: Seq<Seq<Seq<char>>>,
    limit: nat,
    max: u64,
    out: Seq<ItemView>,
)
    requires
        fs.wf(),
        tidy(fs@),
        apart(stack),
        directories(fs@, stack),
        all_under(fs@, stack).finite(),
        all_under(fs@, stack).len() <= limit,
        finds(fs, paths(stack), limit, max, out),
    ensures
        forall|item: ItemView| #[trigger]
            out.contains(item) <==> to_find(fs@, stack, max, item),
        forall|i: int, j: int|
            #![trigger out[i], out[j]]
            0 <= i < j < out.len() ==> out[i].path != out[j].path,
    decreases limit,
{
    let t = fs@;
    if stack.len() == 0 {
    } else {
        let n = stack.len() - 1;
        let p = stack.last();
        assert(stack[n] == p);
        let x = pick_directory(t, stack[n]);
        lemma_stack_step(t, stack, x);
        let dir = named(p);
        let stats = lemma_visit(fs, stack, limit, max, out, x);
        let kids = t.inodes[x].children();
        lemma_sub_dirs(t, p, kids);
        lemma_sub_files(t, p, kids, stats, max);
        let files = files_in(dir, listing(t, kids), stats, max);
        let later = out.skip(files.len() as int);
        let next = stack.drop_last() + sub_dirs(t, p, kids);
        assert(paths(next) =~= paths(stack.drop_last()) + paths(sub_dirs(t, p, kids)));
        lemma_walk(fs, next, (limit - 1) as nat, max, later);
        assert(out =~= files + later);
        lemma_walk_step(t, stack, x, max, files, later);
    }
}

/// What was found in a directory and what is found later together.
#[verifier::spinoff_prover]
#[verifier::rlimit(40)]
proof fn lemma_walk_step(
    t: Tree,
    stack: Seq<Seq<Seq<char>>>,
    x: Ino,
    max: u64,
    files: Seq<ItemView>,
    later: Seq<ItemView>,
)
    requires
        t.wf(),
        tidy(t),
        stack.len() > 0,
        apart(stack),
        directories(t, stack),
        reached(t, stack.last(), x),
        t.has(x),
        t.inodes[x].is_dir(),
        ({
            let p = stack.last();
            let kids = t.inodes[x].children();
            let next = stack.drop_last() + sub_dirs(t, p, kids);
            &&& forall|j: int|
                0 <= j < files.len() ==> small_of(t, p, kids, max, #[trigger] files[j])
            &&& forall|item: ItemView, i: int| #[trigger]
                is_small(t, p, kids, max, item, i) ==> files.contains(item)
            &&& forall|item: ItemView| #[trigger]
                later.contains(item) <==> to_find(t, next, max, item)
        }),
        forall|i: int, j: int|
            #![trigger files[i], files[j]]
            0 <= i < j < files.len() ==> files[i].path != files[j].path,
        forall|i: int, j: int|
            #![trigger later[i], later[j]]
            0 <= i < j < later.len() ==> later[i].path != later[j].path,
    ensures
        forall|item: ItemView| #[trigger]
            (files + later).contains(item) <==> to_find(t, stack, max, item),
        forall|i: int, j: int|
            #![trigger (files + later)[i], (files + later)[j]]
            0 <= i < j < (files + later).len() ==> (files + later)[i].path != (files
                + later)[j].path,
{
    let out = files + later;
    let p = stack.last();
    let kids = t.inodes[x].children();
    let next = stack.drop_last() + sub_dirs(t, p, kids);
    assert forall|item: ItemView| #[trigger] out.contains(item) <==> to_find(
        t,
        stack,
        max,
        item,
    ) by {
        lemma_found_step(t, stack, x, max, item);
        if out.contains(item) {
            let i = choose|i: int| 0 <= i < out.len() && out[i] == item;
            if i < files.len() {
                assert(files[i] == item);
                assert(small_of(t, p, kids, max, files[i]));
            } else {
                assert(later[i - files.len()] == item);
                assert(later.contains(item));
            }
        }
        if small_of(t, p, kids, max, item) {
            let k = choose|k: int| is_small(t, p, kids, max, item, k);
            assert(is_small(t, p, kids, max, item, k));
            let i = choose|i: int| 0 <= i < files.len() && files[i] == item;
            assert(out[i] == item);
        }
        if to_find(t, next, max, item) {
            assert(later.contains(item));
            let i = choose|i: int| 0 <= i < later.len() && later[i] == item;
            assert(out[files.len() + i] == item);
        }
    }
    assert forall|i: int, j: int|
        #![trigger out[i], out[j]]
        0 <= i < j < out.len() implies out[i].path != out[j].path by {
        if j < files.len() {
            assert(out[i] == files[i] && out[j] == files[j]);
        } else if i >= files.len() {
            assert(out[i] == later[i - files.len()] && out[j] == later[j - files.len()]);
        } else {
            assert(out[i] == files[i]);
            assert(out[j] == later[j - files.len()]);
            assert(small_of(t, p, kids, max, files[i]));
            assert(later.contains(out[j]));
            assert(to_find(t, next, max, out[j]));
            if out[i].path == out[j].path {
                lemma_same_file(t, p, kids, x, next, max, out[i], out[j]);
                lemma_found_step(t, stack, x, max, out[i]);
            }
        }
    }
}

/// Two files found under one path are one.
proof fn lemma_same_file(
    t: Tree,
    p: Seq<Seq<char>>,
    kids: Seq<Link>,
    x: Ino,
    next: Seq<Seq<Seq<char>>>,
    max: u64,
    a: ItemView,
    b: ItemView,
)
    requires
        t.wf(),
        reached(t, p, x),
        t.has(x),
        t.inodes[x].is_dir(),
        kids == t.inodes[x].children(),
        small_of(t, p, kids, max, a),
        to_find(t, next, max, b),
        a.path == b.path,
    ensures
        a == b,
{
    let i = choose|i: int| is_small(t, p, kids, max, a, i);
    lemma_reached_child(t, p, x, i);
    let q = p.push(kids[i].name);
    let ns = choose|ns: Seq<Seq<char>>| #[trigger]
        small_file(t, ns, max, b) && under_stack(next, ns);
    lemma_named_same(q, ns);
    let y = choose|y: Ino| #[trigger]
        reached(t, ns, y) && (t.inodes[y].node matches NodeView::File { content, .. } && b.size
            == content.len() && content.len() <= max);
    lemma_reached_one(t, ns, y, kids[i].ino);
}

spec fn numbers_below(n: nat) -> Set<Ino> {
    Set::new(|k: Ino| k < n)
}

proof fn lemma_numbers_below(n: nat)
    requires
        n <= u64::MAX,
    ensures
        numbers_below(n).finite(),
        numbers_below(n).len() <= n,
    decreases n,
{
    if n == 0 {
        assert(numbers_below(n) =~= Set::empty());
    } else {
        let m = (n - 1) as nat;
        lemma_numbers_below(m);
        assert(numbers_below(n) =~= numbers_below(m).insert(m as u64));
    }
}

/// The walk is complete: below a directory, every path at any depth that names
/// a regular file of at most `max` bytes is found, with its size, exactly
/// once, and nothing else is.
#[verifier::spinoff_prover]
#[verifier::rlimit(40)]
pub proof fn law_walk_finds_every_small_file<C: Clock>(
    fs: MemFs<C>,
    top: Seq<Seq<char>>,
    max: u64,
    out: Seq<ItemView>,
)
    requires
        fs.wf(),
        tidy(fs@),
        forall|i: int| 0 <= i < top.len() ==> usable(#[trigger] top[i]),
        finds(fs, seq![named(top)], u64::MAX as nat, max, out),
    ensures
        forall|item: ItemView| #[trigger]
            out.contains(item) <==> exists|more: Seq<Seq<char>>|
                more.len() > 0 && #[trigger] small_file(fs@, top + more, max, item),
        forall|i: int, j: int|
            #![trigger out[i], out[j]]
            0 <= i < j < out.len() ==> out[i].path != out[j].path,
{
    let t = fs@;
    let stack = seq![top];
    assert(paths(stack) =~= seq![named(top)]);
    let is_dir = exists|x: Ino| #[trigger] reached(t, top, x) && t.inodes[x].is_dir();
    if is_dir {
        let x = choose|x: Ino| #[trigger] reached(t, top, x) && t.inodes[x].is_dir();
        assert(is_directory(t, stack[0]));
        crate::host::mem::lemma_next_number(fs);
        lemma_numbers_below(t.next as nat);
        assert forall|y: Ino| all_under(t, stack).contains(y) implies numbers_below(
            t.next as nat,
        ).contains(y) by {
            let ns = choose|ns: Seq<Seq<char>>| #[trigger] reached(t, ns, y) && under_stack(stack, ns);
            lemma_reached_there(t, ns, y);
        }
        vstd::set_lib::lemma_len_subset(all_under(t, stack), numbers_below(t.next as nat));
        lemma_walk(fs, stack, u64::MAX as nat, max, out);
    } else {
        lemma_not_listed(fs, top, max, out);
    }
    assert forall|item: ItemView| #[trigger] out.contains(item) <==> exists|more: Seq<Seq<char>>|
        more.len() > 0 && #[trigger] small_file(t, top + more, max, item) by {
        if out.contains(item) {
            assert(to_find(t, stack, max, item));
            let ns = choose|ns: Seq<Seq<char>>| #[trigger]
                small_file(t, ns, max, item) && under_stack(stack, ns);
            let i = choose|i: int| 0 <= i < stack.len() && extends(ns, #[trigger] stack[i]);
            let more = ns.skip(top.len() as int);
            assert(ns =~= top + more);
            if more.len() == 0 {
                assert(ns =~= top);
                let x = choose|x: Ino| #[trigger] reached(t, top, x) && t.inodes[x].is_dir();
                let y = choose|y: Ino| #[trigger]
                    reached(t, ns, y) && (t.inodes[y].node matches NodeView::File { content, .. }
                        && item.size == content.len() && content.len() <= max);
                lemma_reached_one(t, top, x, y);
            }
            assert(small_file(t, top + more, max, item));
        }
        if exists|more: Seq<Seq<char>>|
            more.len() > 0 && #[trigger] small_file(t, top + more, max, item) {
            let more = choose|more: Seq<Seq<char>>|
                more.len() > 0 && #[trigger] small_file(t, top + more, max, item);
            let ns = top + more;
            let y = choose|y: Ino| #[trigger]
                reached(t, ns, y) && (t.inodes[y].node matches NodeView::File { content, .. }
                    && item.size == content.len() && content.len() <= max);
            let d = lemma_way(t, ns, top.len() as int, y);
            assert(ns.take(top.len() as int) =~= top);
            assert(extends(ns, stack[0]));
            assert(under_stack(stack, ns));
            assert(to_find(t, stack, max, item));
        }
    }
}

/// Below what is no directory nothing is found.
proof fn lemma_not_listed<C: Clock>(
    fs: MemFs<C>,
    top: Seq<Seq<char>>,
    max: u64,
    out: Seq<ItemView>,
)
    requires
        fs.wf(),
        forall|i: int| 0 <= i < top.len() ==> usable(#[trigger] top[i]),
        finds(fs, seq![named(top)], u64::MAX as nat, max, out),
        !exists|x: Ino| #[trigger] reached(fs@, top, x) && fs@.inodes[x].is_dir(),
    ensures
        out.len() == 0,
{
    let t = fs@;
    let stack = seq![named(top)];
    let dir = named(top);
    lemma_names_pass(top);
    if let Ok(x) = resolve_from(t, 1, dir) {
        lemma_reached_resolves(t, top, x);
        assert(reached(t, top, x));
    }
    assert(stack.last() == dir);
    assert(stack.drop_last() =~= Seq::empty());
    let o = tree_step(t, FsOp::ListDir(dir), 0).1;
    assert(!(o is Children));
    assert(finds(fs, Seq::empty(), (u64::MAX - 1) as nat, max, out));
}

/// Whether the two trees have the same inodes but for `x`.
pub open spec fn same_but(t: Tree, u: Tree, x: Ino) -> bool {
    forall|k: Ino|
        k != x ==> (#[trigger] u.inodes.dom().contains(k) <==> t.inodes.dom().contains(k)) && (
        t.inodes.dom().contains(k) ==> u.inodes[k] == t.inodes[k])
}

/// The directory that a path of names stands in, as the operations find it.
proof fn lemma_parent(t: Tree, names: Seq<Seq<char>>, x: Ino, name: Seq<char>)
    requires
        t.wf(),
        tidy(t),
        reached(t, names, x),
        t.inodes[x].is_dir(),
        usable(name),
    ensures
        t.has(x),
        path_failure(named(names.push(name))) is None,
        tree::split_parent(t, named(names.push(name))) == Ok::<
            (Ino, Seq<char>),
            crate::host::Failure,
        >((x, name)),
        tree::parent_dir(t, named(names.push(name))) == Ok::<
            (Ino, Seq<char>),
            crate::host::Failure,
        >((x, name)),
        tree::dir_path(named(names.push(name))) == named(names),
{
    let all = names.push(name);
    let p = named(all);
    lemma_reached_there(t, names, x);
    lemma_reached_usable(t, names, x);
    assert forall|i: int| 0 <= i < all.len() implies usable(#[trigger] all[i]) by {
        if i < names.len() {
            assert(all[i] == names[i]);
        }
    }
    lemma_names_pass(all);
    assert(p.drop_last() =~= named(names));
    assert(p.last() == Comp::Normal(name));
    lemma_reached_resolves(t, names, x);
}

/// What an operation is told of a path that leads to `x`: asking for it and
/// looking into it change nothing, and a path that stops short of its end is
/// refused with the reason.
pub proof fn law_looking(
    t: Tree,
    names: Seq<Seq<char>>,
    x: Ino,
    name: Seq<char>,
    offset: u64,
    size: u32,
    now: i64,
)
    requires
        t.wf(),
        tidy(t),
        reached(t, names, x),
        usable(name),
    ensures
        ({
            let p = named(names);
            let q = named(names.push(name));
            let stat = tree_step(t, FsOp::Stat(p), now);
            let read = tree_step(t, FsOp::Read { path: p, offset, size }, now);
            let list = tree_step(t, FsOp::ListDir(p), now);
            &&& stat.0 == t && read.0 == t && list.0 == t
            &&& stat.1 matches FsOutcome::Attr(a) && a.ino == x
            &&& match t.inodes[x].node {
                NodeView::File { content, .. } => {
                    &&& read.1 matches FsOutcome::Data(b) && b.len() == (if offset >= content.len() {
                        0
                    } else if content.len() - offset < size {
                        content.len() - offset
                    } else {
                        size as int
                    }) && forall|i: int| 0 <= i < b.len() ==> #[trigger] b[i] == content[offset + i]
                    &&& list.1 == FsOutcome::Failed(crate::host::Failure::NotADirectory)
                    &&& tree_step(t, FsOp::Stat(q), now).1 == FsOutcome::Failed(
                        crate::host::Failure::NotADirectory,
                    )
                },
                NodeView::Dir { children, .. } => {
                    &&& read.1 == FsOutcome::Failed(crate::host::Failure::IsADirectory)
                    &&& list.1 matches FsOutcome::Children(c) && c.len() == children.len() && forall|
                        i: int,
                    |
                        0 <= i < c.len() ==> (#[trigger] c[i]).name == children[i].name && (
                        c[i].kind is Directory <==> t.inodes[children[i].ino].node is Dir) && (
                        c[i].kind is Regular <==> t.inodes[children[i].ino].node is File)
                    &&& (forall|y: Ino| !entry(t, x, name, y)) ==> tree_step(
                        t,
                        FsOp::Stat(q),
                        now,
                    ).1 == FsOutcome::Failed(crate::host::Failure::NotFound)
                },
            }
        }),
{
    let p = named(names);
    let all = names.push(name);
    let q = named(all);
    lemma_reached_there(t, names, x);
    lemma_reached_usable(t, names, x);
    assert forall|i: int| 0 <= i < all.len() implies usable(#[trigger] all[i]) by {
        if i < names.len() {
            assert(all[i] == names[i]);
        }
    }
    lemma_names_pass(all);
    assert(q =~= p.push(Comp::Normal(name)));
    lemma_reached_resolves(t, names, x);
    tree::lemma_resolve_last(t, 1, p, name);
    if let NodeView::Dir { children, .. } = t.inodes[x].node {
        if let Some(y) = find(children, name) {
            lemma_entry_found(t, x, name, y);
        }
        assert forall|i: int| 0 <= i < children.len() implies t.has(
            (#[trigger] children[i]).ino,
        ) by {
            lemma_reached_child(t, names, x, i);
        }
    }
}

/// What writing and truncating do to a file: the bytes that are written stand
/// where they were written, those before and behind stay, and a gap is filled
/// with zeros; a truncated file keeps its first bytes and is filled up with
/// zeros. Its permission bits stay, and so does every other inode.
pub proof fn law_changing_contents(
    t: Tree,
    names: Seq<Seq<char>>,
    x: Ino,
    offset: u64,
    data: Seq<u8>,
    size: u64,
    now: i64,
)
    requires
        t.wf(),
        tidy(t),
        reached(t, names, x),
    ensures
        ({
            let p = named(names);
            let (u, wrote) = tree_step(t, FsOp::Write { path: p, offset, data }, now);
            let (v, cut) = tree_step(t, FsOp::Truncate { path: p, size }, now);
            &&& same_but(t, u, x) && same_but(t, v, x)
            &&& u.next == t.next && v.next == t.next
            &&& match t.inodes[x].node {
                NodeView::File { content, mode } => {
                    let end = offset + data.len();
                    &&& wrote is Size
                    &&& u.inodes.dom().contains(x)
                    &&& u.inodes[x].node matches NodeView::File { content: c, mode: m } && m == mode
                        && c.len() == (if end > content.len() {
                        end
                    } else {
                        content.len() as int
                    }) && forall|i: int|
                        0 <= i < c.len() ==> #[trigger] c[i] == (if offset <= i < end {
                            data[i - offset]
                        } else if i < content.len() {
                            content[i]
                        } else {
                            0u8
                        })
                    &&& u.inodes[x].mtime_ns == now && u.inodes[x].ctime_ns == now
                    &&& u.inodes[x].atime_ns == t.inodes[x].atime_ns
                    &&& cut is Done
                    &&& v.inodes.dom().contains(x)
                    &&& v.inodes[x].node matches NodeView::File { content: c, mode: m } && m == mode
                        && c.len() == size && forall|i: int|
                        0 <= i < c.len() ==> #[trigger] c[i] == (if i < content.len() {
                            content[i]
                        } else {
                            0u8
                        })
                    &&& size == content.len() ==> v.inodes[x] == t.inodes[x]
                    &&& size != content.len() ==> v.inodes[x].mtime_ns == now
                        && v.inodes[x].ctime_ns == now
                },
                NodeView::Dir { .. } => {
                    &&& u == t && v == t
                    &&& wrote == FsOutcome::Failed(crate::host::Failure::IsADirectory)
                    &&& cut == FsOutcome::Failed(crate::host::Failure::IsADirectory)
                },
            }
        }),
{
    lemma_reached_there(t, names, x);
    lemma_reached_usable(t, names, x);
}

/// What changing permission bits does: twelve bits of those given are set,
/// and nothing else changes but the time of the change.
pub proof fn law_changing_mode(t: Tree, names: Seq<Seq<char>>, x: Ino, mode: u16, now: i64)
    requires
        t.wf(),
        tidy(t),
        reached(t, names, x),
    ensures
        ({
            let (u, o) = tree_step(t, FsOp::Chmod { path: named(names), mode }, now);
            &&& o is Done
            &&& same_but(t, u, x)
            &&& u.next == t.next
            &&& u.inodes.dom().contains(x)
            &&& match (t.inodes[x].node, u.inodes[x].node) {
                (
                    NodeView::File { content, .. },
                    NodeView::File { content: c, mode: m },
                ) => c == content && m == mode % 4096,
                (
                    NodeView::Dir { children, .. },
                    NodeView::Dir { children: c, mode: m },
                ) => c == children && m == mode % 4096,
                _ => false,
            }
            &&& u.inodes[x].ctime_ns == now
            &&& u.inodes[x].mtime_ns == t.inodes[x].mtime_ns
            &&& u.inodes[x].atime_ns == t.inodes[x].atime_ns
        }),
{
    lemma_reached_there(t, names, x);
    lemma_reached_usable(t, names, x);
    assert(mode & 0o7777 == mode % 4096) by (bit_vector);
}

/// Whether the entries of `u` are those of `t`, and one more.
pub open spec fn one_entry_more(t: Tree, u: Tree, d: Ino, name: Seq<char>, x: Ino) -> bool {
    forall|e: Ino, n: Seq<char>, y: Ino| #[trigger]
        entry(u, e, n, y) <==> entry(t, e, n, y) || (e == d && n == name && y == x)
}

/// What making a file or a directory does: under a name that is free one entry
/// more leads to a new inode, empty and with the permission bits given;
/// nothing else changes. A name that is taken is refused.
#[verifier::spinoff_prover]
#[verifier::rlimit(40)]
pub proof fn law_making(
    t: Tree,
    names: Seq<Seq<char>>,
    d: Ino,
    name: Seq<char>,
    mode: u16,
    now: i64,
)
    requires
        t.wf(),
        tidy(t),
        0 <= t.next <= u64::MAX,
        reached(t, names, d),
        t.inodes[d].node is Dir,
        usable(name),
    ensures
        ({
            let p = named(names.push(name));
            let (u, file) = tree_step(t, FsOp::Create { path: p, mode }, now);
            let (v, dir) = tree_step(t, FsOp::Mkdir { path: p, mode }, now);
            let new = t.next as Ino;
            &&& (exists|y: Ino| entry(t, d, name, y)) ==> {
                &&& u == t && v == t
                &&& file == FsOutcome::Failed(crate::host::Failure::AlreadyExists)
                &&& dir == FsOutcome::Failed(crate::host::Failure::AlreadyExists)
            }
            &&& (forall|y: Ino| !entry(t, d, name, y)) ==> {
                &&& !t.inodes.dom().contains(new)
                &&& file is Attr && dir is Attr
                &&& one_entry_more(t, u, d, name, new) && one_entry_more(t, v, d, name, new)
                &&& u.inodes.dom().contains(new) && v.inodes.dom().contains(new)
                &&& u.inodes[new].node == (NodeView::File { content: Seq::empty(), mode })
                &&& v.inodes[new].node == (NodeView::Dir { children: Seq::empty(), mode })
                &&& u.inodes[new].mtime_ns == now && v.inodes[new].mtime_ns == now
                &&& forall|k: Ino|
                    k != d && k != new ==> (#[trigger] u.inodes.dom().contains(k)
                        <==> t.inodes.dom().contains(k)) && (t.inodes.dom().contains(k)
                        ==> u.inodes[k] == t.inodes[k])
                &&& forall|k: Ino|
                    k != d && k != new ==> (#[trigger] v.inodes.dom().contains(k)
                        <==> t.inodes.dom().contains(k)) && (t.inodes.dom().contains(k)
                        ==> v.inodes[k] == t.inodes[k])
                &&& u.wf() && v.wf()
            }
        }),
{
    let p = named(names.push(name));
    lemma_parent(t, names, d, name);
    let new = t.next as Ino;
    let file = NodeView::File { content: Seq::empty(), mode };
    let dir = NodeView::Dir { children: Seq::empty(), mode };
    tree::law_make_keeps_wf(t, p, file, now);
    tree::law_make_keeps_wf(t, p, dir, now);
    let kids = t.inodes[d].children();
    if let Some(y) = find(kids, name) {
        lemma_entry_found(t, d, name, y);
    } else {
        assert forall|y: Ino| !entry(t, d, name, y) by {
            lemma_entry_found(t, d, name, y);
        }
        assert(!t.has(new));
        lemma_made(t, p, d, name, file, now);
        lemma_made(t, p, d, name, dir, now);
    }
}

proof fn lemma_made(t: Tree, p: Seq<Comp>, d: Ino, name: Seq<char>, node: NodeView, now: i64)
    requires
        t.wf(),
        0 <= t.next <= u64::MAX,
        tree::parent_dir(t, p) == Ok::<(Ino, Seq<char>), crate::host::Failure>((d, name)),
        t.has(d),
        t.inodes[d].is_dir(),
        find(t.inodes[d].children(), name) is None,
        node matches NodeView::Dir { children, .. } ==> children.len() == 0,
    ensures
        one_entry_more(t, tree::make(t, p, node, now).0, d, name, t.next as Ino),
{
    let u = tree::make(t, p, node, now).0;
    let new = t.next as Ino;
    assert(!t.has(new));
    tree::law_make_keeps_wf(t, p, node, now);
    assert forall|e: Ino, n: Seq<char>, y: Ino| #[trigger] entry(u, e, n, y) <==> entry(t, e, n, y)
        || (e == d && n == name && y == new) by {
        lemma_entry_found(t, e, n, y);
        lemma_entry_found(u, e, n, y);
        if e == d {
            tree::lemma_find_with(t.inodes[d].children(), name, new, n);
        }
    }
}

/// What removing does: the entry goes, and the inode that it led to; nothing
/// else changes. A file is unlinked, a directory is removed while it is empty;
/// anything else is refused.
#[verifier::spinoff_prover]
#[verifier::rlimit(40)]
pub proof fn law_removing(
    t: Tree,
    names: Seq<Seq<char>>,
    d: Ino,
    name: Seq<char>,
    x: Ino,
    now: i64,
)
    requires
        t.wf(),
        tidy(t),
        reached(t, names, d),
        t.inodes[d].node is Dir,
        usable(name),
    ensures
        ({
            let p = named(names.push(name));
            let (u, file) = tree_step(t, FsOp::Unlink(p), now);
            let (v, dir) = tree_step(t, FsOp::Rmdir(p), now);
            &&& (forall|y: Ino| !entry(t, d, name, y)) ==> {
                &&& u == t && v == t
                &&& file == FsOutcome::Failed(crate::host::Failure::NotFound)
                &&& dir == FsOutcome::Failed(crate::host::Failure::NotFound)
            }
            &&& entry(t, d, name, x) ==> match t.inodes[x].node {
                NodeView::File { .. } => {
                    &&& file is Done
                    &&& one_entry_more(u, t, d, name, x)
                    &&& forall|y: Ino| !entry(u, d, name, y)
                    &&& !u.inodes.dom().contains(x)
                    &&& v == t
                    &&& dir == FsOutcome::Failed(crate::host::Failure::NotADirectory)
                },
                NodeView::Dir { children, .. } => {
                    &&& u == t
                    &&& file == FsOutcome::Failed(crate::host::Failure::IsADirectory)
                    &&& children.len() > 0 ==> v == t && dir == FsOutcome::Failed(
                        crate::host::Failure::NotEmpty,
                    )
                    &&& children.len() == 0 ==> {
                        &&& dir is Done
                        &&& one_entry_more(v, t, d, name, x)
                        &&& forall|y: Ino| !entry(v, d, name, y)
                        &&& !v.inodes.dom().contains(x)
                    }
                },
            }
            &&& forall|k: Ino|
                k != d && k != x ==> (entry(t, d, name, x) ==> ((#[trigger] u.inodes.dom().contains(k)
                    <==> t.inodes.dom().contains(k)) && (t.inodes.dom().contains(k) ==> u.inodes[k]
                    == t.inodes[k])))
            &&& forall|k: Ino|
                k != d && k != x ==> (entry(t, d, name, x) ==> ((#[trigger] v.inodes.dom().contains(k)
                    <==> t.inodes.dom().contains(k)) && (t.inodes.dom().contains(k) ==> v.inodes[k]
                    == t.inodes[k])))
        }),
{
    let p = named(names.push(name));
    lemma_parent(t, names, d, name);
    let kids = t.inodes[d].children();
    lemma_entry_found(t, d, name, x);
    if let Some(y) = find(kids, name) {
        lemma_entry_found(t, d, name, y);
        tree::lemma_found(t, d, name);
        tree::law_remove_keeps_wf(t, p, now);
        if tree::unlink(t, p, now).1 is Ok || tree::rmdir(t, p, now).1 is Ok {
            let i = lemma_link_at(t, d, name, y);
            lemma_dropped(t, d, name, y, now);
        }
    }
}

proof fn lemma_link_at(t: Tree, d: Ino, name: Seq<char>, x: Ino) -> (i: int)
    requires
        entry(t, d, name, x),
    ensures
        t.is_link(d, i),
        t.target(d, i) == x,
        t.inodes[d].children()[i].name == name,
{
    let s = t.inodes[d].children();
    let i = choose|i: int| 0 <= i < s.len() && #[trigger] s[i] == (Link { name, ino: x });
    i
}

proof fn lemma_dropped(t: Tree, d: Ino, name: Seq<char>, x: Ino, now: i64)
    requires
        t.wf(),
        entry(t, d, name, x),
        tree::unlinked(t, d, name, x, now).wf(),
        t.has(x),
        x != d,
        t.inodes[x].is_dir() ==> t.inodes[x].children().len() == 0,
    ensures
        one_entry_more(tree::unlinked(t, d, name, x, now), t, d, name, x),
        forall|y: Ino| !entry(tree::unlinked(t, d, name, x, now), d, name, y),
{
    let u = tree::unlinked(t, d, name, x, now);
    let kids = t.inodes[d].children();
    lemma_entry_found(t, d, name, x);
    assert(ordered(kids));
    tree::lemma_find_gone(kids, name);
    assert forall|y: Ino| !entry(u, d, name, y) by {
        lemma_entry_found(u, d, name, y);
    }
    assert forall|e: Ino, n: Seq<char>, y: Ino| #[trigger] entry(t, e, n, y) <==> entry(u, e, n, y)
        || (e == d && n == name && y == x) by {
        lemma_entry_found(t, e, n, y);
        lemma_entry_found(u, e, n, y);
        if e == d && n != name {
            tree::lemma_find_without(kids, name, n);
        }
    }
}

proof fn lemma_without_ordered(s: Seq<Link>, name: Seq<char>)
    requires
        ordered(s),
    ensures
        ordered(tree::without_child(s, name)),
{
    if find(s, name) is Some {
        let pos = tree::lemma_without_child_at(s, name);
        tree::lemma_remove_ordered(s, pos);
    } else {
        tree::lemma_without_absent(s, name);
    }
}

/// One name more on a way meets one inode more.
proof fn lemma_passes_last(t: Tree, cur: Ino, p: Seq<Comp>, name: Seq<char>, x: Ino)
    ensures
        tree::passes(t, cur, p.push(Comp::Normal(name)), x) <==> tree::passes(t, cur, p, x) || (
        resolve_from(t, cur, p.push(Comp::Normal(name))) == Ok::<Ino, crate::host::Failure>(x)),
    decreases p.len(),
{
    let q = p.push(Comp::Normal(name));
    if p.len() == 0 {
        assert(q.drop_first() =~= Seq::empty());
        reveal_with_fuel(tree::passes, 2);
        reveal_with_fuel(resolve_from, 2);
    } else {
        let rest = p.drop_first();
        assert(q.drop_first() =~= rest.push(Comp::Normal(name)));
        assert(q[0] == p[0]);
        match p[0] {
            Comp::CurDir => {
                lemma_passes_last(t, cur, rest, name, x);
            },
            Comp::Normal(n) => {
                if t.has(cur) && t.inodes[cur].is_dir() {
                    if let Some(child) = find(t.inodes[cur].children(), n) {
                        lemma_passes_last(t, child, rest, name, x);
                    }
                }
            },
            _ => {},
        }
    }
}

/// The way along names meets `x` where its first names, or all of them, lead
/// there.
proof fn lemma_passes_reached(t: Tree, names: Seq<Seq<char>>, x: Ino) -> (k: int)
    requires
        t.wf(),
    ensures
        tree::passes(t, 1, named(names), x) ==> 0 <= k <= names.len() && reached(
            t,
            names.take(k),
            x,
        ),
        forall|j: int|
            0 <= j <= names.len() && #[trigger] reached(t, names.take(j), x) ==> tree::passes(
                t,
                1,
                named(names),
                x,
            ),
    decreases names.len(),
{
    let p = named(names);
    if names.len() == 0 {
        assert(names.take(0) =~= names);
        assert(tree::passes(t, 1, p, x) <==> x == 1) by {
            reveal_with_fuel(tree::passes, 2);
        }
        0
    } else {
        let before = names.drop_last();
        let q = named(before);
        assert(p =~= q.push(Comp::Normal(names.last())));
        lemma_passes_last(t, 1, q, names.last(), x);
        let k = lemma_passes_reached(t, before, x);
        lemma_reached_resolves(t, names, x);
        assert(names.take(names.len() as int) =~= names);
        assert forall|j: int|
            0 <= j <= names.len() && #[trigger] reached(t, names.take(j), x) implies tree::passes(
            t,
            1,
            p,
            x,
        ) by {
            if j < names.len() {
                assert(before.take(j) =~= names.take(j));
            }
        }
        if tree::passes(t, 1, q, x) {
            assert(before.take(k) =~= names.take(k));
            k
        } else {
            names.len() as int
        }
    }
}

/// Whether the entries of `u` are those of `t` with one moved: what stood
/// under its new name is gone.
pub open spec fn entry_moved(
    t: Tree,
    u: Tree,
    d1: Ino,
    n1: Seq<char>,
    d2: Ino,
    n2: Seq<char>,
    x: Ino,
) -> bool {
    forall|e: Ino, n: Seq<char>, z: Ino| #[trigger]
        entry(u, e, n, z) <==> (e == d2 && n == n2 && z == x) || (entry(t, e, n, z) && !(e == d1
            && n == n1) && !(e == d2 && n == n2))
}

/// What renaming does: the entry leads to the same inode under its new name,
/// and nothing else changes. A name that stands for the same inode already
/// stays as it is; a file takes the place of a file, and a directory that of
/// an empty one, which goes; anything else, and a directory that would move
/// into itself, is refused.
#[verifier::spinoff_prover]
#[verifier::rlimit(40)]
pub proof fn law_renaming(
    t: Tree,
    names1: Seq<Seq<char>>,
    d1: Ino,
    n1: Seq<char>,
    x: Ino,
    names2: Seq<Seq<char>>,
    d2: Ino,
    n2: Seq<char>,
    y: Ino,
    now: i64,
)
    requires
        t.wf(),
        tidy(t),
        reached(t, names1, d1),
        t.inodes[d1].node is Dir,
        usable(n1),
        entry(t, d1, n1, x),
        reached(t, names2, d2),
        t.inodes[d2].node is Dir,
        usable(n2),
        (forall|z: Ino| !entry(t, d2, n2, z)) || entry(t, d2, n2, y),
    ensures
        ({
            let from = named(names1.push(n1));
            let to = named(names2.push(n2));
            let (u, o) = tree_step(t, FsOp::Rename { from, to }, now);
            let inside = names2.len() > names1.len() && names2.take(names1.len() + 1 as int)
                == names1.push(n1);
            let taken = entry(t, d2, n2, y);
            let refusal = if taken && y != x {
                match (t.inodes[x].node, t.inodes[y].node) {
                    (NodeView::File { .. }, NodeView::Dir { .. }) => Some(
                        crate::host::Failure::AlreadyExists,
                    ),
                    (NodeView::Dir { .. }, NodeView::File { .. }) => Some(
                        crate::host::Failure::AlreadyExists,
                    ),
                    (NodeView::Dir { .. }, NodeView::Dir { children, .. }) if children.len()
                        > 0 => Some(crate::host::Failure::NotEmpty),
                    _ => None,
                }
            } else {
                None
            };
            if taken && y == x {
                u == t && o is Done
            } else if refusal is Some {
                u == t && o == FsOutcome::Failed(refusal->0)
            } else if inside {
                u == t && o == FsOutcome::Failed(crate::host::Failure::InvalidName)
            } else {
                &&& o is Done
                &&& entry_moved(t, u, d1, n1, d2, n2, x)
                &&& u.inodes.dom().contains(x)
                &&& u.inodes[x].node == t.inodes[x].node
                &&& taken ==> !u.inodes.dom().contains(y)
                &&& forall|k: Ino|
                    k != d1 && k != d2 && k != x && !(taken && k == y) ==> (
                    #[trigger] u.inodes.dom().contains(k) <==> t.inodes.dom().contains(k)) && (
                    t.inodes.dom().contains(k) ==> u.inodes[k] == t.inodes[k])
            }
        }),
{
    let from = named(names1.push(n1));
    let to = named(names2.push(n2));
    lemma_parent(t, names1, d1, n1);
    lemma_parent(t, names2, d2, n2);
    lemma_entry_found(t, d1, n1, x);
    lemma_entry_found(t, d2, n2, y);
    let there = find(t.inodes[d2].children(), n2);
    if let Some(z) = there {
        lemma_entry_found(t, d2, n2, z);
        tree::lemma_found(t, d2, n2);
    }
    tree::lemma_found(t, d1, n1);
    let i = lemma_link_at(t, d1, n1, x);
    lemma_reached_child(t, names1, d1, i);
    let whole = names1.push(n1);
    let k = lemma_passes_reached(t, names2, x);
    let inside = names2.len() > names1.len() && names2.take(names1.len() + 1 as int) == whole;
    assert(inside <==> tree::passes(t, 1, named(names2), x)) by {
        if inside {
            assert(reached(t, names2.take(names1.len() + 1 as int), x));
        }
        if tree::passes(t, 1, named(names2), x) {
            lemma_one_way(t, names2.take(k), whole, x);
        }
    }
    if !inside {
        if x == d2 {
            lemma_one_way(t, names2, whole, x);
            assert(names2.take(names2.len() as int) =~= names2);
        }
        if x == d1 {
            lemma_one_way(t, names1, whole, x);
        }
    }
    tree::law_rename_keeps_wf(t, from, to, now);
    let (u, r) = tree::rename(t, from, to, now);
    if r is Ok && there != Some(x) {
        if let Some(z) = there {
            let j = lemma_link_at(t, d2, n2, z);
            lemma_reached_child(t, names2, d2, j);
            if z == d1 {
                lemma_one_way(t, names1, names2.push(n2), d1);
            }
            if z == d2 {
                lemma_one_way(t, names2, names2.push(n2), d2);
            }
        }
        lemma_moved_entries(t, u, d1, n1, d2, n2, x, now);
    }
}

#[verifier::spinoff_prover]
#[verifier::rlimit(40)]
proof fn lemma_moved_entries(
    t: Tree,
    u: Tree,
    d1: Ino,
    n1: Seq<char>,
    d2: Ino,
    n2: Seq<char>,
    x: Ino,
    now: i64,
)
    requires
        t.wf(),
        u.wf(),
        t.has(d1) && t.inodes[d1].is_dir(),
        t.has(d2) && t.inodes[d2].is_dir(),
        x != d1 && x != d2,
        t.has(x),
        find(t.inodes[d1].children(), n1) == Some(x),
        match find(t.inodes[d2].children(), n2) {
            None => u == tree::moved(t, d1, n1, d2, n2, x, now),
            Some(y) => y != x && y != d1 && y != d2 && (t.inodes[y].is_dir()
                ==> t.inodes[y].children().len() == 0) && u == tree::moved(
                t.without(y),
                d1,
                n1,
                d2,
                n2,
                x,
                now,
            ),
        },
    ensures
        entry_moved(t, u, d1, n1, d2, n2, x),
{
    let c1 = t.inodes[d1].children();
    let c2 = t.inodes[d2].children();
    assert(ordered(c1) && ordered(c2));
    lemma_without_ordered(c1, n1);
    tree::lemma_find_gone(c1, n1);
    tree::lemma_find_gone(c2, n2);
    tree::lemma_find_gone(tree::without_child(c1, n1), n2);
    assert forall|e: Ino, n: Seq<char>, z: Ino| #[trigger] entry(u, e, n, z) <==> (e == d2 && n
        == n2 && z == x) || (entry(t, e, n, z) && !(e == d1 && n == n1) && !(e == d2 && n
        == n2)) by {
        lemma_entry_found(t, e, n, z);
        lemma_entry_found(u, e, n, z);
        if e == d2 {
            let base = if d1 == d2 {
                tree::without_child(c1, n1)
            } else {
                c2
            };
            tree::lemma_find_with(tree::without_child(base, n2), n2, x, n);
            if n != n2 {
                tree::lemma_find_without(base, n2, n);
            }
            if d1 == d2 && n != n1 {
                tree::lemma_find_without(c1, n1, n);
            }
        } else if e == d1 {
            if n != n1 {
                tree::lemma_find_without(c1, n1, n);
            }
        }
    }
}

/// Whether a line says what the names stand for: a directory, or a file with
/// its content.
pub open spec fn line_of(t: Tree, names: Seq<Seq<char>>, line: tree::SnapView) -> bool {
    &&& line.path == named(names)
    &&& exists|x: Ino| #[trigger]
        reached(t, names, x) && match t.inodes[x].node {
            NodeView::File { content, .. } => line.kind is Regular && line.content == Some(content),
            NodeView::Dir { .. } => line.kind is Directory && line.content is None,
        }
}

spec fn line_below(t: Tree, p: Seq<Seq<char>>, depth: nat, line: tree::SnapView) -> bool {
    exists|more: Seq<Seq<char>>|
        more.len() <= depth && (p + more).len() > 0 && #[trigger] line_of(t, p + more, line)
}

spec fn line_in_kids(
    t: Tree,
    p: Seq<Seq<char>>,
    kids: Seq<Link>,
    depth: nat,
    line: tree::SnapView,
    i: int,
) -> bool {
    0 <= i < kids.len() && depth > 0 && line_below(
        t,
        p.push(kids[i].name),
        (depth - 1) as nat,
        line,
    )
}

spec fn line_among(
    t: Tree,
    p: Seq<Seq<char>>,
    kids: Seq<Link>,
    depth: nat,
    line: tree::SnapView,
) -> bool {
    exists|i: int| #[trigger] line_in_kids(t, p, kids, depth, line, i)
}

#[verifier::spinoff_prover]
#[verifier::rlimit(40)]
proof fn lemma_lines(t: Tree, p: Seq<Seq<char>>, x: Ino, depth: nat, line: tree::SnapView)
    requires
        t.wf(),
        reached(t, p, x),
    ensures
        tree::walk(t, x, named(p), depth).contains(line) <==> line_below(t, p, depth, line),
    decreases depth, 1nat, 0nat,
{
    lemma_reached_there(t, p, x);
    let all = tree::walk(t, x, named(p), depth);
    let none = Seq::<Seq<char>>::empty();
    assert(p + none =~= p);
    if !t.inodes[x].is_dir() {
        if all.contains(line) {
            assert(all[0] == line);
            assert(p.len() > 0);
            assert(line_of(t, p + none, line));
        }
        if line_below(t, p, depth, line) {
            let more = choose|more: Seq<Seq<char>>|
                more.len() <= depth && (p + more).len() > 0 && #[trigger] line_of(t, p + more, line);
            let y = pick_line(t, p + more, line);
            let d = lemma_way(t, p + more, p.len() as int, y);
            assert((p + more).take(p.len() as int) =~= p);
            lemma_reached_one(t, p, x, d);
            assert(more.len() == 0);
            assert(p + more =~= p);
            lemma_reached_one(t, p, x, y);
            assert(all[0] == line);
        }
    } else {
        let kids = t.inodes[x].children();
        assert(kids.take(kids.len() as int) =~= kids);
        lemma_lines_of_kids(t, p, x, kids, depth, line);
        let below = tree::walk_children(t, kids, named(p), depth);
        let head = if p.len() == 0 {
            Seq::empty()
        } else {
            seq![tree::SnapView { path: named(p), kind: FileKind::Directory, content: None }]
        };
        assert(all == head + below);
        if all.contains(line) {
            let i = choose|i: int| 0 <= i < all.len() && all[i] == line;
            if i < head.len() {
                assert(head[i] == line);
                assert(line_of(t, p + none, line));
            } else {
                assert(below[i - head.len()] == line);
                assert(below.contains(line));
                let k = choose|k: int| #[trigger] line_in_kids(t, p, kids, depth, line, k);
                let q = p.push(kids[k].name);
                let more = choose|more: Seq<Seq<char>>|
                    more.len() <= (depth - 1) as nat && (q + more).len() > 0 && #[trigger] line_of(
                        t,
                        q + more,
                        line,
                    );
                let longer = seq![kids[k].name] + more;
                assert(q + more =~= p + longer);
                assert(line_of(t, p + longer, line));
            }
        }
        if line_below(t, p, depth, line) {
            let more = choose|more: Seq<Seq<char>>|
                more.len() <= depth && (p + more).len() > 0 && #[trigger] line_of(t, p + more, line);
            let y = pick_line(t, p + more, line);
            if more.len() == 0 {
                assert(p + more =~= p);
                lemma_reached_one(t, p, x, y);
                assert(head[0] == line);
                assert(all[0] == line);
            } else {
                let ns = p + more;
                let k = p.len() as int;
                let q = ns.take(k + 1);
                assert(q =~= p.push(more[0]));
                let z = lemma_way(t, ns, k + 1, y);
                assert(q.drop_last() =~= p);
                let d = choose|d: Ino|
                    reached(t, q.drop_last(), d) && #[trigger] entry(t, d, q.last(), z);
                lemma_reached_one(t, p, x, d);
                let i = choose|i: int|
                    0 <= i < kids.len() && #[trigger] kids[i] == (Link { name: more[0], ino: z });
                let rest = more.skip(1);
                assert(q + rest =~= ns);
                assert(line_of(t, q + rest, line));
                assert(line_below(t, p.push(kids[i].name), (depth - 1) as nat, line));
                assert(line_in_kids(t, p, kids, depth, line, i));
                assert(below.contains(line));
                let j = choose|j: int| 0 <= j < below.len() && below[j] == line;
                assert(all[head.len() + j] == line);
            }
        }
    }
}

proof fn pick_line(t: Tree, names: Seq<Seq<char>>, line: tree::SnapView) -> (x: Ino)
    requires
        line_of(t, names, line),
    ensures
        reached(t, names, x),
        match t.inodes[x].node {
            NodeView::File { content, .. } => line.kind is Regular && line.content == Some(content),
            NodeView::Dir { .. } => line.kind is Directory && line.content is None,
        },
{
    choose|x: Ino| #[trigger]
        reached(t, names, x) && match t.inodes[x].node {
            NodeView::File { content, .. } => line.kind is Regular && line.content == Some(content),
            NodeView::Dir { .. } => line.kind is Directory && line.content is None,
        }
}

#[verifier::spinoff_prover]
#[verifier::rlimit(40)]
proof fn lemma_lines_of_kids(
    t: Tree,
    p: Seq<Seq<char>>,
    x: Ino,
    kids: Seq<Link>,
    depth: nat,
    line: tree::SnapView,
)
    requires
        t.wf(),
        reached(t, p, x),
        t.has(x),
        t.inodes[x].is_dir(),
        kids.len() <= t.inodes[x].children().len(),
        kids == t.inodes[x].children().take(kids.len() as int),
    ensures
        tree::walk_children(t, kids, named(p), depth).contains(line) <==> line_among(
            t,
            p,
            kids,
            depth,
            line,
        ),
    decreases depth, 0nat, kids.len(),
{
    let all = tree::walk_children(t, kids, named(p), depth);
    if kids.len() > 0 && depth > 0 {
        let n = kids.len() - 1;
        let rest = kids.drop_last();
        let last = kids.last();
        assert(kids[n] == t.inodes[x].children()[n]);
        assert(rest =~= t.inodes[x].children().take(rest.len() as int));
        lemma_lines_of_kids(t, p, x, rest, depth, line);
        lemma_reached_child(t, p, x, n);
        let q = p.push(last.name);
        assert(named(q) =~= named(p).push(Comp::Normal(last.name)));
        lemma_lines(t, q, last.ino, (depth - 1) as nat, line);
        let a = tree::walk_children(t, rest, named(p), depth);
        let b = tree::walk(t, last.ino, named(q), (depth - 1) as nat);
        assert(all == a + b);
        if all.contains(line) {
            let i = choose|i: int| 0 <= i < all.len() && all[i] == line;
            if i < a.len() {
                assert(a[i] == line);
                assert(a.contains(line));
                let k = choose|k: int| #[trigger] line_in_kids(t, p, rest, depth, line, k);
                assert(rest[k] == kids[k]);
                assert(line_in_kids(t, p, kids, depth, line, k));
            } else {
                assert(b[i - a.len()] == line);
                assert(b.contains(line));
                assert(line_in_kids(t, p, kids, depth, line, n));
            }
        }
        if line_among(t, p, kids, depth, line) {
            let k = choose|k: int| #[trigger] line_in_kids(t, p, kids, depth, line, k);
            if k < n {
                assert(rest[k] == kids[k]);
                assert(line_in_kids(t, p, rest, depth, line, k));
                let i = choose|i: int| 0 <= i < a.len() && a[i] == line;
                assert(all[i] == line);
            } else {
                let i = choose|i: int| 0 <= i < b.len() && b[i] == line;
                assert(all[a.len() + i] == line);
            }
        }
    }
}

spec fn on_the_way(t: Tree, names: Seq<Seq<char>>, y: Ino) -> bool {
    exists|k: int| 0 <= k <= names.len() && #[trigger] reached(t, names.take(k), y)
}

/// A path is no longer than there are inodes.
proof fn lemma_way_length(t: Tree, names: Seq<Seq<char>>, x: Ino) -> (s: Set<Ino>)
    requires
        t.wf(),
        reached(t, names, x),
    ensures
        s.finite(),
        s.len() == names.len() + 1,
        forall|y: Ino| #[trigger] s.contains(y) ==> t.has(y) && on_the_way(t, names, y),
    decreases names.len(),
{
    lemma_reached_there(t, names, x);
    assert(names.take(names.len() as int) =~= names);
    if names.len() == 0 {
        let s = Set::<Ino>::empty().insert(x);
        assert(on_the_way(t, names, x)) by {
            assert(reached(t, names.take(0), x));
        }
        s
    } else {
        let before = names.drop_last();
        let d = choose|d: Ino| reached(t, before, d) && #[trigger] entry(t, d, names.last(), x);
        let r = lemma_way_length(t, before, d);
        if r.contains(x) {
            let k = choose|k: int| 0 <= k <= before.len() && #[trigger] reached(
                t,
                before.take(k),
                x,
            );
            lemma_one_way(t, before.take(k), names, x);
        }
        let s = r.insert(x);
        assert forall|y: Ino| #[trigger] s.contains(y) implies t.has(y) && on_the_way(
            t,
            names,
            y,
        ) by {
            if y == x {
                assert(reached(t, names.take(names.len() as int), x));
            } else {
                assert(r.contains(y));
                let k = choose|k: int| 0 <= k <= before.len() && #[trigger] reached(
                    t,
                    before.take(k),
                    y,
                );
                assert(before.take(k) =~= names.take(k));
                assert(reached(t, names.take(k), y));
            }
        }
        s
    }
}

/// A snapshot is complete: it has a line for every file and every directory
/// but the root, at any depth, with its path and what it holds, and no other
/// line.
pub proof fn law_snapshot_complete<C: Clock>(fs: MemFs<C>, line: tree::SnapView)
    requires
        fs.wf(),
    ensures
        tree::snapshot(fs@).contains(line) <==> exists|names: Seq<Seq<char>>|
            names.len() > 0 && #[trigger] line_of(fs@, names, line),
{
    let t = fs@;
    let none = Seq::<Seq<char>>::empty();
    let depth = t.inodes.dom().len();
    assert(named(none) =~= Seq::<Comp>::empty());
    assert(reached(t, none, 1));
    lemma_lines(t, none, 1, depth, line);
    if line_below(t, none, depth, line) {
        let more = choose|more: Seq<Seq<char>>|
            more.len() <= depth && (none + more).len() > 0 && #[trigger] line_of(
                t,
                none + more,
                line,
            );
        assert(line_of(t, none + more, line));
    }
    if exists|names: Seq<Seq<char>>| names.len() > 0 && #[trigger] line_of(t, names, line) {
        let names = choose|names: Seq<Seq<char>>|
            names.len() > 0 && #[trigger] line_of(t, names, line);
        let x = pick_line(t, names, line);
        let s = lemma_way_length(t, names, x);
        crate::host::mem::lemma_next_number(fs);
        lemma_numbers_below(t.next as nat);
        assert forall|k: Ino| t.inodes.dom().contains(k) implies numbers_below(
            t.next as nat,
        ).contains(k) by {
            assert(t.has(k));
        }
        vstd::set_lib::lemma_len_subset(t.inodes.dom(), numbers_below(t.next as nat));
        assert(s.subset_of(t.inodes.dom())) by {
            assert forall|y: Ino| #[trigger] s.contains(y) implies t.inodes.dom().contains(y) by {
                assert(t.has(y));
            }
        }
        vstd::set_lib::lemma_len_subset(s, t.inodes.dom());
        assert(none + names =~= names);
        assert(line_below(t, none, depth, line));
    }
}

/// What the attributes of a file or a directory tell: its number and kind, how
/// many bytes or entries it holds, the blocks of 512 bytes that the bytes
/// fill, its permission bits and its times.
pub proof fn law_attributes(t: Tree, names: Seq<Seq<char>>, x: Ino, now: i64)
    requires
        t.wf(),
        tidy(t),
        reached(t, names, x),
    ensures
        ({
            let (u, o) = tree_step(t, FsOp::Stat(named(names)), now);
            let e = t.inodes[x];
            &&& u == t
            &&& o matches FsOutcome::Attr(a) && a.ino == x && a.atime_ns == e.atime_ns && a.mtime_ns
                == e.mtime_ns && a.ctime_ns == e.ctime_ns && a.uid == 0 && a.gid == 0 && (
            match e.node {
                NodeView::File { content, mode } => a.kind is Regular && a.mode == mode && a.nlink
                    == 1 && a.size == content.len() && (a.blocks - 1) * 512 < content.len()
                    <= a.blocks * 512,
                NodeView::Dir { children, mode } => a.kind is Directory && a.mode == mode && a.nlink
                    == 2 && (children.len() <= u64::MAX ==> a.size == children.len()) && a.blocks
                    == 1,
            })
        }),
{
    lemma_reached_there(t, names, x);
    lemma_reached_usable(t, names, x);
}

/// Whether `e` is the directory `d` with other entries, changed at `now`.
pub open spec fn touched_dir(d: tree::InodeView, e: tree::InodeView, now: i64) -> bool {
    &&& d.node matches NodeView::Dir { mode: m, .. } && e.node matches NodeView::Dir {
        mode: n,
        ..
    } && m == n
    &&& e.mtime_ns == now
    &&& e.ctime_ns == now
    &&& e.atime_ns == d.atime_ns
}

/// A directory that an entry is put into or taken from has changed at that
/// time, and keeps its permission bits; what was moved keeps the times of its
/// contents; a number is used up only where something is made.
#[verifier::spinoff_prover]
#[verifier::rlimit(40)]
pub proof fn law_directories_touched(
    t: Tree,
    names1: Seq<Seq<char>>,
    d1: Ino,
    n1: Seq<char>,
    x: Ino,
    names2: Seq<Seq<char>>,
    d2: Ino,
    n2: Seq<char>,
    mode: u16,
    now: i64,
)
    requires
        t.wf(),
        tidy(t),
        0 <= t.next <= u64::MAX,
        reached(t, names1, d1),
        t.inodes[d1].node is Dir,
        usable(n1),
        entry(t, d1, n1, x),
        reached(t, names2, d2),
        t.inodes[d2].node is Dir,
        usable(n2),
        forall|z: Ino| !entry(t, d2, n2, z),
    ensures
        ({
            let from = named(names1.push(n1));
            let to = named(names2.push(n2));
            let file = tree_step(t, FsOp::Create { path: to, mode }, now).0;
            let dir = tree_step(t, FsOp::Mkdir { path: to, mode }, now).0;
            let (gone, ungone) = tree_step(t, FsOp::Unlink(from), now);
            let (shut, unshut) = tree_step(t, FsOp::Rmdir(from), now);
            let (there, unmoved) = tree_step(t, FsOp::Rename { from, to }, now);
            &&& touched_dir(t.inodes[d2], file.inodes[d2], now) && file.next == t.next + 1
            &&& touched_dir(t.inodes[d2], dir.inodes[d2], now) && dir.next == t.next + 1
            &&& ungone is Done ==> touched_dir(t.inodes[d1], gone.inodes[d1], now)
            &&& unshut is Done ==> touched_dir(t.inodes[d1], shut.inodes[d1], now)
            &&& gone.next == t.next && shut.next == t.next && there.next == t.next
            &&& unmoved is Done ==> {
                &&& touched_dir(t.inodes[d1], there.inodes[d1], now)
                &&& touched_dir(t.inodes[d2], there.inodes[d2], now)
                &&& there.inodes[x].mtime_ns == t.inodes[x].mtime_ns
                &&& there.inodes[x].atime_ns == t.inodes[x].atime_ns
                &&& there.inodes[x].ctime_ns == now
            }
        }),
{
    lemma_parent(t, names1, d1, n1);
    lemma_parent(t, names2, d2, n2);
    lemma_entry_found(t, d1, n1, x);
    if let Some(z) = find(t.inodes[d2].children(), n2) {
        lemma_entry_found(t, d2, n2, z);
    }
    assert(!t.has(t.next as Ino));
    law_renaming(t, names1, d1, n1, x, names2, d2, n2, x, now);
    let i = lemma_link_at(t, d1, n1, x);
    lemma_reached_child(t, names1, d1, i);
    if x == d1 {
        lemma_one_way(t, names1, names1.push(n1), x);
    }
    if x == d2 {
        lemma_one_way(t, names2, names1.push(n1), x);
        assert(names2.take(names1.len() + 1 as int) =~= names2);
    }
}

proof fn lemma_resolve_two(t: Tree, cur: Ino, p: Seq<Comp>, q: Seq<Comp>)
    ensures
        resolve_from(t, cur, p + q) == (match resolve_from(t, cur, p) {
            Ok(mid) => resolve_from(t, mid, q),
            Err(e) => Err(e),
        }),
    decreases p.len(),
{
    if p.len() == 0 {
        assert(p + q =~= q);
    } else {
        assert((p + q)[0] == p[0]);
        assert((p + q).drop_first() =~= p.drop_first() + q);
        match p[0] {
            Comp::CurDir => {
                lemma_resolve_two(t, cur, p.drop_first(), q);
            },
            Comp::Normal(name) => {
                if t.has(cur) && t.inodes[cur].is_dir() {
                    if let Some(child) = find(t.inodes[cur].children(), name) {
                        lemma_resolve_two(t, child, p.drop_first(), q);
                    }
                }
            },
            _ => {},
        }
    }
}

/// A path that goes on below a name that its directory does not have leads
/// nowhere, and one that goes on below a file is no path: every operation is
/// refused for that reason, and nothing changes.
#[verifier::spinoff_prover]
#[verifier::rlimit(40)]
pub proof fn law_no_way(
    t: Tree,
    names: Seq<Seq<char>>,
    x: Ino,
    name: Seq<char>,
    rest: Seq<Seq<char>>,
    last: Seq<char>,
    op: FsOp,
    now: i64,
)
    requires
        t.wf(),
        tidy(t),
        reached(t, names, x),
        usable(name),
        usable(last),
        forall|i: int| 0 <= i < rest.len() ==> usable(#[trigger] rest[i]),
        t.inodes[x].node is Dir ==> forall|y: Ino| !entry(t, x, name, y),
        ({
            let p = named((names.push(name) + rest).push(last));
            match op {
                FsOp::Stat(q) | FsOp::ListDir(q) | FsOp::Unlink(q) | FsOp::Rmdir(q) | FsOp::Fsync(
                    q,
                ) => q == p,
                FsOp::Read { path, .. } => path == p,
                FsOp::Write { path, .. } => path == p,
                FsOp::Create { path, .. } => path == p,
                FsOp::Mkdir { path, .. } => path == p,
                FsOp::Truncate { path, .. } => path == p,
                FsOp::Chmod { path, .. } => path == p,
                FsOp::Rename { from, .. } => from == p && path_failure(op->to) is None,
            }
        }),
    ensures
        ({
            let (u, o) = tree_step(t, op, now);
            u == t && o == FsOutcome::Failed(
                if t.inodes[x].node is Dir {
                    crate::host::Failure::NotFound
                } else {
                    crate::host::Failure::NotADirectory
                },
            )
        }),
{
    let before = names.push(name) + rest;
    let all = before.push(last);
    let p = named(all);
    lemma_reached_there(t, names, x);
    lemma_reached_usable(t, names, x);
    assert forall|i: int| 0 <= i < all.len() implies usable(#[trigger] all[i]) by {
        if i < names.len() {
            assert(all[i] == names[i]);
        } else if names.len() < i < all.len() - 1 {
            assert(all[i] == rest[i - names.len() - 1]);
        }
    }
    lemma_names_pass(all);
    lemma_reached_resolves(t, names, x);
    let q = named(names);
    let tail = named(seq![name] + rest);
    let full = named((seq![name] + rest).push(last));
    assert(named(before) =~= q + tail);
    assert(p =~= q + full);
    assert(p.drop_last() =~= named(before));
    lemma_resolve_two(t, 1, q, tail);
    lemma_resolve_two(t, 1, q, full);
    assert(tail[0] == Comp::Normal(name));
    assert(full[0] == Comp::Normal(name));
    if t.inodes[x].is_dir() {
        if let Some(y) = find(t.inodes[x].children(), name) {
            lemma_entry_found(t, x, name, y);
        }
    }
    assert(p.last() == Comp::Normal(last));
}

/// Names stand in the order of their characters: the first character in which
/// two differ decides, and a name comes before every longer one that begins
/// with it.
pub proof fn law_name_order(front: Seq<char>, a: Seq<char>, b: Seq<char>)
    ensures
        tree::name_lt(front + a, front + b) == tree::name_lt(a, b),
        a.len() > 0 && b.len() > 0 && a[0] != b[0] ==> (tree::name_lt(front + a, front + b)
            <==> a[0] < b[0]),
        b.len() > 0 ==> tree::name_lt(front, front + b) && !tree::name_lt(front + b, front),
        !tree::name_lt(front, front),
    decreases front.len(),
{
    if front.len() == 0 {
        assert(front + a =~= a);
        assert(front + b =~= b);
    } else {
        assert((front + a).drop_first() =~= front.drop_first() + a);
        assert((front + b).drop_first() =~= front.drop_first() + b);
        law_name_order(front.drop_first(), a, b);
    }
}

/// A new tree is a root without entries, which its owner alone may change.
pub proof fn law_new_tree(now: i64, names: Seq<Seq<char>>, x: Ino)
    ensures
        tree::empty_tree(now).wf(),
        tidy(tree::empty_tree(now)),
        reached(tree::empty_tree(now), names, x) <==> names.len() == 0 && x == 1,
        tree::empty_tree(now).inodes[1].node == (NodeView::Dir {
            children: Seq::empty(),
            mode: 493,
        }),
        tree::empty_tree(now).inodes[1].mtime_ns == now,
        tree::empty_tree(now).inodes[1].ctime_ns == now,
        tree::empty_tree(now).inodes[1].atime_ns == now,
        tree::empty_tree(now).next == 2,
{
    let t = tree::empty_tree(now);
    assert forall|d: Ino, n: Seq<char>, y: Ino| !#[trigger] entry(t, d, n, y) by {}
}

/// Paths stand in the order of their names: the first name in which two differ
/// decides, and a path comes before what lies below it.
pub proof fn law_path_order(
    front: Seq<Seq<char>>,
    a: Seq<char>,
    b: Seq<char>,
    c: Seq<Seq<char>>,
    d: Seq<Seq<char>>,
)
    ensures
        a != b ==> (tree::path_lt(named(front.push(a) + c), named(front.push(b) + d))
            <==> tree::name_lt(a, b)),
        c.len() > 0 ==> tree::path_lt(named(front), named(front + c)),
        c.len() > 0 ==> !tree::path_lt(named(front + c), named(front)),
    decreases front.len(),
{
    let p = named(front.push(a) + c);
    let q = named(front.push(b) + d);
    let r = named(front + c);
    if front.len() == 0 {
        assert(p[0] == Comp::Normal(a));
        assert(q[0] == Comp::Normal(b));
    } else {
        let rest = front.drop_first();
        law_path_order(rest, a, b, c, d);
        assert(tree::name_lt(front[0], front[0]) == false) by {
            law_name_order(front[0], front[0], front[0]);
        }
        assert(p.drop_first() =~= named(rest.push(a) + c));
        assert(q.drop_first() =~= named(rest.push(b) + d));
        assert(r.drop_first() =~= named(rest + c));
        assert(named(front).drop_first() =~= named(rest));
        assert(p[0] == Comp::Normal(front[0]));
        assert(q[0] == Comp::Normal(front[0]));
        assert(r[0] == Comp::Normal(front[0]));
    }
}

} // verus!
